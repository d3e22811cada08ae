use rldyour_clipboard::capture::windows::{
    add_bitmap, concealed, dib_to_bmp, read_opened, strip_cf_html, trim_nul, utf16_to_utf8,
    wants_bitmap, Formats,
};
use rldyour_clipboard::capture::x11::{
    next_backoff, taken_over, targets_to_read, Atoms, Need, Reading, Seen, Transfer,
    CONVERT_TIMEOUT, INCR_TIMEOUT,
};
use rldyour_clipboard::capture::Recorder;
use rldyour_clipboard::store::blobs::digest_of;
use rldyour_clipboard::store::index::Index;
use rldyour_clipboard::store::{Samples, Store, StoreError};

fn wide(text: &str) -> Vec<u8> {
    text.encode_utf16()
        .flat_map(|unit| unit.to_le_bytes())
        .collect()
}

#[test]
fn windows_text_ends_at_its_terminator() {
    assert_eq!(utf16_to_utf8(&wide("héllo 😀\0junk")), "héllo 😀".as_bytes());
    // An odd last byte is no unit, and an unpaired surrogate no character.
    assert_eq!(utf16_to_utf8(&[0x41, 0, 0x42]), b"A");
    assert_eq!(
        utf16_to_utf8(&[0x00, 0xd8, 0x41, 0x00]),
        "\u{fffd}A".as_bytes()
    );
    let units: [u16; 6] = [0xdc00, 0xd83d, 0xd83d, 0xde00, 0xe000, 0xdbff];
    let bytes: Vec<u8> = units.iter().flat_map(|unit| unit.to_le_bytes()).collect();
    assert_eq!(
        utf16_to_utf8(&bytes),
        "\u{fffd}\u{fffd}😀\u{e000}\u{fffd}".as_bytes()
    );
    assert_eq!(trim_nul(b"ansi\0junk".to_vec()), b"ansi");
    assert_eq!(trim_nul(b"ansi".to_vec()), b"ansi");
}

#[test]
fn windows_html_is_what_its_header_points_at() {
    let body = "<html><!--StartFragment--><b>x</b><!--EndFragment--></html>";
    let header = |start: usize, end: usize| {
        format!("Version:0.9\r\nStartFragment:{start:010}\r\nEndFragment:{end:010}\r\n")
    };
    let length = header(0, 0).len();
    let start = length + body.find("<b>").unwrap();
    let end = start + "<b>x</b>".len();
    let whole = format!("{}{body}", header(start, end)).into_bytes();
    assert_eq!(strip_cf_html(whole), b"<b>x</b>");

    // Without a usable header the whole buffer is the best guess.
    for unusable in [
        "<b>bare</b>".to_string(),
        "StartFragment:3\nEndFragment:2\n".to_string(),
        "StartFragment:1\nEndFragment:9999\n".to_string(),
        "StartFragment:one\nEndFragment:5\n".to_string(),
        " StartFragment:1\nEndFragment:5\n".to_string(),
        "StartFragment:1\n".to_string(),
    ] {
        let bytes = unusable.clone().into_bytes();
        assert_eq!(strip_cf_html(bytes.clone()), bytes, "{unusable:?}");
    }
    // A sign and space around the number are read over.
    let bytes = b"StartFragment: +2 \nEndFragment:4".to_vec();
    assert_eq!(strip_cf_html(bytes), b"ar");
}

fn dib(bits: u16, compression: u32, used: u32) -> Vec<u8> {
    let mut dib = vec![0u8; 48];
    dib[0..4].copy_from_slice(&40u32.to_le_bytes());
    dib[14..16].copy_from_slice(&bits.to_le_bytes());
    dib[16..20].copy_from_slice(&compression.to_le_bytes());
    dib[32..36].copy_from_slice(&used.to_le_bytes());
    dib
}

#[test]
fn a_windows_bitmap_gets_its_file_header_back() {
    for (bits, compression, used, pixels_at) in [
        (24u16, 0u32, 0u32, 54u32),
        (32, 0, 0, 54),
        (32, 3, 0, 66),
        (16, 3, 0, 66),
        (8, 0, 0, 54 + 1024),
        (8, 0, 5, 54 + 20),
        (4, 0, 0, 54 + 64),
        (1, 0, 0, 54 + 8),
        (8, 0, u32::MAX, 50),
    ] {
        let dib = dib(bits, compression, used);
        let bmp = dib_to_bmp(dib.clone()).unwrap();
        assert_eq!(&bmp[..2], b"BM");
        assert_eq!(&bmp[2..6], &62u32.to_le_bytes());
        assert_eq!(&bmp[6..10], &[0, 0, 0, 0]);
        assert_eq!(&bmp[10..14], &pixels_at.to_le_bytes(), "{bits} {compression} {used}");
        assert_eq!(&bmp[14..], &dib[..]);
    }
    assert!(dib_to_bmp(vec![0; 39]).is_none());
}

#[test]
fn a_windows_secret_is_never_read() {
    assert!(concealed(true, None));
    assert!(concealed(false, Some(&[0, 0, 0, 0])));
    assert!(!concealed(false, Some(&[1, 0, 0, 0])));
    assert!(!concealed(false, Some(&[0, 0, 0])));
    assert!(!concealed(false, None));
}

#[test]
fn a_windows_clipboard_offers_the_richest_of_each() {
    let parts = read_opened(Formats {
        png: Some(b"png".to_vec()),
        html: Some(Vec::new()),
        unicode: Some(Some(wide("wide\0"))),
        ansi: Some(Some(b"narrow\0".to_vec())),
    });
    assert_eq!(
        parts,
        vec![
            ("image/png".to_string(), b"png".to_vec()),
            ("text/plain;charset=utf-8".to_string(), b"wide".to_vec()),
        ]
    );
    assert!(!wants_bitmap(&parts));

    let mut parts = read_opened(Formats {
        png: Some(Vec::new()),
        html: None,
        unicode: None,
        ansi: Some(Some(b"narrow\0".to_vec())),
    });
    assert!(wants_bitmap(&parts));
    add_bitmap(&mut parts, Some(dib(24, 0, 0)));
    add_bitmap(&mut parts, Some(vec![1, 2, 3]));
    add_bitmap(&mut parts, None);
    assert_eq!(parts.len(), 2);
    assert_eq!(parts[0], ("text/plain".to_string(), b"narrow".to_vec()));
    assert_eq!(parts[1].0, "image/bmp");

    // A text format that is offered and cannot be read is not replaced.
    assert!(read_opened(Formats {
        png: None,
        html: None,
        unicode: Some(None),
        ansi: Some(Some(b"narrow".to_vec())),
    })
    .is_empty());
}

const ATOMS: Atoms = Atoms {
    clipboard: 10,
    data: 11,
    targets: 12,
    incr: 13,
};
const WINDOW: u32 = 99;

fn converted() -> Seen {
    Seen::Selection {
        requestor: WINDOW,
        selection: ATOMS.clipboard,
        property: ATOMS.data,
    }
}

fn written() -> Seen {
    Seen::Property {
        window: WINDOW,
        atom: ATOMS.data,
        written: true,
    }
}

#[test]
fn an_x11_selection_that_fits_is_read_at_once() {
    let transfer = Transfer::of_content();
    assert_eq!(transfer.need(), Need::Convert);
    let transfer = transfer.asked(true);
    assert_eq!(transfer.need(), Need::Event(CONVERT_TIMEOUT));
    // Events that are not the answer change nothing.
    let transfer = transfer.seen(Seen::Other, &ATOMS, WINDOW);
    let transfer = transfer.seen(written(), &ATOMS, WINDOW);
    assert_eq!(transfer.need(), Need::Event(CONVERT_TIMEOUT));
    let transfer = transfer.seen(converted(), &ATOMS, WINDOW);
    assert_eq!(transfer.need(), Need::Property);
    let transfer = transfer.property(Some((31, b"hello".to_vec())), &ATOMS);
    assert_eq!(transfer.need(), Need::Delete);
    let transfer = transfer.deleted(true);
    assert_eq!(transfer.need(), Need::Nothing);
    assert_eq!(transfer.content(), Some(b"hello".to_vec()));
}

#[test]
fn an_x11_selection_that_does_not_fit_is_streamed() {
    let mut transfer = Transfer::of_content()
        .asked(true)
        .seen(converted(), &ATOMS, WINDOW)
        .property(Some((ATOMS.incr, vec![1, 2, 3, 4])), &ATOMS);
    assert_eq!(transfer.need(), Need::Delete);
    transfer = transfer.deleted(true);
    for chunk in [&b"one "[..], b"two ", b"three"] {
        assert_eq!(transfer.need(), Need::Event(INCR_TIMEOUT));
        let deleted = Seen::Property {
            window: WINDOW,
            atom: ATOMS.data,
            written: false,
        };
        transfer = transfer.seen(deleted, &ATOMS, WINDOW);
        assert_eq!(transfer.need(), Need::Event(INCR_TIMEOUT));
        transfer = transfer.seen(written(), &ATOMS, WINDOW);
        assert_eq!(transfer.need(), Need::Chunk);
        transfer = transfer.chunk(Some(chunk.to_vec()));
    }
    let transfer = transfer.seen(written(), &ATOMS, WINDOW).chunk(Some(Vec::new()));
    assert_eq!(transfer.need(), Need::Nothing);
    assert!(!transfer.changed());
    assert_eq!(transfer.content(), Some(b"one two three".to_vec()));
}

#[test]
fn an_x11_owner_may_refuse_stall_or_lose_the_selection() {
    let refused = Seen::Selection {
        requestor: WINDOW,
        selection: ATOMS.clipboard,
        property: 0,
    };
    let waiting = || Transfer::of_content().asked(true);
    assert_eq!(waiting().seen(refused, &ATOMS, WINDOW).content(), None);
    assert_eq!(waiting().lost().content(), None);
    assert_eq!(Transfer::of_content().asked(false).content(), None);

    let moved = Seen::Owner {
        selection: ATOMS.clipboard,
        owner: 5,
    };
    let lost = waiting().seen(moved, &ATOMS, WINDOW);
    assert!(lost.changed());
    assert_eq!(lost.need(), Need::Nothing);
    assert_eq!(lost.content(), None);

    // Half a stream is nothing.
    let streaming = || {
        waiting()
            .seen(converted(), &ATOMS, WINDOW)
            .property(Some((ATOMS.incr, Vec::new())), &ATOMS)
            .deleted(true)
            .seen(written(), &ATOMS, WINDOW)
            .chunk(Some(b"half".to_vec()))
    };
    assert_eq!(streaming().lost().content(), None);
    assert!(streaming().seen(moved, &ATOMS, WINDOW).changed());
    assert_eq!(
        streaming().seen(written(), &ATOMS, WINDOW).chunk(None).content(),
        None
    );

    assert!(taken_over(moved, &ATOMS, WINDOW));
    assert!(!taken_over(moved, &ATOMS, 5));
    assert!(!taken_over(Seen::Other, &ATOMS, WINDOW));

    // The list of targets needs no more than the owner's consent.
    let consent = Transfer::of_targets()
        .asked(true)
        .seen(converted(), &ATOMS, WINDOW);
    assert_eq!(consent.need(), Need::Nothing);
    assert!(consent.content().is_some());
}

fn offered(names: &[(u32, &str)]) -> Vec<(u32, String)> {
    names
        .iter()
        .map(|(atom, name)| (*atom, name.to_string()))
        .collect()
}

#[test]
fn an_x11_owner_is_asked_for_what_is_worth_keeping() {
    let targets = targets_to_read(&offered(&[
        (1, "TARGETS"),
        (2, "text/plain"),
        (3, "image/png"),
        (4, "text/plain"),
    ]));
    assert_eq!(targets, Some(offered(&[(2, "text/plain"), (3, "image/png")])));

    // One secret hint condemns the whole event.
    assert_eq!(
        targets_to_read(&offered(&[
            (2, "text/plain"),
            (5, "x-kde-passwordManagerHint")
        ])),
        None
    );

    let mut reading = Reading::new();
    assert!(reading.take("text/plain", Some(b"x".to_vec()), false));
    assert!(reading.take("image/png", None, false));
    assert!(reading.take("text/html", Some(Vec::new()), false));
    assert_eq!(
        reading.finish(),
        Some(vec![("text/plain".to_string(), b"x".to_vec())])
    );

    // Whatever was collected may mix two copies once the owner changed.
    let mut reading = Reading::new();
    assert!(reading.take("text/plain", Some(b"x".to_vec()), false));
    assert!(!reading.take("image/png", Some(b"y".to_vec()), true));
    assert_eq!(reading.finish(), None);
}

#[test]
fn a_lost_x_server_is_tried_again_ever_more_slowly() {
    let mut seconds = 1;
    let mut waits = Vec::new();
    for _ in 0..8 {
        waits.push(seconds);
        seconds = next_backoff(seconds);
    }
    assert_eq!(waits, vec![1, 2, 4, 8, 16, 32, 60, 60]);
}

#[test]
fn a_watcher_records_what_the_archive_will_take() {
    let mut archive = Store::new(Index::new(), 10);
    let mut recorder = Recorder::new();
    let accepted = Recorder::offer(&archive, "text/plain", b"copied").unwrap();
    assert_eq!(accepted.digest, digest_of(b"copied"));
    recorder.record(accepted, &mut archive);
    // One representation the archive will not take does not cost the entry
    // its others.
    assert!(matches!(
        Recorder::offer(&archive, "image/png", &[0; 11]),
        Err(StoreError::TooLarge)
    ));

    let plan = recorder.plan(&archive);
    assert_eq!(plan.text, Some(digest_of(b"copied")));
    let samples = Samples {
        text: Some(b"copied".to_vec()),
        image: None,
    };
    let (events, thumb) = recorder.commit(None, 5, &samples, &mut archive).unwrap();
    assert!(thumb.is_none());
    assert_eq!(events.len(), 1);
    let mut frame = Vec::new();
    events[0].encode(&mut frame);
    assert!(String::from_utf8(frame)
        .unwrap()
        .contains(r#""preview":"copied""#));

    // A second copy pushes the first one out, and everybody learns both.
    let mut recorder = Recorder::new();
    let accepted = Recorder::offer(&archive, "text/plain", b"another").unwrap();
    recorder.record(accepted, &mut archive);
    let samples = Samples {
        text: Some(b"another".to_vec()),
        image: None,
    };
    let (events, _) = recorder.commit(None, 6, &samples, &mut archive).unwrap();
    let told: Vec<String> = events
        .iter()
        .map(|event| {
            let mut frame = Vec::new();
            event.encode(&mut frame);
            String::from_utf8(frame).unwrap()
        })
        .collect();
    assert_eq!(told[0], "{\"ev\":\"removed\",\"entry\":1}\n");
    assert!(told[1].starts_with(r#"{"ev":"added","entry":{"id":2"#));

    let empty = Samples {
        text: None,
        image: None,
    };
    let (events, _) = Recorder::new()
        .commit(None, 7, &empty, &mut archive)
        .unwrap();
    assert!(events.is_empty());
}
