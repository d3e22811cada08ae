use rldyour_clipboard::store::blobs::{digest_of, hex, shelf, unshelved, Writer};
use rldyour_clipboard::store::identity::identity;
use rldyour_clipboard::store::index::{Index, Part};
use rldyour_clipboard::store::thumb::{self, treat, Thumbnail, Treatment, EDGE};
use rldyour_clipboard::store::{
    Accepted, Committed, Found, Samples, Store, StoreError, DEFAULT_BUDGET, INDEXED_TEXT,
    THUMBNAILED_IMAGE,
};
use std::collections::HashMap;

/// An archive with its blobs in memory.
struct Archive {
    store: Store,
    blobs: HashMap<String, Vec<u8>>,
}

fn archive(budget: i64) -> Archive {
    Archive {
        store: Store::new(Index::new(), budget),
        blobs: HashMap::new(),
    }
}

impl Archive {
    fn accept(&mut self, mime: &str, content: &[u8]) -> Accepted {
        let mut incoming = self.store.accept(mime, content.len() as u64).unwrap();
        for piece in content.chunks(1000) {
            incoming.absorb(piece);
        }
        let accepted = incoming.finish();
        self.blobs.insert(accepted.digest.clone(), content.to_vec());
        accepted
    }

    fn commit(
        &mut self,
        parts: &[Accepted],
        source: Option<&str>,
        at: i64,
    ) -> Result<Option<Committed>, StoreError> {
        let plan = self.store.plan(parts);
        let samples = Samples {
            text: plan.text.map(|digest| self.blobs[&digest].clone()),
            image: plan.image.map(|(digest, _)| self.blobs[&digest].clone()),
        };
        let done = self.store.commit(parts, source, at, &samples)?;
        for digest in self.store.sweep() {
            self.blobs.remove(&digest);
        }
        if let Some(png) = done.as_ref().and_then(|done| done.thumb.as_ref()) {
            self.blobs.insert(digest_of(png), png.clone());
        }
        Ok(done)
    }
}

#[test]
fn records_an_entry_and_describes_it_without_being_asked() {
    let mut archive = archive(DEFAULT_BUDGET);
    let parts = [
        archive.accept("text/html", b"<b>git rebase</b>"),
        archive.accept("text/plain", b"git rebase"),
    ];

    let done = archive.commit(&parts, Some("firefox"), 100).unwrap().unwrap();
    assert!(done.created);
    assert_eq!(done.summary.kind, "text");
    // The preview comes from the richest text representation.
    assert_eq!(done.summary.preview.as_deref(), Some("<b>git rebase</b>"));
    assert_eq!(done.summary.source.as_deref(), Some("firefox"));
    assert_eq!(done.summary.mimes, vec!["text/html", "text/plain"]);
}

#[test]
fn the_same_content_copied_again_is_the_same_entry() {
    let mut archive = archive(DEFAULT_BUDGET);
    let parts = [archive.accept("text/plain", b"same")];
    let first = archive.commit(&parts, None, 100).unwrap().unwrap();
    let parts = [archive.accept("text/plain", b"same")];
    let second = archive.commit(&parts, None, 200).unwrap().unwrap();

    assert_eq!(first.entry, second.entry);
    assert!(first.created);
    assert!(
        !second.created,
        "a re-copy moves the timestamp, nothing more"
    );
    assert_eq!(second.summary.at, 200);
    assert_eq!(archive.store.stats().0, 1);
}

#[test]
fn representation_order_does_not_change_an_entrys_identity() {
    let mut archive = archive(DEFAULT_BUDGET);
    let forwards = [
        archive.accept("text/html", b"<b>x</b>"),
        archive.accept("text/plain", b"x"),
    ];
    let backwards = [
        archive.accept("text/plain", b"x"),
        archive.accept("text/html", b"<b>x</b>"),
    ];

    let first = archive.commit(&forwards, None, 100).unwrap().unwrap();
    let second = archive.commit(&backwards, None, 200).unwrap().unwrap();
    assert_eq!(first.entry, second.entry);
}

#[test]
fn a_secret_is_refused_whole_and_not_merely_hidden() {
    let mut archive = archive(DEFAULT_BUDGET);
    let parts = [
        archive.accept("text/plain", b"hunter2"),
        archive.accept("x-kde-passwordManagerHint", b"secret"),
    ];

    assert!(archive
        .commit(&parts, Some("keepassxc"), 100)
        .unwrap()
        .is_none());
    assert_eq!(archive.store.stats().0, 0);
    assert_eq!(archive.store.stats(), (0, 0));
    // Nothing of it is left on disk either.
    assert!(archive.blobs.is_empty());
}

#[test]
fn a_secret_takes_no_file_with_it_that_an_entry_needs() {
    let mut archive = archive(DEFAULT_BUDGET);
    let parts = [archive.accept("text/plain", b"hunter2")];
    archive.commit(&parts, None, 1).unwrap();

    let parts = [
        archive.accept("text/plain", b"hunter2"),
        archive.accept("text/html", b"hunter2"),
        archive.accept("x-kde-passwordManagerHint", b"secret"),
    ];
    assert!(archive.commit(&parts, None, 2).unwrap().is_none());
    assert_eq!(archive.store.stats(), (1, 7));
    assert_eq!(archive.blobs.len(), 1);
    assert!(archive.blobs.contains_key(&digest_of(b"hunter2")));
}

#[test]
fn content_a_draft_holds_outlives_the_entry_it_is_also_in() {
    let mut archive = archive(DEFAULT_BUDGET);
    let parts = [archive.accept("text/plain", b"shared")];
    let done = archive.commit(&parts, None, 1).unwrap().unwrap();

    let again = [archive.accept("text/html", b"shared")];
    archive.store.claim(&again[0]);
    assert!(archive.store.remove(done.entry));
    assert!(archive.store.sweep().is_empty());
    let found = vec![Found {
        directory: again[0].digest[..2].into(),
        file: again[0].digest[2..].into(),
        bytes: 6,
    }];
    assert_eq!(archive.store.reconcile(&found), (vec![], 0));
    assert!(archive.commit(&again, None, 2).unwrap().is_some());
    assert_eq!(archive.blobs.len(), 1);

    // An entry takes back what was to go.
    let lost = archive.accept("text/plain", b"lost and found");
    archive.store.disown(&lost);
    let found = [lost];
    archive.commit(&found, None, 3).unwrap();
    assert!(archive.blobs.contains_key(&found[0].digest));
}

#[test]
fn an_index_that_could_not_be_saved_is_given_up_with_its_files() {
    let mut archive = archive(DEFAULT_BUDGET);
    let held = archive.accept("text/plain", b"held");
    archive.store.claim(&held);
    let parts = [archive.accept("text/plain", b"unsaved")];
    let samples = Samples {
        text: Some(b"unsaved".to_vec()),
        image: None,
    };
    archive.store.commit(&parts, None, 1, &samples).unwrap();
    archive.store.reload(Index::new());
    assert_eq!(archive.store.stats(), (0, 0));
    assert_eq!(archive.store.budget(), DEFAULT_BUDGET);
    assert_eq!(archive.store.sweep(), vec![digest_of(b"unsaved")]);
}

#[test]
fn what_a_draft_leaves_is_discarded_once() {
    let mut archive = archive(DEFAULT_BUDGET);
    let parts = [
        archive.accept("text/plain", b"one"),
        archive.accept("text/html", b"one"),
        archive.accept("text/rtf", b"two"),
    ];
    archive.store.discard(&parts);
    assert_eq!(
        archive.store.sweep(),
        vec![digest_of(b"one"), digest_of(b"two")]
    );
    assert!(archive.store.sweep().is_empty());
}

#[test]
fn serves_back_exactly_the_bytes_that_were_recorded() {
    let mut archive = archive(DEFAULT_BUDGET);
    let content: Vec<u8> = (0..200_000u32).map(|i| (i % 253) as u8).collect();
    let parts = [archive.accept("image/png", &content)];
    let done = archive.commit(&parts, None, 100).unwrap().unwrap();

    let (mime, digest, bytes) = archive.store.open_part(done.entry, None).unwrap();
    assert_eq!(mime, "image/png");
    assert_eq!(bytes, content.len() as u64);
    assert_eq!(archive.blobs[&digest], content);
}

#[test]
fn a_representation_larger_than_the_whole_budget_is_refused() {
    let archive = archive(1024);
    let outcome = archive.store.accept("image/png", 4096);
    assert!(matches!(outcome, Err(StoreError::TooLarge)));
    // Refusing it left the archive untouched rather than emptying it.
    assert_eq!(archive.store.stats(), (0, 0));
    assert!(archive.store.accept("image/png", 1024).is_ok());
    assert!(archive.store.accept("image/png", u64::MAX).is_err());
}

#[test]
fn committing_over_budget_evicts_the_oldest_unpinned_entries() {
    let mut archive = archive(2048);
    let mut entries = Vec::new();
    for (index, at) in [(0u8, 100), (1, 200), (2, 300)].into_iter() {
        let content = vec![index; 900];
        let parts = [archive.accept("image/png", &content)];
        let done = archive.commit(&parts, None, at).unwrap().unwrap();
        entries.push(done);
    }

    // Three 900-byte entries do not fit in 2048, so the oldest went.
    let last = entries.last().unwrap();
    assert_eq!(last.evicted, vec![entries[0].entry]);
    assert!(archive.store.summary(entries[0].entry).is_none());
    assert!(archive.store.summary(entries[2].entry).is_some());
    assert!(archive.store.stats().1 <= 2048);
    // Its file went with it, and no other.
    assert!(!archive.blobs.contains_key(&digest_of(&[0u8; 900])));
    assert_eq!(archive.blobs.len(), 2);
}

#[test]
fn search_finds_an_entry_by_its_text_whatever_else_it_holds() {
    let mut archive = archive(DEFAULT_BUDGET);
    let parts = [
        archive.accept("text/plain", b"deployment runbook"),
        archive.accept("image/png", b"not really a png"),
    ];
    archive.commit(&parts, None, 100).unwrap();

    assert_eq!(
        archive
            .store
            .list(10, None, Some("runbook"), None)
            .unwrap()
            .len(),
        1
    );
    assert_eq!(
        archive
            .store
            .list(10, None, Some("missing"), None)
            .unwrap()
            .len(),
        0
    );
}

#[test]
fn a_pinned_entry_survives_a_clear() {
    let mut archive = archive(DEFAULT_BUDGET);
    let parts = [archive.accept("text/plain", b"keep")];
    let kept = archive.commit(&parts, None, 100).unwrap().unwrap();
    let parts = [archive.accept("text/plain", b"drop")];
    archive.commit(&parts, None, 200).unwrap();

    assert!(archive.store.set_pinned(kept.entry, true).unwrap().pinned);
    archive.store.clear();

    assert_eq!(archive.store.stats().0, 1);
    assert!(archive.store.summary(kept.entry).is_some());
    assert!(archive.store.set_pinned(99, true).is_none());
    assert!(!archive.store.remove(99));
}

#[test]
fn startup_reclaims_blobs_a_crash_left_unreferenced() {
    let mut archive = archive(DEFAULT_BUDGET);

    // A blob written but never committed is exactly what a crash between
    // the two leaves behind.
    let stranded = archive.accept("text/plain", b"never committed");
    let parts = [archive.accept("text/plain", b"committed")];
    archive.commit(&parts, None, 1).unwrap();

    let on_disk = |digest: &str, bytes: u64| {
        let (directory, file) = shelf(digest);
        Found {
            directory,
            file,
            bytes,
        }
    };
    let found = [
        on_disk(&parts[0].digest, 9),
        on_disk(&stranded.digest, 15),
        Found {
            directory: "incoming".into(),
            file: "17-0".into(),
            bytes: 4096,
        },
    ];
    let (doomed, reclaimed) = archive.store.reconcile(&found);
    assert_eq!(reclaimed, 15);
    assert_eq!(doomed, vec![1]);
}

#[test]
fn an_entry_larger_than_the_whole_budget_is_refused_not_made_room_for() {
    let mut archive = archive(1000);
    let parts = [archive.accept("text/plain", b"small")];
    archive.commit(&parts, None, 1).unwrap();

    // Each fits on its own; together they do not.
    let parts = [
        archive.accept("image/png", &[1u8; 600]),
        archive.accept("image/bmp", &[2u8; 600]),
    ];
    let outcome = archive.commit(&parts, None, 2);
    match outcome {
        Err(error) => {
            assert_eq!(error.code(), "too-large");
            assert_eq!(error.message(), "larger than the whole archive budget");
        }
        Ok(_) => panic!("the entry is larger than the budget"),
    }
    assert_eq!(archive.store.stats(), (1, 5));
    // What was stored for it goes, and nothing else.
    assert_eq!(
        archive.store.sweep(),
        vec![digest_of(&[1u8; 600]), digest_of(&[2u8; 600])]
    );

    // The same content under two names is held once and does fit.
    let parts = [
        archive.accept("image/png", &[1u8; 600]),
        archive.accept("image/bmp", &[1u8; 600]),
    ];
    assert!(archive.commit(&parts, None, 3).unwrap().is_some());
    assert_eq!(archive.store.stats(), (2, 605));
}

#[test]
fn a_draft_the_index_refuses_is_a_storage_failure() {
    let mut archive = archive(DEFAULT_BUDGET);
    let parts = [
        archive.accept("text/plain", b"one"),
        archive.accept("text/plain", b"two"),
    ];
    match archive.commit(&parts, None, 1) {
        Err(error) => {
            assert_eq!(error.code(), "storage");
            assert_eq!(
                error.message(),
                "UNIQUE constraint failed: part.entry, part.mime"
            );
        }
        Ok(_) => panic!("one mime type cannot be held twice"),
    }
    assert_eq!(
        archive.store.sweep(),
        vec![digest_of(b"one"), digest_of(b"two")]
    );
    assert_eq!(StoreError::Io("disk".into()).code(), "storage");
    assert_eq!(StoreError::Io("disk".into()).message(), "disk");
    assert!(archive.commit(&[], None, 1).unwrap().is_none());
}

#[test]
fn a_preview_reads_only_the_beginning_and_replaces_what_is_not_text() {
    let mut archive = archive(DEFAULT_BUDGET);
    // The cut lands inside a two-byte character.
    let mut content = vec![b'x'; INDEXED_TEXT as usize - 1];
    content.extend_from_slice("éend".as_bytes());
    let parts = [archive.accept("text/plain", &content)];
    archive.commit(&parts, None, 1).unwrap();
    assert!(archive
        .store
        .list(10, None, Some("end"), None)
        .unwrap()
        .is_empty());

    let parts = [archive.accept("text/plain", b"caf\xe9 noir")];
    let done = archive.commit(&parts, None, 2).unwrap().unwrap();
    assert_eq!(done.summary.preview.as_deref(), Some("caf\u{fffd} noir"));
}

#[test]
fn an_identity_is_the_digest_of_a_sorted_set() {
    let part = |mime: &str, digest: &str| Part {
        mime: mime.into(),
        digest: digest.into(),
        bytes: 1,
    };
    let whole = digest_of(b"text/html\0aa\ntext/plain\0bb\n");
    assert_eq!(
        identity(&[part("text/plain", "bb"), part("text/html", "aa")]),
        whole
    );
    assert_eq!(
        identity(&[
            part("text/html", "aa"),
            part("text/plain", "bb"),
            part("text/html", "aa")
        ]),
        whole
    );
    assert_ne!(identity(&[part("text/html", "aa")]), whole);
}

#[test]
fn names_a_blob_by_the_digest_of_its_content() {
    let mut writer = Writer::new();
    writer.absorb(b"clipboard");
    let sealed = writer.finish();
    assert_eq!(sealed.digest.len(), 64);
    assert_eq!(sealed.bytes, 9);
    let written = sealed.stored(false);
    assert!(written.created);

    // sha256("abc"), so the name is reproducible outside this code.
    assert_eq!(
        digest_of(b"abc"),
        "ba7816bf8f01cfea414140de5dae2223b00361a396177a9cb410ff61f20015ad"
    );
    assert_eq!(hex(&[0x00, 0x7f, 0xa5, 0xff]), "007fa5ff");
}

#[test]
fn stores_identical_content_once() {
    // The files there are, by the name each was sealed under.
    let mut files: HashMap<String, Vec<u8>> = HashMap::new();
    let mut store = |content: &[u8]| {
        let mut writer = Writer::new();
        writer.absorb(content);
        let sealed = writer.finish();
        let before = files.insert(sealed.digest.clone(), content.to_vec());
        sealed.stored(before.is_some())
    };
    let first = store(b"same");
    let second = store(b"same");
    assert_eq!(files.len(), 1);
    assert_eq!(first.digest, second.digest);
    assert!(first.created);
    // The second copy is recognised and discarded rather than rewritten.
    assert!(!second.created);
}

#[test]
fn a_blob_fed_in_pieces_is_the_same_blob_as_one_fed_whole() {
    let mut writer = Writer::new();
    for piece in [&b"one "[..], b"two ", b"three"] {
        writer.absorb(piece);
    }
    assert_eq!(writer.written(), 13);
    let pieced = writer.finish();

    // The digest is over the content, not over how it arrived.
    assert_eq!(pieced.digest, digest_of(b"one two three"));
    assert_eq!(pieced.bytes, 13);
}

#[test]
fn a_blob_is_shelved_under_its_first_two_digits() {
    let digest = digest_of(b"abc");
    let (directory, file) = shelf(&digest);
    assert_eq!(directory, "ba");
    assert_eq!(file.len(), 62);
    assert_eq!(unshelved(&directory, &file), digest);
}

#[test]
fn a_stream_of_unknown_length_is_held_to_the_budget_as_it_comes() {
    let archive = archive(10);
    let mut incoming = archive.store.incoming("image/png");
    incoming.absorb(b"0123456789");
    assert!(incoming.fits().is_ok());
    incoming.absorb(b"!");
    assert!(matches!(incoming.fits(), Err(StoreError::TooLarge)));
}

/// A tiny PNG built here rather than checked in, so the test explains what it
/// is feeding the decoder.
fn png(width: u32, height: u32) -> Vec<u8> {
    let image = image::RgbaImage::from_fn(width, height, |x, y| {
        image::Rgba([(x % 256) as u8, (y % 256) as u8, 128, 255])
    });
    let mut out = std::io::Cursor::new(Vec::new());
    image::DynamicImage::ImageRgba8(image)
        .write_to(&mut out, image::ImageFormat::Png)
        .unwrap();
    out.into_inner()
}

fn size_of(content: &[u8]) -> (u32, u32) {
    image::ImageReader::new(std::io::Cursor::new(content))
        .with_guessed_format()
        .unwrap()
        .into_dimensions()
        .unwrap()
}

#[test]
fn measures_an_image_and_shrinks_it_into_the_box() {
    let outcome = thumb::make(&png(800, 400));
    assert_eq!((outcome.width, outcome.height), (Some(800), Some(400)));

    let thumbnail = outcome.png.expect("a decodable png gets a thumbnail");
    let (width, height) = size_of(&thumbnail);
    // The long edge meets the box and the aspect ratio is kept.
    assert_eq!(width, EDGE);
    assert_eq!(height, EDGE / 2);
}

#[test]
fn leaves_an_image_smaller_than_the_box_at_its_own_size() {
    let outcome = thumb::make(&png(32, 16));
    let thumbnail = outcome.png.unwrap();
    assert_eq!(size_of(&thumbnail), (32, 16), "never blown up");
}

#[test]
fn a_thumbnail_decodes_back_to_tightly_packed_pixels() {
    let made = thumb::make(&png(64, 32)).png.unwrap();
    let pixels = thumb::decode(&made).unwrap();

    assert_eq!((pixels.width, pixels.height), (64, 32));
    assert_eq!(pixels.stride(), 64 * 4);
    // Four bytes a pixel, no row padding: what set_bytes is told to read.
    assert_eq!(pixels.rgba.len(), 64 * 32 * 4);
    // The second pixel of the first row.
    assert_eq!(&pixels.rgba[4..8], &[1, 0, 128, 255]);
}

#[test]
fn content_that_is_not_an_image_yields_nothing_and_does_not_fail() {
    assert_eq!(thumb::make(b"not an image at all"), Thumbnail::default());
    assert_eq!(thumb::make(&[]), Thumbnail::default());
    // A truncated header is the shape a hostile payload takes.
    assert_eq!(
        thumb::make(&[0x89, b'P', b'N', b'G']),
        Thumbnail::default()
    );
    assert!(thumb::decode(b"not an image at all").is_none());
    assert!(thumb::to_bmp(b"not an image at all").is_none());
}

#[test]
fn an_image_too_large_to_decode_is_only_measured() {
    let rgb = Some((24, 3));
    let grey16 = Some((16, 1));
    assert_eq!(treat(None, rgb), Treatment::Unreadable);
    assert_eq!(treat(Some((8000, 5000)), rgb), Treatment::Boxed);
    assert_eq!(treat(Some((8000, 5001)), rgb), Treatment::Measured);
    assert_eq!(treat(Some((u32::MAX, u32::MAX)), rgb), Treatment::Measured);
    assert_eq!(treat(Some((256, 256)), grey16), Treatment::Whole);
    assert_eq!(treat(Some((257, 1)), rgb), Treatment::Boxed);
    // Only a long picture with deep samples is flattened first.
    assert_eq!(treat(Some((50_001, 1)), rgb), Treatment::Boxed);
    assert_eq!(treat(Some((50_000, 1)), grey16), Treatment::Boxed);
    assert_eq!(treat(Some((50_001, 1)), grey16), Treatment::Flattened);
    assert_eq!(treat(Some((1, 50_001)), None), Treatment::Flattened);
}

#[test]
fn a_picture_is_archived_with_its_size_and_a_thumbnail() {
    let mut archive = archive(DEFAULT_BUDGET);
    let picture = png(300, 100);
    let parts = [archive.accept("image/png", &picture)];
    let done = archive.commit(&parts, None, 1).unwrap().unwrap();
    assert_eq!(
        (done.summary.width, done.summary.height),
        (Some(300), Some(100))
    );
    assert!(done.summary.thumb);
    let (digest, bytes) = archive.store.thumbnail(done.entry).unwrap();
    let stored = &archive.blobs[&digest];
    assert_eq!(stored.len() as u64, bytes);
    assert_eq!(size_of(stored).0, EDGE);

    // And as a bitmap on demand, without touching what is stored.
    let (_, digest, _) = archive.store.open_image(done.entry).unwrap();
    let bmp = thumb::to_bmp(&archive.blobs[&digest]).unwrap();
    assert_eq!(&bmp[..2], b"BM");
    assert_eq!(size_of(&bmp), (300, 100));
}

#[test]
fn a_picture_is_found_however_its_mime_type_is_spelled() {
    let mut archive = archive(DEFAULT_BUDGET);
    let picture = png(10, 10);
    let parts = [
        archive.accept("text/plain", b"caption"),
        archive.accept("IMAGE/PNG", &picture),
    ];
    let done = archive.commit(&parts, None, 1).unwrap().unwrap();
    let (mime, digest, bytes) = archive.store.open_image(done.entry).unwrap();
    assert_eq!(mime, "IMAGE/PNG");
    assert_eq!(digest, digest_of(&picture));
    assert_eq!(bytes, picture.len() as u64);
    assert!(archive.store.open_image(done.entry + 1).is_none());
}

#[test]
fn a_thumbnail_keeps_the_colour_type_of_its_picture() {
    let colour = |content: &[u8]| image::load_from_memory(content).unwrap().color();
    let rgb = image::DynamicImage::ImageRgb8(image::RgbImage::from_pixel(
        600,
        300,
        image::Rgb([10, 20, 30]),
    ));
    let deep = image::DynamicImage::ImageLuma16(image::ImageBuffer::from_pixel(
        600,
        300,
        image::Luma([40_000u16]),
    ));
    for picture in [rgb, deep] {
        let mut content = Vec::new();
        picture
            .write_to(
                &mut std::io::Cursor::new(&mut content),
                image::ImageFormat::Png,
            )
            .unwrap();
        let made = thumb::make(&content).png.unwrap();
        assert_eq!(size_of(&made), (EDGE, EDGE / 2));
        assert_eq!(colour(&made), picture.color());
    }
}

#[test]
fn a_long_picture_of_many_deep_samples_gets_its_thumbnail() {
    // Far more full-value samples on each pixel than thirty-two bits hold at
    // sixteen bits a sample.
    let white = image::ImageBuffer::from_pixel(17_000_000, 1, image::Luma([u16::MAX]));
    let mut content = Vec::new();
    image::DynamicImage::ImageLuma16(white)
        .write_to(
            &mut std::io::Cursor::new(&mut content),
            image::ImageFormat::Png,
        )
        .unwrap();
    let made = thumb::make(&content);
    assert_eq!((made.width, made.height), (Some(17_000_000), Some(1)));
    let pixels = thumb::decode(&made.png.unwrap()).unwrap();
    assert_eq!((pixels.width, pixels.height), (EDGE, 1));
    assert!(pixels.rgba.iter().all(|sample| *sample == 255));
}

#[test]
fn every_name_is_sixty_four_lower_case_hex_digits() {
    let part = |mime: &str, digest: &str| Part {
        mime: mime.into(),
        digest: digest.into(),
        bytes: 1,
    };
    for name in [
        digest_of(b""),
        digest_of(b"hello"),
        identity(&[part("text/plain", "aa")]),
    ] {
        assert_eq!(name.len(), 64);
        assert!(name
            .chars()
            .all(|c| c.is_ascii_digit() || ('a'..='f').contains(&c)));
    }
}

#[test]
fn different_representations_have_different_identities() {
    let part = |mime: &str, digest: &str| Part {
        mime: mime.into(),
        digest: digest.into(),
        bytes: 1,
    };
    // Another digest, another mime type, one more representation.
    let one = identity(&[part("a", "x")]);
    for other in [
        vec![part("a", "y")],
        vec![part("b", "x")],
        vec![part("a", "x"), part("b", "x")],
        vec![],
    ] {
        assert_ne!(identity(&other), one);
    }
}

#[test]
fn a_picture_too_large_to_decode_is_recorded_with_its_size() {
    let mut archive = archive(i64::MAX);
    let accepted = [Accepted {
        mime: "image/png".into(),
        digest: digest_of(b"stands for a very large picture"),
        bytes: THUMBNAILED_IMAGE + 1,
    }];
    let (_, wanted) = archive.store.plan(&accepted).image.unwrap();
    assert_eq!(wanted, THUMBNAILED_IMAGE);
    let samples = Samples {
        text: None,
        image: Some(png(300, 100)),
    };
    let done = archive
        .store
        .commit(&accepted, None, 1, &samples)
        .unwrap()
        .unwrap();
    assert_eq!(
        (done.summary.width, done.summary.height),
        (Some(300), Some(100))
    );
    assert!(!done.summary.thumb);
    assert!(done.thumb.is_none());
}
