use rldyour_clipboard::frame::{FrameReader, Reading};
use rldyour_clipboard::intake::{Action, Intake};
use rldyour_clipboard::proto::{Request, MAX_FRAME};
use rldyour_clipboard::session::{Session, Step};
use rldyour_clipboard::store::index::Index;
use rldyour_clipboard::store::Store;

/// Reads frames off a stream that arrives in pieces of a given size.
fn frames(stream: &[u8], size: usize) -> Result<Vec<String>, &'static str> {
    let mut at = 0;
    let mut out = Vec::new();
    let mut reader = FrameReader::new();
    loop {
        let piece = &stream[at..stream.len().min(at + size)];
        let (reading, consumed) = reader.read_frame(piece);
        at += consumed;
        match reading {
            Reading::More => {}
            Reading::Frame(line) => out.push(line),
            Reading::End => return Ok(out),
            other => return Err(other.complaint().unwrap()),
        }
    }
}

/// Reads one frame off the front of a stream and says where it ended.
fn one_frame(stream: &[u8]) -> (String, usize) {
    let (reading, consumed) = FrameReader::new().read_frame(stream);
    match reading {
        Reading::Frame(line) => (line, consumed),
        other => panic!("expected a frame, got {other:?}"),
    }
}

#[test]
fn reads_frames_one_line_at_a_time() {
    let read = frames(b"{\"a\":1}\n{\"b\":2}\n", 4096).unwrap();
    assert_eq!(read, vec![r#"{"a":1}"#, r#"{"b":2}"#]);
}

#[test]
fn a_frame_without_its_terminator_is_not_a_frame() {
    // A truncated conversation ends; it does not deliver half a frame.
    assert!(frames(b"{\"a\":1}", 4096).unwrap().is_empty());
}

#[test]
fn refuses_a_frame_longer_than_the_protocol_defines() {
    let huge = format!("{}\n", "x".repeat(MAX_FRAME + 1));

    // Arriving whole, newline and all, in a single buffer.
    assert_eq!(
        frames(huge.as_bytes(), huge.len()).unwrap_err(),
        "control frame is longer than any frame this protocol defines"
    );

    // And arriving a little at a time, which is what a socket does.
    assert_eq!(
        frames(huge.as_bytes(), 64).unwrap_err(),
        "control frame is longer than any frame this protocol defines"
    );

    // One byte less is a frame, however it arrives.
    let longest = format!("{}\n", "x".repeat(MAX_FRAME));
    assert_eq!(frames(longest.as_bytes(), longest.len()).unwrap().len(), 1);
    assert_eq!(frames(longest.as_bytes(), 64).unwrap().len(), 1);
}

#[test]
fn a_payload_is_read_from_the_same_buffer_the_frames_are() {
    // The reader has already buffered past the frame by the time it is
    // parsed, which is exactly why payloads may not come from elsewhere.
    let stream = b"{\"op\":\"part\"}\nPAYLOAD{\"op\":\"commit\"}\n";

    let (frame, at) = one_frame(stream);
    assert_eq!(frame, r#"{"op":"part"}"#);

    assert_eq!(&stream[at..at + 7], b"PAYLOAD");

    let (frame, _) = one_frame(&stream[at + 7..]);
    assert_eq!(frame, r#"{"op":"commit"}"#);
}

#[test]
fn draining_leaves_the_stream_at_the_next_frame() {
    let stream = b"0123456789{\"op\":\"commit\"}\n";
    let mut session = Session::new();
    let mut archive = Store::new(Index::new(), 1024);
    let stray = Request::Chunk { bytes: 10 };
    let drained = match session.perform(stray, &mut archive) {
        Step::Skip(bytes) => bytes as usize,
        _ => panic!("a payload nobody asked for is drained"),
    };
    let (frame, consumed) = one_frame(&stream[drained..]);
    assert_eq!(frame, r#"{"op":"commit"}"#);
    assert_eq!(drained + consumed, stream.len());

    // And the rest of a part that is refused halfway through.
    let mut intake = Intake::whole(&archive, "text/plain", true, 10).created(Ok(()));
    intake = intake.absorb(&stream[..4], Err("disk full".into()));
    let drained = match intake.next() {
        Action::Skip(bytes) => 4 + bytes as usize,
        other => panic!("expected the rest to be drained, got {other:?}"),
    };
    assert!(matches!(intake.skipped().next(), Action::Done));
    assert_eq!(one_frame(&stream[drained..]).0, r#"{"op":"commit"}"#);
}

#[test]
fn a_reader_is_ready_again_however_a_frame_ended() {
    let mut reader = FrameReader::new();
    let huge = "x".repeat(MAX_FRAME);
    assert!(matches!(reader.read_frame(huge.as_bytes()).0, Reading::More));
    assert!(matches!(reader.read_frame(b"x").0, Reading::TooLong));
    assert!(matches!(reader.read_frame(b"cut").0, Reading::More));
    assert!(matches!(reader.read_frame(b"").0, Reading::End));
    assert!(matches!(reader.read_frame(b"\xff\n").0, Reading::NotText));
    match reader.read_frame(b"{}\n").0 {
        Reading::Frame(line) => assert_eq!(line, "{}"),
        other => panic!("expected a frame, got {other:?}"),
    }
}

#[test]
fn control_frames_must_be_text() {
    assert_eq!(
        frames(&[0xff, 0xfe, b'\n'], 4096).unwrap_err(),
        "control frames are UTF-8"
    );
}

#[test]
fn however_a_stream_arrives_its_frames_are_the_same() {
    let stream = "{\"a\":\"é\"}\n\n{\"b\":\"😀\"}\ncut".as_bytes();
    for size in 1..stream.len() {
        assert_eq!(
            frames(stream, size).unwrap(),
            vec!["{\"a\":\"é\"}", "", "{\"b\":\"😀\"}"]
        );
    }
}
