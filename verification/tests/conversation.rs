use rldyour_clipboard::capture::Recorder;
use rldyour_clipboard::intake::{chunk_length, Action, Intake, Interruption, PartOutcome};
use rldyour_clipboard::outbox::Payload;
use rldyour_clipboard::proto::{Request, Role};
use rldyour_clipboard::session::{Session, Step};
use rldyour_clipboard::store::blobs::digest_of;
use rldyour_clipboard::store::index::Index;
use rldyour_clipboard::store::{Samples, Store, StoreError};
use std::collections::{HashMap, VecDeque};

/// A session driven over a stream of its own, with its blobs in memory.
///
/// The desync bugs this guards against are invisible to a test of any single
/// function: they only show up as a later frame being misread, so the frames
/// and the payloads travel in one queue and every byte has to be accounted for.
struct Peer {
    session: Session,
    archive: Store,
    blobs: HashMap<String, Vec<u8>>,
    stream: VecDeque<Item>,
    clock: i64,
    told: Vec<String>,
}

enum Item {
    Frame(Request),
    Byte(u8),
}

impl Peer {
    fn open(budget: i64) -> Self {
        let mut peer = Peer {
            session: Session::new(),
            archive: Store::new(Index::new(), budget),
            blobs: HashMap::new(),
            stream: VecDeque::new(),
            clock: 0,
            told: Vec::new(),
        };
        let hello = Request::Hello {
            v: 1,
            role: Role::Capture,
        };
        assert!(peer.session.greet(Some(hello), &peer.archive));
        assert!(peer.answer().contains(r#""ev":"hello""#));
        peer
    }

    fn send(&mut self, frame: Request, payload: &[u8]) {
        self.stream.push_back(Item::Frame(frame));
        for byte in payload {
            self.stream.push_back(Item::Byte(*byte));
        }
    }

    fn frame(&mut self) -> Option<Request> {
        match self.stream.pop_front() {
            Some(Item::Frame(frame)) => Some(frame),
            Some(Item::Byte(_)) => panic!("a payload byte was read as a frame"),
            None => None,
        }
    }

    fn bytes(&mut self, most: u64) -> Vec<u8> {
        let mut read = Vec::new();
        while (read.len() as u64) < most {
            match self.stream.pop_front() {
                Some(Item::Byte(byte)) => read.push(byte),
                Some(Item::Frame(_)) => panic!("a frame was read as payload"),
                None => break,
            }
        }
        read
    }

    /// Performs everything in the stream, a payload read in short pieces.
    fn run(&mut self) {
        while let Some(request) = self.frame() {
            match self.session.perform(request, &mut self.archive) {
                Step::Next => {}
                Step::Skip(bytes) => {
                    assert_eq!(self.bytes(bytes).len() as u64, bytes);
                }
                Step::Take {
                    req,
                    draft,
                    mut intake,
                } => {
                    let mut content = Vec::new();
                    loop {
                        intake = match intake.next() {
                            Action::Create => intake.created(Ok(())),
                            Action::Read(most) => {
                                let piece = self.bytes(most.min(700));
                                if piece.is_empty() {
                                    intake.cut_off()
                                } else {
                                    content.extend_from_slice(&piece);
                                    intake.absorb(&piece, Ok(()))
                                }
                            }
                            Action::Skip(bytes) => {
                                self.bytes(bytes);
                                intake.skipped()
                            }
                            Action::Frame => {
                                let frame = self.frame().map(Ok);
                                let bytes = chunk_length(frame).unwrap();
                                intake.chunk(bytes)
                            }
                            Action::Seal(digest) => {
                                self.blobs.insert(digest, content.clone());
                                intake.sealed(Ok(()))
                            }
                            Action::Done => break,
                        };
                    }
                    let outcome = intake.outcome().unwrap();
                    self.session
                        .part_taken(req, draft, outcome, &mut self.archive);
                }
                Step::Describe { pending, plan } => {
                    let samples = Samples {
                        text: plan.text.map(|digest| self.blobs[&digest].clone()),
                        image: plan.image.map(|(digest, _)| self.blobs[&digest].clone()),
                    };
                    self.clock += 1;
                    let thumb =
                        self.session
                            .publish(pending, &samples, self.clock, &mut self.archive);
                    if let Some(png) = thumb {
                        self.blobs.insert(digest_of(&png), png);
                    }
                }
                Step::Open {
                    req,
                    mime,
                    digest,
                    bytes,
                } => self.session.serve(req, mime, digest, bytes),
                Step::Render {
                    req, entry, digest, ..
                } => {
                    let content = self.blobs[&digest].clone();
                    self.session.rendered(req, entry, &content, &self.archive);
                }
                Step::Draw {
                    req, entry, digest, ..
                } => {
                    let png = self.blobs[&digest].clone();
                    self.session.drawn(req, entry, &png, &self.archive);
                }
            }
            for event in self.session.take_events() {
                let mut frame = Vec::new();
                event.encode(&mut frame);
                self.told.push(String::from_utf8(frame).unwrap());
            }
        }
    }

    /// The answers queued so far, each with the payload behind it.
    fn answers(&mut self) -> Vec<(String, Vec<u8>)> {
        self.session
            .take_answers()
            .into_iter()
            .map(|item| {
                let payload = match item.payload {
                    None => Vec::new(),
                    Some(Payload::Held(bytes)) => bytes,
                    Some(Payload::Stored { digest, bytes }) => {
                        let content = self.blobs[&digest].clone();
                        assert_eq!(content.len() as u64, bytes);
                        content
                    }
                };
                (String::from_utf8(item.frame).unwrap(), payload)
            })
            .collect()
    }

    /// Performs what is in the stream and gives its one answer.
    fn answer(&mut self) -> String {
        self.run();
        let mut answers = self.answers();
        assert_eq!(answers.len(), 1);
        answers.remove(0).0
    }
}

fn begin(req: u64) -> Request {
    Request::Begin { req, source: None }
}

fn part(req: u64, draft: u64, mime: &str, bytes: Option<u64>) -> Request {
    Request::Part {
        req,
        draft,
        mime: mime.into(),
        bytes,
    }
}

fn chunk(bytes: u64) -> Request {
    Request::Chunk { bytes }
}

fn fetch(req: u64, entry: i64, mime: Option<&str>, transcode: bool) -> Request {
    Request::Fetch {
        req,
        entry,
        mime: mime.map(str::to_string),
        transcode,
    }
}

#[test]
fn a_refused_part_leaves_the_stream_at_the_next_frame() {
    // A budget of 64 bytes refuses the part below before reading a byte of it,
    // which is the case where nothing has been consumed yet.
    let mut peer = Peer::open(64);
    peer.send(begin(1), b"");
    assert!(peer.answer().contains(r#""ev":"begin""#));

    let payload = vec![b'x'; 4096];
    peer.send(part(2, 1, "image/png", Some(4096)), &payload);
    let refusal = peer.answer();
    assert!(refusal.contains(r#""code":"too-large""#), "{refusal}");

    // The real assertion: the frame after the refused payload is read as a
    // frame. Over-draining would have eaten it.
    peer.send(Request::Commit { req: 3, draft: 1 }, b"");
    let commit = peer.answer();
    assert!(commit.contains(r#""req":3"#), "{commit}");
}

#[test]
fn a_part_for_a_draft_that_is_not_open_still_consumes_its_payload() {
    let mut peer = Peer::open(1024 * 1024);
    peer.send(part(1, 99, "text/plain", Some(11)), b"hello world");
    let refusal = peer.answer();
    assert!(refusal.contains(r#""code":"no-such-draft""#), "{refusal}");

    peer.send(Request::Stats { req: 2 }, b"");
    let stats = peer.answer();
    assert!(stats.contains(r#""ev":"stats""#), "{stats}");
}

#[test]
fn a_chunked_part_for_a_draft_that_is_not_open_is_read_to_its_terminator() {
    let mut peer = Peer::open(1024 * 1024);
    peer.send(part(1, 99, "text/plain", None), b"");
    peer.send(chunk(5), b"aaaaa");
    peer.send(chunk(5), b"bbbbb");
    peer.send(chunk(0), b"");

    let refusal = peer.answer();
    assert!(refusal.contains(r#""code":"no-such-draft""#), "{refusal}");

    peer.send(Request::Stats { req: 2 }, b"");
    assert!(peer.answer().contains(r#""ev":"stats""#));
}

#[test]
fn a_stray_chunk_is_refused_without_losing_the_connection() {
    let mut peer = Peer::open(1024 * 1024);
    peer.send(chunk(4), b"junk");
    let refusal = peer.answer();
    assert!(refusal.contains(r#""code":"bad-frame""#), "{refusal}");

    // Its payload was consumed, so the session carries on.
    peer.send(Request::Stats { req: 1 }, b"");
    assert!(peer.answer().contains(r#""ev":"stats""#));
}

#[test]
fn a_chunk_that_overruns_the_budget_does_not_eat_the_frames_after_it() {
    // The case that matters: a chunk is consumed in full and only then found to
    // be over budget. Anything that skipped the chunk a second time would
    // swallow the terminator and everything after it, and a payload is opaque
    // so nothing downstream could notice.
    let mut peer = Peer::open(1024);
    peer.send(begin(1), b"");
    assert!(peer.answer().contains(r#""ev":"begin""#));

    peer.send(part(2, 1, "image/png", None), b"");
    let content = vec![b'z'; 512];
    for _ in 0..3 {
        peer.send(chunk(512), &content);
    }
    peer.send(chunk(0), b"");

    let refusal = peer.answer();
    assert!(refusal.contains(r#""code":"too-large""#), "{refusal}");

    peer.send(Request::Commit { req: 3, draft: 1 }, b"");
    let commit = peer.answer();
    assert!(commit.contains(r#""req":3"#), "{commit}");
}

#[test]
fn a_missing_thumbnail_and_a_missing_entry_answer_differently() {
    let mut peer = Peer::open(1024 * 1024);
    peer.send(begin(1), b"");
    peer.answer();
    peer.send(part(2, 1, "text/plain", Some(4)), b"text");
    peer.answer();
    peer.send(Request::Commit { req: 3, draft: 1 }, b"");
    assert!(peer.answer().contains(r#""entry":1"#));

    // Text has no thumbnail, but the entry is there: the client should ask for
    // something else, not forget the entry.
    peer.send(Request::Thumb { req: 4, entry: 1 }, b"");
    let no_thumb = peer.answer();
    assert!(no_thumb.contains(r#""code":"no-such-mime""#), "{no_thumb}");

    peer.send(Request::Thumb { req: 5, entry: 999 }, b"");
    let no_entry = peer.answer();
    assert!(no_entry.contains(r#""code":"no-such-entry""#), "{no_entry}");
}

#[test]
fn a_whole_transaction_records_and_serves_an_entry_back() {
    let mut peer = Peer::open(1024 * 1024);
    peer.send(
        Request::Begin {
            req: 1,
            source: Some("test".into()),
        },
        b"",
    );
    assert!(peer.answer().contains(r#""draft":1"#));

    peer.send(part(2, 1, "text/plain", Some(5)), b"hello");
    assert!(peer.answer().contains(r#""ev":"ok""#));

    // And a chunked part alongside it, in the same draft.
    peer.send(part(3, 1, "text/html", None), b"");
    peer.send(chunk(8), b"<b>hello");
    peer.send(chunk(4), b"</b>");
    peer.send(chunk(0), b"");
    assert!(peer.answer().contains(r#""ev":"ok""#));

    peer.send(Request::Commit { req: 4, draft: 1 }, b"");
    let commit = peer.answer();
    assert!(commit.contains(r#""created":true"#), "{commit}");

    peer.send(fetch(5, 1, Some("text/html"), false), b"");
    peer.run();
    let answers = peer.answers();
    assert!(answers[0].0.contains(r#""bytes":12"#), "{}", answers[0].0);
    assert_eq!(answers[0].1, b"<b>hello</b>");

    // Everybody watching was told.
    assert_eq!(peer.told.len(), 1);
    assert!(peer.told[0].starts_with(r#"{"ev":"added","entry":{"id":1,"kind":"text""#));
}

#[test]
fn a_payload_that_ends_early_stores_nothing() {
    let mut peer = Peer::open(1024 * 1024);
    peer.send(begin(1), b"");
    peer.answer();
    peer.send(part(2, 1, "text/plain", Some(4096)), b"short");
    assert_eq!(
        peer.answer(),
        "{\"ev\":\"error\",\"req\":2,\"code\":\"storage\",\
         \"message\":\"payload ended 4091 bytes early\"}\n"
    );
    assert!(peer.blobs.is_empty());
    peer.send(Request::Commit { req: 3, draft: 1 }, b"");
    assert!(peer.answer().contains(r#""entry":0"#));
}

#[test]
fn an_abort_discards_a_draft_and_its_parts() {
    let mut peer = Peer::open(1024 * 1024);
    peer.send(begin(1), b"");
    peer.send(part(2, 1, "text/plain", Some(4)), b"kept");
    peer.send(Request::Commit { req: 3, draft: 1 }, b"");
    peer.send(begin(4), b"");
    peer.send(part(5, 2, "text/plain", Some(4)), b"kept");
    peer.send(part(6, 2, "text/html", Some(4)), b"gone");
    peer.send(Request::Abort { req: 7, draft: 2 }, b"");
    peer.send(Request::Abort { req: 8, draft: 99 }, b"");
    peer.run();
    let answers = peer.answers();
    assert_eq!(answers.len(), 8);
    assert_eq!(answers[6].0, "{\"ev\":\"ok\",\"req\":7}\n");
    assert_eq!(answers[7].0, "{\"ev\":\"ok\",\"req\":8}\n");
    // Only what no entry needs goes.
    assert_eq!(peer.archive.sweep(), vec![digest_of(b"gone")]);
}

#[test]
fn an_abort_leaves_another_draft_its_content() {
    let mut peer = Peer::open(1024 * 1024);
    for draft in [1u64, 2] {
        peer.send(begin(draft), b"");
        peer.send(part(10, draft, "text/plain", Some(4)), b"same");
    }
    peer.send(Request::Abort { req: 3, draft: 1 }, b"");
    peer.run();
    peer.answers();
    assert!(peer.archive.sweep().is_empty());

    peer.send(Request::Commit { req: 4, draft: 2 }, b"");
    assert!(peer.answer().contains(r#""created":true"#));
    assert!(peer.archive.sweep().is_empty());
    peer.send(fetch(5, 1, None, false), b"");
    peer.run();
    assert_eq!(peer.answers()[0].1, b"same");
}

#[test]
fn one_session_costs_another_nothing() {
    let mut peer = Peer::open(1024 * 1024);
    peer.send(begin(1), b"");
    peer.send(part(2, 1, "text/plain", Some(4)), b"same");
    peer.run();
    peer.answers();

    // A watcher sees the same copy, and offers it as part of a secret.
    let mut recorder = Recorder::new();
    for mime in ["text/plain", "x-kde-passwordManagerHint"] {
        let accepted = Recorder::offer(&peer.archive, mime, b"same").unwrap();
        recorder.record(accepted, &mut peer.archive);
    }
    let none = Samples {
        text: None,
        image: None,
    };
    recorder.commit(None, 1, &none, &mut peer.archive).unwrap();
    assert!(peer.archive.sweep().is_empty());

    // One that gives its event up takes nothing else with it either.
    let mut recorder = Recorder::new();
    for content in [b"same", b"only"] {
        let accepted = Recorder::offer(&peer.archive, "text/plain", content).unwrap();
        recorder.record(accepted, &mut peer.archive);
    }
    recorder.abandon(&mut peer.archive);
    assert_eq!(peer.archive.sweep(), vec![digest_of(b"only")]);

    peer.session.hang_up(&mut peer.archive);
    assert_eq!(peer.archive.sweep(), vec![digest_of(b"same")]);
}

#[test]
fn a_draft_that_cannot_be_read_back_is_given_up() {
    let mut peer = Peer::open(1024 * 1024);
    peer.send(begin(1), b"");
    peer.send(part(2, 1, "text/plain", Some(4)), b"text");
    peer.run();
    peer.answers();
    let commit = Request::Commit { req: 3, draft: 1 };
    match peer.session.perform(commit, &mut peer.archive) {
        Step::Describe { pending, .. } => {
            let error = StoreError::Io("disk".into());
            peer.session
                .undescribed(pending, &error, &mut peer.archive);
        }
        _ => panic!("a draft is described before it is published"),
    }
    let answers = peer.answers();
    assert!(answers[0].0.contains(r#""message":"disk""#));
    assert_eq!(peer.archive.sweep(), vec![digest_of(b"text")]);
}

#[test]
fn a_connection_that_closes_aborts_its_drafts() {
    let mut peer = Peer::open(1024 * 1024);
    for (draft, content) in [(1u64, b"one"), (2, b"two")] {
        peer.send(begin(draft), b"");
        peer.send(part(10, draft, "text/plain", Some(3)), content);
    }
    peer.run();
    peer.answers();
    peer.session.hang_up(&mut peer.archive);
    let mut swept = peer.archive.sweep();
    swept.sort();
    let mut stored = vec![digest_of(b"one"), digest_of(b"two")];
    stored.sort();
    assert_eq!(swept, stored);

    peer.send(Request::Commit { req: 3, draft: 1 }, b"");
    assert!(peer.answer().contains(r#""code":"no-such-draft""#));
    peer.session.hang_up(&mut peer.archive);
    assert!(peer.archive.sweep().is_empty());
}

#[test]
fn takes_only_the_declared_count_and_leaves_the_rest_of_the_stream() {
    let mut peer = Peer::open(1024 * 1024);
    peer.send(begin(1), b"");
    peer.send(part(2, 1, "text/plain", Some(7)), b"paydata");
    peer.send(Request::Commit { req: 3, draft: 1 }, b"");
    peer.run();
    let answers = peer.answers();
    assert_eq!(answers.len(), 3);
    assert!(answers[2].0.contains(r#""ev":"commit""#));
    assert_eq!(peer.blobs[&digest_of(b"paydata")], b"paydata");
}

#[test]
fn an_empty_part_is_a_part() {
    let mut peer = Peer::open(1024);
    peer.send(begin(1), b"");
    peer.send(part(2, 1, "text/plain", Some(0)), b"");
    peer.send(part(3, 99, "text/plain", Some(0)), b"");
    peer.run();
    let answers = peer.answers();
    assert!(answers[1].0.contains(r#""ev":"ok""#));
    assert!(answers[2].0.contains("draft 99 is not open"));
}

#[test]
fn a_client_is_held_to_its_hello() {
    let archive = Store::new(Index::new(), 77);
    let mut session = Session::new();
    assert!(!session.greet(None, &archive));
    assert!(session.take_answers().is_empty());
    assert!(!session.greet(Some(begin(1)), &archive));
    assert!(session.take_answers().is_empty());

    let old = Request::Hello {
        v: 2,
        role: Role::Ui,
    };
    assert!(!session.greet(Some(old), &archive));
    let answers = session.take_answers();
    assert_eq!(
        String::from_utf8(answers[0].frame.clone()).unwrap(),
        "{\"ev\":\"error\",\"code\":\"bad-version\",\
         \"message\":\"this daemon speaks version 1, not 2\"}\n"
    );

    let good = Request::Hello {
        v: 1,
        role: Role::Both,
    };
    assert!(session.greet(Some(good), &archive));
    assert_eq!(session.role(), Role::Both);
    let answers = session.take_answers();
    assert_eq!(
        String::from_utf8(answers[0].frame.clone()).unwrap(),
        "{\"ev\":\"hello\",\"v\":1,\"entries\":0,\"bytes\":0,\"budget\":77}\n"
    );
}

#[test]
fn a_browsing_client_may_not_record() {
    let mut archive = Store::new(Index::new(), 1024);
    let mut session = Session::new();
    let hello = Request::Hello {
        v: 1,
        role: Role::Ui,
    };
    assert!(session.greet(Some(hello), &archive));
    session.take_answers();
    assert!(matches!(session.perform(begin(4), &mut archive), Step::Next));
    let answers = session.take_answers();
    assert_eq!(
        String::from_utf8(answers[0].frame.clone()).unwrap(),
        "{\"ev\":\"error\",\"req\":4,\"code\":\"bad-frame\",\
         \"message\":\"this connection did not take the capture role\"}\n"
    );
    assert!(!session.exhausted());
    session.reject("expected value at line 1 column 1");
    let answers = session.take_answers();
    assert_eq!(
        String::from_utf8(answers[0].frame.clone()).unwrap(),
        "{\"ev\":\"error\",\"code\":\"bad-frame\",\
         \"message\":\"expected value at line 1 column 1\"}\n"
    );
}

#[test]
fn drafts_are_numbered_once_and_closed_by_what_ends_them() {
    let mut peer = Peer::open(1024);
    for req in 1..=3 {
        peer.send(begin(req), b"");
        assert!(peer.answer().contains(&format!(r#""draft":{req}"#)));
    }
    peer.send(Request::Abort { req: 4, draft: 2 }, b"");
    assert!(peer.answer().contains(r#""ev":"ok""#));
    peer.send(part(5, 2, "text/plain", Some(2)), b"hi");
    assert!(peer.answer().contains("draft 2 is not open"));
    peer.send(begin(6), b"");
    assert!(peer.answer().contains(r#""draft":4"#));
    peer.send(Request::Commit { req: 7, draft: 2 }, b"");
    assert!(peer.answer().contains(r#""code":"no-such-draft""#));
    peer.send(
        Request::Hello {
            v: 1,
            role: Role::Ui,
        },
        b"",
    );
    assert!(peer.answer().contains("hello may only open a connection"));
}

#[test]
fn managing_the_archive_answers_and_tells() {
    let mut peer = Peer::open(1024 * 1024);
    for (req, content) in [(1, b"aa"), (2, b"bb"), (3, b"cc")] {
        peer.send(begin(req), b"");
        peer.send(part(req, req, "text/plain", Some(2)), content);
        peer.send(Request::Commit { req, draft: req }, b"");
    }
    peer.run();
    peer.answers();
    peer.told.clear();

    peer.send(
        Request::Pin {
            req: 10,
            entry: 2,
            pinned: true,
        },
        b"",
    );
    assert_eq!(peer.answer(), "{\"ev\":\"ok\",\"req\":10}\n");
    assert!(peer.told[0].contains(r#""ev":"updated""#) && peer.told[0].contains(r#""pinned":true"#));

    peer.send(Request::Remove { req: 11, entry: 1 }, b"");
    assert_eq!(peer.answer(), "{\"ev\":\"ok\",\"req\":11}\n");
    assert_eq!(peer.told[1], "{\"ev\":\"removed\",\"entry\":1}\n");

    peer.send(
        Request::List {
            req: 12,
            limit: None,
            before: None,
            query: Some("b".into()),
            kind: Some("text".into()),
        },
        b"",
    );
    let list = peer.answer();
    assert!(list.contains(r#""id":2"#) && !list.contains(r#""id":3"#), "{list}");

    peer.send(Request::Clear { req: 13 }, b"");
    assert_eq!(peer.answer(), "{\"ev\":\"ok\",\"req\":13}\n");
    assert_eq!(peer.told[2], "{\"ev\":\"cleared\"}\n");

    peer.send(Request::Stats { req: 14 }, b"");
    assert_eq!(
        peer.answer(),
        "{\"ev\":\"stats\",\"req\":14,\"entries\":1,\"bytes\":2,\"budget\":1048576}\n"
    );
    for gone in [
        Request::Remove { req: 15, entry: 3 },
        Request::Pin {
            req: 15,
            entry: 3,
            pinned: false,
        },
        fetch(15, 3, None, true),
    ] {
        peer.send(gone, b"");
        assert_eq!(
            peer.answer(),
            "{\"ev\":\"error\",\"req\":15,\"code\":\"no-such-entry\",\
             \"message\":\"entry 3 is gone\"}\n"
        );
    }
}

fn picture() -> Vec<u8> {
    let image = image::RgbImage::from_fn(3, 2, |x, _| image::Rgb([x as u8, 0, 0]));
    let mut out = std::io::Cursor::new(Vec::new());
    image::DynamicImage::ImageRgb8(image)
        .write_to(&mut out, image::ImageFormat::Png)
        .unwrap();
    out.into_inner()
}

#[test]
fn a_picture_is_served_as_pixels_and_as_a_bitmap() {
    let mut peer = Peer::open(1024 * 1024);
    let png = picture();
    peer.send(begin(1), b"");
    peer.send(part(2, 1, "image/png", Some(png.len() as u64)), &png);
    peer.send(Request::Commit { req: 3, draft: 1 }, b"");
    peer.run();
    peer.answers();

    peer.send(Request::Thumb { req: 4, entry: 1 }, b"");
    peer.run();
    let answers = peer.answers();
    assert_eq!(
        answers[0].0,
        "{\"ev\":\"thumb\",\"req\":4,\"width\":3,\"height\":2,\"stride\":12,\"bytes\":24}\n"
    );
    assert_eq!(&answers[0].1[4..8], &[1, 0, 0, 255]);

    // The bitmap only where it was asked for, and nothing else that way.
    peer.send(fetch(5, 1, Some("image/bmp"), true), b"");
    peer.send(fetch(6, 1, Some("image/bmp"), false), b"");
    peer.send(fetch(7, 1, Some("image/gif"), true), b"");
    peer.run();
    let answers = peer.answers();
    assert!(answers[0].0.contains(r#""ev":"blob","req":5,"mime":"image/bmp""#));
    assert_eq!(&answers[0].1[..2], b"BM");
    for refused in &answers[1..] {
        assert!(refused.0.contains("entry 1 has no such mime"), "{}", refused.0);
    }
}

#[test]
fn a_secret_is_answered_without_an_entry() {
    let mut peer = Peer::open(1024);
    peer.send(begin(1), b"");
    peer.send(part(2, 1, "text/plain", Some(7)), b"hunter2");
    peer.send(part(3, 1, "x-kde-passwordManagerHint", Some(6)), b"secret");
    peer.send(Request::Commit { req: 4, draft: 1 }, b"");
    peer.run();
    assert_eq!(
        peer.answers()[3].0,
        "{\"ev\":\"commit\",\"req\":4,\"entry\":0,\"created\":false}\n"
    );
    assert!(peer.told.is_empty());
    assert_eq!(peer.archive.stats(), (0, 0));
}

#[test]
fn what_could_not_be_saved_is_taken_back() {
    let mut peer = Peer::open(1024);
    peer.send(begin(1), b"");
    peer.send(Request::Clear { req: 2 }, b"");
    while let Some(request) = peer.frame() {
        peer.session.perform(request, &mut peer.archive);
    }
    peer.session.unsaved(2, "disk I/O error".into());
    assert!(peer.session.take_events().is_empty());
    let answers = peer.answers();
    assert_eq!(answers.len(), 1);
    assert!(answers[0].0.contains(r#""code":"storage","message":"disk I/O error""#));
    peer.session.failed(3, &StoreError::Io("gone".into()));
    assert!(peer.answers()[0].0.contains(r#""message":"gone""#));
}

#[test]
fn a_chunked_part_is_followed_by_chunks_and_nothing_else() {
    assert_eq!(chunk_length(None), Err(Interruption::CutOff));
    assert_eq!(chunk_length(Some(Ok(chunk(9)))), Ok(9));
    assert_eq!(
        chunk_length(Some(Ok(begin(1)))),
        Err(Interruption::Interrupted)
    );
    assert_eq!(
        chunk_length(Some(Err("not a frame".into()))),
        Err(Interruption::Interrupted)
    );
    assert_eq!(
        Interruption::CutOff.message(),
        "a chunked part was cut off before its terminator"
    );
}

#[test]
fn a_part_that_cannot_be_stored_is_consumed_all_the_same() {
    let archive = Store::new(Index::new(), 1000);

    // The temporary cannot be created.
    let intake = Intake::whole(&archive, "text/plain", true, 5).created(Err("full".into()));
    assert!(matches!(intake.next(), Action::Skip(5)));
    match intake.skipped().outcome() {
        Some(PartOutcome::Failed(StoreError::Io(words))) => assert_eq!(words, "full"),
        other => panic!("expected a failure, got {other:?}"),
    }

    // A write fails half way.
    let intake = Intake::whole(&archive, "text/plain", true, 5).created(Ok(()));
    let intake = intake.absorb(b"ab", Err("full".into()));
    assert!(matches!(intake.next(), Action::Skip(3)));

    // The finished file cannot be given its name.
    let intake = Intake::whole(&archive, "text/plain", true, 2).created(Ok(()));
    let intake = intake.absorb(b"ab", Ok(()));
    match intake.next() {
        Action::Seal(digest) => assert_eq!(digest, digest_of(b"ab")),
        other => panic!("expected to seal, got {other:?}"),
    }
    let intake = intake.sealed(Err("busy".into()));
    assert!(matches!(intake.next(), Action::Done));
    assert!(matches!(
        intake.outcome(),
        Some(PartOutcome::Failed(StoreError::Io(_)))
    ));

    // A large part is read a buffer at a time.
    let large = Store::new(Index::new(), i64::MAX);
    let intake = Intake::whole(&large, "text/plain", true, 1 << 40).created(Ok(()));
    assert!(matches!(intake.next(), Action::Read(65536)));
}
