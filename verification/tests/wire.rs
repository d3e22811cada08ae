use rldyour_clipboard::outbox::{Outbox, Payload, Watchers};
use rldyour_clipboard::proto::{code, Request, Response, Role, Summary, PROTOCOL_VERSION};

fn summary(id: i64) -> Summary {
    Summary {
        id,
        kind: "text",
        mimes: vec!["text/plain".into()],
        bytes: 4,
        preview: Some("text".into()),
        width: None,
        height: None,
        thumb: false,
        pinned: false,
        source: None,
        at: 0,
    }
}

fn encoded(response: &Response) -> String {
    let mut out = vec![1, 2, 3];
    response.encode(&mut out);
    String::from_utf8(out).unwrap()
}

#[test]
fn a_frame_is_one_line() {
    let mut out = Outbox::new();
    out.send(&Response::Okay { req: 1 });

    let items = out.take();
    assert_eq!(items.len(), 1);
    assert_eq!(&items[0].frame, b"{\"ev\":\"ok\",\"req\":1}\n");
    assert!(items[0].payload.is_none());
    assert!(out.take().is_empty());
}

#[test]
fn a_blob_follows_its_frame_with_nothing_in_between() {
    let mut out = Outbox::new();
    let content = b"0123456789";
    out.send_blob(
        &Response::Blob {
            req: 2,
            mime: "text/plain".into(),
            bytes: 10,
        },
        Payload::Held(content.to_vec()),
    );
    out.send(&Response::Okay { req: 3 });

    let items = out.take();
    let frame = String::from_utf8(items[0].frame.clone()).unwrap();
    assert!(frame.contains(r#""bytes":10"#), "{frame}");
    match &items[0].payload {
        Some(Payload::Held(payload)) => assert_eq!(payload, content),
        other => panic!("expected the payload, got {other:?}"),
    }
    assert_eq!(&items[1].frame, b"{\"ev\":\"ok\",\"req\":3}\n");
}

#[test]
fn a_broadcast_reaches_every_watching_connection() {
    let mut watchers = Watchers::default();
    watchers.add(11);
    watchers.add(12);
    assert_eq!(watchers.count(), 2);

    let (connections, frame) = watchers.broadcast(&Response::Added { entry: summary(7) });
    assert_eq!(connections, vec![11, 12]);
    let frame = String::from_utf8(frame).unwrap();
    assert!(frame.contains(r#""ev":"added""#), "{frame}");
    assert!(frame.contains(r#""id":7"#), "{frame}");

    watchers.retain(&[true, true]);
    assert_eq!(watchers.count(), 2);
}

#[test]
fn a_connection_that_went_away_leaves_the_list_on_its_own() {
    let mut watchers = Watchers::default();
    watchers.add(5);

    let (connections, _) = watchers.broadcast(&Response::Cleared {});
    assert_eq!(connections, vec![5]);
    // The client's end closing is what a disconnect looks like from here.
    watchers.retain(&[false]);
    assert_eq!(watchers.count(), 0);
}

#[test]
fn only_the_connections_that_were_reached_stay() {
    let mut watchers = Watchers::default();
    for connection in [1, 2, 3, 4] {
        watchers.add(connection);
    }
    watchers.retain(&[true, false, true, false]);
    assert_eq!(watchers.broadcast(&Response::Cleared {}).0, vec![1, 3]);
}

#[test]
fn encodes_a_frame_with_one_trailing_newline() {
    let mut out = Vec::new();
    Response::Okay { req: 3 }.encode(&mut out);
    assert_eq!(out, b"{\"ev\":\"ok\",\"req\":3}\n".to_vec());
}

#[test]
fn an_error_without_a_request_omits_the_field() {
    let mut out = Vec::new();
    Response::error(None, code::BAD_FRAME, "not a frame").encode(&mut out);
    let text = String::from_utf8(out).unwrap();
    assert!(!text.contains("\"req\""), "{text}");
    assert!(text.contains(r#""code":"bad-frame""#), "{text}");
}

#[test]
fn every_response_is_written_field_by_field() {
    assert_eq!(
        encoded(&Response::Hello {
            v: PROTOCOL_VERSION,
            entries: 1284,
            bytes: 394857213,
            budget: 5368709120,
        }),
        "{\"ev\":\"hello\",\"v\":1,\"entries\":1284,\"bytes\":394857213,\"budget\":5368709120}\n"
    );
    assert_eq!(
        encoded(&Response::Begin { req: 1, draft: 7 }),
        "{\"ev\":\"begin\",\"req\":1,\"draft\":7}\n"
    );
    assert_eq!(
        encoded(&Response::Commit {
            req: 3,
            entry: 42,
            created: true
        }),
        "{\"ev\":\"commit\",\"req\":3,\"entry\":42,\"created\":true}\n"
    );
    assert_eq!(
        encoded(&Response::Thumb {
            req: 7,
            width: 64,
            height: 32,
            stride: 256,
            bytes: 8192
        }),
        "{\"ev\":\"thumb\",\"req\":7,\"width\":64,\"height\":32,\"stride\":256,\"bytes\":8192}\n"
    );
    assert_eq!(
        encoded(&Response::Stats {
            req: 11,
            entries: 0,
            bytes: -5,
            budget: i64::MIN
        }),
        "{\"ev\":\"stats\",\"req\":11,\"entries\":0,\"bytes\":-5,\"budget\":-9223372036854775808}\n"
    );
    assert_eq!(
        encoded(&Response::Removed { entry: 42 }),
        "{\"ev\":\"removed\",\"entry\":42}\n"
    );
    assert_eq!(encoded(&Response::Cleared {}), "{\"ev\":\"cleared\"}\n");
    assert_eq!(
        encoded(&Response::error(
            Some(6),
            code::NO_SUCH_ENTRY,
            "entry 42 is gone"
        )),
        "{\"ev\":\"error\",\"req\":6,\"code\":\"no-such-entry\",\"message\":\"entry 42 is gone\"}\n"
    );
    let mut full = summary(42);
    full.kind = "image";
    full.mimes = vec!["image/png".into(), "text/html".into()];
    full.preview = None;
    full.width = Some(1920);
    full.height = Some(1080);
    full.thumb = true;
    full.source = Some("firefox".into());
    full.at = 1789456123;
    assert_eq!(
        encoded(&Response::List {
            req: 5,
            items: vec![full]
        }),
        "{\"ev\":\"list\",\"req\":5,\"items\":[{\"id\":42,\"kind\":\"image\",\
         \"mimes\":[\"image/png\",\"text/html\"],\"bytes\":4,\"preview\":null,\
         \"width\":1920,\"height\":1080,\"thumb\":true,\"pinned\":false,\
         \"source\":\"firefox\",\"at\":1789456123}]}\n"
    );
    assert_eq!(
        encoded(&Response::Updated { entry: summary(1) }),
        "{\"ev\":\"updated\",\"entry\":{\"id\":1,\"kind\":\"text\",\"mimes\":[\"text/plain\"],\
         \"bytes\":4,\"preview\":\"text\",\"width\":null,\"height\":null,\"thumb\":false,\
         \"pinned\":false,\"source\":null,\"at\":0}}\n"
    );
}

#[test]
fn text_is_escaped_so_that_a_frame_stays_one_line() {
    let hostile = "a\"b\\c\nd\re\tf\u{8}g\u{c}h\u{0}i\u{1f}j\u{7f}é😀";
    let line = encoded(&Response::error(None, code::STORAGE, hostile));
    assert_eq!(line.matches('\n').count(), 1);
    assert_eq!(
        line,
        "{\"ev\":\"error\",\"code\":\"storage\",\"message\":\
         \"a\\\"b\\\\c\\nd\\re\\tf\\bg\\fh\\u0000i\\u001fj\u{7f}é😀\"}\n"
    );
}

#[test]
fn roles_and_request_ids_are_read_off_the_frames() {
    assert!(Role::Capture.records() && Role::Both.records() && !Role::Ui.records());
    assert!(Role::Ui.watches() && Role::Both.watches() && !Role::Capture.watches());
    assert_eq!(Role::default(), Role::Ui);
    assert_eq!(
        Request::Hello {
            v: 1,
            role: Role::Ui
        }
        .req(),
        None
    );
    assert_eq!(Request::Chunk { bytes: 4 }.req(), None);
    assert_eq!(Request::Stats { req: 9 }.req(), Some(9));
    assert_eq!(
        Request::Pin {
            req: 8,
            entry: 1,
            pinned: true
        }
        .req(),
        Some(8)
    );
}
