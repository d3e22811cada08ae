use rldyour_clipboard::settings::{
    budget, inherits_listener, may_exit_when_idle, stamp, IdleWatch, IDLE_EXIT, IDLE_TICK,
};
use rldyour_clipboard::store::DEFAULT_BUDGET;

#[test]
fn an_unset_budget_is_the_default_and_zero_means_no_limit() {
    assert_eq!(budget(None), DEFAULT_BUDGET);
    assert_eq!(budget(Some("1048576")), 1024 * 1024);
    assert_eq!(
        budget(Some("0")),
        i64::MAX,
        "zero is no budget, not no space"
    );
    // Nonsense leaves the default rather than shrinking the archive to it.
    assert_eq!(budget(Some("-1")), DEFAULT_BUDGET);
    assert_eq!(budget(Some("plenty")), DEFAULT_BUDGET);
}

#[test]
fn a_budget_is_read_the_way_numbers_are() {
    assert_eq!(DEFAULT_BUDGET, 5 * 1024 * 1024 * 1024);
    for text in [
        "+7",
        "007",
        "-0",
        "",
        "+",
        "-",
        " 7",
        "7 ",
        "1_000",
        "9223372036854775807",
        "9223372036854775808",
        "-9223372036854775808",
        "99999999999999999999999999",
    ] {
        let expected = text
            .parse::<i64>()
            .ok()
            .filter(|bytes| *bytes >= 0)
            .map(|bytes| if bytes == 0 { i64::MAX } else { bytes })
            .unwrap_or(DEFAULT_BUDGET);
        assert_eq!(budget(Some(text)), expected, "{text:?}");
    }
}

#[test]
fn a_socket_is_inherited_only_by_the_process_it_was_passed_to() {
    assert!(inherits_listener(Some("1"), Some("42"), 42));
    assert!(inherits_listener(Some("3"), Some("42"), 42));
    assert!(!inherits_listener(Some("0"), Some("42"), 42));
    assert!(!inherits_listener(Some("1"), Some("41"), 42));
    assert!(!inherits_listener(None, Some("42"), 42));
    assert!(!inherits_listener(Some("1"), None, 42));
    assert!(!inherits_listener(Some("one"), Some("42"), 42));
    assert!(!inherits_listener(Some("4294967296"), Some("42"), 42));
}

#[test]
fn a_daemon_nobody_uses_exits_after_its_grace() {
    assert!(may_exit_when_idle(true, false));
    assert!(!may_exit_when_idle(true, true));
    assert!(!may_exit_when_idle(false, false));

    let mut watch = IdleWatch::new();
    for _ in 0..(IDLE_EXIT / IDLE_TICK - 1) {
        assert!(!watch.tick(0));
    }
    // One connection starts the wait over.
    assert!(!watch.tick(1));
    for _ in 0..(IDLE_EXIT / IDLE_TICK - 1) {
        assert!(!watch.tick(0));
    }
    assert!(watch.tick(0));
}

#[test]
fn a_clock_that_cannot_be_read_is_the_epoch() {
    assert_eq!(stamp(None), 0);
    assert_eq!(stamp(Some(1_789_456_123)), 1_789_456_123);
    assert_eq!(stamp(Some(u64::MAX)), -1);
}
