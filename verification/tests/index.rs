use rldyour_clipboard::kind::Kind;
use rldyour_clipboard::store::index::{Change, Facts, Index, Part, Record, Refusal, MAX_LIMIT};
use rldyour_clipboard::store::search::{fts_query, Search};

fn part(mime: &str, digest: &str, bytes: u64) -> Part {
    Part {
        mime: mime.into(),
        digest: digest.into(),
        bytes,
    }
}

fn text_facts(body: &str) -> Facts {
    Facts {
        preview: Some(body.into()),
        body: Some(body.into()),
        ..Facts::default()
    }
}

#[test]
fn records_an_entry_with_every_representation_it_holds() {
    let mut index = Index::new();
    let parts = [part("text/html", "aa", 10), part("text/plain", "bb", 4)];
    let id = index
        .insert("identity-1", &parts, &text_facts("hello"), 100)
        .unwrap();

    let summary = index.summary(id).unwrap();
    assert_eq!(summary.bytes, 14);
    assert_eq!(summary.kind, "text");
    // Mimes come back in serving preference, richest first.
    assert_eq!(summary.mimes, vec!["text/html", "text/plain"]);
    assert!(!summary.pinned);
}

#[test]
fn a_repeated_copy_moves_the_timestamp_instead_of_adding_a_row() {
    let mut index = Index::new();
    index
        .insert(
            "identity-1",
            &[part("text/plain", "aa", 4)],
            &text_facts("x"),
            100,
        )
        .unwrap();

    assert!(index.touch("identity-1", 200).is_some());
    assert_eq!(index.entries(), 1);
    assert_eq!(index.touch("identity-2", 200), None);
}

#[test]
fn lists_pinned_entries_before_the_merely_recent() {
    let mut index = Index::new();
    let old = index
        .insert("a", &[part("text/plain", "aa", 1)], &text_facts("old"), 100)
        .unwrap();
    index
        .insert("b", &[part("text/plain", "bb", 1)], &text_facts("new"), 200)
        .unwrap();

    assert!(index.set_pinned(old, true));
    let listed = index.list(10, None, None, None).unwrap();
    assert_eq!(listed[0].id, old, "a pinned entry outranks a newer one");
}

#[test]
fn searches_text_and_narrows_on_a_prefix_as_the_user_types() {
    let mut index = Index::new();
    index
        .insert(
            "a",
            &[part("text/plain", "aa", 1)],
            &text_facts("git rebase interactive"),
            100,
        )
        .unwrap();
    index
        .insert(
            "b",
            &[part("text/plain", "bb", 1)],
            &text_facts("cargo clippy"),
            200,
        )
        .unwrap();

    assert_eq!(index.list(10, None, Some("rebase"), None).unwrap().len(), 1);
    // A half-typed word still matches, which is what makes search feel live.
    assert_eq!(index.list(10, None, Some("reb"), None).unwrap().len(), 1);
    assert_eq!(
        index
            .list(10, None, Some("git rebase"), None)
            .unwrap()
            .len(),
        1
    );
    assert_eq!(
        index.list(10, None, Some("nonesuch"), None).unwrap().len(),
        0
    );
}

#[test]
fn punctuation_in_a_search_is_searched_for_not_executed() {
    let mut index = Index::new();
    index
        .insert(
            "a",
            &[part("text/plain", "aa", 1)],
            &text_facts("quoted"),
            100,
        )
        .unwrap();

    // Each of these is FTS5 syntax that would be a parse error unquoted.
    for query in ["\"", "*", "a OR", "NEAR(", "^", "quoted\""] {
        assert!(
            index.list(10, None, Some(query), None).is_ok(),
            "query {query:?} must not fail"
        );
    }
}

#[test]
fn a_shared_representation_survives_until_the_last_entry_using_it_goes() {
    let mut index = Index::new();
    let first = index
        .insert(
            "a",
            &[part("text/plain", "shared", 5)],
            &text_facts("x"),
            100,
        )
        .unwrap();
    let second = index
        .insert(
            "b",
            &[part("text/plain", "shared", 5)],
            &text_facts("y"),
            200,
        )
        .unwrap();

    // The blob is counted once however many entries point at it.
    assert_eq!(index.bytes(), 5);

    assert!(index.remove(first).is_empty(), "still referenced");
    assert_eq!(index.remove(second), vec!["shared".to_string()]);
    assert_eq!(index.bytes(), 0);
}

#[test]
fn clearing_keeps_what_was_pinned() {
    let mut index = Index::new();
    let kept = index
        .insert(
            "a",
            &[part("text/plain", "aa", 1)],
            &text_facts("keep"),
            100,
        )
        .unwrap();
    index
        .insert(
            "b",
            &[part("text/plain", "bb", 1)],
            &text_facts("drop"),
            200,
        )
        .unwrap();
    assert!(index.set_pinned(kept, true));

    assert_eq!(index.clear(), vec!["bb".to_string()]);
    assert_eq!(index.entries(), 1);
    assert_eq!(index.summary(kept).unwrap().id, kept);
}

#[test]
fn eviction_drops_the_oldest_first_and_stops_at_the_budget() {
    let mut index = Index::new();
    for (identity, digest, at) in [("a", "aa", 100), ("b", "bb", 200), ("c", "cc", 300)] {
        index
            .insert(
                identity,
                &[part("image/png", digest, 100)],
                &Facts::default(),
                at,
            )
            .unwrap();
    }
    assert_eq!(index.bytes(), 300);

    let (orphaned, removed) = index.evict_to(150);
    assert_eq!(orphaned, vec!["aa".to_string(), "bb".to_string()]);
    assert_eq!(removed.len(), 2);
    assert_eq!(index.bytes(), 100);
}

#[test]
fn eviction_never_takes_a_pinned_entry_even_to_meet_the_budget() {
    let mut index = Index::new();
    let pinned = index
        .insert("a", &[part("image/png", "aa", 500)], &Facts::default(), 100)
        .unwrap();
    assert!(index.set_pinned(pinned, true));

    let (orphaned, removed) = index.evict_to(10);
    // Over budget and stays over budget: pinning outranks the policy.
    assert!(orphaned.is_empty());
    assert!(removed.is_empty());
    assert_eq!(index.bytes(), 500);
}

#[test]
fn a_list_never_returns_more_than_the_cap_however_much_is_asked_for() {
    let mut index = Index::new();
    index
        .insert("a", &[part("text/plain", "aa", 1)], &text_facts("x"), 100)
        .unwrap();
    assert!(index.list(u32::MAX, None, None, None).unwrap().len() <= MAX_LIMIT as usize);
}

#[test]
fn locate_prefers_the_richest_representation_unless_one_is_named() {
    let mut index = Index::new();
    let id = index
        .insert(
            "a",
            &[part("text/plain", "plain", 4), part("image/png", "png", 40)],
            &Facts::default(),
            100,
        )
        .unwrap();

    let (mime, digest, _) = index.locate(id, None).unwrap();
    assert_eq!((mime.as_str(), digest.as_str()), ("image/png", "png"));

    let (mime, digest, _) = index.locate(id, Some("text/plain")).unwrap();
    assert_eq!((mime.as_str(), digest.as_str()), ("text/plain", "plain"));

    assert!(index.locate(id, Some("text/html")).is_none());
}

#[test]
fn a_list_is_a_window_on_everything_asked_for() {
    let mut index = Index::new();
    for n in 0..600i64 {
        index
            .insert(
                &format!("i{n}"),
                &[part("text/plain", &format!("d{n}"), 1)],
                &text_facts(&format!("entry number{n}")),
                n % 7,
            )
            .unwrap();
    }
    assert_eq!(index.list(u32::MAX, None, None, None).unwrap().len(), 500);
    assert_eq!(index.list(0, None, None, None).unwrap().len(), 0);
    assert_eq!(index.list(1, None, None, None).unwrap().len(), 1);

    // Newest first, and of several copied at once the one recorded last.
    let listed = index.list(3, None, None, None).unwrap();
    let ids: Vec<i64> = listed.iter().map(|item| item.id).collect();
    assert_eq!(ids, vec![595, 588, 581]);

    // Older than an id, of one kind, matching a search.
    assert!(index
        .list(500, Some(10), None, None)
        .unwrap()
        .iter()
        .all(|item| item.id < 10));
    assert!(index
        .list(10, None, None, Some(Kind::Image))
        .unwrap()
        .is_empty());
    let found = index
        .list(10, Some(100), Some("number42"), Some(Kind::Text))
        .unwrap();
    assert_eq!(found.len(), 1);
    assert_eq!(found[0].preview.as_deref(), Some("entry number42"));
}

#[test]
fn a_search_follows_entries_that_come_and_go() {
    let mut index = Index::new();
    let first = index
        .insert("a", &[part("text/plain", "aa", 1)], &text_facts("apple"), 1)
        .unwrap();
    assert_eq!(index.list(10, None, Some("apple"), None).unwrap().len(), 1);

    // The last id is free again and is given to other text.
    index.remove(first);
    let second = index
        .insert("b", &[part("text/plain", "bb", 1)], &text_facts("pear"), 2)
        .unwrap();
    assert_eq!(first, second);
    assert_eq!(index.list(10, None, Some("apple"), None).unwrap().len(), 0);
    assert_eq!(index.list(10, None, Some("pear"), None).unwrap().len(), 1);

    // An entry without text is never found by a search.
    index
        .insert("c", &[part("image/png", "cc", 1)], &Facts::default(), 3)
        .unwrap();
    assert_eq!(index.list(10, None, Some("pear"), None).unwrap().len(), 1);
    assert_eq!(index.list(10, None, Some(" ,;"), None).unwrap().len(), 2);
}

#[test]
fn what_a_search_found_is_listed_like_everything_else() {
    let mut index = Index::new();
    for n in 1..=4i64 {
        index
            .insert(
                &format!("i{n}"),
                &[part("text/plain", &format!("d{n}"), 1)],
                &text_facts("x"),
                n,
            )
            .unwrap();
    }
    assert!(index.set_pinned(1, true));
    let ids = |found: Option<&[i64]>, before: Option<i64>, limit: u32| -> Vec<i64> {
        index
            .list_found(limit, before, found, None)
            .iter()
            .map(|item| item.id)
            .collect()
    };
    assert_eq!(ids(None, None, 10), vec![1, 4, 3, 2]);
    assert_eq!(ids(Some(&[2, 1, 4, 9]), None, 10), vec![1, 4, 2]);
    assert_eq!(ids(Some(&[2, 1, 4, 9]), Some(4), 10), vec![1, 2]);
    assert_eq!(ids(Some(&[2, 1, 4, 9]), None, 2), vec![1, 4]);
    assert_eq!(ids(Some(&[]), None, 10), Vec::<i64>::new());
}

#[test]
fn a_table_sqlite_refuses_to_search_is_given_up() {
    let mut search = Search::new();
    search.mark(7);
    search.refresh(Some("apple")).unwrap();
    assert_eq!(search.next_stale(), None);
    assert_eq!(search.matching("\"app\"*").unwrap(), vec![7]);

    // An expression that does not parse.
    assert!(search.matching("\"").is_err());
    assert_eq!(search.matching("\"app\"*").unwrap(), Vec::<i64>::new());
}

#[test]
fn what_the_user_typed_becomes_quoted_tokens() {
    assert_eq!(fts_query("git reb"), "\"git\" AND \"reb\"*");
    assert_eq!(fts_query("a_b-c\"d*"), "\"a_b\" AND \"c\" AND \"d\"*");
    assert_eq!(fts_query("  \"'() "), "");
    assert_eq!(fts_query("naïve 東京"), "\"naïve\" AND \"東京\"*");
}

#[test]
fn an_entry_that_cannot_be_recorded_changes_nothing() {
    let mut index = Index::new();
    index
        .insert("a", &[part("text/plain", "aa", 1)], &text_facts("x"), 100)
        .unwrap();

    let refusals = [
        (
            index.insert("a", &[part("text/plain", "bb", 1)], &Facts::default(), 1),
            Refusal::Identity,
        ),
        (
            index.insert(
                "b",
                &[part("text/plain", "bb", 1), part("text/plain", "cc", 1)],
                &Facts::default(),
                1,
            ),
            Refusal::Mime,
        ),
        (
            index.insert(
                "b",
                &[part("text/plain", "bb", u64::MAX)],
                &Facts::default(),
                1,
            ),
            Refusal::Overflow,
        ),
    ];
    for (outcome, refusal) in refusals {
        assert_eq!(outcome, Err(refusal));
    }
    assert_eq!(
        Refusal::Mime.message(),
        "UNIQUE constraint failed: part.entry, part.mime"
    );
    assert_eq!((index.entries(), index.bytes()), (1, 1));
    assert_eq!(index.known_digests(), vec!["aa"]);
}

#[test]
fn the_last_id_there_is_leaves_no_other() {
    let mut index = Index::new();
    assert!(index.restore(record(i64::MAX, "a", "aa"), 0));
    assert_eq!(
        index.insert("b", &[part("text/plain", "bb", 1)], &Facts::default(), 1),
        Err(Refusal::Full)
    );
}

fn record(id: i64, identity: &str, digest: &str) -> Record {
    Record {
        id,
        identity: identity.into(),
        kind: Kind::Text,
        bytes: 3,
        preview: Some("saved".into()),
        width: None,
        height: None,
        thumb: Some("thumb".into()),
        pinned: true,
        source: None,
        at: 9,
        body: Some("saved text".into()),
        parts: vec![part("text/plain", digest, 1), part("image/png", "png", 2)],
    }
}

#[test]
fn saved_entries_take_their_places_again() {
    let mut index = Index::new();
    assert!(index.restore(record(3, "a", "aa"), 7));
    assert!(index.restore(record(5, "b", "bb"), 7));
    // Not above those taken in, not a new identity, not even an id.
    assert!(!index.restore(record(4, "c", "cc"), 7));
    assert!(!index.restore(record(6, "a", "cc"), 7));
    assert!(!Index::new().restore(record(0, "a", "aa"), 7));

    assert_eq!((index.entries(), index.bytes()), (2, 1 + 1 + 2 + 7));
    assert_eq!(index.summary(3).unwrap().mimes, vec!["image/png", "text/plain"]);
    assert_eq!(index.thumb(5), Some(("thumb".to_string(), 7)));
    assert_eq!(index.blob("png").unwrap().refs, 2);
    assert!(index.take_changes().is_empty());
    assert_eq!(index.list(10, None, Some("saved"), None).unwrap().len(), 2);
    // New ids go on behind the saved ones.
    assert_eq!(
        index.insert("d", &[part("text/plain", "dd", 1)], &Facts::default(), 1),
        Ok(6)
    );
}

#[test]
fn every_change_names_the_rows_to_save() {
    let mut index = Index::new();
    let mut facts = Facts::default();
    facts.thumb = Some(part("image/png", "thumb", 3));
    let id = index
        .insert("a", &[part("image/png", "png", 10)], &facts, 1)
        .unwrap();
    let named = |changes: Vec<Change>| -> Vec<String> {
        changes
            .iter()
            .map(|change| match change {
                Change::Entry(id) => format!("entry {id}"),
                Change::Blob(digest) => format!("blob {digest}"),
            })
            .collect()
    };
    assert_eq!(
        named(index.take_changes()),
        vec!["entry 1", "blob png", "blob thumb"]
    );
    assert!(index.take_changes().is_empty());

    index.touch("a", 2);
    index.set_pinned(id, true);
    assert_eq!(named(index.take_changes()), vec!["entry 1", "entry 1"]);
    assert_eq!(index.remove(id), vec!["png", "thumb"]);
    assert_eq!(
        named(index.take_changes()),
        vec!["entry 1", "blob png", "blob thumb"]
    );
}

#[test]
fn a_prefix_finds_the_best_representation_under_it() {
    let mut index = Index::new();
    let id = index
        .insert(
            "a",
            &[
                part("text/plain", "plain", 4),
                part("Image/GIF", "gif", 5),
                part("image/jpeg", "jpeg", 6),
            ],
            &Facts::default(),
            1,
        )
        .unwrap();
    assert_eq!(
        index.locate_prefixed(id, "image/"),
        Some(("image/jpeg".into(), "jpeg".into(), 6))
    );
    assert_eq!(
        index.locate_prefixed(id, "Image/"),
        Some(("Image/GIF".into(), "gif".into(), 5))
    );
    assert_eq!(index.locate_prefixed(id, "IMAGE/"), None);
    assert_eq!(
        index.locate_picture(id),
        Some(("image/jpeg".into(), "jpeg".into(), 6))
    );
    assert_eq!(index.locate_picture(id + 1), None);
    assert_eq!(index.locate_prefixed(id, "image/_"), None);
    assert_eq!(index.locate_prefixed(id, "im%"), None);
    assert_eq!(index.locate_prefixed(id + 1, "image/"), None);
    assert_eq!(index.thumb(id), None);
}

#[test]
fn eviction_of_entries_of_one_age_goes_by_id() {
    let mut index = Index::new();
    for (identity, digest) in [("a", "aa"), ("b", "bb"), ("c", "cc")] {
        index
            .insert(
                identity,
                &[part("image/png", digest, 100)],
                &Facts::default(),
                7,
            )
            .unwrap();
    }
    assert!(index.set_pinned(1, true));
    let (orphaned, removed) = index.evict_to(200);
    assert_eq!((orphaned, removed), (vec!["bb".to_string()], vec![2]));
}
