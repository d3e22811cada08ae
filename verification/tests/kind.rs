use rldyour_clipboard::kind::{
    any_sensitive, classify, is_files, is_image, is_sensitive, is_text, preview, rank, recordable,
    Kind, PREVIEW_CHARS,
};

#[test]
fn recognises_the_hints_password_managers_actually_set() {
    assert!(is_sensitive("x-kde-passwordManagerHint"));
    assert!(is_sensitive("X-KDE-PasswordManagerHint"));
    assert!(is_sensitive("application/x-nspasteboard-concealed-type"));
    assert!(!is_sensitive("text/plain"));
    assert!(any_sensitive(&["text/plain", "x-kde-passwordManagerHint"]));
    assert!(!any_sensitive(&["text/plain", "text/html"]));
}

#[test]
fn prefers_the_representation_that_loses_the_least() {
    assert!(rank("image/png") < rank("text/html"));
    assert!(rank("text/html") < rank("text/plain"));
    assert!(rank("text/uri-list") < rank("text/plain"));
    // An unknown image beats any text; an unknown type beats nothing.
    assert!(rank("image/avif") < rank("text/plain"));
    assert!(rank("application/x-thing") > rank("text/plain"));
}

#[test]
fn a_picture_is_an_image_and_a_file_reference_is_files() {
    assert_eq!(classify(&["image/png", "text/html"], None), Kind::Image);
    assert_eq!(
        classify(&["x-special/gnome-copied-files", "image/png"], None),
        Kind::Files
    );
    assert_eq!(classify(&["text/uri-list"], None), Kind::Files);
}

#[test]
fn separates_a_bare_link_from_prose_that_mentions_one() {
    assert_eq!(
        classify(&["text/plain"], Some("https://example.com")),
        Kind::Link
    );
    assert_eq!(
        classify(&["text/plain"], Some("  https://example.com  ")),
        Kind::Link
    );
    assert_eq!(
        classify(&["text/plain"], Some("see https://example.com for more")),
        Kind::Text
    );
    // A scheme with nothing after it is not a link.
    assert_eq!(classify(&["text/plain"], Some("https://")), Kind::Text);
}

#[test]
fn recognises_the_colour_notations_a_designer_copies() {
    for text in [
        "#fff",
        "#FFAA33",
        "#ffaa3380",
        "rgb(1,2,3)",
        "hsla(1,2%,3%,.5)",
    ] {
        assert_eq!(classify(&["text/plain"], Some(text)), Kind::Color, "{text}");
    }
    for text in ["#fffff", "#ghij", "rgb(1,2,3", "fff"] {
        assert_eq!(classify(&["text/plain"], Some(text)), Kind::Text, "{text}");
    }
}

#[test]
fn a_preview_is_one_line_and_never_splits_a_character() {
    assert_eq!(
        preview("  git   rebase\n  -i HEAD~3 "),
        "git rebase -i HEAD~3"
    );
    assert_eq!(preview(""), "");
    assert_eq!(preview("   \n\t "), "");

    let long: String = "é".repeat(PREVIEW_CHARS * 2);
    let cut = preview(&long);
    // Truncation is by character, so the result is still valid text and
    // carries the ellipsis that says it was cut.
    assert!(cut.ends_with('…'));
    assert_eq!(cut.chars().count(), PREVIEW_CHARS + 1);
}

#[test]
fn a_preview_that_just_fits_is_not_cut() {
    let fits = "x".repeat(PREVIEW_CHARS);
    assert_eq!(preview(&fits), fits);

    // The space before the word that no longer fits stays.
    let spaced = format!("{} tail", "x".repeat(PREVIEW_CHARS));
    assert_eq!(
        preview(&spaced),
        format!("{} …", "x".repeat(PREVIEW_CHARS))
    );
    // Every kind of white space collapses.
    assert_eq!(preview("a\u{a0}\u{2003}\u{3000}b\u{85}c"), "a b c");
}

#[test]
fn every_kind_survives_its_name() {
    for kind in [
        Kind::Text,
        Kind::Link,
        Kind::Color,
        Kind::Image,
        Kind::Files,
    ] {
        assert_eq!(Kind::parse(kind.as_str()), Some(kind));
    }
    assert_eq!(Kind::parse("Text"), None);
    assert_eq!(Kind::parse(""), None);
}

#[test]
fn ranks_follow_one_table_whatever_the_case() {
    for (mime, position) in [
        ("image/png", 0),
        (" IMAGE/PNG ", 0),
        ("image/webp", 1),
        ("image/jpg", 2),
        ("image/gif", 3),
        ("image/bmp", 4),
        ("image/avif", 5),
        ("x-special/gnome-copied-files", 10),
        ("x-special/nautilus-clipboard", 11),
        ("text/uri-list", 12),
        ("text/html", 20),
        ("application/rtf", 21),
        ("text/plain;charset=utf-8", 30),
        ("UTF8_STRING", 31),
        ("text/plain", 32),
        ("STRING", 33),
        ("TEXT", 33),
        ("text/x-moz-url", 34),
        ("TARGETS", 100),
    ] {
        assert_eq!(rank(mime), position, "{mime}");
    }
}

#[test]
fn text_images_and_files_are_told_apart() {
    assert!(is_text("text/html") && is_text("UTF8_STRING") && is_text("x-special/anything"));
    assert!(!is_text("image/png") && !is_text("application/pdf"));
    assert!(is_image("Image/Tiff") && !is_image("imag/e"));
    assert!(is_files("text/uri-list") && !is_files("text/plain"));
    assert!(is_sensitive("SECRET") && is_sensitive("password") && !is_sensitive(" password"));
}

#[test]
fn a_bookkeeping_target_is_not_a_representation() {
    let offered: Vec<String> = [
        "TARGETS",
        "TIMESTAMP",
        "UTF8_STRING",
        "text/plain",
        "application/pdf",
        "text/plain",
        "SAVE_TARGETS",
    ]
    .iter()
    .map(|name| name.to_string())
    .collect();
    assert_eq!(
        recordable(&offered),
        vec!["UTF8_STRING", "text/plain", "application/pdf"]
    );
}
