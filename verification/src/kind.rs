//! Classification of clipboard content.
//!
//! The kind is a presentation hint the UI uses to pick a shape to draw. It is
//! never a second source of truth: the set of mime types an entry holds is
//! what decides what can actually be served back.

use crate::text;
use vstd::prelude::*;

verus! {

/// How the UI should present an entry.
#[derive(Debug, Clone, Copy, PartialEq, Eq, Structural)]
pub enum Kind {
    Text,
    Link,
    Color,
    Image,
    Files,
}

impl Kind {
    /// The name a kind travels under.
    pub open spec fn name(self) -> Seq<char> {
        match self {
            Kind::Text => "text"@,
            Kind::Link => "link"@,
            Kind::Color => "color"@,
            Kind::Image => "image"@,
            Kind::Files => "files"@,
        }
    }

    pub fn as_str(self) -> (name: &'static str)
        ensures
            name@ == self.name(),
    {
        match self {
            Kind::Text => "text",
            Kind::Link => "link",
            Kind::Color => "color",
            Kind::Image => "image",
            Kind::Files => "files",
        }
    }

    pub fn parse(name: &str) -> (kind: Option<Self>)
        ensures
            kind == named(name@),
    {
        if text::same(name, "text") {
            Some(Kind::Text)
        } else if text::same(name, "link") {
            Some(Kind::Link)
        } else if text::same(name, "color") {
            Some(Kind::Color)
        } else if text::same(name, "image") {
            Some(Kind::Image)
        } else if text::same(name, "files") {
            Some(Kind::Files)
        } else {
            None
        }
    }
}

/// The kind with a given name, where there is one.
pub open spec fn named(name: Seq<char>) -> Option<Kind> {
    if name == Kind::Text.name() {
        Some(Kind::Text)
    } else if name == Kind::Link.name() {
        Some(Kind::Link)
    } else if name == Kind::Color.name() {
        Some(Kind::Color)
    } else if name == Kind::Image.name() {
        Some(Kind::Image)
    } else if name == Kind::Files.name() {
        Some(Kind::Files)
    } else {
        None
    }
}

/// A kind's name parses back to that kind, and to no other.
pub proof fn a_kind_survives_its_name(kind: Kind, name: Seq<char>)
    ensures
        named(kind.name()) == Some(kind),
        named(name) == Some(kind) <==> name == kind.name(),
{
    reveal_strlit("text");
    reveal_strlit("link");
    reveal_strlit("color");
    reveal_strlit("image");
    reveal_strlit("files");
    assert("text"@[0] == 't' && "link"@[0] == 'l' && "color"@[0] == 'c' && "image"@[0] == 'i'
        && "files"@[0] == 'f');
}

/// Mime types that mean "this is a secret, do not remember it".
///
/// Password managers, browsers in private mode and remote desktop clients all
/// set one of these alongside the content. An entry offering any of them is
/// dropped whole — not stored and then hidden, because an archive that holds a
/// password it promises not to show is still an archive holding a password.
///
/// The names are the ones the ecosystem settled on rather than a standard:
/// KDE's hint is what KeePassXC, KWallet and Klipper agree on, and the
/// NSPasteboard type is its macOS equivalent.
pub open spec fn sensitive(mime: Seq<char>) -> bool {
    let lowered = text::lower(mime);
    ||| lowered == "x-kde-passwordmanagerhint"@
    ||| lowered == "application/x-nspasteboard-concealed-type"@
    ||| lowered == "org.nspasteboard.concealedtype"@
    ||| lowered == "text/x-moz-password"@
    ||| lowered == "x-keepassxc-password"@
    ||| lowered == "password"@
    ||| lowered == "secret"@
}

pub fn is_sensitive(mime: &str) -> (answer: bool)
    ensures
        answer == sensitive(mime@),
{
    let lowered = text::string_of(&text::lower_chars(mime));
    let name = lowered.as_str();
    text::same(name, "x-kde-passwordmanagerhint") || text::same(
        name,
        "application/x-nspasteboard-concealed-type",
    ) || text::same(name, "org.nspasteboard.concealedtype") || text::same(
        name,
        "text/x-moz-password",
    ) || text::same(name, "x-keepassxc-password") || text::same(name, "password") || text::same(
        name,
        "secret",
    )
}

/// True when any representation marks the whole entry as a secret.
pub fn any_sensitive(mimes: &[&str]) -> (answer: bool)
    ensures
        answer == exists|i: int| 0 <= i < mimes@.len() && sensitive(#[trigger] mimes@[i]@),
{
    let mut i: usize = 0;
    while i < mimes.len()
        invariant
            i <= mimes.len(),
            forall|j: int| 0 <= j < i ==> !sensitive(#[trigger] mimes@[j]@),
        decreases mimes.len() - i,
    {
        if is_sensitive(mimes[i]) {
            assert(sensitive(mimes@[i as int]@));
            return true;
        }
        i += 1;
    }
    false
}

/// A mime type as it is compared: without white space around it, in lower case.
pub open spec fn folded(mime: Seq<char>) -> Seq<char> {
    text::lower(text::trim(mime))
}

fn fold(mime: &str) -> (name: String)
    ensures
        name@ == folded(mime@),
{
    let chars = text::chars_of(mime);
    let core = text::trimmed(&chars);
    let lowered = text::lower_each(&core);
    text::string_of(&lowered)
}

/// Serving preference, lowest first: see [`rank`].
pub open spec fn preference(mime: Seq<char>) -> int {
    let name = folded(mime);
    if name == "image/png"@ {
        0
    } else if name == "image/webp"@ {
        1
    } else if name == "image/jpeg"@ || name == "image/jpg"@ {
        2
    } else if name == "image/gif"@ {
        3
    } else if name == "image/bmp"@ {
        4
    } else if name == "x-special/gnome-copied-files"@ {
        10
    } else if name == "x-special/nautilus-clipboard"@ {
        11
    } else if name == "text/uri-list"@ {
        12
    } else if name == "text/html"@ {
        20
    } else if name == "text/rtf"@ || name == "application/rtf"@ {
        21
    } else if name == "text/plain;charset=utf-8"@ {
        30
    } else if name == "utf8_string"@ {
        31
    } else if name == "text/plain"@ {
        32
    } else if name == "string"@ || name == "text"@ {
        33
    } else if text::starts_with(name, "image/"@) {
        5
    } else if text::starts_with(name, "text/"@) {
        34
    } else {
        100
    }
}

/// Serving preference, lowest first.
///
/// This decides only which representation a `fetch` without a mime returns.
/// Restoring an entry to the clipboard offers every representation it holds,
/// so the pasting application still negotiates for itself.
pub fn rank(mime: &str) -> (position: i32)
    ensures
        position == preference(mime@),
{
    let name = fold(mime);
    let name = name.as_str();
    // A picture is the most specific thing an entry can be, and the one a text
    // fallback would silently degrade.
    if text::same(name, "image/png") {
        0
    } else if text::same(name, "image/webp") {
        1
    } else if text::same(name, "image/jpeg") || text::same(name, "image/jpg") {
        2
    } else if text::same(name, "image/gif") {
        3
    } else if text::same(name, "image/bmp") {
        4
    } else if text::same(name, "x-special/gnome-copied-files") {
        // File references outrank the text that spells them out.
        10
    } else if text::same(name, "x-special/nautilus-clipboard") {
        11
    } else if text::same(name, "text/uri-list") {
        12
    } else if text::same(name, "text/html") {
        // Rich text before the flattening of it.
        20
    } else if text::same(name, "text/rtf") || text::same(name, "application/rtf") {
        21
    } else if text::same(name, "text/plain;charset=utf-8") {
        30
    } else if text::same(name, "utf8_string") {
        31
    } else if text::same(name, "text/plain") {
        32
    } else if text::same(name, "string") || text::same(name, "text") {
        33
    } else if text::begins(&text::chars_of(name), "image/") {
        5
    } else if text::begins(&text::chars_of(name), "text/") {
        34
    } else {
        100
    }
}

/// Whether a mime type names text: see [`is_text`].
pub open spec fn textual(mime: Seq<char>) -> bool {
    let name = folded(mime);
    ||| text::starts_with(name, "text/"@)
    ||| name == "utf8_string"@
    ||| name == "string"@
    ||| name == "text"@
    ||| text::starts_with(name, "x-special/"@)
}

/// Whether a representation is text the daemon may read for previews and
/// search. Anything else is opaque bytes it only ever copies.
pub fn is_text(mime: &str) -> (answer: bool)
    ensures
        answer == textual(mime@),
{
    let name = fold(mime);
    let name = name.as_str();
    let chars = text::chars_of(name);
    text::begins(&chars, "text/") || text::same(name, "utf8_string") || text::same(name, "string")
        || text::same(name, "text") || text::begins(&chars, "x-special/")
}

/// Whether a mime type names a picture.
pub open spec fn pictorial(mime: Seq<char>) -> bool {
    text::starts_with(folded(mime), "image/"@)
}

pub fn is_image(mime: &str) -> (answer: bool)
    ensures
        answer == pictorial(mime@),
{
    let name = fold(mime);
    text::begins(&text::chars_of(name.as_str()), "image/")
}

/// Whether a mime type names references to files.
pub open spec fn file_list(mime: Seq<char>) -> bool {
    let name = folded(mime);
    ||| name == "x-special/gnome-copied-files"@
    ||| name == "x-special/nautilus-clipboard"@
    ||| name == "text/uri-list"@
}

pub fn is_files(mime: &str) -> (answer: bool)
    ensures
        answer == file_list(mime@),
{
    let name = fold(mime);
    let name = name.as_str();
    text::same(name, "x-special/gnome-copied-files") || text::same(
        name,
        "x-special/nautilus-clipboard",
    ) || text::same(name, "text/uri-list")
}

/// What an entry holding these mime types and this text is presented as.
pub open spec fn presented(mimes: Seq<Seq<char>>, sample: Option<Seq<char>>) -> Kind {
    if exists|i: int| 0 <= i < mimes.len() && file_list(#[trigger] mimes[i]) {
        Kind::Files
    } else if exists|i: int| 0 <= i < mimes.len() && pictorial(#[trigger] mimes[i]) {
        Kind::Image
    } else {
        match sample {
            Some(text) => {
                let core = text::trim(text);
                if colour(core) {
                    Kind::Color
                } else if link(core) {
                    Kind::Link
                } else {
                    Kind::Text
                }
            },
            None => Kind::Text,
        }
    }
}

/// The texts some string slices hold.
pub open spec fn texts(strings: Seq<&str>) -> Seq<Seq<char>> {
    Seq::new(strings.len(), |i: int| strings[i]@)
}

/// Derives the kind from what an entry holds.
///
/// `sample` is the text of the entry's best text representation, already
/// truncated; it is what separates a bare link or a colour from prose.
pub fn classify(mimes: &[&str], sample: Option<&str>) -> (kind: Kind)
    ensures
        kind == presented(
            texts(mimes@),
            text::optional_slice(sample),
        ),
{
    let ghost names = texts(mimes@);
    let mut image: bool = false;
    let mut files: bool = false;
    let mut i: usize = 0;
    while i < mimes.len()
        invariant
            i <= mimes.len(),
            names == texts(mimes@),
            image <==> exists|j: int| 0 <= j < i && pictorial(#[trigger] names[j]),
            files <==> exists|j: int| 0 <= j < i && file_list(#[trigger] names[j]),
        decreases mimes.len() - i,
    {
        assert(names[i as int] == mimes@[i as int]@);
        if is_image(mimes[i]) {
            image = true;
        }
        if is_files(mimes[i]) {
            files = true;
        }
        i += 1;
    }
    // Files first: a file manager offers a thumbnail alongside the reference,
    // and the reference is the thing worth pasting.
    if files {
        return Kind::Files;
    }
    if image {
        return Kind::Image;
    }
    match sample {
        Some(sample) => {
            let core = text::trimmed(&text::chars_of(sample));
            if is_color(&core) {
                Kind::Color
            } else if is_link(&core) {
                Kind::Link
            } else {
                Kind::Text
            }
        },
        None => Kind::Text,
    }
}

/// Whether a text starts with a scheme and goes on after it.
pub open spec fn under_scheme(lowered: Seq<char>, scheme: Seq<char>) -> bool {
    text::starts_with(lowered, scheme) && lowered.len() > scheme.len()
}

/// A single URL and nothing else: see [`is_link`].
pub open spec fn link(text: Seq<char>) -> bool {
    let lowered = text::lower(text);
    &&& text::words(text).len() == 1
    &&& {
        ||| under_scheme(lowered, "https://"@)
        ||| under_scheme(lowered, "http://"@)
        ||| under_scheme(lowered, "ftp://"@)
        ||| under_scheme(lowered, "ssh://"@)
        ||| under_scheme(lowered, "mailto:"@)
        ||| under_scheme(lowered, "magnet:"@)
    }
}

/// A single URL and nothing else. Prose that merely contains a link stays
/// prose, because the useful distinction is "this entry is a link".
fn is_link(chars: &[char]) -> (answer: bool)
    ensures
        answer == link(chars@),
{
    if !text::is_one_word(chars) {
        return false;
    }
    let lowered = text::lower_each(chars);
    reaches_past(&lowered, "https://") || reaches_past(&lowered, "http://") || reaches_past(
        &lowered,
        "ftp://",
    ) || reaches_past(&lowered, "ssh://") || reaches_past(&lowered, "mailto:") || reaches_past(
        &lowered,
        "magnet:",
    )
}

fn reaches_past(lowered: &[char], scheme: &str) -> (answer: bool)
    ensures
        answer == under_scheme(lowered@, scheme@),
{
    lowered.len() > text::chars_of(scheme).len() && text::begins(lowered, scheme)
}

/// Whether a character is a hexadecimal digit.
pub open spec fn hex_digit(c: char) -> bool {
    '0' <= c <= '9' || 'a' <= c <= 'f' || 'A' <= c <= 'F'
}

/// Whether a text is a call of a colour function.
pub open spec fn colour_call(lowered: Seq<char>, opening: Seq<char>) -> bool {
    text::starts_with(lowered, opening) && lowered.len() > 0 && lowered.last() == ')'
}

/// A colour in one of the notations of [`is_color`].
pub open spec fn colour(text: Seq<char>) -> bool {
    let lowered = text::lower(text);
    if text.len() > 0 && text[0] == '#' {
        let digits = text.skip(1);
        &&& digits.len() == 3 || digits.len() == 4 || digits.len() == 6 || digits.len() == 8
        &&& forall|i: int| 0 <= i < digits.len() ==> hex_digit(#[trigger] digits[i])
    } else {
        ||| colour_call(lowered, "rgb("@)
        ||| colour_call(lowered, "rgba("@)
        ||| colour_call(lowered, "hsl("@)
        ||| colour_call(lowered, "hsla("@)
    }
}

/// `#rgb` or `#rrggbb`, each with or without an alpha component, or a
/// `rgb(…)`/`hsl(…)` function.
fn is_color(chars: &[char]) -> (answer: bool)
    ensures
        answer == colour(chars@),
{
    if chars.len() > 0 && chars[0] == '#' {
        let ghost digits = chars@.skip(1);
        let count: usize = chars.len() - 1;
        if !(count == 3 || count == 4 || count == 6 || count == 8) {
            return false;
        }
        let mut i: usize = 1;
        while i < chars.len()
            invariant
                1 <= i <= chars.len(),
                digits == chars@.skip(1),
                forall|j: int| 0 <= j < i - 1 ==> hex_digit(#[trigger] digits[j]),
                chars@.len() > 0 && chars@[0] == '#',
            decreases chars.len() - i,
        {
            let c = chars[i];
            assert(digits[i - 1] == c);
            if !(('0' <= c && c <= '9') || ('a' <= c && c <= 'f') || ('A' <= c && c <= 'F')) {
                return false;
            }
            i += 1;
        }
        return true;
    }
    let lowered = text::lower_each(chars);
    calls(&lowered, "rgb(") || calls(&lowered, "rgba(") || calls(&lowered, "hsl(") || calls(
        &lowered,
        "hsla(",
    )
}

fn calls(lowered: &[char], opening: &str) -> (answer: bool)
    ensures
        answer == colour_call(lowered@, opening@),
{
    text::begins(lowered, opening) && lowered.len() > 0 && lowered[lowered.len() - 1] == ')'
}

/// How much of a text representation is worth showing in a list row.
pub const PREVIEW_CHARS: usize = 160;

/// One line for a list row: the words of the text, one space between each two,
/// cut where it grows too long.
pub open spec fn row(text: Seq<char>) -> Seq<char> {
    let line = text::joined(text::words(text), seq![' ']);
    if line.len() <= PREVIEW_CHARS {
        line
    } else if line[PREVIEW_CHARS as int] == ' ' {
        // The space before the word that no longer fits was already drawn.
        line.take(PREVIEW_CHARS + 1).push('…')
    } else {
        line.take(PREVIEW_CHARS as int).push('…')
    }
}

/// Collapses a text representation into one line a row can show.
///
/// Runs of whitespace become single spaces so that indented code does not draw
/// as a mostly empty row, and the result is cut on a character boundary so a
/// multi-byte character is never split.
pub fn preview(text: &str) -> (line: String)
    ensures
        line@ == row(text@),
{
    let whole = text::one_spaced(&text::chars_of(text));
    if whole.len() <= PREVIEW_CHARS {
        return text::string_of(&whole);
    }
    let cut: usize = if whole[PREVIEW_CHARS] == ' ' {
        // A line never ends in a space, so a character follows this one.
        PREVIEW_CHARS + 1
    } else {
        PREVIEW_CHARS
    };
    let mut kept = text::slice_of(&whole, 0, cut);
    kept.push('…');
    assert(whole@.subrange(0, cut as int) =~= whole@.take(cut as int));
    text::string_of(&kept)
}

/// A preview is one short line: the only white space in it is single spaces
/// inside it, and it is never longer than the limit, the space before a word
/// that was cut off and the ellipsis.
pub proof fn a_preview_is_one_short_line(text: Seq<char>)
    ensures
        row(text).len() <= PREVIEW_CHARS + 2,
        text::single_spaced(row(text)),
        row(text).len() == 0 <==> text::words(text).len() == 0,
{
    let line = text::joined(text::words(text), seq![' ']);
    text::one_spaced_is_one_line(text);
    text::runs_are_kept(text, |c: char| !text::white_space(c));
    let words = text::words(text);
    if words.len() > 0 {
        assert(words.last().len() > 0);
        assert(line.len() > 0);
    }
    assert forall|i: int| 0 <= i < row(text).len() implies #[trigger] text::lone_space(
        row(text),
        i,
    ) by {
        if i < line.len() {
            assert(text::lone_space(line, i));
        }
    }
}

/// Whether a name a source offers its content under is one to record: a mime
/// type, or one of the older names that stand for text.
pub open spec fn worth_recording(name: Seq<char>) -> bool {
    preference(name) < 100 || name.contains('/')
}

/// The offered names worth recording, in the order they are offered and each
/// once.
pub open spec fn recorded_names(names: Seq<Seq<char>>) -> Seq<Seq<char>>
    decreases names.len(),
{
    if names.len() == 0 {
        Seq::empty()
    } else {
        let earlier = recorded_names(names.drop_last());
        if worth_recording(names.last()) && !earlier.contains(names.last()) {
            earlier.push(names.last())
        } else {
            earlier
        }
    }
}

/// Picks the names to ask a clipboard owner for out of all it offers.
///
/// An owner lists bookkeeping beside its content — when the selection was
/// taken, how to save it — and those are not representations of anything.
pub fn recordable(names: &[String]) -> (picked: Vec<String>)
    ensures
        text::contents(picked@) == recorded_names(text::contents(names@)),
{
    let mut picked: Vec<String> = Vec::new();
    let mut i: usize = 0;
    assert(text::contents(names@).take(0) =~= Seq::empty());
    while i < names.len()
        invariant
            i <= names.len(),
            text::contents(picked@) == recorded_names(text::contents(names@).take(i as int)),
        decreases names.len() - i,
    {
        let name = names[i].as_str();
        let ghost next = text::contents(names@).take(i as int + 1);
        assert(next.drop_last() =~= text::contents(names@).take(i as int));
        assert(next.last() == name@);
        if (rank(name) < 100 || has_slash(name)) && !holds(&picked, name) {
            let ghost before = text::contents(picked@);
            picked.push(names[i].clone());
            assert(text::contents(picked@) =~= before.push(name@));
        }
        i += 1;
    }
    assert(text::contents(names@).take(names@.len() as int) =~= text::contents(names@));
    picked
}

fn has_slash(name: &str) -> (answer: bool)
    ensures
        answer == name@.contains('/'),
{
    let chars = text::chars_of(name);
    let mut i: usize = 0;
    while i < chars.len()
        invariant
            i <= chars.len(),
            chars@ == name@,
            forall|j: int| 0 <= j < i ==> chars@[j] != '/',
        decreases chars.len() - i,
    {
        if chars[i] == '/' {
            assert(name@[i as int] == '/');
            return true;
        }
        i += 1;
    }
    false
}

fn holds(names: &Vec<String>, name: &str) -> (answer: bool)
    ensures
        answer == text::contents(names@).contains(name@),
{
    let mut i: usize = 0;
    while i < names.len()
        invariant
            i <= names.len(),
            forall|j: int| 0 <= j < i ==> text::contents(names@)[j] != name@,
        decreases names.len() - i,
    {
        if text::same(names[i].as_str(), name) {
            assert(text::contents(names@)[i as int] == name@);
            return true;
        }
        i += 1;
    }
    false
}

// ---------------------------------------------------------------------------
// What classification promises
// ---------------------------------------------------------------------------

/// The five kinds travel under these names, and under no others.
pub proof fn kinds_travel_under_five_names(name: Seq<char>)
    ensures
        named(name) == Some(Kind::Text) <==> name == "text"@,
        named(name) == Some(Kind::Link) <==> name == "link"@,
        named(name) == Some(Kind::Color) <==> name == "color"@,
        named(name) == Some(Kind::Image) <==> name == "image"@,
        named(name) == Some(Kind::Files) <==> name == "files"@,
{
    a_kind_survives_its_name(Kind::Text, name);
    a_kind_survives_its_name(Kind::Link, name);
    a_kind_survives_its_name(Kind::Color, name);
    a_kind_survives_its_name(Kind::Image, name);
    a_kind_survives_its_name(Kind::Files, name);
}

/// A name marks a secret however it is capitalised, and no name does but the
/// seven that are known.
pub proof fn a_secret_is_one_in_any_case(mime: Seq<char>, other: Seq<char>)
    ensures
        text::lower(mime) == text::lower(other) ==> sensitive(mime) == sensitive(other),
        text::lower(mime) == "x-kde-passwordmanagerhint"@ ==> sensitive(mime),
        text::lower(mime) == "application/x-nspasteboard-concealed-type"@ ==> sensitive(mime),
        text::lower(mime) == "org.nspasteboard.concealedtype"@ ==> sensitive(mime),
        text::lower(mime) == "text/x-moz-password"@ ==> sensitive(mime),
        text::lower(mime) == "x-keepassxc-password"@ ==> sensitive(mime),
        text::lower(mime) == "password"@ ==> sensitive(mime),
        text::lower(mime) == "secret"@ ==> sensitive(mime),
        sensitive(mime) ==> seq![
            "x-kde-passwordmanagerhint"@,
            "application/x-nspasteboard-concealed-type"@,
            "org.nspasteboard.concealedtype"@,
            "text/x-moz-password"@,
            "x-keepassxc-password"@,
            "password"@,
            "secret"@,
        ].contains(text::lower(mime)),
{
    let marks = seq![
        "x-kde-passwordmanagerhint"@,
        "application/x-nspasteboard-concealed-type"@,
        "org.nspasteboard.concealedtype"@,
        "text/x-moz-password"@,
        "x-keepassxc-password"@,
        "password"@,
        "secret"@,
    ];
    assert(marks[0] == "x-kde-passwordmanagerhint"@);
    assert(marks[1] == "application/x-nspasteboard-concealed-type"@);
    assert(marks[2] == "org.nspasteboard.concealedtype"@);
    assert(marks[3] == "text/x-moz-password"@);
    assert(marks[4] == "x-keepassxc-password"@);
    assert(marks[5] == "password"@);
    assert(marks[6] == "secret"@);
}

/// A mime type is compared without the white space around it and without
/// regard to case.
pub proof fn mime_types_compare_loosely(lead: Seq<char>, core: Seq<char>, tail: Seq<char>)
    requires
        forall|i: int| 0 <= i < lead.len() ==> text::white_space(#[trigger] lead[i]),
        forall|i: int| 0 <= i < tail.len() ==> text::white_space(#[trigger] tail[i]),
        core.len() > 0 ==> !text::white_space(core[0]) && !text::white_space(core.last()),
    ensures
        folded(lead + core + tail) == text::lower(core),
{
    text::trimming_leaves_the_core(lead, core, tail);
}

proof fn mime_names_differ()
    ensures
        "image/png"@.len() == 9,
        "image/png"@[6] == 'p',
        "image/webp"@.len() == 10,
        "image/webp"@[6] == 'w',
        "image/jpeg"@.len() == 10,
        "image/jpeg"@[6] == 'j',
        "image/jpg"@.len() == 9,
        "image/jpg"@[6] == 'j',
        "image/gif"@.len() == 9,
        "image/gif"@[6] == 'g',
        "image/bmp"@.len() == 9,
        "image/bmp"@[6] == 'b',
        "x-special/gnome-copied-files"@.len() == 28,
        "x-special/gnome-copied-files"@[6] == 'i',
        "x-special/gnome-copied-files"@[10] == 'g',
        "x-special/nautilus-clipboard"@.len() == 28,
        "x-special/nautilus-clipboard"@[6] == 'i',
        "x-special/nautilus-clipboard"@[10] == 'n',
        "text/uri-list"@.len() == 13,
        "text/uri-list"@[6] == 'r',
        "text/uri-list"@[10] == 'i',
        "text/html"@.len() == 9,
        "text/html"@[6] == 't',
        "text/rtf"@.len() == 8,
        "text/rtf"@[6] == 't',
        "application/rtf"@.len() == 15,
        "application/rtf"@[6] == 'a',
        "application/rtf"@[10] == 'n',
        "text/plain;charset=utf-8"@.len() == 24,
        "text/plain;charset=utf-8"@[6] == 'l',
        "text/plain;charset=utf-8"@[10] == ';',
        "utf8_string"@.len() == 11,
        "utf8_string"@[6] == 't',
        "utf8_string"@[10] == 'g',
        "text/plain"@.len() == 10,
        "text/plain"@[6] == 'l',
        "string"@.len() == 6,
        "text"@.len() == 4,
{
    reveal_strlit("image/png");
    reveal_strlit("image/webp");
    reveal_strlit("image/jpeg");
    reveal_strlit("image/jpg");
    reveal_strlit("image/gif");
    reveal_strlit("image/bmp");
    reveal_strlit("x-special/gnome-copied-files");
    reveal_strlit("x-special/nautilus-clipboard");
    reveal_strlit("text/uri-list");
    reveal_strlit("text/html");
    reveal_strlit("text/rtf");
    reveal_strlit("application/rtf");
    reveal_strlit("text/plain;charset=utf-8");
    reveal_strlit("utf8_string");
    reveal_strlit("text/plain");
    reveal_strlit("string");
    reveal_strlit("text");
}

/// The order representations are preferred in. The pictures come first, PNG
/// before all others; then references to files, then rich text, then plain
/// text, then what is known only to be text; everything else comes last.
pub proof fn representations_are_preferred_in_this_order(mime: Seq<char>, name: Seq<char>)
    requires
        name == folded(mime),
    ensures
        name == "image/png"@ ==> preference(mime) == 0,
        name == "image/webp"@ ==> preference(mime) == 1,
        name == "image/jpeg"@ ==> preference(mime) == 2,
        name == "image/jpg"@ ==> preference(mime) == 2,
        name == "image/gif"@ ==> preference(mime) == 3,
        name == "image/bmp"@ ==> preference(mime) == 4,
        name == "x-special/gnome-copied-files"@ ==> preference(mime) == 10,
        name == "x-special/nautilus-clipboard"@ ==> preference(mime) == 11,
        name == "text/uri-list"@ ==> preference(mime) == 12,
        name == "text/html"@ ==> preference(mime) == 20,
        name == "text/rtf"@ ==> preference(mime) == 21,
        name == "application/rtf"@ ==> preference(mime) == 21,
        name == "text/plain;charset=utf-8"@ ==> preference(mime) == 30,
        name == "utf8_string"@ ==> preference(mime) == 31,
        name == "text/plain"@ ==> preference(mime) == 32,
        name == "string"@ ==> preference(mime) == 33,
        name == "text"@ ==> preference(mime) == 33,
        ({
            &&& name != "image/png"@
            &&& name != "image/webp"@
            &&& name != "image/jpeg"@
            &&& name != "image/jpg"@
            &&& name != "image/gif"@
            &&& name != "image/bmp"@
            &&& name != "x-special/gnome-copied-files"@
            &&& name != "x-special/nautilus-clipboard"@
            &&& name != "text/uri-list"@
            &&& name != "text/html"@
            &&& name != "text/rtf"@
            &&& name != "application/rtf"@
            &&& name != "text/plain;charset=utf-8"@
            &&& name != "utf8_string"@
            &&& name != "text/plain"@
            &&& name != "string"@
            &&& name != "text"@
        }) ==> preference(mime) == (if text::starts_with(name, "image/"@) {
            5int
        } else if text::starts_with(name, "text/"@) {
            34
        } else {
            100
        }),
{
    mime_names_differ();
}

/// Every picture is preferred to every reference to files, and that to any
/// other representation; and whatever is preferred to the last of all is a
/// picture, a reference to files or text.
pub proof fn preference_goes_by_what_a_mime_type_names(mime: Seq<char>)
    ensures
        pictorial(mime) <==> 0 <= preference(mime) <= 5,
        file_list(mime) <==> 10 <= preference(mime) <= 12,
        20 <= preference(mime) <= 34 ==> textual(mime) || folded(mime) == "application/rtf"@,
        textual(mime) ==> preference(mime) >= 10,
        0 <= preference(mime) <= 100,
{
    let name = folded(mime);
    representations_are_preferred_in_this_order(mime, name);
    mime_names_differ();
    reveal_strlit("image/");
    reveal_strlit("text/");
    reveal_strlit("x-special/");
    reveal_strlit("image/png");
    reveal_strlit("image/webp");
    reveal_strlit("image/jpeg");
    reveal_strlit("image/jpg");
    reveal_strlit("image/gif");
    reveal_strlit("image/bmp");
    reveal_strlit("x-special/gnome-copied-files");
    reveal_strlit("x-special/nautilus-clipboard");
    reveal_strlit("text/uri-list");
    reveal_strlit("text/html");
    reveal_strlit("text/rtf");
    reveal_strlit("application/rtf");
    reveal_strlit("text/plain;charset=utf-8");
    reveal_strlit("utf8_string");
    reveal_strlit("text/plain");
    reveal_strlit("string");
    reveal_strlit("text");
    if text::starts_with(name, "text/"@) {
        assert(name.take(5)[0] == 't');
    }
    if text::starts_with(name, "x-special/"@) {
        assert(name.take(10)[0] == 'x');
    }
    if text::starts_with(name, "image/"@) {
        assert(name.take(6)[0] == 'i');
        assert(name.take(6)[1] == 'm');
    }
    assert("image/png"@[0] == 'i' && "image/png"@[1] == 'm');
    assert("image/webp"@[0] == 'i' && "image/webp"@[1] == 'm');
    assert("image/jpeg"@[0] == 'i' && "image/jpeg"@[1] == 'm');
    assert("image/jpg"@[0] == 'i' && "image/jpg"@[1] == 'm');
    assert("image/gif"@[0] == 'i' && "image/gif"@[1] == 'm');
    assert("image/bmp"@[0] == 'i' && "image/bmp"@[1] == 'm');
    assert("x-special/gnome-copied-files"@[0] == 'x' && "x-special/gnome-copied-files"@[1] == '-');
    assert("x-special/nautilus-clipboard"@[0] == 'x' && "x-special/nautilus-clipboard"@[1] == '-');
    assert("text/uri-list"@[0] == 't' && "text/uri-list"@[1] == 'e');
    assert("text/html"@[0] == 't' && "text/html"@[1] == 'e');
    assert("text/rtf"@[0] == 't' && "text/rtf"@[1] == 'e');
    assert("application/rtf"@[0] == 'a' && "application/rtf"@[1] == 'p');
    assert("text/plain;charset=utf-8"@[0] == 't' && "text/plain;charset=utf-8"@[1] == 'e');
    assert("utf8_string"@[0] == 'u' && "utf8_string"@[1] == 't');
    assert("text/plain"@[0] == 't' && "text/plain"@[1] == 'e');
    assert("string"@[0] == 's' && "string"@[1] == 't');
    assert("text"@[0] == 't' && "text"@[1] == 'e');
    assert("image/png"@.take(6) =~= "image/"@);
    assert("image/webp"@.take(6) =~= "image/"@);
    assert("image/jpeg"@.take(6) =~= "image/"@);
    assert("image/jpg"@.take(6) =~= "image/"@);
    assert("image/gif"@.take(6) =~= "image/"@);
    assert("image/bmp"@.take(6) =~= "image/"@);
    assert("x-special/gnome-copied-files"@.take(10) =~= "x-special/"@);
    assert("x-special/nautilus-clipboard"@.take(10) =~= "x-special/"@);
    assert("text/uri-list"@.take(5) =~= "text/"@);
    assert("text/html"@.take(5) =~= "text/"@);
    assert("text/rtf"@.take(5) =~= "text/"@);
    assert("text/plain;charset=utf-8"@.take(5) =~= "text/"@);
    assert("text/plain"@.take(5) =~= "text/"@);
}

/// Whether a representation is read as text, is a picture or refers to files
/// goes by its mime type, and no mime type names both text and a picture.
pub proof fn mime_types_say_what_they_name(mime: Seq<char>, name: Seq<char>)
    requires
        name == folded(mime),
    ensures
        text::starts_with(name, "text/"@) ==> textual(mime),
        text::starts_with(name, "x-special/"@) ==> textual(mime),
        name == "utf8_string"@ || name == "string"@ || name == "text"@ ==> textual(mime),
        textual(mime) ==> text::starts_with(name, "text/"@) || text::starts_with(
            name,
            "x-special/"@,
        ) || name == "utf8_string"@ || name == "string"@ || name == "text"@,
        text::starts_with(name, "image/"@) <==> pictorial(mime),
        name == "x-special/gnome-copied-files"@ || name == "x-special/nautilus-clipboard"@ || name
            == "text/uri-list"@ <==> file_list(mime),
        file_list(mime) ==> textual(mime),
        !(textual(mime) && pictorial(mime)),
{
    preference_goes_by_what_a_mime_type_names(mime);
    reveal_strlit("text/");
    reveal_strlit("x-special/");
    reveal_strlit("text/uri-list");
    reveal_strlit("x-special/gnome-copied-files");
    reveal_strlit("x-special/nautilus-clipboard");
    assert("text/uri-list"@.take(5) =~= "text/"@);
    assert("x-special/gnome-copied-files"@.take(10) =~= "x-special/"@);
    assert("x-special/nautilus-clipboard"@.take(10) =~= "x-special/"@);
}

/// An entry that refers to files is shown as files whatever else it holds, one
/// with a picture as a picture, and any other by its text: a colour, a link, or
/// plain text where it is neither or there is none.
pub proof fn an_entry_is_shown_by_its_best_claim(mimes: Seq<Seq<char>>, sample: Option<Seq<char>>)
    ensures
        presented(mimes, sample) == Kind::Files <==> exists|i: int|
            0 <= i < mimes.len() && file_list(#[trigger] mimes[i]),
        presented(mimes, sample) == Kind::Image <==> (forall|i: int|
            0 <= i < mimes.len() ==> !file_list(#[trigger] mimes[i])) && (exists|i: int|
            0 <= i < mimes.len() && pictorial(#[trigger] mimes[i])),
        (forall|i: int|
            0 <= i < mimes.len() ==> !file_list(#[trigger] mimes[i]) && !pictorial(mimes[i]))
            ==> match sample {
            Some(text) => {
                &&& presented(mimes, sample) == Kind::Color <==> colour(text::trim(text))
                &&& presented(mimes, sample) == Kind::Link <==> link(text::trim(text))
            },
            None => presented(mimes, sample) == Kind::Text,
        },
{
    if let Some(text) = sample {
        no_link_is_a_colour(text::trim(text));
    }
}

proof fn no_link_is_a_colour(text: Seq<char>)
    ensures
        !(link(text) && colour(text)),
{
    let lowered = text::lower(text);
    reveal_strlit("https://");
    reveal_strlit("http://");
    reveal_strlit("ftp://");
    reveal_strlit("ssh://");
    reveal_strlit("mailto:");
    reveal_strlit("magnet:");
    reveal_strlit("rgb(");
    reveal_strlit("rgba(");
    reveal_strlit("hsl(");
    reveal_strlit("hsla(");
    if link(text) {
        let first = lowered[0];
        let second = lowered[1];
        assert(lowered.take(8)[0] == first && lowered.take(8)[1] == second || lowered.len() < 8);
        assert(lowered.take(7)[0] == first && lowered.take(7)[1] == second || lowered.len() < 7);
        assert(lowered.take(6)[0] == first && lowered.take(6)[1] == second || lowered.len() < 6);
        assert(first == 'h' && second == 't' || first == 'f' || first == 's' || first == 'm');
        assert(lowered.take(4)[0] == first && lowered.take(4)[1] == second);
        assert(lowered.take(5)[0] == first && lowered.take(5)[1] == second);
    }
}

/// A text, taken without the white space around it, is a link exactly when it
/// holds no white space and goes on after one of six schemes, in any case.
pub proof fn a_link_is_one_word_under_a_scheme(text: Seq<char>)
    requires
        text.len() > 0,
        !text::white_space(text[0]),
        !text::white_space(text.last()),
    ensures
        ({
            let lowered = text::lower(text);
            let scheme = {
                ||| lowered.len() > 8 && lowered.take(8) == "https://"@
                ||| lowered.len() > 7 && lowered.take(7) == "http://"@
                ||| lowered.len() > 6 && lowered.take(6) == "ftp://"@
                ||| lowered.len() > 6 && lowered.take(6) == "ssh://"@
                ||| lowered.len() > 7 && lowered.take(7) == "mailto:"@
                ||| lowered.len() > 7 && lowered.take(7) == "magnet:"@
            };
            link(text) <==> scheme && forall|i: int|
                0 <= i < text.len() ==> !text::white_space(#[trigger] text[i])
        }),
        !link(Seq::empty()),
{
    text::one_word_holds_no_white_space(text);
    reveal_strlit("https://");
    reveal_strlit("http://");
    reveal_strlit("ftp://");
    reveal_strlit("ssh://");
    reveal_strlit("mailto:");
    reveal_strlit("magnet:");
    let none = Seq::<char>::empty();
    assert(text::words(none).len() == 0);
}

/// A colour is a hash and three, four, six or eight hexadecimal digits of
/// either case, or a call of one of four functions, named in any case and
/// closed at the end.
pub proof fn a_colour_is_a_hash_or_a_call(text: Seq<char>)
    ensures
        ({
            let lowered = text::lower(text);
            let hash = {
                &&& text.len() == 4 || text.len() == 5 || text.len() == 7 || text.len() == 9
                &&& text[0] == '#'
                &&& forall|i: int|
                    1 <= i < text.len() ==> {
                        ||| '0' <= #[trigger] text[i] <= '9'
                        ||| 'a' <= text[i] <= 'f'
                        ||| 'A' <= text[i] <= 'F'
                    }
            };
            let call = {
                &&& text.len() > 0 && text.last() == ')'
                &&& {
                    ||| text.len() >= 4 && lowered.take(4) == "rgb("@
                    ||| text.len() >= 5 && lowered.take(5) == "rgba("@
                    ||| text.len() >= 4 && lowered.take(4) == "hsl("@
                    ||| text.len() >= 5 && lowered.take(5) == "hsla("@
                }
            };
            colour(text) <==> hash || call
        }),
{
    let lowered = text::lower(text);
    reveal_strlit("rgb(");
    reveal_strlit("rgba(");
    reveal_strlit("hsl(");
    reveal_strlit("hsla(");
    if text.len() > 0 {
        assert(lowered.last() == text::lower_char(text.last()));
        if text[0] == '#' {
            let digits = text.skip(1);
            assert(lowered[0] == '#');
            assert(lowered.len() >= 4 ==> lowered.take(4)[0] == '#');
            assert(lowered.len() >= 5 ==> lowered.take(5)[0] == '#');
            assert forall|i: int| 1 <= i < text.len() implies #[trigger] text[i] == digits[i
                - 1] by {}
            assert forall|i: int| 0 <= i < digits.len() implies #[trigger] digits[i] == text[i
                + 1] by {}
            if colour(text) {
                assert forall|i: int| 1 <= i < text.len() implies hex_digit(#[trigger] text[i]) by {
                    assert(hex_digit(digits[i - 1]));
                }
            }
        }
    }
}

/// A row shows the text without its white space, but for single spaces where
/// there was some; a text that fits is shown whole, and one that does not is
/// cut no earlier than the limit and marked.
pub proof fn a_row_shows_the_words_of_the_text(text: Seq<char>)
    ensures
        ({
            let word = |c: char| !text::white_space(c);
            let line = text::joined(text::words(text), seq![' ']);
            &&& line.filter(word) == text.filter(word)
            &&& line.len() <= 160 ==> row(text) == line
            &&& line.len() > 160 ==> {
                &&& 161 <= row(text).len() <= 162
                &&& row(text).last() == '…'
                &&& row(text).drop_last() == line.take(row(text).len() - 1)
                &&& row(text).len() == 162 <==> line[160] == ' '
            }
        }),
{
    let word = |c: char| !text::white_space(c);
    let words = text::words(text);
    let line = text::joined(words, seq![' ']);
    text::runs_hold_all_that_is_kept(text, word);
    text::runs_are_kept(text, word);
    assert forall|i: int, j: int|
        0 <= i < words.len() && 0 <= j < words[i].len() implies !text::white_space(
        #[trigger] words[i][j],
    ) by {
        assert(word(text::runs(text, word)[i][j]));
    }
    spaces_come_out_again(words);
    if line.len() > 160 {
        assert(row(text).drop_last() =~= line.take(row(text).len() - 1));
    }
}

proof fn spaces_come_out_again(words: Seq<Seq<char>>)
    requires
        forall|i: int, j: int|
            0 <= i < words.len() && 0 <= j < words[i].len() ==> !text::white_space(
                #[trigger] words[i][j],
            ),
    ensures
        text::joined(words, seq![' ']).filter(|c: char| !text::white_space(c)) == words.flatten(),
    decreases words.len(),
{
    let word = |c: char| !text::white_space(c);
    reveal(Seq::filter);
    if words.len() == 0 {
        assert(text::joined(words, seq![' ']).filter(word) =~= words.flatten());
    } else {
        let front = words.drop_last();
        let last = words.last();
        assert forall|i: int, j: int|
            0 <= i < front.len() && 0 <= j < front[i].len() implies !text::white_space(
            #[trigger] front[i][j],
        ) by {
            assert(front[i] == words[i]);
            assert(!text::white_space(words[i][j]));
        }
        spaces_come_out_again(front);
        assert forall|j: int| 0 <= j < last.len() implies word(#[trigger] last[j]) by {
            assert(!text::white_space(words[words.len() - 1][j]));
        }
        kept_whole(last, word);
        front.lemma_flatten_push(last);
        assert(front.push(last) =~= words);
        if words.len() == 1 {
            assert(front.flatten() =~= Seq::empty());
            assert(text::joined(words, seq![' ']) == words[0]);
            assert(words.flatten() =~= last);
        } else {
            let head = text::joined(front, seq![' ']);
            let space = seq![' '];
            Seq::filter_distributes_over_add(head, space, word);
            Seq::filter_distributes_over_add(head + space, last, word);
            assert(space.drop_last() =~= Seq::empty());
            assert(space.drop_last().filter(word) =~= Seq::empty());
            assert(!word(space.last()));
            assert(space.filter(word) =~= Seq::empty());
            assert((head + space).filter(word) =~= head.filter(word));
        }
    }
}

proof fn kept_whole(text: Seq<char>, keep: spec_fn(char) -> bool)
    requires
        forall|i: int| 0 <= i < text.len() ==> keep(#[trigger] text[i]),
    ensures
        text.filter(keep) == text,
    decreases text.len(),
{
    reveal(Seq::filter);
    if text.len() > 0 {
        let front = text.drop_last();
        assert forall|i: int| 0 <= i < front.len() implies keep(#[trigger] front[i]) by {
            assert(front[i] == text[i]);
        }
        kept_whole(front, keep);
        assert(keep(text[text.len() - 1]));
        assert(front.push(text.last()) =~= text);
    } else {
        assert(text.filter(keep) =~= text);
    }
}

/// Of the names a source offers, all that hold a slash or stand for text are
/// recorded and no others, each once and in the order it was first offered in.
pub proof fn every_name_worth_it_is_recorded_once(names: Seq<Seq<char>>, next: Seq<char>)
    ensures
        forall|name: Seq<char>| #[trigger]
            recorded_names(names).contains(name) <==> names.contains(name) && (name.contains('/')
                || folded(name) == "utf8_string"@ || folded(name) == "string"@ || folded(name)
                == "text"@),
        recorded_names(names).no_duplicates(),
        recorded_names(names.push(next)) == recorded_names(names) || recorded_names(
            names.push(next),
        ) == recorded_names(names).push(next),
{
    assert forall|name: Seq<char>| #[trigger]
        recorded_names(names).contains(name) <==> names.contains(name) && (name.contains('/')
            || folded(name) == "utf8_string"@ || folded(name) == "string"@ || folded(name)
            == "text"@) by {
        recorded_of_those_offered(names, name);
        worth_a_slash(name);
    }
    recorded_once(names);
    assert(names.push(next).drop_last() =~= names);
}

proof fn recorded_of_those_offered(names: Seq<Seq<char>>, name: Seq<char>)
    ensures
        recorded_names(names).contains(name) <==> names.contains(name) && worth_recording(name),
    decreases names.len(),
{
    if names.len() > 0 {
        let front = names.drop_last();
        let earlier = recorded_names(front);
        recorded_of_those_offered(front, name);
        assert(names =~= front.push(names.last()));
        vstd::seq_lib::lemma_seq_contains_after_push(front, names.last(), name);
        vstd::seq_lib::lemma_seq_contains_after_push(earlier, names.last(), name);
    }
}

proof fn recorded_once(names: Seq<Seq<char>>)
    ensures
        recorded_names(names).no_duplicates(),
    decreases names.len(),
{
    if names.len() > 0 {
        recorded_once(names.drop_last());
    }
}

proof fn worth_a_slash(name: Seq<char>)
    ensures
        worth_recording(name) <==> name.contains('/') || folded(name) == "utf8_string"@ || folded(
            name,
        ) == "string"@ || folded(name) == "text"@,
{
    let compared = folded(name);
    if preference(name) < 100 && !(compared == "utf8_string"@ || compared == "string"@ || compared
        == "text"@) {
        reveal_strlit("image/png");
        reveal_strlit("image/webp");
        reveal_strlit("image/jpeg");
        reveal_strlit("image/jpg");
        reveal_strlit("image/gif");
        reveal_strlit("image/bmp");
        reveal_strlit("x-special/gnome-copied-files");
        reveal_strlit("x-special/nautilus-clipboard");
        reveal_strlit("text/uri-list");
        reveal_strlit("text/html");
        reveal_strlit("text/rtf");
        reveal_strlit("application/rtf");
        reveal_strlit("text/plain;charset=utf-8");
        reveal_strlit("text/plain");
        reveal_strlit("image/");
        reveal_strlit("text/");
        assert("image/png"@[5] == '/');
        assert("image/webp"@[5] == '/');
        assert("image/jpeg"@[5] == '/');
        assert("image/jpg"@[5] == '/');
        assert("image/gif"@[5] == '/');
        assert("image/bmp"@[5] == '/');
        assert("x-special/gnome-copied-files"@[9] == '/');
        assert("x-special/nautilus-clipboard"@[9] == '/');
        assert("text/uri-list"@[4] == '/');
        assert("text/html"@[4] == '/');
        assert("text/rtf"@[4] == '/');
        assert("application/rtf"@[11] == '/');
        assert("text/plain;charset=utf-8"@[4] == '/');
        assert("text/plain"@[4] == '/');
        let place: int = if compared == "application/rtf"@ {
            11
        } else if compared == "x-special/gnome-copied-files"@ || compared
            == "x-special/nautilus-clipboard"@ {
            9
        } else if text::starts_with(compared, "image/"@) {
            5
        } else if compared == "image/png"@ || compared == "image/webp"@ || compared == "image/jpeg"@
            || compared == "image/jpg"@ || compared == "image/gif"@ || compared == "image/bmp"@ {
            5
        } else {
            4
        };
        if text::starts_with(compared, "image/"@) {
            assert(compared.take(6)[5] == '/');
        } else if text::starts_with(compared, "text/"@) {
            assert(compared.take(5)[4] == '/');
        }
        assert(compared[place] == '/');
        let core = text::trim(name);
        assert(place < compared.len());
        assert(compared.len() == core.len());
        assert(text::lower_char(core[place]) == '/');
        assert(core.contains(core[place]));
        what_is_trimmed_was_there(name, '/');
    }
}

proof fn what_is_trimmed_was_there(text: Seq<char>, c: char)
    requires
        text::trim(text).contains(c),
    ensures
        text.contains(c),
{
    let rest = text::trim_start(text);
    the_end_was_there(rest, c);
    the_start_was_there(text, c);
}

proof fn the_end_was_there(text: Seq<char>, c: char)
    requires
        text::trim_end(text).contains(c),
    ensures
        text.contains(c),
    decreases text.len(),
{
    if text.len() > 0 && text::white_space(text.last()) {
        the_end_was_there(text.drop_last(), c);
        let i = choose|i: int| 0 <= i < text.drop_last().len() && text.drop_last()[i] == c;
        assert(text[i] == c);
    }
}

proof fn the_start_was_there(text: Seq<char>, c: char)
    requires
        text::trim_start(text).contains(c),
    ensures
        text.contains(c),
    decreases text.len(),
{
    if text.len() > 0 && text::white_space(text[0]) {
        the_start_was_there(text.drop_first(), c);
        let i = choose|i: int| 0 <= i < text.drop_first().len() && text.drop_first()[i] == c;
        assert(text[i + 1] == c);
    }
}

} // verus!
