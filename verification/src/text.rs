//! Text as sequences of characters: the handful of string operations the rest
//! of the crate is written with, and what each of them means.

use vstd::prelude::*;

verus! {

// ---------------------------------------------------------------------------
// What is taken from the standard library
// ---------------------------------------------------------------------------

/// `String::push` appends one character and changes nothing else.
pub assume_specification[ String::push ](s: &mut String, c: char)
    ensures
        final(s)@ == old(s)@.push(c),
;

/// Two string slices are equal exactly when they hold the same characters.
pub assume_specification[ <str as PartialEq>::eq ](s: &str, other: &str) -> (equal: bool)
    ensures
        equal == (s@ == other@),
;

/// `char::is_whitespace` tells the Unicode `White_Space` property, whose
/// members `white_space` lists.
pub assume_specification[ char::is_whitespace ](c: char) -> (answer: bool)
    ensures
        answer == white_space(c),
;

/// Whether Unicode calls a character beyond ASCII alphabetic or numeric.
pub uninterp spec fn wide_alphanumeric(c: char) -> bool;

/// Whether Unicode calls a character alphabetic or numeric. Inside ASCII those
/// are the letters and the digits.
pub open spec fn alphanumeric(c: char) -> bool {
    if (c as u32) < 0x80 {
        '0' <= c <= '9' || 'A' <= c <= 'Z' || 'a' <= c <= 'z'
    } else {
        wide_alphanumeric(c)
    }
}

/// `char::is_alphanumeric` is a property of the character alone, and inside
/// ASCII it holds of the letters and the digits and of nothing else.
pub assume_specification[ char::is_alphanumeric ](c: char) -> (answer: bool)
    ensures
        (c as u32) < 0x80 ==> (answer <==> ('0' <= c <= '9' || 'A' <= c <= 'Z' || 'a' <= c
            <= 'z')),
        (c as u32) >= 0x80 ==> answer == wide_alphanumeric(c),
;

/// `String::from_utf8` accepts exactly the valid UTF-8 sequences and decodes
/// them.
#[verifier::external_body]
pub(crate) fn utf8_text(bytes: Vec<u8>) -> (decoded: Option<String>)
    ensures
        decoded is Some <==> vstd::utf8::valid_utf8(bytes@),
        decoded matches Some(text) ==> text@ == vstd::utf8::decode_utf8(bytes@),
{
    String::from_utf8(bytes).ok()
}

/// What a byte sequence reads as when every malformed piece of it is replaced.
pub uninterp spec fn lossy_text(bytes: Seq<u8>) -> Seq<char>;

/// `String::from_utf8_lossy` never fails: it is a function of the bytes, and
/// on valid UTF-8 it is the plain decoding.
#[verifier::external_body]
pub(crate) fn utf8_text_lossy(bytes: &[u8]) -> (text: String)
    ensures
        text@ == lossy_text(bytes@),
        vstd::utf8::valid_utf8(bytes@) ==> text@ == vstd::utf8::decode_utf8(bytes@),
{
    String::from_utf8_lossy(bytes).into_owned()
}

/// Whether a UTF-16 unit is the first of a surrogate pair.
pub open spec fn leads_pair(unit: u16) -> bool {
    0xd800 <= unit <= 0xdbff
}

/// Whether a UTF-16 unit is the second of a surrogate pair.
pub open spec fn ends_pair(unit: u16) -> bool {
    0xdc00 <= unit <= 0xdfff
}

/// What a sequence of UTF-16 units reads as when every unpaired surrogate is
/// replaced.
pub open spec fn utf16_text(units: Seq<u16>) -> Seq<char>
    decreases units.len(),
{
    if units.len() == 0 {
        Seq::empty()
    } else if units.len() > 1 && leads_pair(units[0]) && ends_pair(units[1]) {
        seq![(0x1_0000 + (units[0] - 0xd800) * 0x400 + (units[1] - 0xdc00)) as char] + utf16_text(
            units.skip(2),
        )
    } else if leads_pair(units[0]) || ends_pair(units[0]) {
        seq!['\u{fffd}'] + utf16_text(units.skip(1))
    } else {
        seq![units[0] as char] + utf16_text(units.skip(1))
    }
}

/// `String::from_utf16_lossy` never fails: it joins each surrogate pair, puts
/// the replacement character for each surrogate that is in no pair, and takes
/// every other unit as the character it is.
#[verifier::external_body]
pub(crate) fn utf16_text_lossy(units: &[u16]) -> (text: String)
    ensures
        text@ == utf16_text(units@),
{
    String::from_utf16_lossy(units)
}

// ---------------------------------------------------------------------------
// Characters
// ---------------------------------------------------------------------------

/// The characters with the Unicode `White_Space` property.
pub open spec fn white_space(c: char) -> bool {
    let code = c as u32;
    ||| 0x09 <= code <= 0x0d
    ||| code == 0x20
    ||| code == 0x85
    ||| code == 0xa0
    ||| code == 0x1680
    ||| 0x2000 <= code <= 0x200a
    ||| code == 0x2028
    ||| code == 0x2029
    ||| code == 0x202f
    ||| code == 0x205f
    ||| code == 0x3000
}

/// A character with its ASCII case folded down.
pub open spec fn lower_char(c: char) -> char {
    if 'A' <= c <= 'Z' {
        (c as u8 + 32) as char
    } else {
        c
    }
}

/// A text with its ASCII case folded down.
pub open spec fn lower(text: Seq<char>) -> Seq<char> {
    Seq::new(text.len(), |i: int| lower_char(text[i]))
}

fn fold(c: char) -> (folded: char)
    ensures
        folded == lower_char(c),
{
    if 'A' <= c && c <= 'Z' {
        ((c as u8) + 32) as char
    } else {
        c
    }
}

/// Whether two texts are the same.
pub fn same(a: &str, b: &str) -> (answer: bool)
    ensures
        answer == (a@ == b@),
{
    a.eq(b)
}

// ---------------------------------------------------------------------------
// Strings and vectors of characters
// ---------------------------------------------------------------------------

/// The characters of a string, in order.
pub fn chars_of(text: &str) -> (chars: Vec<char>)
    ensures
        chars@ == text@,
{
    let mut chars: Vec<char> = Vec::new();
    for c in it: text.chars()
        invariant
            it.seq() == text@,
            chars@ == text@.take(it.index() as int),
    {
        chars.push(c);
        assert(text@.take(it.index() as int + 1) =~= text@.take(it.index() as int).push(c));
    }
    assert(text@.take(text@.len() as int) =~= text@);
    chars
}

/// The string made of the given characters.
pub fn string_of(chars: &[char]) -> (text: String)
    ensures
        text@ == chars@,
{
    let mut text = String::new();
    let mut i: usize = 0;
    while i < chars.len()
        invariant
            i <= chars.len(),
            text@ == chars@.take(i as int),
        decreases chars.len() - i,
    {
        text.push(chars[i]);
        assert(chars@.take(i as int + 1) =~= chars@.take(i as int).push(chars@[i as int]));
        i += 1;
    }
    assert(chars@.take(chars@.len() as int) =~= chars@);
    text
}

/// The characters of a string with ASCII case folded down.
pub fn lower_chars(text: &str) -> (chars: Vec<char>)
    ensures
        chars@ == lower(text@),
{
    let source = chars_of(text);
    lower_each(&source)
}

/// The given characters with ASCII case folded down.
pub fn lower_each(source: &[char]) -> (chars: Vec<char>)
    ensures
        chars@ == lower(source@),
{
    let mut chars: Vec<char> = Vec::new();
    let mut i: usize = 0;
    while i < source.len()
        invariant
            i <= source.len(),
            chars@ == lower(source@).take(i as int),
        decreases source.len() - i,
    {
        chars.push(fold(source[i]));
        assert(lower(source@).take(i as int + 1) =~= lower(source@).take(i as int).push(
            lower(source@)[i as int],
        ));
        i += 1;
    }
    assert(lower(source@).take(source@.len() as int) =~= lower(source@));
    chars
}

/// The text some optional string holds.
pub open spec fn optional(string: Option<String>) -> Option<Seq<char>> {
    match string {
        Some(string) => Some(string@),
        None => None,
    }
}

/// The text some optional string slice holds.
pub open spec fn optional_slice(string: Option<&str>) -> Option<Seq<char>> {
    match string {
        Some(string) => Some(string@),
        None => None,
    }
}

/// The texts some strings hold.
pub open spec fn contents(strings: Seq<String>) -> Seq<Seq<char>> {
    Seq::new(strings.len(), |i: int| strings[i]@)
}

/// Whether `text` begins with `prefix`.
pub open spec fn starts_with(text: Seq<char>, prefix: Seq<char>) -> bool {
    prefix.len() <= text.len() && text.take(prefix.len() as int) == prefix
}

/// Whether the characters begin with the given prefix.
pub fn begins(chars: &[char], prefix: &str) -> (answer: bool)
    ensures
        answer == starts_with(chars@, prefix@),
{
    let wanted = chars_of(prefix);
    if wanted.len() > chars.len() {
        return false;
    }
    let mut i: usize = 0;
    while i < wanted.len()
        invariant
            i <= wanted.len() <= chars.len(),
            wanted@ == prefix@,
            chars@.take(i as int) == wanted@.take(i as int),
        decreases wanted.len() - i,
    {
        if chars[i] != wanted[i] {
            assert(chars@.take(wanted@.len() as int)[i as int] != wanted@[i as int]);
            return false;
        }
        assert(chars@.take(i as int + 1) =~= chars@.take(i as int).push(chars@[i as int]));
        assert(wanted@.take(i as int + 1) =~= wanted@.take(i as int).push(wanted@[i as int]));
        i += 1;
    }
    assert(wanted@.take(wanted@.len() as int) =~= wanted@);
    true
}

// ---------------------------------------------------------------------------
// Trimming
// ---------------------------------------------------------------------------

/// A text without its leading white space.
pub open spec fn trim_start(text: Seq<char>) -> Seq<char>
    decreases text.len(),
{
    if text.len() > 0 && white_space(text[0]) {
        trim_start(text.drop_first())
    } else {
        text
    }
}

/// A text without its trailing white space.
pub open spec fn trim_end(text: Seq<char>) -> Seq<char>
    decreases text.len(),
{
    if text.len() > 0 && white_space(text.last()) {
        trim_end(text.drop_last())
    } else {
        text
    }
}

/// A text without the white space around it.
pub open spec fn trim(text: Seq<char>) -> Seq<char> {
    trim_end(trim_start(text))
}

/// The characters without the white space around them.
pub fn trimmed(chars: &[char]) -> (core: Vec<char>)
    ensures
        core@ == trim(chars@),
{
    let mut from: usize = 0;
    assert(chars@.skip(0) =~= chars@);
    while from < chars.len() && chars[from].is_whitespace()
        invariant
            from <= chars.len(),
            trim_start(chars@.skip(from as int)) == trim_start(chars@),
        decreases chars.len() - from,
    {
        assert(chars@.skip(from as int).drop_first() =~= chars@.skip(from as int + 1));
        from += 1;
    }
    let ghost rest = chars@.skip(from as int);
    assert(trim_start(chars@) == rest);

    let mut to: usize = chars.len();
    assert(chars@.subrange(from as int, to as int) =~= rest);
    while from < to && chars[to - 1].is_whitespace()
        invariant
            from <= to <= chars.len(),
            trim_end(chars@.subrange(from as int, to as int)) == trim_end(rest),
        decreases to - from,
    {
        assert(chars@.subrange(from as int, to as int).drop_last() =~= chars@.subrange(
            from as int,
            to as int - 1,
        ));
        to -= 1;
    }
    slice_of(chars, from, to)
}

/// The characters from `from` up to `to`.
pub fn slice_of(chars: &[char], from: usize, to: usize) -> (part: Vec<char>)
    requires
        from <= to <= chars.len(),
    ensures
        part@ == chars@.subrange(from as int, to as int),
{
    let mut part: Vec<char> = Vec::new();
    let mut i: usize = from;
    while i < to
        invariant
            from <= i <= to <= chars.len(),
            part@ == chars@.subrange(from as int, i as int),
        decreases to - i,
    {
        part.push(chars[i]);
        assert(chars@.subrange(from as int, i as int + 1) =~= chars@.subrange(
            from as int,
            i as int,
        ).push(chars@[i as int]));
        i += 1;
    }
    part
}

// ---------------------------------------------------------------------------
// Splitting
// ---------------------------------------------------------------------------

/// The maximal runs of kept characters in a text, in order.
pub open spec fn runs(text: Seq<char>, keep: spec_fn(char) -> bool) -> Seq<Seq<char>>
    decreases text.len(),
{
    if text.len() == 0 {
        Seq::empty()
    } else {
        let earlier = runs(text.drop_last(), keep);
        if !keep(text.last()) {
            earlier
        } else if text.len() >= 2 && keep(text[text.len() - 2]) {
            earlier.update(earlier.len() - 1, earlier.last().push(text.last()))
        } else {
            earlier.push(seq![text.last()])
        }
    }
}

/// The runs of characters that are not white space.
pub open spec fn words(text: Seq<char>) -> Seq<Seq<char>> {
    runs(text, |c: char| !white_space(c))
}

/// Pieces with a separator between each two of them.
pub open spec fn joined(pieces: Seq<Seq<char>>, separator: Seq<char>) -> Seq<char>
    decreases pieces.len(),
{
    if pieces.len() == 0 {
        Seq::empty()
    } else if pieces.len() == 1 {
        pieces[0]
    } else {
        joined(pieces.drop_last(), separator) + separator + pieces.last()
    }
}

/// Every run is non-empty and holds kept characters only, and the last run
/// reaches the end of the text exactly when its last character is kept.
pub proof fn runs_are_kept(text: Seq<char>, keep: spec_fn(char) -> bool)
    ensures
        forall|i: int, j: int|
            0 <= i < runs(text, keep).len() && 0 <= j < runs(text, keep)[i].len() ==> keep(
                #[trigger] runs(text, keep)[i][j],
            ),
        forall|i: int|
            0 <= i < runs(text, keep).len() ==> (#[trigger] runs(text, keep)[i]).len() > 0,
        text.len() > 0 && keep(text.last()) ==> runs(text, keep).len() > 0,
    decreases text.len(),
{
    if text.len() > 0 {
        runs_are_kept(text.drop_last(), keep);
        let earlier = runs(text.drop_last(), keep);
        if text.len() >= 2 {
            assert(text.drop_last().last() == text[text.len() - 2]);
        }
    }
}

/// Extending the last of some joined pieces extends the whole.
pub proof fn joined_extended(pieces: Seq<Seq<char>>, separator: Seq<char>, c: char)
    requires
        pieces.len() > 0,
    ensures
        joined(pieces.update(pieces.len() - 1, pieces.last().push(c)), separator) == joined(
            pieces,
            separator,
        ).push(c),
{
    let longer = pieces.update(pieces.len() - 1, pieces.last().push(c));
    assert(longer.drop_last() =~= pieces.drop_last());
    assert(joined(longer, separator) =~= joined(pieces, separator).push(c));
}

/// Adding a piece to some joined pieces adds the separator and the piece.
pub proof fn joined_added(pieces: Seq<Seq<char>>, separator: Seq<char>, piece: Seq<char>)
    ensures
        joined(pieces.push(piece), separator) == (if pieces.len() == 0 {
            piece
        } else {
            joined(pieces, separator) + separator + piece
        }),
{
    assert(pieces.push(piece).drop_last() =~= pieces);
}

/// Joined pieces begin with the first of them.
pub proof fn joined_begins(pieces: Seq<Seq<char>>, separator: Seq<char>)
    requires
        pieces.len() > 0,
    ensures
        starts_with(joined(pieces, separator), pieces[0]),
    decreases pieces.len(),
{
    let all = joined(pieces, separator);
    if pieces.len() > 1 {
        let front = joined(pieces.drop_last(), separator);
        joined_begins(pieces.drop_last(), separator);
        assert(all.take(pieces[0].len() as int) =~= front.take(pieces[0].len() as int));
    } else {
        assert(all.take(pieces[0].len() as int) =~= pieces[0]);
    }
}

/// The words of a text with one space between each two.
pub fn one_spaced(chars: &[char]) -> (line: Vec<char>)
    ensures
        line@ == joined(words(chars@), seq![' ']),
{
    let ghost keep = |c: char| !white_space(c);
    let mut line: Vec<char> = Vec::new();
    let mut inside: bool = false;
    let mut i: usize = 0;
    while i < chars.len()
        invariant
            i <= chars.len(),
            keep == (|c: char| !white_space(c)),
            line@ == joined(runs(chars@.take(i as int), keep), seq![' ']),
            inside == (i > 0 && keep(chars@[i - 1])),
            line@.len() == 0 <==> runs(chars@.take(i as int), keep).len() == 0,
        decreases chars.len() - i,
    {
        let c = chars[i];
        let ghost seen = chars@.take(i as int);
        let ghost next = chars@.take(i as int + 1);
        proof {
            assert(next.drop_last() =~= seen);
            assert(next.last() == c);
            if i > 0 {
                assert(next[next.len() - 2] == chars@[i - 1]);
            }
            runs_are_kept(seen, keep);
            if i > 0 {
                assert(seen.last() == chars@[i - 1]);
            }
            if inside {
                joined_extended(runs(seen, keep), seq![' '], c);
            } else {
                joined_added(runs(seen, keep), seq![' '], seq![c]);
            }
        }
        if c.is_whitespace() {
            inside = false;
        } else {
            if !inside && line.len() > 0 {
                line.push(' ');
            }
            line.push(c);
            inside = true;
            assert(line@ =~= joined(runs(next, keep), seq![' ']));
        }
        i += 1;
    }
    assert(chars@.take(chars@.len() as int) =~= chars@);
    line
}

/// Whether a text is exactly one word, white space around it aside.
pub fn is_one_word(chars: &[char]) -> (answer: bool)
    ensures
        answer == (words(chars@).len() == 1),
{
    let ghost keep = |c: char| !white_space(c);
    let mut count: usize = 0;
    let mut inside: bool = false;
    let mut i: usize = 0;
    while i < chars.len()
        invariant
            i <= chars.len(),
            count <= i,
            keep == (|c: char| !white_space(c)),
            count == runs(chars@.take(i as int), keep).len(),
            inside == (i > 0 && keep(chars@[i - 1])),
        decreases chars.len() - i,
    {
        let c = chars[i];
        proof {
            let seen = chars@.take(i as int);
            let next = chars@.take(i as int + 1);
            assert(next.drop_last() =~= seen);
            assert(next.last() == c);
            if i > 0 {
                assert(next[next.len() - 2] == chars@[i - 1]);
                assert(seen.last() == chars@[i - 1]);
            }
            runs_are_kept(seen, keep);
        }
        if c.is_whitespace() {
            inside = false;
        } else {
            if !inside {
                count += 1;
            }
            inside = true;
        }
        i += 1;
    }
    assert(chars@.take(chars@.len() as int) =~= chars@);
    count == 1
}

/// Whether the character at a place, if it is white space, is one space
/// between two characters that are none.
pub open spec fn lone_space(line: Seq<char>, i: int) -> bool {
    white_space(line[i]) ==> line[i] == ' ' && 0 < i < line.len() - 1 && !white_space(line[i - 1])
        && !white_space(line[i + 1])
}

/// Whether the only white space in a text is single spaces inside it.
pub open spec fn single_spaced(line: Seq<char>) -> bool {
    forall|i: int| 0 <= i < line.len() ==> #[trigger] lone_space(line, i)
}

/// Joined words hold no white space but single spaces between words, and begin
/// and end with none.
pub proof fn one_spaced_is_one_line(text: Seq<char>)
    ensures
        single_spaced(joined(words(text), seq![' '])),
{
    runs_are_kept(text, |c: char| !white_space(c));
    joined_is_one_line(words(text));
}

proof fn joined_is_one_line(pieces: Seq<Seq<char>>)
    requires
        forall|i: int| 0 <= i < pieces.len() ==> (#[trigger] pieces[i]).len() > 0,
        forall|i: int, j: int|
            0 <= i < pieces.len() && 0 <= j < pieces[i].len() ==> !white_space(
                #[trigger] pieces[i][j],
            ),
    ensures
        ({
            let line = joined(pieces, seq![' ']);
            &&& pieces.len() > 0 ==> line.len() > 0 && !white_space(line[0]) && !white_space(
                line.last(),
            )
            &&& single_spaced(line)
        }),
    decreases pieces.len(),
{
    let line = joined(pieces, seq![' ']);
    if pieces.len() >= 2 {
        let front = pieces.drop_last();
        assert forall|i: int, j: int|
            0 <= i < front.len() && 0 <= j < front[i].len() implies !white_space(
            #[trigger] front[i][j],
        ) by {
            assert(front[i] == pieces[i]);
            assert(!white_space(pieces[i][j]));
        }
        joined_is_one_line(front);
        let head = joined(front, seq![' ']);
        let last = pieces.last();
        assert(line == head + seq![' '] + last);
        assert forall|k: int| 0 <= k < last.len() implies !white_space(#[trigger] last[k]) by {
            assert(!white_space(pieces[pieces.len() - 1][k]));
        }
        assert(!white_space(last[0]) && !white_space(last[last.len() - 1]));
        assert(line[0] == head[0]);
        assert(line.last() == last.last());
        assert forall|i: int| 0 <= i < line.len() implies #[trigger] lone_space(line, i) by {
            if white_space(line[i]) {
                if i < head.len() {
                    assert(line[i] == head[i]);
                    assert(lone_space(head, i));
                    assert(line[i - 1] == head[i - 1]);
                    assert(line[i + 1] == head[i + 1]);
                } else if i == head.len() {
                    assert(line[i - 1] == head[head.len() - 1]);
                    assert(line[i + 1] == last[0]);
                } else {
                    assert(line[i] == last[i - head.len() - 1]);
                }
            }
        }
    } else if pieces.len() == 1 {
        assert(line == pieces[0]);
        assert forall|i: int| 0 <= i < line.len() implies #[trigger] lone_space(line, i) by {
            assert(!white_space(pieces[0][i]));
        }
    }
}

// ---------------------------------------------------------------------------
// Order
// ---------------------------------------------------------------------------

/// Whether one text sorts strictly before another: by the first character in
/// which they differ, a text coming before every extension of it.
pub open spec fn before(a: Seq<char>, b: Seq<char>) -> bool
    decreases a.len(),
{
    if a.len() == 0 {
        b.len() > 0
    } else if b.len() == 0 {
        false
    } else if a[0] != b[0] {
        a[0] < b[0]
    } else {
        before(a.drop_first(), b.drop_first())
    }
}

/// Whether `a` sorts strictly before `b`.
pub fn sorts_before(a: &str, b: &str) -> (answer: bool)
    ensures
        answer == before(a@, b@),
{
    let left = chars_of(a);
    let right = chars_of(b);
    let mut i: usize = 0;
    assert(left@.skip(0) =~= left@);
    assert(right@.skip(0) =~= right@);
    while i < left.len() && i < right.len()
        invariant
            i <= left.len(),
            i <= right.len(),
            left@ == a@,
            right@ == b@,
            before(left@, right@) == before(left@.skip(i as int), right@.skip(i as int)),
        decreases left.len() - i,
    {
        if left[i] != right[i] {
            return left[i] < right[i];
        }
        assert(left@.skip(i as int).drop_first() =~= left@.skip(i as int + 1));
        assert(right@.skip(i as int).drop_first() =~= right@.skip(i as int + 1));
        i += 1;
    }
    i == left.len() && i < right.len()
}

/// No text sorts before itself.
pub proof fn before_irreflexive(a: Seq<char>)
    ensures
        !before(a, a),
    decreases a.len(),
{
    if a.len() > 0 {
        before_irreflexive(a.drop_first());
    }
}

/// Sorting before is transitive.
pub proof fn before_transitive(a: Seq<char>, b: Seq<char>, c: Seq<char>)
    requires
        before(a, b),
        before(b, c),
    ensures
        before(a, c),
    decreases a.len(),
{
    if a.len() > 0 && b.len() > 0 && c.len() > 0 && a[0] == b[0] && b[0] == c[0] {
        before_transitive(a.drop_first(), b.drop_first(), c.drop_first());
    }
}

/// Of two different texts one sorts before the other.
pub proof fn before_total(a: Seq<char>, b: Seq<char>)
    ensures
        a == b || before(a, b) || before(b, a),
    decreases a.len(),
{
    if a.len() > 0 && b.len() > 0 {
        if a[0] == b[0] {
            before_total(a.drop_first(), b.drop_first());
            if a.drop_first() == b.drop_first() {
                assert(a =~= seq![a[0]] + a.drop_first());
                assert(b =~= seq![b[0]] + b.drop_first());
            }
        }
    } else if a.len() == 0 && b.len() == 0 {
        assert(a =~= b);
    }
}

// ---------------------------------------------------------------------------
// Numbers
// ---------------------------------------------------------------------------

/// A lower-case hexadecimal digit.
pub open spec fn hex_digit(n: int) -> char {
    if n < 10 {
        (n + 0x30) as char
    } else {
        (n - 10 + 0x61) as char
    }
}

/// The decimal digit for a number below ten.
pub open spec fn digit(n: nat) -> char {
    (n + 0x30) as char
}

/// A natural number in decimal.
pub open spec fn decimal(n: nat) -> Seq<char>
    decreases n,
{
    if n < 10 {
        seq![digit(n)]
    } else {
        decimal(n / 10).push(digit(n % 10))
    }
}

/// An integer in decimal, with a minus sign where it is negative.
pub open spec fn signed_decimal(n: int) -> Seq<char> {
    if n < 0 {
        seq!['-'] + decimal((-n) as nat)
    } else {
        decimal(n as nat)
    }
}

/// Appends a number in decimal.
pub fn push_decimal(text: &mut String, n: u64)
    ensures
        final(text)@ == old(text)@ + decimal(n as nat),
    decreases n,
{
    if n >= 10 {
        push_decimal(text, n / 10);
    }
    let d: u64 = n % 10;
    text.push((d as u8 + 0x30) as char);
    assert(text@ =~= old(text)@ + decimal(n as nat));
}

/// Appends a signed number in decimal.
pub fn push_signed(text: &mut String, n: i64)
    ensures
        final(text)@ == old(text)@ + signed_decimal(n as int),
{
    if n < 0 {
        text.push('-');
        let size: u64 = if n == i64::MIN {
            0x8000_0000_0000_0000
        } else {
            (-n) as u64
        };
        push_decimal(text, size);
        assert(text@ =~= old(text)@ + signed_decimal(n as int));
    } else {
        push_decimal(text, n as u64);
    }
}

/// Appends a piece of text.
pub fn push_text(text: &mut String, piece: &str)
    ensures
        final(text)@ == old(text)@ + piece@,
{
    text.append(piece);
}

// ---------------------------------------------------------------------------
// Reading numbers
// ---------------------------------------------------------------------------

/// The number some decimal digits write, where there is at least one character
/// and every one is a digit.
pub open spec fn digits_value(digits: Seq<char>) -> Option<nat>
    decreases digits.len(),
{
    if digits.len() == 0 {
        None
    } else if !('0' <= digits.last() <= '9') {
        None
    } else if digits.len() == 1 {
        Some((digits.last() as int - 0x30) as nat)
    } else {
        match digits_value(digits.drop_last()) {
            Some(front) => Some((front * 10 + (digits.last() as int - 0x30)) as nat),
            None => None,
        }
    }
}

/// A number without a sign or with a plus sign.
pub open spec fn unsigned_value(number: Seq<char>) -> Option<nat> {
    if number.len() > 0 && number[0] == '+' {
        digits_value(number.skip(1))
    } else {
        digits_value(number)
    }
}

/// A number that may have a sign.
pub open spec fn signed_value(number: Seq<char>) -> Option<int> {
    if number.len() > 0 && number[0] == '-' {
        match digits_value(number.skip(1)) {
            Some(n) => Some(-(n as int)),
            None => None,
        }
    } else {
        match unsigned_value(number) {
            Some(n) => Some(n as int),
            None => None,
        }
    }
}

/// More digits never make a number smaller.
proof fn digits_grow(digits: Seq<char>, count: int)
    requires
        0 < count <= digits.len(),
        digits_value(digits) is Some,
    ensures
        digits_value(digits.take(count)) is Some,
        digits_value(digits.take(count))->0 <= digits_value(digits)->0,
    decreases digits.len(),
{
    if count < digits.len() {
        digits_grow(digits.drop_last(), count);
        assert(digits.drop_last().take(count) =~= digits.take(count));
    } else {
        assert(digits.take(count) =~= digits);
    }
}

/// The number some digits write, where it is no greater than a limit.
fn read_digits(digits: &[char], limit: u64) -> (value: Option<u64>)
    ensures
        match value {
            Some(n) => digits_value(digits@) == Some(n as nat) && n <= limit,
            None => digits_value(digits@) matches Some(n) ==> n > limit,
        },
{
    if digits.len() == 0 {
        return None;
    }
    let mut value: u64 = 0;
    let mut i: usize = 0;
    while i < digits.len()
        invariant
            i <= digits.len(),
            digits.len() > 0,
            value <= limit,
            i == 0 ==> value == 0,
            i > 0 ==> digits_value(digits@.take(i as int)) == Some(value as nat),
        decreases digits.len() - i,
    {
        let c = digits[i];
        proof {
            assert(digits@.take(i as int + 1).drop_last() =~= digits@.take(i as int));
            assert(digits@.take(i as int + 1).last() == c);
        }
        if !('0' <= c && c <= '9') {
            proof {
                if digits_value(digits@) is Some {
                    digits_grow(digits@, i as int + 1);
                }
            }
            return None;
        }
        let digit: u64 = c as u64 - 0x30;
        let next: u128 = value as u128 * 10 + digit as u128;
        assert(digits_value(digits@.take(i as int + 1)) == Some(next as nat));
        if next > limit as u128 {
            proof {
                if digits_value(digits@) is Some {
                    digits_grow(digits@, i as int + 1);
                }
            }
            return None;
        }
        value = next as u64;
        i += 1;
    }
    assert(digits@.take(digits@.len() as int) =~= digits@);
    Some(value)
}

/// Reads a number without a sign or with a plus sign, no greater than a limit.
pub fn parse_unsigned(number: &[char], limit: u64) -> (value: Option<u64>)
    ensures
        match value {
            Some(n) => unsigned_value(number@) == Some(n as nat) && n <= limit,
            None => unsigned_value(number@) matches Some(n) ==> n > limit,
        },
{
    if number.len() > 0 && number[0] == '+' {
        let rest = slice_of(number, 1, number.len());
        assert(rest@ =~= number@.skip(1));
        read_digits(&rest, limit)
    } else {
        read_digits(number, limit)
    }
}

/// Reads a number that may have a sign, where it is one an `i64` can hold.
pub fn parse_signed(number: &str) -> (value: Option<i64>)
    ensures
        match value {
            Some(n) => signed_value(number@) == Some(n as int),
            None => signed_value(number@) matches Some(n) ==> n < i64::MIN || n > i64::MAX,
        },
{
    let chars = chars_of(number);
    if chars.len() > 0 && chars[0] == '-' {
        let rest = slice_of(&chars, 1, chars.len());
        assert(rest@ =~= number@.skip(1));
        match read_digits(&rest, 0x8000_0000_0000_0000) {
            Some(n) => if n == 0x8000_0000_0000_0000 {
                Some(i64::MIN)
            } else {
                Some(-(n as i64))
            },
            None => None,
        }
    } else {
        match parse_unsigned(&chars, 0x7fff_ffff_ffff_ffff) {
            Some(n) => Some(n as i64),
            None => None,
        }
    }
}

// ---------------------------------------------------------------------------
// What these operations promise
// ---------------------------------------------------------------------------

/// Folding case moves the twenty-six capital letters down and leaves every
/// other character where it is.
pub proof fn folding_moves_capital_letters_alone(text: Seq<char>)
    ensures
        lower(text).len() == text.len(),
        forall|i: int|
            0 <= i < text.len() ==> (#[trigger] lower(text)[i]) as int == (if 0x41 <= text[i] as int
                && text[i] as int <= 0x5a {
                text[i] as int + 0x20
            } else {
                text[i] as int
            }),
        lower(lower(text)) == lower(text),
{
    assert(lower(lower(text)) =~= lower(text));
}

/// Trimming takes off all white space around a text and nothing of the text.
pub proof fn trimming_leaves_the_core(lead: Seq<char>, core: Seq<char>, tail: Seq<char>)
    requires
        forall|i: int| 0 <= i < lead.len() ==> white_space(#[trigger] lead[i]),
        forall|i: int| 0 <= i < tail.len() ==> white_space(#[trigger] tail[i]),
        core.len() > 0 ==> !white_space(core[0]) && !white_space(core.last()),
    ensures
        trim(lead + core + tail) == core,
    decreases lead.len() + tail.len(),
{
    let whole = lead + core + tail;
    if lead.len() > 0 {
        let fewer = lead.drop_first();
        assert(white_space(lead[0]));
        assert(whole[0] == lead[0]);
        assert(whole.drop_first() =~= fewer + core + tail);
        assert forall|i: int| 0 <= i < fewer.len() implies white_space(#[trigger] fewer[i]) by {
            assert(fewer[i] == lead[i + 1]);
        }
        trimming_leaves_the_core(fewer, core, tail);
    } else if core.len() == 0 && tail.len() > 0 {
        let fewer = tail.drop_first();
        assert(white_space(tail[0]));
        assert(whole[0] == tail[0]);
        assert(whole.drop_first() =~= lead + core + fewer);
        assert forall|i: int| 0 <= i < fewer.len() implies white_space(#[trigger] fewer[i]) by {
            assert(fewer[i] == tail[i + 1]);
        }
        trimming_leaves_the_core(lead, core, fewer);
    } else if core.len() > 0 {
        assert(whole[0] == core[0]);
        assert(trim_start(whole) == whole);
        trimming_the_end(core, tail);
        assert(whole =~= core + tail);
    } else {
        assert(whole =~= core);
    }
}

proof fn trimming_the_end(core: Seq<char>, tail: Seq<char>)
    requires
        forall|i: int| 0 <= i < tail.len() ==> white_space(#[trigger] tail[i]),
        core.len() > 0,
        !white_space(core.last()),
    ensures
        trim_end(core + tail) == core,
    decreases tail.len(),
{
    let whole = core + tail;
    if tail.len() > 0 {
        let fewer = tail.drop_last();
        assert(white_space(tail[tail.len() - 1]));
        assert(whole.last() == tail.last());
        assert(whole.drop_last() =~= core + fewer);
        assert forall|i: int| 0 <= i < fewer.len() implies white_space(#[trigger] fewer[i]) by {
            assert(fewer[i] == tail[i]);
        }
        trimming_the_end(core, fewer);
    } else {
        assert(whole =~= core);
        assert(whole.last() == core.last());
    }
}

/// The runs of a text put one after the other are the text without the
/// characters that are not kept.
pub proof fn runs_hold_all_that_is_kept(text: Seq<char>, keep: spec_fn(char) -> bool)
    ensures
        runs(text, keep).flatten() == text.filter(keep),
    decreases text.len(),
{
    reveal(Seq::filter);
    if text.len() > 0 {
        let front = text.drop_last();
        let earlier = runs(front, keep);
        runs_hold_all_that_is_kept(front, keep);
        runs_are_kept(front, keep);
        if !keep(text.last()) {
        } else if text.len() >= 2 && keep(text[text.len() - 2]) {
            assert(front.last() == text[text.len() - 2]);
            let before = earlier.drop_last();
            let longer = earlier.last().push(text.last());
            assert(earlier =~= before.push(earlier.last()));
            assert(runs(text, keep) =~= before.push(longer));
            before.lemma_flatten_push(earlier.last());
            before.lemma_flatten_push(longer);
            assert(before.flatten() + longer =~= (before.flatten() + earlier.last()).push(
                text.last(),
            ));
        } else {
            earlier.lemma_flatten_push(seq![text.last()]);
            assert(earlier.flatten() + seq![text.last()] =~= earlier.flatten().push(text.last()));
        }
    } else {
        assert(runs(text, keep).flatten() =~= text.filter(keep));
    }
}

/// A character that is not kept parts what stands before it from what stands
/// behind it, and nothing else parts a run.
pub proof fn runs_end_where_a_character_is_not_kept(
    head: Seq<char>,
    between: char,
    rest: Seq<char>,
    keep: spec_fn(char) -> bool,
)
    requires
        !keep(between),
    ensures
        runs(head + seq![between] + rest, keep) == runs(head, keep) + runs(rest, keep),
        (forall|i: int| 0 <= i < head.len() ==> keep(#[trigger] head[i])) && head.len() > 0
            ==> runs(head, keep) == seq![head],
    decreases rest.len(),
{
    let whole = head + seq![between] + rest;
    if rest.len() == 0 {
        assert(whole.drop_last() =~= head);
        assert(whole.last() == between);
        assert(runs(head, keep) + runs(rest, keep) =~= runs(head, keep));
    } else {
        let less = rest.drop_last();
        runs_end_where_a_character_is_not_kept(head, between, less, keep);
        assert(whole.drop_last() =~= head + seq![between] + less);
        assert(whole.last() == rest.last());
        runs_are_kept(less, keep);
        if rest.len() >= 2 {
            assert(whole[whole.len() - 2] == rest[rest.len() - 2]);
            assert(less.last() == rest[rest.len() - 2]);
        } else {
            assert(whole[whole.len() - 2] == between);
        }
        assert(runs(whole, keep) =~= runs(head, keep) + runs(rest, keep));
    }
    if (forall|i: int| 0 <= i < head.len() ==> keep(#[trigger] head[i])) && head.len() > 0 {
        a_kept_text_is_one_run(head, keep);
    }
}

proof fn a_kept_text_is_one_run(text: Seq<char>, keep: spec_fn(char) -> bool)
    requires
        text.len() > 0,
        forall|i: int| 0 <= i < text.len() ==> keep(#[trigger] text[i]),
    ensures
        runs(text, keep) == seq![text],
    decreases text.len(),
{
    let front = text.drop_last();
    assert(keep(text[text.len() - 1]));
    if text.len() >= 2 {
        assert forall|i: int| 0 <= i < front.len() implies keep(#[trigger] front[i]) by {
            assert(front[i] == text[i]);
        }
        a_kept_text_is_one_run(front, keep);
        assert(keep(text[text.len() - 2]));
        assert(front.push(text.last()) =~= text);
        assert(runs(text, keep) =~= seq![text]);
    } else {
        assert(runs(front, keep) =~= Seq::empty());
        assert(seq![text.last()] =~= text);
        assert(runs(text, keep) =~= seq![text]);
    }
}

/// A text is one word exactly when, white space around it aside, it holds
/// something and no white space.
pub proof fn one_word_holds_no_white_space(text: Seq<char>)
    requires
        text.len() > 0,
        !white_space(text[0]),
        !white_space(text.last()),
    ensures
        words(text).len() == 1 <==> forall|i: int|
            0 <= i < text.len() ==> !white_space(#[trigger] text[i]),
{
    let keep = |c: char| !white_space(c);
    if forall|i: int| 0 <= i < text.len() ==> !white_space(#[trigger] text[i]) {
        assert forall|i: int| 0 <= i < text.len() implies keep(#[trigger] text[i]) by {}
        a_kept_text_is_one_run(text, keep);
    } else {
        let k = choose|i: int| 0 <= i < text.len() && white_space(#[trigger] text[i]);
        let head = text.take(k);
        let rest = text.skip(k + 1);
        assert(text =~= head + seq![text[k]] + rest);
        runs_end_where_a_character_is_not_kept(head, text[k], rest, keep);
        runs_from_the_start(head, keep);
        runs_are_kept(rest, keep);
        assert(rest.last() == text.last());
    }
}

proof fn runs_from_the_start(text: Seq<char>, keep: spec_fn(char) -> bool)
    requires
        text.len() > 0,
        keep(text[0]),
    ensures
        runs(text, keep).len() > 0,
    decreases text.len(),
{
    if text.len() > 1 {
        runs_from_the_start(text.drop_last(), keep);
    }
}

/// Two texts sort by the first character in which they differ, and a text sorts
/// before everything that goes on from it.
pub proof fn texts_sort_by_their_first_difference(a: Seq<char>, b: Seq<char>, same: int)
    requires
        0 <= same <= a.len(),
        same <= b.len(),
        a.take(same) == b.take(same),
    ensures
        same < a.len() && same < b.len() && (a[same] as int) < b[same] as int ==> before(a, b)
            && !before(b, a),
        same == a.len() && same < b.len() ==> before(a, b) && !before(b, a),
        same == a.len() && same == b.len() ==> !before(a, b) && !before(b, a),
    decreases same,
{
    if same > 0 {
        assert(a[0] == a.take(same)[0] && b[0] == b.take(same)[0]);
        assert(a.drop_first().take(same - 1) =~= a.take(same).drop_first());
        assert(b.drop_first().take(same - 1) =~= b.take(same).drop_first());
        texts_sort_by_their_first_difference(a.drop_first(), b.drop_first(), same - 1);
    }
}

/// A number below ten is written as one digit, a greater one as what it is
/// without its last digit and then that digit, and a negative one as its size
/// behind a minus sign.
pub proof fn numbers_are_written_in_decimal(n: nat)
    ensures
        n < 10 ==> decimal(n).len() == 1 && decimal(n)[0] as int == 0x30 + n,
        n >= 10 ==> decimal(n) == decimal(n / 10) + decimal(n % 10),
        signed_decimal(n as int) == decimal(n),
        n > 0 ==> signed_decimal(-(n as int)) == seq!['-'] + decimal(n),
{
    if n >= 10 {
        assert(decimal(n) =~= decimal(n / 10) + decimal(n % 10));
    }
}

/// A number that was written is read back as it was.
pub proof fn a_written_number_reads_back(n: nat)
    ensures
        digits_value(decimal(n)) == Some(n),
        unsigned_value(decimal(n)) == Some(n),
        signed_value(signed_decimal(n as int)) == Some(n as int),
        signed_value(signed_decimal(-(n as int))) == Some(-(n as int)),
        decimal(n).len() > 0,
        '0' <= decimal(n)[0] <= '9',
    decreases n,
{
    if n >= 10 {
        a_written_number_reads_back(n / 10);
        assert(decimal(n).drop_last() =~= decimal(n / 10));
        assert(n == (n / 10) * 10 + n % 10);
    }
    let negative = seq!['-'] + decimal(n);
    assert(negative.skip(1) =~= decimal(n));
}

/// A number is digits and nothing else, at least one of them, each worth ten
/// times what it would be worth one place further on; a plus sign before them
/// changes nothing.
pub proof fn numbers_are_read_in_decimal(digits: Seq<char>, last: char)
    ensures
        digits_value(Seq::empty()) is None,
        digits_value(digits) is Some <==> digits.len() > 0 && forall|i: int|
            0 <= i < digits.len() ==> 0x30 <= (#[trigger] digits[i]) as int <= 0x39,
        digits.len() == 0 && 0x30 <= last as int <= 0x39 ==> digits_value(digits.push(last))
            == Some((last as int - 0x30) as nat),
        digits_value(digits) matches Some(n) ==> 0x30 <= last as int <= 0x39 ==> digits_value(
            digits.push(last),
        ) == Some((n * 10 + (last as int - 0x30)) as nat),
        unsigned_value(seq!['+'] + digits) == digits_value(digits),
        digits.len() > 0 && digits[0] != '+' ==> unsigned_value(digits) == digits_value(digits),
        signed_value(seq!['-'] + digits) == (match digits_value(digits) {
            Some(n) => Some(-(n as int)),
            None => None,
        }),
        digits.len() > 0 && digits[0] != '-' ==> signed_value(digits) == (match unsigned_value(
            digits,
        ) {
            Some(n) => Some(n as int),
            None => None,
        }),
{
    only_digits_are_read(digits);
    assert(digits.push(last).drop_last() =~= digits);
    assert((seq!['+'] + digits).skip(1) =~= digits);
    assert((seq!['-'] + digits).skip(1) =~= digits);
}

proof fn only_digits_are_read(digits: Seq<char>)
    ensures
        digits_value(digits) is Some <==> digits.len() > 0 && forall|i: int|
            0 <= i < digits.len() ==> 0x30 <= (#[trigger] digits[i]) as int <= 0x39,
    decreases digits.len(),
{
    if digits.len() > 0 {
        let front = digits.drop_last();
        only_digits_are_read(front);
        let all = forall|i: int|
            0 <= i < digits.len() ==> 0x30 <= (#[trigger] digits[i]) as int <= 0x39;
        if digits_value(digits) is Some {
            assert forall|i: int| 0 <= i < digits.len() implies 0x30 <= (
            #[trigger] digits[i]) as int <= 0x39 by {
                if i < front.len() {
                    assert(front[i] == digits[i]);
                }
            }
        }
        if all {
            assert forall|i: int| 0 <= i < front.len() implies 0x30 <= (#[trigger] front[i]) as int
                <= 0x39 by {
                assert(front[i] == digits[i]);
            }
            let last = digits[digits.len() - 1];
            assert(0x30 <= last as int <= 0x39);
        }
    }
}

/// Hexadecimal digits count from zero to nine and then from `a`.
pub proof fn hexadecimal_digits_are_lower_case(n: int)
    requires
        0 <= n < 16,
    ensures
        n < 10 ==> hex_digit(n) as int == 0x30 + n,
        n >= 10 ==> hex_digit(n) as int == 0x57 + n,
{
}

/// White space is what Unicode calls that: inside ASCII the space and five
/// control characters, and beyond it nineteen more.
pub proof fn white_space_is_what_unicode_calls_that(c: char)
    ensures
        (c as int) < 0x80 ==> (white_space(c) <==> c as int == 0x20 || 0x09 <= c as int <= 0x0d),
        (c as int) >= 0x80 ==> (white_space(c) <==> seq![
            0x85int,
            0xa0,
            0x1680,
            0x2000,
            0x2001,
            0x2002,
            0x2003,
            0x2004,
            0x2005,
            0x2006,
            0x2007,
            0x2008,
            0x2009,
            0x200a,
            0x2028,
            0x2029,
            0x202f,
            0x205f,
            0x3000,
        ].contains(c as int)),
{
    let beyond = seq![
        0x85int,
        0xa0,
        0x1680,
        0x2000,
        0x2001,
        0x2002,
        0x2003,
        0x2004,
        0x2005,
        0x2006,
        0x2007,
        0x2008,
        0x2009,
        0x200a,
        0x2028,
        0x2029,
        0x202f,
        0x205f,
        0x3000,
    ];
    assert(beyond[0] == 0x85 && beyond[1] == 0xa0 && beyond[2] == 0x1680 && beyond[3] == 0x2000
        && beyond[4] == 0x2001 && beyond[5] == 0x2002 && beyond[6] == 0x2003 && beyond[7] == 0x2004
        && beyond[8] == 0x2005 && beyond[9] == 0x2006 && beyond[10] == 0x2007 && beyond[11]
        == 0x2008 && beyond[12] == 0x2009 && beyond[13] == 0x200a && beyond[14] == 0x2028
        && beyond[15] == 0x2029 && beyond[16] == 0x202f && beyond[17] == 0x205f && beyond[18]
        == 0x3000);
}

/// A unit outside the surrogates reads as the character it is, a pair of
/// surrogates as one character, and a surrogate in no pair as the replacement
/// character.
pub proof fn wide_text_reads_as_its_characters(first: u16, second: u16, rest: Seq<u16>)
    ensures
        utf16_text(Seq::empty()) == Seq::<char>::empty(),
        first < 0xd800 || first > 0xdfff ==> utf16_text(seq![first] + rest) == seq![first as char]
            + utf16_text(rest),
        0xd800 <= first <= 0xdbff && 0xdc00 <= second <= 0xdfff ==> utf16_text(
            seq![first, second] + rest,
        ) == seq![(0x1_0000 + (first - 0xd800) * 0x400 + (second - 0xdc00)) as char] + utf16_text(
            rest,
        ),
        0xdc00 <= first <= 0xdfff ==> utf16_text(seq![first] + rest) == seq!['\u{fffd}']
            + utf16_text(rest),
        0xd800 <= first <= 0xdbff && !(0xdc00 <= second <= 0xdfff) ==> utf16_text(
            seq![first, second] + rest,
        ) == seq!['\u{fffd}'] + utf16_text(seq![second] + rest),
{
    assert((seq![first] + rest).skip(1) =~= rest);
    assert((seq![first, second] + rest).skip(2) =~= rest);
    assert((seq![first, second] + rest).skip(1) =~= seq![second] + rest);
}

} // verus!
