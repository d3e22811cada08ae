//! JSON text, as far as the frames of this protocol need it.

use crate::text;
use vstd::prelude::*;

verus! {

/// How one character is written inside a JSON string.
pub open spec fn escaped(c: char) -> Seq<char> {
    let code = c as int;
    if c == '"' {
        seq!['\\', '"']
    } else if c == '\\' {
        seq!['\\', '\\']
    } else if code == 0x08 {
        seq!['\\', 'b']
    } else if code == 0x09 {
        seq!['\\', 't']
    } else if code == 0x0a {
        seq!['\\', 'n']
    } else if code == 0x0c {
        seq!['\\', 'f']
    } else if code == 0x0d {
        seq!['\\', 'r']
    } else if code < 0x20 {
        seq!['\\', 'u', '0', '0', text::hex_digit(code / 16), text::hex_digit(code % 16)]
    } else {
        seq![c]
    }
}

/// The inside of a JSON string.
pub open spec fn escapes(content: Seq<char>) -> Seq<char>
    decreases content.len(),
{
    if content.len() == 0 {
        Seq::empty()
    } else {
        escapes(content.drop_last()) + escaped(content.last())
    }
}

/// A JSON string.
pub open spec fn quoted(content: Seq<char>) -> Seq<char> {
    seq!['"'] + escapes(content) + seq!['"']
}

/// `serde_json::to_string` of a string never fails, and writes the JSON string
/// that `quoted` describes: quotes around it, the two-character escapes for the
/// quote, the backslash and five control characters, `\u00` and two hex digits
/// for the other control characters, and every other character as it is.
#[verifier::external_body]
pub(crate) fn quote(content: &str) -> (json: String)
    ensures
        json@ == quoted(content@),
{
    serde_json::to_string(content).unwrap_or_default()
}

/// One member of an object.
pub open spec fn member_of(name: Seq<char>, value: Seq<char>) -> Seq<char> {
    seq!['"'] + name + seq!['"', ':'] + value
}

/// An object with the given members.
pub open spec fn object_of(members: Seq<Seq<char>>) -> Seq<char> {
    seq!['{'] + text::joined(members, seq![',']) + seq!['}']
}

/// An array with the given elements.
pub open spec fn array_of(elements: Seq<Seq<char>>) -> Seq<char> {
    seq!['['] + text::joined(elements, seq![',']) + seq![']']
}

/// A truth value.
pub open spec fn boolean_of(value: bool) -> Seq<char> {
    if value {
        "true"@
    } else {
        "false"@
    }
}

/// A string or nothing.
pub open spec fn optional_text(content: Option<Seq<char>>) -> Seq<char> {
    match content {
        Some(content) => quoted(content),
        None => "null"@,
    }
}

/// A number or nothing.
pub open spec fn optional_number(n: Option<u32>) -> Seq<char> {
    match n {
        Some(n) => text::decimal(n as nat),
        None => "null"@,
    }
}

pub fn member(name: &str, value: String) -> (json: String)
    ensures
        json@ == member_of(name@, value@),
{
    let mut json = String::new();
    json.push('"');
    text::push_text(&mut json, name);
    json.push('"');
    json.push(':');
    text::push_text(&mut json, value.as_str());
    assert(json@ =~= member_of(name@, value@));
    json
}

fn join(pieces: &Vec<String>) -> (json: String)
    ensures
        json@ == text::joined(text::contents(pieces@), seq![',']),
{
    let ghost all = text::contents(pieces@);
    let mut json = String::new();
    let mut i: usize = 0;
    while i < pieces.len()
        invariant
            i <= pieces.len(),
            all == text::contents(pieces@),
            json@ == text::joined(all.take(i as int), seq![',']),
        decreases pieces.len() - i,
    {
        proof {
            text::joined_added(all.take(i as int), seq![','], all[i as int]);
            assert(all.take(i as int + 1) =~= all.take(i as int).push(all[i as int]));
        }
        if i > 0 {
            json.push(',');
        }
        text::push_text(&mut json, pieces[i].as_str());
        assert(json@ =~= text::joined(all.take(i as int + 1), seq![',']));
        i += 1;
    }
    assert(all.take(all.len() as int) =~= all);
    json
}

pub fn object(members: &Vec<String>) -> (json: String)
    ensures
        json@ == object_of(text::contents(members@)),
{
    let mut json = String::new();
    json.push('{');
    let inside = join(members);
    text::push_text(&mut json, inside.as_str());
    json.push('}');
    assert(json@ =~= object_of(text::contents(members@)));
    json
}

pub fn array(elements: &Vec<String>) -> (json: String)
    ensures
        json@ == array_of(text::contents(elements@)),
{
    let mut json = String::new();
    json.push('[');
    let inside = join(elements);
    text::push_text(&mut json, inside.as_str());
    json.push(']');
    assert(json@ =~= array_of(text::contents(elements@)));
    json
}

pub fn boolean(value: bool) -> (json: String)
    ensures
        json@ == boolean_of(value),
{
    if value {
        "true".to_owned()
    } else {
        "false".to_owned()
    }
}

pub fn unsigned(n: u64) -> (json: String)
    ensures
        json@ == text::decimal(n as nat),
{
    let mut json = String::new();
    text::push_decimal(&mut json, n);
    assert(json@ =~= text::decimal(n as nat));
    json
}

pub fn signed(n: i64) -> (json: String)
    ensures
        json@ == text::signed_decimal(n as int),
{
    let mut json = String::new();
    text::push_signed(&mut json, n);
    assert(json@ =~= text::signed_decimal(n as int));
    json
}

pub fn text_or_null(content: &Option<String>) -> (json: String)
    ensures
        json@ == optional_text(text::optional(*content)),
{
    match content {
        Some(content) => quote(content.as_str()),
        None => "null".to_owned(),
    }
}

pub fn number_or_null(n: Option<u32>) -> (json: String)
    ensures
        json@ == optional_number(n),
{
    match n {
        Some(n) => unsigned(n as u64),
        None => "null".to_owned(),
    }
}

// ---------------------------------------------------------------------------
// JSON text stays on one line
// ---------------------------------------------------------------------------

/// Whether a text holds no line break.
pub open spec fn one_line(content: Seq<char>) -> bool {
    forall|i: int| 0 <= i < content.len() ==> #[trigger] content[i] != '\n'
}

proof fn escaped_is_one_line(c: char)
    ensures
        one_line(escaped(c)),
{
    let code = c as int;
    if code < 0x20 {
        assert(0 <= code / 16 < 2 && 0 <= code % 16 < 16);
        assert(text::hex_digit(code / 16) != '\n' && text::hex_digit(code % 16) != '\n');
    }
}

pub proof fn quoted_is_one_line(content: Seq<char>)
    ensures
        one_line(escapes(content)),
        one_line(quoted(content)),
    decreases content.len(),
{
    if content.len() > 0 {
        quoted_is_one_line(content.drop_last());
        escaped_is_one_line(content.last());
    }
}

pub proof fn decimal_is_one_line(n: nat)
    ensures
        one_line(text::decimal(n)),
    decreases n,
{
    if n >= 10 {
        decimal_is_one_line(n / 10);
    }
}

pub proof fn signed_is_one_line(n: int)
    ensures
        one_line(text::signed_decimal(n)),
{
    if n < 0 {
        decimal_is_one_line((-n) as nat);
    } else {
        decimal_is_one_line(n as nat);
    }
}

pub proof fn values_are_one_line(flag: bool, content: Option<Seq<char>>, n: Option<u32>)
    ensures
        one_line(boolean_of(flag)),
        one_line(optional_text(content)),
        one_line(optional_number(n)),
{
    reveal_strlit("true");
    reveal_strlit("false");
    reveal_strlit("null");
    if let Some(content) = content {
        quoted_is_one_line(content);
    }
    if let Some(n) = n {
        decimal_is_one_line(n as nat);
    }
}

pub proof fn joined_is_one_line(pieces: Seq<Seq<char>>)
    requires
        forall|i: int| 0 <= i < pieces.len() ==> one_line(#[trigger] pieces[i]),
    ensures
        one_line(text::joined(pieces, seq![','])),
        one_line(object_of(pieces)),
        one_line(array_of(pieces)),
    decreases pieces.len(),
{
    if pieces.len() >= 2 {
        joined_is_one_line(pieces.drop_last());
        assert(one_line(pieces[pieces.len() - 1]));
        let front = text::joined(pieces.drop_last(), seq![',']);
        assert(text::joined(pieces, seq![',']) =~= front + seq![','] + pieces.last());
    } else if pieces.len() == 1 {
        assert(one_line(pieces[0]));
    }
}

// ---------------------------------------------------------------------------
// How JSON is put together
// ---------------------------------------------------------------------------

/// A member is its name in quotes, a colon and its value; an object its members
/// in braces and an array its elements in brackets, commas between them.
pub proof fn json_is_put_together_like_this(
    name: Seq<char>,
    value: Seq<char>,
    pieces: Seq<Seq<char>>,
)
    ensures
        ({
            let member = member_of(name, value);
            let n = name.len() as int;
            &&& member.len() == n + 3 + value.len()
            &&& member[0] == '"'
            &&& member.subrange(1, n + 1) == name
            &&& member[n + 1] == '"'
            &&& member[n + 2] == ':'
            &&& member.skip(n + 3) == value
        }),
        object_of(pieces) == seq!['{'] + text::joined(pieces, seq![',']) + seq!['}'],
        array_of(pieces) == seq!['['] + text::joined(pieces, seq![',']) + seq![']'],
        array_of(Seq::empty()) == seq!['[', ']'],
{
    assert(array_of(Seq::empty()) =~= seq!['[', ']']);
    let member = member_of(name, value);
    let n = name.len() as int;
    assert(member.subrange(1, n + 1) =~= name);
    assert(member.skip(n + 3) =~= value);
}

/// What is there is written, and what is not is null.
pub proof fn what_is_missing_is_null(content: Seq<char>, n: u32)
    ensures
        boolean_of(true) == "true"@,
        boolean_of(false) == "false"@,
        optional_text(Some(content)) == quoted(content),
        optional_text(None) == "null"@,
        optional_number(Some(n)) == text::decimal(n as nat),
        optional_number(None) == "null"@,
{
}

/// A text without quotes, backslashes and control characters stands in a JSON
/// string as it is.
pub proof fn plain_text_is_quoted_as_it_is(content: Seq<char>)
    requires
        forall|i: int|
            0 <= i < content.len() ==> (#[trigger] content[i]) as int >= 0x20 && content[i] != '"'
                && content[i] != '\\',
    ensures
        escapes(content) == content,
        quoted(content) == seq!['"'] + content + seq!['"'],
    decreases content.len(),
{
    if content.len() > 0 {
        let front = content.drop_last();
        assert forall|i: int| 0 <= i < front.len() implies (#[trigger] front[i]) as int >= 0x20
            && front[i] != '"' && front[i] != '\\' by {
            assert(front[i] == content[i]);
        }
        plain_text_is_quoted_as_it_is(front);
        let last = content[content.len() - 1];
        assert(escaped(last) =~= seq![last]);
        assert(front + seq![last] =~= content);
    } else {
        assert(escapes(content) =~= content);
    }
}

} // verus!
