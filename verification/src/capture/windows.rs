//! What the formats of a Windows clipboard hold.
//!
//! Windows frames some content in ways of its own: text is UTF-16 up to a
//! terminator, HTML comes behind a header of byte offsets, and a picture is a
//! bitmap file without its file header. All of it is undone here, so that what
//! is archived is what any other platform would have archived.

use crate::capture;
use crate::text;
use vstd::prelude::*;

verus! {

// ---------------------------------------------------------------------------
// Text
// ---------------------------------------------------------------------------

/// The little-endian pairs of some bytes, an odd last byte aside.
pub open spec fn units(bytes: Seq<u8>) -> Seq<u16> {
    Seq::new(
        bytes.len() / 2,
        |i: int| (bytes[2 * i] as int + 256 * bytes[2 * i + 1] as int) as u16,
    )
}

/// How many units there are before the first zero.
pub open spec fn terminated(all: Seq<u16>) -> int
    decreases all.len(),
{
    if all.len() == 0 || all[0] == 0 {
        0
    } else {
        1 + terminated(all.drop_first())
    }
}

proof fn terminated_is(all: Seq<u16>, place: int)
    requires
        0 <= place <= all.len(),
        forall|i: int| 0 <= i < place ==> #[trigger] all[i] != 0,
        place < all.len() ==> all[place] == 0,
    ensures
        terminated(all) == place,
    decreases all.len(),
{
    if place > 0 {
        let rest = all.drop_first();
        assert(all[0] != 0);
        assert forall|i: int| 0 <= i < place - 1 implies #[trigger] rest[i] != 0 by {
            assert(all[i + 1] != 0);
        }
        terminated_is(rest, place - 1);
    }
}

/// Turns a UTF-16 clipboard string into UTF-8, dropping the terminator.
pub fn utf16_to_utf8(bytes: &[u8]) -> (content: Vec<u8>)
    ensures
        content@ == vstd::utf8::encode_utf8(
            text::utf16_text(units(bytes@).take(terminated(units(bytes@)))),
        ),
{
    let ghost all = units(bytes@);
    let mut read: Vec<u16> = Vec::new();
    let mut i: usize = 0;
    let count: usize = bytes.len() / 2;
    while i < count
        invariant
            i <= count == bytes.len() / 2,
            all == units(bytes@),
            read@ == all.take(i as int),
            forall|k: int| 0 <= k < i ==> #[trigger] all[k] != 0,
        decreases count - i,
    {
        let low: u8 = bytes[2 * i];
        let high: u8 = bytes[2 * i + 1];
        let unit: u16 = low as u16 + 256 * high as u16;
        assert(all[i as int] == unit);
        if unit == 0 {
            proof {
                terminated_is(all, i as int);
            }
            let decoded = text::utf16_text_lossy(&read);
            return bytes_of(decoded.as_str());
        }
        read.push(unit);
        assert(read@ =~= all.take(i as int + 1));
        i += 1;
    }
    proof {
        terminated_is(all, i as int);
    }
    let decoded = text::utf16_text_lossy(&read);
    bytes_of(decoded.as_str())
}

fn bytes_of(content: &str) -> (bytes: Vec<u8>)
    ensures
        bytes@ == vstd::utf8::encode_utf8(content@),
{
    let mut bytes: Vec<u8> = Vec::new();
    bytes.extend_from_slice(content.as_bytes());
    assert(bytes@ =~= vstd::utf8::encode_utf8(content@));
    bytes
}

/// How many bytes there are before the first zero.
pub open spec fn zero_place(bytes: Seq<u8>) -> int
    decreases bytes.len(),
{
    if bytes.len() == 0 || bytes[0] == 0 {
        0
    } else {
        1 + zero_place(bytes.drop_first())
    }
}

proof fn zero_place_is(bytes: Seq<u8>, place: int)
    requires
        0 <= place <= bytes.len(),
        forall|i: int| 0 <= i < place ==> #[trigger] bytes[i] != 0,
        place < bytes.len() ==> bytes[place] == 0,
    ensures
        zero_place(bytes) == place,
    decreases bytes.len(),
{
    if place > 0 {
        let rest = bytes.drop_first();
        assert(bytes[0] != 0);
        assert forall|i: int| 0 <= i < place - 1 implies #[trigger] rest[i] != 0 by {
            assert(bytes[i + 1] != 0);
        }
        zero_place_is(rest, place - 1);
    }
}

/// Drops the terminator of a clipboard string and everything behind it.
pub fn trim_nul(bytes: Vec<u8>) -> (content: Vec<u8>)
    ensures
        content@ == bytes@.take(zero_place(bytes@)),
{
    let mut content = bytes;
    let mut end: usize = 0;
    while end < content.len() && content[end] != 0
        invariant
            end <= content.len(),
            content@ == bytes@,
            forall|i: int| 0 <= i < end ==> #[trigger] content@[i] != 0,
        decreases content.len() - end,
    {
        end += 1;
    }
    proof {
        zero_place_is(content@, end as int);
    }
    content.truncate(end);
    assert(content@ =~= bytes@.take(end as int));
    content
}

// ---------------------------------------------------------------------------
// HTML
// ---------------------------------------------------------------------------

/// Whether a line that begins with a key begins at a place.
pub open spec fn key_at(header: Seq<char>, key: Seq<char>, i: int) -> bool {
    (i == 0 || header[i - 1] == '\n') && text::starts_with(header.skip(i), key)
}

/// How many characters there are before the next line break.
pub open spec fn line_end(header: Seq<char>) -> int
    decreases header.len(),
{
    if header.len() == 0 || header[0] == '\n' {
        0
    } else {
        1 + line_end(header.drop_first())
    }
}

/// The number the first line with a key states, if it states one.
pub open spec fn offset_from(header: Seq<char>, key: Seq<char>, i: int) -> Option<nat>
    decreases header.len() - i,
{
    if i < 0 || i >= header.len() {
        None
    } else if key_at(header, key, i) {
        let rest = header.skip(i + key.len());
        match text::unsigned_value(text::trim(rest.take(line_end(rest)))) {
            Some(n) => if n <= usize::MAX {
                Some(n)
            } else {
                None
            },
            None => None,
        }
    } else {
        offset_from(header, key, i + 1)
    }
}

/// The number the first line with a key states, if it states one.
pub open spec fn offset(header: Seq<char>, key: Seq<char>) -> Option<nat> {
    offset_from(header, key, 0)
}

/// Whether the header of a document states that the document lies between two
/// places of the buffer.
pub open spec fn framed(bytes: Seq<u8>, start: nat, end: nat) -> bool {
    &&& offset(text::lossy_text(bytes), "StartFragment:"@) == Some(start)
    &&& offset(text::lossy_text(bytes), "EndFragment:"@) == Some(end)
    &&& start < end <= bytes.len()
}

/// A document without its header, where the header says where that is.
pub open spec fn fragment(bytes: Seq<u8>) -> Seq<u8> {
    let header = text::lossy_text(bytes);
    match (offset(header, "StartFragment:"@), offset(header, "EndFragment:"@)) {
        (Some(start), Some(end)) => if start < end && end <= bytes.len() {
            bytes.subrange(start as int, end as int)
        } else {
            bytes
        },
        _ => bytes,
    }
}

proof fn line_end_is(header: Seq<char>, place: int)
    requires
        0 <= place <= header.len(),
        forall|i: int| 0 <= i < place ==> #[trigger] header[i] != '\n',
        place < header.len() ==> header[place] == '\n',
    ensures
        line_end(header) == place,
    decreases header.len(),
{
    if place > 0 {
        let rest = header.drop_first();
        assert(header[0] != '\n');
        assert forall|i: int| 0 <= i < place - 1 implies #[trigger] rest[i] != '\n' by {
            assert(header[i + 1] != '\n');
        }
        line_end_is(rest, place - 1);
    }
}

/// The number some line states behind its key.
fn stated(header: &[char], from: usize) -> (value: Option<u64>)
    requires
        from <= header@.len(),
    ensures
        ({
            let rest = header@.skip(from as int);
            let number = text::unsigned_value(text::trim(rest.take(line_end(rest))));
            match value {
                Some(n) => number == Some(n as nat) && n <= usize::MAX,
                None => number matches Some(n) ==> n > usize::MAX,
            }
        }),
{
    let ghost rest = header@.skip(from as int);
    let mut end: usize = from;
    while end < header.len() && header[end] != '\n'
        invariant
            from <= end <= header.len(),
            rest == header@.skip(from as int),
            forall|i: int| 0 <= i < end - from ==> #[trigger] rest[i] != '\n',
        decreases header.len() - end,
    {
        assert(rest[end - from] == header@[end as int]);
        end += 1;
    }
    proof {
        if end < header.len() {
            assert(rest[end - from] == header@[end as int]);
        }
        line_end_is(rest, end - from);
    }
    let line = text::slice_of(header, from, end);
    assert(line@ =~= rest.take(end - from));
    let number = text::trimmed(&line);
    text::parse_unsigned(&number, usize::MAX as u64)
}

fn find_offset(header: &[char], key: &str) -> (value: Option<u64>)
    ensures
        match value {
            Some(n) => offset(header@, key@) == Some(n as nat),
            None => offset(header@, key@) is None,
        },
{
    let length: usize = text::chars_of(key).len();
    let mut i: usize = 0;
    while i < header.len()
        invariant
            i <= header.len(),
            length == key@.len(),
            offset(header@, key@) == offset_from(header@, key@, i as int),
        decreases header.len() - i,
    {
        if i == 0 || header[i - 1] == '\n' {
            let rest = text::slice_of(header, i, header.len());
            assert(rest@ =~= header@.skip(i as int));
            if text::begins(&rest, key) {
                assert(key_at(header@, key@, i as int));
                return stated(header, i + length);
            }
        }
        i += 1;
    }
    None
}

/// Strips the `CF_HTML` header, which is Windows-specific framing rather than
/// part of the document.
///
/// The header states where the fragment starts and ends as byte offsets into
/// the whole buffer; anything outside them is context the source added. Without
/// a usable header the whole buffer is the best guess.
pub fn strip_cf_html(bytes: Vec<u8>) -> (content: Vec<u8>)
    ensures
        content@ == fragment(bytes@),
{
    let header = text::utf8_text_lossy(&bytes);
    let chars = text::chars_of(header.as_str());
    match (find_offset(&chars, "StartFragment:"), find_offset(&chars, "EndFragment:")) {
        (Some(start), Some(end)) => {
            if start < end && end <= bytes.len() as u64 {
                let mut content: Vec<u8> = Vec::new();
                let inside = vstd::slice::slice_subrange(
                    bytes.as_slice(),
                    start as usize,
                    end as usize,
                );
                content.extend_from_slice(inside);
                assert(content@ =~= bytes@.subrange(start as int, end as int));
                content
            } else {
                bytes
            }
        },
        _ => bytes,
    }
}

// ---------------------------------------------------------------------------
// Pictures
// ---------------------------------------------------------------------------

/// A number as little-endian bytes, as far as four reach.
pub open spec fn four(n: int) -> Seq<u8> {
    seq![
        (n % 256) as u8,
        (n / 256 % 256) as u8,
        (n / 65536 % 256) as u8,
        (n / 16777216 % 256) as u8,
    ]
}

/// The number four little-endian bytes write.
pub open spec fn number(bytes: Seq<u8>, at: int) -> int {
    bytes[at] + 256 * bytes[at + 1] + 65536 * bytes[at + 2] + 16777216 * bytes[at + 3]
}

/// The number two little-endian bytes write.
pub open spec fn small_number(bytes: Seq<u8>, at: int) -> int {
    bytes[at] + 256 * bytes[at + 1]
}

/// How many bytes a bitmap has between its info header and its pixels: a
/// palette at up to eight bits a pixel, and three masks at sixteen or
/// thirty-two where the header says so.
pub open spec fn palette(dib: Seq<u8>) -> int {
    let bits = small_number(dib, 14);
    let used = number(dib, 32);
    if bits == 1 {
        if used == 0 {
            8
        } else {
            used * 4
        }
    } else if bits == 4 {
        if used == 0 {
            64
        } else {
            used * 4
        }
    } else if bits == 8 {
        if used == 0 {
            1024
        } else {
            used * 4
        }
    } else if (bits == 16 || bits == 32) && number(dib, 16) == 3 {
        12
    } else {
        0
    }
}

/// The size of a bitmap's file header.
pub const FILE_HEADER: u64 = 14;

/// The shortest info header.
pub const INFO_HEADER: usize = 40;

/// The file a device-independent bitmap is the body of.
pub open spec fn bitmap_file(dib: Seq<u8>) -> Seq<u8> {
    seq![0x42u8, 0x4du8] + four(FILE_HEADER + dib.len()) + seq![0u8, 0u8, 0u8, 0u8] + four(
        FILE_HEADER + number(dib, 0) + palette(dib),
    ) + dib
}

fn read_number(bytes: &Vec<u8>, at: usize) -> (n: u64)
    requires
        at + 4 <= bytes@.len(),
    ensures
        n == number(bytes@, at as int),
        n <= 0xffff_ffff,
{
    let length: usize = bytes.len();
    assert(at + 4 <= length);
    bytes[at] as u64 + 256 * bytes[at + 1] as u64 + 65536 * bytes[at + 2] as u64 + 16777216
        * bytes[at + 3] as u64
}

fn push_four(bytes: &mut Vec<u8>, n: u64)
    ensures
        final(bytes)@ == old(bytes)@ + four(n as int),
{
    bytes.push((n % 256) as u8);
    bytes.push((n / 256 % 256) as u8);
    bytes.push((n / 65536 % 256) as u8);
    bytes.push((n / 16777216 % 256) as u8);
    assert(bytes@ =~= old(bytes)@ + four(n as int));
}

/// Rebuilds a `.bmp` file from a device-independent bitmap.
///
/// `CF_DIB` is the file without its fourteen-byte header, which is why a
/// screenshot pasted from the clipboard needs one put back before anything
/// else can read it. One too short for its own header is none.
pub fn dib_to_bmp(dib: Vec<u8>) -> (bmp: Option<Vec<u8>>)
    requires
        dib@.len() <= u64::MAX - FILE_HEADER,
    ensures
        match bmp {
            Some(bmp) => dib@.len() >= INFO_HEADER && bmp@ == bitmap_file(dib@),
            None => dib@.len() < INFO_HEADER,
        },
{
    if dib.len() < INFO_HEADER {
        return None;
    }
    let header_size: u64 = read_number(&dib, 0);
    let bits: u64 = dib[14] as u64 + 256 * dib[15] as u64;
    let compression: u64 = read_number(&dib, 16);
    let used: u64 = read_number(&dib, 32);
    // The palette sits between the info header and the pixels; at 16 and 32
    // bits per pixel a BI_BITFIELDS image has three masks there instead.
    let palette: u64 = if bits == 1 || bits == 4 || bits == 8 {
        if used != 0 {
            used * 4
        } else if bits == 1 {
            8
        } else if bits == 4 {
            64
        } else {
            1024
        }
    } else if (bits == 16 || bits == 32) && compression == 3 {
        12
    } else {
        0
    };
    let mut bmp: Vec<u8> = Vec::new();
    bmp.push(0x42);
    bmp.push(0x4d);
    push_four(&mut bmp, FILE_HEADER + dib.len() as u64);
    bmp.push(0);
    bmp.push(0);
    bmp.push(0);
    bmp.push(0);
    push_four(&mut bmp, FILE_HEADER + header_size + palette);
    bmp.extend_from_slice(dib.as_slice());
    assert(bmp@ =~= bitmap_file(dib@));
    Some(bmp)
}

/// The bitmap is behind its new file header unchanged, and the header is as
/// long as it says.
pub proof fn a_bitmap_file_holds_the_bitmap(dib: Seq<u8>)
    ensures
        bitmap_file(dib).len() == FILE_HEADER + dib.len(),
        bitmap_file(dib).skip(FILE_HEADER as int) == dib,
{
    assert(bitmap_file(dib).skip(FILE_HEADER as int) =~= dib);
}

// ---------------------------------------------------------------------------
// What a clipboard offers
// ---------------------------------------------------------------------------

/// Whether the formats a clipboard offers say that its contents are a secret:
/// `excluded` that the format with which programs keep content out of clipboard
/// monitors is there at all, `history` what the format holds that is zero where
/// content may not be kept.
pub fn concealed(excluded: bool, history: Option<&[u8]>) -> (answer: bool)
    ensures
        answer == (excluded || (history matches Some(value) && value@.len() >= 4 && value@[0] == 0
            && value@[1] == 0 && value@[2] == 0 && value@[3] == 0)),
{
    if excluded {
        return true;
    }
    match history {
        // A DWORD of zero means "do not keep this".
        Some(value) => value.len() >= 4 && value[0] == 0 && value[1] == 0 && value[2] == 0
            && value[3] == 0,
        None => false,
    }
}

/// What a clipboard holds in the formats that are read first. A text format is
/// `None` where the clipboard does not offer it, and holds nothing where it
/// could not be read.
pub struct Formats {
    pub png: Option<Vec<u8>>,
    pub html: Option<Vec<u8>>,
    pub unicode: Option<Option<Vec<u8>>>,
    pub ansi: Option<Option<Vec<u8>>>,
}

/// The representations those formats make: the registered formats first, since
/// they carry the richest content, and text in the better of its two encodings.
pub open spec fn first_parts(formats: Formats) -> Seq<capture::OfferView> {
    let rich = capture::pushed(
        capture::pushed(
            Seq::empty(),
            "image/png"@,
            crate::store::thumb::optional_bytes(formats.png),
        ),
        "text/html"@,
        match formats.html {
            Some(html) => Some(fragment(html@)),
            None => None,
        },
    );
    match (formats.unicode, formats.ansi) {
        (Some(unicode), _) => capture::pushed(
            rich,
            "text/plain;charset=utf-8"@,
            match unicode {
                Some(bytes) => Some(
                    vstd::utf8::encode_utf8(
                        text::utf16_text(units(bytes@).take(terminated(units(bytes@)))),
                    ),
                ),
                None => None,
            },
        ),
        (None, Some(ansi)) => capture::pushed(
            rich,
            "text/plain"@,
            match ansi {
                Some(bytes) => Some(bytes@.take(zero_place(bytes@))),
                None => None,
            },
        ),
        (None, None) => rich,
    }
}

/// Turns what a clipboard holds into representations worth keeping.
pub fn read_opened(formats: Formats) -> (parts: Vec<capture::Offer>)
    ensures
        capture::offer_views(parts@) == first_parts(formats),
        forall|k: int, start: nat, end: nat|
            0 <= k < parts@.len() && (#[trigger] parts@[k]).0@ == "text/html"@
                && formats.html is Some && #[trigger] framed(formats.html->0@, start, end)
                ==> parts@[k].1@ == formats.html->0@.subrange(start as int, end as int),
{
    let ghost whole = formats;
    let mut parts: Vec<capture::Offer> = Vec::new();
    assert(capture::offer_views(parts@) =~= Seq::empty());
    capture::push(&mut parts, "image/png", formats.png);
    let html: Option<Vec<u8>> = match formats.html {
        Some(html) => Some(strip_cf_html(html)),
        None => None,
    };
    capture::push(&mut parts, "text/html", html);
    match formats.unicode {
        Some(unicode) => {
            let content: Option<Vec<u8>> = match unicode {
                Some(bytes) => Some(utf16_to_utf8(&bytes)),
                None => None,
            };
            capture::push(&mut parts, "text/plain;charset=utf-8", content);
        },
        None => {
            if let Some(ansi) = formats.ansi {
                let content: Option<Vec<u8>> = match ansi {
                    Some(bytes) => Some(trim_nul(bytes)),
                    None => None,
                };
                capture::push(&mut parts, "text/plain", content);
            }
        },
    }
    proof {
        html_is_kept_without_its_header(whole);
        assert forall|k: int| 0 <= k < parts@.len() implies #[trigger] parts@[k].1@
            == first_parts(whole)[k].1 && parts@[k].0@ == first_parts(whole)[k].0 by {
            assert(capture::offer_views(parts@)[k] == (parts@[k].0@, parts@[k].1@));
        }
    }
    parts
}

/// Whether the bitmap a clipboard offers is worth reading: only where no PNG
/// was kept. A screenshot usually arrives as a bitmap, and storing both would
/// be the same picture twice.
pub fn wants_bitmap(parts: &Vec<capture::Offer>) -> (answer: bool)
    ensures
        answer == !exists|i: int|
            0 <= i < parts@.len() && (#[trigger] capture::offer_views(parts@)[i]).0
                == "image/png"@,
{
    let mut i: usize = 0;
    while i < parts.len()
        invariant
            i <= parts.len(),
            forall|k: int|
                0 <= k < i ==> (#[trigger] capture::offer_views(parts@)[k]).0 != "image/png"@,
        decreases parts.len() - i,
    {
        if text::same(parts[i].0.as_str(), "image/png") {
            assert(capture::offer_views(parts@)[i as int].0 == "image/png"@);
            return false;
        }
        i += 1;
    }
    true
}

/// Adds the bitmap a clipboard offers, as the file it is the body of.
pub fn add_bitmap(parts: &mut Vec<capture::Offer>, dib: Option<Vec<u8>>)
    requires
        dib matches Some(dib) ==> dib@.len() <= u64::MAX - FILE_HEADER,
    ensures
        capture::offer_views(final(parts)@) == capture::pushed(
            capture::offer_views(old(parts)@),
            "image/bmp"@,
            match dib {
                Some(dib) => if dib@.len() >= INFO_HEADER {
                    Some(bitmap_file(dib@))
                } else {
                    None
                },
                None => None,
            },
        ),
{
    let bmp: Option<Vec<u8>> = match dib {
        Some(dib) => dib_to_bmp(dib),
        None => None,
    };
    capture::push(parts, "image/bmp", bmp);
}

// ---------------------------------------------------------------------------
// What reading a clipboard promises
// ---------------------------------------------------------------------------

/// The document a clipboard holds as HTML is archived without its header: where
/// the header states offsets that lie in the buffer, exactly the bytes between
/// them, and the whole buffer otherwise. It is archived once, and not at all
/// where there is none.
pub proof fn html_is_kept_without_its_header(formats: Formats)
    ensures
        ({
            let kept = first_parts(formats);
            let start = offset(text::lossy_text(formats.html->0@), "StartFragment:"@);
            let end = offset(text::lossy_text(formats.html->0@), "EndFragment:"@);
            let whole = formats.html->0@;
            let usable = start is Some && end is Some && start->0 < end->0 && end->0 <= whole.len();
            &&& formats.html is Some && usable ==> kept.contains(
                ("text/html"@, whole.subrange(start->0 as int, end->0 as int)),
            )
            &&& formats.html is Some && !usable && whole.len() > 0 ==> kept.contains(
                ("text/html"@, whole),
            )
            &&& forall|k: int|
                0 <= k < kept.len() && (#[trigger] kept[k]).0 == "text/html"@ ==> {
                    &&& formats.html is Some
                    &&& kept[k].1.len() > 0
                    &&& usable ==> kept[k].1 == whole.subrange(start->0 as int, end->0 as int)
                    &&& !usable ==> kept[k].1 == whole
                }
            &&& forall|k: int, n: int|
                0 <= k < n < kept.len() ==> (#[trigger] kept[k]).0 != (#[trigger] kept[n]).0
        }),
{
    names_of_what_is_kept();
    let kept = first_parts(formats);
    let first = capture::pushed(
        Seq::empty(),
        "image/png"@,
        crate::store::thumb::optional_bytes(formats.png),
    );
    if let Some(html) = formats.html {
        let inside = fragment(html@);
        if inside.len() > 0 {
            assert(kept[first.len() as int] == ("text/html"@, inside));
        }
    }
}

proof fn names_of_what_is_kept()
    ensures
        "image/png"@[0] == 'i',
        "text/html"@.len() == 9,
        "text/html"@[0] == 't',
        "text/plain"@.len() == 10,
        "text/plain"@[0] == 't',
        "text/plain;charset=utf-8"@.len() == 24,
        "text/plain;charset=utf-8"@[0] == 't',
{
    reveal_strlit("image/png");
    reveal_strlit("text/html");
    reveal_strlit("text/plain");
    reveal_strlit("text/plain;charset=utf-8");
}

/// Everything a clipboard holds in the formats read first is archived: its PNG
/// as it is, its text in the wide encoding where that is offered and in the
/// narrow one otherwise, both without their terminator. What holds nothing is
/// not archived, and nothing else is.
pub proof fn every_format_is_kept_under_its_mime_type(formats: Formats)
    ensures
        ({
            let kept = first_parts(formats);
            &&& kept.len() <= 3
            &&& formats.png matches Some(png) ==> png@.len() > 0 ==> kept.contains(
                ("image/png"@, png@),
            )
            &&& formats.unicode matches Some(Some(wide)) ==> {
                let content = vstd::utf8::encode_utf8(
                    text::utf16_text(units(wide@).take(terminated(units(wide@)))),
                );
                content.len() > 0 ==> kept.contains(("text/plain;charset=utf-8"@, content))
            }
            &&& formats.unicode is None ==> (formats.ansi matches Some(Some(narrow))
                ==> narrow@.take(zero_place(narrow@)).len() > 0 ==> kept.contains(
                ("text/plain"@, narrow@.take(zero_place(narrow@))),
            ))
            &&& forall|k: int|
                0 <= k < kept.len() ==> {
                    &&& (#[trigger] kept[k]).1.len() > 0
                    &&& {
                        ||| kept[k].0 == "image/png"@ && formats.png is Some && kept[k].1
                            == formats.png->0@
                        ||| kept[k].0 == "text/html"@ && formats.html is Some
                        ||| kept[k].0 == "text/plain;charset=utf-8"@ && formats.unicode is Some
                            && formats.unicode->0 is Some && kept[k].1 == vstd::utf8::encode_utf8(
                            text::utf16_text(
                                units(formats.unicode->0->0@).take(
                                    terminated(units(formats.unicode->0->0@)),
                                ),
                            ),
                        )
                        ||| kept[k].0 == "text/plain"@ && formats.unicode is None
                            && formats.ansi is Some && formats.ansi->0 is Some && kept[k].1
                            == formats.ansi->0->0@.take(zero_place(formats.ansi->0->0@))
                    }
                }
        }),
{
    let kept = first_parts(formats);
    let first = capture::pushed(
        Seq::empty(),
        "image/png"@,
        crate::store::thumb::optional_bytes(formats.png),
    );
    if first.len() > 0 {
        assert(kept[0] == first[0]);
    }
    if formats.unicode is Some || formats.ansi is Some {
        assert(kept.len() > 0 ==> kept[kept.len() - 1] == kept.last());
    }
}

/// A clipboard string is what stands before its first zero, and all of it where
/// there is none.
pub proof fn a_string_ends_at_its_terminator(
    wide: Seq<u16>,
    narrow: Seq<u8>,
    rest: Seq<u16>,
    more: Seq<u8>,
)
    requires
        forall|i: int| 0 <= i < wide.len() ==> #[trigger] wide[i] != 0,
        forall|i: int| 0 <= i < narrow.len() ==> #[trigger] narrow[i] != 0,
    ensures
        terminated(wide) == wide.len(),
        terminated(wide + seq![0u16] + rest) == wide.len(),
        (wide + seq![0u16] + rest).take(wide.len() as int) == wide,
        zero_place(narrow) == narrow.len(),
        zero_place(narrow + seq![0u8] + more) == narrow.len(),
        (narrow + seq![0u8] + more).take(narrow.len() as int) == narrow,
{
    terminated_is(wide, wide.len() as int);
    terminated_is(wide + seq![0u16] + rest, wide.len() as int);
    zero_place_is(narrow, narrow.len() as int);
    zero_place_is(narrow + seq![0u8] + more, narrow.len() as int);
    assert((wide + seq![0u16] + rest).take(wide.len() as int) =~= wide);
    assert((narrow + seq![0u8] + more).take(narrow.len() as int) =~= narrow);
}

/// Wide text is read in pairs of bytes, the low one first, and an odd byte at
/// the end is left out.
pub proof fn wide_text_is_little_endian(bytes: Seq<u8>)
    ensures
        2 * units(bytes).len() == bytes.len() || 2 * units(bytes).len() + 1 == bytes.len(),
        forall|i: int|
            0 <= i < units(bytes).len() ==> #[trigger] units(bytes)[i] == bytes[2 * i] + 256
                * bytes[2 * i + 1],
{
    assert forall|i: int| 0 <= i < units(bytes).len() implies #[trigger] units(bytes)[i] == bytes[2
        * i] + 256 * bytes[2 * i + 1] by {
        assert(0 <= bytes[2 * i] + 256 * bytes[2 * i + 1] <= 0xffff);
    }
}

/// An offset is the number the first line with its key states, white space
/// around it aside: what stands in earlier lines and behind the line does not
/// matter. A header without such a line states none.
pub proof fn an_offset_is_what_its_line_states(
    header: Seq<char>,
    key: Seq<char>,
    at: int,
    stated: Seq<char>,
)
    requires
        0 <= at < header.len(),
        at == 0 || header[at - 1] == '\n',
        key.len() > 0,
        at + key.len() + stated.len() <= header.len(),
        header.subrange(at, at + key.len()) == key,
        header.subrange(at + key.len(), at + key.len() + stated.len()) == stated,
        at + key.len() + stated.len() < header.len() ==> header[at + key.len() + stated.len() as int]
            == '\n',
        forall|i: int| 0 <= i < stated.len() ==> #[trigger] stated[i] != '\n',
        forall|i: int|
            0 <= i < at && (i == 0 || header[i - 1] == '\n') && i + key.len() <= header.len()
                ==> #[trigger] header.subrange(i, i + key.len()) != key,
    ensures
        offset(header, key) == (match text::unsigned_value(text::trim(stated)) {
            Some(n) => if n <= usize::MAX {
                Some(n)
            } else {
                None
            },
            None => None,
        }),
{
    let rest = header.skip(at + key.len());
    assert(header.skip(at).take(key.len() as int) =~= header.subrange(at, at + key.len()));
    assert(key_at(header, key, at));
    assert forall|i: int| 0 <= i < stated.len() implies #[trigger] rest[i] != '\n' by {
        assert(rest[i] == stated[i]) by {
            assert(header.subrange(at + key.len(), at + key.len() + stated.len())[i] == header[at
                + key.len() + i]);
        }
    }
    line_end_is(rest, stated.len() as int);
    assert(rest.take(stated.len() as int) =~= stated) by {
        assert(header.subrange(at + key.len(), at + key.len() + stated.len()) =~= rest.take(
            stated.len() as int,
        ));
    }
    earlier_lines_state_nothing(header, key, 0, at);
}

proof fn earlier_lines_state_nothing(header: Seq<char>, key: Seq<char>, from: int, at: int)
    requires
        0 <= from <= at <= header.len(),
        forall|i: int|
            from <= i < at && (i == 0 || header[i - 1] == '\n') && i + key.len() <= header.len()
                ==> #[trigger] header.subrange(i, i + key.len()) != key,
    ensures
        offset_from(header, key, from) == offset_from(header, key, at),
    decreases at - from,
{
    if from < at {
        if key_at(header, key, from) {
            assert(header.skip(from).take(key.len() as int) =~= header.subrange(
                from,
                from + key.len(),
            ));
            assert(false);
        }
        earlier_lines_state_nothing(header, key, from + 1, at);
    }
}

/// A header in which no line begins with a key states no offset under it.
pub proof fn an_offset_needs_its_line(header: Seq<char>, key: Seq<char>)
    requires
        forall|i: int|
            0 <= i < header.len() && (i == 0 || header[i - 1] == '\n') && i + key.len()
                <= header.len() ==> #[trigger] header.subrange(i, i + key.len()) != key,
    ensures
        offset(header, key) is None,
{
    earlier_lines_state_nothing(header, key, 0, header.len() as int);
}

/// The header put before a bitmap says how long the file is and where its
/// pixels are: behind both headers, and behind the palette or the masks where
/// the bitmap has them.
pub proof fn a_bitmap_file_says_where_its_pixels_are(dib: Seq<u8>)
    requires
        dib.len() >= 40,
        14 + dib.len() <= 0xffff_ffff,
    ensures
        ({
            let file = bitmap_file(dib);
            let bits = dib[14] + 256 * dib[15];
            let used = number(dib, 32);
            let masks = (bits == 16 || bits == 32) && number(dib, 16) == 3;
            let between: int = if bits == 1 || bits == 4 || bits == 8 {
                if used > 0 {
                    4 * used
                } else if bits == 1 {
                    8
                } else if bits == 4 {
                    64
                } else {
                    1024
                }
            } else if masks {
                12
            } else {
                0
            };
            &&& INFO_HEADER == 40
            &&& file.len() == 14 + dib.len()
            &&& file.skip(14) == dib
            &&& file[0] == 0x42 && file[1] == 0x4d
            &&& number(file, 2) == file.len()
            &&& number(file, 6) == 0
            &&& 14 + number(dib, 0) + between <= 0xffff_ffff ==> number(file, 10) == 14 + number(
                dib,
                0,
            ) + between
        }),
        forall|i: int|
            0 <= i && i + 4 <= dib.len() ==> #[trigger] number(dib, i) == dib[i] + 0x100 * dib[i + 1]
                + 0x1_0000 * dib[i + 2] + 0x100_0000 * dib[i + 3],
{
    let file = bitmap_file(dib);
    a_bitmap_file_holds_the_bitmap(dib);
    let length = FILE_HEADER + dib.len();
    let pixels = FILE_HEADER + number(dib, 0) + palette(dib);
    four_bytes_write_a_number(length);
    assert(file[2] == four(length)[0] && file[3] == four(length)[1] && file[4] == four(length)[2]
        && file[5] == four(length)[3]);
    assert(file[10] == four(pixels)[0] && file[11] == four(pixels)[1] && file[12] == four(pixels)[2]
        && file[13] == four(pixels)[3]);
    if 0 <= pixels <= 0xffff_ffff {
        four_bytes_write_a_number(pixels);
    }
}

proof fn four_bytes_write_a_number(n: int)
    requires
        0 <= n <= 0xffff_ffff,
    ensures
        number(four(n), 0) == n,
{
    let a = n / 256;
    let b = n / 65536;
    let c = n / 16777216;
    assert(b == a / 256 && c == b / 256);
    assert(n == 256 * a + n % 256 && a == 256 * b + a % 256 && b == 256 * c + b % 256);
    assert(0 <= c < 256);
}

} // verus!
