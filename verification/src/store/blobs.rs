//! Content-addressed storage for clipboard representations.
//!
//! A blob is named by the hex digest of its own content, so identical
//! representations are stored once however many entries reference them. The
//! write path hashes while it copies: a representation is read from the socket
//! exactly once, never seeks, and never exists whole in memory. That is what
//! lets an entry be arbitrarily large without the daemon's residency following
//! it.

use crate::text;
use vstd::prelude::*;

verus! {

/// Big enough that a large paste is a few thousand syscalls rather than a
/// million, small enough to stay in L2 and to never show up in the process's
/// resident size.
pub const COPY_BUFFER: usize = 65536;

/// Digests are hex, so a blob directory fans out over 256 subdirectories. That
/// keeps any one directory small enough for the filesystem to stay quick even
/// with a very long archive.
pub const FANOUT: usize = 2;

// ---------------------------------------------------------------------------
// Hashing
// ---------------------------------------------------------------------------

/// A SHA-256 computation under way.
#[verifier::external_type_specification]
#[verifier::external_body]
pub struct ExSha256(sha2::Sha256);

/// The bytes a hasher has been fed.
pub uninterp spec fn fed(hasher: sha2::Sha256) -> Seq<u8>;

/// The SHA-256 digest of some content.
pub uninterp spec fn sha256(content: Seq<u8>) -> Seq<u8>;

/// `Digest::new`: a hasher that has been fed nothing.
#[verifier::external_body]
fn hasher_new() -> (hasher: sha2::Sha256)
    ensures
        fed(hasher) == Seq::<u8>::empty(),
{
    <sha2::Sha256 as sha2::Digest>::new()
}

/// `Digest::update`: feeds some bytes after those fed before.
#[verifier::external_body]
fn hasher_update(hasher: &mut sha2::Sha256, piece: &[u8])
    ensures
        fed(*final(hasher)) == fed(*old(hasher)) + piece@,
{
    sha2::Digest::update(hasher, piece)
}

/// `Digest::finalize`: the digest of everything fed, thirty-two bytes long. It
/// depends on the bytes alone and not on how they were split.
#[verifier::external_body]
fn hasher_finish(hasher: sha2::Sha256) -> (digest: Vec<u8>)
    ensures
        digest@ == sha256(fed(hasher)),
        digest@.len() == 32,
{
    sha2::Digest::finalize(hasher).to_vec()
}

/// Bytes in hexadecimal, two digits each.
pub open spec fn hex_of(bytes: Seq<u8>) -> Seq<char> {
    Seq::new(
        bytes.len() * 2,
        |i: int|
            if i % 2 == 0 {
                text::hex_digit(bytes[i / 2] as int / 16)
            } else {
                text::hex_digit(bytes[i / 2] as int % 16)
            },
    )
}

/// Whether a text has the shape of a digest: sixty-four lower-case hexadecimal
/// digits.
pub open spec fn is_digest(name: Seq<char>) -> bool {
    &&& name.len() == 64
    &&& forall|i: int|
        0 <= i < name.len() ==> '0' <= #[trigger] name[i] <= '9' || 'a' <= name[i] <= 'f'
}

/// Thirty-two bytes in hexadecimal have the shape of a digest.
pub proof fn hex_is_a_digest(bytes: Seq<u8>)
    requires
        bytes.len() == 32,
    ensures
        is_digest(hex_of(bytes)),
{
}

/// Different bytes differ in hexadecimal.
pub proof fn hex_tells_bytes_apart(a: Seq<u8>, b: Seq<u8>)
    requires
        hex_of(a) == hex_of(b),
    ensures
        a == b,
{
    assert(hex_of(a).len() == a.len() * 2);
    assert(hex_of(b).len() == b.len() * 2);
    assert forall|i: int| 0 <= i < a.len() implies a[i] == b[i] by {
        assert((2 * i) / 2 == i && (2 * i) % 2 == 0);
        assert((2 * i + 1) / 2 == i && (2 * i + 1) % 2 == 1);
        assert(hex_of(a)[2 * i] == text::hex_digit(a[i] as int / 16));
        assert(hex_of(b)[2 * i] == text::hex_digit(b[i] as int / 16));
        assert(hex_of(a)[2 * i + 1] == text::hex_digit(a[i] as int % 16));
        assert(hex_of(b)[2 * i + 1] == text::hex_digit(b[i] as int % 16));
        assert(a[i] as int / 16 == b[i] as int / 16);
        assert(a[i] as int % 16 == b[i] as int % 16);
    }
    assert(a =~= b);
}

/// The name a blob with some content is stored under.
pub open spec fn name_of(content: Seq<u8>) -> Seq<char> {
    hex_of(sha256(content))
}

fn digit(n: u8) -> (c: char)
    requires
        n < 16,
    ensures
        c == text::hex_digit(n as int),
{
    if n < 10 {
        (n + 0x30) as char
    } else {
        (n - 10 + 0x61) as char
    }
}

pub fn hex(bytes: &[u8]) -> (text: String)
    ensures
        text@ == hex_of(bytes@),
{
    let mut out = String::new();
    let mut i: usize = 0;
    while i < bytes.len()
        invariant
            i <= bytes.len(),
            out@ == hex_of(bytes@).take(2 * i as int),
        decreases bytes.len() - i,
    {
        let byte: u8 = bytes[i];
        out.push(digit(byte / 16));
        out.push(digit(byte % 16));
        assert(hex_of(bytes@)[2 * i as int] == text::hex_digit(byte as int / 16));
        assert(hex_of(bytes@)[2 * i as int + 1] == text::hex_digit(byte as int % 16));
        assert(out@ =~= hex_of(bytes@).take(2 * (i + 1) as int));
        i += 1;
    }
    assert(hex_of(bytes@).take(2 * bytes@.len() as int) =~= hex_of(bytes@));
    out
}

/// The name of some content held in memory.
pub fn digest_of(content: &[u8]) -> (digest: String)
    ensures
        digest@ == name_of(content@),
        is_digest(digest@),
{
    let mut hasher = hasher_new();
    hasher_update(&mut hasher, content);
    assert(Seq::<u8>::empty() + content@ =~= content@);
    let bytes = hasher_finish(hasher);
    proof {
        hex_is_a_digest(bytes@);
    }
    hex(&bytes)
}

// ---------------------------------------------------------------------------
// Where a blob is stored
// ---------------------------------------------------------------------------

/// The directory and the file name a blob is stored under.
pub fn shelf(digest: &str) -> (place: (String, String))
    requires
        digest@.len() >= FANOUT,
    ensures
        place.0@ == digest@.take(FANOUT as int),
        place.1@ == digest@.skip(FANOUT as int),
{
    let chars = text::chars_of(digest);
    let directory = text::slice_of(&chars, 0, FANOUT);
    let file = text::slice_of(&chars, FANOUT, chars.len());
    assert(directory@ =~= digest@.take(FANOUT as int));
    assert(file@ =~= digest@.skip(FANOUT as int));
    (text::string_of(&directory), text::string_of(&file))
}

/// The digest of the blob stored under a directory and a file name.
pub fn unshelved(directory: &str, file: &str) -> (digest: String)
    ensures
        digest@ == directory@ + file@,
{
    let mut digest = directory.to_owned();
    text::push_text(&mut digest, file);
    digest
}

/// A blob's place names its digest: what was put on a shelf under a digest is
/// found there under the same one.
pub proof fn a_place_names_its_blob(digest: Seq<char>)
    requires
        digest.len() >= FANOUT,
    ensures
        digest.take(FANOUT as int) + digest.skip(FANOUT as int) == digest,
{
    assert(digest.take(FANOUT as int) + digest.skip(FANOUT as int) =~= digest);
}

// ---------------------------------------------------------------------------
// Writing a blob
// ---------------------------------------------------------------------------

/// What a completed streaming write turned out to be.
#[derive(Debug)]
pub struct Written {
    pub digest: String,
    pub bytes: u64,
    /// False when a blob with this digest was already stored, which is the
    /// common case for a clipboard that is re-asserted unchanged. Nothing acts
    /// on it yet; it is here because a write that stored nothing is a
    /// materially different outcome from one that did.
    pub created: bool,
}

/// A blob whose content is complete and whose name is known.
#[derive(Debug)]
pub struct Sealed {
    pub digest: String,
    pub bytes: u64,
}

impl Sealed {
    /// How the write ended, given whether a blob with this name was stored
    /// before: the temporary takes the name where it was free and is discarded
    /// where it was not.
    pub fn stored(self, before: bool) -> (written: Written)
        ensures
            written.digest@ == self.digest@,
            written.bytes == self.bytes,
            written.created == !before,
    {
        Written { digest: self.digest, bytes: self.bytes, created: !before }
    }
}

/// A number of bytes as it is counted: exactly, as far as the counter reaches.
pub open spec fn counted(bytes: nat) -> int {
    if bytes <= u64::MAX {
        bytes as int
    } else {
        u64::MAX as int
    }
}

/// A blob being written a piece at a time.
///
/// Hashes while it copies, so the finished blob's name falls out of the same
/// single pass that stored it.
pub struct Writer {
    hasher: sha2::Sha256,
    bytes: u64,
}

impl View for Writer {
    type V = Seq<u8>;

    /// The content absorbed so far.
    closed spec fn view(&self) -> Seq<u8> {
        fed(self.hasher)
    }
}

impl Writer {
    pub closed spec fn well_formed(self) -> bool {
        self.bytes == counted(self@.len())
    }

    pub fn new() -> (writer: Writer)
        ensures
            writer.well_formed(),
            writer@ == Seq::<u8>::empty(),
    {
        Writer { hasher: hasher_new(), bytes: 0 }
    }

    /// Takes one more piece of the content.
    pub fn absorb(&mut self, piece: &[u8])
        requires
            old(self).well_formed(),
        ensures
            final(self).well_formed(),
            final(self)@ == old(self)@ + piece@,
    {
        hasher_update(&mut self.hasher, piece);
        self.bytes = self.bytes.saturating_add(piece.len() as u64);
    }

    /// How much has been absorbed so far, so a caller can enforce a budget
    /// against a stream that never declared its length.
    pub fn written(&self) -> (bytes: u64)
        requires
            self.well_formed(),
        ensures
            bytes == counted(self@.len()),
    {
        self.bytes
    }

    /// Seals the blob under the name its own content chose.
    pub fn finish(self) -> (sealed: Sealed)
        requires
            self.well_formed(),
        ensures
            sealed.digest@ == name_of(self@),
            is_digest(sealed.digest@),
            sealed.bytes == counted(self@.len()),
    {
        let digest = hasher_finish(self.hasher);
        proof {
            hex_is_a_digest(digest@);
        }
        Sealed { digest: hex(&digest), bytes: self.bytes }
    }
}

// ---------------------------------------------------------------------------
// What a name is
// ---------------------------------------------------------------------------

/// A blob is named by the digest of its content in hexadecimal: two digits for
/// each byte, the higher half first.
pub proof fn a_name_is_the_digest_in_hexadecimal(content: Seq<u8>, bytes: Seq<u8>, i: int)
    ensures
        name_of(content) == hex_of(sha256(content)),
        hex_of(bytes).len() == 2 * bytes.len(),
        0 <= i < bytes.len() ==> hex_of(bytes)[2 * i] == text::hex_digit(bytes[i] as int / 16)
            && hex_of(bytes)[2 * i + 1] == text::hex_digit(bytes[i] as int % 16),
        FANOUT == 2,
        COPY_BUFFER == 65536,
{
    if 0 <= i < bytes.len() {
        assert((2 * i) / 2 == i && (2 * i) % 2 == 0);
        assert((2 * i + 1) / 2 == i && (2 * i + 1) % 2 == 1);
    }
}

/// Bytes are counted exactly as far as sixty-four bits reach.
pub proof fn bytes_are_counted_exactly(bytes: nat)
    ensures
        bytes <= 0xffff_ffff_ffff_ffff ==> counted(bytes) == bytes,
        bytes > 0xffff_ffff_ffff_ffff ==> counted(bytes) == 0xffff_ffff_ffff_ffff,
{
}

} // verus!
