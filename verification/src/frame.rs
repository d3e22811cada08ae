//! Reading control frames off a stream that carries payloads between them.
//!
//! Written out rather than left to a line reader, because that grows its buffer
//! to whatever the peer sends: a peer that never sends a newline would
//! otherwise choose how much memory the daemon takes. Payload bytes are
//! unbounded, but they are counted first and never held.

use crate::proto;
use crate::text;
use vstd::prelude::*;

verus! {

/// What reading a little further on a stream came to.
#[derive(Debug)]
pub enum Reading {
    /// The frame is not complete yet.
    More,
    /// A whole frame, without its newline.
    Frame(String),
    /// The stream ended. A partial frame is a truncated conversation, not a
    /// frame to act on.
    End,
    /// The frame is longer than any frame this protocol defines.
    TooLong,
    /// The frame is not UTF-8.
    NotText,
}

/// The same as the contracts speak of it.
pub enum ReadingView {
    More,
    Frame(Seq<char>),
    End,
    TooLong,
    NotText,
}

impl View for Reading {
    type V = ReadingView;

    open spec fn view(&self) -> ReadingView {
        match *self {
            Reading::More => ReadingView::More,
            Reading::Frame(line) => ReadingView::Frame(line@),
            Reading::End => ReadingView::End,
            Reading::TooLong => ReadingView::TooLong,
            Reading::NotText => ReadingView::NotText,
        }
    }
}

impl Reading {
    /// What to say about a stream that cannot be read on.
    pub fn complaint(&self) -> (words: Option<&'static str>)
        ensures
            match self@ {
                ReadingView::TooLong => words matches Some(said) && said@
                    == "control frame is longer than any frame this protocol defines"@,
                ReadingView::NotText => words matches Some(said) && said@
                    == "control frames are UTF-8"@,
                _ => words is None,
            },
    {
        match self {
            Reading::TooLong => Some(
                "control frame is longer than any frame this protocol defines",
            ),
            Reading::NotText => Some("control frames are UTF-8"),
            _ => None,
        }
    }
}

/// Where the first newline is; past the end where there is none.
pub open spec fn newline(bytes: Seq<u8>) -> int
    decreases bytes.len(),
{
    if bytes.len() == 0 || bytes[0] == 0x0a {
        0
    } else {
        1 + newline(bytes.drop_first())
    }
}

/// A complete line as a frame.
pub open spec fn as_frame(line: Seq<u8>) -> ReadingView {
    if vstd::utf8::valid_utf8(line) {
        ReadingView::Frame(vstd::utf8::decode_utf8(line))
    } else {
        ReadingView::NotText
    }
}

/// What comes of having read `pending` and now seeing `available`: the outcome,
/// and how many of the available bytes are consumed.
pub open spec fn read_on(pending: Seq<u8>, available: Seq<u8>) -> (ReadingView, int) {
    let end = newline(available);
    if available.len() == 0 {
        (ReadingView::End, 0)
    } else if end < available.len() {
        if pending.len() + end > proto::MAX_FRAME {
            (ReadingView::TooLong, 0)
        } else {
            (as_frame(pending + available.take(end)), end + 1)
        }
    } else if pending.len() + available.len() > proto::MAX_FRAME {
        (ReadingView::TooLong, available.len() as int)
    } else {
        (ReadingView::More, available.len() as int)
    }
}

/// The first newline is where it is said to be.
pub proof fn newline_is_first(bytes: Seq<u8>)
    ensures
        0 <= newline(bytes) <= bytes.len(),
        newline(bytes) < bytes.len() ==> bytes[newline(bytes)] == 0x0a,
        forall|i: int| 0 <= i < newline(bytes) ==> #[trigger] bytes[i] != 0x0a,
    decreases bytes.len(),
{
    if bytes.len() > 0 && bytes[0] != 0x0a {
        let rest = bytes.drop_first();
        newline_is_first(rest);
        let n = newline(bytes);
        if n < bytes.len() {
            assert(rest[n - 1] == bytes[n]);
        }
        assert forall|i: int| 0 <= i < n implies #[trigger] bytes[i] != 0x0a by {
            if i > 0 {
                assert(rest[i - 1] == bytes[i]);
            }
        }
    }
}

/// Any place with that property is the first newline.
proof fn newline_is_only(bytes: Seq<u8>, place: int)
    requires
        0 <= place <= bytes.len(),
        place < bytes.len() ==> bytes[place] == 0x0a,
        forall|i: int| 0 <= i < place ==> #[trigger] bytes[i] != 0x0a,
    ensures
        newline(bytes) == place,
{
    newline_is_first(bytes);
    let n = newline(bytes);
    if n < place {
        assert(bytes[n] != 0x0a);
    }
    if place < n {
        assert(bytes[place] != 0x0a);
    }
}

/// A frame being read.
pub struct FrameReader {
    pending: Vec<u8>,
}

impl View for FrameReader {
    type V = Seq<u8>;

    /// The part of the frame already read.
    closed spec fn view(&self) -> Seq<u8> {
        self.pending@
    }
}

impl FrameReader {
    pub fn new() -> (reader: FrameReader)
        ensures
            reader@ == Seq::<u8>::empty(),
    {
        FrameReader { pending: Vec::new() }
    }

    /// Reads one newline-terminated control frame further, refusing one too
    /// long to be a frame this protocol defines. `available` is what the stream
    /// offers next, nothing at its end; the number returned is how much of it
    /// was consumed. However a frame ends, the reader is ready for the next.
    pub fn read_frame(&mut self, available: &[u8]) -> (read: (Reading, usize))
        requires
            old(self)@.len() <= proto::MAX_FRAME,
        ensures
            (read.0@, read.1 as int) == read_on(old(self)@, available@),
            read.0 is More ==> final(self)@ == old(self)@ + available@,
            !(read.0 is More) ==> final(self)@ == Seq::<u8>::empty(),
            final(self)@.len() <= proto::MAX_FRAME,
    {
        if available.len() == 0 {
            self.pending.clear();
            return (Reading::End, 0);
        }
        let mut end: usize = 0;
        while end < available.len() && available[end] != 0x0a
            invariant
                end <= available.len(),
                forall|i: int| 0 <= i < end ==> #[trigger] available@[i] != 0x0a,
            decreases available.len() - end,
        {
            end += 1;
        }
        proof {
            newline_is_only(available@, end as int);
        }
        if end < available.len() {
            // Checked here as well as below: a whole over-long frame can
            // arrive in one buffer, newline included, and would otherwise
            // never reach the accumulating branch.
            if end > proto::MAX_FRAME - self.pending.len() {
                self.pending.clear();
                return (Reading::TooLong, 0);
            }
            let line = vstd::slice::slice_subrange(available, 0, end);
            let mut whole: Vec<u8> = Vec::new();
            whole.append(&mut self.pending);
            whole.extend_from_slice(line);
            assert(whole@ =~= old(self)@ + available@.take(end as int));
            let reading = match text::utf8_text(whole) {
                Some(frame) => Reading::Frame(frame),
                None => Reading::NotText,
            };
            (reading, end + 1)
        } else {
            let taken: usize = available.len();
            if taken > proto::MAX_FRAME - self.pending.len() {
                self.pending.clear();
                return (Reading::TooLong, taken);
            }
            self.pending.extend_from_slice(available);
            assert(self.pending@ =~= old(self)@ + available@);
            (Reading::More, taken)
        }
    }
}

// ---------------------------------------------------------------------------
// How the stream is cut up does not matter
// ---------------------------------------------------------------------------

/// The first frame of a whole stream, and how many bytes reading it takes.
pub open spec fn first_frame(stream: Seq<u8>) -> (ReadingView, int) {
    let end = newline(stream);
    if end > proto::MAX_FRAME {
        (ReadingView::TooLong, 0)
    } else if end < stream.len() {
        (as_frame(stream.take(end)), end + 1)
    } else {
        (ReadingView::End, stream.len() as int)
    }
}

/// The first frame of a stream that arrives in pieces, and how many bytes of
/// the pieces reading it takes.
pub open spec fn first_of_pieces(pending: Seq<u8>, pieces: Seq<Seq<u8>>) -> (ReadingView, int)
    decreases pieces.len(),
{
    if pieces.len() == 0 {
        (ReadingView::End, 0)
    } else {
        let step = read_on(pending, pieces[0]);
        match step.0 {
            ReadingView::More => {
                let rest = first_of_pieces(pending + pieces[0], pieces.drop_first());
                (rest.0, pieces[0].len() + rest.1)
            },
            _ => step,
        }
    }
}

/// Pieces put together.
pub open spec fn together(pieces: Seq<Seq<u8>>) -> Seq<u8>
    decreases pieces.len(),
{
    if pieces.len() == 0 {
        Seq::empty()
    } else {
        pieces[0] + together(pieces.drop_first())
    }
}

/// Whatever pieces a stream arrives in, its first frame is the same, and
/// reading it consumes exactly the frame and its newline: what follows — a
/// payload or the next frame — is still there to be read.
pub proof fn frames_do_not_depend_on_how_a_stream_arrives(pieces: Seq<Seq<u8>>)
    requires
        forall|i: int| 0 <= i < pieces.len() ==> (#[trigger] pieces[i]).len() > 0,
    ensures
        ({
            let whole = first_frame(together(pieces));
            let read = first_of_pieces(Seq::empty(), pieces);
            &&& read.0 == whole.0
            &&& !(whole.0 is TooLong) ==> read.1 == whole.1
        }),
{
    assert(Seq::<u8>::empty() + together(pieces) =~= together(pieces));
    pieces_read_on(Seq::empty(), pieces);
}

proof fn pieces_read_on(pending: Seq<u8>, pieces: Seq<Seq<u8>>)
    requires
        forall|i: int| 0 <= i < pieces.len() ==> (#[trigger] pieces[i]).len() > 0,
        forall|i: int| 0 <= i < pending.len() ==> #[trigger] pending[i] != 0x0a,
        pending.len() <= proto::MAX_FRAME,
    ensures
        ({
            let whole = first_frame(pending + together(pieces));
            let read = first_of_pieces(pending, pieces);
            &&& read.0 == whole.0
            &&& !(whole.0 is TooLong) ==> read.1 + pending.len() == whole.1
        }),
    decreases pieces.len(),
{
    let stream = pending + together(pieces);
    if pieces.len() == 0 {
        assert(stream =~= pending);
        newline_is_only(stream, stream.len() as int);
    } else {
        let piece = pieces[0];
        let later = together(pieces.drop_first());
        let end = newline(piece);
        newline_is_first(piece);
        assert(stream =~= pending + piece + later);
        if end < piece.len() {
            let place = pending.len() + end;
            assert(stream[place] == piece[end]);
            assert forall|i: int| 0 <= i < place implies #[trigger] stream[i] != 0x0a by {
                if i < pending.len() {
                    assert(stream[i] == pending[i]);
                } else {
                    assert(stream[i] == piece[i - pending.len()]);
                }
            }
            newline_is_only(stream, place);
            assert(stream.take(place) =~= pending + piece.take(end));
        } else {
            let longer = pending + piece;
            assert forall|i: int| 0 <= i < longer.len() implies #[trigger] longer[i] != 0x0a by {
                if i < pending.len() {
                    assert(longer[i] == pending[i]);
                } else {
                    assert(longer[i] == piece[i - pending.len()]);
                }
            }
            if longer.len() > proto::MAX_FRAME {
                newline_is_first(stream);
                if newline(stream) < longer.len() {
                    assert(stream[newline(stream)] == longer[newline(stream)]);
                }
            } else {
                pieces_read_on(longer, pieces.drop_first());
                assert(longer + later =~= stream);
            }
        }
    }
}

// ---------------------------------------------------------------------------
// What reading a frame promises
// ---------------------------------------------------------------------------

/// A line of text of at most sixty-four kibibytes is read as it was written,
/// and its newline with it, whatever comes behind it and however much of it was
/// there before. A longer line is refused, and one that is not text is told
/// apart from both.
pub proof fn a_line_is_read_as_it_was_written(
    pending: Seq<u8>,
    line: Seq<u8>,
    rest: Seq<u8>,
)
    requires
        forall|i: int| 0 <= i < line.len() ==> #[trigger] line[i] != 0x0a,
    ensures
        ({
            let whole = pending + line;
            let read = read_on(pending, line + seq![0x0au8] + rest);
            &&& whole.len() > 65536 ==> read.0 is TooLong && read.1 == 0
            &&& whole.len() <= 65536 && vstd::utf8::valid_utf8(whole) ==> read.0
                == ReadingView::Frame(vstd::utf8::decode_utf8(whole))
            &&& whole.len() <= 65536 && !vstd::utf8::valid_utf8(whole) ==> read.0 is NotText
            &&& whole.len() <= 65536 ==> read.1 == line.len() + 1
        }),
        line.len() > 0 ==> {
            let whole = pending + line;
            let read = read_on(pending, line);
            &&& whole.len() > 65536 ==> read.0 is TooLong && read.1 == line.len()
            &&& whole.len() <= 65536 ==> read.0 is More && read.1 == line.len()
        },
        read_on(pending, Seq::empty()).0 is End,
{
    let available = line + seq![0x0au8] + rest;
    newline_is_only(available, line.len() as int);
    newline_is_only(line, line.len() as int);
    assert(available.take(line.len() as int) =~= line);
}

} // verus!
