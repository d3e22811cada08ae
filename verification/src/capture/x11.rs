//! Reading an X11 selection.
//!
//! Under X11 any client may read `CLIPBOARD` — nothing about the protocol is
//! privileged — so the daemon watches the selection itself instead of needing
//! code inside a compositor. That is also what makes it work under XRDP:
//! `xrdp-chansrv` takes selection ownership whenever the remote peer copies,
//! which is indistinguishable from a local application doing it, so a copy on
//! the far side of an RDP session lands in the archive like any other.
//!
//! A transfer is a conversation with the selection's owner, and the owner may
//! refuse, stall, stream, or lose the selection half way. What to ask next and
//! what to make of an answer is decided here; the connection to the X server
//! belongs to the caller.

use crate::capture;
use crate::kind;
use crate::text;
use vstd::prelude::*;

verus! {

/// How many seconds a single conversion is waited on before it is abandoned.
///
/// An owner that never answers a `ConvertSelection` request must not stall the
/// watch: a stuck read would make every later copy invisible to the archive.
pub const CONVERT_TIMEOUT: u64 = 5;

/// How many seconds each `INCR` window may take, rather than the whole
/// transfer.
///
/// A large selection arrives as a stream of appended chunks; the transfer
/// itself may legitimately take far longer than one conversion, so each chunk
/// gets its own budget and a stalled owner — not a big paste — is what ends it.
pub const INCR_TIMEOUT: u64 = 30;

/// How many seconds to wait before reconnecting when the X connection dies, and
/// the ceiling the wait grows to.
///
/// The server going away is not a reason to stop watching forever: an XRDP
/// session restart replaces the X server under the session, and a watcher that
/// gave up would leave every later remote copy unrecorded. A failed connect
/// costs a syscall, so retrying indefinitely costs a line a minute.
pub const RECONNECT_MIN: u64 = 1;

pub const RECONNECT_MAX: u64 = 60;

/// The atom that is none.
pub const NO_ATOM: u32 = 0;

/// How long to wait before the attempt after the next, given how long before
/// the next: twice as long, up to the ceiling.
pub fn next_backoff(seconds: u64) -> (longer: u64)
    ensures
        longer == (if 2 * seconds > RECONNECT_MAX {
            RECONNECT_MAX as int
        } else {
            2 * seconds
        }),
{
    if seconds > RECONNECT_MAX / 2 {
        RECONNECT_MAX
    } else {
        2 * seconds
    }
}

/// The atoms a watch needs, interned once before it begins.
#[derive(Debug, Clone, Copy)]
pub struct Atoms {
    /// The `CLIPBOARD` selection itself — a convention atom, not predefined.
    pub clipboard: u32,
    /// Where each conversion asks the owner to leave its answer.
    pub data: u32,
    /// The `TARGETS` target, whose answer lists what the owner can serve.
    pub targets: u32,
    /// The type an `INCR` answer carries.
    pub incr: u32,
}

/// An event from the X server, as far as a watch cares.
#[derive(Debug, Clone, Copy)]
pub enum Seen {
    /// An owner answered a conversion.
    Selection { requestor: u32, selection: u32, property: u32 },
    /// A property was written or deleted.
    Property { window: u32, atom: u32, written: bool },
    /// A selection has a new owner.
    Owner { selection: u32, owner: u32 },
    Other,
}

/// Whether an event says that somebody else took the clipboard.
pub fn taken_over(seen: Seen, atoms: &Atoms, window: u32) -> (answer: bool)
    ensures
        answer == (seen matches Seen::Owner { selection, owner } && selection == atoms.clipboard
            && owner != window),
{
    match seen {
        Seen::Owner { selection, owner } => selection == atoms.clipboard && owner != window,
        _ => false,
    }
}

// ---------------------------------------------------------------------------
// One transfer
// ---------------------------------------------------------------------------

/// What the caller is to do next.
#[derive(Debug, Clone, Copy, PartialEq, Eq, Structural)]
pub enum Need {
    /// Ask the owner to convert the selection.
    Convert,
    /// Wait for the next event, this many seconds from the last thing done.
    Event(u64),
    /// Read the property without deleting it.
    Property,
    /// Delete the property.
    Delete,
    /// Read the property and delete it.
    Chunk,
    /// Nothing: the transfer is over.
    Nothing,
}

/// How far a transfer has come.
enum Stage {
    /// The conversion is to be asked for.
    Asking,
    /// The owner has yet to answer.
    Converting,
    /// The owner answered.
    Fetching,
    /// The whole answer was read and is to be deleted.
    Clearing(Vec<u8>),
    /// The answer will come in chunks, and deleting the property is the signal
    /// the owner waits for before appending the first.
    Starting,
    /// Chunks are coming.
    Streaming(Vec<u8>),
    /// A chunk is there.
    Reading(Vec<u8>),
    Over(Option<Vec<u8>>),
}

/// The same as the contracts speak of it.
pub enum StageView {
    Asking,
    Converting,
    Fetching,
    Clearing(Seq<u8>),
    Starting,
    Streaming(Seq<u8>),
    Reading(Seq<u8>),
    Over(Option<Seq<u8>>),
}

/// A transfer as the contracts speak of it: how far it has come, whether only
/// the owner's consent is wanted, and whether the selection changed owner.
pub struct TransferView {
    pub stage: StageView,
    pub consent_only: bool,
    pub changed: bool,
}

/// One representation being asked for.
pub struct Transfer {
    stage: Stage,
    consent_only: bool,
    changed: bool,
}

spec fn stage_view(stage: Stage) -> StageView {
    match stage {
        Stage::Asking => StageView::Asking,
        Stage::Converting => StageView::Converting,
        Stage::Fetching => StageView::Fetching,
        Stage::Clearing(bytes) => StageView::Clearing(bytes@),
        Stage::Starting => StageView::Starting,
        Stage::Streaming(bytes) => StageView::Streaming(bytes@),
        Stage::Reading(bytes) => StageView::Reading(bytes@),
        Stage::Over(bytes) => StageView::Over(crate::store::thumb::optional_bytes(bytes)),
    }
}

impl View for Transfer {
    type V = TransferView;

    closed spec fn view(&self) -> TransferView {
        TransferView {
            stage: stage_view(self.stage),
            consent_only: self.consent_only,
            changed: self.changed,
        }
    }
}

/// What is to be done next.
pub open spec fn need_of(stage: StageView) -> Need {
    match stage {
        StageView::Asking => Need::Convert,
        StageView::Converting => Need::Event(CONVERT_TIMEOUT),
        StageView::Fetching => Need::Property,
        StageView::Clearing(_) => Need::Delete,
        StageView::Starting => Need::Delete,
        StageView::Streaming(_) => Need::Event(INCR_TIMEOUT),
        StageView::Reading(_) => Need::Chunk,
        StageView::Over(_) => Need::Nothing,
    }
}

/// A transfer after an event.
///
/// A new owner ends it at once: the new owner will never answer the conversion
/// the old one was asked for, so there is nothing left to wait out.
pub open spec fn after_event(
    transfer: TransferView,
    seen: Seen,
    atoms: Atoms,
    window: u32,
) -> TransferView {
    if seen matches Seen::Owner { selection, .. } && selection == atoms.clipboard {
        TransferView { stage: StageView::Over(None), changed: true, ..transfer }
    } else {
        match transfer.stage {
            StageView::Converting => if seen matches Seen::Selection {
                requestor,
                selection,
                property,
            } && requestor == window && selection == atoms.clipboard {
                TransferView {
                    stage: if seen->property == NO_ATOM {
                        // A refused conversion names no property.
                        StageView::Over(None)
                    } else if transfer.consent_only {
                        StageView::Over(Some(Seq::empty()))
                    } else {
                        StageView::Fetching
                    },
                    ..transfer
                }
            } else {
                transfer
            },
            StageView::Streaming(bytes) => if seen matches Seen::Property {
                window: of,
                atom,
                written,
            } && of == window && atom == atoms.data && written {
                TransferView { stage: StageView::Reading(bytes), ..transfer }
            } else {
                transfer
            },
            _ => transfer,
        }
    }
}

/// A transfer after the property was read, where it could be: its type and what
/// it holds.
pub open spec fn after_property(
    transfer: TransferView,
    answer: Option<(u32, Seq<u8>)>,
    atoms: Atoms,
) -> TransferView {
    TransferView {
        stage: match answer {
            Some((kind, value)) => if kind == atoms.incr {
                StageView::Starting
            } else {
                StageView::Clearing(value)
            },
            None => StageView::Over(None),
        },
        ..transfer
    }
}

/// A transfer after the property was deleted, if it could be.
pub open spec fn after_delete(transfer: TransferView, done: bool) -> TransferView {
    TransferView {
        stage: match transfer.stage {
            StageView::Clearing(bytes) => if done {
                StageView::Over(Some(bytes))
            } else {
                StageView::Over(None)
            },
            StageView::Starting => if done {
                StageView::Streaming(Seq::empty())
            } else {
                StageView::Over(None)
            },
            other => other,
        },
        ..transfer
    }
}

/// A transfer after a chunk was read, where it could be: an empty one ends the
/// transfer.
pub open spec fn after_chunk(transfer: TransferView, chunk: Option<Seq<u8>>) -> TransferView {
    TransferView {
        stage: match (transfer.stage, chunk) {
            (StageView::Reading(bytes), Some(chunk)) => if chunk.len() == 0 {
                StageView::Over(Some(bytes))
            } else {
                StageView::Streaming(bytes + chunk)
            },
            _ => StageView::Over(None),
        },
        ..transfer
    }
}

/// What reading the property gave, as the contracts speak of it.
pub open spec fn answer_view(answer: Option<(u32, Vec<u8>)>) -> Option<(u32, Seq<u8>)> {
    match answer {
        Some((kind, value)) => Some((kind, value@)),
        None => None,
    }
}

impl Transfer {
    /// Asks for the bytes of one representation.
    pub fn of_content() -> (transfer: Transfer)
        ensures
            transfer@ == (TransferView {
                stage: StageView::Asking,
                consent_only: false,
                changed: false,
            }),
    {
        Transfer { stage: Stage::Asking, consent_only: false, changed: false }
    }

    /// Asks only that the owner leave its answer on the property, where the
    /// caller reads the list of targets off.
    pub fn of_targets() -> (transfer: Transfer)
        ensures
            transfer@ == (TransferView {
                stage: StageView::Asking,
                consent_only: true,
                changed: false,
            }),
    {
        Transfer { stage: Stage::Asking, consent_only: true, changed: false }
    }

    /// What is to be done next.
    pub fn need(&self) -> (need: Need)
        ensures
            need == need_of(self@.stage),
    {
        match &self.stage {
            Stage::Asking => Need::Convert,
            Stage::Converting => Need::Event(CONVERT_TIMEOUT),
            Stage::Fetching => Need::Property,
            Stage::Clearing(_) => Need::Delete,
            Stage::Starting => Need::Delete,
            Stage::Streaming(_) => Need::Event(INCR_TIMEOUT),
            Stage::Reading(_) => Need::Chunk,
            Stage::Over(_) => Need::Nothing,
        }
    }

    /// Whether the selection changed owner on the way.
    pub fn changed(&self) -> (answer: bool)
        ensures
            answer == self@.changed,
    {
        self.changed
    }

    /// Tells whether the conversion could be asked for.
    pub fn asked(self, done: bool) -> (after: Transfer)
        requires
            self@.stage is Asking,
        ensures
            after@ == (TransferView {
                stage: if done {
                    StageView::Converting
                } else {
                    StageView::Over(None)
                },
                ..self@
            }),
    {
        if done {
            Transfer { stage: Stage::Converting, ..self }
        } else {
            Transfer { stage: Stage::Over(None), ..self }
        }
    }

    /// Tells that no event came in time, or that none can come any more.
    pub fn lost(self) -> (after: Transfer)
        ensures
            after@ == (TransferView { stage: StageView::Over(None), ..self@ }),
    {
        Transfer { stage: Stage::Over(None), ..self }
    }

    /// Hands over the next event.
    pub fn seen(self, seen: Seen, atoms: &Atoms, window: u32) -> (after: Transfer)
        ensures
            after@ == after_event(self@, seen, *atoms, window),
    {
        if let Seen::Owner { selection, .. } = seen {
            if selection == atoms.clipboard {
                return Transfer { stage: Stage::Over(None), changed: true, ..self };
            }
        }
        let consent_only: bool = self.consent_only;
        let stage = match self.stage {
            Stage::Converting => match seen {
                Seen::Selection { requestor, selection, property } => {
                    if requestor == window && selection == atoms.clipboard {
                        if property == NO_ATOM {
                            Stage::Over(None)
                        } else if consent_only {
                            let none: Vec<u8> = Vec::new();
                            assert(none@ =~= Seq::empty());
                            Stage::Over(Some(none))
                        } else {
                            Stage::Fetching
                        }
                    } else {
                        Stage::Converting
                    }
                },
                _ => Stage::Converting,
            },
            Stage::Streaming(bytes) => match seen {
                Seen::Property { window: of, atom, written } => {
                    if of == window && atom == atoms.data && written {
                        Stage::Reading(bytes)
                    } else {
                        Stage::Streaming(bytes)
                    }
                },
                _ => Stage::Streaming(bytes),
            },
            other => other,
        };
        Transfer { stage, consent_only, changed: self.changed }
    }

    /// Hands over what the property holds, where it could be read.
    pub fn property(self, answer: Option<(u32, Vec<u8>)>, atoms: &Atoms) -> (after: Transfer)
        requires
            self@.stage is Fetching,
        ensures
            after@ == after_property(self@, answer_view(answer), *atoms),
    {
        let stage = match answer {
            // The first read already holds the whole answer unless it will
            // come in chunks. What the ICCCM still wants is the property
            // deleted once the requestor has it.
            Some((kind, value)) => if kind == atoms.incr {
                Stage::Starting
            } else {
                Stage::Clearing(value)
            },
            None => Stage::Over(None),
        };
        Transfer { stage, ..self }
    }

    /// Tells whether the property could be deleted.
    pub fn deleted(self, done: bool) -> (after: Transfer)
        ensures
            after@ == after_delete(self@, done),
    {
        let consent_only: bool = self.consent_only;
        let changed: bool = self.changed;
        let stage = match self.stage {
            Stage::Clearing(bytes) => if done {
                Stage::Over(Some(bytes))
            } else {
                Stage::Over(None)
            },
            Stage::Starting => if done {
                let none: Vec<u8> = Vec::new();
                assert(none@ =~= Seq::empty());
                Stage::Streaming(none)
            } else {
                Stage::Over(None)
            },
            other => other,
        };
        Transfer { stage, consent_only, changed }
    }

    /// Hands over a chunk, where it could be read.
    pub fn chunk(self, chunk: Option<Vec<u8>>) -> (after: Transfer)
        ensures
            after@ == after_chunk(self@, crate::store::thumb::optional_bytes(chunk)),
    {
        let consent_only: bool = self.consent_only;
        let changed: bool = self.changed;
        let stage = match (self.stage, chunk) {
            (Stage::Reading(bytes), Some(chunk)) => {
                if chunk.len() == 0 {
                    Stage::Over(Some(bytes))
                } else {
                    let ghost before = bytes@;
                    let ghost piece = chunk@;
                    let mut longer = bytes;
                    let mut more = chunk;
                    longer.append(&mut more);
                    assert(longer@ =~= before + piece);
                    Stage::Streaming(longer)
                }
            },
            _ => Stage::Over(None),
        };
        Transfer { stage, consent_only, changed }
    }

    /// What the transfer brought, once it is over.
    pub fn content(self) -> (content: Option<Vec<u8>>)
        ensures
            crate::store::thumb::optional_bytes(content) == (match self@.stage {
                StageView::Over(bytes) => bytes,
                _ => None,
            }),
    {
        match self.stage {
            Stage::Over(bytes) => bytes,
            _ => None,
        }
    }
}

/// A transfer after some chunks were announced and read one after the other.
pub open spec fn after_chunks(
    transfer: TransferView,
    chunks: Seq<Seq<u8>>,
    atoms: Atoms,
    window: u32,
) -> TransferView
    decreases chunks.len(),
{
    if chunks.len() == 0 {
        transfer
    } else {
        let written = Seen::Property { window, atom: atoms.data, written: true };
        after_chunk(
            after_event(
                after_chunks(transfer, chunks.drop_last(), atoms, window),
                written,
                atoms,
                window,
            ),
            Some(chunks.last()),
        )
    }
}

/// Chunks put together.
pub open spec fn joined(chunks: Seq<Seq<u8>>) -> Seq<u8>
    decreases chunks.len(),
{
    if chunks.len() == 0 {
        Seq::empty()
    } else {
        joined(chunks.drop_last()) + chunks.last()
    }
}

/// A selection that arrives in chunks is all of them in order, up to the empty
/// one that ends it.
pub proof fn a_streamed_selection_is_its_chunks(
    transfer: TransferView,
    chunks: Seq<Seq<u8>>,
    atoms: Atoms,
    window: u32,
)
    requires
        transfer.stage == StageView::Streaming(Seq::empty()),
        forall|i: int| 0 <= i < chunks.len() ==> (#[trigger] chunks[i]).len() > 0,
    ensures
        after_chunks(transfer, chunks, atoms, window).stage == StageView::Streaming(
            joined(chunks),
        ),
        after_chunks(transfer, chunks.push(Seq::empty()), atoms, window).stage == StageView::Over(
            Some(joined(chunks)),
        ),
    decreases chunks.len(),
{
    assert(chunks.push(Seq::empty()).drop_last() =~= chunks);
    if chunks.len() > 0 {
        let front = chunks.drop_last();
        assert forall|i: int| 0 <= i < front.len() implies (#[trigger] front[i]).len() > 0 by {
            assert(chunks[i].len() > 0);
        }
        a_streamed_selection_is_its_chunks(transfer, front, atoms, window);
        assert(chunks[chunks.len() - 1].len() > 0);
    }
}

// ---------------------------------------------------------------------------
// One clipboard event
// ---------------------------------------------------------------------------

/// The names under which an owner offers its content.
pub open spec fn names_of(offered: Seq<(u32, String)>) -> Seq<Seq<char>> {
    Seq::new(offered.len(), |i: int| offered[i].1@)
}

/// Which atom a name was offered as first.
pub open spec fn atom_of(offered: Seq<(u32, String)>, name: Seq<char>) -> Option<u32>
    decreases offered.len(),
{
    if offered.len() == 0 {
        None
    } else if offered[0].1@ == name {
        Some(offered[0].0)
    } else {
        atom_of(offered.drop_first(), name)
    }
}

/// Whether one of some names marks everything offered as a secret.
pub open spec fn marked_secret(names: Seq<Seq<char>>) -> bool {
    exists|i: int| 0 <= i < names.len() && kind::sensitive(#[trigger] names[i])
}

/// Some targets as the contracts speak of them.
pub open spec fn target_views(targets: Seq<(u32, String)>) -> Seq<(u32, Seq<char>)> {
    Seq::new(targets.len(), |i: int| (targets[i].0, targets[i].1@))
}

/// The targets to ask for, in order: every name worth recording, as the atom it
/// was offered as.
pub open spec fn targets_of(offered: Seq<(u32, String)>, names: Seq<Seq<char>>) -> Seq<
    (u32, Seq<char>),
>
    decreases names.len(),
{
    if names.len() == 0 {
        Seq::empty()
    } else {
        let earlier = targets_of(offered, names.drop_last());
        match atom_of(offered, names.last()) {
            Some(atom) => earlier.push((atom, names.last())),
            None => earlier,
        }
    }
}

fn find_atom(offered: &[(u32, String)], name: &str) -> (atom: Option<u32>)
    ensures
        atom == atom_of(offered@, name@),
{
    let mut i: usize = 0;
    assert(offered@.skip(0) =~= offered@);
    while i < offered.len()
        invariant
            i <= offered.len(),
            atom_of(offered@, name@) == atom_of(offered@.skip(i as int), name@),
        decreases offered.len() - i,
    {
        assert(offered@.skip(i as int)[0] == offered@[i as int]);
        assert(offered@.skip(i as int).drop_first() =~= offered@.skip(i as int + 1));
        if text::same(offered[i].1.as_str(), name) {
            return Some(offered[i].0);
        }
        i += 1;
    }
    None
}

/// Picks the targets to ask an owner for out of all it offers. Nothing is asked
/// for where one of them marks the contents as a secret: one secret hint
/// condemns the whole event, whatever else it offers — the bytes are never
/// requested, let alone stored.
pub fn targets_to_read(offered: &[(u32, String)]) -> (targets: Option<Vec<(u32, String)>>)
    ensures
        match targets {
            Some(targets) => !marked_secret(names_of(offered@)) && target_views(targets@)
                == targets_of(offered@, kind::recorded_names(names_of(offered@))),
            None => marked_secret(names_of(offered@)),
        },
{
    let mut names: Vec<String> = Vec::new();
    let mut i: usize = 0;
    while i < offered.len()
        invariant
            i <= offered.len(),
            text::contents(names@) == names_of(offered@).take(i as int),
            forall|k: int| 0 <= k < i ==> !kind::sensitive(#[trigger] names_of(offered@)[k]),
        decreases offered.len() - i,
    {
        let ghost before = text::contents(names@);
        assert(names_of(offered@)[i as int] == offered@[i as int].1@);
        if kind::is_sensitive(offered[i].1.as_str()) {
            return None;
        }
        names.push(offered[i].1.clone());
        assert(text::contents(names@) =~= before.push(offered@[i as int].1@));
        assert(text::contents(names@) =~= names_of(offered@).take(i as int + 1));
        i += 1;
    }
    assert(text::contents(names@) =~= names_of(offered@));
    let picked = kind::recordable(&names);
    let ghost wanted = text::contents(picked@);
    let mut targets: Vec<(u32, String)> = Vec::new();
    let mut n: usize = 0;
    assert(target_views(targets@) =~= targets_of(offered@, wanted.take(0)));
    while n < picked.len()
        invariant
            n <= picked.len(),
            wanted == text::contents(picked@),
            target_views(targets@) == targets_of(offered@, wanted.take(n as int)),
        decreases picked.len() - n,
    {
        let ghost before = target_views(targets@);
        proof {
            assert(wanted.take(n as int + 1).drop_last() =~= wanted.take(n as int));
            assert(wanted.take(n as int + 1).last() == picked@[n as int]@);
        }
        if let Some(atom) = find_atom(offered, picked[n].as_str()) {
            targets.push((atom, picked[n].clone()));
            assert(target_views(targets@) =~= before.push((atom, picked@[n as int]@)));
        }
        n += 1;
    }
    assert(wanted.take(wanted.len() as int) =~= wanted);
    Some(targets)
}

/// What reading a clipboard has collected, as long as its owner stays.
pub struct Reading {
    parts: Vec<capture::Offer>,
    changed: bool,
}

impl View for Reading {
    type V = Option<Seq<capture::OfferView>>;

    /// What was collected; nothing once the owner changed, since whatever was
    /// collected may mix two different copies.
    closed spec fn view(&self) -> Option<Seq<capture::OfferView>> {
        if self.changed {
            None
        } else {
            Some(capture::offer_views(self.parts@))
        }
    }
}

impl Reading {
    pub fn new() -> (reading: Reading)
        ensures
            reading@ == Some(Seq::<capture::OfferView>::empty()),
    {
        let reading = Reading { parts: Vec::new(), changed: false };
        assert(capture::offer_views(reading.parts@) =~= Seq::<capture::OfferView>::empty());
        reading
    }

    /// Takes what a transfer of one representation brought, and whether the
    /// owner changed on the way. Tells whether to go on.
    pub fn take(&mut self, mime: &str, content: Option<Vec<u8>>, changed: bool) -> (go_on: bool)
        ensures
            go_on == final(self)@ is Some,
            final(self)@ == (match old(self)@ {
                Some(parts) => if changed {
                    None
                } else {
                    Some(
                        capture::pushed(
                            parts,
                            mime@,
                            crate::store::thumb::optional_bytes(content),
                        ),
                    )
                },
                None => None,
            }),
    {
        if changed {
            self.changed = true;
        }
        if !self.changed {
            capture::push(&mut self.parts, mime, content);
        }
        !self.changed
    }

    /// The representations to archive, unless the owner changed.
    pub fn finish(self) -> (parts: Option<Vec<capture::Offer>>)
        ensures
            match parts {
                Some(parts) => self@ == Some(capture::offer_views(parts@)),
                None => self@ is None,
            },
    {
        if self.changed {
            None
        } else {
            Some(self.parts)
        }
    }
}

// ---------------------------------------------------------------------------
// What a watch promises
// ---------------------------------------------------------------------------

/// Nothing but a new owner of the clipboard ends a transfer as one that was
/// overtaken; it ends it whatever was being waited for, and nothing of it is
/// kept.
pub proof fn a_new_owner_ends_a_transfer(
    transfer: TransferView,
    seen: Seen,
    atoms: Atoms,
    window: u32,
)
    ensures
        ({
            let after = after_event(transfer, seen, atoms, window);
            let overtaken = seen is Owner && seen->Owner_selection == atoms.clipboard;
            &&& overtaken ==> after.changed && after.stage == StageView::Over(None)
            &&& !overtaken ==> after.changed == transfer.changed
            &&& after.consent_only == transfer.consent_only
        }),
{
}

/// A transfer goes on with the answer to its own conversion, or with a new
/// chunk in its own property, and lets every other event pass.
pub proof fn only_its_own_events_move_a_transfer(
    transfer: TransferView,
    seen: Seen,
    atoms: Atoms,
    window: u32,
)
    requires
        !(seen is Owner && seen->Owner_selection == atoms.clipboard),
    ensures
        ({
            let after = after_event(transfer, seen, atoms, window);
            let answered = seen is Selection && seen->requestor == window
                && seen->Selection_selection == atoms.clipboard;
            let written = seen is Property && seen->window == window && seen->atom == atoms.data
                && seen->written;
            &&& transfer.stage is Converting && answered && seen->property == 0 ==> after.stage
                == StageView::Over(None)
            &&& transfer.stage is Converting && answered && seen->property != 0
                && !transfer.consent_only ==> after.stage is Fetching
            &&& transfer.stage is Converting && answered && seen->property != 0
                && transfer.consent_only ==> after.stage == StageView::Over(
                Some(Seq::<u8>::empty()),
            )
            &&& transfer.stage is Converting && !answered ==> after == transfer
            &&& transfer.stage matches StageView::Streaming(bytes) ==> {
                &&& written ==> after.stage == StageView::Reading(bytes)
                &&& !written ==> after == transfer
            }
            &&& !(transfer.stage is Converting) && !(transfer.stage is Streaming) ==> after
                == transfer
        }),
{
}

/// An answer that is there at once is the content, once its property is
/// deleted; where it will come in chunks, none of them is there yet. Whatever
/// cannot be read or deleted brings nothing.
pub proof fn an_answer_is_the_content(
    transfer: TransferView,
    kind: u32,
    value: Seq<u8>,
    atoms: Atoms,
)
    requires
        transfer.stage is Fetching,
    ensures
        kind != atoms.incr ==> {
            let read = after_property(transfer, Some((kind, value)), atoms);
            &&& need_of(read.stage) == Need::Delete
            &&& after_delete(read, true).stage == StageView::Over(Some(value))
            &&& after_delete(read, false).stage == StageView::Over(None)
            &&& after_delete(read, true).changed == transfer.changed
        },
        kind == atoms.incr ==> {
            let read = after_property(transfer, Some((kind, value)), atoms);
            &&& need_of(read.stage) == Need::Delete
            &&& after_delete(read, true).stage == StageView::Streaming(Seq::<u8>::empty())
            &&& after_delete(read, false).stage == StageView::Over(None)
            &&& after_delete(read, true).changed == transfer.changed
        },
        after_property(transfer, None, atoms).stage == StageView::Over(None),
{
}

/// A chunk that is there is added behind the chunks before it; an empty one
/// ends the transfer with all of them, and one that cannot be read ends it with
/// nothing. Chunks together are all their bytes in order.
pub proof fn chunks_add_up(
    transfer: TransferView,
    bytes: Seq<u8>,
    chunk: Seq<u8>,
    chunks: Seq<Seq<u8>>,
)
    requires
        transfer.stage == StageView::Reading(bytes),
    ensures
        chunk.len() > 0 ==> after_chunk(transfer, Some(chunk)).stage == StageView::Streaming(
            bytes + chunk,
        ),
        after_chunk(transfer, Some(Seq::empty())).stage == StageView::Over(Some(bytes)),
        after_chunk(transfer, None).stage == StageView::Over(None),
        after_chunk(transfer, Some(chunk)).changed == transfer.changed,
        joined(chunks) == chunks.flatten(),
    decreases chunks.len(),
{
    if chunks.len() > 0 {
        let front = chunks.drop_last();
        chunks_add_up(transfer, bytes, chunk, front);
        front.lemma_flatten_push(chunks.last());
        assert(front.push(chunks.last()) =~= chunks);
    } else {
        assert(joined(chunks) =~= chunks.flatten());
    }
}

/// Something is left to do until a transfer is over, and an owner that does not
/// answer is waited on for five seconds, one that streams for thirty a chunk.
pub proof fn a_transfer_waits_a_bounded_time(stage: StageView)
    ensures
        need_of(stage) == Need::Nothing <==> stage is Over,
        need_of(stage) matches Need::Event(seconds) ==> {
            &&& stage is Converting ==> seconds == 5
            &&& stage is Streaming ==> seconds == 30
            &&& stage is Converting || stage is Streaming
        },
        stage is Asking ==> need_of(stage) == Need::Convert,
        stage is Converting || stage is Streaming ==> need_of(stage) is Event,
        stage is Fetching ==> need_of(stage) == Need::Property,
        stage is Clearing || stage is Starting ==> need_of(stage) == Need::Delete,
        stage is Reading ==> need_of(stage) == Need::Chunk,
{
}

/// Every name worth recording is asked for, once and in the order offered, as
/// the atom it was first offered as; and nothing else is.
pub proof fn every_name_worth_it_is_asked_for(offered: Seq<(u32, String)>, k: int)
    ensures
        ({
            let names = kind::recorded_names(names_of(offered));
            let targets = targets_of(offered, names);
            &&& targets.len() == names.len()
            &&& 0 <= k < names.len() ==> targets[k].1 == names[k] && exists|i: int|
                0 <= i < offered.len() && (#[trigger] offered[i]).1@ == names[k] && offered[i].0
                    == targets[k].0 && forall|j: int|
                    0 <= j < i ==> (#[trigger] offered[j]).1@ != names[k]
        }),
{
    let all = names_of(offered);
    let names = kind::recorded_names(all);
    kind::every_name_worth_it_is_recorded_once(all, Seq::empty());
    assert forall|n: int| 0 <= n < names.len() implies offers(offered, #[trigger] names[n]) by {
        assert(names.contains(names[n]));
        assert(all.contains(names[n]));
        let i = choose|i: int| 0 <= i < all.len() && all[i] == names[n];
        assert(offered[i].1@ == names[n]);
    }
    offered_names_are_targets(offered, names, k);
}

spec fn offers(offered: Seq<(u32, String)>, name: Seq<char>) -> bool {
    exists|i: int| 0 <= i < offered.len() && (#[trigger] offered[i]).1@ == name
}

proof fn offered_names_are_targets(offered: Seq<(u32, String)>, names: Seq<Seq<char>>, k: int)
    requires
        forall|n: int| 0 <= n < names.len() ==> offers(offered, #[trigger] names[n]),
    ensures
        targets_of(offered, names).len() == names.len(),
        0 <= k < names.len() ==> targets_of(offered, names)[k].1 == names[k] && exists|i: int|
            0 <= i < offered.len() && (#[trigger] offered[i]).1@ == names[k] && offered[i].0
                == targets_of(offered, names)[k].0 && forall|j: int|
                0 <= j < i ==> (#[trigger] offered[j]).1@ != names[k],
    decreases names.len(),
{
    if names.len() > 0 {
        let front = names.drop_last();
        assert forall|n: int| 0 <= n < front.len() implies offers(offered, #[trigger] front[n]) by {
            assert(front[n] == names[n]);
        }
        offered_names_are_targets(offered, front, k);
        assert(offers(offered, names[names.len() - 1]));
        the_first_offered_is_found(offered, names.last());
    }
}

proof fn the_first_offered_is_found(offered: Seq<(u32, String)>, name: Seq<char>)
    ensures
        match atom_of(offered, name) {
            Some(atom) => exists|i: int|
                0 <= i < offered.len() && (#[trigger] offered[i]).1@ == name && offered[i].0 == atom
                    && forall|j: int| 0 <= j < i ==> (#[trigger] offered[j]).1@ != name,
            None => forall|i: int| 0 <= i < offered.len() ==> (#[trigger] offered[i]).1@ != name,
        },
    decreases offered.len(),
{
    if offered.len() > 0 && offered[0].1@ != name {
        let rest = offered.drop_first();
        the_first_offered_is_found(rest, name);
        match atom_of(rest, name) {
            Some(atom) => {
                let i = choose|i: int|
                    0 <= i < rest.len() && (#[trigger] rest[i]).1@ == name && rest[i].0 == atom
                        && forall|j: int| 0 <= j < i ==> (#[trigger] rest[j]).1@ != name;
                assert(offered[i + 1] == rest[i]);
                assert forall|j: int| 0 <= j < i + 1 implies (#[trigger] offered[j]).1@ != name by {
                    if j > 0 {
                        assert(rest[j - 1] == offered[j]);
                    }
                }
            },
            None => {
                assert forall|i: int| 0 <= i < offered.len() implies (#[trigger] offered[i]).1@
                    != name by {
                    if i > 0 {
                        assert(rest[i - 1] == offered[i]);
                    }
                }
            },
        }
    } else if offered.len() > 0 {
        assert(offered[0].1@ == name);
    }
}

/// One name that marks a secret condemns all that is offered beside it.
pub proof fn one_secret_condemns_all(offered: Seq<(u32, String)>)
    ensures
        marked_secret(names_of(offered)) <==> exists|i: int|
            0 <= i < offered.len() && kind::sensitive((#[trigger] offered[i]).1@),
        names_of(offered).len() == offered.len(),
        forall|i: int|
            0 <= i < offered.len() ==> #[trigger] names_of(offered)[i] == offered[i].1@,
        RECONNECT_MIN == 1,
        RECONNECT_MAX == 60,
{
    let names = names_of(offered);
    if marked_secret(names) {
        let i = choose|i: int| 0 <= i < names.len() && kind::sensitive(#[trigger] names[i]);
        assert(kind::sensitive(offered[i].1@));
    }
    if exists|i: int| 0 <= i < offered.len() && kind::sensitive((#[trigger] offered[i]).1@) {
        let i = choose|i: int|
            0 <= i < offered.len() && kind::sensitive((#[trigger] offered[i]).1@);
        assert(kind::sensitive(names[i]));
    }
}

} // verus!
