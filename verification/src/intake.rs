//! Taking one representation off a connection.
//!
//! However this ends, exactly the declared payload is consumed and no more.
//! That is the whole difficulty: the frames that follow a part are on the far
//! side of its bytes, so reading one byte too few or too many leaves every
//! later frame misaligned, and a payload is opaque so nothing downstream could
//! notice.
//!
//! The connection and the files belong to the caller. An intake says what to do
//! next, is told how that went, and ends with what became of the part.

use crate::proto;
use crate::store;
use crate::store::blobs;
use crate::store::index;
use crate::text;
use vstd::prelude::*;

verus! {

/// How taking one part ended.
#[derive(Debug)]
pub enum PartOutcome {
    Recorded(store::Accepted),
    /// The draft named is not open. The payload was consumed anyway.
    NoDraft,
    Failed(store::StoreError),
}

/// The same as the contracts speak of it.
pub enum PartOutcomeView {
    Recorded(index::PartView),
    NoDraft,
    Failed(store::StoreErrorView),
}

impl View for PartOutcome {
    type V = PartOutcomeView;

    open spec fn view(&self) -> PartOutcomeView {
        match *self {
            PartOutcome::Recorded(accepted) => PartOutcomeView::Recorded(accepted@),
            PartOutcome::NoDraft => PartOutcomeView::NoDraft,
            PartOutcome::Failed(error) => PartOutcomeView::Failed(error@),
        }
    }
}

/// What the caller is to do next.
#[derive(Debug)]
pub enum Action {
    /// Create the temporary the content is written to.
    Create,
    /// Read at most this many bytes of payload and write them to the temporary.
    Read(u64),
    /// Read this many bytes of payload and drop them.
    Skip(u64),
    /// Read the next frame, which has to be a chunk.
    Frame,
    /// Give the temporary its name.
    Seal(String),
    /// Nothing: the part is done.
    Done,
}

/// The same as the contracts speak of it.
pub enum ActionView {
    Create,
    Read(nat),
    Skip(nat),
    Frame,
    Seal(Seq<char>),
    Done,
}

impl View for Action {
    type V = ActionView;

    open spec fn view(&self) -> ActionView {
        match *self {
            Action::Create => ActionView::Create,
            Action::Read(bytes) => ActionView::Read(bytes as nat),
            Action::Skip(bytes) => ActionView::Skip(bytes as nat),
            Action::Frame => ActionView::Frame,
            Action::Seal(digest) => ActionView::Seal(digest@),
            Action::Done => ActionView::Done,
        }
    }
}

/// How far an intake has come.
enum Stage {
    /// The temporary is to be created.
    Create(store::Incoming),
    /// The payload is being stored.
    Storing(store::Incoming),
    /// The payload is being dropped, for the failure given or for want of a
    /// draft.
    Dropping(Option<store::StoreError>),
    /// The content is complete and the temporary is to get its name.
    Sealing(store::Accepted),
    Done(PartOutcome),
}

/// The same as the contracts speak of it.
pub enum StageView {
    Create(store::IncomingView),
    Storing(store::IncomingView),
    Dropping(Option<store::StoreErrorView>),
    Sealing(index::PartView),
    Done(PartOutcomeView),
}

/// A part being taken, as the contracts speak of it: how far it has come, how
/// many bytes of payload are announced and not read yet, whether it comes in
/// chunks, whether its draft was open when it came, and how many bytes of
/// payload were announced and read in all.
pub struct IntakeView {
    pub stage: StageView,
    pub left: nat,
    pub chunked: bool,
    pub known: bool,
    pub announced: nat,
    pub consumed: nat,
}

/// A part being taken.
pub struct Intake {
    stage: Stage,
    left: u64,
    chunked: bool,
    known: Ghost<bool>,
    announced: Ghost<nat>,
    consumed: Ghost<nat>,
}

spec fn stage_view(stage: Stage) -> StageView {
    match stage {
        Stage::Create(incoming) => StageView::Create(incoming@),
        Stage::Storing(incoming) => StageView::Storing(incoming@),
        Stage::Dropping(failure) => StageView::Dropping(
            match failure {
                Some(error) => Some(error@),
                None => None,
            },
        ),
        Stage::Sealing(accepted) => StageView::Sealing(accepted@),
        Stage::Done(outcome) => StageView::Done(outcome@),
    }
}

impl View for Intake {
    type V = IntakeView;

    closed spec fn view(&self) -> IntakeView {
        IntakeView {
            stage: stage_view(self.stage),
            left: self.left as nat,
            chunked: self.chunked,
            known: self.known@,
            announced: self.announced@,
            consumed: self.consumed@,
        }
    }
}

/// The representation some content makes.
pub open spec fn finished(incoming: store::IncomingView) -> index::PartView {
    index::PartView {
        mime: incoming.mime,
        digest: blobs::name_of(incoming.content),
        bytes: blobs::counted(incoming.content.len()) as nat,
    }
}

/// How a part ends whose payload was dropped.
pub open spec fn dropped(failure: Option<store::StoreErrorView>) -> PartOutcomeView {
    match failure {
        Some(error) => PartOutcomeView::Failed(error),
        None => PartOutcomeView::NoDraft,
    }
}

/// Where a part stands once all of its payload was read.
pub open spec fn ended(stage: StageView) -> StageView {
    match stage {
        StageView::Storing(incoming) => StageView::Sealing(finished(incoming)),
        StageView::Dropping(failure) => StageView::Done(dropped(failure)),
        other => other,
    }
}

/// Whether a part is on its way to end for want of a draft, or has.
pub open spec fn without_draft(stage: StageView) -> bool {
    stage == StageView::Dropping(None) || stage == StageView::Done(PartOutcomeView::NoDraft)
}

/// What holds of every part being taken: what was announced is what was read
/// and what is left, what is being stored is all that was read, what it is
/// stored under has the shape of a digest, and it goes without a draft exactly
/// where it came without one.
pub open spec fn conserved(intake: IntakeView) -> bool {
    &&& intake.announced == intake.consumed + intake.left
    &&& intake.stage matches StageView::Create(incoming) ==> incoming.content.len() == 0
        && intake.consumed == 0
    &&& intake.stage matches StageView::Storing(incoming) ==> incoming.content.len()
        == intake.consumed
    &&& (intake.stage is Storing || intake.stage is Dropping) && !intake.chunked ==> intake.left > 0
    &&& intake.stage is Sealing || intake.stage is Done ==> intake.left == 0
    &&& intake.stage matches StageView::Sealing(part) ==> blobs::is_digest(part.digest)
    &&& intake.stage matches StageView::Done(PartOutcomeView::Recorded(part)) ==> blobs::is_digest(
        part.digest,
    )
    &&& without_draft(intake.stage) <==> !intake.known
}

/// What is to be done next.
pub open spec fn next_action(intake: IntakeView) -> ActionView {
    match intake.stage {
        StageView::Create(_) => ActionView::Create,
        StageView::Storing(_) => if intake.left == 0 {
            ActionView::Frame
        } else if intake.left <= blobs::COPY_BUFFER {
            ActionView::Read(intake.left)
        } else {
            ActionView::Read(blobs::COPY_BUFFER as nat)
        },
        StageView::Dropping(_) => if intake.left == 0 {
            ActionView::Frame
        } else {
            ActionView::Skip(intake.left)
        },
        StageView::Sealing(part) => ActionView::Seal(part.digest),
        StageView::Done(_) => ActionView::Done,
    }
}

/// A part of declared length at its beginning.
pub open spec fn whole_part(
    mime: Seq<char>,
    budget: int,
    known: bool,
    bytes: nat,
) -> IntakeView {
    IntakeView {
        stage: if known && bytes <= store::room(budget) {
            StageView::Create(store::IncomingView { content: Seq::empty(), mime, budget })
        } else {
            let failure = if known {
                Some(store::StoreErrorView::TooLarge)
            } else {
                None
            };
            if bytes == 0 {
                ended(StageView::Dropping(failure))
            } else {
                StageView::Dropping(failure)
            }
        },
        left: bytes,
        chunked: false,
        known,
        announced: bytes,
        consumed: 0,
    }
}

/// A part of unknown length at its beginning.
pub open spec fn chunked_part(mime: Seq<char>, budget: int, known: bool) -> IntakeView {
    IntakeView {
        stage: if known {
            StageView::Create(store::IncomingView { content: Seq::empty(), mime, budget })
        } else {
            StageView::Dropping(None)
        },
        left: 0,
        chunked: true,
        known,
        announced: 0,
        consumed: 0,
    }
}

/// The stage of a part that comes whole and has nothing left to read.
pub open spec fn settled(stage: StageView, left: nat, chunked: bool) -> StageView {
    if left == 0 && !chunked {
        ended(stage)
    } else {
        stage
    }
}

/// A part after creating its temporary succeeded or failed.
pub open spec fn after_create(intake: IntakeView, failure: Option<Seq<char>>) -> IntakeView {
    let stage = match (intake.stage, failure) {
        (StageView::Create(incoming), None) => StageView::Storing(incoming),
        (_, Some(words)) => StageView::Dropping(Some(store::StoreErrorView::Io(words))),
        (stage, None) => stage,
    };
    IntakeView { stage: settled(stage, intake.left, intake.chunked), ..intake }
}

/// The stage of a part after one more piece of it was stored.
pub open spec fn stage_after_piece(intake: IntakeView, piece: Seq<u8>) -> StageView {
    match intake.stage {
        StageView::Storing(incoming) => {
            let longer = store::IncomingView { content: incoming.content + piece, ..incoming };
            if intake.chunked && piece.len() == intake.left && blobs::counted(longer.content.len())
                > store::room(incoming.budget) {
                // The end of a chunk is where the budget is looked at.
                StageView::Dropping(Some(store::StoreErrorView::TooLarge))
            } else {
                StageView::Storing(longer)
            }
        },
        other => other,
    }
}

/// A part after a piece of it was read and written, or could not be written.
pub open spec fn after_piece(
    intake: IntakeView,
    piece: Seq<u8>,
    failure: Option<Seq<char>>,
) -> IntakeView {
    let left = (intake.left - piece.len()) as nat;
    let stage = match failure {
        Some(words) => StageView::Dropping(Some(store::StoreErrorView::Io(words))),
        None => stage_after_piece(intake, piece),
    };
    IntakeView {
        stage: settled(stage, left, intake.chunked),
        left,
        consumed: intake.consumed + piece.len(),
        ..intake
    }
}

/// What is said of a payload that ended too early.
pub open spec fn cut_short(left: nat) -> Seq<char> {
    "payload ended "@ + text::decimal(left) + " bytes early"@
}

/// A part after the connection ended in the middle of its payload.
pub open spec fn after_cut(intake: IntakeView) -> IntakeView {
    IntakeView {
        stage: StageView::Dropping(Some(store::StoreErrorView::Io(cut_short(intake.left)))),
        ..intake
    }
}

/// A part after the rest of its payload was dropped.
pub open spec fn after_skip(intake: IntakeView) -> IntakeView {
    IntakeView {
        stage: settled(intake.stage, 0, intake.chunked),
        left: 0,
        consumed: intake.consumed + intake.left,
        ..intake
    }
}

/// A part after a chunk was announced; one of length zero ends the part.
pub open spec fn after_chunk(intake: IntakeView, bytes: nat) -> IntakeView {
    if bytes == 0 {
        IntakeView { stage: ended(intake.stage), ..intake }
    } else {
        IntakeView { left: bytes, announced: intake.announced + bytes, ..intake }
    }
}

/// A part after its temporary got its name, or could not.
pub open spec fn after_seal(intake: IntakeView, failure: Option<Seq<char>>) -> IntakeView {
    IntakeView {
        stage: match (intake.stage, failure) {
            (StageView::Sealing(part), None) => StageView::Done(PartOutcomeView::Recorded(part)),
            (_, Some(words)) => StageView::Done(
                PartOutcomeView::Failed(store::StoreErrorView::Io(words)),
            ),
            (stage, None) => stage,
        },
        ..intake
    }
}

/// A failure some optional string tells of.
pub open spec fn failure_of(result: Result<(), String>) -> Option<Seq<char>> {
    match result {
        Ok(()) => None,
        Err(words) => Some(words@),
    }
}

impl Intake {
    spec fn parts_well_formed(self) -> bool {
        match self.stage {
            Stage::Create(incoming) => incoming.well_formed(),
            Stage::Storing(incoming) => incoming.well_formed(),
            _ => true,
        }
    }

    pub closed spec fn well_formed(self) -> bool {
        self.parts_well_formed() && conserved(self@)
    }

    /// What was announced is what was read and what is left.
    pub proof fn is_conserved(&self)
        requires
            self.well_formed(),
        ensures
            conserved(self@),
    {
    }

    /// Begins taking a part that declared its length. `known` says whether the
    /// draft it names is open.
    pub fn whole(archive: &store::Store, mime: &str, known: bool, bytes: u64) -> (intake: Intake)
        ensures
            intake.well_formed(),
            intake@ == whole_part(mime@, archive@.budget, known, bytes as nat),
    {
        let stage = if known {
            match archive.accept(mime, bytes) {
                Ok(incoming) => Stage::Create(incoming),
                Err(error) => if bytes == 0 {
                    Stage::Done(PartOutcome::Failed(error))
                } else {
                    Stage::Dropping(Some(error))
                },
            }
        } else if bytes == 0 {
            Stage::Done(PartOutcome::NoDraft)
        } else {
            Stage::Dropping(None)
        };
        Intake {
            stage,
            left: bytes,
            chunked: false,
            known: Ghost(known),
            announced: Ghost(bytes as nat),
            consumed: Ghost(0),
        }
    }

    /// Begins taking a part that declared no length, its chunks to follow.
    ///
    /// Every chunk is consumed even once the content is known to be unusable,
    /// because the terminator — and everything after it — is on the far side
    /// of them.
    pub fn chunked(archive: &store::Store, mime: &str, known: bool) -> (intake: Intake)
        ensures
            intake.well_formed(),
            intake@ == chunked_part(mime@, archive@.budget, known),
    {
        let stage = if known {
            Stage::Create(archive.incoming(mime))
        } else {
            Stage::Dropping(None)
        };
        Intake {
            stage,
            left: 0,
            chunked: true,
            known: Ghost(known),
            announced: Ghost(0),
            consumed: Ghost(0),
        }
    }

    /// What is to be done next.
    pub fn next(&self) -> (action: Action)
        requires
            self.well_formed(),
        ensures
            action@ == next_action(self@),
            action matches Action::Seal(digest) ==> blobs::is_digest(digest@),
    {
        match &self.stage {
            Stage::Create(_) => Action::Create,
            Stage::Storing(_) => {
                if self.left == 0 {
                    Action::Frame
                } else if self.left <= blobs::COPY_BUFFER as u64 {
                    Action::Read(self.left)
                } else {
                    Action::Read(blobs::COPY_BUFFER as u64)
                }
            },
            Stage::Dropping(_) => {
                if self.left == 0 {
                    Action::Frame
                } else {
                    Action::Skip(self.left)
                }
            },
            Stage::Sealing(accepted) => Action::Seal(accepted.digest.clone()),
            Stage::Done(_) => Action::Done,
        }
    }

    /// Tells whether the temporary could be created.
    pub fn created(self, result: Result<(), String>) -> (after: Intake)
        requires
            self.well_formed(),
            next_action(self@) is Create,
        ensures
            after.well_formed(),
            after@ == after_create(self@, failure_of(result)),
    {
        let stage = match (self.stage, result) {
            (Stage::Create(incoming), Ok(())) => Stage::Storing(incoming),
            (_, Err(words)) => Stage::Dropping(Some(store::StoreError::Io(words))),
            (other, Ok(())) => other,
        };
        let stage = settle(stage, self.left, self.chunked);
        Intake { stage, ..self }
    }

    /// Hands over a piece that was read, and tells whether it could be written
    /// to the temporary.
    pub fn absorb(self, piece: &[u8], result: Result<(), String>) -> (after: Intake)
        requires
            self.well_formed(),
            next_action(self@) matches ActionView::Read(most) && 0 < piece@.len() <= most,
        ensures
            after.well_formed(),
            after@ == after_piece(self@, piece@, failure_of(result)),
    {
        let left: u64 = self.left - piece.len() as u64;
        let ghost announced = self.announced@;
        let ghost consumed = self.consumed@ + piece@.len();
        let stage = match (self.stage, result) {
            (Stage::Storing(incoming), Ok(())) => {
                let mut longer = incoming;
                longer.absorb(piece);
                if self.chunked && left == 0 {
                    match longer.fits() {
                        Ok(()) => Stage::Storing(longer),
                        Err(error) => Stage::Dropping(Some(error)),
                    }
                } else {
                    Stage::Storing(longer)
                }
            },
            (_, Err(words)) => Stage::Dropping(Some(store::StoreError::Io(words))),
            (other, Ok(())) => other,
        };
        let stage = settle(stage, left, self.chunked);
        Intake {
            stage,
            left,
            chunked: self.chunked,
            known: self.known,
            announced: Ghost(announced),
            consumed: Ghost(consumed),
        }
    }

    /// Tells that the connection ended in the middle of the payload. A payload
    /// that ends early stores nothing.
    pub fn cut_off(self) -> (after: Intake)
        requires
            self.well_formed(),
            next_action(self@) is Read,
        ensures
            after.well_formed(),
            after@ == after_cut(self@),
    {
        let mut words = String::new();
        text::push_text(&mut words, "payload ended ");
        text::push_decimal(&mut words, self.left);
        text::push_text(&mut words, " bytes early");
        assert(words@ =~= cut_short(self@.left));
        Intake { stage: Stage::Dropping(Some(store::StoreError::Io(words))), ..self }
    }

    /// Tells that the rest of the payload was read and dropped.
    pub fn skipped(self) -> (after: Intake)
        requires
            self.well_formed(),
            next_action(self@) is Skip,
        ensures
            after.well_formed(),
            after@ == after_skip(self@),
    {
        let ghost consumed = self.consumed@ + self.left as nat;
        let stage = settle(self.stage, 0, self.chunked);
        Intake {
            stage,
            left: 0,
            chunked: self.chunked,
            known: self.known,
            announced: self.announced,
            consumed: Ghost(consumed),
        }
    }

    /// Takes the length the next chunk announces, zero for the terminator.
    pub fn chunk(self, bytes: u64) -> (after: Intake)
        requires
            self.well_formed(),
            next_action(self@) is Frame,
        ensures
            after.well_formed(),
            after@ == after_chunk(self@, bytes as nat),
    {
        if bytes == 0 {
            let stage = end(self.stage);
            Intake { stage, ..self }
        } else {
            let ghost announced = self.announced@ + bytes as nat;
            Intake { left: bytes, announced: Ghost(announced), ..self }
        }
    }

    /// Tells whether the temporary could be given its name.
    pub fn sealed(self, result: Result<(), String>) -> (after: Intake)
        requires
            self.well_formed(),
            next_action(self@) is Seal,
        ensures
            after.well_formed(),
            after@ == after_seal(self@, failure_of(result)),
    {
        let stage = match (self.stage, result) {
            (Stage::Sealing(accepted), Ok(())) => Stage::Done(PartOutcome::Recorded(accepted)),
            (_, Err(words)) => Stage::Done(PartOutcome::Failed(store::StoreError::Io(words))),
            (other, Ok(())) => other,
        };
        Intake { stage, ..self }
    }

    /// What became of the part, once it is done.
    pub fn outcome(self) -> (outcome: Option<PartOutcome>)
        ensures
            match outcome {
                Some(outcome) => self@.stage == StageView::Done(outcome@),
                None => !(self@.stage is Done),
            },
    {
        match self.stage {
            Stage::Done(outcome) => Some(outcome),
            _ => None,
        }
    }
}

fn end(stage: Stage) -> (after: Stage)
    requires
        stage matches Stage::Storing(incoming) ==> incoming.well_formed(),
    ensures
        stage_view(after) == ended(stage_view(stage)),
        after matches Stage::Create(incoming) ==> stage == after,
        !(after is Storing),
        after matches Stage::Sealing(accepted) ==> stage == after || blobs::is_digest(
            accepted.digest@,
        ),
{
    match stage {
        Stage::Storing(incoming) => Stage::Sealing(incoming.finish()),
        Stage::Dropping(Some(error)) => Stage::Done(PartOutcome::Failed(error)),
        Stage::Dropping(None) => Stage::Done(PartOutcome::NoDraft),
        other => other,
    }
}

fn settle(stage: Stage, left: u64, chunked: bool) -> (after: Stage)
    requires
        stage matches Stage::Storing(incoming) ==> incoming.well_formed(),
    ensures
        stage_view(after) == settled(stage_view(stage), left as nat, chunked),
        after matches Stage::Storing(incoming) ==> incoming.well_formed(),
        after matches Stage::Create(incoming) ==> stage == after,
        after matches Stage::Sealing(accepted) ==> stage == after || blobs::is_digest(
            accepted.digest@,
        ),
{
    if left == 0 && !chunked {
        end(stage)
    } else {
        stage
    }
}

/// Why a part in chunks cannot be read on. There is no count to skip, so the
/// stream cannot be brought back to a frame boundary and the connection ends.
#[derive(Debug, Clone, Copy, PartialEq, Eq, Structural)]
pub enum Interruption {
    /// The connection ended before the terminator.
    CutOff,
    /// Another frame came before the terminator.
    Interrupted,
}

impl Interruption {
    pub fn message(self) -> (words: &'static str)
        ensures
            words@ == (match self {
                Interruption::CutOff => "a chunked part was cut off before its terminator"@,
                Interruption::Interrupted => "a chunked part was interrupted by another frame"@,
            }),
    {
        match self {
            Interruption::CutOff => "a chunked part was cut off before its terminator",
            Interruption::Interrupted => "a chunked part was interrupted by another frame",
        }
    }
}

/// The length of the chunk a frame announces. The frame is absent where the
/// connection ended and an error where it is no frame of this protocol.
pub fn chunk_length(frame: Option<Result<proto::Request, String>>) -> (bytes: Result<
    u64,
    Interruption,
>)
    ensures
        bytes == (match frame {
            None => Err::<u64, Interruption>(Interruption::CutOff),
            Some(Ok(proto::Request::Chunk { bytes })) => Ok::<u64, Interruption>(bytes),
            Some(_) => Err::<u64, Interruption>(Interruption::Interrupted),
        }),
{
    match frame {
        None => Err(Interruption::CutOff),
        Some(Ok(proto::Request::Chunk { bytes })) => Ok(bytes),
        Some(_) => Err(Interruption::Interrupted),
    }
}

/// A part that is done has consumed exactly what was announced, however it
/// ended: the stream stands at the next frame.
pub proof fn exactly_the_declared_payload_is_consumed(intake: IntakeView)
    requires
        conserved(intake),
        intake.stage is Done,
    ensures
        intake.consumed == intake.announced,
{
}

/// A part ends for want of a draft exactly where the draft it named was not
/// open, whatever became of it on the way.
pub proof fn only_a_part_without_a_draft_ends_without_one(
    intake: IntakeView,
    outcome: PartOutcomeView,
)
    requires
        conserved(intake),
        intake.stage == StageView::Done(outcome),
    ensures
        outcome is NoDraft <==> !intake.known,
{
}

/// What is stored of a part is all of its payload: the content whose name the
/// part gets is as long as everything announced.
pub proof fn what_is_sealed_is_the_whole_payload(intake: IntakeView, incoming: store::IncomingView)
    requires
        conserved(intake),
        intake.stage == StageView::Storing(incoming),
        intake.left == 0,
    ensures
        incoming.content.len() == intake.announced,
        ended(intake.stage) == StageView::Sealing(finished(incoming)),
{
}

// ---------------------------------------------------------------------------
// What becomes of a part
// ---------------------------------------------------------------------------

/// A part after some pieces of it were read and written.
pub open spec fn after_pieces(intake: IntakeView, pieces: Seq<Seq<u8>>) -> IntakeView
    decreases pieces.len(),
{
    if pieces.len() == 0 {
        intake
    } else {
        after_piece(after_pieces(intake, pieces.drop_last()), pieces.last(), None)
    }
}

/// A part of declared length that fits is recorded under its mime type and the
/// name of exactly the bytes that came, whatever pieces they came in.
pub proof fn a_whole_part_is_recorded_as_it_came(
    mime: Seq<char>,
    budget: int,
    pieces: Seq<Seq<u8>>,
)
    requires
        pieces.flatten().len() <= budget,
        pieces.flatten().len() <= 0xffff_ffff_ffff_ffff,
        forall|i: int| 0 <= i < pieces.len() ==> (#[trigger] pieces[i]).len() > 0,
    ensures
        ({
            let content = pieces.flatten();
            let begun = whole_part(mime, budget, true, content.len());
            let read = after_pieces(after_create(begun, None), pieces);
            let done = after_seal(read, None);
            &&& next_action(begun) is Create
            &&& next_action(read) == ActionView::Seal(blobs::name_of(content))
            &&& done.stage == StageView::Done(
                PartOutcomeView::Recorded(
                    (index::PartView {
                        mime,
                        digest: blobs::name_of(content),
                        bytes: content.len(),
                    }),
                ),
            )
        }),
{
    let content = pieces.flatten();
    let begun = whole_part(mime, budget, true, content.len());
    let created = after_create(begun, None);
    if pieces.len() == 0 {
        assert(content =~= Seq::<u8>::empty());
    } else {
        assert(pieces[0].len() > 0);
        flattened_from_the_front(pieces);
        pieces_are_stored(created, mime, budget, pieces, pieces.len() as int);
        assert(pieces.take(pieces.len() as int) =~= pieces);
    }
}

proof fn flattened_from_the_front(pieces: Seq<Seq<u8>>)
    requires
        pieces.len() > 0,
    ensures
        pieces.flatten().len() >= pieces[0].len(),
{
}

proof fn flattened_so_far(pieces: Seq<Seq<u8>>, count: int)
    requires
        0 <= count < pieces.len(),
    ensures
        pieces.take(count + 1).flatten() == pieces.take(count).flatten() + pieces[count],
        pieces.take(count + 1).flatten().len() <= pieces.flatten().len(),
    decreases pieces.len() - count,
{
    pieces.take(count).lemma_flatten_push(pieces[count]);
    assert(pieces.take(count + 1) =~= pieces.take(count).push(pieces[count]));
    if count + 1 < pieces.len() {
        flattened_so_far(pieces, count + 1);
    } else {
        assert(pieces.take(count + 1) =~= pieces);
    }
}

proof fn pieces_are_stored(
    created: IntakeView,
    mime: Seq<char>,
    budget: int,
    pieces: Seq<Seq<u8>>,
    count: int,
)
    requires
        0 <= count <= pieces.len(),
        pieces.len() > 0,
        pieces.flatten().len() <= 0xffff_ffff_ffff_ffff,
        forall|i: int| 0 <= i < pieces.len() ==> (#[trigger] pieces[i]).len() > 0,
        created.stage == StageView::Storing(
            (store::IncomingView { content: Seq::empty(), mime, budget }),
        ),
        created.left == pieces.flatten().len(),
        !created.chunked,
    ensures
        ({
            let read = after_pieces(created, pieces.take(count));
            let so_far = pieces.take(count).flatten();
            let incoming = store::IncomingView { content: so_far, mime, budget };
            &&& !read.chunked
            &&& read.left == pieces.flatten().len() - so_far.len()
            &&& count < pieces.len() ==> read.left > 0 && read.stage == StageView::Storing(incoming)
            &&& count == pieces.len() ==> read.stage == StageView::Sealing(
                (index::PartView {
                    mime,
                    digest: blobs::name_of(so_far),
                    bytes: so_far.len(),
                }),
            )
        }),
    decreases count,
{
    if count == 0 {
        assert(pieces.take(0) =~= Seq::empty());
        assert(pieces.take(0).flatten() =~= Seq::<u8>::empty());
        flattened_from_the_front(pieces);
        assert(pieces[0].len() > 0);
    } else {
        pieces_are_stored(created, mime, budget, pieces, count - 1);
        flattened_so_far(pieces, count - 1);
        assert(pieces.take(count).drop_last() =~= pieces.take(count - 1));
        assert(pieces.take(count).last() == pieces[count - 1]);
        if count < pieces.len() {
            flattened_so_far(pieces, count);
            assert(pieces[count].len() > 0);
        } else {
            assert(pieces.take(count) =~= pieces);
        }
    }
}

/// A part after some chunks of it were announced, read and written.
pub open spec fn after_chunks(intake: IntakeView, chunks: Seq<Seq<u8>>) -> IntakeView
    decreases chunks.len(),
{
    if chunks.len() == 0 {
        intake
    } else {
        let earlier = after_chunks(intake, chunks.drop_last());
        after_piece(after_chunk(earlier, chunks.last().len()), chunks.last(), None)
    }
}

/// A part in chunks that fits is recorded under its mime type and the name of
/// all its chunks together, once the empty chunk has come.
pub proof fn a_part_in_chunks_is_recorded_as_it_came(
    mime: Seq<char>,
    budget: int,
    chunks: Seq<Seq<u8>>,
)
    requires
        chunks.flatten().len() <= budget,
        chunks.flatten().len() <= 0xffff_ffff_ffff_ffff,
        forall|i: int| 0 <= i < chunks.len() ==> (#[trigger] chunks[i]).len() > 0,
    ensures
        ({
            let content = chunks.flatten();
            let begun = chunked_part(mime, budget, true);
            let read = after_chunks(after_create(begun, None), chunks);
            let done = after_seal(after_chunk(read, 0), None);
            &&& next_action(begun) is Create
            &&& next_action(read) is Frame
            &&& done.stage == StageView::Done(
                PartOutcomeView::Recorded(
                    (index::PartView {
                        mime,
                        digest: blobs::name_of(content),
                        bytes: content.len(),
                    }),
                ),
            )
        }),
{
    let created = after_create(chunked_part(mime, budget, true), None);
    chunks_are_stored(created, mime, budget, chunks, chunks.len() as int);
    assert(chunks.take(chunks.len() as int) =~= chunks);
}

proof fn chunks_are_stored(
    created: IntakeView,
    mime: Seq<char>,
    budget: int,
    chunks: Seq<Seq<u8>>,
    count: int,
)
    requires
        0 <= count <= chunks.len(),
        chunks.flatten().len() <= budget,
        chunks.flatten().len() <= 0xffff_ffff_ffff_ffff,
        forall|i: int| 0 <= i < chunks.len() ==> (#[trigger] chunks[i]).len() > 0,
        created.stage == StageView::Storing(
            (store::IncomingView { content: Seq::empty(), mime, budget }),
        ),
        created.left == 0,
        created.chunked,
    ensures
        ({
            let read = after_chunks(created, chunks.take(count));
            let so_far = chunks.take(count).flatten();
            &&& read.chunked
            &&& read.left == 0
            &&& so_far.len() <= chunks.flatten().len()
            &&& read.stage == StageView::Storing(
                (store::IncomingView { content: so_far, mime, budget }),
            )
        }),
    decreases count,
{
    if count == 0 {
        assert(chunks.take(0) =~= Seq::empty());
        assert(chunks.take(0).flatten() =~= Seq::<u8>::empty());
    } else {
        chunks_are_stored(created, mime, budget, chunks, count - 1);
        flattened_so_far(chunks, count - 1);
        assert(chunks.take(count).drop_last() =~= chunks.take(count - 1));
        assert(chunks.take(count).last() == chunks[count - 1]);
    }
}

/// A chunk with which a part no longer fits makes it one that is too large; a
/// part of declared length that cannot fit is too large from the start. Nothing
/// of either is kept, and all of it is still consumed.
pub proof fn what_cannot_fit_is_dropped(
    mime: Seq<char>,
    budget: int,
    bytes: nat,
    intake: IntakeView,
    incoming: store::IncomingView,
    chunk: Seq<u8>,
)
    requires
        intake.stage == StageView::Storing(incoming),
        intake.chunked,
        intake.left == chunk.len(),
        chunk.len() > 0,
    ensures
        incoming.content.len() + chunk.len() > incoming.budget && incoming.content.len()
            + chunk.len() <= 0xffff_ffff_ffff_ffff ==> after_piece(intake, chunk, None).stage
            == StageView::Dropping(Some(store::StoreErrorView::TooLarge)),
        incoming.content.len() + chunk.len() <= incoming.budget ==> after_piece(
            intake,
            chunk,
            None,
        ).stage == StageView::Storing(
            (store::IncomingView { content: incoming.content + chunk, ..incoming }),
        ),
        bytes > budget && bytes > 0 ==> {
            let begun = whole_part(mime, budget, true, bytes);
            &&& begun.stage == StageView::Dropping(Some(store::StoreErrorView::TooLarge))
            &&& next_action(begun) == ActionView::Skip(bytes)
        },
{
}

/// A part for a draft that is not open is consumed all the same, and ends as
/// one without a draft.
pub proof fn a_part_without_a_draft_is_still_consumed(mime: Seq<char>, budget: int, bytes: nat)
    ensures
        bytes > 0 ==> {
            let begun = whole_part(mime, budget, false, bytes);
            &&& next_action(begun) == ActionView::Skip(bytes)
            &&& after_skip(begun).stage == StageView::Done(PartOutcomeView::NoDraft)
            &&& after_skip(begun).consumed == bytes
        },
        bytes == 0 ==> whole_part(mime, budget, false, bytes).stage == StageView::Done(
            PartOutcomeView::NoDraft,
        ),
        ({
            let begun = chunked_part(mime, budget, false);
            &&& next_action(begun) is Frame
            &&& after_chunk(begun, 0).stage == StageView::Done(PartOutcomeView::NoDraft)
            &&& bytes > 0 ==> next_action(after_chunk(begun, bytes)) == ActionView::Skip(bytes)
            &&& bytes > 0 ==> after_skip(after_chunk(begun, bytes)).stage == begun.stage
        }),
{
}

/// A part that failed once ends with that failure, in the words it failed with,
/// however much of it is still to come.
pub proof fn a_part_ends_with_its_first_failure(
    intake: IntakeView,
    words: Seq<char>,
    piece: Seq<u8>,
    error: store::StoreErrorView,
    bytes: nat,
)
    ensures
        intake.stage is Create && (intake.chunked || intake.left > 0) ==> after_create(
            intake,
            Some(words),
        ).stage == StageView::Dropping(Some(store::StoreErrorView::Io(words))),
        intake.stage is Create && !intake.chunked && intake.left == 0 ==> after_create(
            intake,
            Some(words),
        ).stage == StageView::Done(PartOutcomeView::Failed(store::StoreErrorView::Io(words))),
        intake.chunked || piece.len() < intake.left ==> after_piece(
            intake,
            piece,
            Some(words),
        ).stage == StageView::Dropping(Some(store::StoreErrorView::Io(words))),
        !intake.chunked && piece.len() == intake.left ==> after_piece(
            intake,
            piece,
            Some(words),
        ).stage == StageView::Done(PartOutcomeView::Failed(store::StoreErrorView::Io(words))),
        intake.stage is Sealing ==> after_seal(intake, Some(words)).stage == StageView::Done(
            PartOutcomeView::Failed(store::StoreErrorView::Io(words)),
        ),
        after_cut(intake).stage == StageView::Dropping(
            Some(
                store::StoreErrorView::Io(
                    "payload ended "@ + text::decimal(intake.left) + " bytes early"@,
                ),
            ),
        ),
        intake.stage == StageView::Dropping(Some(error)) ==> {
            &&& intake.chunked ==> after_skip(intake).stage == intake.stage
            &&& !intake.chunked ==> after_skip(intake).stage == StageView::Done(
                PartOutcomeView::Failed(error),
            )
            &&& bytes > 0 ==> after_chunk(intake, bytes).stage == intake.stage
            &&& after_chunk(intake, 0).stage == StageView::Done(PartOutcomeView::Failed(error))
        },
        after_skip(intake).left == 0,
        after_skip(intake).consumed == intake.consumed + intake.left,
        after_chunk(intake, bytes).announced == intake.announced + bytes,
        piece.len() <= intake.left ==> after_piece(intake, piece, Some(words)).left + piece.len()
            == intake.left,
        after_piece(intake, piece, Some(words)).consumed == intake.consumed + piece.len(),
{
}

/// Never more is read than what is left of what was announced, nor more than
/// sixty-four kibibytes at once; another frame is read only where nothing is
/// left of the chunk before it.
pub proof fn no_more_is_read_than_was_announced(intake: IntakeView)
    ensures
        next_action(intake) matches ActionView::Read(bytes) ==> intake.stage is Storing && bytes
            == if intake.left < 65536 {
            intake.left as int
        } else {
            65536
        },
        next_action(intake) matches ActionView::Skip(bytes) ==> intake.stage is Dropping && bytes
            == intake.left && bytes > 0,
        next_action(intake) is Frame ==> intake.left == 0 && (intake.stage is Storing
            || intake.stage is Dropping),
        intake.stage is Storing && intake.left > 0 ==> next_action(intake) is Read,
        intake.stage is Dropping && intake.left > 0 ==> next_action(intake) is Skip,
        next_action(intake) is Create <==> intake.stage is Create,
        next_action(intake) is Done <==> intake.stage is Done,
        intake.stage matches StageView::Sealing(part) ==> next_action(intake) == ActionView::Seal(
            part.digest,
        ),
{
}

} // verus!
