//! One connection's conversation with the daemon.
//!
//! A session is handed frames, performs them against the archive and queues the
//! answers. The connection and the files belong to the caller: where an answer
//! needs bytes that are elsewhere — a payload still in the stream, a blob on
//! disk — the session says what to do and is told how that went. Two rules
//! shape everything here:
//!
//! * A payload is read through the same buffered reader the frames are, never
//!   from the socket underneath it. The reader has already pulled payload
//!   bytes into its buffer by the time the frame is parsed, so reading them
//!   anywhere else would lose them.
//! * A payload is always consumed, even when the frame that declared it turns
//!   out to be unusable. Skipping that would leave the stream positioned in
//!   the middle of a blob and every later frame would be nonsense.

use crate::intake;
use crate::kind;
use crate::outbox;
use crate::proto;
use crate::proto::code;
use crate::store;
use crate::store::index;
use crate::store::ledger;
use crate::store::search;
use crate::store::thumb;
use crate::text;
use std::collections::HashMap;
use vstd::multiset::Multiset;
use vstd::prelude::*;

verus! {

broadcast use vstd::std_specs::hash::group_hash_axioms;

/// How many entries a list request without a limit asks for.
pub const DEFAULT_LIMIT: u32 = 50;

// ---------------------------------------------------------------------------
// What a session holds
// ---------------------------------------------------------------------------

/// A recording in progress: the representations accepted so far, published as
/// one entry when the client commits.
struct Draft {
    source: Option<String>,
    parts: Vec<store::Accepted>,
}

/// A recording in progress as the contracts speak of it.
pub struct DraftView {
    pub source: Option<Seq<char>>,
    pub parts: Seq<index::PartView>,
}

impl View for Draft {
    type V = DraftView;

    closed spec fn view(&self) -> DraftView {
        DraftView {
            source: text::optional(self.source),
            parts: store::accepted_views(self.parts@),
        }
    }
}

/// A session as the contracts speak of it: its role, its open drafts, the
/// number the next draft gets, what is to be sent to its client, and what is to
/// be told to every watching one.
pub struct SessionView {
    pub role: proto::Role,
    pub drafts: Map<u64, DraftView>,
    pub next_draft: nat,
    pub out: Seq<outbox::OutgoingView>,
    pub events: Seq<proto::ResponseView>,
}

pub struct Session {
    role: proto::Role,
    drafts: HashMap<u64, Draft>,
    next_draft: u64,
    out: outbox::Outbox,
    events: Vec<proto::Response>,
}

/// Some responses as the contracts speak of them.
pub open spec fn response_views(responses: Seq<proto::Response>) -> Seq<proto::ResponseView> {
    Seq::new(responses.len(), |i: int| responses[i]@)
}

spec fn draft_views(drafts: Map<u64, Draft>) -> Map<u64, DraftView> {
    drafts.map_values(|draft: Draft| draft@)
}

impl View for Session {
    type V = SessionView;

    closed spec fn view(&self) -> SessionView {
        SessionView {
            role: self.role,
            drafts: draft_views(self.drafts@),
            next_draft: self.next_draft as nat,
            out: self.out@,
            events: response_views(self.events@),
        }
    }
}

/// What holds of every session: every open draft has a number given out before.
pub open spec fn numbered(session: SessionView) -> bool {
    forall|draft: u64| #[trigger]
        session.drafts.dom().contains(draft) ==> draft < session.next_draft
}

// ---------------------------------------------------------------------------
// Answers
// ---------------------------------------------------------------------------

/// A session that has one more answer to send.
pub open spec fn answered(session: SessionView, response: proto::ResponseView) -> SessionView {
    SessionView { out: session.out.push(outbox::plain(response)), ..session }
}

/// A session that has one more answer and its payload to send.
pub open spec fn answered_with(
    session: SessionView,
    response: proto::ResponseView,
    payload: outbox::PayloadView,
) -> SessionView {
    SessionView { out: session.out.push(outbox::with_payload(response, payload)), ..session }
}

/// A session that has one more thing to tell every watching client.
pub open spec fn announced(session: SessionView, event: proto::ResponseView) -> SessionView {
    SessionView { events: session.events.push(event), ..session }
}

/// The answer to a request that failed.
pub open spec fn failure(req: u64, error: store::StoreErrorView) -> proto::ResponseView {
    proto::ResponseView::Error { req: Some(req), code: error.code(), message: error.words() }
}

/// The answer to a request that the protocol does not allow here.
pub open spec fn refusal(req: u64, words: Seq<char>) -> proto::ResponseView {
    proto::ResponseView::Error { req: Some(req), code: code::BAD_FRAME@, message: words }
}

/// The answer to a request for a draft that is not open.
pub open spec fn no_such_draft(req: u64, draft: u64) -> proto::ResponseView {
    proto::ResponseView::Error {
        req: Some(req),
        code: code::NO_SUCH_DRAFT@,
        message: "draft "@ + text::decimal(draft as nat) + " is not open"@,
    }
}

/// The answer to a request for an entry that does not exist.
pub open spec fn gone(req: u64, entry: int) -> proto::ResponseView {
    proto::ResponseView::Error {
        req: Some(req),
        code: code::NO_SUCH_ENTRY@,
        message: "entry "@ + text::signed_decimal(entry) + " is gone"@,
    }
}

/// The answer to a request for something an entry does not have. Telling the
/// two apart tells a client whether to ask for something else or to forget the
/// entry.
pub open spec fn lacking(
    entries: Seq<index::RecordView>,
    req: u64,
    entry: int,
    what: Seq<char>,
) -> proto::ResponseView {
    if index::entry_at(entries, entry) is Some {
        proto::ResponseView::Error {
            req: Some(req),
            code: code::NO_SUCH_MIME@,
            message: "entry "@ + text::signed_decimal(entry) + what,
        }
    } else {
        gone(req, entry)
    }
}

fn numbered_text(before: &str, n: u64, after: &str) -> (words: String)
    ensures
        words@ == before@ + text::decimal(n as nat) + after@,
{
    let mut words = before.to_owned();
    text::push_decimal(&mut words, n);
    text::push_text(&mut words, after);
    words
}

fn entry_text(entry: i64, after: &str) -> (words: String)
    ensures
        words@ == "entry "@ + text::signed_decimal(entry as int) + after@,
{
    let mut words = "entry ".to_owned();
    text::push_signed(&mut words, entry);
    text::push_text(&mut words, after);
    words
}

/// What every watching client is told about a commit: what making room for it
/// cost, and then what happened to the entry.
pub open spec fn announcements(outcome: store::CommitView) -> Seq<proto::ResponseView> {
    match outcome {
        store::CommitView::Done { created, summary, evicted, .. } => Seq::new(
            evicted.len(),
            |i: int| proto::ResponseView::Removed { entry: evicted[i] },
        ).push(
            if created {
                proto::ResponseView::Added { entry: summary }
            } else {
                proto::ResponseView::Updated { entry: summary }
            },
        ),
        _ => Seq::empty(),
    }
}

/// What every watching client is to be told about a commit.
pub fn announce(done: store::Committed) -> (events: Vec<proto::Response>)
    ensures
        response_views(events@) == announcements(store::commit_view(Ok(Some(done)))),
{
    let ghost all = index::ids(done.evicted@);
    let mut events: Vec<proto::Response> = Vec::new();
    let mut i: usize = 0;
    while i < done.evicted.len()
        invariant
            i <= done.evicted.len(),
            all == index::ids(done.evicted@),
            response_views(events@) == Seq::new(
                i as nat,
                |k: int| proto::ResponseView::Removed { entry: all[k] },
            ),
        decreases done.evicted.len() - i,
    {
        let ghost told = response_views(events@);
        events.push(proto::Response::Removed { entry: done.evicted[i] });
        assert(response_views(events@) =~= told.push(
            proto::ResponseView::Removed { entry: all[i as int] },
        ));
        assert(response_views(events@) =~= Seq::new(
            (i + 1) as nat,
            |k: int| proto::ResponseView::Removed { entry: all[k] },
        ));
        i += 1;
    }
    let ghost told = response_views(events@);
    if done.created {
        events.push(proto::Response::Added { entry: done.summary });
    } else {
        events.push(proto::Response::Updated { entry: done.summary });
    }
    assert(response_views(events@) =~= announcements(store::commit_view(Ok(Some(done)))));
    events
}

// ---------------------------------------------------------------------------
// What a request asks of the caller
// ---------------------------------------------------------------------------

/// A draft on its way into the archive.
#[derive(Debug)]
pub struct Pending {
    pub req: u64,
    pub source: Option<String>,
    pub parts: Vec<store::Accepted>,
}

/// The same as the contracts speak of it.
pub struct PendingView {
    pub req: u64,
    pub source: Option<Seq<char>>,
    pub parts: Seq<index::PartView>,
}

impl View for Pending {
    type V = PendingView;

    open spec fn view(&self) -> PendingView {
        PendingView {
            req: self.req,
            source: text::optional(self.source),
            parts: store::accepted_views(self.parts@),
        }
    }
}

/// What the caller is to do once a request was performed.
pub enum Step {
    /// Read the next frame.
    Next,
    /// Read that many bytes of payload and drop them, then the next frame.
    Skip(u64),
    /// Take a part off the connection and hand its outcome to `part_taken`, with
    /// nothing swept between giving the part its name and that.
    Take { req: u64, draft: u64, intake: intake::Intake },
    /// Read back what the plan names and hand it to `publish`, or the failure to
    /// `undescribed`.
    Describe { pending: Pending, plan: store::Plan },
    /// Open a blob and call `serve`.
    Open { req: u64, mime: String, digest: String, bytes: u64 },
    /// Read a picture back and hand it to `rendered`.
    Render { req: u64, entry: i64, digest: String, bytes: u64 },
    /// Read a thumbnail back and hand it to `drawn`.
    Draw { req: u64, entry: i64, digest: String, bytes: u64 },
}

/// The same as the contracts speak of it.
pub enum StepView {
    Next,
    Skip(nat),
    Take { req: u64, draft: u64, intake: intake::IntakeView },
    Describe { pending: PendingView, plan: store::PlanView },
    Open { req: u64, mime: Seq<char>, digest: Seq<char>, bytes: nat },
    Render { req: u64, entry: int, digest: Seq<char>, bytes: nat },
    Draw { req: u64, entry: int, digest: Seq<char>, bytes: nat },
}

impl View for Step {
    type V = StepView;

    open spec fn view(&self) -> StepView {
        match *self {
            Step::Next => StepView::Next,
            Step::Skip(bytes) => StepView::Skip(bytes as nat),
            Step::Take { req, draft, intake } => StepView::Take { req, draft, intake: intake@ },
            Step::Describe { pending, plan } => StepView::Describe {
                pending: pending@,
                plan: plan@,
            },
            Step::Open { req, mime, digest, bytes } => StepView::Open {
                req,
                mime: mime@,
                digest: digest@,
                bytes: bytes as nat,
            },
            Step::Render { req, entry, digest, bytes } => StepView::Render {
                req,
                entry: entry as int,
                digest: digest@,
                bytes: bytes as nat,
            },
            Step::Draw { req, entry, digest, bytes } => StepView::Draw {
                req,
                entry: entry as int,
                digest: digest@,
                bytes: bytes as nat,
            },
        }
    }
}

/// What performing a request comes to.
pub struct Performance {
    pub session: SessionView,
    pub archive: store::StoreView,
    pub step: StepView,
}

/// A request that only adds an answer.
pub open spec fn replied(
    session: SessionView,
    archive: store::StoreView,
    response: proto::ResponseView,
) -> Performance {
    Performance { session: answered(session, response), archive, step: StepView::Next }
}

/// A `begin`: a new draft under the next number, for a client that records.
pub open spec fn begun(
    session: SessionView,
    archive: store::StoreView,
    req: u64,
    source: Option<Seq<char>>,
) -> Performance {
    if session.role == proto::Role::Ui {
        replied(
            session,
            archive,
            refusal(req, "this connection did not take the capture role"@),
        )
    } else {
        let draft = session.next_draft as u64;
        let opened = SessionView {
            drafts: session.drafts.insert(draft, (DraftView { source, parts: Seq::empty() })),
            next_draft: session.next_draft + 1,
            ..session
        };
        replied(opened, archive, proto::ResponseView::Begin { req, draft })
    }
}

/// A `part`: its payload is to be taken off the connection, whether or not the
/// draft is open.
pub open spec fn parted(
    session: SessionView,
    archive: store::StoreView,
    req: u64,
    draft: u64,
    mime: Seq<char>,
    bytes: Option<u64>,
) -> Performance {
    let known = session.drafts.dom().contains(draft);
    Performance {
        session,
        archive,
        step: StepView::Take {
            req,
            draft,
            intake: match bytes {
                Some(bytes) => intake::whole_part(mime, archive.budget, known, bytes as nat),
                None => intake::chunked_part(mime, archive.budget, known),
            },
        },
    }
}

/// A `commit`: the draft is closed and on its way into the archive.
pub open spec fn committing(
    session: SessionView,
    archive: store::StoreView,
    req: u64,
    draft: u64,
) -> Performance {
    if session.drafts.dom().contains(draft) {
        let closed = session.drafts[draft];
        Performance {
            session: SessionView { drafts: session.drafts.remove(draft), ..session },
            archive,
            step: StepView::Describe {
                pending: PendingView { req, source: closed.source, parts: closed.parts },
                plan: store::planned(archive, closed.parts),
            },
        }
    } else {
        replied(session, archive, no_such_draft(req, draft))
    }
}

/// An `abort`: the draft goes, and what was stored for it.
pub open spec fn aborted(
    session: SessionView,
    archive: store::StoreView,
    req: u64,
    draft: u64,
) -> Performance {
    replied(
        SessionView { drafts: session.drafts.remove(draft), ..session },
        if session.drafts.dom().contains(draft) {
            store::discarded(archive, session.drafts[draft].parts)
        } else {
            archive
        },
        proto::ResponseView::Okay { req },
    )
}

/// The content some drafts hold together, as often as they hold it.
pub open spec fn held(drafts: Map<u64, DraftView>) -> Multiset<Seq<char>>
    decreases drafts.dom().len(),
    when drafts.dom().finite()
{
    if drafts.dom().len() == 0 {
        Multiset::empty()
    } else {
        let draft = drafts.dom().choose();
        held(drafts.remove(draft)).add(store::claims(drafts[draft].parts))
    }
}

/// Whether the archive knows of everything a session's drafts hold, beside what
/// others hold.
pub open spec fn accounted(
    session: SessionView,
    archive: store::StoreView,
    others: Multiset<Seq<char>>,
) -> bool {
    &&& session.drafts.dom().finite()
    &&& held(session.drafts).add(others).subset_of(archive.drafted)
}

/// A `fetch`: the representation the entry holds, or the bitmap rendering of
/// its picture where that was asked for.
pub open spec fn fetched(
    session: SessionView,
    archive: store::StoreView,
    req: u64,
    entry: int,
    mime: Option<Seq<char>>,
    transcode: bool,
) -> Performance {
    let entries = archive.index.entries;
    match index::located(entries, entry, mime) {
        Some(part) => Performance {
            session,
            archive,
            step: StepView::Open { req, mime: part.mime, digest: part.digest, bytes: part.bytes },
        },
        None => {
            let picture = index::located_picture(entries, entry);
            if transcode && mime == Some(BITMAP@) && picture is Some {
                Performance {
                    session,
                    archive,
                    step: StepView::Render {
                        req,
                        entry,
                        digest: picture->0.digest,
                        bytes: picture->0.bytes,
                    },
                }
            } else {
                replied(session, archive, lacking(entries, req, entry, " has no such mime"@))
            }
        },
    }
}

/// A `thumb`: the stored thumbnail is to be read back.
pub open spec fn asked_for_thumb(
    session: SessionView,
    archive: store::StoreView,
    req: u64,
    entry: int,
) -> Performance {
    match index::thumb_of(archive.index, entry) {
        Some((digest, bytes)) => Performance {
            session,
            archive,
            step: StepView::Draw { req, entry, digest, bytes },
        },
        None => replied(
            session,
            archive,
            lacking(archive.index.entries, req, entry, " has no thumbnail"@),
        ),
    }
}

/// A `pin`: the entry is pinned or unpinned, and everybody is told.
pub open spec fn pinned(
    session: SessionView,
    archive: store::StoreView,
    req: u64,
    entry: int,
    pinned: bool,
) -> Performance {
    match index::entry_at(archive.index.entries, entry) {
        Some(found) => Performance {
            session: announced(
                answered(session, proto::ResponseView::Okay { req }),
                proto::ResponseView::Updated {
                    entry: index::summary_of((index::RecordView { pinned, ..found })),
                },
            ),
            archive: store::StoreView {
                index: index::pinning(archive.index, entry, pinned),
                ..archive
            },
            step: StepView::Next,
        },
        None => replied(session, archive, gone(req, entry)),
    }
}

/// A `remove`: the entry goes, and everybody is told.
pub open spec fn removed(
    session: SessionView,
    archive: store::StoreView,
    req: u64,
    entry: int,
) -> Performance {
    match index::place(archive.index.entries, entry) {
        Some(_) => Performance {
            session: announced(
                answered(session, proto::ResponseView::Okay { req }),
                proto::ResponseView::Removed { entry },
            ),
            archive: store::orphaning(
                archive,
                index::removed(archive.index, entry),
                index::orphans(archive.index, entry),
            ),
            step: StepView::Next,
        },
        None => replied(session, archive, gone(req, entry)),
    }
}

/// A `clear`: everything unpinned goes, and everybody is told.
pub open spec fn cleared(session: SessionView, archive: store::StoreView, req: u64) -> Performance {
    Performance {
        session: announced(
            answered(session, proto::ResponseView::Okay { req }),
            proto::ResponseView::Cleared,
        ),
        archive: store::orphaning(
            archive,
            index::cleared(archive.index).0,
            index::cleared(archive.index).1,
        ),
        step: StepView::Next,
    }
}

/// What performing a request comes to, but for a `list`.
pub open spec fn performed(
    session: SessionView,
    archive: store::StoreView,
    request: proto::Request,
) -> Performance {
    match request {
        proto::Request::Hello { .. } => replied(
            session,
            archive,
            refusal(0, "hello may only open a connection"@),
        ),
        proto::Request::Begin { req, source } => begun(
            session,
            archive,
            req,
            text::optional(source),
        ),
        proto::Request::Part { req, draft, mime, bytes } => parted(
            session,
            archive,
            req,
            draft,
            mime@,
            bytes,
        ),
        proto::Request::Chunk { bytes } => Performance {
            session: answered(
                session,
                proto::ResponseView::Error {
                    req: None,
                    code: code::BAD_FRAME@,
                    message: "a chunk may only follow a part that declared no length"@,
                },
            ),
            archive,
            step: StepView::Skip(bytes as nat),
        },
        proto::Request::Commit { req, draft } => committing(session, archive, req, draft),
        proto::Request::Abort { req, draft } => aborted(session, archive, req, draft),
        proto::Request::List { .. } => Performance { session, archive, step: StepView::Next },
        proto::Request::Fetch { req, entry, mime, transcode } => fetched(
            session,
            archive,
            req,
            entry as int,
            text::optional(mime),
            transcode,
        ),
        proto::Request::Thumb { req, entry } => asked_for_thumb(
            session,
            archive,
            req,
            entry as int,
        ),
        proto::Request::Pin { req, entry, pinned } => self::pinned(
            session,
            archive,
            req,
            entry as int,
            pinned,
        ),
        proto::Request::Remove { req, entry } => removed(session, archive, req, entry as int),
        proto::Request::Clear { req } => cleared(session, archive, req),
        proto::Request::Stats { req } => replied(
            session,
            archive,
            proto::ResponseView::Stats {
                req,
                entries: archive.index.entries.len() as int,
                bytes: ledger::total(archive.index.blobs) as int,
                budget: archive.budget,
            },
        ),
    }
}

/// The kind a list request is restricted to. A name that is no kind restricts
/// nothing.
pub open spec fn restricted_to(name: Option<Seq<char>>) -> Option<kind::Kind> {
    match name {
        Some(name) => kind::named(name),
        None => None,
    }
}

/// The answer to a `list` that succeeds.
pub open spec fn list_answer(
    archive: store::StoreView,
    req: u64,
    limit: Option<u32>,
    before: Option<i64>,
    query: Option<Seq<char>>,
    only: Option<Seq<char>>,
) -> proto::ResponseView {
    proto::ResponseView::List {
        req,
        items: index::summaries_of(
            index::listed(
                archive.index.entries,
                match limit {
                    Some(limit) => limit,
                    None => DEFAULT_LIMIT,
                },
                before,
                query,
                restricted_to(only),
            ),
        ),
    }
}

/// The representation a picture is transcoded to.
pub const BITMAP: &'static str = "image/bmp";

// ---------------------------------------------------------------------------
// The session itself
// ---------------------------------------------------------------------------

impl Session {
    pub closed spec fn well_formed(self) -> bool {
        numbered(self@)
    }

    /// Every open draft has a number given out before.
    pub proof fn is_numbered(&self)
        requires
            self.well_formed(),
        ensures
            numbered(self@),
    {
    }

    pub fn new() -> (session: Session)
        ensures
            session.well_formed(),
            session@ == (SessionView {
                role: proto::Role::Ui,
                drafts: Map::empty(),
                next_draft: 1,
                out: Seq::empty(),
                events: Seq::empty(),
            }),
    {
        let session = Session {
            role: proto::Role::Ui,
            drafts: HashMap::new(),
            next_draft: 1,
            out: outbox::Outbox::new(),
            events: Vec::new(),
        };
        assert(session@.drafts =~= Map::empty());
        assert(session@.events =~= Seq::empty());
        session
    }

    pub fn role(&self) -> (role: proto::Role)
        ensures
            role == self@.role,
    {
        self.role
    }

    /// Whether every draft number has been given out.
    pub fn exhausted(&self) -> (answer: bool)
        ensures
            answer == (self@.next_draft >= u64::MAX),
    {
        self.next_draft == u64::MAX
    }

    /// What is to be written to the client, in order.
    pub fn take_answers(&mut self) -> (items: Vec<outbox::Outgoing>)
        requires
            old(self).well_formed(),
        ensures
            final(self).well_formed(),
            outbox::outgoing_views(items@) == old(self)@.out,
            final(self)@ == (SessionView { out: Seq::empty(), ..old(self)@ }),
    {
        self.out.take()
    }

    /// What every watching client is to be told, in order.
    pub fn take_events(&mut self) -> (events: Vec<proto::Response>)
        requires
            old(self).well_formed(),
        ensures
            final(self).well_formed(),
            response_views(events@) == old(self)@.events,
            final(self)@ == (SessionView { events: Seq::empty(), ..old(self)@ }),
    {
        let mut events: Vec<proto::Response> = Vec::new();
        events.append(&mut self.events);
        assert(response_views(events@) =~= old(self)@.events);
        assert(self@.events =~= Seq::empty());
        events
    }

    fn answer(&mut self, response: proto::Response)
        requires
            old(self).well_formed(),
            outbox::declared(response@) == 0,
        ensures
            final(self).well_formed(),
            final(self)@ == answered(old(self)@, response@),
            final(self).drafts == old(self).drafts,
    {
        self.out.send(&response);
    }

    fn tell(&mut self, event: proto::Response)
        requires
            old(self).well_formed(),
        ensures
            final(self).well_formed(),
            final(self)@ == announced(old(self)@, event@),
    {
        self.events.push(event);
        assert(self@.events =~= old(self)@.events.push(event@));
    }

    fn refuse(&mut self, req: u64, words: &str)
        requires
            old(self).well_formed(),
        ensures
            final(self).well_formed(),
            final(self)@ == answered(old(self)@, refusal(req, words@)),
    {
        self.answer(proto::Response::error(Some(req), code::BAD_FRAME, words));
    }

    fn gone(&mut self, req: u64, entry: i64)
        requires
            old(self).well_formed(),
        ensures
            final(self).well_formed(),
            final(self)@ == answered(old(self)@, gone(req, entry as int)),
    {
        let words = entry_text(entry, " is gone");
        self.answer(proto::Response::error(Some(req), code::NO_SUCH_ENTRY, words.as_str()));
    }

    fn no_such_draft(&mut self, req: u64, draft: u64)
        requires
            old(self).well_formed(),
        ensures
            final(self).well_formed(),
            final(self)@ == answered(old(self)@, no_such_draft(req, draft)),
    {
        let words = numbered_text("draft ", draft, " is not open");
        self.answer(proto::Response::error(Some(req), code::NO_SUCH_DRAFT, words.as_str()));
    }

    fn lacking(&mut self, archive: &store::Store, req: u64, entry: i64, what: &str)
        requires
            old(self).well_formed(),
        ensures
            final(self).well_formed(),
            final(self)@ == answered(
                old(self)@,
                lacking(archive@.index.entries, req, entry as int, what@),
            ),
    {
        if archive.summary(entry).is_some() {
            let words = entry_text(entry, what);
            self.answer(proto::Response::error(Some(req), code::NO_SUCH_MIME, words.as_str()));
        } else {
            self.gone(req, entry);
        }
    }

    /// Answers a request that the archive or its files failed.
    pub fn failed(&mut self, req: u64, error: &store::StoreError)
        requires
            old(self).well_formed(),
        ensures
            final(self).well_formed(),
            final(self)@ == answered(old(self)@, failure(req, error@)),
    {
        let words = error.message();
        self.answer(proto::Response::error(Some(req), error.code(), words.as_str()));
    }

    /// Answers the opening frame, absent where there was none that could be
    /// read. Tells whether the conversation goes on.
    ///
    /// A client that does not open with a `hello` it can be held to is not one
    /// this daemon talks to, and it is disconnected rather than corrected.
    pub fn greet(&mut self, opening: Option<proto::Request>, archive: &store::Store) -> (welcome:
        bool)
        requires
            old(self).well_formed(),
            archive.well_formed(),
        ensures
            final(self).well_formed(),
            match opening {
                Some(proto::Request::Hello { v, role }) => if v == proto::PROTOCOL_VERSION {
                    welcome && final(self)@ == answered(
                        (SessionView { role, ..old(self)@ }),
                        proto::ResponseView::Hello {
                            v: proto::PROTOCOL_VERSION,
                            entries: archive@.index.entries.len() as int,
                            bytes: ledger::total(archive@.index.blobs) as int,
                            budget: archive@.budget,
                        },
                    )
                } else {
                    !welcome && final(self)@ == answered(
                        old(self)@,
                        proto::ResponseView::Error {
                            req: None,
                            code: code::BAD_VERSION@,
                            message: "this daemon speaks version "@ + text::decimal(
                                proto::PROTOCOL_VERSION as nat,
                            ) + ", not "@ + text::decimal(v as nat),
                        },
                    )
                },
                _ => !welcome && final(self)@ == old(self)@,
            },
    {
        match opening {
            Some(proto::Request::Hello { v, role }) => {
                if v == proto::PROTOCOL_VERSION {
                    self.role = role;
                    let (entries, bytes) = archive.stats();
                    self.answer(
                        proto::Response::Hello {
                            v: proto::PROTOCOL_VERSION,
                            entries,
                            bytes,
                            budget: archive.budget(),
                        },
                    );
                    true
                } else {
                    let mut words = numbered_text(
                        "this daemon speaks version ",
                        proto::PROTOCOL_VERSION as u64,
                        ", not ",
                    );
                    text::push_decimal(&mut words, v as u64);
                    self.answer(proto::Response::error(None, code::BAD_VERSION, words.as_str()));
                    false
                }
            },
            _ => false,
        }
    }

    /// Answers a line that is no frame of this protocol. No frame means no
    /// payload count, so the stream can no longer be trusted to be at a frame
    /// boundary and the conversation ends.
    pub fn reject(&mut self, reason: &str)
        requires
            old(self).well_formed(),
        ensures
            final(self).well_formed(),
            final(self)@ == answered(
                old(self)@,
                proto::ResponseView::Error {
                    req: None,
                    code: code::BAD_FRAME@,
                    message: reason@,
                },
            ),
    {
        self.answer(proto::Response::error(None, code::BAD_FRAME, reason));
    }

    /// Performs one request.
    pub fn perform(&mut self, request: proto::Request, archive: &mut store::Store) -> (step: Step)
        requires
            old(self).well_formed(),
            old(archive).well_formed(),
            request is Begin ==> old(self)@.next_draft < u64::MAX,
        ensures
            final(self).well_formed(),
            final(archive).well_formed(),
            step matches Step::Take { intake, .. } ==> intake.well_formed(),
            match request {
                proto::Request::List { req, limit, before, query, kind } => {
                    &&& step is Next
                    &&& final(archive)@ == old(archive)@
                    &&& {
                        ||| final(self)@ == answered(
                            old(self)@,
                            list_answer(
                                old(archive)@,
                                req,
                                limit,
                                before,
                                text::optional(query),
                                text::optional(kind),
                            ),
                        )
                        ||| (query matches Some(typed) && search::expression(typed@).len() > 0
                            && exists|words: Seq<char>|
                            final(self)@ == answered(
                                old(self)@,
                                #[trigger] failure(req, store::StoreErrorView::Db(words)),
                            ))
                    }
                },
                _ => {
                    let performance = performed(old(self)@, old(archive)@, request);
                    &&& final(self)@ == performance.session
                    &&& final(archive)@ == performance.archive
                    &&& step@ == performance.step
                },
            },
    {
        match request {
            // A second hello is as meaningless as none: the role is settled.
            proto::Request::Hello { .. } => {
                self.refuse(0, "hello may only open a connection");
                Step::Next
            },
            proto::Request::Begin { req, source } => {
                self.begin(req, source);
                Step::Next
            },
            proto::Request::Part { req, draft, mime, bytes } => {
                let known = self.drafts.contains_key(&draft);
                let intake = match bytes {
                    Some(bytes) => intake::Intake::whole(archive, mime.as_str(), known, bytes),
                    None => intake::Intake::chunked(archive, mime.as_str(), known),
                };
                Step::Take { req, draft, intake }
            },
            // A chunk outside a length-less part has no part to belong to, and
            // its payload cannot be placed. The stream is still at a frame
            // boundary, so the connection survives.
            proto::Request::Chunk { bytes } => {
                self.answer(
                    proto::Response::error(
                        None,
                        code::BAD_FRAME,
                        "a chunk may only follow a part that declared no length",
                    ),
                );
                Step::Skip(bytes)
            },
            proto::Request::Commit { req, draft } => self.close(req, draft, archive),
            proto::Request::Abort { req, draft } => {
                let ghost before = self.drafts@;
                match self.drafts.remove(&draft) {
                    Some(closed) => {
                        assert(draft_views(before)[draft] == closed@);
                        archive.discard(&closed.parts);
                    },
                    None => {},
                }
                assert(draft_views(self.drafts@) =~= draft_views(before).remove(draft));
                self.answer(proto::Response::Okay { req });
                Step::Next
            },
            proto::Request::List { req, limit, before, query, kind } => {
                self.list(req, limit, before, query, kind, archive);
                Step::Next
            },
            proto::Request::Fetch { req, entry, mime, transcode } => self.fetch(
                req,
                entry,
                mime,
                transcode,
                archive,
            ),
            proto::Request::Thumb { req, entry } => match archive.thumbnail(entry) {
                Some((digest, bytes)) => Step::Draw { req, entry, digest, bytes },
                None => {
                    self.lacking(archive, req, entry, " has no thumbnail");
                    Step::Next
                },
            },
            proto::Request::Pin { req, entry, pinned } => {
                match archive.set_pinned(entry, pinned) {
                    Some(summary) => {
                        self.answer(proto::Response::Okay { req });
                        self.tell(proto::Response::Updated { entry: summary });
                    },
                    None => {
                        self.gone(req, entry);
                    },
                }
                Step::Next
            },
            proto::Request::Remove { req, entry } => {
                if archive.remove(entry) {
                    self.answer(proto::Response::Okay { req });
                    self.tell(proto::Response::Removed { entry });
                } else {
                    self.gone(req, entry);
                }
                Step::Next
            },
            proto::Request::Clear { req } => {
                archive.clear();
                self.answer(proto::Response::Okay { req });
                self.tell(proto::Response::Cleared {  });
                Step::Next
            },
            proto::Request::Stats { req } => {
                let (entries, bytes) = archive.stats();
                self.answer(
                    proto::Response::Stats { req, entries, bytes, budget: archive.budget() },
                );
                Step::Next
            },
        }
    }

    /// Aborts every draft still open, for a connection that closed.
    pub fn hang_up(&mut self, archive: &mut store::Store)
        requires
            old(self).well_formed(),
            old(archive).well_formed(),
        ensures
            final(self).well_formed(),
            final(archive).well_formed(),
            final(self)@ == (SessionView { drafts: Map::empty(), ..old(self)@ }),
            final(archive)@.index == old(archive)@.index,
            final(archive)@.budget == old(archive)@.budget,
            final(archive)@.drafted == old(archive)@.drafted.sub(held(old(self)@.drafts)),
            forall|digest: Seq<char>| #[trigger]
                final(archive)@.orphaned.contains(digest) <==> (old(archive)@.orphaned.contains(
                    digest,
                ) || held(old(self)@.drafts).contains(digest)) && !store::needed(
                    final(archive)@.index.blobs,
                    final(archive)@.drafted,
                    digest,
                ),
    {
        let ghost session = self@;
        let ghost before = archive@;
        let ghost open = self.drafts@;
        let ghost drafts = session.drafts;
        let numbers = self.open_drafts();
        let mut parts: Vec<store::Accepted> = Vec::new();
        let mut i: usize = 0;
        proof {
            broadcast use vstd::seq_lib::group_to_multiset_ensures;

            assert forall|k: int| 0 <= k < numbers@.len() implies open.dom().contains(
                #[trigger] numbers@[k],
            ) by {
                assert(numbers@.contains(numbers@[k]));
            }
            assert(open.dom() =~= numbers@.to_set());
            vstd::seq_lib::seq_to_set_is_finite(numbers@);
            assert(drafts.dom() =~= open.dom());
            assert(store::digests_of(store::accepted_views(parts@)) =~= Seq::empty());
            assert(store::claims(store::accepted_views(parts@)).add(held(drafts)) =~= held(drafts));
        }
        while i < numbers.len()
            invariant
                i <= numbers.len(),
                self.well_formed(),
                self@ == (SessionView { drafts: self@.drafts, ..session }),
                self@.drafts.dom().finite(),
                numbers@.no_duplicates(),
                forall|k: int|
                    i <= k < numbers@.len() ==> self.drafts@.dom().contains(#[trigger] numbers@[k]),
                forall|draft: u64| #[trigger]
                    self.drafts@.dom().contains(draft) ==> numbers@.contains(draft)
                        && !numbers@.take(i as int).contains(draft),
                store::claims(store::accepted_views(parts@)).add(held(self@.drafts)) == held(
                    drafts,
                ),
            decreases numbers.len() - i,
        {
            let ghost left = self.drafts@;
            let ghost taken = store::accepted_views(parts@);
            let draft: u64 = numbers[i];
            match self.drafts.remove(&draft) {
                Some(closed) => {
                    let ghost view = closed@;
                    let mut more = closed.parts;
                    parts.append(&mut more);
                    proof {
                        assert(draft_views(self.drafts@) =~= draft_views(left).remove(draft));
                        assert(draft_views(left)[draft] == view);
                        held_without(draft_views(left), draft);
                        assert(store::accepted_views(parts@) =~= taken + view.parts);
                        claims_add_up(taken, view.parts);
                        assert(store::claims(store::accepted_views(parts@)).add(
                            held(self@.drafts),
                        ) =~= held(drafts));
                    }
                },
                None => {},
            }
            proof {
                assert forall|other: u64| #[trigger]
                    self.drafts@.dom().contains(other) implies numbers@.contains(other)
                    && !numbers@.take(i as int + 1).contains(other) by {
                    let gone = numbers@.take(i as int + 1);
                    if gone.contains(other) {
                        let k = choose|k: int| 0 <= k < gone.len() && gone[k] == other;
                        if k < i {
                            assert(numbers@.take(i as int)[k] == other);
                        }
                    }
                }
            }
            i += 1;
        }
        proof {
            assert(numbers@.take(numbers@.len() as int) =~= numbers@);
            assert(self@.drafts =~= Map::empty());
            assert(store::claims(store::accepted_views(parts@)) =~= held(drafts));
        }
        archive.discard(&parts);
        proof {
            broadcast use vstd::seq_lib::group_to_multiset_ensures;

            let own = store::digests_of(store::accepted_views(parts@));
            let all = before.orphaned + own + Seq::<Seq<char>>::empty();
            store::loose_is_not_needed(before.index.blobs, archive@.drafted, all);
            assert(all =~= before.orphaned + own);
            assert forall|digest: Seq<char>| #[trigger]
                archive@.orphaned.contains(digest) <==> (before.orphaned.contains(digest) || held(
                    drafts,
                ).contains(digest)) && !store::needed(
                    archive@.index.blobs,
                    archive@.drafted,
                    digest,
                ) by {
                contained_in_sum(before.orphaned, own, digest);
                assert(own.to_multiset().count(digest) > 0 <==> own.contains(digest));
            }
        }
    }

    /// The numbers of the open drafts, each once.
    fn open_drafts(&self) -> (numbers: Vec<u64>)
        ensures
            numbers@.no_duplicates(),
            forall|draft: u64| #[trigger]
                numbers@.contains(draft) <==> self.drafts@.dom().contains(draft),
    {
        let mut numbers: Vec<u64> = Vec::new();
        let ghost all = vstd::std_specs::iter::IteratorSpec::remaining(&self.drafts.keys());
        for draft in iter: self.drafts.keys()
            invariant
                iter.seq() == all,
                numbers@ == all.unref().take(iter.index()),
        {
            numbers.push(*draft);
            assert(numbers@ =~= all.unref().take(iter.index() + 1));
        }
        proof {
            assert(numbers@ =~= all.unref());
            assert forall|draft: u64| #[trigger]
                numbers@.contains(draft) <==> self.drafts@.dom().contains(draft) by {
                assert(all.unref().to_set().contains(draft) <==> all.unref().contains(draft));
            }
            assert forall|i: int, j: int|
                0 <= i < numbers@.len() && 0 <= j < numbers@.len() && i != j implies numbers@[i]
                != numbers@[j] by {
                assert(all[i] != all[j]);
            }
        }
        numbers
    }

    fn begin(&mut self, req: u64, source: Option<String>)
        requires
            old(self).well_formed(),
            old(self)@.next_draft < u64::MAX,
        ensures
            final(self).well_formed(),
            forall|archive: store::StoreView| #[trigger]
                begun(old(self)@, archive, req, text::optional(source)) == (Performance {
                    session: final(self)@,
                    archive,
                    step: StepView::Next,
                }),
    {
        if !self.role.records() {
            self.refuse(req, "this connection did not take the capture role");
            return;
        }
        let ghost before = self@;
        let ghost open = self.drafts@;
        let draft: u64 = self.next_draft;
        let opened = Draft { source, parts: Vec::new() };
        let ghost view = opened@;
        assert(view.parts =~= Seq::empty());
        self.next_draft = draft + 1;
        self.drafts.insert(draft, opened);
        assert(draft_views(self.drafts@) =~= draft_views(open).insert(draft, view));
        self.answer(proto::Response::Begin { req, draft });
    }

    fn close(&mut self, req: u64, draft: u64, archive: &store::Store) -> (step: Step)
        requires
            old(self).well_formed(),
            archive.well_formed(),
        ensures
            final(self).well_formed(),
            !(step is Take),
            committing(old(self)@, archive@, req, draft) == (Performance {
                session: final(self)@,
                archive: archive@,
                step: step@,
            }),
    {
        let ghost open = self.drafts@;
        match self.drafts.remove(&draft) {
            Some(closed) => {
                assert(draft_views(self.drafts@) =~= draft_views(open).remove(draft));
                assert(draft_views(open)[draft] == closed@);
                let plan = archive.plan(&closed.parts);
                let pending = Pending { req, source: closed.source, parts: closed.parts };
                Step::Describe { pending, plan }
            },
            None => {
                assert(self.drafts@ =~= open);
                self.no_such_draft(req, draft);
                Step::Next
            },
        }
    }

    fn list(
        &mut self,
        req: u64,
        limit: Option<u32>,
        before: Option<i64>,
        query: Option<String>,
        kind: Option<String>,
        archive: &mut store::Store,
    )
        requires
            old(self).well_formed(),
            old(archive).well_formed(),
        ensures
            final(self).well_formed(),
            final(archive).well_formed(),
            final(archive)@ == old(archive)@,
            ({
                ||| final(self)@ == answered(
                    old(self)@,
                    list_answer(
                        old(archive)@,
                        req,
                        limit,
                        before,
                        text::optional(query),
                        text::optional(kind),
                    ),
                )
                ||| (query matches Some(typed) && search::expression(typed@).len() > 0 && exists|
                    words: Seq<char>,
                |
                    final(self)@ == answered(
                        old(self)@,
                        #[trigger] failure(req, store::StoreErrorView::Db(words)),
                    ))
            }),
    {
        let only: Option<kind::Kind> = match &kind {
            Some(name) => kind::Kind::parse(name.as_str()),
            None => None,
        };
        let most: u32 = match limit {
            Some(limit) => limit,
            None => DEFAULT_LIMIT,
        };
        let typed: Option<&str> = match &query {
            Some(query) => Some(query.as_str()),
            None => None,
        };
        match archive.list(most, before, typed, only) {
            Ok(items) => {
                self.answer(proto::Response::List { req, items });
            },
            Err(error) => {
                let ghost words = error@->Db_0;
                assert(error@ == store::StoreErrorView::Db(words));
                self.failed(req, &error);
                assert(self@ == answered(
                    old(self)@,
                    failure(req, store::StoreErrorView::Db(words)),
                ));
            },
        }
    }

    fn fetch(
        &mut self,
        req: u64,
        entry: i64,
        mime: Option<String>,
        transcode: bool,
        archive: &store::Store,
    ) -> (step: Step)
        requires
            old(self).well_formed(),
        ensures
            final(self).well_formed(),
            !(step is Take),
            fetched(old(self)@, archive@, req, entry as int, text::optional(mime), transcode) == (
            Performance { session: final(self)@, archive: archive@, step: step@ }),
    {
        let named: Option<&str> = match &mime {
            Some(mime) => Some(mime.as_str()),
            None => None,
        };
        if let Some((mime, digest, bytes)) = archive.open_part(entry, named) {
            return Step::Open { req, mime, digest, bytes };
        }
        let bitmap: bool = match named {
            Some(mime) => transcode && text::same(mime, BITMAP),
            None => false,
        };
        if bitmap {
            if let Some((_, digest, bytes)) = archive.open_image(entry) {
                return Step::Render { req, entry, digest, bytes };
            }
        }
        self.lacking(archive, req, entry, " has no such mime");
        Step::Next
    }

    /// Answers a part once it was taken off the connection. The archive learns
    /// that its draft holds it.
    pub fn part_taken(
        &mut self,
        req: u64,
        draft: u64,
        outcome: intake::PartOutcome,
        archive: &mut store::Store,
    )
        requires
            old(self).well_formed(),
            old(archive).well_formed(),
        ensures
            final(self).well_formed(),
            final(archive).well_formed(),
            final(self)@ == part_answered(old(self)@, req, draft, outcome@),
            final(archive)@ == part_stored(old(self)@, old(archive)@, draft, outcome@),
    {
        match outcome {
            intake::PartOutcome::Recorded(accepted) => {
                let ghost open = self.drafts@;
                match self.drafts.remove(&draft) {
                    Some(held) => {
                        let ghost before = held@;
                        let ghost part = accepted@;
                        let mut longer = held;
                        archive.claim(&accepted);
                        longer.parts.push(accepted);
                        assert(longer@.parts =~= before.parts.push(part));
                        let ghost view = longer@;
                        self.drafts.insert(draft, longer);
                        assert(draft_views(self.drafts@) =~= draft_views(open).insert(draft, view));
                        assert(draft_views(open).dom().contains(draft));
                        self.answer(proto::Response::Okay { req });
                    },
                    None => {
                        assert(self.drafts@ =~= open);
                        archive.disown(&accepted);
                        self.no_such_draft(req, draft);
                    },
                }
            },
            intake::PartOutcome::NoDraft => {
                self.no_such_draft(req, draft);
            },
            intake::PartOutcome::Failed(error) => {
                self.failed(req, &error);
            },
        }
    }

    /// Gives up a closed draft whose content could not be read back, and answers.
    pub fn undescribed(
        &mut self,
        pending: Pending,
        error: &store::StoreError,
        archive: &mut store::Store,
    )
        requires
            old(self).well_formed(),
            old(archive).well_formed(),
        ensures
            final(self).well_formed(),
            final(archive).well_formed(),
            final(self)@ == answered(old(self)@, failure(pending.req, error@)),
            final(archive)@ == store::discarded(old(archive)@, pending@.parts),
    {
        archive.discard(&pending.parts);
        self.failed(pending.req, error);
    }

    /// Publishes a closed draft, given what was read back of its content, and
    /// answers. Returns the thumbnail to store with a new entry.
    pub fn publish(
        &mut self,
        pending: Pending,
        samples: &store::Samples,
        at: i64,
        archive: &mut store::Store,
    ) -> (thumb: Option<Vec<u8>>)
        requires
            old(self).well_formed(),
            old(archive).well_formed(),
        ensures
            final(self).well_formed(),
            final(archive).well_formed(),
            ({
                let outcome = store::published(
                    old(archive)@,
                    pending@.parts,
                    pending@.source,
                    at as int,
                    samples@,
                );
                &&& final(archive)@ == outcome.0
                &&& final(self)@ == published(old(self)@, pending.req, outcome.1)
                &&& thumb::optional_bytes(thumb) == new_thumb(outcome.1)
            }),
    {
        let req: u64 = pending.req;
        let source: Option<&str> = match &pending.source {
            Some(source) => Some(source.as_str()),
            None => None,
        };
        match archive.commit(&pending.parts, source, at, samples) {
            Ok(Some(mut done)) => {
                let ghost whole = store::commit_view(Ok(Some(done)));
                let thumb = done.thumb.take();
                self.answer(
                    proto::Response::Commit { req, entry: done.entry, created: done.created },
                );
                let ghost told = self@.events;
                let ghost stripped = done;
                let mut events = announce(done);
                // Watchers learn what happened to the archive, including what
                // making room for this cost.
                self.events.append(&mut events);
                proof {
                    assert(announcements(store::commit_view(Ok(Some(stripped))))
                        =~= announcements(whole));
                    assert(self@.events =~= told + announcements(whole));
                }
                thumb
            },
            // A draft that was empty or held a secret. The client is told the
            // transaction finished, with no entry to show for it.
            Ok(None) => {
                self.answer(proto::Response::Commit { req, entry: 0, created: false });
                assert(self@.events =~= old(self)@.events + Seq::empty());
                None
            },
            Err(error) => {
                self.failed(req, &error);
                assert(self@.events =~= old(self)@.events + Seq::empty());
                None
            },
        }
    }

    /// Answers a fetch with a blob that could be opened.
    pub fn serve(&mut self, req: u64, mime: String, digest: String, bytes: u64)
        requires
            old(self).well_formed(),
        ensures
            final(self).well_formed(),
            final(self)@ == answered_with(
                old(self)@,
                proto::ResponseView::Blob { req, mime: mime@, bytes: bytes as nat },
                outbox::PayloadView::Stored { digest: digest@, bytes: bytes as nat },
            ),
    {
        let response = proto::Response::Blob { req, mime, bytes };
        self.out.send_blob(&response, outbox::Payload::Stored { digest, bytes });
    }

    /// Answers a fetch with the bitmap rendering of a picture read back.
    pub fn rendered(&mut self, req: u64, entry: i64, content: &[u8], archive: &store::Store)
        requires
            old(self).well_formed(),
        ensures
            final(self).well_formed(),
            final(self)@ == bitmap_answered(
                old(self)@,
                archive@.index.entries,
                req,
                entry as int,
                thumb::as_bmp(content@, thumb::MAX_ALLOC),
            ),
    {
        let bmp = thumb::to_bmp(content);
        self.bitmap_made(req, entry, bmp, archive);
    }

    /// Answers a fetch with a bitmap, or with its absence where a picture could
    /// not be rendered as one.
    pub fn bitmap_made(
        &mut self,
        req: u64,
        entry: i64,
        bmp: Option<Vec<u8>>,
        archive: &store::Store,
    )
        requires
            old(self).well_formed(),
        ensures
            final(self).well_formed(),
            final(self)@ == bitmap_answered(
                old(self)@,
                archive@.index.entries,
                req,
                entry as int,
                thumb::optional_bytes(bmp),
            ),
    {
        match bmp {
            Some(bmp) => {
                let bytes: u64 = bmp.len() as u64;
                let response = proto::Response::Blob { req, mime: BITMAP.to_owned(), bytes };
                self.out.send_blob(&response, outbox::Payload::Held(bmp));
            },
            None => {
                self.lacking(archive, req, entry, " has no such mime");
            },
        }
    }

    /// Answers a thumb with the pixels of a stored thumbnail read back.
    pub fn drawn(&mut self, req: u64, entry: i64, png: &[u8], archive: &store::Store)
        requires
            old(self).well_formed(),
        ensures
            final(self).well_formed(),
            final(self)@ == pixels_answered(
                old(self)@,
                archive@.index.entries,
                req,
                entry as int,
                thumb::unpacked(png@),
            ),
    {
        let pixels = thumb::decode(png);
        proof {
            if pixels is None {
                if let Some((rgba, width, height)) = thumb::unpacked(png@) {
                    assert(width * 4 > u32::MAX);
                }
            }
        }
        self.pixels_made(req, entry, pixels, archive);
    }

    /// Answers a thumb with pixels, or with their absence: a thumbnail that
    /// will not decode is one the UI draws a kind icon for.
    pub fn pixels_made(
        &mut self,
        req: u64,
        entry: i64,
        pixels: Option<thumb::Pixels>,
        archive: &store::Store,
    )
        requires
            old(self).well_formed(),
            pixels matches Some(pixels) ==> pixels.well_formed(),
        ensures
            final(self).well_formed(),
            final(self)@ == pixels_answered(
                old(self)@,
                archive@.index.entries,
                req,
                entry as int,
                match pixels {
                    Some(pixels) => Some((pixels.rgba@, pixels.width, pixels.height)),
                    None => None,
                },
            ),
    {
        match pixels {
            Some(pixels) => {
                let bytes: u64 = pixels.rgba.len() as u64;
                let response = proto::Response::Thumb {
                    req,
                    width: pixels.width,
                    height: pixels.height,
                    stride: pixels.stride(),
                    bytes,
                };
                self.out.send_blob(&response, outbox::Payload::Held(pixels.rgba));
            },
            None => {
                self.lacking(archive, req, entry, " has no thumbnail");
            },
        }
    }

    /// Takes back everything queued and answers that the archive could not be
    /// saved: what was not saved did not happen.
    pub fn unsaved(&mut self, req: u64, words: String)
        requires
            old(self).well_formed(),
        ensures
            final(self).well_formed(),
            final(self)@ == answered(
                (SessionView { out: Seq::empty(), events: Seq::empty(), ..old(self)@ }),
                failure(req, store::StoreErrorView::Db(words@)),
            ),
    {
        self.out = outbox::Outbox::new();
        self.events = Vec::new();
        assert(self@.events =~= Seq::empty());
        self.failed(req, &store::StoreError::Db(words));
    }
}

/// A session after a part was taken off its connection.
pub open spec fn part_answered(
    session: SessionView,
    req: u64,
    draft: u64,
    outcome: intake::PartOutcomeView,
) -> SessionView {
    match outcome {
        intake::PartOutcomeView::Recorded(part) => if session.drafts.dom().contains(draft) {
            let held = session.drafts[draft];
            answered(
                SessionView {
                    drafts: session.drafts.insert(
                        draft,
                        (DraftView { parts: held.parts.push(part), ..held }),
                    ),
                    ..session
                },
                proto::ResponseView::Okay { req },
            )
        } else {
            answered(session, no_such_draft(req, draft))
        },
        intake::PartOutcomeView::NoDraft => answered(session, no_such_draft(req, draft)),
        intake::PartOutcomeView::Failed(error) => answered(session, failure(req, error)),
    }
}

/// The archive after a part was taken off a connection: its draft holds it, or,
/// where the draft is not open any more, nobody does.
pub open spec fn part_stored(
    session: SessionView,
    archive: store::StoreView,
    draft: u64,
    outcome: intake::PartOutcomeView,
) -> store::StoreView {
    match outcome {
        intake::PartOutcomeView::Recorded(part) => if session.drafts.dom().contains(draft) {
            store::claimed(archive, part.digest)
        } else {
            store::orphaning(archive, archive.index, seq![part.digest])
        },
        _ => archive,
    }
}

/// A session after its draft was published.
pub open spec fn published(
    session: SessionView,
    req: u64,
    outcome: store::CommitView,
) -> SessionView {
    let told = SessionView { events: session.events + announcements(outcome), ..session };
    match outcome {
        store::CommitView::Done { entry, created, .. } => answered(
            told,
            proto::ResponseView::Commit { req, entry, created },
        ),
        store::CommitView::Nothing => answered(
            told,
            proto::ResponseView::Commit { req, entry: 0, created: false },
        ),
        store::CommitView::Refused(error) => answered(told, failure(req, error)),
    }
}

/// The thumbnail a commit leaves to be stored.
pub open spec fn new_thumb(outcome: store::CommitView) -> Option<Seq<u8>> {
    match outcome {
        store::CommitView::Done { thumb, .. } => thumb,
        _ => None,
    }
}

/// A session after a picture was rendered as a bitmap.
pub open spec fn bitmap_answered(
    session: SessionView,
    entries: Seq<index::RecordView>,
    req: u64,
    entry: int,
    bmp: Option<Seq<u8>>,
) -> SessionView {
    match bmp {
        Some(bmp) => answered_with(
            session,
            proto::ResponseView::Blob { req, mime: BITMAP@, bytes: bmp.len() },
            outbox::PayloadView::Held(bmp),
        ),
        None => answered(session, lacking(entries, req, entry, " has no such mime"@)),
    }
}

/// A session after a thumbnail was unpacked. One whose rows are too long for
/// their length to be stated is none.
pub open spec fn pixels_answered(
    session: SessionView,
    entries: Seq<index::RecordView>,
    req: u64,
    entry: int,
    pixels: Option<(Seq<u8>, u32, u32)>,
) -> SessionView {
    match pixels {
        Some((rgba, width, height)) => if width * 4 <= u32::MAX {
            answered_with(
                session,
                proto::ResponseView::Thumb {
                    req,
                    width,
                    height,
                    stride: (width * 4) as u32,
                    bytes: rgba.len(),
                },
                outbox::PayloadView::Held(rgba),
            )
        } else {
            answered(session, lacking(entries, req, entry, " has no thumbnail"@))
        },
        None => answered(session, lacking(entries, req, entry, " has no thumbnail"@)),
    }
}

// ---------------------------------------------------------------------------
// What a conversation promises
// ---------------------------------------------------------------------------

/// Every request is answered once. A request that is performed at once has one
/// answer queued behind those before it; one that needs bytes from elsewhere
/// has none yet, and each way of finishing it queues exactly one.
pub proof fn every_request_is_answered_once(
    session: SessionView,
    archive: store::StoreView,
    request: proto::Request,
    req: u64,
    draft: u64,
    entry: int,
    part: intake::PartOutcomeView,
    commit: store::CommitView,
    bmp: Option<Seq<u8>>,
    pixels: Option<(Seq<u8>, u32, u32)>,
)
    ensures
        !(request is List) ==> ({
            let done = performed(session, archive, request);
            if done.step is Next || done.step is Skip {
                &&& done.session.out.len() == session.out.len() + 1
                &&& done.session.out.drop_last() == session.out
            } else {
                done.session.out == session.out
            }
        }),
        part_answered(session, req, draft, part).out.drop_last() == session.out,
        part_answered(session, req, draft, part).out.len() == session.out.len() + 1,
        published(session, req, commit).out.drop_last() == session.out,
        published(session, req, commit).out.len() == session.out.len() + 1,
        bitmap_answered(session, archive.index.entries, req, entry, bmp).out.drop_last()
            == session.out,
        bitmap_answered(session, archive.index.entries, req, entry, bmp).out.len()
            == session.out.len() + 1,
        pixels_answered(session, archive.index.entries, req, entry, pixels).out.drop_last()
            == session.out,
        pixels_answered(session, archive.index.entries, req, entry, pixels).out.len()
            == session.out.len() + 1,
{
    let done = performed(session, archive, request);
    if !(request is List) && (done.step is Next || done.step is Skip) {
        assert(done.session.out.drop_last() =~= session.out);
    }
    assert(part_answered(session, req, draft, part).out.drop_last() =~= session.out);
    assert(published(session, req, commit).out.drop_last() =~= session.out);
    assert(bitmap_answered(session, archive.index.entries, req, entry, bmp).out.drop_last()
        =~= session.out);
    assert(pixels_answered(session, archive.index.entries, req, entry, pixels).out.drop_last()
        =~= session.out);
}

/// No draft number is given out twice: the numbers only grow, every open draft
/// has one given out before, and so a new draft is never one that is open.
pub proof fn draft_numbers_are_never_given_out_twice(
    session: SessionView,
    archive: store::StoreView,
    request: proto::Request,
)
    requires
        numbered(session),
        request is Begin ==> session.next_draft < u64::MAX,
        !(request is List),
    ensures
        numbered(performed(session, archive, request).session),
        performed(session, archive, request).session.next_draft >= session.next_draft,
        request is Begin && session.role != proto::Role::Ui ==> {
            let draft = session.next_draft as u64;
            &&& !session.drafts.dom().contains(draft)
            &&& performed(session, archive, request).session.drafts.dom().contains(draft)
            &&& performed(session, archive, request).session.next_draft == session.next_draft + 1
        },
{
}

/// A draft holds exactly what was recorded into it: other requests, and parts
/// for other drafts or parts that failed, leave it as it is.
pub proof fn a_draft_holds_what_was_recorded_into_it(
    session: SessionView,
    req: u64,
    draft: u64,
    other: u64,
    outcome: intake::PartOutcomeView,
)
    requires
        session.drafts.dom().contains(draft),
        session.drafts.dom().contains(other),
        other != draft,
    ensures
        part_answered(session, req, draft, outcome).drafts[other] == session.drafts[other],
        part_answered(session, req, draft, outcome).drafts[draft].parts == (match outcome {
            intake::PartOutcomeView::Recorded(part) => session.drafts[draft].parts.push(part),
            _ => session.drafts[draft].parts,
        }),
        part_answered(session, req, draft, outcome).drafts[draft].source
            == session.drafts[draft].source,
{
}

/// What some drafts hold is what the others hold and what any one of them does.
pub proof fn held_without(drafts: Map<u64, DraftView>, draft: u64)
    requires
        drafts.dom().finite(),
        drafts.dom().contains(draft),
    ensures
        held(drafts) == held(drafts.remove(draft)).add(store::claims(drafts[draft].parts)),
        held(Map::empty()) == Multiset::<Seq<char>>::empty(),
    decreases drafts.dom().len(),
{
    let first = drafts.dom().choose();
    if first != draft {
        held_without(drafts.remove(first), draft);
        held_without(drafts.remove(draft), first);
        assert(drafts.remove(first).remove(draft) =~= drafts.remove(draft).remove(first));
        assert(held(drafts) =~= held(drafts.remove(draft)).add(
            store::claims(drafts[draft].parts),
        ));
    }
}

proof fn claims_add_up(a: Seq<index::PartView>, b: Seq<index::PartView>)
    ensures
        store::claims(a + b) == store::claims(a).add(store::claims(b)),
{
    vstd::seq_lib::lemma_multiset_commutative(store::digests_of(a), store::digests_of(b));
    assert(store::digests_of(a + b) =~= store::digests_of(a) + store::digests_of(b));
}

/// The archive always knows what every draft holds: no request of one session
/// makes it forget what its other drafts, other sessions or a watcher hold, and
/// a draft on its way into the archive is still held.
pub proof fn no_request_costs_a_draft_its_content(
    session: SessionView,
    archive: store::StoreView,
    request: proto::Request,
    others: Multiset<Seq<char>>,
)
    requires
        numbered(session),
        accounted(session, archive, others),
        request is Begin ==> session.next_draft < u64::MAX,
        !(request is List),
    ensures
        ({
            let done = performed(session, archive, request);
            match done.step {
                StepView::Describe { pending, .. } => accounted(
                    done.session,
                    done.archive,
                    others.add(store::claims(pending.parts)),
                ),
                _ => accounted(done.session, done.archive, others),
            }
        }),
{
    broadcast use vstd::seq_lib::group_to_multiset_ensures;

    let done = performed(session, archive, request);
    let before = held(session.drafts);
    let after = held(done.session.drafts);
    match request {
        proto::Request::Begin { req, source } => {
            if session.role != proto::Role::Ui {
                let draft = session.next_draft as u64;
                held_without(done.session.drafts, draft);
                assert(done.session.drafts.remove(draft) =~= session.drafts);
                assert(store::digests_of(Seq::empty()) =~= Seq::empty());
                assert(after =~= before);
            }
        },
        proto::Request::Commit { draft, .. } => {
            if session.drafts.dom().contains(draft) {
                held_without(session.drafts, draft);
                let own = store::claims(session.drafts[draft].parts);
                assert(after.add(others.add(own)) =~= before.add(others));
            }
        },
        proto::Request::Abort { draft, .. } => {
            if session.drafts.dom().contains(draft) {
                held_without(session.drafts, draft);
                let own = store::claims(session.drafts[draft].parts);
                assert forall|digest: Seq<char>| #[trigger]
                    after.add(others).count(digest) <= done.archive.drafted.count(digest) by {
                    assert(before.add(others).count(digest) <= archive.drafted.count(digest));
                }
            } else {
                assert(done.session.drafts =~= session.drafts);
            }
        },
        _ => {},
    }
}

/// The same of a part that was taken off the connection: its draft holds it
/// from then on, and nothing is forgotten.
pub proof fn a_part_taken_is_held(
    session: SessionView,
    archive: store::StoreView,
    req: u64,
    draft: u64,
    outcome: intake::PartOutcomeView,
    others: Multiset<Seq<char>>,
)
    requires
        accounted(session, archive, others),
    ensures
        accounted(
            part_answered(session, req, draft, outcome),
            part_stored(session, archive, draft, outcome),
            others,
        ),
{
    broadcast use vstd::seq_lib::group_to_multiset_ensures;

    if let intake::PartOutcomeView::Recorded(part) = outcome {
        if session.drafts.dom().contains(draft) {
            let open = part_answered(session, req, draft, outcome).drafts;
            let old_parts = session.drafts[draft].parts;
            held_without(session.drafts, draft);
            held_without(open, draft);
            assert(open.remove(draft) =~= session.drafts.remove(draft));
            assert(store::digests_of(old_parts.push(part)) =~= store::digests_of(old_parts).push(
                part.digest,
            ));
            assert(held(open) =~= held(session.drafts).insert(part.digest));
            let kept = part_stored(session, archive, draft, outcome).drafted;
            assert forall|digest: Seq<char>| #[trigger]
                held(open).add(others).count(digest) <= kept.count(digest) by {
                assert(held(session.drafts).add(others).count(digest) <= archive.drafted.count(
                    digest,
                ));
            }
        }
    }
}

/// What any draft holds is not to go.
pub proof fn what_is_drafted_is_not_swept(
    session: SessionView,
    archive: store::StoreView,
    others: Multiset<Seq<char>>,
    draft: u64,
    i: int,
)
    requires
        store::sweepable(archive),
        accounted(session, archive, others),
        session.drafts.dom().contains(draft),
        0 <= i < session.drafts[draft].parts.len(),
    ensures
        !archive.orphaned.contains(session.drafts[draft].parts[i].digest),
{
    broadcast use vstd::seq_lib::group_to_multiset_ensures;

    let digests = store::digests_of(session.drafts[draft].parts);
    held_without(session.drafts, draft);
    assert(digests.contains(digests[i]));
    assert(digests.to_multiset().count(digests[i]) > 0);
    assert(held(session.drafts).add(others).count(digests[i]) <= archive.drafted.count(
        digests[i],
    ));
}

/// A whole transaction serves an entry back: once a draft is published as a new
/// entry that making room did not take, a fetch of any of its representations
/// opens the blob that was accepted for it, at its full size.
pub proof fn what_was_recorded_is_fetched(
    session: SessionView,
    archive: store::StoreView,
    pending: PendingView,
    at: int,
    samples: store::SamplesView,
    k: int,
    req: u64,
    transcode: bool,
)
    requires
        index::sound(archive.index),
        0 <= k < pending.parts.len(),
        store::published(
            archive,
            pending.parts,
            pending.source,
            at,
            samples,
        ).1 matches store::CommitView::Done { entry, created: true, evicted, .. }
            && !evicted.contains(entry),
    ensures
        ({
            let outcome = store::published(archive, pending.parts, pending.source, at, samples);
            let part = pending.parts[k];
            &&& outcome.1 matches store::CommitView::Done { entry, .. } && fetched(
                session,
                outcome.0,
                req,
                entry,
                Some(part.mime),
                transcode,
            ).step == (StepView::Open {
                req,
                mime: part.mime,
                digest: part.digest,
                bytes: part.bytes,
            })
        }),
{
    store::what_was_published_is_served_back(
        archive,
        pending.parts,
        pending.source,
        at,
        samples,
        k,
    );
}

/// An aborted draft leaves nothing behind: the archive keeps the entries and
/// blobs it had, and every file of the draft is to go unless an entry or another
/// draft needs it.
pub proof fn an_abort_discards_a_draft_and_its_parts(
    session: SessionView,
    archive: store::StoreView,
    req: u64,
    draft: u64,
)
    requires
        session.drafts.dom().contains(draft),
    ensures
        ({
            let done = aborted(session, archive, req, draft);
            let parts = session.drafts[draft].parts;
            &&& !done.session.drafts.dom().contains(draft)
            &&& done.archive.index == archive.index
            &&& forall|i: int|
                0 <= i < parts.len() ==> done.archive.orphaned.contains(
                    (#[trigger] parts[i]).digest,
                ) || store::needed(archive.index.blobs, done.archive.drafted, parts[i].digest)
        }),
{
    store::every_file_goes(archive, session.drafts[draft].parts);
}

/// A secret leaves no trace: the archive keeps the entries and blobs it had,
/// every file of the secret is to go unless an entry or another draft needs it,
/// nobody is told anything, and the client learns that its transaction finished
/// without an entry.
pub proof fn a_secret_leaves_no_trace(
    session: SessionView,
    archive: store::StoreView,
    pending: PendingView,
    at: int,
    samples: store::SamplesView,
)
    requires
        store::secret(pending.parts),
    ensures
        ({
            let outcome = store::published(archive, pending.parts, pending.source, at, samples);
            &&& outcome.0.index == archive.index
            &&& outcome.0.budget == archive.budget
            &&& forall|i: int|
                0 <= i < pending.parts.len() ==> outcome.0.orphaned.contains(
                    (#[trigger] pending.parts[i]).digest,
                ) || store::needed(
                    archive.index.blobs,
                    outcome.0.drafted,
                    pending.parts[i].digest,
                )
            &&& published(session, pending.req, outcome.1) == answered(
                session,
                proto::ResponseView::Commit { req: pending.req, entry: 0, created: false },
            )
        }),
{
    store::a_secret_is_never_archived(archive, pending.parts, pending.source, at, samples);
    assert(session.events + Seq::<proto::ResponseView>::empty() =~= session.events);
}

proof fn contained_in_sum(a: Seq<Seq<char>>, b: Seq<Seq<char>>, item: Seq<char>)
    ensures
        (a + b).contains(item) <==> a.contains(item) || b.contains(item),
{
    let all = a + b;
    if all.contains(item) {
        let k = choose|k: int| 0 <= k < all.len() && all[k] == item;
        if k < a.len() {
            assert(a[k] == item);
        } else {
            assert(b[k - a.len()] == item);
        }
    }
    if a.contains(item) {
        let k = choose|k: int| 0 <= k < a.len() && a[k] == item;
        assert(all[k] == item);
    }
    if b.contains(item) {
        let k = choose|k: int| 0 <= k < b.len() && b[k] == item;
        assert(all[a.len() + k] == item);
    }
}

// ---------------------------------------------------------------------------
// What each request comes to
// ---------------------------------------------------------------------------

/// What a client is told where a request comes to nothing.
pub proof fn a_refusal_says_what_is_wrong(
    entries: Seq<index::RecordView>,
    req: u64,
    draft: u64,
    entry: int,
    words: Seq<char>,
    error: store::StoreErrorView,
)
    ensures
        refusal(req, words) == (proto::ResponseView::Error {
            req: Some(req),
            code: "bad-frame"@,
            message: words,
        }),
        no_such_draft(req, draft) == (proto::ResponseView::Error {
            req: Some(req),
            code: "no-such-draft"@,
            message: "draft "@ + text::decimal(draft as nat) + " is not open"@,
        }),
        gone(req, entry) == (proto::ResponseView::Error {
            req: Some(req),
            code: "no-such-entry"@,
            message: "entry "@ + text::signed_decimal(entry) + " is gone"@,
        }),
        (exists|i: int| 0 <= i < entries.len() && (#[trigger] entries[i]).id == entry) ==> lacking(
            entries,
            req,
            entry,
            words,
        ) == (proto::ResponseView::Error {
            req: Some(req),
            code: "no-such-mime"@,
            message: "entry "@ + text::signed_decimal(entry) + words,
        }),
        (forall|i: int| 0 <= i < entries.len() ==> (#[trigger] entries[i]).id != entry) ==> lacking(
            entries,
            req,
            entry,
            words,
        ) == gone(req, entry),
        failure(req, error) == (proto::ResponseView::Error {
            req: Some(req),
            code: if error is TooLarge {
                "too-large"@
            } else {
                "storage"@
            },
            message: error.words(),
        }),
        code::BAD_VERSION@ == "bad-version"@,
{
    index::placed_right(entries, entry);
}

/// A client that records gets a new, empty draft under the next number, with
/// the source it named; one that does not gets none.
pub proof fn a_begin_opens_an_empty_draft(
    session: SessionView,
    archive: store::StoreView,
    request: proto::Request,
)
    requires
        request is Begin,
        session.next_draft < u64::MAX,
    ensures
        ({
            let done = performed(session, archive, request);
            let req = request->Begin_req;
            let draft = session.next_draft as u64;
            &&& done.archive == archive
            &&& done.step is Next
            &&& done.session.events == session.events
            &&& done.session.role == session.role
            &&& session.role == proto::Role::Ui ==> {
                &&& done.session.drafts == session.drafts
                &&& done.session.next_draft == session.next_draft
                &&& done.session.out == session.out.push(
                    outbox::plain(
                        proto::ResponseView::Error {
                            req: Some(req),
                            code: "bad-frame"@,
                            message: "this connection did not take the capture role"@,
                        },
                    ),
                )
            }
            &&& session.role != proto::Role::Ui ==> {
                &&& done.session.drafts.dom() == session.drafts.dom().insert(draft)
                &&& done.session.drafts[draft].source == text::optional(request->source)
                &&& done.session.drafts[draft].parts.len() == 0
                &&& forall|other: u64|
                    other != draft && #[trigger] session.drafts.dom().contains(other)
                        ==> done.session.drafts[other] == session.drafts[other]
                &&& done.session.next_draft == session.next_draft + 1
                &&& done.session.out == session.out.push(
                    outbox::plain(proto::ResponseView::Begin { req, draft }),
                )
            }
        }),
{
}

/// A part is taken off the connection as one of the draft it names, with the
/// mime type and the length it declares, and changes nothing before it is
/// there.
pub proof fn a_part_is_taken_for_the_draft_it_names(
    session: SessionView,
    archive: store::StoreView,
    request: proto::Request,
)
    requires
        request is Part,
    ensures
        ({
            let done = performed(session, archive, request);
            let known = session.drafts.dom().contains(request->Part_draft);
            &&& done.session == session
            &&& done.archive == archive
            &&& done.step is Take
            &&& done.step->Take_req == request->Part_req
            &&& done.step->Take_draft == request->Part_draft
            &&& done.step->intake.known == known
            &&& done.step->intake.consumed == 0
            &&& request->Part_bytes matches Some(bytes) ==> {
                &&& !done.step->intake.chunked
                &&& done.step->intake.left == bytes
                &&& done.step->intake.announced == bytes
                &&& known && bytes <= archive.budget ==> done.step->intake.stage
                    == intake::StageView::Create(
                    (store::IncomingView {
                        content: Seq::empty(),
                        mime: request->Part_mime@,
                        budget: archive.budget,
                    }),
                )
            }
            &&& request->Part_bytes is None ==> {
                &&& done.step->intake.chunked
                &&& done.step->intake.left == 0
                &&& done.step->intake.announced == 0
                &&& known ==> done.step->intake.stage == intake::StageView::Create(
                    (store::IncomingView {
                        content: Seq::empty(),
                        mime: request->Part_mime@,
                        budget: archive.budget,
                    }),
                )
            }
        }),
{
}

/// A part that was recorded is the last of its draft, behind those before it; a
/// part that failed adds nothing and is answered with its failure; and a part
/// for a draft that is not open is answered with that.
pub proof fn a_recorded_part_is_the_last_of_its_draft(
    session: SessionView,
    archive: store::StoreView,
    req: u64,
    draft: u64,
    part: index::PartView,
    error: store::StoreErrorView,
)
    ensures
        ({
            let after = part_answered(session, req, draft, intake::PartOutcomeView::Recorded(part));
            let kept = part_stored(
                session,
                archive,
                draft,
                intake::PartOutcomeView::Recorded(part),
            );
            &&& after.events == session.events
            &&& after.next_draft == session.next_draft
            &&& kept.index == archive.index
            &&& session.drafts.dom().contains(draft) ==> {
                &&& after.drafts.dom() == session.drafts.dom()
                &&& after.drafts[draft].parts == session.drafts[draft].parts.push(part)
                &&& after.drafts[draft].source == session.drafts[draft].source
                &&& after.out == session.out.push(outbox::plain(proto::ResponseView::Okay { req }))
                &&& kept.drafted == archive.drafted.insert(part.digest)
            }
            &&& !session.drafts.dom().contains(draft) ==> {
                &&& after.drafts == session.drafts
                &&& after.out == session.out.push(outbox::plain(no_such_draft(req, draft)))
                &&& kept.drafted == archive.drafted
            }
        }),
        part_answered(session, req, draft, intake::PartOutcomeView::NoDraft) == (SessionView {
            out: session.out.push(outbox::plain(no_such_draft(req, draft))),
            ..session
        }),
        part_answered(session, req, draft, intake::PartOutcomeView::Failed(error)) == (
        SessionView { out: session.out.push(outbox::plain(failure(req, error))), ..session }),
        part_stored(session, archive, draft, intake::PartOutcomeView::NoDraft) == archive,
        part_stored(session, archive, draft, intake::PartOutcomeView::Failed(error)) == archive,
{
    let after = part_answered(session, req, draft, intake::PartOutcomeView::Recorded(part));
    if session.drafts.dom().contains(draft) {
        assert(after.drafts.dom() =~= session.drafts.dom());
    }
}

/// A commit closes the draft it names and hands on everything in it; an abort
/// closes it and hands on nothing. Other drafts stay as they are.
pub proof fn a_draft_is_closed_by_a_commit_or_an_abort(
    session: SessionView,
    archive: store::StoreView,
    request: proto::Request,
    other: u64,
)
    ensures
        request matches proto::Request::Commit { req, draft } ==> {
            let done = performed(session, archive, request);
            &&& done.archive == archive
            &&& done.session.events == session.events
            &&& session.drafts.dom().contains(draft) ==> {
                &&& done.session.out == session.out
                &&& done.session.drafts.dom() == session.drafts.dom().remove(draft)
                &&& done.step is Describe
                &&& done.step->pending.req == req
                &&& done.step->pending.source == session.drafts[draft].source
                &&& done.step->pending.parts == session.drafts[draft].parts
                &&& done.step->plan == store::planned(archive, session.drafts[draft].parts)
                &&& other != draft && session.drafts.dom().contains(other)
                    ==> done.session.drafts[other] == session.drafts[other]
            }
            &&& !session.drafts.dom().contains(draft) ==> {
                &&& done.session.drafts == session.drafts
                &&& done.step is Next
                &&& done.session.out == session.out.push(outbox::plain(no_such_draft(req, draft)))
            }
        },
        request matches proto::Request::Abort { req, draft } ==> {
            let done = performed(session, archive, request);
            &&& done.step is Next
            &&& done.archive.index == archive.index
            &&& done.archive.budget == archive.budget
            &&& done.session.events == session.events
            &&& done.session.out == session.out.push(
                outbox::plain(proto::ResponseView::Okay { req }),
            )
            &&& done.session.drafts.dom() == session.drafts.dom().remove(draft)
            &&& !session.drafts.dom().contains(draft) ==> done.archive == archive
            &&& other != draft && session.drafts.dom().contains(other)
                ==> done.session.drafts[other] == session.drafts[other]
        },
{
    let done = performed(session, archive, request);
    match request {
        proto::Request::Commit { draft, .. } => {
            assert(session.drafts.remove(draft).dom() =~= session.drafts.dom().remove(draft));
        },
        proto::Request::Abort { draft, .. } => {
            assert(done.session.drafts.dom() =~= session.drafts.dom().remove(draft));
        },
        _ => {},
    }
}

/// A client that commits learns the entry its draft became and whether it is
/// new; one whose draft came to nothing learns of entry zero. Everybody
/// watching is told of what went to make room, in that order, and then of the
/// entry; where nothing came of the draft nobody is told anything.
pub proof fn a_commit_is_answered_and_announced(
    session: SessionView,
    req: u64,
    outcome: store::CommitView,
)
    ensures
        ({
            let after = published(session, req, outcome);
            &&& after.drafts == session.drafts
            &&& after.next_draft == session.next_draft
            &&& after.events.take(session.events.len() as int) == session.events
            &&& outcome matches store::CommitView::Done { entry, created, summary, evicted, .. }
                ==> {
                &&& after.out == session.out.push(
                    outbox::plain(proto::ResponseView::Commit { req, entry, created }),
                )
                &&& after.events.len() == session.events.len() + evicted.len() + 1
                &&& forall|i: int|
                    0 <= i < evicted.len() ==> #[trigger] after.events[session.events.len() + i]
                        == (proto::ResponseView::Removed { entry: evicted[i] })
                &&& created ==> after.events.last() == (proto::ResponseView::Added {
                    entry: summary,
                })
                &&& !created ==> after.events.last() == (proto::ResponseView::Updated {
                    entry: summary,
                })
            }
            &&& outcome is Nothing ==> after.events == session.events && after.out
                == session.out.push(
                outbox::plain(proto::ResponseView::Commit { req, entry: 0, created: false }),
            )
            &&& outcome matches store::CommitView::Refused(error) ==> after.events == session.events
                && after.out == session.out.push(outbox::plain(failure(req, error)))
        }),
        outcome is Done ==> new_thumb(outcome) == outcome->Done_thumb,
        !(outcome is Done) ==> new_thumb(outcome) is None,
{
    let after = published(session, req, outcome);
    assert(after.events.take(session.events.len() as int) =~= session.events);
    if !(outcome is Done) {
        assert(after.events =~= session.events);
    }
}

/// A representation that an entry holds is opened at its full size. A bitmap
/// that it does not hold is rendered of its picture where that was asked for.
/// Anything else is refused, and a fetch changes nothing.
pub proof fn a_fetch_opens_what_the_entry_holds(
    session: SessionView,
    archive: store::StoreView,
    request: proto::Request,
)
    requires
        request is Fetch,
    ensures
        ({
            let done = performed(session, archive, request);
            let req = request->Fetch_req;
            let entry = request->Fetch_entry as int;
            let mime = text::optional(request->Fetch_mime);
            let entries = archive.index.entries;
            let held = index::located(entries, entry, mime);
            let picture = index::located_picture(entries, entry);
            let rendered = held is None && request->transcode && mime == Some("image/bmp"@)
                && picture is Some;
            &&& done.archive == archive
            &&& held matches Some(part) ==> done.session == session && done.step == (StepView::Open {
                req,
                mime: part.mime,
                digest: part.digest,
                bytes: part.bytes,
            })
            &&& rendered ==> done.session == session && done.step == (StepView::Render {
                req,
                entry,
                digest: picture->0.digest,
                bytes: picture->0.bytes,
            })
            &&& held is None && !rendered ==> done.step is Next && done.session == (SessionView {
                out: session.out.push(
                    outbox::plain(lacking(entries, req, entry, " has no such mime"@)),
                ),
                ..session
            })
        }),
{
}

/// The thumbnail an entry has is read back to be drawn; an entry without one is
/// refused. What was unpacked is sent as its pixels with their measures, and
/// what was rendered as the bitmap it is.
pub proof fn a_thumbnail_is_drawn_where_there_is_one(
    session: SessionView,
    archive: store::StoreView,
    request: proto::Request,
    rgba: Seq<u8>,
    width: u32,
    height: u32,
    bmp: Seq<u8>,
)
    requires
        request is Thumb,
    ensures
        ({
            let done = performed(session, archive, request);
            let req = request->Thumb_req;
            let entry = request->Thumb_entry as int;
            let entries = archive.index.entries;
            let none = SessionView {
                out: session.out.push(
                    outbox::plain(lacking(entries, req, entry, " has no thumbnail"@)),
                ),
                ..session
            };
            &&& done.archive == archive
            &&& index::thumb_of(archive.index, entry) matches Some((digest, bytes))
                ==> done.session == session && done.step == (StepView::Draw {
                req,
                entry,
                digest,
                bytes,
            })
            &&& index::thumb_of(archive.index, entry) is None ==> done.step is Next && done.session
                == none
            &&& 4 * width <= 0xffff_ffff ==> pixels_answered(
                session,
                entries,
                req,
                entry,
                Some((rgba, width, height)),
            ) == (SessionView {
                out: session.out.push(
                    outbox::with_payload(
                        proto::ResponseView::Thumb {
                            req,
                            width,
                            height,
                            stride: (4 * width) as u32,
                            bytes: rgba.len(),
                        },
                        outbox::PayloadView::Held(rgba),
                    ),
                ),
                ..session
            })
            &&& pixels_answered(session, entries, req, entry, None) == none
            &&& bitmap_answered(session, entries, req, entry, Some(bmp)) == (SessionView {
                out: session.out.push(
                    outbox::with_payload(
                        proto::ResponseView::Blob { req, mime: "image/bmp"@, bytes: bmp.len() },
                        outbox::PayloadView::Held(bmp),
                    ),
                ),
                ..session
            })
            &&& bitmap_answered(session, entries, req, entry, None) == (SessionView {
                out: session.out.push(
                    outbox::plain(lacking(entries, req, entry, " has no such mime"@)),
                ),
                ..session
            })
        }),
{
}

/// Pinning an entry that is there is answered with success, and everybody
/// watching is shown the entry as it is then; no other request is needed for it
/// to take effect. An entry that is not there is refused, and nobody is told.
pub proof fn a_pin_takes_effect_and_is_announced(
    session: SessionView,
    archive: store::StoreView,
    request: proto::Request,
    k: int,
)
    requires
        request is Pin,
        index::sound(archive.index),
    ensures
        ({
            let done = performed(session, archive, request);
            let req = request->Pin_req;
            let entry = request->Pin_entry as int;
            let entries = archive.index.entries;
            &&& done.step is Next
            &&& done.session.drafts == session.drafts
            &&& 0 <= k < entries.len() && entries[k].id == entry ==> {
                let changed = index::RecordView { pinned: request->pinned, ..entries[k] };
                &&& done.archive.index.entries == entries.update(k, changed)
                &&& done.archive.index.blobs == archive.index.blobs
                &&& done.archive.orphaned == archive.orphaned
                &&& done.session.out == session.out.push(
                    outbox::plain(proto::ResponseView::Okay { req }),
                )
                &&& done.session.events == session.events.push(
                    proto::ResponseView::Updated { entry: index::summary_of(changed) },
                )
            }
            &&& (forall|i: int| 0 <= i < entries.len() ==> (#[trigger] entries[i]).id != entry) ==> {
                &&& done.archive == archive
                &&& done.session.events == session.events
                &&& done.session.out == session.out.push(outbox::plain(gone(req, entry)))
            }
        }),
{
    let entries = archive.index.entries;
    index::placed_right(entries, request->Pin_entry as int);
    if 0 <= k < entries.len() && entries[k].id == request->Pin_entry as int {
        index::placed_only(entries, k);
    }
}

/// Removing an entry that is there takes it out of the archive and no other
/// with it, is answered with success, and everybody watching is told which
/// entry went. An entry that is not there is refused, and nobody is told.
pub proof fn a_removal_takes_effect_and_is_announced(
    session: SessionView,
    archive: store::StoreView,
    request: proto::Request,
)
    requires
        request is Remove,
        index::sound(archive.index),
    ensures
        ({
            let done = performed(session, archive, request);
            let req = request->Remove_req;
            let entry = request->Remove_entry as int;
            let entries = archive.index.entries;
            let there = exists|i: int|
                0 <= i < entries.len() && (#[trigger] entries[i]).id == entry;
            &&& done.step is Next
            &&& done.session.drafts == session.drafts
            &&& done.archive.drafted == archive.drafted
            &&& done.archive.budget == archive.budget
            &&& done.archive.index.entries == entries.filter(
                |record: index::RecordView| record.id != entry,
            )
            &&& there ==> {
                &&& done.session.out == session.out.push(
                    outbox::plain(proto::ResponseView::Okay { req }),
                )
                &&& done.session.events == session.events.push(
                    proto::ResponseView::Removed { entry },
                )
            }
            &&& !there ==> {
                &&& done.archive == archive
                &&& done.session.events == session.events
                &&& done.session.out == session.out.push(outbox::plain(gone(req, entry)))
            }
        }),
{
    let entry = request->Remove_entry as int;
    let entries = archive.index.entries;
    index::placed_right(entries, entry);
    crate::store::laws::removal_takes_one_entry_out(archive.index, entry);
    if let Some(i) = index::place(entries, entry) {
        assert(entries[i].id == entry);
    }
}

/// Clearing leaves exactly the pinned entries, is answered with success, and
/// everybody watching is told.
pub proof fn a_clear_leaves_what_is_pinned(
    session: SessionView,
    archive: store::StoreView,
    request: proto::Request,
)
    requires
        request is Clear,
        index::sound(archive.index),
    ensures
        ({
            let done = performed(session, archive, request);
            &&& done.step is Next
            &&& done.session.drafts == session.drafts
            &&& done.archive.drafted == archive.drafted
            &&& done.archive.budget == archive.budget
            &&& done.archive.index.entries == archive.index.entries.filter(
                |record: index::RecordView| record.pinned,
            )
            &&& done.session.out == session.out.push(
                outbox::plain(proto::ResponseView::Okay { req: request->Clear_req }),
            )
            &&& done.session.events == session.events.push(proto::ResponseView::Cleared)
        }),
{
    crate::store::laws::clearing_keeps_what_was_pinned(archive.index);
    assert(crate::store::laws::kept() =~= (|record: index::RecordView| record.pinned));
}

/// The other requests change nothing: figures are told as they are, and a
/// greeting or a chunk out of place is refused, the chunk's payload dropped.
pub proof fn the_other_requests_change_nothing(
    session: SessionView,
    archive: store::StoreView,
    request: proto::Request,
)
    ensures
        request matches proto::Request::Stats { req } ==> {
            let done = performed(session, archive, request);
            &&& done.archive == archive
            &&& done.step is Next
            &&& done.session == (SessionView {
                out: session.out.push(
                    outbox::plain(
                        proto::ResponseView::Stats {
                            req,
                            entries: archive.index.entries.len() as int,
                            bytes: ledger::total(archive.index.blobs) as int,
                            budget: archive.budget,
                        },
                    ),
                ),
                ..session
            })
        },
        request is Hello ==> {
            let done = performed(session, archive, request);
            &&& done.archive == archive
            &&& done.step is Next
            &&& done.session == (SessionView {
                out: session.out.push(
                    outbox::plain(
                        proto::ResponseView::Error {
                            req: Some(0),
                            code: "bad-frame"@,
                            message: "hello may only open a connection"@,
                        },
                    ),
                ),
                ..session
            })
        },
        request matches proto::Request::Chunk { bytes } ==> {
            let done = performed(session, archive, request);
            &&& done.archive == archive
            &&& done.step == StepView::Skip(bytes as nat)
            &&& done.session == (SessionView {
                out: session.out.push(
                    outbox::plain(
                        proto::ResponseView::Error {
                            req: None,
                            code: "bad-frame"@,
                            message: "a chunk may only follow a part that declared no length"@,
                        },
                    ),
                ),
                ..session
            })
        },
{
}

/// A list that is restricted to the name of a kind holds rows of that kind
/// alone, and one that is restricted to anything else is not restricted. A list
/// without a limit is one of at most fifty rows, and no list has more than five
/// hundred. Its rows are of entries that match and come before the one it goes
/// on from.
pub proof fn a_list_holds_rows_of_the_kind_it_is_restricted_to(
    archive: store::StoreView,
    req: u64,
    limit: Option<u32>,
    before: Option<i64>,
    query: Option<Seq<char>>,
    only: Option<Seq<char>>,
    k: int,
)
    requires
        index::sound(archive.index),
    ensures
        ({
            let answer = list_answer(archive, req, limit, before, query, only);
            let rows = answer->items;
            &&& answer is List
            &&& answer->List_req == req
            &&& rows.len() <= 500
            &&& limit is None ==> rows.len() <= 50
            &&& limit matches Some(limit) ==> rows.len() <= limit
            &&& 0 <= k < rows.len() ==> {
                &&& only matches Some(name) ==> (name == "text"@ || name == "link"@ || name
                    == "color"@ || name == "image"@ || name == "files"@ ==> rows[k].kind == name)
                &&& before matches Some(id) ==> rows[k].id < id
                &&& exists|i: int|
                    0 <= i < archive.index.entries.len() && index::summary_of(
                        #[trigger] archive.index.entries[i],
                    ) == rows[k] && (query matches Some(typed) ==> search::tokens(typed).len() == 0
                        || (archive.index.entries[i].body matches Some(body)
                        && search::fts5_matches(search::expression(typed), body)))
            }
        }),
        list_answer(archive, req, None, before, query, only) == list_answer(
            archive,
            req,
            Some(50),
            before,
            query,
            only,
        ),
        only matches Some(name) ==> (name != "text"@ && name != "link"@ && name != "color"@ && name
            != "image"@ && name != "files"@ ==> list_answer(
            archive,
            req,
            limit,
            before,
            query,
            only,
        ) == list_answer(archive, req, limit, before, query, None)),
{
    let most: u32 = match limit {
        Some(limit) => limit,
        None => 50,
    };
    let entries = archive.index.entries;
    let restricted = restricted_to(only);
    let shown = index::listed(entries, most, before, query, restricted);
    let rows = index::summaries_of(shown);
    crate::store::laws::a_list_shows_exactly_what_is_searched_for(
        entries,
        most,
        before,
        query,
        restricted,
    );
    if let Some(name) = only {
        kind::kinds_travel_under_five_names(name);
    }
    if 0 <= k < rows.len() {
        crate::store::laws::a_row_tells_of_its_entry(shown, k);
        assert(rows[k] == index::summary_of(shown[k]));
        assert(entries.contains(shown[k]));
        let i = choose|i: int| 0 <= i < entries.len() && entries[i] == shown[k];
        assert(index::summary_of(entries[i]) == rows[k]);
        if let Some(name) = only {
            if let Some(kind) = restricted {
                kind::a_kind_survives_its_name(kind, name);
                kind::a_kind_survives_its_name(shown[k].kind, rows[k].kind);
            }
        }
    }
}

} // verus!
