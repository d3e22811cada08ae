//! The archive: metadata in an index, bytes in a content-addressed blob store.
//!
//! The split matters for more than tidiness. Streaming a representation in is
//! unbounded work, and it happens with no lock held, because a blob's name is
//! derived from its own content and so cannot collide with anything another
//! connection is writing. Only the commit that publishes an entry needs the
//! index to itself, and that is a handful of small steps. One enormous paste
//! therefore never stalls the picker's search.

pub mod blobs;
pub mod identity;
pub mod index;
pub mod laws;
pub mod ledger;
pub mod search;
pub mod thumb;

use crate::kind;
use crate::proto;
use crate::text;
use vstd::multiset::Multiset;
use vstd::prelude::*;

verus! {

/// How much of a text representation is read back to feed previews and search.
///
/// A clipboard can carry a whole file; indexing all of it would grow the index
/// without making search better, because nobody recognises an entry by its
/// hundred-thousandth character.
pub const INDEXED_TEXT: u64 = 65536;

/// The largest representation the daemon will decode looking for a thumbnail.
/// Past this it records the entry and its dimensions but draws a kind icon.
pub const THUMBNAILED_IMAGE: u64 = 67_108_864;

/// Bytes the archive may occupy before the oldest unpinned entries are evicted.
pub const DEFAULT_BUDGET: i64 = 5_368_709_120;

// ---------------------------------------------------------------------------
// Failures
// ---------------------------------------------------------------------------

#[derive(Debug)]
pub enum StoreError {
    /// A file could not be read or written.
    Io(String),
    /// The index refused.
    Db(String),
    /// It is larger than the whole archive may be.
    TooLarge,
}

/// A failure as the contracts speak of it.
pub enum StoreErrorView {
    Io(Seq<char>),
    Db(Seq<char>),
    TooLarge,
}

impl View for StoreError {
    type V = StoreErrorView;

    open spec fn view(&self) -> StoreErrorView {
        match *self {
            StoreError::Io(words) => StoreErrorView::Io(words@),
            StoreError::Db(words) => StoreErrorView::Db(words@),
            StoreError::TooLarge => StoreErrorView::TooLarge,
        }
    }
}

impl StoreErrorView {
    /// The protocol code a client sees.
    pub open spec fn code(self) -> Seq<char> {
        match self {
            StoreErrorView::TooLarge => proto::code::TOO_LARGE@,
            _ => proto::code::STORAGE@,
        }
    }

    /// What a client is told.
    pub open spec fn words(self) -> Seq<char> {
        match self {
            StoreErrorView::Io(words) => words,
            StoreErrorView::Db(words) => words,
            StoreErrorView::TooLarge => "larger than the whole archive budget"@,
        }
    }
}

impl StoreError {
    /// The protocol code a client should see for this failure.
    pub fn code(&self) -> (code: &'static str)
        ensures
            code@ == self@.code(),
    {
        match self {
            StoreError::TooLarge => proto::code::TOO_LARGE,
            _ => proto::code::STORAGE,
        }
    }

    /// What a client should be told about this failure.
    pub fn message(&self) -> (message: String)
        ensures
            message@ == self@.words(),
    {
        match self {
            StoreError::Io(words) => words.clone(),
            StoreError::Db(words) => words.clone(),
            StoreError::TooLarge => "larger than the whole archive budget".to_owned(),
        }
    }
}

// ---------------------------------------------------------------------------
// Taking representations in
// ---------------------------------------------------------------------------

/// One representation a draft has accepted.
#[derive(Debug)]
pub struct Accepted {
    pub mime: String,
    pub digest: String,
    pub bytes: u64,
}

impl View for Accepted {
    type V = index::PartView;

    open spec fn view(&self) -> index::PartView {
        index::PartView { mime: self.mime@, digest: self.digest@, bytes: self.bytes as nat }
    }
}

/// Some accepted representations as the contracts speak of them.
pub open spec fn accepted_views(accepted: Seq<Accepted>) -> Seq<index::PartView> {
    Seq::new(accepted.len(), |i: int| accepted[i]@)
}

/// The room a budget leaves for one representation.
pub open spec fn room(budget: int) -> int {
    if budget < 0 {
        0
    } else {
        budget
    }
}

/// A representation being streamed in.
pub struct Incoming {
    writer: blobs::Writer,
    mime: String,
    budget: i64,
}

/// A representation being streamed in, as the contracts speak of it.
pub struct IncomingView {
    pub content: Seq<u8>,
    pub mime: Seq<char>,
    pub budget: int,
}

impl View for Incoming {
    type V = IncomingView;

    closed spec fn view(&self) -> IncomingView {
        IncomingView { content: self.writer@, mime: self.mime@, budget: self.budget as int }
    }
}

impl Incoming {
    pub closed spec fn well_formed(self) -> bool {
        self.writer.well_formed()
    }

    /// Takes one more piece of the representation.
    pub fn absorb(&mut self, piece: &[u8])
        requires
            old(self).well_formed(),
        ensures
            final(self).well_formed(),
            final(self)@ == (IncomingView { content: old(self)@.content + piece@, ..old(self)@ }),
    {
        self.writer.absorb(piece);
    }

    /// Whether what was taken so far still fits the budget.
    ///
    /// Asked as the pieces arrive rather than once at the end: it stops as soon
    /// as it is clear this cannot fit rather than after writing all of it.
    pub fn fits(&self) -> (outcome: Result<(), StoreError>)
        requires
            self.well_formed(),
        ensures
            outcome is Ok <==> blobs::counted(self@.content.len()) <= room(self@.budget),
            outcome matches Err(error) ==> error@ == StoreErrorView::TooLarge,
    {
        let limit: u64 = if self.budget < 0 {
            0
        } else {
            self.budget as u64
        };
        if self.writer.written() > limit {
            Err(StoreError::TooLarge)
        } else {
            Ok(())
        }
    }

    /// The representation the absorbed content makes.
    pub fn finish(self) -> (accepted: Accepted)
        requires
            self.well_formed(),
        ensures
            accepted@.mime == self@.mime,
            accepted@.digest == blobs::name_of(self@.content),
            blobs::is_digest(accepted@.digest),
            accepted@.bytes == blobs::counted(self@.content.len()),
    {
        let sealed = self.writer.finish();
        Accepted { mime: self.mime, digest: sealed.digest, bytes: sealed.bytes }
    }
}

// ---------------------------------------------------------------------------
// Publishing an entry
// ---------------------------------------------------------------------------

/// What of the stored content is read back to describe an entry.
#[derive(Debug)]
pub struct Samples {
    /// The beginning of the best text representation.
    pub text: Option<Vec<u8>>,
    /// The best image representation: the whole of it, or its beginning where
    /// it is too large to be decoded.
    pub image: Option<Vec<u8>>,
}

/// The same as the contracts speak of it.
pub struct SamplesView {
    pub text: Option<Seq<u8>>,
    pub image: Option<Seq<u8>>,
}

impl View for Samples {
    type V = SamplesView;

    open spec fn view(&self) -> SamplesView {
        SamplesView {
            text: thumb::optional_bytes(self.text),
            image: thumb::optional_bytes(self.image),
        }
    }
}

/// What a representation is looked for as.
#[derive(Debug, Clone, Copy, PartialEq, Eq, Structural)]
pub enum Wanted {
    Text,
    Image,
}

impl Wanted {
    /// Whether a representation with a mime type will do.
    pub open spec fn accepts(self, mime: Seq<char>) -> bool {
        match self {
            Wanted::Text => kind::textual(mime),
            Wanted::Image => kind::pictorial(mime),
        }
    }
}

/// Where the most preferred representation of a sort stands; of several that
/// rank alike the first.
pub open spec fn best_place(parts: Seq<index::PartView>, wanted: Wanted) -> Option<int>
    decreases parts.len(),
{
    if parts.len() == 0 {
        None
    } else {
        let earlier = best_place(parts.drop_last(), wanted);
        if !wanted.accepts(parts.last().mime) {
            earlier
        } else {
            match earlier {
                Some(i) => if kind::preference(parts[i].mime) <= kind::preference(
                    parts.last().mime,
                ) {
                    Some(i)
                } else {
                    Some(parts.len() - 1)
                },
                None => Some(parts.len() - 1),
            }
        }
    }
}

/// The text an entry is described by, where it has any.
pub open spec fn described_text(
    parts: Seq<index::PartView>,
    samples: SamplesView,
) -> Option<Seq<char>> {
    match (best_place(parts, Wanted::Text), samples.text) {
        (Some(_), Some(bytes)) => Some(
            text::lossy_text(
                if bytes.len() <= INDEXED_TEXT {
                    bytes
                } else {
                    bytes.take(INDEXED_TEXT as int)
                },
            ),
        ),
        _ => None,
    }
}

/// What is learned about the picture of an entry: its dimensions alone where it
/// is too large to be decoded.
pub open spec fn described_image(
    parts: Seq<index::PartView>,
    samples: SamplesView,
) -> thumb::ThumbnailView {
    match (best_place(parts, Wanted::Image), samples.image) {
        (Some(i), Some(content)) => if parts[i].bytes <= THUMBNAILED_IMAGE {
            thumb::made(content)
        } else {
            thumb::sized(content)
        },
        _ => thumb::nothing_learned(),
    }
}

/// Everything derived about an entry from its content.
pub open spec fn derived(
    parts: Seq<index::PartView>,
    source: Option<Seq<char>>,
    samples: SamplesView,
) -> index::FactsView {
    let body = described_text(parts, samples);
    let picture = described_image(parts, samples);
    index::FactsView {
        preview: match body {
            Some(body) => Some(kind::row(body)),
            None => None,
        },
        width: picture.width,
        height: picture.height,
        thumb: match picture.png {
            Some(png) => Some(
                index::PartView {
                    mime: "image/png"@,
                    digest: blobs::name_of(png),
                    bytes: png.len(),
                },
            ),
            None => None,
        },
        source,
        body,
    }
}

/// Whether any representation marks the whole entry as a secret.
pub open spec fn secret(parts: Seq<index::PartView>) -> bool {
    exists|i: int| 0 <= i < parts.len() && kind::sensitive((#[trigger] parts[i]).mime)
}

/// The bytes some representations take together, identical content counted
/// once.
pub open spec fn footprint(parts: Seq<index::PartView>) -> nat
    decreases parts.len(),
{
    if parts.len() == 0 {
        0
    } else {
        footprint(parts.drop_last()) + if occurs_earlier(parts) {
            0
        } else {
            parts.last().bytes
        }
    }
}

/// Whether the last representation has the content of one before it.
pub open spec fn occurs_earlier(parts: Seq<index::PartView>) -> bool {
    exists|i: int|
        0 <= i < parts.len() - 1 && (#[trigger] parts[i]).digest == parts.last().digest
}

/// What a commit did.
#[derive(Debug)]
pub struct Committed {
    pub entry: i64,
    /// False when identical content was already in the archive and only its
    /// timestamp moved.
    pub created: bool,
    pub summary: proto::Summary,
    /// Entries eviction removed to get back under budget.
    pub evicted: Vec<i64>,
    /// The thumbnail to store with the entry.
    pub thumb: Option<Vec<u8>>,
}

/// What a commit did, as the contracts speak of it.
pub enum CommitView {
    /// The draft was empty or held a secret.
    Nothing,
    /// The archive would not take it.
    Refused(StoreErrorView),
    /// An entry was recorded or copied again.
    Done {
        entry: int,
        created: bool,
        summary: proto::SummaryView,
        evicted: Seq<int>,
        thumb: Option<Seq<u8>>,
    },
}

/// The outcome of a commit as the contracts speak of it.
pub open spec fn commit_view(outcome: Result<Option<Committed>, StoreError>) -> CommitView {
    match outcome {
        Ok(Some(done)) => CommitView::Done {
            entry: done.entry as int,
            created: done.created,
            summary: done.summary@,
            evicted: index::ids(done.evicted@),
            thumb: thumb::optional_bytes(done.thumb),
        },
        Ok(None) => CommitView::Nothing,
        Err(error) => CommitView::Refused(error@),
    }
}

/// An archive as the contracts speak of it: its index, its budget, the blobs
/// whose files nothing points at any more, and the content that drafts and
/// watchers hold and have not published yet, as often as they hold it.
pub struct StoreView {
    pub index: index::IndexView,
    pub budget: int,
    pub orphaned: Seq<Seq<char>>,
    pub drafted: Multiset<Seq<char>>,
}

/// The digests of some representations.
pub open spec fn digests_of(parts: Seq<index::PartView>) -> Seq<Seq<char>> {
    Seq::new(parts.len(), |i: int| parts[i].digest)
}

/// The content a draft of some representations holds.
pub open spec fn claims(parts: Seq<index::PartView>) -> Multiset<Seq<char>> {
    digests_of(parts).to_multiset()
}

/// Whether a file is needed: an entry's, or a draft's that may still become one.
pub open spec fn needed(
    blobs: Seq<ledger::BlobView>,
    drafted: Multiset<Seq<char>>,
    digest: Seq<char>,
) -> bool {
    ledger::find(blobs, digest) is Some || drafted.contains(digest)
}

/// Those of some digests whose files are not needed, each once.
pub open spec fn loose(
    blobs: Seq<ledger::BlobView>,
    drafted: Multiset<Seq<char>>,
    digests: Seq<Seq<char>>,
) -> Seq<Seq<char>>
    decreases digests.len(),
{
    if digests.len() == 0 {
        Seq::empty()
    } else {
        let earlier = loose(blobs, drafted, digests.drop_last());
        if needed(blobs, drafted, digests.last()) || earlier.contains(digests.last()) {
            earlier
        } else {
            earlier.push(digests.last())
        }
    }
}

/// What holds of every archive: no file that is to go is needed, and none is to
/// go twice.
pub open spec fn sweepable(store: StoreView) -> bool {
    &&& forall|digest: Seq<char>| #[trigger]
        store.orphaned.contains(digest) ==> !needed(store.index.blobs, store.drafted, digest)
    &&& store.orphaned.no_duplicates()
}

/// The archive once its index has changed and points at some digests no more.
pub open spec fn orphaning(
    store: StoreView,
    index: index::IndexView,
    lost: Seq<Seq<char>>,
) -> StoreView {
    StoreView {
        index,
        orphaned: loose(index.blobs, store.drafted, store.orphaned + lost),
        ..store
    }
}

/// The archive once a draft holds some content.
pub open spec fn claimed(store: StoreView, digest: Seq<char>) -> StoreView {
    let drafted = store.drafted.insert(digest);
    StoreView {
        drafted,
        orphaned: loose(store.index.blobs, drafted, store.orphaned),
        ..store
    }
}

/// The archive once a draft of some representations is no more: its index is
/// what came of the draft, and points at some digests no more.
pub open spec fn closed_over(
    store: StoreView,
    index: index::IndexView,
    parts: Seq<index::PartView>,
    lost: Seq<Seq<char>>,
) -> StoreView {
    let drafted = store.drafted.sub(claims(parts));
    StoreView {
        index,
        drafted,
        orphaned: loose(index.blobs, drafted, store.orphaned + digests_of(parts) + lost),
        ..store
    }
}

/// The archive after a draft came to nothing: the files of its representations
/// are to go, but for those that are also an entry's or another draft's.
pub open spec fn discarded(store: StoreView, parts: Seq<index::PartView>) -> StoreView {
    closed_over(store, store.index, parts, Seq::empty())
}

/// The archive with another index in place of its own.
pub open spec fn reloaded(store: StoreView, index: index::IndexView) -> StoreView {
    orphaning(store, index, index::blob_digests(store.index.blobs))
}

/// The archive after a draft was published, and how that went.
pub open spec fn published(
    store: StoreView,
    parts: Seq<index::PartView>,
    source: Option<Seq<char>>,
    at: int,
    samples: SamplesView,
) -> (StoreView, CommitView) {
    if parts.len() == 0 || secret(parts) {
        (discarded(store, parts), CommitView::Nothing)
    } else {
        let identity = identity::identity_of(parts);
        match index::identity_place(store.index.entries, identity) {
            Some(i) => {
                let after = index::touched(store.index, identity, at);
                (
                    closed_over(store, after, parts, Seq::empty()),
                    CommitView::Done {
                        entry: store.index.entries[i].id,
                        created: false,
                        summary: index::summary_of(after.entries[i]),
                        evicted: Seq::empty(),
                        thumb: None,
                    },
                )
            },
            None => if footprint(parts) > room(store.budget) {
                (discarded(store, parts), CommitView::Refused(StoreErrorView::TooLarge))
            } else {
                let facts = derived(parts, source, samples);
                match index::refusal(store.index, identity, parts, facts.thumb) {
                    Some(refused) => (
                        discarded(store, parts),
                        CommitView::Refused(StoreErrorView::Db(refused.words())),
                    ),
                    None => {
                        let larger = index::inserted(store.index, identity, parts, facts, at);
                        let entry = index::new_entry(
                            store.index.entries,
                            identity,
                            parts,
                            facts,
                            at,
                        );
                        let eviction = index::evicted(larger, store.budget);
                        (
                            closed_over(store, eviction.index, parts, eviction.orphaned),
                            CommitView::Done {
                                entry: entry.id,
                                created: true,
                                summary: index::summary_of(entry),
                                evicted: eviction.removed,
                                thumb: described_image(parts, samples).png,
                            },
                        )
                    },
                }
            },
        }
    }
}

/// What has to be read back before a draft can be published.
#[derive(Debug)]
pub struct Plan {
    /// The blob whose beginning is the entry's text.
    pub text: Option<String>,
    /// The blob that is the entry's picture, and how many bytes of it to read.
    pub image: Option<(String, u64)>,
}

/// The same as the contracts speak of it.
pub struct PlanView {
    pub text: Option<Seq<char>>,
    pub image: Option<(Seq<char>, nat)>,
}

impl View for Plan {
    type V = PlanView;

    open spec fn view(&self) -> PlanView {
        PlanView {
            text: text::optional(self.text),
            image: match self.image {
                Some((digest, bytes)) => Some((digest@, bytes as nat)),
                None => None,
            },
        }
    }
}

/// How many bytes of a picture are read back.
pub open spec fn sampled(bytes: nat) -> nat {
    if bytes <= THUMBNAILED_IMAGE {
        bytes
    } else {
        THUMBNAILED_IMAGE as nat
    }
}

/// What has to be read back before a draft can be published: nothing where no
/// new entry will come of it.
pub open spec fn planned(store: StoreView, parts: Seq<index::PartView>) -> PlanView {
    if secret(parts) || index::identity_place(
        store.index.entries,
        identity::identity_of(parts),
    ) is Some || footprint(parts) > room(store.budget) {
        PlanView { text: None, image: None }
    } else {
        PlanView {
            text: match best_place(parts, Wanted::Text) {
                Some(i) => Some(parts[i].digest),
                None => None,
            },
            image: match best_place(parts, Wanted::Image) {
                Some(i) => Some((parts[i].digest, sampled(parts[i].bytes))),
                None => None,
            },
        }
    }
}

// ---------------------------------------------------------------------------
// The archive itself
// ---------------------------------------------------------------------------

pub struct Store {
    index: index::Index,
    budget: i64,
    orphaned: Vec<String>,
    drafted: Vec<String>,
}

impl View for Store {
    type V = StoreView;

    closed spec fn view(&self) -> StoreView {
        StoreView {
            index: self.index@,
            budget: self.budget as int,
            orphaned: text::contents(self.orphaned@),
            drafted: text::contents(self.drafted@).to_multiset(),
        }
    }
}

fn part_of(accepted: &Accepted) -> (part: index::Part)
    ensures
        part@ == accepted@,
{
    index::Part {
        mime: accepted.mime.clone(),
        digest: accepted.digest.clone(),
        bytes: accepted.bytes,
    }
}

fn parts_of(accepted: &[Accepted]) -> (parts: Vec<index::Part>)
    ensures
        index::part_views(parts@) == accepted_views(accepted@),
{
    let mut parts: Vec<index::Part> = Vec::new();
    let mut i: usize = 0;
    while i < accepted.len()
        invariant
            i <= accepted.len(),
            index::part_views(parts@) == accepted_views(accepted@).take(i as int),
        decreases accepted.len() - i,
    {
        let ghost before = index::part_views(parts@);
        parts.push(part_of(&accepted[i]));
        assert(index::part_views(parts@) =~= before.push(accepted@[i as int]@));
        assert(index::part_views(parts@) =~= accepted_views(accepted@).take(i as int + 1));
        i += 1;
    }
    assert(index::part_views(parts@) =~= accepted_views(accepted@));
    parts
}

fn holds_secret(accepted: &[Accepted]) -> (answer: bool)
    ensures
        answer == secret(accepted_views(accepted@)),
{
    let mut i: usize = 0;
    while i < accepted.len()
        invariant
            i <= accepted.len(),
            forall|k: int|
                0 <= k < i ==> !kind::sensitive(
                    (#[trigger] accepted_views(accepted@)[k]).mime,
                ),
        decreases accepted.len() - i,
    {
        if kind::is_sensitive(accepted[i].mime.as_str()) {
            assert(kind::sensitive(accepted_views(accepted@)[i as int].mime));
            return true;
        }
        i += 1;
    }
    false
}

/// Whether some representations together are larger than a limit, identical
/// content counted once.
fn exceeds(accepted: &[Accepted], limit: u64) -> (answer: bool)
    ensures
        answer == (footprint(accepted_views(accepted@)) > limit),
{
    let ghost all = accepted_views(accepted@);
    let mut total: u128 = 0;
    let mut i: usize = 0;
    while i < accepted.len()
        invariant
            i <= accepted.len(),
            all == accepted_views(accepted@),
            total == footprint(all.take(i as int)),
            total <= i * 0xffff_ffff_ffff_ffff,
        decreases accepted.len() - i,
    {
        let ghost seen = all.take(i as int + 1);
        assert(seen.drop_last() =~= all.take(i as int));
        let mut repeated: bool = false;
        let mut k: usize = 0;
        while k < i
            invariant
                k <= i < accepted.len(),
                all == accepted_views(accepted@),
                seen == all.take(i as int + 1),
                repeated == exists|n: int|
                    0 <= n < k && (#[trigger] seen[n]).digest == seen.last().digest,
            decreases i - k,
        {
            assert(seen[k as int] == accepted@[k as int]@);
            assert(seen.last() == accepted@[i as int]@);
            if text::same(accepted[k].digest.as_str(), accepted[i].digest.as_str()) {
                repeated = true;
            }
            k += 1;
        }
        assert(repeated == occurs_earlier(seen));
        if !repeated {
            total += accepted[i].bytes as u128;
        }
        i += 1;
    }
    assert(all.take(all.len() as int) =~= all);
    total > limit as u128
}

/// The most preferred representation of a sort.
fn best(accepted: &[Accepted], wanted: Wanted) -> (place: Option<usize>)
    ensures
        match place {
            Some(i) => best_place(accepted_views(accepted@), wanted) == Some(i as int) && i
                < accepted@.len(),
            None => best_place(accepted_views(accepted@), wanted) is None,
        },
{
    let ghost all = accepted_views(accepted@);
    let mut place: Option<usize> = None;
    let mut i: usize = 0;
    while i < accepted.len()
        invariant
            i <= accepted.len(),
            all == accepted_views(accepted@),
            match place {
                Some(k) => best_place(all.take(i as int), wanted) == Some(k as int) && k < i,
                None => best_place(all.take(i as int), wanted) is None,
            },
        decreases accepted.len() - i,
    {
        let ghost seen = all.take(i as int + 1);
        assert(seen.drop_last() =~= all.take(i as int));
        assert(seen.last() == accepted@[i as int]@);
        let mime = accepted[i].mime.as_str();
        let suits: bool = match wanted {
            Wanted::Text => kind::is_text(mime),
            Wanted::Image => kind::is_image(mime),
        };
        if suits {
            match place {
                Some(k) => {
                    assert(seen[k as int] == accepted@[k as int]@);
                    if kind::rank(accepted[k].mime.as_str()) > kind::rank(mime) {
                        place = Some(i);
                    }
                },
                None => {
                    place = Some(i);
                },
            }
        }
        i += 1;
    }
    assert(all.take(all.len() as int) =~= all);
    place
}

/// Whether some names hold one.
fn names(all: &Vec<String>, name: &str) -> (answer: bool)
    ensures
        answer == text::contents(all@).contains(name@),
{
    let mut i: usize = 0;
    while i < all.len()
        invariant
            i <= all.len(),
            forall|k: int| 0 <= k < i ==> #[trigger] text::contents(all@)[k] != name@,
        decreases all.len() - i,
    {
        assert(text::contents(all@)[i as int] == all@[i as int]@);
        if text::same(all[i].as_str(), name) {
            return true;
        }
        i += 1;
    }
    false
}

fn copied(content: &Option<&str>) -> (copy: Option<String>)
    ensures
        text::optional(copy) == text::optional_slice(*content),
{
    match content {
        Some(content) => Some((*content).to_owned()),
        None => None,
    }
}

/// Describes an entry by what was read back of it: a text sample for the
/// preview and search, and a thumbnail for a picture.
fn derive(accepted: &[Accepted], source: &Option<&str>, samples: &Samples) -> (described: (
    index::Facts,
    Option<Vec<u8>>,
))
    ensures
        described.0@ == derived(
            accepted_views(accepted@),
            text::optional_slice(*source),
            samples@,
        ),
        thumb::optional_bytes(described.1) == described_image(
            accepted_views(accepted@),
            samples@,
        ).png,
{
    let mut preview: Option<String> = None;
    let mut body: Option<String> = None;
    if best(accepted, Wanted::Text).is_some() {
        if let Some(bytes) = &samples.text {
            let sample = read_text(bytes);
            preview = Some(kind::preview(sample.as_str()));
            body = Some(sample);
        }
    }
    let mut picture = thumb::Thumbnail { width: None, height: None, png: None };
    if let Some(i) = best(accepted, Wanted::Image) {
        if let Some(content) = &samples.image {
            if accepted[i].bytes <= THUMBNAILED_IMAGE {
                picture = thumb::make(content);
            } else {
                picture = thumb::size_up(content);
            }
        }
    }
    let thumb: Option<index::Part> = match &picture.png {
        Some(png) => Some(
            index::Part {
                mime: "image/png".to_owned(),
                digest: blobs::digest_of(png),
                bytes: png.len() as u64,
            },
        ),
        None => None,
    };
    let facts = index::Facts {
        preview,
        width: picture.width,
        height: picture.height,
        thumb,
        source: copied(source),
        body,
    };
    (facts, picture.png)
}

/// Reads at most the indexed beginning of some content as text.
///
/// Invalid UTF-8 is replaced rather than refused: a representation labelled
/// text that is not quite text still deserves a preview, and the bytes served
/// back to a pasting application are untouched either way. A cut can land
/// inside a character; that tail becomes a replacement character too.
fn read_text(bytes: &Vec<u8>) -> (sample: String)
    ensures
        sample@ == text::lossy_text(
            if bytes@.len() <= INDEXED_TEXT {
                bytes@
            } else {
                bytes@.take(INDEXED_TEXT as int)
            },
        ),
{
    if bytes.len() as u64 <= INDEXED_TEXT {
        text::utf8_text_lossy(bytes)
    } else {
        let beginning = vstd::slice::slice_subrange(bytes.as_slice(), 0, INDEXED_TEXT as usize);
        assert(beginning@ =~= bytes@.take(INDEXED_TEXT as int));
        text::utf8_text_lossy(beginning)
    }
}

impl Store {
    pub closed spec fn well_formed(self) -> bool {
        self.index.well_formed() && sweepable(self@)
    }

    /// An archive over an index, with a budget.
    pub fn new(index: index::Index, budget: i64) -> (store: Store)
        requires
            index.well_formed(),
        ensures
            store.well_formed(),
            store@ == (StoreView {
                index: index@,
                budget: budget as int,
                orphaned: Seq::empty(),
                drafted: Multiset::empty(),
            }),
    {
        let store = Store { index, budget, orphaned: Vec::new(), drafted: Vec::new() };
        assert(store@.orphaned =~= Seq::empty());
        assert(text::contents(store.drafted@) =~= Seq::empty());
        assert(store@.drafted =~= Multiset::empty()) by {
            broadcast use vstd::seq_lib::group_to_multiset_ensures;

        }
        store
    }

    /// Every archive has a sound index, and no file it would have deleted is
    /// needed.
    pub proof fn is_sound(&self)
        requires
            self.well_formed(),
        ensures
            index::sound(self@.index),
            sweepable(self@),
    {
    }

    pub fn budget(&self) -> (budget: i64)
        ensures
            budget == self@.budget,
    {
        self.budget
    }

    /// Begins one representation of known length.
    ///
    /// Compared in unsigned terms: a declared length above `i64::MAX` would
    /// wrap to a negative number and slip past a signed check. Rejects rather
    /// than evicts: nothing is worth emptying the whole archive to hold, and
    /// the caller still has to drain the payload.
    pub fn accept(&self, mime: &str, bytes: u64) -> (outcome: Result<Incoming, StoreError>)
        ensures
            outcome is Ok <==> bytes <= room(self@.budget),
            outcome matches Ok(incoming) ==> incoming.well_formed() && incoming@ == (IncomingView {
                content: Seq::empty(),
                mime: mime@,
                budget: self@.budget,
            }),
            outcome matches Err(error) ==> error@ == StoreErrorView::TooLarge,
    {
        let limit: u64 = if self.budget < 0 {
            0
        } else {
            self.budget as u64
        };
        if bytes > limit {
            Err(StoreError::TooLarge)
        } else {
            Ok(self.incoming(mime))
        }
    }

    /// Begins a representation whose length the client does not yet know.
    ///
    /// The budget is checked as the pieces arrive rather than up front, which
    /// is the only thing that can be done when nobody has said how much is
    /// coming.
    pub fn incoming(&self, mime: &str) -> (incoming: Incoming)
        ensures
            incoming.well_formed(),
            incoming@ == (IncomingView {
                content: Seq::empty(),
                mime: mime@,
                budget: self@.budget,
            }),
    {
        Incoming { writer: blobs::Writer::new(), mime: mime.to_owned(), budget: self.budget }
    }

    /// What has to be read back before a draft can be published.
    pub fn plan(&self, accepted: &[Accepted]) -> (plan: Plan)
        requires
            self.well_formed(),
        ensures
            plan@ == planned(self@, accepted_views(accepted@)),
    {
        let limit: u64 = if self.budget < 0 {
            0
        } else {
            self.budget as u64
        };
        let parts = parts_of(accepted);
        if holds_secret(accepted) || self.index.identified(
            identity::identity(&parts).as_str(),
        ).is_some() || exceeds(accepted, limit) {
            return Plan { text: None, image: None };
        }
        let text: Option<String> = match best(accepted, Wanted::Text) {
            Some(i) => Some(accepted[i].digest.clone()),
            None => None,
        };
        let image: Option<(String, u64)> = match best(accepted, Wanted::Image) {
            Some(i) => {
                let bytes: u64 = if accepted[i].bytes <= THUMBNAILED_IMAGE {
                    accepted[i].bytes
                } else {
                    THUMBNAILED_IMAGE
                };
                Some((accepted[i].digest.clone(), bytes))
            },
            None => None,
        };
        Plan { text, image }
    }

    /// Adds some digests to those whose files are to go, and keeps of all of them
    /// those that are not needed.
    fn settle(&mut self, lost: Vec<String>)
        ensures
            final(self).index == old(self).index,
            final(self).budget == old(self).budget,
            final(self).drafted == old(self).drafted,
            final(self)@.orphaned == loose(
                old(self)@.index.blobs,
                old(self)@.drafted,
                old(self)@.orphaned + text::contents(lost@),
            ),
            sweepable(final(self)@),
    {
        let ghost before = self@;
        let ghost all = before.orphaned + text::contents(lost@);
        let mut named: Vec<String> = Vec::new();
        named.append(&mut self.orphaned);
        let mut more = lost;
        named.append(&mut more);
        assert(text::contents(named@) =~= all);
        let mut kept: Vec<String> = Vec::new();
        let mut i: usize = 0;
        assert(text::contents(kept@) =~= loose(before.index.blobs, before.drafted, all.take(0)));
        while i < named.len()
            invariant
                i <= named.len(),
                self.index == old(self).index,
                self.budget == old(self).budget,
                self.drafted == old(self).drafted,
                before == old(self)@,
                all == text::contents(named@),
                text::contents(kept@) == loose(
                    before.index.blobs,
                    before.drafted,
                    all.take(i as int),
                ),
            decreases named.len() - i,
        {
            let digest = named[i].as_str();
            let ghost earlier = text::contents(kept@);
            proof {
                broadcast use vstd::seq_lib::group_to_multiset_ensures;

                assert(all.take(i as int + 1).drop_last() =~= all.take(i as int));
                assert(all.take(i as int + 1).last() == digest@);
                assert(before.drafted.contains(digest@) <==> text::contents(
                    self.drafted@,
                ).contains(digest@));
            }
            if !self.index.knows(digest) && !names(&self.drafted, digest) && !names(&kept, digest) {
                kept.push(named[i].clone());
                assert(text::contents(kept@) =~= earlier.push(all[i as int]));
            }
            i += 1;
        }
        assert(all.take(all.len() as int) =~= all);
        self.orphaned = kept;
        proof {
            loose_is_not_needed(before.index.blobs, before.drafted, all);
        }
    }

    /// Takes back what a draft of some representations holds.
    fn unclaim(&mut self, accepted: &[Accepted])
        ensures
            final(self).index == old(self).index,
            final(self).budget == old(self).budget,
            final(self).orphaned == old(self).orphaned,
            final(self)@.drafted == old(self)@.drafted.sub(claims(accepted_views(accepted@))),
    {
        let ghost before = self@.drafted;
        let ghost all = accepted_views(accepted@);
        let mut i: usize = 0;
        assert(digests_of(all.take(0)) =~= Seq::empty());
        assert(before =~= before.sub(claims(all.take(0)))) by {
            broadcast use vstd::seq_lib::group_to_multiset_ensures;

        }
        while i < accepted.len()
            invariant
                i <= accepted.len(),
                self.index == old(self).index,
                self.budget == old(self).budget,
                self.orphaned == old(self).orphaned,
                all == accepted_views(accepted@),
                self@.drafted == before.sub(claims(all.take(i as int))),
            decreases accepted.len() - i,
        {
            let digest = accepted[i].digest.as_str();
            let ghost held = text::contents(self.drafted@);
            let mut k: usize = 0;
            while k < self.drafted.len() && !text::same(self.drafted[k].as_str(), digest)
                invariant
                    k <= self.drafted.len(),
                    held == text::contents(self.drafted@),
                    forall|n: int| 0 <= n < k ==> #[trigger] held[n] != digest@,
                decreases self.drafted.len() - k,
            {
                assert(held[k as int] == self.drafted@[k as int]@);
                k += 1;
            }
            if k < self.drafted.len() {
                assert(held[k as int] == self.drafted@[k as int]@);
                self.drafted.remove(k);
                assert(text::contents(self.drafted@) =~= held.remove(k as int));
            }
            proof {
                broadcast use vstd::seq_lib::group_to_multiset_ensures;

                assert(self@.drafted =~= held.to_multiset().remove(digest@));
                assert(digests_of(all.take(i as int + 1)) =~= digests_of(all.take(i as int)).push(
                    digest@,
                ));
                assert(self@.drafted =~= before.sub(claims(all.take(i as int + 1))));
            }
            i += 1;
        }
        assert(all.take(all.len() as int) =~= all);
    }

    /// Takes back what a draft holds, now that the index is what came of it and
    /// points at some digests no more.
    fn let_go(&mut self, accepted: &[Accepted], lost: Vec<String>)
        requires
            old(self).index.well_formed(),
        ensures
            final(self).index == old(self).index,
            final(self).well_formed(),
            final(self)@ == closed_over(
                old(self)@,
                old(self)@.index,
                accepted_views(accepted@),
                text::contents(lost@),
            ),
    {
        let ghost before = self@;
        let ghost all = accepted_views(accepted@);
        self.unclaim(accepted);
        let mut gone: Vec<String> = Vec::new();
        let mut i: usize = 0;
        while i < accepted.len()
            invariant
                i <= accepted.len(),
                all == accepted_views(accepted@),
                text::contents(gone@) == digests_of(all).take(i as int),
            decreases accepted.len() - i,
        {
            let ghost earlier = text::contents(gone@);
            gone.push(accepted[i].digest.clone());
            assert(text::contents(gone@) =~= earlier.push(accepted@[i as int]@.digest));
            assert(text::contents(gone@) =~= digests_of(all).take(i as int + 1));
            i += 1;
        }
        let ghost own = text::contents(gone@);
        let ghost others = text::contents(lost@);
        assert(own =~= digests_of(all));
        let mut more = lost;
        gone.append(&mut more);
        assert(text::contents(gone@) =~= own + others);
        assert(before.orphaned + (own + others) =~= before.orphaned + own + others);
        self.settle(gone);
    }

    /// Notes that a draft holds a representation, so that its file stays whatever
    /// becomes of other drafts and entries with the same content.
    pub fn claim(&mut self, accepted: &Accepted)
        requires
            old(self).well_formed(),
        ensures
            final(self).well_formed(),
            final(self)@ == claimed(old(self)@, accepted@.digest),
    {
        let ghost before = self@;
        let ghost held = text::contents(self.drafted@);
        self.drafted.push(accepted.digest.clone());
        proof {
            broadcast use vstd::seq_lib::group_to_multiset_ensures;

            assert(text::contents(self.drafted@) =~= held.push(accepted@.digest));
            assert(self@.drafted =~= before.drafted.insert(accepted@.digest));
        }
        let none: Vec<String> = Vec::new();
        assert(before.orphaned + text::contents(none@) =~= before.orphaned);
        self.settle(none);
    }

    /// Gives up a representation that no draft holds.
    pub fn disown(&mut self, accepted: &Accepted)
        requires
            old(self).well_formed(),
        ensures
            final(self).well_formed(),
            final(self)@ == orphaning(old(self)@, old(self)@.index, seq![accepted@.digest]),
    {
        let mut gone: Vec<String> = Vec::new();
        gone.push(accepted.digest.clone());
        assert(text::contents(gone@) =~= seq![accepted@.digest]);
        self.settle(gone);
    }

    /// Lets go of what was stored for a draft that came to nothing.
    pub fn discard(&mut self, accepted: &[Accepted])
        requires
            old(self).well_formed(),
        ensures
            final(self).well_formed(),
            final(self)@ == discarded(old(self)@, accepted_views(accepted@)),
    {
        let none: Vec<String> = Vec::new();
        assert(text::contents(none@) =~= Seq::empty());
        self.let_go(accepted, none);
    }

    /// Goes on with another index, for one whose changes could not be saved.
    /// Drafts keep what they hold, and what only the given up index pointed at is
    /// to go.
    pub fn reload(&mut self, index: index::Index)
        requires
            old(self).well_formed(),
            index.well_formed(),
        ensures
            final(self).well_formed(),
            final(self)@ == reloaded(old(self)@, index@),
    {
        let gone = self.index.known_digests();
        self.index = index;
        self.settle(gone);
    }

    /// Publishes a draft's representations as one entry.
    ///
    /// A draft that no entry comes of leaves nothing behind: what was stored for
    /// it is let go of.
    pub fn commit(
        &mut self,
        accepted: &[Accepted],
        source: Option<&str>,
        at: i64,
        samples: &Samples,
    ) -> (outcome: Result<Option<Committed>, StoreError>)
        requires
            old(self).well_formed(),
        ensures
            final(self).well_formed(),
            (final(self)@, commit_view(outcome)) == published(
                old(self)@,
                accepted_views(accepted@),
                text::optional_slice(source),
                at as int,
                samples@,
            ),
    {
        let ghost before = self@;
        let ghost given = accepted_views(accepted@);
        if accepted.len() == 0 {
            self.discard(accepted);
            return Ok(None);
        }
        // Defence in depth: the capture client filters secrets too, but some
        // backends live inside this process, and an archive that holds a
        // password it promises not to show still holds it. What was stored of
        // it on the way here goes too.
        if holds_secret(accepted) {
            self.discard(accepted);
            return Ok(None);
        }
        let parts = parts_of(accepted);
        let identity = identity::identity(&parts);
        // Identical content already held: move it to the top of the list
        // instead of recording it twice. This is what keeps an application
        // that re-asserts the clipboard from filling the archive.
        if let Some(existing) = self.index.touch(identity.as_str(), at) {
            proof {
                index::identity_placed_right(before.index.entries, identity@);
                let i = index::identity_place(before.index.entries, identity@)->0;
                index::placed_only(self.index@.entries, i);
            }
            let none: Vec<String> = Vec::new();
            assert(text::contents(none@) =~= Seq::empty());
            self.let_go(accepted, none);
            return match self.index.summary(existing) {
                Some(summary) => Ok(
                    Some(
                        Committed {
                            entry: existing,
                            created: false,
                            summary,
                            evicted: no_ids(),
                            thumb: None,
                        },
                    ),
                ),
                None => Ok(None),
            };
        }
        let limit: u64 = if self.budget < 0 {
            0
        } else {
            self.budget as u64
        };
        if exceeds(accepted, limit) {
            self.discard(accepted);
            return Err(StoreError::TooLarge);
        }
        let (facts, thumb) = derive(accepted, &source, samples);
        let entry: i64 = match self.index.insert(identity.as_str(), &parts, &facts, at) {
            Ok(entry) => entry,
            Err(refused) => {
                self.discard(accepted);
                return Err(StoreError::Db(refused.message()));
            },
        };
        let ghost larger = self.index@;
        proof {
            laws::what_was_recorded_can_be_located(
                before.index,
                identity@,
                given,
                facts@,
                at as int,
            );
        }
        let summary = match self.index.summary(entry) {
            Some(summary) => summary,
            None => {
                return Ok(None);
            },
        };
        let (orphaned, evicted) = self.index.evict_to(self.budget);
        self.let_go(accepted, orphaned);
        Ok(Some(Committed { entry, created: true, summary, evicted, thumb }))
    }

    pub fn list(
        &mut self,
        limit: u32,
        before: Option<i64>,
        query: Option<&str>,
        only: Option<kind::Kind>,
    ) -> (items: Result<Vec<proto::Summary>, StoreError>)
        requires
            old(self).well_formed(),
        ensures
            final(self).well_formed(),
            final(self)@ == old(self)@,
            items matches Ok(items) ==> proto::summaries(items@) == index::summaries_of(
                index::listed(
                    old(self)@.index.entries,
                    limit,
                    before,
                    text::optional_slice(query),
                    only,
                ),
            ),
            items matches Err(error) ==> error is Db && (query matches Some(typed)
                && search::expression(typed@).len() > 0),
    {
        match self.index.list(limit, before, query, only) {
            Ok(items) => Ok(items),
            Err(words) => Err(StoreError::Db(words)),
        }
    }

    pub fn summary(&self, entry: i64) -> (summary: Option<proto::Summary>)
        ensures
            match summary {
                Some(summary) => index::entry_at(self@.index.entries, entry as int) matches Some(
                    found,
                ) && summary@ == index::summary_of(found),
                None => index::entry_at(self@.index.entries, entry as int) is None,
            },
    {
        self.index.summary(entry)
    }

    /// Locates one representation for serving back: its mime type, the blob it
    /// is and how large that is.
    pub fn open_part(&self, entry: i64, mime: Option<&str>) -> (part: Option<
        (String, String, u64),
    >)
        ensures
            index::location(part) == index::located(
                self@.index.entries,
                entry as int,
                text::optional_slice(mime),
            ),
    {
        self.index.locate(entry, mime)
    }

    /// Locates the picture of an entry: its preferred image representation.
    pub fn open_image(&self, entry: i64) -> (part: Option<(String, String, u64)>)
        ensures
            index::location(part) == index::located_picture(self@.index.entries, entry as int),
    {
        self.index.locate_picture(entry)
    }

    /// Locates the thumbnail of an entry: the blob it is and how large that is.
    pub fn thumbnail(&self, entry: i64) -> (thumb: Option<(String, u64)>)
        ensures
            match thumb {
                Some((digest, bytes)) => index::thumb_of(self@.index, entry as int) == Some(
                    (digest@, bytes as nat),
                ),
                None => index::thumb_of(self@.index, entry as int) is None,
            },
    {
        self.index.thumb(entry)
    }

    pub fn set_pinned(&mut self, entry: i64, pinned: bool) -> (summary: Option<proto::Summary>)
        requires
            old(self).well_formed(),
        ensures
            final(self).well_formed(),
            final(self)@ == (StoreView {
                index: index::pinning(old(self)@.index, entry as int, pinned),
                ..old(self)@
            }),
            match summary {
                Some(summary) => index::entry_at(old(self)@.index.entries, entry as int) matches Some(
                    found,
                ) && summary@ == index::summary_of((index::RecordView { pinned, ..found })),
                None => index::entry_at(old(self)@.index.entries, entry as int) is None,
            },
    {
        let ghost before = self.index@;
        if !self.index.set_pinned(entry, pinned) {
            return None;
        }
        proof {
            index::placed_right(before.entries, entry as int);
            let i = index::place(before.entries, entry as int)->0;
            index::placed_only(self.index@.entries, i);
        }
        self.index.summary(entry)
    }

    pub fn remove(&mut self, entry: i64) -> (known: bool)
        requires
            old(self).well_formed(),
        ensures
            final(self).well_formed(),
            known == (index::place(old(self)@.index.entries, entry as int) is Some),
            final(self)@ == (if known {
                orphaning(
                    old(self)@,
                    index::removed(old(self)@.index, entry as int),
                    index::orphans(old(self)@.index, entry as int),
                )
            } else {
                old(self)@
            }),
    {
        if self.index.record(entry).is_none() {
            return false;
        }
        let orphaned = self.index.remove(entry);
        self.settle(orphaned);
        true
    }

    pub fn clear(&mut self)
        requires
            old(self).well_formed(),
        ensures
            final(self).well_formed(),
            final(self)@ == orphaning(
                old(self)@,
                index::cleared(old(self)@.index).0,
                index::cleared(old(self)@.index).1,
            ),
    {
        let orphaned = self.index.clear();
        self.settle(orphaned);
    }

    pub fn stats(&self) -> (shape: (i64, i64))
        requires
            self.well_formed(),
        ensures
            shape.0 == self@.index.entries.len(),
            shape.1 == ledger::total(self@.index.blobs),
    {
        (self.index.entries(), self.index.bytes())
    }

    /// The rows that changed since they were last saved, in the order they did.
    pub fn take_changes(&mut self) -> (changes: Vec<index::Change>)
        requires
            old(self).well_formed(),
        ensures
            final(self).well_formed(),
            final(self)@ == (StoreView {
                index: (index::IndexView { changes: Seq::empty(), ..old(self)@.index }),
                ..old(self)@
            }),
            index::change_views(changes@) == old(self)@.index.changes,
    {
        self.index.take_changes()
    }

    /// The blobs whose files nothing points at any more: no entry, and no draft
    /// that may still become one.
    ///
    /// Deleted only after the rows that stopped pointing at them are saved. A
    /// file left behind by a failure is wasted space the next startup reclaims;
    /// a file deleted too early would be a hole in the archive, so the order is
    /// not interchangeable.
    pub fn sweep(&mut self) -> (orphaned: Vec<String>)
        requires
            old(self).well_formed(),
        ensures
            final(self).well_formed(),
            final(self)@ == (StoreView { orphaned: Seq::empty(), ..old(self)@ }),
            text::contents(orphaned@) == old(self)@.orphaned,
            text::contents(orphaned@).no_duplicates(),
            forall|digest: Seq<char>| #[trigger]
                text::contents(orphaned@).contains(digest) ==> !needed(
                    final(self)@.index.blobs,
                    final(self)@.drafted,
                    digest,
                ),
    {
        let mut orphaned: Vec<String> = Vec::new();
        orphaned.append(&mut self.orphaned);
        assert(self@.orphaned =~= Seq::empty());
        assert(text::contents(orphaned@) =~= old(self)@.orphaned);
        orphaned
    }

    /// The entry with an id, for saving it.
    pub fn record(&self, id: i64) -> (record: Option<&index::Record>)
        ensures
            match record {
                Some(record) => index::entry_at(self@.index.entries, id as int) == Some(record@),
                None => index::entry_at(self@.index.entries, id as int) is None,
            },
    {
        self.index.record(id)
    }

    /// The blob with a digest, for saving it.
    pub fn blob(&self, digest: &str) -> (blob: Option<&ledger::Blob>)
        ensures
            match blob {
                Some(blob) => ledger::find(self@.index.blobs, digest@) matches Some(i)
                    && self@.index.blobs[i] == blob@,
                None => ledger::find(self@.index.blobs, digest@) is None,
            },
    {
        self.index.blob(digest)
    }

    /// Picks the files that no entry and no draft needs out of those found on
    /// disk, and counts the bytes deleting them gives back.
    ///
    /// Only a crash between saving a removal and sweeping its files can leave
    /// one, so this is asked at startup and never again. Transfers under way
    /// are not blobs yet and are left alone.
    pub fn reconcile(&self, found: &[Found]) -> (stray: (Vec<usize>, u64))
        ensures
            places(stray.0@) == strays(self@, found@),
            stray.1 == blobs::counted(stray_bytes(self@, found@)),
    {
        let ghost held = self@;
        let mut doomed: Vec<usize> = Vec::new();
        let mut bytes: u64 = 0;
        let mut i: usize = 0;
        assert(places(doomed@) =~= strays(held, found@.take(0)));
        while i < found.len()
            invariant
                i <= found.len(),
                held == self@,
                places(doomed@) == strays(held, found@.take(i as int)),
                bytes == blobs::counted(stray_bytes(held, found@.take(i as int))),
            decreases found.len() - i,
        {
            let file = &found[i];
            proof {
                assert(found@.take(i as int + 1).drop_last() =~= found@.take(i as int));
                assert(found@.take(i as int + 1).last() == *file);
            }
            let transfer: bool = text::same(file.directory.as_str(), INCOMING);
            let digest = blobs::unshelved(file.directory.as_str(), file.file.as_str());
            proof {
                broadcast use vstd::seq_lib::group_to_multiset_ensures;

                assert(held.drafted.contains(digest@) <==> text::contents(self.drafted@).contains(
                    digest@,
                ));
            }
            if !transfer && !self.index.knows(digest.as_str()) && !names(
                &self.drafted,
                digest.as_str(),
            ) {
                let ghost before = places(doomed@);
                doomed.push(i);
                assert(places(doomed@) =~= before.push(i as int));
                bytes = bytes.saturating_add(file.bytes);
            }
            i += 1;
        }
        assert(found@.take(found@.len() as int) =~= found@);
        (doomed, bytes)
    }
}

/// Where transfers under way are kept.
pub const INCOMING: &'static str = "incoming";

/// A file found in the blob store: the directory and the name it is under, and
/// how large it is.
#[derive(Debug)]
pub struct Found {
    pub directory: String,
    pub file: String,
    pub bytes: u64,
}

/// Whether a file is a blob that nothing points at.
pub open spec fn is_stray(held: StoreView, found: Found) -> bool {
    found.directory@ != INCOMING@ && !needed(
        held.index.blobs,
        held.drafted,
        found.directory@ + found.file@,
    )
}

/// Which of some files are blobs that nothing points at.
pub open spec fn strays(held: StoreView, found: Seq<Found>) -> Seq<int>
    decreases found.len(),
{
    if found.len() == 0 {
        Seq::empty()
    } else {
        let earlier = strays(held, found.drop_last());
        if is_stray(held, found.last()) {
            earlier.push(found.len() - 1)
        } else {
            earlier
        }
    }
}

/// How many bytes those files take.
pub open spec fn stray_bytes(held: StoreView, found: Seq<Found>) -> nat
    decreases found.len(),
{
    if found.len() == 0 {
        0
    } else {
        stray_bytes(held, found.drop_last()) + if is_stray(held, found.last()) {
            found.last().bytes as nat
        } else {
            0
        }
    }
}

/// Some positions as the contracts speak of them.
pub open spec fn places(positions: Seq<usize>) -> Seq<int> {
    Seq::new(positions.len(), |i: int| positions[i] as int)
}

/// Reconciling names exactly the files of blobs that nothing points at: no file
/// an entry or a draft needs is among them.
pub proof fn only_strays_are_reclaimed(held: StoreView, found: Seq<Found>, place: int)
    ensures
        strays(held, found).contains(place) <==> 0 <= place < found.len() && is_stray(
            held,
            found[place],
        ),
    decreases found.len(),
{
    let all = strays(held, found);
    if found.len() > 0 {
        let front = found.drop_last();
        only_strays_are_reclaimed(held, front, place);
        let earlier = strays(held, front);
        if earlier.contains(place) {
            let k = choose|k: int| 0 <= k < earlier.len() && earlier[k] == place;
            assert(all[k] == place);
        }
        if is_stray(held, found.last()) {
            assert(all[earlier.len() as int] == found.len() - 1);
        }
        if all.contains(place) {
            let k = choose|k: int| 0 <= k < all.len() && all[k] == place;
            if k < earlier.len() {
                assert(earlier[k] == place);
            }
        }
    }
}

// ---------------------------------------------------------------------------
// What publishing promises
// ---------------------------------------------------------------------------

/// What is let go of is each of some digests whose file is not needed, once.
pub proof fn loose_is_not_needed(
    blobs: Seq<ledger::BlobView>,
    drafted: Multiset<Seq<char>>,
    digests: Seq<Seq<char>>,
)
    ensures
        loose(blobs, drafted, digests).no_duplicates(),
        forall|digest: Seq<char>| #[trigger]
            loose(blobs, drafted, digests).contains(digest) <==> digests.contains(digest)
                && !needed(blobs, drafted, digest),
    decreases digests.len(),
{
    let all = loose(blobs, drafted, digests);
    if digests.len() > 0 {
        let front = digests.drop_last();
        let earlier = loose(blobs, drafted, front);
        let last = digests.last();
        loose_is_not_needed(blobs, drafted, front);
        assert forall|digest: Seq<char>| #[trigger]
            all.contains(digest) <==> digests.contains(digest) && !needed(
                blobs,
                drafted,
                digest,
            ) by {
            assert(earlier.contains(digest) <==> front.contains(digest) && !needed(
                blobs,
                drafted,
                digest,
            ));
            if all.contains(digest) {
                let k = choose|k: int| 0 <= k < all.len() && all[k] == digest;
                if k < earlier.len() {
                    assert(earlier[k] == digest);
                    let i = choose|i: int| 0 <= i < front.len() && front[i] == digest;
                    assert(digests[i] == digest);
                } else {
                    assert(digests[digests.len() - 1] == digest);
                }
            }
            if digests.contains(digest) && !needed(blobs, drafted, digest) {
                let i = choose|i: int| 0 <= i < digests.len() && digests[i] == digest;
                if i < front.len() {
                    assert(front[i] == digest);
                }
                if earlier.contains(digest) {
                    let k = choose|k: int| 0 <= k < earlier.len() && earlier[k] == digest;
                    assert(all[k] == digest);
                } else {
                    assert(all[earlier.len() as int] == digest);
                }
            }
        }
    }
}

/// A secret is refused whole and not merely hidden: the archive keeps the
/// entries and blobs it had, and every file of the secret is to go unless an
/// entry or another draft needs it.
pub proof fn a_secret_is_never_archived(
    store: StoreView,
    parts: Seq<index::PartView>,
    source: Option<Seq<char>>,
    at: int,
    samples: SamplesView,
)
    requires
        secret(parts),
    ensures
        published(store, parts, source, at, samples) == (
            discarded(store, parts),
            CommitView::Nothing,
        ),
        discarded(store, parts).index == store.index,
        forall|i: int|
            0 <= i < parts.len() ==> discarded(store, parts).orphaned.contains(
                (#[trigger] parts[i]).digest,
            ) || needed(store.index.blobs, discarded(store, parts).drafted, parts[i].digest),
{
    every_file_goes(store, parts);
}

/// A draft that came to nothing leaves nothing behind: the file of each of its
/// representations is to go unless an entry or another draft needs it.
pub proof fn every_file_goes(store: StoreView, parts: Seq<index::PartView>)
    ensures
        forall|i: int|
            0 <= i < parts.len() ==> discarded(store, parts).orphaned.contains(
                (#[trigger] parts[i]).digest,
            ) || needed(store.index.blobs, discarded(store, parts).drafted, parts[i].digest),
{
    let after = discarded(store, parts);
    let all = store.orphaned + digests_of(parts) + Seq::<Seq<char>>::empty();
    loose_is_not_needed(store.index.blobs, after.drafted, all);
    assert forall|i: int| 0 <= i < parts.len() implies after.orphaned.contains(
        (#[trigger] parts[i]).digest,
    ) || needed(store.index.blobs, after.drafted, parts[i].digest) by {
        assert(all[store.orphaned.len() + i] == parts[i].digest);
        assert(all.contains(parts[i].digest));
    }
}

/// An entry larger than the whole budget is refused, not made room for: the
/// archive keeps everything it had, and only what was stored for that entry is
/// to go.
pub proof fn nothing_is_evicted_for_what_cannot_fit(
    store: StoreView,
    parts: Seq<index::PartView>,
    source: Option<Seq<char>>,
    at: int,
    samples: SamplesView,
)
    requires
        parts.len() > 0,
        !secret(parts),
        index::identity_place(store.index.entries, identity::identity_of(parts)) is None,
        footprint(parts) > room(store.budget),
    ensures
        published(store, parts, source, at, samples) == (
            discarded(store, parts),
            CommitView::Refused(StoreErrorView::TooLarge),
        ),
        discarded(store, parts).index == store.index,
{
}

/// Publishing what the archive already holds is the same entry again, whatever
/// order its representations arrive in: no entry is added, none is evicted, and
/// the known one gets the new timestamp.
pub proof fn the_same_content_is_the_same_entry(
    store: StoreView,
    parts: Seq<index::PartView>,
    again: Seq<index::PartView>,
    source: Option<Seq<char>>,
    at: int,
    samples: SamplesView,
)
    requires
        index::sound(store.index),
        again.len() > 0,
        !secret(again),
        identity::offers_all(parts, again),
        identity::offers_all(again, parts),
        index::identity_place(store.index.entries, identity::identity_of(parts)) is Some,
    ensures
        ({
            let outcome = published(store, again, source, at, samples);
            let i = index::identity_place(
                store.index.entries,
                identity::identity_of(parts),
            )->0;
            &&& outcome.0.index.entries.len() == store.index.entries.len()
            &&& outcome.0.index.blobs == store.index.blobs
            &&& outcome.0.index.entries[i] == (index::RecordView { at, ..store.index.entries[i] })
            &&& outcome.1 matches CommitView::Done { entry, created, summary, evicted, .. }
                && entry == store.index.entries[i].id && !created && summary.at == at
                && evicted.len() == 0
        }),
{
    identity::the_order_of_representations_is_no_part_of_an_identity(parts, again);
    index::identity_placed_right(store.index.entries, identity::identity_of(parts));
    laws::a_repeated_copy_moves_only_the_timestamp(
        store.index,
        identity::identity_of(again),
        at,
    );
}

/// Publishing keeps the index sound. After a new entry the archive is within its
/// budget, or everything left in it is pinned.
pub proof fn publishing_keeps_the_budget(
    store: StoreView,
    parts: Seq<index::PartView>,
    source: Option<Seq<char>>,
    at: int,
    samples: SamplesView,
)
    requires
        index::sound(store.index),
    ensures
        ({
            let outcome = published(store, parts, source, at, samples);
            &&& index::sound(outcome.0.index)
            &&& outcome.1 matches CommitView::Done { created: true, .. } ==> ledger::total(
                outcome.0.index.blobs,
            ) <= store.budget || forall|k: int|
                0 <= k < outcome.0.index.entries.len()
                    ==> (#[trigger] outcome.0.index.entries[k]).pinned
        }),
{
    let identity = identity::identity_of(parts);
    index::identity_placed_right(store.index.entries, identity);
    laws::a_repeated_copy_moves_only_the_timestamp(store.index, identity, at);
    let facts = derived(parts, source, samples);
    if index::refusal(store.index, identity, parts, facts.thumb) is None {
        laws::recording_an_entry(store.index, identity, parts, facts, at);
        let larger = index::inserted(store.index, identity, parts, facts, at);
        laws::eviction_takes_the_oldest_and_stops_at_the_budget(larger, store.budget);
    }
}

/// Publishing notes all rows that their saved copy has to change.
pub proof fn publishing_is_noted(
    store: StoreView,
    parts: Seq<index::PartView>,
    source: Option<Seq<char>>,
    at: int,
    samples: SamplesView,
)
    requires
        index::sound(store.index),
    ensures
        laws::noted(store.index, published(store, parts, source, at, samples).0.index),
{
    let before = store.index;
    let identity = identity::identity_of(parts);
    let facts = derived(parts, source, samples);
    laws::nothing_is_noted(before);
    index::identity_placed_right(before.entries, identity);
    if let Some(i) = index::identity_place(before.entries, identity) {
        laws::a_change_is_noted(before, i, (index::RecordView { at, ..before.entries[i] }));
    } else if index::refusal(before, identity, parts, facts.thumb) is None {
        let larger = index::inserted(before, identity, parts, facts, at);
        laws::recording_an_entry(before, identity, parts, facts, at);
        laws::recording_is_noted(before, identity, parts, facts, at);
        laws::eviction_is_noted(larger, store.budget);
        laws::notes_add_up(before, larger, index::evicted(larger, store.budget).index);
    }
}

/// No file that is needed is ever swept: none that an entry points at, and none
/// that a draft holds.
pub proof fn nothing_swept_is_needed(store: StoreView, k: int, digest: Seq<char>)
    requires
        index::sound(store.index),
        sweepable(store),
        store.orphaned.contains(digest),
    ensures
        0 <= k < store.index.entries.len() ==> !index::uses(store.index.entries[k]).contains(
            digest,
        ),
        !store.drafted.contains(digest),
{
    ledger::found(store.index.blobs, digest);
    assert(ledger::refs_of(store.index.blobs, digest) == index::references(
        store.index.entries,
        digest,
    ));
    if 0 <= k < store.index.entries.len() && index::uses(store.index.entries[k]).contains(digest) {
        laws::what_an_entry_uses_is_referenced(store.index.entries, k, digest);
    }
}

/// Whatever is done to an archive, no file that is needed afterwards is to go.
pub proof fn every_step_keeps_what_is_needed(
    store: StoreView,
    parts: Seq<index::PartView>,
    source: Option<Seq<char>>,
    at: int,
    samples: SamplesView,
    digest: Seq<char>,
    index: index::IndexView,
    lost: Seq<Seq<char>>,
)
    ensures
        sweepable(published(store, parts, source, at, samples).0),
        sweepable(discarded(store, parts)),
        sweepable(claimed(store, digest)),
        sweepable(orphaning(store, index, lost)),
        sweepable(reloaded(store, index)),
{
    closing_is_sweepable(store, store.index, parts, Seq::empty());
    let drafted = store.drafted.insert(digest);
    loose_is_not_needed(store.index.blobs, drafted, store.orphaned);
    loose_is_not_needed(index.blobs, store.drafted, store.orphaned + lost);
    let held = index::blob_digests(store.index.blobs);
    loose_is_not_needed(index.blobs, store.drafted, store.orphaned + held);
    let identity = identity::identity_of(parts);
    let facts = derived(parts, source, samples);
    let after = index::touched(store.index, identity, at);
    closing_is_sweepable(store, after, parts, Seq::empty());
    let larger = index::inserted(store.index, identity, parts, facts, at);
    let eviction = index::evicted(larger, store.budget);
    closing_is_sweepable(store, eviction.index, parts, eviction.orphaned);
}

proof fn closing_is_sweepable(
    store: StoreView,
    index: index::IndexView,
    parts: Seq<index::PartView>,
    lost: Seq<Seq<char>>,
)
    ensures
        sweepable(closed_over(store, index, parts, lost)),
{
    loose_is_not_needed(
        index.blobs,
        store.drafted.sub(claims(parts)),
        store.orphaned + digests_of(parts) + lost,
    );
}

/// However a draft ends, every other keeps its content: what the others hold is
/// still held, and none of it is to go.
pub proof fn no_draft_costs_another_its_content(
    store: StoreView,
    parts: Seq<index::PartView>,
    source: Option<Seq<char>>,
    at: int,
    samples: SamplesView,
    others: Multiset<Seq<char>>,
)
    requires
        others.add(claims(parts)).subset_of(store.drafted),
    ensures
        others.subset_of(published(store, parts, source, at, samples).0.drafted),
        others.subset_of(discarded(store, parts).drafted),
        forall|digest: Seq<char>| #[trigger]
            others.contains(digest) ==> !published(
                store,
                parts,
                source,
                at,
                samples,
            ).0.orphaned.contains(digest) && !discarded(store, parts).orphaned.contains(digest),
{
    let left = store.drafted.sub(claims(parts));
    assert forall|digest: Seq<char>| #[trigger] others.count(digest) <= left.count(digest) by {
        assert(others.add(claims(parts)).count(digest) <= store.drafted.count(digest));
    }
    every_step_keeps_what_is_needed(
        store,
        parts,
        source,
        at,
        samples,
        Seq::empty(),
        store.index,
        Seq::empty(),
    );
    assert forall|digest: Seq<char>| #[trigger] others.contains(digest) implies !published(
        store,
        parts,
        source,
        at,
        samples,
    ).0.orphaned.contains(digest) && !discarded(store, parts).orphaned.contains(digest) by {
        assert(others.count(digest) <= left.count(digest));
    }
}

/// What was published as a new entry is served back: unless making room took
/// the entry itself, each of its representations is located under its mime type
/// with the digest and the size it was accepted with.
pub proof fn what_was_published_is_served_back(
    store: StoreView,
    parts: Seq<index::PartView>,
    source: Option<Seq<char>>,
    at: int,
    samples: SamplesView,
    k: int,
)
    requires
        index::sound(store.index),
        0 <= k < parts.len(),
        published(store, parts, source, at, samples).1 matches CommitView::Done {
            entry,
            created: true,
            evicted,
            ..
        } && !evicted.contains(entry),
    ensures
        ({
            let outcome = published(store, parts, source, at, samples);
            &&& outcome.1 matches CommitView::Done { entry, .. } && index::located(
                outcome.0.index.entries,
                entry,
                Some(parts[k].mime),
            ) == Some(parts[k])
        }),
{
    let identity = identity::identity_of(parts);
    let facts = derived(parts, source, samples);
    let larger = index::inserted(store.index, identity, parts, facts, at);
    let entry = index::new_entry(store.index.entries, identity, parts, facts, at);
    let done = index::evicted(larger, store.budget);
    laws::recording_an_entry(store.index, identity, parts, facts, at);
    laws::what_was_recorded_can_be_located(store.index, identity, parts, facts, at);
    laws::eviction_takes_the_oldest_and_stops_at_the_budget(larger, store.budget);
    assert(larger.entries[store.index.entries.len() as int] == entry);
    assert(larger.entries.contains(entry));
    assert(done.index.entries.contains(entry));
    let n = choose|n: int| 0 <= n < done.index.entries.len() && done.index.entries[n] == entry;
    index::placed_only(done.index.entries, n);
    assert(index::located(larger.entries, entry.id, Some(parts[k].mime)) == Some(parts[k]));
}

fn no_ids() -> (none: Vec<i64>)
    ensures
        index::ids(none@) == Seq::<int>::empty(),
{
    let none: Vec<i64> = Vec::new();
    assert(index::ids(none@) =~= Seq::<int>::empty());
    none
}

// ---------------------------------------------------------------------------
// What an entry is described by
// ---------------------------------------------------------------------------

/// The representation an entry is described by is one of the wanted sort that
/// none of that sort is preferred to, the first where several rank alike; there
/// is one wherever the entry holds any of that sort.
pub proof fn the_best_is_preferred_to_all_others(parts: Seq<index::PartView>, wanted: Wanted)
    ensures
        wanted == Wanted::Text ==> forall|mime: Seq<char>| #[trigger]
            wanted.accepts(mime) <==> kind::textual(mime),
        wanted == Wanted::Image ==> forall|mime: Seq<char>| #[trigger]
            wanted.accepts(mime) <==> kind::pictorial(mime),
        match best_place(parts, wanted) {
            Some(i) => {
                &&& 0 <= i < parts.len()
                &&& wanted.accepts(parts[i].mime)
                &&& forall|k: int|
                    0 <= k < parts.len() && wanted.accepts((#[trigger] parts[k]).mime)
                        ==> kind::preference(parts[i].mime) <= kind::preference(parts[k].mime)
                &&& forall|k: int|
                    0 <= k < i && wanted.accepts((#[trigger] parts[k]).mime) ==> kind::preference(
                        parts[i].mime,
                    ) < kind::preference(parts[k].mime)
            },
            None => forall|k: int|
                0 <= k < parts.len() ==> !wanted.accepts((#[trigger] parts[k]).mime),
        },
    decreases parts.len(),
{
    if parts.len() > 0 {
        let front = parts.drop_last();
        the_best_is_preferred_to_all_others(front, wanted);
        assert forall|k: int| 0 <= k < front.len() implies #[trigger] parts[k] == front[k] by {}
    }
}

/// An entry of every kind is searched by its text and previewed by it, as far
/// as its text is read back; it is measured by its picture, and keeps the
/// thumbnail made of that; and its source is the one that was named.
pub proof fn an_entry_is_described_by_its_content(
    parts: Seq<index::PartView>,
    source: Option<Seq<char>>,
    samples: SamplesView,
)
    ensures
        ({
            let facts = derived(parts, source, samples);
            let worded = exists|i: int|
                0 <= i < parts.len() && kind::textual((#[trigger] parts[i]).mime);
            let read = samples.text->0;
            &&& facts.source == source
            &&& facts.body is Some <==> worded && samples.text is Some
            &&& worded && samples.text is Some && read.len() <= 65536 ==> facts.body == Some(
                text::lossy_text(read),
            )
            &&& worded && samples.text is Some && read.len() > 65536 ==> facts.body == Some(
                text::lossy_text(read.take(65536)),
            )
            &&& facts.preview is Some <==> facts.body is Some
            &&& facts.body matches Some(body) ==> facts.preview == Some(kind::row(body))
        }),
        ({
            let facts = derived(parts, source, samples);
            let pictured = exists|i: int|
                0 <= i < parts.len() && kind::pictorial((#[trigger] parts[i]).mime);
            let content = samples.image->0;
            let size = thumb::measured(content);
            &&& !pictured || samples.image is None || size is None ==> facts.width is None
                && facts.height is None && facts.thumb is None
            &&& pictured && samples.image is Some ==> (size matches Some((width, height))
                ==> facts.width == Some(width) && facts.height == Some(height))
            &&& facts.thumb is Some ==> {
                &&& described_image(parts, samples).png is Some
                &&& facts.thumb->0.mime == "image/png"@
                &&& facts.thumb->0.digest == blobs::name_of(described_image(parts, samples).png->0)
                &&& facts.thumb->0.bytes == described_image(parts, samples).png->0.len()
            }
            &&& described_image(parts, samples).png is Some ==> facts.thumb is Some
        }),
{
    the_best_is_preferred_to_all_others(parts, Wanted::Text);
    the_best_is_preferred_to_all_others(parts, Wanted::Image);
    assert forall|i: int| 0 <= i < parts.len() implies Wanted::Text.accepts(
        (#[trigger] parts[i]).mime,
    ) == kind::textual(parts[i].mime) && Wanted::Image.accepts(parts[i].mime) == kind::pictorial(
        parts[i].mime,
    ) by {}
}

/// The picture an entry is measured by is decoded whole where it takes at most
/// sixty-four mebibytes, and only measured where it takes more.
pub proof fn a_picture_is_decoded_up_to_a_size(
    parts: Seq<index::PartView>,
    samples: SamplesView,
    i: int,
)
    requires
        best_place(parts, Wanted::Image) == Some(i),
        samples.image is Some,
    ensures
        parts[i].bytes <= 67_108_864 ==> described_image(parts, samples) == thumb::made(
            samples.image->0,
        ),
        parts[i].bytes > 67_108_864 ==> described_image(parts, samples) == thumb::sized(
            samples.image->0,
        ),
{
}

/// Identical content is counted once: a representation adds its bytes exactly
/// where none before it has the same content.
pub proof fn identical_content_is_counted_once(
    parts: Seq<index::PartView>,
    next: index::PartView,
)
    ensures
        footprint(Seq::empty()) == 0,
        (exists|i: int| 0 <= i < parts.len() && (#[trigger] parts[i]).digest == next.digest)
            ==> footprint(parts.push(next)) == footprint(parts),
        (forall|i: int| 0 <= i < parts.len() ==> (#[trigger] parts[i]).digest != next.digest)
            ==> footprint(parts.push(next)) == footprint(parts) + next.bytes,
        forall|budget: int| budget >= 0 ==> #[trigger] room(budget) == budget,
        forall|budget: int| budget < 0 ==> #[trigger] room(budget) == 0,
{
    let more = parts.push(next);
    assert(more.drop_last() =~= parts);
    if exists|i: int| 0 <= i < parts.len() && (#[trigger] parts[i]).digest == next.digest {
        let i = choose|i: int| 0 <= i < parts.len() && (#[trigger] parts[i]).digest == next.digest;
        assert(more[i].digest == more.last().digest);
        assert(occurs_earlier(more));
    } else {
        assert forall|i: int| 0 <= i < more.len() - 1 implies (#[trigger] more[i]).digest
            != more.last().digest by {
            assert(more[i] == parts[i]);
        }
    }
}

/// What is read back before a draft becomes an entry is its best text and its
/// best picture, the picture up to sixty-four mebibytes; nothing is read back
/// of a secret, of what the archive holds already, or of what cannot fit.
pub proof fn the_best_text_and_picture_are_read_back(
    store: StoreView,
    parts: Seq<index::PartView>,
)
    ensures
        ({
            let plan = planned(store, parts);
            let pointless = {
                ||| exists|i: int|
                    0 <= i < parts.len() && kind::sensitive((#[trigger] parts[i]).mime)
                ||| exists|i: int|
                    0 <= i < store.index.entries.len() && (
                    #[trigger] store.index.entries[i]).identity == identity::identity_of(parts)
                ||| footprint(parts) > store.budget && footprint(parts) > 0
            };
            let words = best_place(parts, Wanted::Text);
            let picture = best_place(parts, Wanted::Image);
            &&& pointless ==> plan.text is None && plan.image is None
            &&& !pointless ==> {
                &&& words is None ==> plan.text is None
                &&& words matches Some(i) ==> plan.text == Some(parts[i].digest)
                &&& picture is None ==> plan.image is None
                &&& picture matches Some(i) ==> plan.image matches Some((digest, bytes)) && digest
                    == parts[i].digest && bytes == if parts[i].bytes < 67_108_864 {
                    parts[i].bytes as int
                } else {
                    67_108_864
                }
            }
        }),
{
    index::identity_placed_right(store.index.entries, identity::identity_of(parts));
    let found = index::identity_place(store.index.entries, identity::identity_of(parts));
    if let Some(i) = found {
        assert(store.index.entries[i].identity == identity::identity_of(parts));
    }
}

/// How publishing a draft goes. Nothing comes of an empty one or of a secret.
/// What is known already is that entry again. What cannot fit, or the index
/// refuses, leaves the index alone. Everything else becomes one new entry,
/// described by its content, and the oldest entries make room for it.
pub proof fn a_draft_becomes_one_entry(
    store: StoreView,
    parts: Seq<index::PartView>,
    source: Option<Seq<char>>,
    at: int,
    samples: SamplesView,
)
    requires
        index::sound(store.index),
    ensures
        ({
            let outcome = published(store, parts, source, at, samples);
            let identity = identity::identity_of(parts);
            let hidden = exists|i: int|
                0 <= i < parts.len() && kind::sensitive((#[trigger] parts[i]).mime);
            let known = exists|i: int|
                0 <= i < store.index.entries.len() && (#[trigger] store.index.entries[i]).identity
                    == identity;
            let large = footprint(parts) > store.budget && footprint(parts) > 0;
            let facts = derived(parts, source, samples);
            let refused = index::refusal(store.index, identity, parts, facts.thumb);
            let idle = parts.len() == 0 || hidden;
            &&& outcome.0.budget == store.budget
            &&& outcome.1 is Nothing <==> idle
            &&& !idle && !known && large ==> outcome.1 == CommitView::Refused(
                StoreErrorView::TooLarge,
            )
            &&& !idle && !known && !large && refused is Some ==> outcome.1 == CommitView::Refused(
                StoreErrorView::Db(refused->0.words()),
            )
            &&& !(outcome.1 is Done) ==> outcome.0.index == store.index
            &&& !idle && known ==> outcome.1 is Done && !outcome.1->created
                && outcome.0.index.blobs == store.index.blobs && outcome.1->evicted.len() == 0
                && outcome.1->Done_thumb is None
            &&& forall|i: int|
                !idle && 0 <= i < store.index.entries.len() && (
                #[trigger] store.index.entries[i]).identity == identity ==> outcome.1->entry
                    == store.index.entries[i].id && outcome.1->summary == index::summary_of(
                    (index::RecordView { at, ..store.index.entries[i] }),
                ) && outcome.0.index.entries == store.index.entries.update(
                    i,
                    (index::RecordView { at, ..store.index.entries[i] }),
                )
            &&& !idle && !known && !large && refused is None ==> {
                let larger = index::inserted(store.index, identity, parts, facts, at);
                let entry = larger.entries.last();
                &&& outcome.1 is Done
                &&& outcome.1->created
                &&& outcome.1->entry == entry.id
                &&& outcome.1->summary == index::summary_of(entry)
                &&& outcome.1->Done_thumb == described_image(parts, samples).png
                &&& outcome.0.index == index::evicted(larger, store.budget).index
                &&& outcome.1->evicted == index::evicted(larger, store.budget).removed
                &&& ledger::total(larger.blobs) <= store.budget ==> outcome.0.index == larger
                    && outcome.1->evicted.len() == 0
            }
        }),
{
    let identity = identity::identity_of(parts);
    index::identity_placed_right(store.index.entries, identity);
    laws::a_repeated_copy_moves_only_the_timestamp(store.index, identity, at);
    if let Some(k) = index::identity_place(store.index.entries, identity) {
        assert forall|i: int|
            0 <= i < store.index.entries.len() && (#[trigger] store.index.entries[i]).identity
                == identity implies i == k by {
            if i < k {
                assert(store.index.entries[i].identity != store.index.entries[k].identity);
            } else if k < i {
                assert(store.index.entries[k].identity != store.index.entries[i].identity);
            }
        }
    }
}

/// A new entry is searched by the text read back of it and shows its beginning,
/// whatever kind of entry it is, and tells its source and the time it was
/// copied at.
pub proof fn a_published_entry_can_be_searched(
    store: StoreView,
    parts: Seq<index::PartView>,
    source: Option<Seq<char>>,
    at: int,
    samples: SamplesView,
)
    requires
        index::sound(store.index),
        published(store, parts, source, at, samples).1 is Done,
        published(store, parts, source, at, samples).1->created,
    ensures
        ({
            let outcome = published(store, parts, source, at, samples);
            let larger = index::inserted(
                store.index,
                identity::identity_of(parts),
                parts,
                derived(parts, source, samples),
                at,
            );
            let entry = larger.entries.last();
            let worded = exists|i: int|
                0 <= i < parts.len() && kind::textual((#[trigger] parts[i]).mime);
            &&& outcome.1->entry == entry.id
            &&& entry.source == source
            &&& entry.at == at
            &&& outcome.1->summary.source == source
            &&& outcome.1->summary.at == at
            &&& !outcome.1->summary.pinned
            &&& worded && samples.text is Some && samples.text->0.len() <= 65536 ==> {
                &&& entry.body == Some(text::lossy_text(samples.text->0))
                &&& entry.preview == Some(kind::row(text::lossy_text(samples.text->0)))
                &&& outcome.1->summary.preview == entry.preview
                &&& index::body_at(larger.entries, entry.id) == Some(
                    text::lossy_text(samples.text->0),
                )
            }
        }),
{
    let identity = identity::identity_of(parts);
    let facts = derived(parts, source, samples);
    index::identity_placed_right(store.index.entries, identity);
    a_draft_becomes_one_entry(store, parts, source, at, samples);
    an_entry_is_described_by_its_content(parts, source, samples);
    laws::a_recorded_entry_is_what_was_given(store.index, identity, parts, facts, at);
}

// ---------------------------------------------------------------------------
// What becomes of files
// ---------------------------------------------------------------------------

/// A file is needed exactly where an entry's blob has its digest or a draft
/// holds it.
pub proof fn a_file_is_needed_by_an_entry_or_a_draft(
    blobs: Seq<ledger::BlobView>,
    drafted: Multiset<Seq<char>>,
    digest: Seq<char>,
)
    ensures
        needed(blobs, drafted, digest) <==> drafted.count(digest) > 0 || exists|i: int|
            0 <= i < blobs.len() && (#[trigger] blobs[i]).digest == digest,
{
    ledger::found(blobs, digest);
}

/// Content that a draft takes up is held, and not to go; once the draft is over
/// it is held once less.
pub proof fn a_draft_holds_its_content(
    store: StoreView,
    digest: Seq<char>,
    parts: Seq<index::PartView>,
)
    ensures
        claimed(store, digest).drafted == store.drafted.insert(digest),
        claimed(store, digest).index == store.index,
        claimed(store, digest).budget == store.budget,
        !claimed(store, digest).orphaned.contains(digest),
        forall|other: Seq<char>|
            other != digest && #[trigger] store.orphaned.contains(other) && !needed(
                store.index.blobs,
                store.drafted,
                other,
            ) ==> claimed(store, digest).orphaned.contains(other),
        discarded(store, parts).index == store.index,
        discarded(store, parts).budget == store.budget,
        forall|other: Seq<char>| #[trigger]
            discarded(store, parts).drafted.count(other) + digests_of(parts).to_multiset().count(
                other,
            ) == store.drafted.count(other) || (discarded(store, parts).drafted.count(other) == 0
                && store.drafted.count(other) < digests_of(parts).to_multiset().count(other)),
        digests_of(parts).len() == parts.len(),
        forall|i: int| 0 <= i < parts.len() ==> digests_of(parts)[i] == (#[trigger] parts[i]).digest,
{
    let drafted = store.drafted.insert(digest);
    loose_is_not_needed(store.index.blobs, drafted, store.orphaned);
    assert(drafted.count(digest) > 0);
}

/// No file is forgotten: whatever a step leaves without an entry and without a
/// draft is to go.
pub proof fn no_file_is_forgotten(
    store: StoreView,
    parts: Seq<index::PartView>,
    source: Option<Seq<char>>,
    at: int,
    samples: SamplesView,
    digest: Seq<char>,
)
    requires
        index::sound(store.index),
        ledger::find(store.index.blobs, digest) is Some || store.orphaned.contains(digest)
            || digests_of(parts).contains(digest),
    ensures
        ({
            let after = published(store, parts, source, at, samples).0;
            after.orphaned.contains(digest) || needed(after.index.blobs, after.drafted, digest)
        }),
{
    let identity = identity::identity_of(parts);
    let facts = derived(parts, source, samples);
    let larger = index::inserted(store.index, identity, parts, facts, at);
    let eviction = index::evicted(larger, store.budget);
    let touched = index::touched(store.index, identity, at);
    laws::a_repeated_copy_moves_only_the_timestamp(store.index, identity, at);
    all_that_is_loose_goes(store, store.index, parts, Seq::empty(), digest);
    all_that_is_loose_goes(store, touched, parts, Seq::empty(), digest);
    all_that_is_loose_goes(store, eviction.index, parts, eviction.orphaned, digest);
    if index::refusal(store.index, identity, parts, facts.thumb) is None {
        laws::recording_an_entry(store.index, identity, parts, facts, at);
        laws::eviction_orphans_what_nothing_points_at(larger, store.budget);
        if ledger::find(store.index.blobs, digest) is Some {
            ledger::found(store.index.blobs, digest);
            assert(ledger::refs_of(store.index.blobs, digest) == index::references(
                store.index.entries,
                digest,
            ));
            assert(larger.entries.drop_last() =~= store.index.entries);
            assert(index::references(larger.entries, digest) > 0);
            if index::references(eviction.index.entries, digest) > 0 {
                assert(ledger::refs_of(eviction.index.blobs, digest) == index::references(
                    eviction.index.entries,
                    digest,
                ));
            }
        }
    }
}

proof fn all_that_is_loose_goes(
    store: StoreView,
    index: index::IndexView,
    parts: Seq<index::PartView>,
    lost: Seq<Seq<char>>,
    digest: Seq<char>,
)
    ensures
        store.orphaned.contains(digest) || digests_of(parts).contains(digest) || lost.contains(
            digest,
        ) ==> {
            let after = closed_over(store, index, parts, lost);
            after.orphaned.contains(digest) || needed(after.index.blobs, after.drafted, digest)
        },
{
    let all = store.orphaned + digests_of(parts) + lost;
    let after = closed_over(store, index, parts, lost);
    loose_is_not_needed(index.blobs, after.drafted, all);
    if store.orphaned.contains(digest) {
        let k = choose|k: int| 0 <= k < store.orphaned.len() && store.orphaned[k] == digest;
        assert(all[k] == digest);
    } else if digests_of(parts).contains(digest) {
        let k = choose|k: int| 0 <= k < digests_of(parts).len() && digests_of(parts)[k] == digest;
        assert(all[store.orphaned.len() + k] == digest);
    } else if lost.contains(digest) {
        let k = choose|k: int| 0 <= k < lost.len() && lost[k] == digest;
        assert(all[store.orphaned.len() + digests_of(parts).len() + k] == digest);
    }
}

/// What an index no longer points at is to go unless a draft holds it, with all
/// that was to go before and is still not needed; nothing else changes.
pub proof fn what_is_no_longer_pointed_at_goes(
    store: StoreView,
    index: index::IndexView,
    lost: Seq<Seq<char>>,
    digest: Seq<char>,
)
    ensures
        ({
            let after = orphaning(store, index, lost);
            &&& after.index == index
            &&& after.budget == store.budget
            &&& after.drafted == store.drafted
            &&& after.orphaned.contains(digest) <==> (lost.contains(digest)
                || store.orphaned.contains(digest)) && !needed(index.blobs, store.drafted, digest)
        }),
        ({
            let after = reloaded(store, index);
            &&& after.index == index
            &&& after.budget == store.budget
            &&& after.drafted == store.drafted
            &&& ledger::find(store.index.blobs, digest) is Some && !needed(
                index.blobs,
                store.drafted,
                digest,
            ) ==> after.orphaned.contains(digest)
        }),
{
    let all = store.orphaned + lost;
    loose_is_not_needed(index.blobs, store.drafted, all);
    vstd::seq_lib::lemma_seq_concat_contains_all_elements(store.orphaned, lost, digest);
    let held = index::blob_digests(store.index.blobs);
    loose_is_not_needed(index.blobs, store.drafted, store.orphaned + held);
    vstd::seq_lib::lemma_seq_concat_contains_all_elements(store.orphaned, held, digest);
    ledger::found(store.index.blobs, digest);
    if let Some(i) = ledger::find(store.index.blobs, digest) {
        assert(held[i] == digest);
    }
}

/// A file is reclaimed where its directory is not the one for transfers under
/// way and no entry and no draft needs the digest its directory and name make
/// together; and what is counted is the bytes of those files.
pub proof fn a_stray_is_a_blob_nobody_needs(held: StoreView, found: Seq<Found>, next: Found)
    ensures
        is_stray(held, next) <==> next.directory@ != "incoming"@ && held.drafted.count(
            next.directory@ + next.file@,
        ) == 0 && forall|i: int|
            0 <= i < held.index.blobs.len() ==> (#[trigger] held.index.blobs[i]).digest
                != next.directory@ + next.file@,
        stray_bytes(held, Seq::empty()) == 0,
        stray_bytes(held, found.push(next)) == stray_bytes(held, found) + if is_stray(held, next) {
            next.bytes as int
        } else {
            0
        },
{
    let digest = next.directory@ + next.file@;
    ledger::found(held.index.blobs, digest);
    assert(found.push(next).drop_last() =~= found);
}

/// A client is told that something is too large under the code for that, and of
/// every other failure under the one for storage, in the words of the failure.
pub proof fn failures_have_a_code(failure: StoreErrorView)
    ensures
        failure is TooLarge ==> failure.code() == "too-large"@ && failure.words()
            == "larger than the whole archive budget"@,
        failure matches StoreErrorView::Io(words) ==> failure.code() == "storage"@
            && failure.words() == words,
        failure matches StoreErrorView::Db(words) ==> failure.code() == "storage"@
            && failure.words() == words,
        DEFAULT_BUDGET == 5_368_709_120,
{
}

} // verus!
