//! The archive's metadata.
//!
//! The index is the authority on what the archive contains; the blob store is
//! only the bytes its records point at. Every mutation that can orphan a blob
//! returns the digests it orphaned, so the caller deletes files after the rows
//! that stopped referencing them have been saved. Losing that race the other
//! way — deleting a file that saved rows still need — would turn a crash into
//! a hole in the archive.

use crate::kind;
use crate::order;
use crate::proto;
use crate::store::laws;
use crate::store::ledger;
use crate::store::search;
use crate::text;
use vstd::prelude::*;

verus! {

// ---------------------------------------------------------------------------
// What the index holds
// ---------------------------------------------------------------------------

/// A representation about to be recorded.
#[derive(Debug)]
pub struct Part {
    pub mime: String,
    pub digest: String,
    pub bytes: u64,
}

/// A representation as the contracts speak of it.
pub struct PartView {
    pub mime: Seq<char>,
    pub digest: Seq<char>,
    pub bytes: nat,
}

impl View for Part {
    type V = PartView;

    open spec fn view(&self) -> PartView {
        PartView { mime: self.mime@, digest: self.digest@, bytes: self.bytes as nat }
    }
}

impl Part {
    pub fn duplicate(&self) -> (copy: Part)
        ensures
            copy@ == self@,
    {
        Part { mime: self.mime.clone(), digest: self.digest.clone(), bytes: self.bytes }
    }
}

/// An optional representation as the contracts speak of it.
pub open spec fn optional_part(part: Option<Part>) -> Option<PartView> {
    match part {
        Some(part) => Some(part@),
        None => None,
    }
}

/// Some representations as the contracts speak of them.
pub open spec fn part_views(parts: Seq<Part>) -> Seq<PartView> {
    Seq::new(parts.len(), |i: int| parts[i]@)
}

/// Everything an entry needs beyond its parts.
#[derive(Debug)]
pub struct Facts {
    pub preview: Option<String>,
    pub width: Option<u32>,
    pub height: Option<u32>,
    pub thumb: Option<Part>,
    pub source: Option<String>,
    /// Text handed to the full-text index, already capped by the caller.
    pub body: Option<String>,
}

impl Default for Facts {
    fn default() -> (facts: Facts)
        ensures
            facts@ == no_facts(),
    {
        Facts { preview: None, width: None, height: None, thumb: None, source: None, body: None }
    }
}

/// The facts about an entry as the contracts speak of them.
pub struct FactsView {
    pub preview: Option<Seq<char>>,
    pub width: Option<u32>,
    pub height: Option<u32>,
    pub thumb: Option<PartView>,
    pub source: Option<Seq<char>>,
    pub body: Option<Seq<char>>,
}

impl View for Facts {
    type V = FactsView;

    open spec fn view(&self) -> FactsView {
        FactsView {
            preview: text::optional(self.preview),
            width: self.width,
            height: self.height,
            thumb: optional_part(self.thumb),
            source: text::optional(self.source),
            body: text::optional(self.body),
        }
    }
}

/// Nothing known about an entry.
pub open spec fn no_facts() -> FactsView {
    FactsView { preview: None, width: None, height: None, thumb: None, source: None, body: None }
}

/// One entry of the archive.
#[derive(Debug)]
pub struct Record {
    pub id: i64,
    pub identity: String,
    pub kind: kind::Kind,
    pub bytes: i64,
    pub preview: Option<String>,
    pub width: Option<u32>,
    pub height: Option<u32>,
    pub thumb: Option<String>,
    pub pinned: bool,
    pub source: Option<String>,
    pub at: i64,
    pub body: Option<String>,
    /// Every representation, in the order they should be preferred.
    pub parts: Vec<Part>,
}

/// An entry as the contracts speak of it.
pub struct RecordView {
    pub id: int,
    pub identity: Seq<char>,
    pub kind: kind::Kind,
    pub bytes: int,
    pub preview: Option<Seq<char>>,
    pub width: Option<u32>,
    pub height: Option<u32>,
    pub thumb: Option<Seq<char>>,
    pub pinned: bool,
    pub source: Option<Seq<char>>,
    pub at: int,
    pub body: Option<Seq<char>>,
    pub parts: Seq<PartView>,
}

impl View for Record {
    type V = RecordView;

    open spec fn view(&self) -> RecordView {
        RecordView {
            id: self.id as int,
            identity: self.identity@,
            kind: self.kind,
            bytes: self.bytes as int,
            preview: text::optional(self.preview),
            width: self.width,
            height: self.height,
            thumb: text::optional(self.thumb),
            pinned: self.pinned,
            source: text::optional(self.source),
            at: self.at as int,
            body: text::optional(self.body),
            parts: part_views(self.parts@),
        }
    }
}

/// A row whose saved copy no longer says what the index says.
#[derive(Debug)]
pub enum Change {
    Entry(i64),
    Blob(String),
}

/// A changed row as the contracts speak of it.
pub enum ChangeView {
    Entry(int),
    Blob(Seq<char>),
}

impl View for Change {
    type V = ChangeView;

    open spec fn view(&self) -> ChangeView {
        match *self {
            Change::Entry(id) => ChangeView::Entry(id as int),
            Change::Blob(digest) => ChangeView::Blob(digest@),
        }
    }
}

/// An index as the contracts speak of it: its entries, oldest id first, its
/// blobs, and the rows that changed since they were last saved.
pub struct IndexView {
    pub entries: Seq<RecordView>,
    pub blobs: Seq<ledger::BlobView>,
    pub changes: Seq<ChangeView>,
}

/// A list request never returns more than this however much it asks for: the
/// UI draws a window, not an archive, and an unbounded answer would be one
/// allocation the peer chooses the size of.
pub const MAX_LIMIT: u32 = 500;

/// Why an entry cannot be recorded.
#[derive(Debug, Clone, Copy, PartialEq, Eq, Structural)]
pub enum Refusal {
    /// An entry with this identity is already there.
    Identity,
    /// Two of the parts have one mime type.
    Mime,
    /// Every id has been given out.
    Full,
    /// The sizes add up to more than can be counted.
    Overflow,
}

impl Refusal {
    /// What a client is told.
    pub open spec fn words(self) -> Seq<char> {
        match self {
            Refusal::Identity => "UNIQUE constraint failed: entry.identity"@,
            Refusal::Mime => "UNIQUE constraint failed: part.entry, part.mime"@,
            Refusal::Full => "database or disk is full"@,
            Refusal::Overflow => "integer overflow"@,
        }
    }

    pub fn message(self) -> (message: String)
        ensures
            message@ == self.words(),
    {
        match self {
            Refusal::Identity => "UNIQUE constraint failed: entry.identity".to_owned(),
            Refusal::Mime => "UNIQUE constraint failed: part.entry, part.mime".to_owned(),
            Refusal::Full => "database or disk is full".to_owned(),
            Refusal::Overflow => "integer overflow".to_owned(),
        }
    }
}

// ---------------------------------------------------------------------------
// Finding entries
// ---------------------------------------------------------------------------

/// Where the entry with an id stands.
pub open spec fn place(entries: Seq<RecordView>, id: int) -> Option<int>
    decreases entries.len(),
{
    if entries.len() == 0 {
        None
    } else if entries.last().id == id {
        Some(entries.len() - 1)
    } else {
        place(entries.drop_last(), id)
    }
}

/// Where the entry with an identity stands.
pub open spec fn identity_place(entries: Seq<RecordView>, identity: Seq<char>) -> Option<int>
    decreases entries.len(),
{
    if entries.len() == 0 {
        None
    } else if entries.last().identity == identity {
        Some(entries.len() - 1)
    } else {
        identity_place(entries.drop_last(), identity)
    }
}

/// The entry with an id, where there is one.
pub open spec fn entry_at(entries: Seq<RecordView>, id: int) -> Option<RecordView> {
    match place(entries, id) {
        Some(i) => Some(entries[i]),
        None => None,
    }
}

/// The searchable text of the entry with an id.
pub open spec fn body_at(entries: Seq<RecordView>, id: int) -> Option<Seq<char>> {
    match place(entries, id) {
        Some(i) => entries[i].body,
        None => None,
    }
}

/// An entry is found where it stands, and not found only where it is not.
pub proof fn placed_right(entries: Seq<RecordView>, id: int)
    ensures
        match place(entries, id) {
            Some(i) => 0 <= i < entries.len() && entries[i].id == id,
            None => forall|i: int| 0 <= i < entries.len() ==> (#[trigger] entries[i]).id != id,
        },
    decreases entries.len(),
{
    if entries.len() > 0 && entries.last().id != id {
        let front = entries.drop_last();
        placed_right(front, id);
        if place(front, id) is None {
            assert forall|i: int| 0 <= i < entries.len() implies (#[trigger] entries[i]).id != id by {
                if i < front.len() {
                    assert(front[i].id != id);
                }
            }
        }
    }
}

/// The same for identities.
pub proof fn identity_placed_right(entries: Seq<RecordView>, identity: Seq<char>)
    ensures
        match identity_place(entries, identity) {
            Some(i) => 0 <= i < entries.len() && entries[i].identity == identity,
            None => forall|i: int|
                0 <= i < entries.len() ==> (#[trigger] entries[i]).identity != identity,
        },
    decreases entries.len(),
{
    if entries.len() > 0 && entries.last().identity != identity {
        let front = entries.drop_last();
        identity_placed_right(front, identity);
        if identity_place(front, identity) is None {
            assert forall|i: int| 0 <= i < entries.len() implies (#[trigger] entries[i]).identity
                != identity by {
                if i < front.len() {
                    assert(front[i].identity != identity);
                }
            }
        }
    }
}

/// Where ids rise, the entry at a place is found there.
pub proof fn placed_only(entries: Seq<RecordView>, i: int)
    requires
        rising(entries),
        0 <= i < entries.len(),
    ensures
        place(entries, entries[i].id) == Some(i),
{
    placed_right(entries, entries[i].id);
}

// ---------------------------------------------------------------------------
// What an index keeps true
// ---------------------------------------------------------------------------

/// Ids are positive and every entry has a greater one than those before it.
pub open spec fn rising(entries: Seq<RecordView>) -> bool {
    &&& forall|i: int| 0 <= i < entries.len() ==> 1 <= (#[trigger] entries[i]).id <= i64::MAX
    &&& forall|i: int, j: int|
        0 <= i < j < entries.len() ==> (#[trigger] entries[i]).id < (#[trigger] entries[j]).id
}

/// No two entries have one identity.
pub open spec fn identities_differ(entries: Seq<RecordView>) -> bool {
    forall|i: int, j: int|
        0 <= i < j < entries.len() ==> (#[trigger] entries[i]).identity
            != (#[trigger] entries[j]).identity
}

/// The order representations are preferred in: by rank, then by name.
pub open spec fn serving_order() -> order::Ahead<PartView> {
    |a: PartView, b: PartView|
        kind::preference(a.mime) < kind::preference(b.mime) || (kind::preference(a.mime)
            == kind::preference(b.mime) && text::before(a.mime, b.mime))
}

/// Representations in the order they are preferred.
pub open spec fn serving(parts: Seq<PartView>) -> Seq<PartView> {
    order::ranked(parts, serving_order())
}

/// Every entry holds its representations in the order they are preferred, no
/// two under one mime type.
pub open spec fn parts_served(entries: Seq<RecordView>) -> bool {
    forall|i: int|
        0 <= i < entries.len() ==> order::in_order(
            (#[trigger] entries[i]).parts,
            serving_order(),
        )
}

/// The digests an entry points at: one for each representation, and one more
/// for its thumbnail.
pub open spec fn uses(entry: RecordView) -> Seq<Seq<char>> {
    let parts = Seq::new(entry.parts.len(), |i: int| entry.parts[i].digest);
    match entry.thumb {
        Some(thumb) => parts.push(thumb),
        None => parts,
    }
}

/// How many references to a digest some entries hold together.
pub open spec fn references(entries: Seq<RecordView>, digest: Seq<char>) -> nat
    decreases entries.len(),
{
    if entries.len() == 0 {
        0
    } else {
        references(entries.drop_last(), digest) + ledger::count(uses(entries.last()), digest)
    }
}

/// Whether the blobs are exactly what the entries point at, each with the
/// number of references to it.
pub open spec fn accounted(index: IndexView) -> bool {
    forall|digest: Seq<char>| #[trigger]
        ledger::refs_of(index.blobs, digest) == references(index.entries, digest)
}

/// What holds of every index.
pub open spec fn sound(index: IndexView) -> bool {
    &&& rising(index.entries)
    &&& identities_differ(index.entries)
    &&& parts_served(index.entries)
    &&& ledger::sound(index.blobs)
    &&& accounted(index)
}

// ---------------------------------------------------------------------------
// What each operation does
// ---------------------------------------------------------------------------

/// The rows that say what an entry is and what it points at.
pub open spec fn rows_of(entry: RecordView) -> Seq<ChangeView> {
    seq![ChangeView::Entry(entry.id)] + blob_changes(uses(entry))
}

/// An index with one entry's own fields changed.
pub open spec fn changed_at(index: IndexView, i: int, entry: RecordView) -> IndexView {
    IndexView {
        entries: index.entries.update(i, entry),
        changes: index.changes.push(ChangeView::Entry(entry.id)),
        ..index
    }
}

/// The index after the entry with an identity was copied again.
pub open spec fn touched(index: IndexView, identity: Seq<char>, at: int) -> IndexView {
    match identity_place(index.entries, identity) {
        Some(i) => changed_at(index, i, (RecordView { at, ..index.entries[i] })),
        None => index,
    }
}

/// The index after an entry was pinned or unpinned.
pub open spec fn pinning(index: IndexView, id: int, pinned: bool) -> IndexView {
    match place(index.entries, id) {
        Some(i) => changed_at(index, i, (RecordView { pinned, ..index.entries[i] })),
        None => index,
    }
}

/// The id the next entry gets.
pub open spec fn next_id(entries: Seq<RecordView>) -> int {
    if entries.len() == 0 {
        1
    } else {
        entries.last().id + 1
    }
}

/// The mime types of some representations.
pub open spec fn mimes_of(parts: Seq<PartView>) -> Seq<Seq<char>> {
    Seq::new(parts.len(), |i: int| parts[i].mime)
}

/// The digests and sizes a new entry points at.
pub open spec fn new_uses(parts: Seq<PartView>, thumb: Option<PartView>) -> Seq<ledger::Use> {
    let uses = Seq::new(parts.len(), |i: int| (parts[i].digest, parts[i].bytes));
    match thumb {
        Some(thumb) => uses.push((thumb.digest, thumb.bytes)),
        None => uses,
    }
}

/// The entry some representations and facts make.
pub open spec fn new_entry(
    entries: Seq<RecordView>,
    identity: Seq<char>,
    parts: Seq<PartView>,
    facts: FactsView,
    at: int,
) -> RecordView {
    RecordView {
        id: next_id(entries),
        identity,
        kind: kind::presented(mimes_of(parts), facts.preview),
        bytes: ledger::weight(new_uses(serving(parts), None)) as int,
        preview: facts.preview,
        width: facts.width,
        height: facts.height,
        thumb: match facts.thumb {
            Some(thumb) => Some(thumb.digest),
            None => None,
        },
        pinned: false,
        source: facts.source,
        at,
        body: facts.body,
        parts: serving(parts),
    }
}

/// Whether two of some representations have one mime type.
pub open spec fn repeats_a_mime(parts: Seq<PartView>) -> bool {
    exists|i: int, j: int|
        0 <= i < j < parts.len() && (#[trigger] parts[i]).mime == (#[trigger] parts[j]).mime
}

/// Why an entry cannot be recorded, if it cannot.
pub open spec fn refusal(
    index: IndexView,
    identity: Seq<char>,
    parts: Seq<PartView>,
    thumb: Option<PartView>,
) -> Option<Refusal> {
    if identity_place(index.entries, identity) is Some {
        Some(Refusal::Identity)
    } else if next_id(index.entries) > i64::MAX {
        Some(Refusal::Full)
    } else if repeats_a_mime(parts) {
        Some(Refusal::Mime)
    } else if !ledger::has_room(index.blobs, new_uses(serving(parts), thumb)) {
        Some(Refusal::Overflow)
    } else {
        None
    }
}

/// The index after an entry was recorded.
pub open spec fn inserted(
    index: IndexView,
    identity: Seq<char>,
    parts: Seq<PartView>,
    facts: FactsView,
    at: int,
) -> IndexView {
    let entry = new_entry(index.entries, identity, parts, facts, at);
    IndexView {
        entries: index.entries.push(entry),
        blobs: ledger::all_referenced(index.blobs, new_uses(serving(parts), facts.thumb)),
        changes: index.changes + rows_of(entry),
    }
}

/// The thumbnail of a saved entry as something the entry points at.
pub open spec fn saved_thumb(entry: RecordView, bytes: nat) -> Option<PartView> {
    match entry.thumb {
        Some(digest) => Some(PartView { mime: Seq::empty(), digest, bytes }),
        None => None,
    }
}

/// Whether a saved entry can take its place behind those already there.
pub open spec fn restorable(index: IndexView, entry: RecordView, thumb_bytes: nat) -> bool {
    &&& next_id(index.entries) <= entry.id
    &&& identity_place(index.entries, entry.identity) is None
    &&& !repeats_a_mime(entry.parts)
    &&& ledger::has_room(
        index.blobs,
        new_uses(serving(entry.parts), saved_thumb(entry, thumb_bytes)),
    )
}

/// The index with a saved entry behind those already there.
pub open spec fn restored(index: IndexView, entry: RecordView, thumb_bytes: nat) -> IndexView {
    IndexView {
        entries: index.entries.push((RecordView { parts: serving(entry.parts), ..entry })),
        blobs: ledger::all_referenced(
            index.blobs,
            new_uses(serving(entry.parts), saved_thumb(entry, thumb_bytes)),
        ),
        ..index
    }
}

/// The index without the entry at a place.
pub open spec fn removed_at(index: IndexView, i: int) -> IndexView {
    IndexView {
        entries: index.entries.remove(i),
        blobs: ledger::all_released(index.blobs, uses(index.entries[i])),
        changes: index.changes + rows_of(index.entries[i]),
    }
}

/// The digests that removing the entry at a place orphans.
pub open spec fn orphans_at(index: IndexView, i: int) -> Seq<Seq<char>> {
    ledger::fallen(index.blobs, uses(index.entries[i]))
}

/// The index without the entry with an id.
pub open spec fn removed(index: IndexView, id: int) -> IndexView {
    match place(index.entries, id) {
        Some(i) => removed_at(index, i),
        None => index,
    }
}

/// The digests that removing the entry with an id orphans.
pub open spec fn orphans(index: IndexView, id: int) -> Seq<Seq<char>> {
    match place(index.entries, id) {
        Some(i) => orphans_at(index, i),
        None => Seq::empty(),
    }
}

/// How many entries at the front are pinned.
pub open spec fn pinned_front(entries: Seq<RecordView>) -> int
    decreases entries.len(),
{
    if entries.len() == 0 || !entries[0].pinned {
        0
    } else {
        1 + pinned_front(entries.drop_first())
    }
}

/// The index after everything not pinned was removed, and the digests that
/// orphaned.
pub open spec fn cleared(index: IndexView) -> (IndexView, Seq<Seq<char>>)
    decreases index.entries.len(),
{
    let i = pinned_front(index.entries);
    if 0 <= i < index.entries.len() {
        let rest = cleared(removed_at(index, i));
        (rest.0, orphans_at(index, i) + rest.1)
    } else {
        (index, Seq::empty())
    }
}

/// Where the oldest entry that is not pinned stands: the one copied longest
/// ago, and of several copied then the one recorded first.
pub open spec fn oldest(entries: Seq<RecordView>) -> Option<int>
    decreases entries.len(),
{
    if entries.len() == 0 {
        None
    } else {
        let earlier = oldest(entries.drop_last());
        if entries.last().pinned {
            earlier
        } else {
            match earlier {
                Some(i) => if entries[i].at <= entries.last().at {
                    Some(i)
                } else {
                    Some(entries.len() - 1)
                },
                None => Some(entries.len() - 1),
            }
        }
    }
}

/// What making room does.
pub struct Eviction {
    pub index: IndexView,
    pub orphaned: Seq<Seq<char>>,
    pub removed: Seq<int>,
}

/// The index after the oldest unpinned entries were dropped until it fits the
/// budget or nothing unpinned is left.
pub open spec fn evicted(index: IndexView, budget: int) -> Eviction
    decreases index.entries.len(),
{
    let stay = Eviction { index, orphaned: Seq::empty(), removed: Seq::empty() };
    if ledger::total(index.blobs) <= budget {
        stay
    } else {
        match oldest(index.entries) {
            Some(i) => if 0 <= i < index.entries.len() {
                let rest = evicted(removed_at(index, i), budget);
                Eviction {
                    index: rest.index,
                    orphaned: orphans_at(index, i) + rest.orphaned,
                    removed: seq![index.entries[i].id] + rest.removed,
                }
            } else {
                stay
            },
            None => stay,
        }
    }
}

/// What the UI is told of an entry.
pub open spec fn summary_of(entry: RecordView) -> proto::SummaryView {
    proto::SummaryView {
        id: entry.id,
        kind: entry.kind.name(),
        mimes: mimes_of(entry.parts),
        bytes: entry.bytes,
        preview: entry.preview,
        width: entry.width,
        height: entry.height,
        thumb: entry.thumb is Some,
        pinned: entry.pinned,
        source: entry.source,
        at: entry.at,
    }
}

/// The order the UI lists entries in: pinned first, then newest.
pub open spec fn listing_order() -> order::Ahead<RecordView> {
    |a: RecordView, b: RecordView|
        (a.pinned && !b.pinned) || (a.pinned == b.pinned && (a.at > b.at || (a.at == b.at && a.id
            > b.id)))
}

/// Whether the text of an entry matches what the user typed. Typing nothing to
/// search for matches every entry.
pub open spec fn matches_query(entry: RecordView, query: Option<Seq<char>>) -> bool {
    match query {
        Some(typed) => {
            let expression = search::expression(typed);
            expression.len() == 0 || (entry.body matches Some(body) && search::fts5_matches(
                expression,
                body,
            ))
        },
        None => true,
    }
}

/// What a list request asks for.
pub open spec fn asked_for(
    before: Option<i64>,
    query: Option<Seq<char>>,
    only: Option<kind::Kind>,
) -> spec_fn(RecordView) -> bool {
    |entry: RecordView|
        (before matches Some(id) ==> entry.id < id) && (only matches Some(kind) ==> entry.kind
            == kind) && matches_query(entry, query)
}

/// How many entries a list request gets at most.
pub open spec fn window(limit: u32) -> int {
    if limit > MAX_LIMIT {
        MAX_LIMIT as int
    } else {
        limit as int
    }
}

/// The entries one window of the UI's list shows.
pub open spec fn listed(
    entries: Seq<RecordView>,
    limit: u32,
    before: Option<i64>,
    query: Option<Seq<char>>,
    only: Option<kind::Kind>,
) -> Seq<RecordView> {
    order::cut(
        order::ranked(entries.filter(asked_for(before, query, only)), listing_order()),
        window(limit),
    )
}

/// What a list request asks for, given the entries a search found.
pub open spec fn asked_among(
    before: Option<i64>,
    found: Option<Seq<i64>>,
    only: Option<kind::Kind>,
) -> spec_fn(RecordView) -> bool {
    |entry: RecordView|
        (before matches Some(id) ==> entry.id < id) && (only matches Some(kind) ==> entry.kind
            == kind) && (found matches Some(ids) ==> ids.contains(entry.id as i64))
}

/// The entries one window of the UI's list shows of those a search found.
pub open spec fn listed_among(
    entries: Seq<RecordView>,
    limit: u32,
    before: Option<i64>,
    found: Option<Seq<i64>>,
    only: Option<kind::Kind>,
) -> Seq<RecordView> {
    order::cut(
        order::ranked(entries.filter(asked_among(before, found, only)), listing_order()),
        window(limit),
    )
}

/// What a search found, as the contracts speak of it.
pub open spec fn found_ids(found: Option<&[i64]>) -> Option<Seq<i64>> {
    match found {
        Some(ids) => Some(ids@),
        None => None,
    }
}

/// Two tests that agree on some entries leave the same of them.
proof fn filters_agree(
    entries: Seq<RecordView>,
    one: spec_fn(RecordView) -> bool,
    other: spec_fn(RecordView) -> bool,
)
    requires
        forall|i: int| 0 <= i < entries.len() ==> one(#[trigger] entries[i]) == other(entries[i]),
    ensures
        entries.filter(one) == entries.filter(other),
    decreases entries.len(),
{
    reveal(Seq::filter);
    if entries.len() > 0 {
        assert forall|i: int| 0 <= i < entries.drop_last().len() implies one(
            #[trigger] entries.drop_last()[i],
        ) == other(entries.drop_last()[i]) by {
            assert(entries.drop_last()[i] == entries[i]);
        }
        filters_agree(entries.drop_last(), one, other);
        assert(one(entries[entries.len() - 1]) == other(entries[entries.len() - 1]));
    }
}

/// What the UI is told of some entries.
pub open spec fn summaries_of(entries: Seq<RecordView>) -> Seq<proto::SummaryView> {
    Seq::new(entries.len(), |i: int| summary_of(entries[i]))
}

/// Where the representation with a mime type stands.
pub open spec fn mime_place(parts: Seq<PartView>, mime: Seq<char>) -> Option<int>
    decreases parts.len(),
{
    if parts.len() == 0 {
        None
    } else if parts[0].mime == mime {
        Some(0)
    } else {
        match mime_place(parts.drop_first(), mime) {
            Some(i) => Some(i + 1),
            None => None,
        }
    }
}

/// The named representation of an entry, or the preferred one where none is
/// named.
pub open spec fn located(
    entries: Seq<RecordView>,
    id: int,
    mime: Option<Seq<char>>,
) -> Option<PartView> {
    match entry_at(entries, id) {
        Some(entry) => match mime {
            Some(mime) => match mime_place(entry.parts, mime) {
                Some(i) => Some(entry.parts[i]),
                None => None,
            },
            None => if entry.parts.len() > 0 {
                Some(entry.parts[0])
            } else {
                None
            },
        },
        None => None,
    }
}

/// Whether a mime type starts with a prefix, every character of it taken as it
/// is.
pub open spec fn mime_under(mime: Seq<char>, prefix: Seq<char>) -> bool {
    text::starts_with(mime, prefix)
}

/// Where the first representation stands whose mime type passes a test.
pub open spec fn passing_place(
    parts: Seq<PartView>,
    test: spec_fn(Seq<char>) -> bool,
) -> Option<int>
    decreases parts.len(),
{
    if parts.len() == 0 {
        None
    } else if test(parts[0].mime) {
        Some(0)
    } else {
        match passing_place(parts.drop_first(), test) {
            Some(i) => Some(i + 1),
            None => None,
        }
    }
}

/// The preferred representation of an entry whose mime type passes a test.
pub open spec fn located_passing(
    entries: Seq<RecordView>,
    id: int,
    test: spec_fn(Seq<char>) -> bool,
) -> Option<PartView> {
    match entry_at(entries, id) {
        Some(entry) => match passing_place(entry.parts, test) {
            Some(i) => Some(entry.parts[i]),
            None => None,
        },
        None => None,
    }
}

/// The preferred representation of an entry whose mime type starts with a
/// prefix.
pub open spec fn located_under(
    entries: Seq<RecordView>,
    id: int,
    prefix: Seq<char>,
) -> Option<PartView> {
    located_passing(entries, id, |mime: Seq<char>| mime_under(mime, prefix))
}

/// The preferred picture of an entry.
pub open spec fn located_picture(entries: Seq<RecordView>, id: int) -> Option<PartView> {
    located_passing(entries, id, |mime: Seq<char>| kind::pictorial(mime))
}

/// The thumbnail of an entry: its digest and how large it is.
pub open spec fn thumb_of(index: IndexView, id: int) -> Option<(Seq<char>, nat)> {
    match entry_at(index.entries, id) {
        Some(entry) => match entry.thumb {
            Some(digest) => match ledger::find(index.blobs, digest) {
                Some(i) => Some((digest, index.blobs[i].bytes)),
                None => None,
            },
            None => None,
        },
        None => None,
    }
}

// ---------------------------------------------------------------------------
// The index itself
// ---------------------------------------------------------------------------

/// Some entries as the contracts speak of them.
pub open spec fn record_views(entries: Seq<Record>) -> Seq<RecordView> {
    Seq::new(entries.len(), |i: int| entries[i]@)
}

/// Some changed rows as the contracts speak of them.
pub open spec fn change_views(changes: Seq<Change>) -> Seq<ChangeView> {
    Seq::new(changes.len(), |i: int| changes[i]@)
}

/// What the full-text table should hold.
pub open spec fn searchable_text(entries: Seq<RecordView>) -> spec_fn(i64) -> Option<Seq<char>> {
    |id: i64| body_at(entries, id as int)
}

/// The rows of the full-text table some entries have a claim to.
pub open spec fn row_ids(entries: Seq<RecordView>) -> Seq<i64> {
    Seq::new(entries.len(), |k: int| entries[k].id as i64)
}

pub struct Index {
    entries: Vec<Record>,
    blobs: ledger::Ledger,
    changes: Vec<Change>,
    search: search::Search,
}

impl View for Index {
    type V = IndexView;

    closed spec fn view(&self) -> IndexView {
        IndexView {
            entries: record_views(self.entries@),
            blobs: self.blobs@,
            changes: change_views(self.changes@),
        }
    }
}

impl Index {
    /// Whether the full-text table is in step with the entries, but for those
    /// it is known to be behind on.
    pub closed spec fn searchable(self) -> bool {
        self.search.follows(searchable_text(self@.entries))
    }

    pub open spec fn well_formed(self) -> bool {
        sound(self@) && self.searchable()
    }

    /// An archive holding nothing.
    pub fn new() -> (index: Index)
        ensures
            index.well_formed(),
            index@.entries.len() == 0,
            index@.blobs.len() == 0,
            index@.changes.len() == 0,
    {
        let index = Index {
            entries: Vec::new(),
            blobs: ledger::Ledger::new(),
            changes: Vec::new(),
            search: search::Search::new(),
        };
        assert(index@.entries =~= Seq::empty());
        index
    }

    /// Where the entry with an id stands.
    fn position(&self, id: i64) -> (found: Option<usize>)
        ensures
            match found {
                Some(i) => place(self@.entries, id as int) == Some(i as int) && i
                    < self.entries@.len(),
                None => place(self@.entries, id as int) is None,
            },
    {
        let ghost all = self@.entries;
        let mut i: usize = self.entries.len();
        assert(all.take(all.len() as int) =~= all);
        while i > 0
            invariant
                i <= self.entries.len(),
                all == self@.entries,
                place(all, id as int) == place(all.take(i as int), id as int),
            decreases i,
        {
            assert(all.take(i as int).drop_last() =~= all.take(i - 1));
            assert(all.take(i as int).last() == self.entries@[i - 1]@);
            i -= 1;
            if self.entries[i].id == id {
                return Some(i);
            }
        }
        None
    }

    /// Where the entry with an identity stands.
    fn identity_position(&self, identity: &str) -> (found: Option<usize>)
        ensures
            match found {
                Some(i) => identity_place(self@.entries, identity@) == Some(i as int) && i
                    < self.entries@.len(),
                None => identity_place(self@.entries, identity@) is None,
            },
    {
        let ghost all = self@.entries;
        let mut i: usize = self.entries.len();
        assert(all.take(all.len() as int) =~= all);
        while i > 0
            invariant
                i <= self.entries.len(),
                all == self@.entries,
                identity_place(all, identity@) == identity_place(all.take(i as int), identity@),
            decreases i,
        {
            assert(all.take(i as int).drop_last() =~= all.take(i - 1));
            assert(all.take(i as int).last() == self.entries@[i - 1]@);
            i -= 1;
            if text::same(self.entries[i].identity.as_str(), identity) {
                return Some(i);
            }
        }
        None
    }

    /// The id of the entry with an identity.
    pub fn identified(&self, identity: &str) -> (id: Option<i64>)
        ensures
            match id {
                Some(id) => identity_place(self@.entries, identity@) matches Some(i)
                    && self@.entries[i].id == id,
                None => identity_place(self@.entries, identity@) is None,
            },
    {
        match self.identity_position(identity) {
            Some(i) => Some(self.entries[i].id),
            None => None,
        }
    }

    /// Moves an existing entry's timestamp to `at`.
    ///
    /// Returns its id when the identity was already known, which is the common
    /// case: an application that re-asserts the clipboard unchanged every few
    /// seconds must not fill the archive with copies of one thing.
    pub fn touch(&mut self, identity: &str, at: i64) -> (existing: Option<i64>)
        requires
            old(self).well_formed(),
        ensures
            final(self).well_formed(),
            final(self)@ == touched(old(self)@, identity@, at as int),
            match existing {
                Some(id) => identity_place(old(self)@.entries, identity@) matches Some(i)
                    && old(self)@.entries[i].id == id,
                None => identity_place(old(self)@.entries, identity@) is None,
            },
    {
        match self.identity_position(identity) {
            Some(i) => {
                let ghost before = self@;
                let id: i64 = self.entries[i].id;
                let ghost entry = RecordView { at: at as int, ..before.entries[i as int] };
                proof {
                    crate::store::laws::changing_an_entry(before, i as int, entry);
                    bodies_unmoved(before.entries, i as int, entry);
                }
                self.entries[i].at = at;
                self.changes.push(Change::Entry(id));
                assert(self@.entries =~= before.entries.update(i as int, entry));
                assert(self@.changes =~= before.changes.push(ChangeView::Entry(id as int)));
                Some(id)
            },
            None => None,
        }
    }

    pub fn set_pinned(&mut self, entry: i64, pinned: bool) -> (known: bool)
        requires
            old(self).well_formed(),
        ensures
            final(self).well_formed(),
            final(self)@ == pinning(old(self)@, entry as int, pinned),
            known == (place(old(self)@.entries, entry as int) is Some),
    {
        match self.position(entry) {
            Some(i) => {
                let ghost before = self@;
                let ghost changed = RecordView { pinned, ..before.entries[i as int] };
                proof {
                    placed_right(before.entries, entry as int);
                    crate::store::laws::changing_an_entry(before, i as int, changed);
                    bodies_unmoved(before.entries, i as int, changed);
                }
                self.entries[i].pinned = pinned;
                self.changes.push(Change::Entry(entry));
                assert(self@.entries =~= before.entries.update(i as int, changed));
                assert(self@.changes =~= before.changes.push(ChangeView::Entry(entry as int)));
                true
            },
            None => false,
        }
    }

    /// Adds one reference for each representation and for the thumbnail.
    fn reference_all(&mut self, parts: &Vec<Part>, thumb: &Option<Part>)
        requires
            ledger::has_room(
                old(self)@.blobs,
                new_uses(
                    part_views(parts@),
                    optional_part(*thumb),
                ),
            ),
        ensures
            final(self).entries == old(self).entries,
            final(self).search == old(self).search,
            ({
                let new = new_uses(
                    part_views(parts@),
                    optional_part(*thumb),
                );
                &&& final(self)@.blobs == ledger::all_referenced(old(self)@.blobs, new)
                &&& final(self)@.changes == old(self)@.changes + blob_changes(ledger::digests(new))
            }),
    {
        let ghost new = new_uses(
            part_views(parts@),
            optional_part(*thumb),
        );
        let ghost before = self@;
        let ghost entries = self.entries;
        let ghost search = self.search;
        let mut i: usize = 0;
        assert(before.changes + blob_changes(ledger::digests(new.take(0))) =~= before.changes);
        assert(new.take(0) =~= Seq::empty());
        while i < parts.len()
            invariant
                i <= parts.len(),
                parts.len() <= new.len() <= u64::MAX,
                new.take(parts@.len() as int) =~= new_uses(part_views(parts@), None),
                self.entries == entries,
                self.search == search,
                self@.blobs == ledger::all_referenced(before.blobs, new.take(i as int)),
                self@.changes == before.changes + blob_changes(ledger::digests(new.take(i as int))),
                forall|k: int|
                    0 <= k < self@.blobs.len() ==> (#[trigger] self@.blobs[k]).refs + (new.len()
                        - i) <= u64::MAX,
            decreases parts.len() - i,
        {
            let part = &parts[i];
            proof {
                assert(new.take(parts@.len() as int)[i as int] == (part@.digest, part@.bytes));
                one_more_use(before, new, i as int);
                ledger::found(self@.blobs, part.digest@);
            }
            let ghost noted = self@.changes;
            self.blobs.reference(part.digest.as_str(), part.bytes);
            self.changes.push(Change::Blob(part.digest.clone()));
            assert(self@.changes =~= noted.push(ChangeView::Blob(part@.digest)));
            assert(self@.changes =~= before.changes + blob_changes(
                ledger::digests(new.take(i as int + 1)),
            ));
            i += 1;
        }
        match thumb {
            Some(thumb) => {
                proof {
                    assert(new[i as int] == (thumb@.digest, thumb@.bytes));
                    one_more_use(before, new, i as int);
                    ledger::found(self@.blobs, thumb.digest@);
                    assert(new.take(i as int + 1) =~= new);
                }
                let ghost noted = self@.changes;
                self.blobs.reference(thumb.digest.as_str(), thumb.bytes);
                self.changes.push(Change::Blob(thumb.digest.clone()));
                assert(self@.changes =~= noted.push(ChangeView::Blob(thumb@.digest)));
                assert(self@.changes =~= before.changes + blob_changes(ledger::digests(new)));
            },
            None => {
                assert(new.take(i as int) =~= new);
            },
        }
    }

    /// Records a new entry and every representation it holds.
    pub fn insert(&mut self, identity: &str, parts: &[Part], facts: &Facts, at: i64) -> (id: Result<
        i64,
        Refusal,
    >)
        requires
            old(self).well_formed(),
        ensures
            final(self).well_formed(),
            match refusal(old(self)@, identity@, part_views(parts@), facts@.thumb) {
                Some(refused) => id == Err::<i64, Refusal>(refused) && final(self)@ == old(self)@,
                None => id == Ok::<i64, Refusal>(next_id(old(self)@.entries) as i64)
                    && final(self)@ == inserted(
                    old(self)@,
                    identity@,
                    part_views(parts@),
                    facts@,
                    at as int,
                ),
            },
            id matches Ok(id) ==> {
                &&& body_at(final(self)@.entries, id as int) == facts@.body
                &&& entry_at(final(self)@.entries, id as int) matches Some(entry)
                    && entry.preview == facts@.preview && entry.source == facts@.source
                    && entry.width == facts@.width && entry.height == facts@.height && entry.at
                    == at && !entry.pinned
            },
    {
        let ghost before = self@;
        let ghost given = part_views(parts@);
        if self.identity_position(identity).is_some() {
            return Err(Refusal::Identity);
        }
        let last: usize = self.entries.len();
        assert(before.entries.len() == last);
        let id: i64 = if last == 0 {
            1
        } else {
            let newest: i64 = self.entries[last - 1].id;
            assert(before.entries.last() == self.entries@[last - 1]@);
            if newest == i64::MAX {
                return Err(Refusal::Full);
            }
            newest + 1
        };
        assert(id == next_id(before.entries));
        if has_repeat(parts) {
            return Err(Refusal::Mime);
        }
        let served = serve(parts);
        if !room_for(&self.blobs, &served, &facts.thumb) {
            return Err(Refusal::Overflow);
        }
        proof {
            crate::store::laws::recording_an_entry(before, identity@, given, facts@, at as int);
        }
        let kind = kind_of(parts, &facts.preview);
        proof {
            let new = new_uses(serving(given), facts@.thumb);
            if facts@.thumb is Some {
                assert(new.drop_last() =~= new_uses(serving(given), None));
            }
        }
        let bytes: u64 = sum(&served);
        let ghost entry = new_entry(before.entries, identity@, given, facts@, at as int);
        let ghost follower = self.search;
        self.changes.push(Change::Entry(id));
        assert(self@.changes =~= before.changes.push(ChangeView::Entry(id as int)));
        self.reference_all(&served, &facts.thumb);
        assert(ledger::digests(new_uses(serving(given), facts@.thumb)) =~= uses(entry));
        let record = Record {
            id,
            identity: identity.to_owned(),
            kind,
            bytes: bytes as i64,
            preview: facts.preview.clone(),
            width: facts.width,
            height: facts.height,
            thumb: match &facts.thumb {
                Some(thumb) => Some(thumb.digest.clone()),
                None => None,
            },
            pinned: false,
            source: facts.source.clone(),
            at,
            body: facts.body.clone(),
            parts: served,
        };
        assert(record@ == entry);
        self.entries.push(record);
        self.search.mark(id);
        assert(self@.entries =~= before.entries.push(entry));
        assert(self@.changes =~= before.changes + rows_of(entry));
        proof {
            assert(self@.entries.drop_last() =~= before.entries);
            assert forall|other: int| other != id implies #[trigger] body_at(self@.entries, other)
                == body_at(before.entries, other) by {
                placed_right(before.entries, other);
            }
            still_followed(follower, self.search, before.entries, self@.entries, id);
            laws::a_recorded_entry_is_what_was_given(before, identity@, given, facts@, at as int);
            placed_right(self@.entries, id as int);
        }
        Ok(id)
    }

    /// Drops every reference one entry holds, returning the digests that fell
    /// to zero and whose files the caller should now delete.
    fn release_entry(&mut self, record: &Record) -> (orphaned: Vec<String>)
        ensures
            final(self).entries == old(self).entries,
            final(self).search == old(self).search,
            final(self)@.blobs == ledger::all_released(old(self)@.blobs, uses(record@)),
            final(self)@.changes == old(self)@.changes + blob_changes(uses(record@)),
            text::contents(orphaned@) == ledger::fallen(old(self)@.blobs, uses(record@)),
    {
        let ghost gone = uses(record@);
        let ghost before = self@;
        let ghost entries = self.entries;
        let ghost search = self.search;
        let mut orphaned: Vec<String> = Vec::new();
        let mut i: usize = 0;
        assert(gone.take(0) =~= Seq::empty());
        assert(text::contents(orphaned@) =~= Seq::empty());
        assert(before.changes + blob_changes(gone.take(0)) =~= before.changes);
        while i < record.parts.len()
            invariant
                i <= record.parts.len() <= gone.len(),
                gone == uses(record@),
                self.entries == entries,
                self.search == search,
                self@.blobs == ledger::all_released(before.blobs, gone.take(i as int)),
                self@.changes == before.changes + blob_changes(gone.take(i as int)),
                text::contents(orphaned@) == ledger::fallen(before.blobs, gone.take(i as int)),
            decreases record.parts.len() - i,
        {
            let digest = &record.parts[i].digest;
            let ghost noted = self@.changes;
            let ghost fell = text::contents(orphaned@);
            proof {
                assert(gone[i as int] == digest@);
                assert(gone.take(i as int + 1).drop_last() =~= gone.take(i as int));
            }
            if self.blobs.release(digest.as_str()) {
                orphaned.push(digest.clone());
                assert(text::contents(orphaned@) =~= fell.push(digest@));
            }
            self.changes.push(Change::Blob(digest.clone()));
            assert(self@.changes =~= noted.push(ChangeView::Blob(digest@)));
            assert(self@.changes =~= before.changes + blob_changes(gone.take(i as int + 1)));
            i += 1;
        }
        match &record.thumb {
            Some(digest) => {
                let ghost noted = self@.changes;
                let ghost fell = text::contents(orphaned@);
                proof {
                    assert(gone[i as int] == digest@);
                    assert(gone.take(i as int + 1).drop_last() =~= gone.take(i as int));
                    assert(gone.take(i as int + 1) =~= gone);
                }
                if self.blobs.release(digest.as_str()) {
                    orphaned.push(digest.clone());
                    assert(text::contents(orphaned@) =~= fell.push(digest@));
                }
                self.changes.push(Change::Blob(digest.clone()));
                assert(self@.changes =~= noted.push(ChangeView::Blob(digest@)));
                assert(self@.changes =~= before.changes + blob_changes(gone));
            },
            None => {
                assert(gone.take(i as int) =~= gone);
            },
        }
        orphaned
    }

    /// Deletes the entry at a place, returning the digests no record points at
    /// any more.
    fn remove_at(&mut self, i: usize) -> (orphaned: Vec<String>)
        requires
            old(self).well_formed(),
            i < old(self)@.entries.len(),
        ensures
            final(self).well_formed(),
            final(self)@ == removed_at(old(self)@, i as int),
            text::contents(orphaned@) == orphans_at(old(self)@, i as int),
    {
        let ghost before = self@;
        let ghost follower = self.search;
        proof {
            crate::store::laws::removing_an_entry(before, i as int);
        }
        let record = self.entries.remove(i);
        assert(record@ == before.entries[i as int]);
        assert(self@.entries =~= before.entries.remove(i as int));
        let id: i64 = record.id;
        self.changes.push(Change::Entry(id));
        assert(self@.changes =~= before.changes.push(ChangeView::Entry(id as int)));
        let orphaned = self.release_entry(&record);
        assert(self@.changes =~= before.changes + rows_of(record@));
        self.search.mark(id);
        proof {
            assert forall|other: int| other != id implies #[trigger] body_at(self@.entries, other)
                == body_at(before.entries, other) by {
                found_without(before.entries, i as int, other);
            }
            still_followed(follower, self.search, before.entries, self@.entries, id);
        }
        orphaned
    }

    /// Deletes one entry, returning the digests no record points at any more.
    pub fn remove(&mut self, entry: i64) -> (orphaned: Vec<String>)
        requires
            old(self).well_formed(),
        ensures
            final(self).well_formed(),
            final(self)@ == removed(old(self)@, entry as int),
            text::contents(orphaned@) == orphans(old(self)@, entry as int),
    {
        match self.position(entry) {
            Some(i) => self.remove_at(i),
            None => {
                let none: Vec<String> = Vec::new();
                assert(text::contents(none@) =~= Seq::empty());
                none
            },
        }
    }

    /// Deletes everything not pinned.
    pub fn clear(&mut self) -> (orphaned: Vec<String>)
        requires
            old(self).well_formed(),
        ensures
            final(self).well_formed(),
            (final(self)@, text::contents(orphaned@)) == cleared(old(self)@),
    {
        let ghost before = self@;
        let mut orphaned: Vec<String> = Vec::new();
        let mut i: usize = 0;
        assert(text::contents(orphaned@) =~= Seq::empty());
        assert(Seq::<Seq<char>>::empty() + cleared(before).1 =~= cleared(before).1);
        while i < self.entries.len()
            invariant
                self.well_formed(),
                i <= self@.entries.len(),
                self@.entries.len() == self.entries@.len(),
                forall|k: int| 0 <= k < i ==> (#[trigger] self@.entries[k]).pinned,
                cleared(before).0 == cleared(self@).0,
                cleared(before).1 == text::contents(orphaned@) + cleared(self@).1,
            decreases self.entries.len() - i,
        {
            if self.entries[i].pinned {
                assert(self@.entries[i as int].pinned);
                i += 1;
            } else {
                let ghost now = self@;
                let ghost fell = text::contents(orphaned@);
                proof {
                    assert(!now.entries[i as int].pinned);
                    pinned_front_is(now.entries, i as int);
                }
                let mut more = self.remove_at(i);
                let ghost also = text::contents(more@);
                orphaned.append(&mut more);
                proof {
                    assert(text::contents(orphaned@) =~= fell + also);
                    assert(fell + (also + cleared(self@).1) =~= (fell + also) + cleared(self@).1);
                }
            }
        }
        proof {
            pinned_front_is(self@.entries, i as int);
            assert(text::contents(orphaned@) + Seq::<Seq<char>>::empty() =~= text::contents(
                orphaned@,
            ));
        }
        orphaned
    }

    /// Where the oldest entry that is not pinned stands.
    fn oldest_position(&self) -> (found: Option<usize>)
        ensures
            match found {
                Some(i) => oldest(self@.entries) == Some(i as int) && i < self@.entries.len(),
                None => oldest(self@.entries) is None,
            },
    {
        let ghost all = self@.entries;
        let mut found: Option<usize> = None;
        let mut i: usize = 0;
        while i < self.entries.len()
            invariant
                i <= self.entries.len(),
                all == self@.entries,
                match found {
                    Some(k) => oldest(all.take(i as int)) == Some(k as int) && k < i,
                    None => oldest(all.take(i as int)) is None,
                },
            decreases self.entries.len() - i,
        {
            let ghost next = all.take(i as int + 1);
            assert(next.drop_last() =~= all.take(i as int));
            assert(next.last() == self.entries@[i as int]@);
            if !self.entries[i].pinned {
                match found {
                    Some(k) => {
                        assert(next[k as int] == self.entries@[k as int]@);
                        if self.entries[k].at > self.entries[i].at {
                            found = Some(i);
                        }
                    },
                    None => {
                        found = Some(i);
                    },
                }
            }
            i += 1;
        }
        assert(all.take(all.len() as int) =~= all);
        found
    }

    /// Drops the oldest unpinned entries until the store fits in `budget`.
    ///
    /// Returns the orphaned digests and the ids that were removed, so the
    /// daemon can tell watching clients what disappeared under them.
    pub fn evict_to(&mut self, budget: i64) -> (made_room: (Vec<String>, Vec<i64>))
        requires
            old(self).well_formed(),
        ensures
            final(self).well_formed(),
            ({
                let eviction = evicted(old(self)@, budget as int);
                &&& final(self)@ == eviction.index
                &&& text::contents(made_room.0@) == eviction.orphaned
                &&& ids(made_room.1@) == eviction.removed
            }),
    {
        let ghost start = evicted(self@, budget as int);
        let mut orphaned: Vec<String> = Vec::new();
        let mut removed: Vec<i64> = Vec::new();
        proof {
            assert(text::contents(orphaned@) + start.orphaned =~= start.orphaned);
            assert(ids(removed@) + start.removed =~= start.removed);
        }
        loop
            invariant_except_break
                self.well_formed(),
                ({
                    let rest = evicted(self@, budget as int);
                    &&& start.index == rest.index
                    &&& start.orphaned == text::contents(orphaned@) + rest.orphaned
                    &&& start.removed == ids(removed@) + rest.removed
                }),
            ensures
                self.well_formed(),
                self@ == start.index,
                text::contents(orphaned@) == start.orphaned,
                ids(removed@) == start.removed,
            decreases self@.entries.len(),
        {
            let ghost rest = evicted(self@, budget as int);
            if self.blobs.total() <= budget {
                assert(text::contents(orphaned@) + rest.orphaned =~= text::contents(orphaned@));
                assert(ids(removed@) + rest.removed =~= ids(removed@));
                break;
            }
            // Oldest first, and never a pinned one: pinning is the user saying
            // this outlives the budget.
            let victim: usize = match self.oldest_position() {
                Some(victim) => victim,
                // Everything left is pinned. The budget is a policy for what
                // the daemon collects on its own, not a licence to drop what
                // was explicitly kept.
                None => {
                    assert(text::contents(orphaned@) + rest.orphaned =~= text::contents(orphaned@));
                    assert(ids(removed@) + rest.removed =~= ids(removed@));
                    break;
                },
            };
            let ghost now = self@;
            let ghost fell = text::contents(orphaned@);
            let ghost gone = ids(removed@);
            let id: i64 = self.entries[victim].id;
            assert(now.entries[victim as int].id == id);
            let mut more = self.remove_at(victim);
            let ghost also = text::contents(more@);
            orphaned.append(&mut more);
            removed.push(id);
            proof {
                let after = evicted(self@, budget as int);
                assert(text::contents(orphaned@) =~= fell + also);
                assert(fell + (also + after.orphaned) =~= (fell + also) + after.orphaned);
                assert(ids(removed@) =~= gone.push(id as int));
                assert(gone + (seq![id as int] + after.removed) =~= gone.push(id as int)
                    + after.removed);
            }
        }
        (orphaned, removed)
    }

    /// How many entries there are.
    pub fn entries(&self) -> (count: i64)
        requires
            self.well_formed(),
        ensures
            count == self@.entries.len(),
    {
        proof {
            ids_reach(self@.entries);
        }
        self.entries.len() as i64
    }

    /// How many bytes all blobs take together, each counted once.
    pub fn bytes(&self) -> (bytes: i64)
        requires
            self.well_formed(),
        ensures
            bytes == ledger::total(self@.blobs),
    {
        self.blobs.total()
    }

    /// Digests the index knows about, for reconciling against the disk.
    pub fn known_digests(&self) -> (digests: Vec<String>)
        ensures
            text::contents(digests@) == blob_digests(self@.blobs),
    {
        let mut digests: Vec<String> = Vec::new();
        let mut i: usize = 0;
        while i < self.blobs.len()
            invariant
                i <= self.blobs@.len(),
                text::contents(digests@) == blob_digests(self.blobs@).take(i as int),
            decreases self.blobs@.len() - i,
        {
            let ghost before = text::contents(digests@);
            digests.push(self.blobs.get(i).digest.clone());
            assert(text::contents(digests@) =~= before.push(self.blobs@[i as int].digest));
            assert(text::contents(digests@) =~= blob_digests(self.blobs@).take(i as int + 1));
            i += 1;
        }
        assert(text::contents(digests@) =~= blob_digests(self.blobs@));
        digests
    }

    /// Whether a digest belongs to a blob the index knows about.
    pub fn knows(&self, digest: &str) -> (known: bool)
        ensures
            known == (ledger::find(self@.blobs, digest@) is Some),
    {
        self.blobs.position(digest).is_some()
    }

    /// The entry with an id.
    pub fn record(&self, id: i64) -> (record: Option<&Record>)
        ensures
            match record {
                Some(record) => entry_at(self@.entries, id as int) == Some(record@),
                None => entry_at(self@.entries, id as int) is None,
            },
    {
        match self.position(id) {
            Some(i) => {
                assert(self@.entries[i as int] == self.entries@[i as int]@);
                Some(&self.entries[i])
            },
            None => None,
        }
    }

    /// The blob with a digest.
    pub fn blob(&self, digest: &str) -> (blob: Option<&ledger::Blob>)
        ensures
            match blob {
                Some(blob) => ledger::find(self@.blobs, digest@) matches Some(i)
                    && self@.blobs[i] == blob@,
                None => ledger::find(self@.blobs, digest@) is None,
            },
    {
        match self.blobs.position(digest) {
            Some(i) => Some(self.blobs.get(i)),
            None => None,
        }
    }

    /// The rows that changed since this was last asked, in the order they did.
    pub fn take_changes(&mut self) -> (changes: Vec<Change>)
        requires
            old(self).well_formed(),
        ensures
            final(self).well_formed(),
            final(self)@ == (IndexView { changes: Seq::empty(), ..old(self)@ }),
            change_views(changes@) == old(self)@.changes,
    {
        let mut changes: Vec<Change> = Vec::new();
        changes.append(&mut self.changes);
        assert(self@.changes =~= Seq::empty());
        assert(change_views(changes@) =~= old(self)@.changes);
        changes
    }

    pub fn summary(&self, id: i64) -> (summary: Option<proto::Summary>)
        ensures
            match summary {
                Some(summary) => entry_at(self@.entries, id as int) matches Some(entry)
                    && summary@ == summary_of(entry),
                None => entry_at(self@.entries, id as int) is None,
            },
    {
        match self.record(id) {
            Some(record) => Some(summarize(record)),
            None => None,
        }
    }

    /// The blob backing one representation, or the preferred one when no mime
    /// is named.
    pub fn locate(&self, entry: i64, mime: Option<&str>) -> (part: Option<(String, String, u64)>)
        ensures
            location(part) == located(self@.entries, entry as int, text::optional_slice(mime)),
    {
        let record = match self.record(entry) {
            Some(record) => record,
            None => return None,
        };
        match mime {
            Some(wanted) => {
                let ghost all = part_views(record.parts@);
                let mut i: usize = 0;
                assert(all.skip(0) =~= all);
                while i < record.parts.len()
                    invariant
                        i <= record.parts.len(),
                        all == part_views(record.parts@),
                        entry_at(self@.entries, entry as int) == Some(record@),
                        mime == Some(wanted),
                        mime_place(all, wanted@) == shifted(
                            mime_place(all.skip(i as int), wanted@),
                            i as int,
                        ),
                    decreases record.parts.len() - i,
                {
                    let part = &record.parts[i];
                    assert(all.skip(i as int)[0] == part@);
                    assert(all.skip(i as int).drop_first() =~= all.skip(i as int + 1));
                    if text::same(part.mime.as_str(), wanted) {
                        return Some((part.mime.clone(), part.digest.clone(), part.bytes));
                    }
                    i += 1;
                }
                None
            },
            None => {
                if record.parts.len() == 0 {
                    None
                } else {
                    let part = &record.parts[0];
                    Some((part.mime.clone(), part.digest.clone(), part.bytes))
                }
            },
        }
    }

    /// The best-ranked representation whose mime starts with `prefix`.
    ///
    /// No character of the prefix stands for any other, so a lookup only ever
    /// matches a real prefix.
    pub fn locate_prefixed(&self, entry: i64, prefix: &str) -> (part: Option<
        (String, String, u64),
    >)
        ensures
            location(part) == located_under(self@.entries, entry as int, prefix@),
    {
        let record = match self.record(entry) {
            Some(record) => record,
            None => return None,
        };
        let ghost all = part_views(record.parts@);
        let ghost test = |mime: Seq<char>| mime_under(mime, prefix@);
        let mut i: usize = 0;
        assert(all.skip(0) =~= all);
        while i < record.parts.len()
            invariant
                i <= record.parts.len(),
                all == part_views(record.parts@),
                test == (|mime: Seq<char>| mime_under(mime, prefix@)),
                entry_at(self@.entries, entry as int) == Some(record@),
                passing_place(all, test) == shifted(
                    passing_place(all.skip(i as int), test),
                    i as int,
                ),
            decreases record.parts.len() - i,
        {
            let part = &record.parts[i];
            assert(all.skip(i as int)[0] == part@);
            assert(all.skip(i as int).drop_first() =~= all.skip(i as int + 1));
            if text::begins(&text::chars_of(part.mime.as_str()), prefix) {
                return Some((part.mime.clone(), part.digest.clone(), part.bytes));
            }
            i += 1;
        }
        None
    }

    /// The best-ranked representation that is a picture, however its mime type
    /// is spelled.
    pub fn locate_picture(&self, entry: i64) -> (part: Option<(String, String, u64)>)
        ensures
            location(part) == located_picture(self@.entries, entry as int),
    {
        let record = match self.record(entry) {
            Some(record) => record,
            None => return None,
        };
        let ghost all = part_views(record.parts@);
        let ghost test = |mime: Seq<char>| kind::pictorial(mime);
        let mut i: usize = 0;
        assert(all.skip(0) =~= all);
        while i < record.parts.len()
            invariant
                i <= record.parts.len(),
                all == part_views(record.parts@),
                test == (|mime: Seq<char>| kind::pictorial(mime)),
                entry_at(self@.entries, entry as int) == Some(record@),
                passing_place(all, test) == shifted(
                    passing_place(all.skip(i as int), test),
                    i as int,
                ),
            decreases record.parts.len() - i,
        {
            let part = &record.parts[i];
            assert(all.skip(i as int)[0] == part@);
            assert(all.skip(i as int).drop_first() =~= all.skip(i as int + 1));
            if kind::is_image(part.mime.as_str()) {
                return Some((part.mime.clone(), part.digest.clone(), part.bytes));
            }
            i += 1;
        }
        None
    }

    /// The blob an entry's thumbnail is.
    pub fn thumb(&self, entry: i64) -> (thumb: Option<(String, u64)>)
        ensures
            match thumb {
                Some((digest, bytes)) => thumb_of(self@, entry as int) == Some(
                    (digest@, bytes as nat),
                ),
                None => thumb_of(self@, entry as int) is None,
            },
    {
        let record = match self.record(entry) {
            Some(record) => record,
            None => return None,
        };
        match &record.thumb {
            Some(digest) => match self.blob(digest.as_str()) {
                Some(blob) => Some((digest.clone(), blob.bytes)),
                None => None,
            },
            None => None,
        }
    }

    /// Takes in an entry saved earlier. Entries are taken in with rising ids;
    /// one that cannot have been saved beside those already taken in is
    /// refused.
    pub fn restore(&mut self, record: Record, thumb_bytes: u64) -> (taken: bool)
        requires
            old(self).well_formed(),
        ensures
            final(self).well_formed(),
            taken == restorable(old(self)@, record@, thumb_bytes as nat),
            final(self)@ == (if taken {
                restored(old(self)@, record@, thumb_bytes as nat)
            } else {
                old(self)@
            }),
    {
        let ghost before = self@;
        let ghost saved = record@;
        let ghost follower = self.search;
        let last: usize = self.entries.len();
        if last == 0 {
            if record.id < 1 {
                return false;
            }
        } else {
            assert(before.entries.last() == self.entries@[last - 1]@);
            if record.id <= self.entries[last - 1].id {
                return false;
            }
        }
        if self.identity_position(record.identity.as_str()).is_some() {
            return false;
        }
        if has_repeat(&record.parts) {
            return false;
        }
        let served = serve(&record.parts);
        let thumb: Option<Part> = match &record.thumb {
            Some(digest) => Some(
                Part { mime: String::new(), digest: digest.clone(), bytes: thumb_bytes },
            ),
            None => None,
        };
        assert(thumb is Some ==> thumb->0@.mime =~= Seq::empty());
        assert(optional_part(thumb) == saved_thumb(saved, thumb_bytes as nat));
        if !room_for(&self.blobs, &served, &thumb) {
            return false;
        }
        let noted: usize = self.changes.len();
        self.reference_all(&served, &thumb);
        let ghost more = self@.changes;
        self.changes.truncate(noted);
        assert(self@.changes =~= more.take(noted as int));
        let id: i64 = record.id;
        let kept = Record { parts: served, ..record };
        let ghost entry = RecordView { parts: serving(saved.parts), ..saved };
        assert(kept@ == entry);
        self.entries.push(kept);
        self.search.mark(id);
        assert(self@.entries =~= before.entries.push(entry));
        assert(self@.changes =~= before.changes);
        proof {
            let new = new_uses(serving(saved.parts), saved_thumb(saved, thumb_bytes as nat));
            crate::store::laws::serving_is_in_order(saved.parts);
            assert(ledger::digests(new) =~= uses(entry));
            crate::store::laws::adding_an_entry(before, entry, new, before.changes);
            assert(self@.entries.drop_last() =~= before.entries);
            assert forall|other: int| other != id implies #[trigger] body_at(self@.entries, other)
                == body_at(before.entries, other) by {
                placed_right(before.entries, other);
            }
            still_followed(follower, self.search, before.entries, self@.entries, id);
        }
        true
    }

    /// Brings the full-text table in step with the entries.
    ///
    /// A table that is in step already stays as it is, and SQLite has no say.
    /// Where it refuses on the way, the table is given up, and the entries that
    /// were noted first are still to be caught up with.
    fn catch_up(&mut self) -> (done: Result<(), String>)
        requires
            old(self).well_formed(),
        ensures
            final(self)@ == old(self)@,
            match done {
                Ok(()) => {
                    &&& final(self).well_formed()
                    &&& final(self).search.behind().len() == 0
                    &&& old(self).search.behind().len() == 0 ==> *final(self) == *old(self)
                },
                Err(_) => {
                    let noted = old(self).search.behind();
                    let left = final(self).search.behind();
                    &&& 0 < left.len() <= noted.len()
                    &&& left == noted.take(left.len() as int)
                    &&& final(self).search.rows() == Map::<i64, Seq<char>>::empty()
                },
            },
    {
        let ghost entries = self@.entries;
        let ghost noted = self.search.behind();
        assert(noted.take(noted.len() as int) =~= noted);
        loop
            invariant
                self.well_formed(),
                self@ == old(self)@,
                entries == self@.entries,
                noted == old(self).search.behind(),
                self.search.behind().len() <= noted.len(),
                self.search.behind() == noted.take(self.search.behind().len() as int),
                noted.len() == 0 ==> *self == *old(self),
            ensures
                self.search.behind().len() == 0,
            decreases self.search.behind().len(),
        {
            let id: i64 = match self.search.next_stale() {
                Some(id) => id,
                None => {
                    break;
                },
            };
            let ghost behind = self.search;
            let body: Option<&str> = match self.position(id) {
                Some(i) => {
                    assert(entries[i as int] == self.entries@[i as int]@);
                    match &self.entries[i].body {
                        Some(body) => Some(body.as_str()),
                        None => None,
                    }
                },
                None => None,
            };
            assert(text::optional_slice(body) == body_at(entries, id as int));
            match self.search.refresh(body) {
                Ok(()) => {},
                Err(error) => {
                    return Err(error);
                },
            }
            proof {
                assert forall|other: i64|
                    !self.search.behind().contains(other) implies #[trigger] search::held(
                    self.search.rows(),
                    other,
                ) == searchable_text(entries)(other) by {
                    if other != id {
                        if behind.behind().contains(other) {
                            let k = choose|k: int|
                                0 <= k < behind.behind().len() && behind.behind()[k] == other;
                            assert(self.search.behind()[k] == other);
                        }
                        assert(search::held(behind.rows(), other) == searchable_text(entries)(
                            other,
                        ));
                    }
                }
            }
        }
        Ok(())
    }

    /// Gives the full-text table up and notes every entry for a new one.
    fn forget_table(&mut self)
        requires
            sound(old(self)@),
        ensures
            final(self).well_formed(),
            final(self)@ == old(self)@,
            final(self).search.rows() == Map::<i64, Seq<char>>::empty(),
            final(self).search.behind() == row_ids(old(self)@.entries),
    {
        let ghost entries = self@.entries;
        self.search = search::Search::new();
        let mut i: usize = 0;
        while i < self.entries.len()
            invariant
                i <= self.entries.len(),
                self@ == old(self)@,
                entries == self@.entries,
                self.search.rows() == Map::<i64, Seq<char>>::empty(),
                self.search.behind() == row_ids(entries).take(i as int),
            decreases self.entries.len() - i,
        {
            let id: i64 = self.entries[i].id;
            self.search.mark(id);
            proof {
                assert(entries[i as int] == self.entries@[i as int]@);
                assert(self.search.behind() =~= row_ids(entries).take(i as int + 1));
            }
            i += 1;
        }
        proof {
            assert(row_ids(entries).take(entries.len() as int) =~= row_ids(entries));
            assert forall|id: i64| !self.search.behind().contains(id) implies #[trigger] search::held(
                self.search.rows(),
                id,
            ) == searchable_text(entries)(id) by {
                placed_right(entries, id as int);
                if let Some(k) = place(entries, id as int) {
                    assert(row_ids(entries)[k] == id);
                }
            }
        }
    }

    /// The entries whose text matches an expression.
    ///
    /// The table is in step afterwards, or, where SQLite refused, a new one will
    /// be made of every entry.
    fn found_by(&mut self, expression: &str) -> (ids: Result<Vec<i64>, String>)
        requires
            old(self).well_formed(),
            search::asks_for_text(expression@),
        ensures
            final(self).well_formed(),
            final(self)@ == old(self)@,
            match ids {
                Ok(ids) => {
                    &&& final(self).search.behind().len() == 0
                    &&& forall|id: i64| #[trigger]
                        ids@.contains(id) <==> (body_at(
                            old(self)@.entries,
                            id as int,
                        ) matches Some(body) && search::fts5_matches(expression@, body))
                },
                Err(_) => {
                    &&& final(self).search.behind() == row_ids(old(self)@.entries)
                    &&& final(self).search.rows() == Map::<i64, Seq<char>>::empty()
                },
            },
    {
        match self.catch_up() {
            Ok(()) => {},
            Err(error) => {
                self.forget_table();
                return Err(error);
            },
        }
        let ghost entries = self@.entries;
        let ghost follower = self.search;
        match self.search.matching(expression) {
            Ok(ids) => {
                proof {
                    assert forall|id: i64| #[trigger]
                        ids@.contains(id) <==> (body_at(entries, id as int) matches Some(body)
                            && search::fts5_matches(expression@, body)) by {
                        assert(!follower.behind().contains(id));
                        assert(search::held(follower.rows(), id) == searchable_text(entries)(id));
                    }
                }
                Ok(ids)
            },
            Err(error) => {
                self.forget_table();
                Err(error)
            },
        }
    }

    /// Entries for one window of the UI's list, pinned first and newest first.
    ///
    /// Only a search can fail: where nothing is searched for the answer is
    /// always a list.
    pub fn list(
        &mut self,
        limit: u32,
        before: Option<i64>,
        query: Option<&str>,
        only: Option<kind::Kind>,
    ) -> (items: Result<Vec<proto::Summary>, String>)
        requires
            old(self).well_formed(),
        ensures
            final(self).well_formed(),
            final(self)@ == old(self)@,
            items matches Ok(items) ==> proto::summaries(items@) == summaries_of(
                listed(old(self)@.entries, limit, before, text::optional_slice(query), only),
            ),
            items is Err ==> (query matches Some(typed) && search::expression(typed@).len() > 0),
    {
        let ghost entries = self@.entries;
        let matching: Option<Vec<i64>> = match query {
            Some(typed) => {
                let expression = search::fts_query(typed);
                proof {
                    search::a_search_asks_for_text(typed@);
                }
                if expression.as_str().is_empty() {
                    None
                } else {
                    match self.found_by(expression.as_str()) {
                        Ok(ids) => Some(ids),
                        Err(error) => {
                            return Err(error);
                        },
                    }
                }
            },
            None => None,
        };
        let found: Option<&[i64]> = match &matching {
            Some(ids) => Some(ids.as_slice()),
            None => None,
        };
        proof {
            let test = asked_for(before, text::optional_slice(query), only);
            let among = asked_among(before, found_ids(found), only);
            assert forall|i: int| 0 <= i < entries.len() implies test(#[trigger] entries[i])
                == among(entries[i]) by {
                let id: i64 = self.entries@[i].id;
                assert(entries[i] == self.entries@[i]@);
                placed_only(entries, i);
                if let Some(ids) = found_ids(found) {
                    assert(ids.contains(id) <==> (body_at(entries, id as int) matches Some(body)
                        && search::fts5_matches(search::expression(query->0@), body)));
                }
            }
            filters_agree(entries, test, among);
        }
        Ok(self.list_found(limit, before, found, only))
    }

    /// The same window, given the entries a search found, or none where nothing
    /// was searched for.
    pub fn list_found(
        &self,
        limit: u32,
        before: Option<i64>,
        found: Option<&[i64]>,
        only: Option<kind::Kind>,
    ) -> (items: Vec<proto::Summary>)
        ensures
            proto::summaries(items@) == summaries_of(
                listed_among(self@.entries, limit, before, found_ids(found), only),
            ),
            sound(self@) ==> forall|k: int|
                0 <= k < items@.len() ==> {
                    &&& only matches Some(kind) ==> kind::named((#[trigger] items@[k]).kind@)
                        == Some(kind)
                    &&& before matches Some(id) ==> items@[k].id < id
                },
    {
        let ghost entries = self@.entries;
        let room: usize = if limit > MAX_LIMIT {
            MAX_LIMIT as usize
        } else {
            limit as usize
        };
        let ghost test = asked_among(before, found_ids(found), only);
        let ghost ahead = listing_order();
        let mut shown: Vec<usize> = Vec::new();
        let mut i: usize = 0;
        proof {
            reveal(Seq::filter);
            assert(chosen(shown@, entries) =~= order::cut(
                order::ranked(entries.take(0).filter(test), ahead),
                room as int,
            ));
        }
        while i < self.entries.len()
            invariant
                i <= self.entries.len(),
                self@.entries == entries,
                room == window(limit),
                test == asked_among(before, found_ids(found), only),
                ahead == listing_order(),
                shown.len() <= room,
                forall|k: int| 0 <= k < shown@.len() ==> (#[trigger] shown@[k]) < i,
                chosen(shown@, entries) == order::cut(
                    order::ranked(entries.take(i as int).filter(test), ahead),
                    room as int,
                ),
            decreases self.entries.len() - i,
        {
            let record = &self.entries[i];
            let ghost entry = entries[i as int];
            let wanted: bool = (match before {
                Some(id) => record.id < id,
                None => true,
            }) && (match only {
                Some(kind) => record.kind == kind,
                None => true,
            }) && (match found {
                Some(ids) => holds(ids, record.id),
                None => true,
            });
            proof {
                assert(wanted == test(entry));
                reveal(Seq::filter);
                assert(entries.take(i as int + 1).drop_last() =~= entries.take(i as int));
                assert(entries.take(i as int + 1).last() == entry);
                let seen = entries.take(i as int).filter(test);
                assert(entries.take(i as int + 1).filter(test) == (if wanted {
                    seen.push(entry)
                } else {
                    seen
                }));
                assert(seen.push(entry).drop_last() =~= seen);
            }
            if wanted {
                let ghost line = chosen(shown@, entries);
                let mut slot: usize = 0;
                while slot < shown.len() && !listed_before(record, &self.entries[shown[slot]])
                    invariant
                        slot <= shown.len(),
                        i < self.entries.len(),
                        self@.entries == entries,
                        record@ == entry,
                        line == chosen(shown@, entries),
                        ahead == listing_order(),
                        forall|k: int| 0 <= k < shown@.len() ==> (#[trigger] shown@[k]) < i,
                        forall|k: int| 0 <= k < slot ==> !ahead(entry, #[trigger] line[k]),
                    decreases shown.len() - slot,
                {
                    slot += 1;
                }
                proof {
                    if slot < shown.len() {
                        assert(line[slot as int] == self.entries@[shown@[slot as int] as int]@);
                    }
                    order::slot_is_only(line, entry, ahead, slot as int);
                    order::placing_in_a_cut_line(
                        order::ranked(entries.take(i as int).filter(test), ahead),
                        entry,
                        ahead,
                        room as int,
                    );
                }
                shown.insert(slot, i);
                assert(chosen(shown@, entries) =~= order::placed(line, entry, ahead));
                if shown.len() > room {
                    let ghost longer = chosen(shown@, entries);
                    shown.pop();
                    assert(chosen(shown@, entries) =~= longer.take(room as int));
                }
                assert(chosen(shown@, entries) =~= order::cut(
                    order::placed(line, entry, ahead),
                    room as int,
                ));
            }
            i += 1;
        }
        assert(entries.take(entries.len() as int) =~= entries);
        let mut items: Vec<proto::Summary> = Vec::new();
        let mut n: usize = 0;
        let ghost chose = chosen(shown@, entries);
        while n < shown.len()
            invariant
                n <= shown.len(),
                self@.entries == entries,
                chose == chosen(shown@, entries),
                forall|k: int| 0 <= k < shown@.len() ==> (#[trigger] shown@[k]) < entries.len(),
                proto::summaries(items@) == summaries_of(chose).take(n as int),
            decreases shown.len() - n,
        {
            let ghost said = proto::summaries(items@);
            let record = &self.entries[shown[n]];
            assert(record@ == chose[n as int]);
            items.push(summarize(record));
            assert(proto::summaries(items@) =~= said.push(summary_of(chose[n as int])));
            assert(proto::summaries(items@) =~= summaries_of(chose).take(n as int + 1));
            n += 1;
        }
        assert(proto::summaries(items@) =~= summaries_of(chose));
        proof {
            if sound(self@) {
                let listed = listed_among(entries, limit, before, found_ids(found), only);
                laws::a_list_shows_exactly_what_is_asked_of_it(
                    entries,
                    limit,
                    before,
                    found_ids(found),
                    only,
                );
                assert forall|k: int| 0 <= k < items@.len() implies {
                    &&& only matches Some(kind) ==> kind::named((#[trigger] items@[k]).kind@)
                        == Some(kind)
                    &&& before matches Some(id) ==> items@[k].id < id
                } by {
                    laws::a_row_tells_of_its_entry(listed, k);
                    assert(proto::summaries(items@)[k] == items@[k]@);
                    assert(entries.contains(listed[k]));
                }
            }
        }
        items
    }
}

/// The entries at some places.
pub open spec fn chosen(places: Seq<usize>, entries: Seq<RecordView>) -> Seq<RecordView> {
    Seq::new(places.len(), |k: int| entries[places[k] as int])
}

/// Whether one entry is listed before another.
fn listed_before(a: &Record, b: &Record) -> (answer: bool)
    ensures
        answer == listing_order()(a@, b@),
{
    if a.pinned != b.pinned {
        a.pinned
    } else if a.at != b.at {
        a.at > b.at
    } else {
        a.id > b.id
    }
}

/// Whether some ids hold one.
fn holds(ids: &[i64], id: i64) -> (answer: bool)
    ensures
        answer == ids@.contains(id),
{
    let mut i: usize = 0;
    while i < ids.len()
        invariant
            i <= ids.len(),
            forall|k: int| 0 <= k < i ==> ids@[k] != id,
        decreases ids.len() - i,
    {
        if ids[i] == id {
            return true;
        }
        i += 1;
    }
    false
}

/// An answer to a lookup as the contracts speak of it.
pub open spec fn location(part: Option<(String, String, u64)>) -> Option<PartView> {
    match part {
        Some((mime, digest, bytes)) => Some(
            PartView { mime: mime@, digest: digest@, bytes: bytes as nat },
        ),
        None => None,
    }
}

/// A place further on.
pub open spec fn shifted(place: Option<int>, by: int) -> Option<int> {
    match place {
        Some(i) => Some(i + by),
        None => None,
    }
}

/// The digests of some blobs.
pub open spec fn blob_digests(blobs: Seq<ledger::BlobView>) -> Seq<Seq<char>> {
    Seq::new(blobs.len(), |i: int| blobs[i].digest)
}

/// Rising ids keep up with the number of entries.
proof fn ids_reach(entries: Seq<RecordView>)
    requires
        rising(entries),
    ensures
        entries.len() <= i64::MAX,
        entries.len() > 0 ==> entries.last().id >= entries.len(),
    decreases entries.len(),
{
    if entries.len() > 1 {
        let front = entries.drop_last();
        assert forall|i: int, j: int| 0 <= i < j < front.len() implies (#[trigger] front[i]).id < (
        #[trigger] front[j]).id by {
            assert(entries[i].id < entries[j].id);
        }
        assert forall|i: int| 0 <= i < front.len() implies 1 <= (#[trigger] front[i]).id
            <= i64::MAX by {
            assert(1 <= entries[i].id);
        }
        ids_reach(front);
        assert(entries[entries.len() - 2].id < entries[entries.len() - 1].id);
    } else if entries.len() == 1 {
        assert(entries[0].id >= 1);
    }
}

/// What the UI is told of an entry.
fn summarize(record: &Record) -> (summary: proto::Summary)
    ensures
        summary@ == summary_of(record@),
{
    let mut mimes: Vec<String> = Vec::new();
    let mut i: usize = 0;
    while i < record.parts.len()
        invariant
            i <= record.parts.len(),
            text::contents(mimes@) == mimes_of(record@.parts).take(i as int),
        decreases record.parts.len() - i,
    {
        let ghost before = text::contents(mimes@);
        mimes.push(record.parts[i].mime.clone());
        assert(text::contents(mimes@) =~= before.push(record.parts@[i as int].mime@));
        assert(text::contents(mimes@) =~= mimes_of(record@.parts).take(i as int + 1));
        i += 1;
    }
    assert(text::contents(mimes@) =~= mimes_of(record@.parts));
    proto::Summary {
        id: record.id,
        kind: record.kind.as_str(),
        mimes,
        bytes: record.bytes,
        preview: record.preview.clone(),
        width: record.width,
        height: record.height,
        thumb: record.thumb.is_some(),
        pinned: record.pinned,
        source: record.source.clone(),
        at: record.at,
    }
}

/// Some ids as the contracts speak of them.
pub open spec fn ids(numbers: Seq<i64>) -> Seq<int> {
    Seq::new(numbers.len(), |i: int| numbers[i] as int)
}

/// The first entry that is not pinned is where the pinned front ends.
proof fn pinned_front_is(entries: Seq<RecordView>, i: int)
    requires
        0 <= i <= entries.len(),
        forall|k: int| 0 <= k < i ==> (#[trigger] entries[k]).pinned,
        i < entries.len() ==> !entries[i].pinned,
    ensures
        pinned_front(entries) == i,
    decreases entries.len(),
{
    if i > 0 {
        let rest = entries.drop_first();
        assert(entries[0].pinned);
        assert forall|k: int| 0 <= k < i - 1 implies (#[trigger] rest[k]).pinned by {
            assert(entries[k + 1].pinned);
        }
        pinned_front_is(rest, i - 1);
    }
}

/// Removing one entry moves no other.
pub proof fn found_without(entries: Seq<RecordView>, i: int, id: int)
    requires
        rising(entries),
        0 <= i < entries.len(),
        id != entries[i].id,
    ensures
        entry_at(entries.remove(i), id) == entry_at(entries, id),
        body_at(entries.remove(i), id) == body_at(entries, id),
{
    let fewer = entries.remove(i);
    placed_right(entries, id);
    placed_right(fewer, id);
    match place(fewer, id) {
        Some(k) => {
            let c = if k < i {
                k
            } else {
                k + 1
            };
            assert(entries[c] == fewer[k]);
            placed_only(entries, c);
        },
        None => {
            if let Some(c) = place(entries, id) {
                let k = if c < i {
                    c
                } else {
                    c - 1
                };
                assert(fewer[k] == entries[c]);
            }
        },
    }
}

/// A table that is in step stays so when one entry is noted and the text of no
/// other changes.
proof fn still_followed(
    before: search::Search,
    after: search::Search,
    old_entries: Seq<RecordView>,
    new_entries: Seq<RecordView>,
    id: i64,
)
    requires
        before.follows(searchable_text(old_entries)),
        after.rows() == before.rows(),
        after.behind() == before.behind().push(id),
        forall|other: int|
            other != id ==> #[trigger] body_at(new_entries, other) == body_at(old_entries, other),
    ensures
        after.follows(searchable_text(new_entries)),
{
    assert forall|other: i64| !after.behind().contains(other) implies #[trigger] search::held(
        after.rows(),
        other,
    ) == searchable_text(new_entries)(other) by {
        if before.behind().contains(other) {
            let k = choose|k: int|
                0 <= k < before.behind().len() && before.behind()[k] == other;
            assert(after.behind()[k] == other);
        }
        if other == id {
            assert(after.behind()[before.behind().len() as int] == id);
        }
        assert(search::held(before.rows(), other) == searchable_text(old_entries)(other));
        assert(body_at(new_entries, other as int) == body_at(old_entries, other as int));
    }
}

/// One row for each of some blobs.
pub open spec fn blob_changes(digests: Seq<Seq<char>>) -> Seq<ChangeView> {
    Seq::new(digests.len(), |i: int| ChangeView::Blob(digests[i]))
}

proof fn one_more_use(before: IndexView, new: Seq<ledger::Use>, i: int)
    requires
        0 <= i < new.len(),
    ensures
        ledger::all_referenced(before.blobs, new.take(i + 1)) == ledger::referenced(
            ledger::all_referenced(before.blobs, new.take(i)),
            new[i].0,
            new[i].1,
        ),
        blob_changes(ledger::digests(new.take(i + 1))) == blob_changes(
            ledger::digests(new.take(i)),
        ).push(ChangeView::Blob(new[i].0)),
{
    assert(new.take(i + 1).drop_last() =~= new.take(i));
    assert(blob_changes(ledger::digests(new.take(i + 1))) =~= blob_changes(
        ledger::digests(new.take(i)),
    ).push(ChangeView::Blob(new[i].0)));
}

/// Changing other fields of an entry moves no searchable text.
proof fn bodies_unmoved(entries: Seq<RecordView>, i: int, entry: RecordView)
    requires
        0 <= i < entries.len(),
        entry.id == entries[i].id,
        entry.body == entries[i].body,
    ensures
        forall|id: int| #[trigger] body_at(entries.update(i, entry), id) == body_at(entries, id),
        searchable_text(entries.update(i, entry)) == searchable_text(entries),
    decreases entries.len(),
{
    let changed = entries.update(i, entry);
    if i == entries.len() - 1 {
        assert(changed.drop_last() =~= entries.drop_last());
    } else {
        bodies_unmoved(entries.drop_last(), i, entry);
        assert(changed.drop_last() =~= entries.drop_last().update(i, entry));
    }
    assert forall|id: int| #[trigger] body_at(changed, id) == body_at(entries, id) by {
        placed_right(changed, id);
        placed_right(entries, id);
        let front = entries.drop_last();
        if entries.last().id != id {
            placed_right(front, id);
            placed_right(changed.drop_last(), id);
            assert(body_at(changed.drop_last(), id) == body_at(front, id));
        }
    }
    assert(searchable_text(changed) =~= searchable_text(entries));
}

/// Whether two of some representations have one mime type.
fn has_repeat(parts: &[Part]) -> (answer: bool)
    ensures
        answer == repeats_a_mime(part_views(parts@)),
{
    let ghost all = part_views(parts@);
    let mut j: usize = 0;
    while j < parts.len()
        invariant
            j <= parts.len(),
            all == part_views(parts@),
            forall|a: int, b: int|
                0 <= a < b < j ==> (#[trigger] all[a]).mime != (#[trigger] all[b]).mime,
        decreases parts.len() - j,
    {
        let mut i: usize = 0;
        while i < j
            invariant
                i <= j < parts.len(),
                all == part_views(parts@),
                forall|a: int| 0 <= a < i ==> (#[trigger] all[a]).mime != all[j as int].mime,
            decreases j - i,
        {
            if text::same(parts[i].mime.as_str(), parts[j].mime.as_str()) {
                assert(all[i as int].mime == all[j as int].mime);
                return true;
            }
            i += 1;
        }
        j += 1;
    }
    false
}

/// Whether one representation is preferred to another.
fn preferred(a: &Part, b: &Part) -> (answer: bool)
    ensures
        answer == serving_order()(a@, b@),
{
    let left: i32 = kind::rank(a.mime.as_str());
    let right: i32 = kind::rank(b.mime.as_str());
    left < right || (left == right && text::sorts_before(a.mime.as_str(), b.mime.as_str()))
}

/// Representations in the order they are preferred.
fn serve(parts: &[Part]) -> (served: Vec<Part>)
    ensures
        part_views(served@) == serving(part_views(parts@)),
{
    let ghost all = part_views(parts@);
    let ghost ahead = serving_order();
    let mut served: Vec<Part> = Vec::new();
    let mut i: usize = 0;
    assert(part_views(served@) =~= order::ranked(all.take(0), ahead));
    while i < parts.len()
        invariant
            i <= parts.len(),
            all == part_views(parts@),
            ahead == serving_order(),
            part_views(served@) == order::ranked(all.take(i as int), ahead),
        decreases parts.len() - i,
    {
        let ghost line = part_views(served@);
        let ghost item = all[i as int];
        let mut slot: usize = 0;
        while slot < served.len() && !preferred(&parts[i], &served[slot])
            invariant
                slot <= served.len(),
                i < parts.len(),
                line == part_views(served@),
                item == parts@[i as int]@,
                ahead == serving_order(),
                forall|k: int| 0 <= k < slot ==> !ahead(item, #[trigger] line[k]),
            decreases served.len() - slot,
        {
            slot += 1;
        }
        proof {
            order::slot_is_only(line, item, ahead, slot as int);
            assert(all.take(i as int + 1).drop_last() =~= all.take(i as int));
        }
        served.insert(slot, parts[i].duplicate());
        assert(part_views(served@) =~= line.insert(slot as int, item));
        i += 1;
    }
    assert(all.take(all.len() as int) =~= all);
    served
}

/// The kind of an entry holding some representations.
fn kind_of(parts: &[Part], preview: &Option<String>) -> (kind: kind::Kind)
    ensures
        kind == kind::presented(mimes_of(part_views(parts@)), text::optional(*preview)),
{
    let mut mimes: Vec<&str> = Vec::new();
    let mut i: usize = 0;
    while i < parts.len()
        invariant
            i <= parts.len(),
            kind::texts(mimes@) == mimes_of(part_views(parts@)).take(i as int),
        decreases parts.len() - i,
    {
        let ghost before = kind::texts(mimes@);
        mimes.push(parts[i].mime.as_str());
        assert(kind::texts(mimes@) =~= before.push(parts@[i as int].mime@));
        assert(kind::texts(mimes@) =~= mimes_of(part_views(parts@)).take(i as int + 1));
        i += 1;
    }
    assert(kind::texts(mimes@) =~= mimes_of(part_views(parts@)));
    let sample: Option<&str> = match preview {
        Some(preview) => Some(preview.as_str()),
        None => None,
    };
    kind::classify(&mimes, sample)
}

proof fn weight_of_front(uses: Seq<ledger::Use>, count: int)
    requires
        0 <= count <= uses.len(),
    ensures
        ledger::weight(uses.take(count)) <= ledger::weight(uses),
    decreases uses.len(),
{
    if count < uses.len() {
        weight_of_front(uses.drop_last(), count);
        assert(uses.drop_last().take(count) =~= uses.take(count));
    } else {
        assert(uses.take(count) =~= uses);
    }
}

/// The bytes of some representations together, where they can be counted.
fn checked_sum(parts: &Vec<Part>) -> (bytes: Option<u64>)
    ensures
        match bytes {
            Some(bytes) => bytes == ledger::weight(new_uses(part_views(parts@), None)) && bytes
                <= ledger::MOST_BYTES,
            None => ledger::weight(new_uses(part_views(parts@), None)) > ledger::MOST_BYTES,
        },
{
    let ghost all = new_uses(part_views(parts@), None);
    let mut bytes: u64 = 0;
    let mut i: usize = 0;
    while i < parts.len()
        invariant
            i <= parts.len(),
            all == new_uses(part_views(parts@), None),
            bytes == ledger::weight(all.take(i as int)),
            bytes <= ledger::MOST_BYTES,
        decreases parts.len() - i,
    {
        let more: u64 = parts[i].bytes;
        proof {
            assert(all.take(i as int + 1).drop_last() =~= all.take(i as int));
            assert(all.take(i as int + 1).last().1 == more);
            weight_of_front(all, i as int + 1);
        }
        if more > ledger::MOST_BYTES - bytes {
            return None;
        }
        bytes += more;
        i += 1;
    }
    assert(all.take(all.len() as int) =~= all);
    Some(bytes)
}

/// The bytes of some representations together.
fn sum(parts: &Vec<Part>) -> (bytes: u64)
    requires
        ledger::weight(new_uses(part_views(parts@), None)) <= ledger::MOST_BYTES,
    ensures
        bytes == ledger::weight(new_uses(part_views(parts@), None)),
        bytes <= ledger::MOST_BYTES,
{
    match checked_sum(parts) {
        Some(bytes) => bytes,
        None => 0,
    }
}

/// Whether some representations and a thumbnail can be accounted for.
fn room_for(blobs: &ledger::Ledger, parts: &Vec<Part>, thumb: &Option<Part>) -> (answer: bool)
    requires
        ledger::sound(blobs@),
    ensures
        answer == ledger::has_room(
            blobs@,
            new_uses(
                part_views(parts@),
                optional_part(*thumb),
            ),
        ),
{
    let ghost plain = new_uses(part_views(parts@), None);
    let ghost all = new_uses(
        part_views(parts@),
        optional_part(*thumb),
    );
    let held: u64 = blobs.total() as u64;
    let mut bytes: u64 = match checked_sum(parts) {
        Some(bytes) => bytes,
        None => {
            proof {
                if thumb is Some {
                    assert(all.drop_last() =~= plain);
                }
            }
            return false;
        },
    };
    let mut count: u64 = parts.len() as u64;
    if let Some(thumb) = thumb {
        assert(all.drop_last() =~= plain);
        if thumb.bytes > ledger::MOST_BYTES - bytes {
            return false;
        }
        bytes += thumb.bytes;
        if count == u64::MAX {
            return false;
        }
        count += 1;
    }
    assert(bytes == ledger::weight(all));
    assert(count == all.len());
    bytes <= ledger::MOST_BYTES - held && blobs.countable(count)
}

} // verus!
