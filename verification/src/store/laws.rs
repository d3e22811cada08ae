//! What the operations on the index promise together.

use crate::kind;
use crate::order;
use crate::store::index;
use crate::store::ledger;
use crate::store::search;
use crate::text;
use vstd::prelude::*;

verus! {

// ---------------------------------------------------------------------------
// Counting references
// ---------------------------------------------------------------------------

/// An entry's references are part of all references.
proof fn references_removed(entries: Seq<index::RecordView>, i: int, digest: Seq<char>)
    requires
        0 <= i < entries.len(),
    ensures
        index::references(entries.remove(i), digest) + ledger::count(
            index::uses(entries[i]),
            digest,
        ) == index::references(entries, digest),
    decreases entries.len(),
{
    let fewer = entries.remove(i);
    if i == entries.len() - 1 {
        assert(fewer =~= entries.drop_last());
    } else {
        references_removed(entries.drop_last(), i, digest);
        assert(fewer.drop_last() =~= entries.drop_last().remove(i));
        assert(fewer.last() == entries.last());
    }
}

proof fn references_changed(
    entries: Seq<index::RecordView>,
    i: int,
    entry: index::RecordView,
    digest: Seq<char>,
)
    requires
        0 <= i < entries.len(),
        index::uses(entry) == index::uses(entries[i]),
    ensures
        index::references(entries.update(i, entry), digest) == index::references(entries, digest),
    decreases entries.len(),
{
    let changed = entries.update(i, entry);
    if i == entries.len() - 1 {
        assert(changed.drop_last() =~= entries.drop_last());
    } else {
        references_changed(entries.drop_last(), i, entry, digest);
        assert(changed.drop_last() =~= entries.drop_last().update(i, entry));
    }
}

/// Removing an entry keeps the index sound and never takes more room. The
/// digests it orphans are exactly those something pointed at before and nothing
/// points at any more, each named once.
pub proof fn removing_an_entry(before: index::IndexView, i: int)
    requires
        index::sound(before),
        0 <= i < before.entries.len(),
    ensures
        index::sound(index::removed_at(before, i)),
        ledger::total(index::removed_at(before, i).blobs) <= ledger::total(before.blobs),
        forall|digest: Seq<char>| #[trigger]
            index::orphans_at(before, i).contains(digest) <==> index::references(
                before.entries,
                digest,
            ) > 0 && index::references(index::removed_at(before, i).entries, digest) == 0,
        index::orphans_at(before, i).no_duplicates(),
        forall|digest: Seq<char>| #[trigger]
            index::references(index::removed_at(before, i).entries, digest) <= index::references(
                before.entries,
                digest,
            ),
{
    let after = index::removed_at(before, i);
    let gone = index::uses(before.entries[i]);
    assert forall|d: Seq<char>| #[trigger]
        ledger::count(gone, d) <= ledger::refs_of(before.blobs, d) by {
        references_removed(before.entries, i, d);
    }
    ledger::releasing_all(before.blobs, gone);
    assert forall|d: Seq<char>| #[trigger]
        ledger::refs_of(after.blobs, d) == index::references(after.entries, d) by {
        references_removed(before.entries, i, d);
        assert(ledger::refs_of(before.blobs, d) == index::references(before.entries, d));
    }
    assert forall|d: Seq<char>| #[trigger]
        index::orphans_at(before, i).contains(d) <==> index::references(before.entries, d) > 0
        && index::references(after.entries, d) == 0 by {
        references_removed(before.entries, i, d);
        assert(ledger::refs_of(before.blobs, d) == index::references(before.entries, d));
    }
    assert forall|d: Seq<char>| #[trigger]
        index::references(after.entries, d) <= index::references(before.entries, d) by {
        references_removed(before.entries, i, d);
    }
    entries_removed(before.entries, i);
}

proof fn entries_removed(entries: Seq<index::RecordView>, i: int)
    requires
        index::rising(entries),
        index::identities_differ(entries),
        index::parts_served(entries),
        0 <= i < entries.len(),
    ensures
        index::rising(entries.remove(i)),
        index::identities_differ(entries.remove(i)),
        index::parts_served(entries.remove(i)),
{
    let fewer = entries.remove(i);
    assert forall|a: int| 0 <= a < fewer.len() implies 1 <= (#[trigger] fewer[a]).id <= i64::MAX
        && order::in_order(fewer[a].parts, index::serving_order()) by {
        let c = if a < i {
            a
        } else {
            a + 1
        };
        assert(fewer[a] == entries[c]);
    }
    assert forall|a: int, b: int| 0 <= a < b < fewer.len() implies (#[trigger] fewer[a]).id < (
    #[trigger] fewer[b]).id && fewer[a].identity != fewer[b].identity by {
        let c = if a < i {
            a
        } else {
            a + 1
        };
        let d = if b < i {
            b
        } else {
            b + 1
        };
        assert(fewer[a] == entries[c] && fewer[b] == entries[d]);
    }
}

/// Changing when an entry was copied, or whether it is pinned, keeps the index
/// sound and moves nothing else.
pub proof fn changing_an_entry(before: index::IndexView, i: int, entry: index::RecordView)
    requires
        index::sound(before),
        0 <= i < before.entries.len(),
        entry == (index::RecordView {
            at: entry.at,
            pinned: entry.pinned,
            ..before.entries[i]
        }),
    ensures
        index::sound(index::changed_at(before, i, entry)),
{
    let after = index::changed_at(before, i, entry);
    assert forall|d: Seq<char>| #[trigger]
        ledger::refs_of(after.blobs, d) == index::references(after.entries, d) by {
        references_changed(before.entries, i, entry, d);
        assert(ledger::refs_of(before.blobs, d) == index::references(before.entries, d));
    }
    assert forall|a: int, b: int| 0 <= a < b < after.entries.len() implies (
    #[trigger] after.entries[a]).id < (#[trigger] after.entries[b]).id && after.entries[a].identity
        != after.entries[b].identity by {
        assert(before.entries[a].id < before.entries[b].id);
    }
}

// ---------------------------------------------------------------------------
// Order
// ---------------------------------------------------------------------------

/// Representations with different mime types are put in one order.
pub proof fn serving_is_in_order(parts: Seq<index::PartView>)
    requires
        !index::repeats_a_mime(parts),
    ensures
        order::in_order(index::serving(parts), index::serving_order()),
        index::serving(parts).to_multiset() == parts.to_multiset(),
{
    let ahead = index::serving_order();
    assert forall|a: index::PartView, b: index::PartView, c: index::PartView| #[trigger]
        ahead(a, b) && #[trigger] ahead(b, c) implies ahead(a, c) by {
        if text::before(a.mime, b.mime) && text::before(b.mime, c.mime) {
            text::before_transitive(a.mime, b.mime, c.mime);
        }
    }
    assert forall|i: int, j: int| 0 <= i < j < parts.len() implies #[trigger] ahead(
        parts[i],
        parts[j],
    ) || ahead(parts[j], parts[i]) by {
        text::before_total(parts[i].mime, parts[j].mime);
    }
    order::ranking_puts_in_order(parts, ahead);
    order::ranking_keeps_the_items(parts, ahead);
}

/// Adding an entry with an id above all others, an identity of its own and its
/// representations in order keeps the index sound.
pub proof fn adding_an_entry(
    before: index::IndexView,
    entry: index::RecordView,
    new: Seq<ledger::Use>,
    changes: Seq<index::ChangeView>,
)
    requires
        index::sound(before),
        index::next_id(before.entries) <= entry.id <= i64::MAX,
        index::identity_place(before.entries, entry.identity) is None,
        order::in_order(entry.parts, index::serving_order()),
        ledger::has_room(before.blobs, new),
        ledger::digests(new) == index::uses(entry),
    ensures
        index::sound(
            (index::IndexView {
                entries: before.entries.push(entry),
                blobs: ledger::all_referenced(before.blobs, new),
                changes,
            }),
        ),
{
    let after = index::IndexView {
        entries: before.entries.push(entry),
        blobs: ledger::all_referenced(before.blobs, new),
        changes,
    };
    index::identity_placed_right(before.entries, entry.identity);
    ledger::referencing_all(before.blobs, new);
    assert(after.entries.drop_last() =~= before.entries);
    assert forall|d: Seq<char>| #[trigger]
        ledger::refs_of(after.blobs, d) == index::references(after.entries, d) by {
        assert(ledger::refs_of(before.blobs, d) == index::references(before.entries, d));
    }
    assert forall|i: int, j: int| 0 <= i < j < after.entries.len() implies (
    #[trigger] after.entries[i]).id < (#[trigger] after.entries[j]).id
        && after.entries[i].identity != after.entries[j].identity by {
        if j < before.entries.len() {
            assert(before.entries[i].id < before.entries[j].id);
        } else if i < before.entries.len() - 1 {
            assert(before.entries[i].id < before.entries[before.entries.len() - 1].id);
        }
    }
}

/// Recording an entry keeps the index sound.
pub proof fn recording_an_entry(
    before: index::IndexView,
    identity: Seq<char>,
    parts: Seq<index::PartView>,
    facts: index::FactsView,
    at: int,
)
    requires
        index::sound(before),
        index::refusal(before, identity, parts, facts.thumb) is None,
    ensures
        index::sound(index::inserted(before, identity, parts, facts, at)),
{
    let entry = index::new_entry(before.entries, identity, parts, facts, at);
    let new = index::new_uses(index::serving(parts), facts.thumb);
    serving_is_in_order(parts);
    assert(ledger::digests(new) =~= index::uses(entry));
    adding_an_entry(before, entry, new, before.changes + index::rows_of(entry));
}

// ---------------------------------------------------------------------------
// Orphans
// ---------------------------------------------------------------------------

/// Whether some digests are exactly those that lost their last reference
/// between two states, each named once.
pub open spec fn are_the_orphans(
    before: index::IndexView,
    after: index::IndexView,
    orphaned: Seq<Seq<char>>,
) -> bool {
    &&& forall|digest: Seq<char>| #[trigger]
        orphaned.contains(digest) <==> index::references(before.entries, digest) > 0
            && index::references(after.entries, digest) == 0
    &&& orphaned.no_duplicates()
}

/// What an entry points at is referenced.
pub proof fn what_an_entry_uses_is_referenced(
    entries: Seq<index::RecordView>,
    k: int,
    digest: Seq<char>,
)
    requires
        0 <= k < entries.len(),
        index::uses(entries[k]).contains(digest),
    ensures
        index::references(entries, digest) > 0,
{
    references_removed(entries, k, digest);
    occurring_is_counted(index::uses(entries[k]), digest);
}

proof fn occurring_is_counted(digests: Seq<Seq<char>>, digest: Seq<char>)
    requires
        digests.contains(digest),
    ensures
        ledger::count(digests, digest) > 0,
    decreases digests.len(),
{
    if digests.last() != digest {
        let i = choose|i: int| 0 <= i < digests.len() && digests[i] == digest;
        assert(digests.drop_last()[i] == digest);
        occurring_is_counted(digests.drop_last(), digest);
    }
}

/// A digest nothing points at belongs to no blob the index holds.
pub proof fn an_orphan_is_no_blob(index: index::IndexView, digest: Seq<char>)
    requires
        index::sound(index),
        index::references(index.entries, digest) == 0,
    ensures
        ledger::find(index.blobs, digest) is None,
{
    assert(ledger::refs_of(index.blobs, digest) == index::references(index.entries, digest));
    ledger::found(index.blobs, digest);
}

/// A blob that two entries share survives the removal of either, and goes with
/// the removal of both.
pub proof fn a_shared_blob_survives_until_its_last_entry_goes(
    before: index::IndexView,
    first: int,
    second: int,
    digest: Seq<char>,
)
    requires
        index::sound(before),
        0 <= first < before.entries.len(),
        0 <= second < before.entries.len(),
        first != second,
        index::uses(before.entries[first]).contains(digest),
        index::uses(before.entries[second]).contains(digest),
        index::references(before.entries, digest) == ledger::count(
            index::uses(before.entries[first]),
            digest,
        ) + ledger::count(index::uses(before.entries[second]), digest),
    ensures
        !index::orphans(before, before.entries[first].id).contains(digest),
        index::orphans(
            index::removed(before, before.entries[first].id),
            before.entries[second].id,
        ).contains(digest),
{
    let id = before.entries[first].id;
    let other = before.entries[second].id;
    index::placed_only(before.entries, first);
    removing_an_entry(before, first);
    references_removed(before.entries, first, digest);
    occurs(index::uses(before.entries[second]), digest);
    occurs(index::uses(before.entries[first]), digest);
    let middle = index::removed(before, id);
    assert(middle == index::removed_at(before, first));
    let k = if second < first {
        second
    } else {
        second - 1
    };
    assert(middle.entries[k] == before.entries[second]);
    index::placed_only(middle.entries, k);
    removing_an_entry(middle, k);
    references_removed(middle.entries, k, digest);
    assert(index::orphans(before, id).contains(digest) <==> index::references(
        before.entries,
        digest,
    ) > 0 && index::references(middle.entries, digest) == 0);
    let end = index::removed_at(middle, k);
    assert(index::orphans_at(middle, k).contains(digest) <==> index::references(
        middle.entries,
        digest,
    ) > 0 && index::references(end.entries, digest) == 0);
}

/// What occurs is counted.
proof fn occurs(digests: Seq<Seq<char>>, digest: Seq<char>)
    requires
        digests.contains(digest),
    ensures
        ledger::count(digests, digest) > 0,
    decreases digests.len(),
{
    let k = choose|k: int| 0 <= k < digests.len() && digests[k] == digest;
    if digests.last() != digest {
        assert(digests.drop_last()[k] == digest);
        occurs(digests.drop_last(), digest);
    }
}

/// Removing one entry orphans exactly what only it pointed at.
pub proof fn removal_orphans_what_nothing_points_at(before: index::IndexView, id: int)
    requires
        index::sound(before),
    ensures
        index::sound(index::removed(before, id)),
        are_the_orphans(before, index::removed(before, id), index::orphans(before, id)),
        index::place(index::removed(before, id).entries, id) is None,
{
    index::placed_right(before.entries, id);
    match index::place(before.entries, id) {
        Some(i) => {
            removing_an_entry(before, i);
            let after = index::removed_at(before, i);
            index::placed_right(after.entries, id);
            if let Some(k) = index::place(after.entries, id) {
                let c = if k < i {
                    k
                } else {
                    k + 1
                };
                assert(before.entries[c] == after.entries[k]);
            }
        },
        None => {},
    }
}

// ---------------------------------------------------------------------------
// Clearing
// ---------------------------------------------------------------------------

/// The test for what a clear keeps.
pub open spec fn kept() -> spec_fn(index::RecordView) -> bool {
    |entry: index::RecordView| entry.pinned
}

proof fn pinned_front_reaches(entries: Seq<index::RecordView>)
    ensures
        0 <= index::pinned_front(entries) <= entries.len(),
        forall|k: int| 0 <= k < index::pinned_front(entries) ==> (#[trigger] entries[k]).pinned,
        index::pinned_front(entries) < entries.len()
            ==> !entries[index::pinned_front(entries)].pinned,
    decreases entries.len(),
{
    if entries.len() > 0 && entries[0].pinned {
        let rest = entries.drop_first();
        pinned_front_reaches(rest);
        let n = index::pinned_front(entries);
        assert forall|k: int| 0 <= k < n implies (#[trigger] entries[k]).pinned by {
            if k > 0 {
                assert(rest[k - 1].pinned);
            }
        }
        if n < entries.len() {
            assert(rest[n - 1] == entries[n]);
        }
    }
}

proof fn filter_without(entries: Seq<index::RecordView>, i: int)
    requires
        0 <= i < entries.len(),
        !entries[i].pinned,
    ensures
        entries.remove(i).filter(kept()) == entries.filter(kept()),
    decreases entries.len(),
{
    reveal(Seq::filter);
    let fewer = entries.remove(i);
    if i == entries.len() - 1 {
        assert(fewer =~= entries.drop_last());
    } else {
        filter_without(entries.drop_last(), i);
        assert(fewer.drop_last() =~= entries.drop_last().remove(i));
        assert(fewer.last() == entries.last());
    }
}

proof fn filter_of_kept(entries: Seq<index::RecordView>)
    requires
        forall|k: int| 0 <= k < entries.len() ==> (#[trigger] entries[k]).pinned,
    ensures
        entries.filter(kept()) == entries,
    decreases entries.len(),
{
    reveal(Seq::filter);
    if entries.len() > 0 {
        filter_of_kept(entries.drop_last());
        assert(entries.drop_last().push(entries.last()) =~= entries);
    }
}

/// Clearing keeps exactly what is pinned, as it was, and orphans exactly what
/// nothing points at any more.
pub proof fn clearing_keeps_what_was_pinned(before: index::IndexView)
    requires
        index::sound(before),
    ensures
        index::cleared(before).0.entries == before.entries.filter(kept()),
        index::sound(index::cleared(before).0),
        are_the_orphans(before, index::cleared(before).0, index::cleared(before).1),
        forall|digest: Seq<char>| #[trigger]
            index::references(index::cleared(before).0.entries, digest) <= index::references(
                before.entries,
                digest,
            ),
    decreases before.entries.len(),
{
    let i = index::pinned_front(before.entries);
    pinned_front_reaches(before.entries);
    if i < before.entries.len() {
        let middle = index::removed_at(before, i);
        removing_an_entry(before, i);
        filter_without(before.entries, i);
        clearing_keeps_what_was_pinned(middle);
        orphans_add_up(
            before,
            middle,
            index::cleared(middle).0,
            index::orphans_at(before, i),
            index::cleared(middle).1,
        );
    } else {
        filter_of_kept(before.entries);
        nothing_orphaned(before);
    }
}

proof fn nothing_orphaned(before: index::IndexView)
    ensures
        are_the_orphans(before, before, Seq::empty()),
{
}

/// The orphans of two steps together, where the second only removes.
proof fn orphans_add_up(
    before: index::IndexView,
    middle: index::IndexView,
    after: index::IndexView,
    first: Seq<Seq<char>>,
    second: Seq<Seq<char>>,
)
    requires
        are_the_orphans(before, middle, first),
        are_the_orphans(middle, after, second),
        forall|d: Seq<char>| #[trigger]
            index::references(middle.entries, d) <= index::references(before.entries, d),
        forall|d: Seq<char>| #[trigger]
            index::references(after.entries, d) <= index::references(middle.entries, d),
    ensures
        are_the_orphans(before, after, first + second),
{
    let both = first + second;
    assert forall|d: Seq<char>| #[trigger] both.contains(d) <==> index::references(
        before.entries,
        d,
    ) > 0 && index::references(after.entries, d) == 0 by {
        assert(index::references(middle.entries, d) <= index::references(before.entries, d));
        assert(index::references(after.entries, d) <= index::references(middle.entries, d));
        assert(first.contains(d) <==> index::references(before.entries, d) > 0
            && index::references(middle.entries, d) == 0);
        assert(second.contains(d) <==> index::references(middle.entries, d) > 0
            && index::references(after.entries, d) == 0);
        if first.contains(d) {
            let k = choose|k: int| 0 <= k < first.len() && first[k] == d;
            assert(both[k] == d);
        }
        if second.contains(d) {
            let k = choose|k: int| 0 <= k < second.len() && second[k] == d;
            assert(both[first.len() + k] == d);
        }
        if both.contains(d) {
            let k = choose|k: int| 0 <= k < both.len() && both[k] == d;
            if k < first.len() {
                assert(first[k] == d);
            } else {
                assert(second[k - first.len()] == d);
            }
        }
    }
    assert forall|a: int, b: int| 0 <= a < both.len() && 0 <= b < both.len() && a != b implies both[a]
        != both[b] by {
        if a < first.len() && b >= first.len() {
            assert(first.contains(first[a]));
            assert(second.contains(second[b - first.len()]));
        } else if b < first.len() && a >= first.len() {
            assert(first.contains(first[b]));
            assert(second.contains(second[a - first.len()]));
        }
    }
}

// ---------------------------------------------------------------------------
// Eviction
// ---------------------------------------------------------------------------

/// Whether one entry is older than another.
pub open spec fn older(a: index::RecordView, b: index::RecordView) -> bool {
    a.at < b.at || (a.at == b.at && a.id < b.id)
}

/// The oldest entry is not pinned and older than every other that is not.
proof fn oldest_is_oldest(entries: Seq<index::RecordView>)
    requires
        index::rising(entries),
    ensures
        match index::oldest(entries) {
            Some(i) => 0 <= i < entries.len() && !entries[i].pinned && forall|k: int|
                0 <= k < entries.len() && k != i && !(#[trigger] entries[k]).pinned ==> older(
                    entries[i],
                    entries[k],
                ),
            None => forall|k: int| 0 <= k < entries.len() ==> (#[trigger] entries[k]).pinned,
        },
    decreases entries.len(),
{
    if entries.len() > 0 {
        let front = entries.drop_last();
        assert forall|a: int, b: int| 0 <= a < b < front.len() implies (#[trigger] front[a]).id < (
        #[trigger] front[b]).id by {
            assert(entries[a].id < entries[b].id);
        }
        assert forall|a: int| 0 <= a < front.len() implies 1 <= (#[trigger] front[a]).id
            <= i64::MAX by {
            assert(1 <= entries[a].id);
        }
        oldest_is_oldest(front);
        let last = entries.len() - 1;
        match index::oldest(entries) {
            Some(i) => {
                assert forall|k: int|
                    0 <= k < entries.len() && k != i && !(
                    #[trigger] entries[k]).pinned implies older(entries[i], entries[k]) by {
                    if k < last {
                        assert(front[k] == entries[k]);
                        if let Some(j) = index::oldest(front) {
                            assert(front[j] == entries[j]);
                            if k != j {
                                assert(older(front[j], front[k]));
                            }
                        }
                    }
                    if i < k {
                        assert(entries[i].id < entries[k].id);
                    }
                }
            },
            None => {
                assert forall|k: int| 0 <= k < entries.len() implies (#[trigger] entries[k]).pinned by {
                    if k < last {
                        assert(front[k].pinned);
                    }
                }
            },
        }
    }
}

/// The index after some entries were removed, one by one.
pub open spec fn without(before: index::IndexView, gone: Seq<int>) -> index::IndexView
    decreases gone.len(),
{
    if gone.len() == 0 {
        before
    } else {
        without(index::removed(before, gone[0]), gone.drop_first())
    }
}

/// Making room ends under the budget or with nothing unpinned left. Nothing
/// pinned goes; what goes is older than every unpinned entry that stays, and
/// goes oldest first; and nothing goes once the budget is met.
pub proof fn eviction_takes_the_oldest_and_stops_at_the_budget(
    before: index::IndexView,
    budget: int,
)
    requires
        index::sound(before),
    ensures
        ({
            let done = index::evicted(before, budget);
            &&& index::sound(done.index)
            &&& done.index == without(before, done.removed)
            &&& ledger::total(done.index.blobs) <= budget || forall|k: int|
                0 <= k < done.index.entries.len() ==> (#[trigger] done.index.entries[k]).pinned
            &&& forall|entry: index::RecordView| #[trigger]
                done.index.entries.contains(entry) <==> before.entries.contains(entry)
                    && !done.removed.contains(entry.id)
            &&& forall|n: int|
                0 <= n < done.removed.len() ==> (index::entry_at(
                    before.entries,
                    #[trigger] done.removed[n],
                ) matches Some(entry) && !entry.pinned)
            &&& forall|n: int, stays: index::RecordView|
                0 <= n < done.removed.len() && #[trigger] done.index.entries.contains(stays)
                    && !stays.pinned ==> older(
                    index::entry_at(before.entries, #[trigger] done.removed[n])->0,
                    stays,
                )
            &&& forall|m: int, n: int|
                0 <= m < n < done.removed.len() ==> older(
                    index::entry_at(before.entries, #[trigger] done.removed[m])->0,
                    index::entry_at(before.entries, #[trigger] done.removed[n])->0,
                )
            &&& forall|n: int|
                0 <= n < done.removed.len() ==> ledger::total(
                    without(before, #[trigger] done.removed.take(n)).blobs,
                ) > budget
        }),
    decreases before.entries.len(),
{
    let done = index::evicted(before, budget);
    oldest_is_oldest(before.entries);
    if ledger::total(before.blobs) <= budget || index::oldest(before.entries) is None {
        assert(without(before, done.removed) == before);
    } else {
        let i = index::oldest(before.entries)->0;
        let victim = before.entries[i];
        let middle = index::removed_at(before, i);
        removing_an_entry(before, i);
        index::placed_only(before.entries, i);
        eviction_takes_the_oldest_and_stops_at_the_budget(middle, budget);
        let rest = index::evicted(middle, budget);
        assert(done.removed.drop_first() =~= rest.removed);
        assert(done.removed[0] == victim.id);
        one_entry_less(before.entries, i);
        assert forall|n: int| 0 < n < done.removed.len() implies #[trigger] done.removed[n]
            == rest.removed[n - 1] && index::entry_at(before.entries, done.removed[n])
            == index::entry_at(middle.entries, rest.removed[n - 1]) && index::entry_at(
            middle.entries,
            rest.removed[n - 1],
        ) is Some && middle.entries.contains(
            index::entry_at(middle.entries, rest.removed[n - 1])->0,
        ) by {
            let id = rest.removed[n - 1];
            let entry = index::entry_at(middle.entries, id)->0;
            index::placed_right(middle.entries, id);
            assert(middle.entries[index::place(middle.entries, id)->0] == entry);
            assert(middle.entries.contains(entry));
            assert(before.entries.contains(entry) && entry.id != victim.id);
            let k = choose|k: int| 0 <= k < before.entries.len() && before.entries[k] == entry;
            index::placed_only(before.entries, k);
        }
        assert forall|entry: index::RecordView| #[trigger]
            done.index.entries.contains(entry) <==> before.entries.contains(entry)
            && !done.removed.contains(entry.id) by {
            assert(middle.entries.contains(entry) <==> before.entries.contains(entry) && entry.id
                != victim.id);
            assert(done.index.entries.contains(entry) <==> middle.entries.contains(entry)
                && !rest.removed.contains(entry.id));
            if done.removed.contains(entry.id) {
                let n = choose|n: int| 0 <= n < done.removed.len() && done.removed[n] == entry.id;
                if n > 0 {
                    assert(rest.removed[n - 1] == entry.id);
                }
            }
            if rest.removed.contains(entry.id) {
                let n = choose|n: int| 0 <= n < rest.removed.len() && rest.removed[n] == entry.id;
                assert(done.removed[n + 1] == entry.id);
            }
        }
        assert forall|n: int, stays: index::RecordView|
            0 <= n < done.removed.len() && #[trigger] done.index.entries.contains(stays)
                && !stays.pinned implies older(
            index::entry_at(before.entries, #[trigger] done.removed[n])->0,
            stays,
        ) by {
            assert(before.entries.contains(stays) && !done.removed.contains(stays.id));
            if n == 0 {
                let k = choose|k: int| 0 <= k < before.entries.len() && before.entries[k] == stays;
                assert(done.removed.contains(done.removed[0]));
                assert(k != i);
                assert(older(victim, before.entries[k]));
            } else {
                assert(done.removed[n] == rest.removed[n - 1]);
                assert(rest.index.entries.contains(stays));
                assert(older(index::entry_at(middle.entries, rest.removed[n - 1])->0, stays));
            }
        }
        assert forall|m: int, n: int| 0 <= m < n < done.removed.len() implies older(
            index::entry_at(before.entries, #[trigger] done.removed[m])->0,
            index::entry_at(before.entries, #[trigger] done.removed[n])->0,
        ) by {
            assert(done.removed[n] == rest.removed[n - 1]);
            let later = index::entry_at(middle.entries, rest.removed[n - 1])->0;
            if m == 0 {
                assert(middle.entries.contains(later));
                let k = choose|k: int| 0 <= k < before.entries.len() && before.entries[k] == later;
                assert(k != i);
                assert(!before.entries[k].pinned);
                assert(older(victim, before.entries[k]));
            } else {
                assert(done.removed[m] == rest.removed[m - 1]);
                assert(older(index::entry_at(middle.entries, rest.removed[m - 1])->0, later));
            }
        }
        assert forall|n: int| 0 <= n < done.removed.len() implies ledger::total(
            without(before, #[trigger] done.removed.take(n)).blobs,
        ) > budget by {
            if n == 0 {
                assert(done.removed.take(0).len() == 0);
            } else {
                let gone = done.removed.take(n);
                assert(gone[0] == victim.id);
                assert(gone.drop_first() =~= rest.removed.take(n - 1));
                assert(without(before, gone) == without(middle, rest.removed.take(n - 1)));
            }
        }
        assert(without(before, done.removed) == without(middle, rest.removed));
    }
}

/// An index without one entry holds every other.
proof fn one_entry_less(entries: Seq<index::RecordView>, i: int)
    requires
        index::rising(entries),
        0 <= i < entries.len(),
    ensures
        forall|entry: index::RecordView| #[trigger]
            entries.remove(i).contains(entry) <==> entries.contains(entry) && entry.id
                != entries[i].id,
{
    let fewer = entries.remove(i);
    assert forall|entry: index::RecordView| #[trigger]
        fewer.contains(entry) <==> entries.contains(entry) && entry.id != entries[i].id by {
        if fewer.contains(entry) {
            let k = choose|k: int| 0 <= k < fewer.len() && fewer[k] == entry;
            let c = if k < i {
                k
            } else {
                k + 1
            };
            assert(entries[c] == entry);
        }
        if entries.contains(entry) && entry.id != entries[i].id {
            let c = choose|c: int| 0 <= c < entries.len() && entries[c] == entry;
            let k = if c < i {
                c
            } else {
                c - 1
            };
            assert(fewer[k] == entry);
        }
    }
}

/// Making room orphans exactly what nothing points at any more.
pub proof fn eviction_orphans_what_nothing_points_at(before: index::IndexView, budget: int)
    requires
        index::sound(before),
    ensures
        index::sound(index::evicted(before, budget).index),
        are_the_orphans(
            before,
            index::evicted(before, budget).index,
            index::evicted(before, budget).orphaned,
        ),
        forall|digest: Seq<char>| #[trigger]
            index::references(index::evicted(before, budget).index.entries, digest)
                <= index::references(before.entries, digest),
    decreases before.entries.len(),
{
    oldest_is_oldest(before.entries);
    if ledger::total(before.blobs) <= budget || index::oldest(before.entries) is None {
        nothing_orphaned(before);
    } else {
        let i = index::oldest(before.entries)->0;
        let middle = index::removed_at(before, i);
        removing_an_entry(before, i);
        eviction_orphans_what_nothing_points_at(middle, budget);
        let rest = index::evicted(middle, budget);
        orphans_add_up(
            before,
            middle,
            rest.index,
            index::orphans_at(before, i),
            rest.orphaned,
        );
    }
}

// ---------------------------------------------------------------------------
// Copying again
// ---------------------------------------------------------------------------

/// Copying something again moves that entry's timestamp and changes nothing
/// else: no entry comes or goes and no blob is touched.
pub proof fn a_repeated_copy_moves_only_the_timestamp(
    before: index::IndexView,
    identity: Seq<char>,
    at: int,
)
    requires
        index::sound(before),
    ensures
        ({
            let after = index::touched(before, identity, at);
            &&& index::sound(after)
            &&& after.blobs == before.blobs
            &&& after.entries.len() == before.entries.len()
            &&& forall|k: int|
                0 <= k < before.entries.len() ==> #[trigger] after.entries[k] == (
                if before.entries[k].identity == identity {
                    index::RecordView { at, ..before.entries[k] }
                } else {
                    before.entries[k]
                })
        }),
{
    index::identity_placed_right(before.entries, identity);
    if let Some(i) = index::identity_place(before.entries, identity) {
        changing_an_entry(
            before,
            i,
            (index::RecordView { at, ..before.entries[i] }),
        );
        let after = index::touched(before, identity, at);
        assert forall|k: int| 0 <= k < before.entries.len() implies #[trigger] after.entries[k] == (
        if before.entries[k].identity == identity {
            index::RecordView { at, ..before.entries[k] }
        } else {
            before.entries[k]
        }) by {
            if k < i {
                assert(before.entries[k].identity != before.entries[i].identity);
            } else if k > i {
                assert(before.entries[i].identity != before.entries[k].identity);
            }
        }
    }
}

// ---------------------------------------------------------------------------
// Reading back what was recorded
// ---------------------------------------------------------------------------

/// Where mime types differ, each representation is found under its own.
proof fn found_under_its_mime(parts: Seq<index::PartView>, k: int)
    requires
        order::in_order(parts, index::serving_order()),
        0 <= k < parts.len(),
    ensures
        index::mime_place(parts, parts[k].mime) == Some(k),
    decreases parts.len(),
{
    let ahead = index::serving_order();
    if k > 0 {
        assert(ahead(parts[0], parts[k]));
        if parts[0].mime == parts[k].mime {
            text::before_irreflexive(parts[k].mime);
        }
        let rest = parts.drop_first();
        assert forall|i: int, j: int| 0 <= i < j < rest.len() implies #[trigger] ahead(
            rest[i],
            rest[j],
        ) by {
            assert(ahead(parts[i + 1], parts[j + 1]));
        }
        found_under_its_mime(rest, k - 1);
    }
}

/// An entry that was recorded is there under its id, every representation it
/// was given can be located by its mime type, and every other entry is as it
/// was.
pub proof fn what_was_recorded_can_be_located(
    before: index::IndexView,
    identity: Seq<char>,
    parts: Seq<index::PartView>,
    facts: index::FactsView,
    at: int,
)
    requires
        index::sound(before),
        index::refusal(before, identity, parts, facts.thumb) is None,
    ensures
        ({
            let after = index::inserted(before, identity, parts, facts, at);
            let id = index::next_id(before.entries);
            &&& index::entry_at(after.entries, id) == Some(
                index::new_entry(before.entries, identity, parts, facts, at),
            )
            &&& forall|k: int|
                0 <= k < parts.len() ==> index::located(
                    after.entries,
                    id,
                    Some((#[trigger] parts[k]).mime),
                ) == Some(parts[k])
            &&& forall|other: int|
                other != id ==> #[trigger] index::entry_at(after.entries, other)
                    == index::entry_at(before.entries, other)
        }),
{
    let after = index::inserted(before, identity, parts, facts, at);
    let id = index::next_id(before.entries);
    let entry = index::new_entry(before.entries, identity, parts, facts, at);
    recording_an_entry(before, identity, parts, facts, at);
    assert(after.entries[before.entries.len() as int] == entry);
    index::placed_only(after.entries, before.entries.len() as int);
    serving_is_in_order(parts);
    assert forall|k: int| 0 <= k < parts.len() implies index::located(
        after.entries,
        id,
        Some((#[trigger] parts[k]).mime),
    ) == Some(parts[k]) by {
        order::ranking_keeps_membership(parts, index::serving_order(), parts[k]);
        assert(parts.contains(parts[k]));
        let served = index::serving(parts);
        let n = choose|n: int| 0 <= n < served.len() && served[n] == parts[k];
        found_under_its_mime(served, n);
    }
    assert(after.entries.drop_last() =~= before.entries);
    assert forall|other: int| other != id implies #[trigger] index::entry_at(after.entries, other)
        == index::entry_at(before.entries, other) by {
        index::placed_right(before.entries, other);
    }
}

/// Where no mime type is named, an entry serves a representation that ranks
/// with the best it holds.
pub proof fn the_preferred_representation_ranks_best(
    before: index::IndexView,
    id: int,
    part: index::PartView,
)
    requires
        index::sound(before),
        index::located(before.entries, id, None) == Some(part),
    ensures
        index::entry_at(before.entries, id) matches Some(entry) && forall|k: int|
            0 <= k < entry.parts.len() ==> kind::preference(part.mime) <= kind::preference(
                (#[trigger] entry.parts[k]).mime,
            ),
{
    index::placed_right(before.entries, id);
    let i = index::place(before.entries, id)->0;
    let entry = before.entries[i];
    let ahead = index::serving_order();
    assert forall|k: int| 0 <= k < entry.parts.len() implies kind::preference(part.mime)
        <= kind::preference((#[trigger] entry.parts[k]).mime) by {
        if k > 0 {
            assert(ahead(entry.parts[0], entry.parts[k]));
        }
    }
}

// ---------------------------------------------------------------------------
// Listing
// ---------------------------------------------------------------------------

proof fn filtered_ids_rise(entries: Seq<index::RecordView>, test: spec_fn(index::RecordView) -> bool)
    requires
        index::rising(entries),
    ensures
        forall|i: int, j: int|
            0 <= i < j < entries.filter(test).len() ==> (#[trigger] entries.filter(test)[i]).id < (
            #[trigger] entries.filter(test)[j]).id,
        forall|entry: index::RecordView| #[trigger]
            entries.filter(test).contains(entry) <==> entries.contains(entry) && test(entry),
    decreases entries.len(),
{
    reveal(Seq::filter);
    let all = entries.filter(test);
    if entries.len() > 0 {
        let front = entries.drop_last();
        assert forall|a: int, b: int| 0 <= a < b < front.len() implies (#[trigger] front[a]).id < (
        #[trigger] front[b]).id by {
            assert(entries[a].id < entries[b].id);
        }
        assert forall|a: int| 0 <= a < front.len() implies 1 <= (#[trigger] front[a]).id
            <= i64::MAX by {
            assert(1 <= entries[a].id);
        }
        filtered_ids_rise(front, test);
        let some = front.filter(test);
        assert forall|i: int, j: int| 0 <= i < j < all.len() implies (#[trigger] all[i]).id < (
        #[trigger] all[j]).id by {
            if j == some.len() {
                assert(some.contains(some[i]));
                let k = choose|k: int| 0 <= k < front.len() && front[k] == some[i];
                assert(entries[k].id < entries[entries.len() - 1].id);
            } else {
                assert(some[i].id < some[j].id);
            }
        }
        assert forall|entry: index::RecordView| #[trigger] all.contains(entry) <==> entries.contains(
            entry,
        ) && test(entry) by {
            if all.contains(entry) {
                let k = choose|k: int| 0 <= k < all.len() && all[k] == entry;
                if k < some.len() {
                    assert(some[k] == entry);
                    assert(some.contains(entry));
                    let c = choose|c: int| 0 <= c < front.len() && front[c] == entry;
                    assert(entries[c] == entry);
                } else {
                    assert(entries[entries.len() - 1] == entry);
                }
            }
            if entries.contains(entry) && test(entry) {
                let c = choose|c: int| 0 <= c < entries.len() && entries[c] == entry;
                if c < front.len() {
                    assert(front[c] == entry);
                    assert(some.contains(entry));
                    let k = choose|k: int| 0 <= k < some.len() && some[k] == entry;
                    assert(all[k] == entry);
                } else {
                    assert(all[some.len() as int] == entry);
                }
            }
        }
    } else {
        assert(all =~= entries);
    }
}

/// A list is pinned first and newest first, holds only what was asked for, and
/// never more than the limit or the cap. What was asked for and left out comes after
/// everything shown, and nothing is left out while there is room.
pub proof fn a_list_is_the_front_of_what_was_asked_for(
    entries: Seq<index::RecordView>,
    limit: u32,
    before: Option<i64>,
    query: Option<Seq<char>>,
    only: Option<kind::Kind>,
)
    requires
        index::rising(entries),
    ensures
        ({
            let shown = index::listed(entries, limit, before, query, only);
            let asked = index::asked_for(before, query, only);
            let ahead = index::listing_order();
            &&& order::in_order(shown, ahead)
            &&& shown.len() <= index::MAX_LIMIT
            &&& shown.len() <= limit
            &&& shown.len() <= index::window(limit)
            &&& forall|k: int|
                0 <= k < shown.len() ==> entries.contains(#[trigger] shown[k]) && asked(shown[k])
            &&& forall|entry: index::RecordView| #[trigger]
                entries.contains(entry) && asked(entry) && !shown.contains(entry) ==> shown.len()
                    == index::window(limit) && forall|k: int|
                    0 <= k < shown.len() ==> ahead(#[trigger] shown[k], entry)
        }),
{
    the_front_of_what_passes(
        entries,
        index::asked_for(before, query, only),
        index::window(limit),
    );
}

// ---------------------------------------------------------------------------
// Saving
// ---------------------------------------------------------------------------

/// The blob with a digest, where there is one.
pub open spec fn blob_at(blobs: Seq<ledger::BlobView>, digest: Seq<char>) -> Option<
    ledger::BlobView,
> {
    match ledger::find(blobs, digest) {
        Some(i) => Some(blobs[i]),
        None => None,
    }
}

/// Whether the rows noted on the way from one state to another name every
/// entry and every blob in which the two differ.
pub open spec fn noted(before: index::IndexView, after: index::IndexView) -> bool {
    let new = after.changes.skip(before.changes.len() as int);
    &&& before.changes.len() <= after.changes.len()
    &&& after.changes.take(before.changes.len() as int) == before.changes
    &&& forall|id: int| #[trigger]
        index::entry_at(after.entries, id) != index::entry_at(before.entries, id) ==> new.contains(
            index::ChangeView::Entry(id),
        )
    &&& forall|digest: Seq<char>| #[trigger]
        blob_at(after.blobs, digest) != blob_at(before.blobs, digest) ==> new.contains(
            index::ChangeView::Blob(digest),
        )
}

proof fn released_others(rows: Seq<ledger::BlobView>, digest: Seq<char>, other: Seq<char>)
    requires
        ledger::sound(rows),
        digest != other,
    ensures
        blob_at(ledger::released(rows, digest), other) == blob_at(rows, other),
{
    let after = ledger::released(rows, digest);
    ledger::found(rows, digest);
    ledger::found(rows, other);
    ledger::found(after, other);
    if let Some(i) = ledger::find(rows, digest) {
        if rows[i].refs <= 1 {
            match ledger::find(after, other) {
                Some(k) => {
                    let c = if k < i {
                        k
                    } else {
                        k + 1
                    };
                    assert(rows[c] == after[k]);
                    ledger::found_only(rows, c);
                },
                None => {
                    if let Some(c) = ledger::find(rows, other) {
                        let k = if c < i {
                            c
                        } else {
                            c - 1
                        };
                        assert(after[k] == rows[c]);
                    }
                },
            }
        } else {
            match ledger::find(after, other) {
                Some(k) => {
                    assert(k != i);
                    assert(rows[k] == after[k]);
                    ledger::found_only(rows, k);
                },
                None => {
                    if let Some(c) = ledger::find(rows, other) {
                        assert(after[c] == rows[c]);
                    }
                },
            }
        }
    }
}

proof fn referenced_others(
    rows: Seq<ledger::BlobView>,
    digest: Seq<char>,
    bytes: nat,
    other: Seq<char>,
)
    requires
        ledger::sound(rows),
        digest != other,
    ensures
        blob_at(ledger::referenced(rows, digest, bytes), other) == blob_at(rows, other),
{
    let after = ledger::referenced(rows, digest, bytes);
    ledger::found(rows, digest);
    ledger::found(rows, other);
    ledger::found(after, other);
    match ledger::find(after, other) {
        Some(k) => {
            if k < rows.len() {
                assert(rows[k].digest == other);
                ledger::found_only(rows, k);
            }
        },
        None => {
            if let Some(c) = ledger::find(rows, other) {
                assert(after[c].digest == other);
            }
        },
    }
}

proof fn all_released_others(rows: Seq<ledger::BlobView>, gone: Seq<Seq<char>>, other: Seq<char>)
    requires
        ledger::sound(rows),
        forall|d: Seq<char>| #[trigger] ledger::count(gone, d) <= ledger::refs_of(rows, d),
        !gone.contains(other),
    ensures
        blob_at(ledger::all_released(rows, gone), other) == blob_at(rows, other),
    decreases gone.len(),
{
    if gone.len() > 0 {
        let front = gone.drop_last();
        assert forall|d: Seq<char>| #[trigger]
            ledger::count(front, d) <= ledger::refs_of(rows, d) by {
            assert(ledger::count(gone, d) <= ledger::refs_of(rows, d));
        }
        if front.contains(other) {
            let k = choose|k: int| 0 <= k < front.len() && front[k] == other;
            assert(gone[k] == other);
        }
        assert(gone[gone.len() - 1] == gone.last());
        all_released_others(rows, front, other);
        ledger::releasing_all(rows, front);
        released_others(ledger::all_released(rows, front), gone.last(), other);
    }
}

proof fn all_referenced_others(rows: Seq<ledger::BlobView>, new: Seq<ledger::Use>, other: Seq<char>)
    requires
        ledger::sound(rows),
        ledger::total(rows) + ledger::weight(new) <= ledger::MOST_BYTES,
        !ledger::digests(new).contains(other),
    ensures
        blob_at(ledger::all_referenced(rows, new), other) == blob_at(rows, other),
    decreases new.len(),
{
    if new.len() > 0 {
        let front = new.drop_last();
        assert(ledger::digests(new)[new.len() - 1] == new.last().0);
        if ledger::digests(front).contains(other) {
            let k = choose|k: int|
                0 <= k < ledger::digests(front).len() && ledger::digests(front)[k] == other;
            assert(ledger::digests(new)[k] == other);
        }
        all_referenced_others(rows, front, other);
        ledger::referencing_all(rows, front);
        referenced_others(
            ledger::all_referenced(rows, front),
            new.last().0,
            new.last().1,
            other,
        );
    }
}

proof fn rows_name_the_uses(entry: index::RecordView, digest: Seq<char>)
    requires
        index::uses(entry).contains(digest),
    ensures
        index::rows_of(entry).contains(index::ChangeView::Blob(digest)),
{
    let k = choose|k: int| 0 <= k < index::uses(entry).len() && index::uses(entry)[k] == digest;
    assert(index::rows_of(entry)[k + 1] == index::ChangeView::Blob(digest));
}

/// Recording an entry notes all rows that its saved copy has to change.
pub proof fn recording_is_noted(
    before: index::IndexView,
    identity: Seq<char>,
    parts: Seq<index::PartView>,
    facts: index::FactsView,
    at: int,
)
    requires
        index::sound(before),
        index::refusal(before, identity, parts, facts.thumb) is None,
    ensures
        noted(before, index::inserted(before, identity, parts, facts, at)),
{
    let after = index::inserted(before, identity, parts, facts, at);
    let entry = index::new_entry(before.entries, identity, parts, facts, at);
    let rows = index::rows_of(entry);
    let uses = index::new_uses(index::serving(parts), facts.thumb);
    what_was_recorded_can_be_located(before, identity, parts, facts, at);
    assert(after.changes.skip(before.changes.len() as int) =~= rows);
    assert(after.changes.take(before.changes.len() as int) =~= before.changes);
    assert(rows[0] == index::ChangeView::Entry(entry.id));
    assert(ledger::digests(uses) =~= index::uses(entry));
    assert forall|digest: Seq<char>| #[trigger]
        blob_at(after.blobs, digest) != blob_at(before.blobs, digest) implies rows.contains(
        index::ChangeView::Blob(digest),
    ) by {
        if index::uses(entry).contains(digest) {
            rows_name_the_uses(entry, digest);
        } else {
            all_referenced_others(before.blobs, uses, digest);
        }
    }
}

/// Removing an entry notes all rows that its saved copy has to change.
pub proof fn removal_is_noted(before: index::IndexView, i: int)
    requires
        index::sound(before),
        0 <= i < before.entries.len(),
    ensures
        noted(before, index::removed_at(before, i)),
{
    let after = index::removed_at(before, i);
    let entry = before.entries[i];
    let rows = index::rows_of(entry);
    let gone = index::uses(entry);
    assert(after.changes.skip(before.changes.len() as int) =~= rows);
    assert(after.changes.take(before.changes.len() as int) =~= before.changes);
    assert(rows[0] == index::ChangeView::Entry(entry.id));
    assert forall|id: int| #[trigger]
        index::entry_at(after.entries, id) != index::entry_at(
            before.entries,
            id,
        ) implies rows.contains(index::ChangeView::Entry(id)) by {
        if id != entry.id {
            index::found_without(before.entries, i, id);
        }
    }
    assert forall|d: Seq<char>| #[trigger]
        ledger::count(gone, d) <= ledger::refs_of(before.blobs, d) by {
        references_removed(before.entries, i, d);
    }
    assert forall|digest: Seq<char>| #[trigger]
        blob_at(after.blobs, digest) != blob_at(before.blobs, digest) implies rows.contains(
        index::ChangeView::Blob(digest),
    ) by {
        if gone.contains(digest) {
            rows_name_the_uses(entry, digest);
        } else {
            all_released_others(before.blobs, gone, digest);
        }
    }
}

/// Changing the fields of an entry notes the row that its saved copy has to
/// change.
pub proof fn a_change_is_noted(before: index::IndexView, i: int, entry: index::RecordView)
    requires
        index::sound(before),
        0 <= i < before.entries.len(),
        entry.id == before.entries[i].id,
    ensures
        noted(before, index::changed_at(before, i, entry)),
{
    let after = index::changed_at(before, i, entry);
    let new = after.changes.skip(before.changes.len() as int);
    assert(new[0] == index::ChangeView::Entry(entry.id));
    assert(after.changes.take(before.changes.len() as int) =~= before.changes);
    assert forall|id: int| #[trigger]
        index::entry_at(after.entries, id) != index::entry_at(
            before.entries,
            id,
        ) implies new.contains(index::ChangeView::Entry(id)) by {
        if id != entry.id {
            index::placed_right(before.entries, id);
            index::placed_right(after.entries, id);
            match index::place(after.entries, id) {
                Some(k) => {
                    assert(k != i);
                    assert(before.entries[k] == after.entries[k]);
                    index::placed_only(before.entries, k);
                },
                None => {
                    if let Some(k) = index::place(before.entries, id) {
                        assert(after.entries[k].id == id);
                    }
                },
            }
        }
    }
}

/// What is noted on the way to a state and on from it is noted on the whole way.
pub proof fn notes_add_up(
    before: index::IndexView,
    middle: index::IndexView,
    after: index::IndexView,
)
    requires
        noted(before, middle),
        noted(middle, after),
    ensures
        noted(before, after),
{
    let n = before.changes.len() as int;
    let m = middle.changes.len() as int;
    let first = middle.changes.skip(n);
    let second = after.changes.skip(m);
    let both = after.changes.skip(n);
    assert(after.changes.take(n) =~= before.changes) by {
        assert(after.changes.take(n) =~= after.changes.take(m).take(n));
    }
    assert(both =~= first + second) by {
        assert(after.changes.take(m) == middle.changes);
        assert forall|k: int| 0 <= k < first.len() implies both[k] == first[k] by {
            assert(after.changes.take(m)[n + k] == middle.changes[n + k]);
        }
    }
    assert forall|c: index::ChangeView| first.contains(c) || second.contains(c) implies #[trigger]
        both.contains(c) by {
        if first.contains(c) {
            let k = choose|k: int| 0 <= k < first.len() && first[k] == c;
            assert(both[k] == c);
        } else {
            let k = choose|k: int| 0 <= k < second.len() && second[k] == c;
            assert(both[first.len() + k] == c);
        }
    }
    assert forall|id: int| #[trigger]
        index::entry_at(after.entries, id) != index::entry_at(
            before.entries,
            id,
        ) implies both.contains(index::ChangeView::Entry(id)) by {
        if index::entry_at(middle.entries, id) != index::entry_at(before.entries, id) {
            assert(first.contains(index::ChangeView::Entry(id)));
        } else {
            assert(second.contains(index::ChangeView::Entry(id)));
        }
    }
    assert forall|digest: Seq<char>| #[trigger]
        blob_at(after.blobs, digest) != blob_at(before.blobs, digest) implies both.contains(
        index::ChangeView::Blob(digest),
    ) by {
        if blob_at(middle.blobs, digest) != blob_at(before.blobs, digest) {
            assert(first.contains(index::ChangeView::Blob(digest)));
        } else {
            assert(second.contains(index::ChangeView::Blob(digest)));
        }
    }
}

/// Where nothing changes nothing has to be noted.
pub proof fn nothing_is_noted(before: index::IndexView)
    ensures
        noted(before, before),
{
    assert(before.changes.take(before.changes.len() as int) =~= before.changes);
}

/// Clearing notes all rows that its saved copy has to change.
pub proof fn clearing_is_noted(before: index::IndexView)
    requires
        index::sound(before),
    ensures
        noted(before, index::cleared(before).0),
    decreases before.entries.len(),
{
    let i = index::pinned_front(before.entries);
    pinned_front_reaches(before.entries);
    if i < before.entries.len() {
        let middle = index::removed_at(before, i);
        removing_an_entry(before, i);
        removal_is_noted(before, i);
        clearing_is_noted(middle);
        notes_add_up(before, middle, index::cleared(middle).0);
    } else {
        nothing_is_noted(before);
    }
}

/// Making room notes all rows that its saved copy has to change.
pub proof fn eviction_is_noted(before: index::IndexView, budget: int)
    requires
        index::sound(before),
    ensures
        noted(before, index::evicted(before, budget).index),
    decreases before.entries.len(),
{
    oldest_is_oldest(before.entries);
    if ledger::total(before.blobs) <= budget || index::oldest(before.entries) is None {
        nothing_is_noted(before);
    } else {
        let i = index::oldest(before.entries)->0;
        let middle = index::removed_at(before, i);
        removing_an_entry(before, i);
        removal_is_noted(before, i);
        eviction_is_noted(middle, budget);
        notes_add_up(before, middle, index::evicted(middle, budget).index);
    }
}

/// An entry that was saved takes its place again as it was: taken in behind the
/// entries saved before it, it is refused only where its blobs can no longer be
/// accounted for.
pub proof fn a_saved_entry_is_restored_as_it_was(
    saved: index::IndexView,
    taken: index::IndexView,
    k: int,
    thumb_bytes: nat,
)
    requires
        index::sound(saved),
        0 <= k < saved.entries.len(),
        taken.entries == saved.entries.take(k),
    ensures
        ({
            let entry = saved.entries[k];
            let new = index::new_uses(entry.parts, index::saved_thumb(entry, thumb_bytes));
            &&& index::restorable(taken, entry, thumb_bytes) <==> ledger::has_room(
                taken.blobs,
                new,
            )
            &&& index::restored(taken, entry, thumb_bytes).entries == saved.entries.take(k + 1)
            &&& index::restored(taken, entry, thumb_bytes).changes == taken.changes
        }),
{
    let entry = saved.entries[k];
    let ahead = index::serving_order();
    assert(order::in_order(entry.parts, ahead));
    assert forall|a: index::PartView, b: index::PartView| #[trigger] ahead(a, b) implies !ahead(
        b,
        a,
    ) by {
        if text::before(a.mime, b.mime) && text::before(b.mime, a.mime) {
            text::before_transitive(a.mime, b.mime, a.mime);
            text::before_irreflexive(a.mime);
        }
    }
    order::ranking_keeps_a_line_in_order(entry.parts, ahead);
    assert forall|i: int, j: int| 0 <= i < j < entry.parts.len() implies (
    #[trigger] entry.parts[i]).mime != (#[trigger] entry.parts[j]).mime by {
        assert(ahead(entry.parts[i], entry.parts[j]));
        text::before_irreflexive(entry.parts[i].mime);
    }
    index::identity_placed_right(taken.entries, entry.identity);
    if let Some(i) = index::identity_place(taken.entries, entry.identity) {
        assert(saved.entries[i].identity == entry.identity);
        assert(false);
    }
    if k > 0 {
        assert(taken.entries.last() == saved.entries[k - 1]);
        assert(saved.entries[k - 1].id < saved.entries[k].id);
    }
    assert(index::restored(taken, entry, thumb_bytes).entries =~= saved.entries.take(k + 1));
}

// ---------------------------------------------------------------------------
// Field by field
// ---------------------------------------------------------------------------

/// The bytes of some representations together.
pub open spec fn bytes_in_all(parts: Seq<index::PartView>) -> nat {
    parts.fold_left(0nat, |sum: nat, part: index::PartView| sum + part.bytes)
}

proof fn weight_of_parts(parts: Seq<index::PartView>)
    ensures
        ledger::weight(index::new_uses(parts, None)) == bytes_in_all(parts),
    decreases parts.len(),
{
    let uses = index::new_uses(parts, None);
    if parts.len() > 0 {
        weight_of_parts(parts.drop_last());
        assert(uses.drop_last() =~= index::new_uses(parts.drop_last(), None));
    }
}

/// A recorded entry is one more entry behind all others, and is what was given:
/// its identity, its time, its preview, its size, its source and its searchable
/// text are as they were handed in, whatever kind of entry it is; it holds every
/// representation, preferred ones first; and it is shown by what it holds.
pub proof fn a_recorded_entry_is_what_was_given(
    before: index::IndexView,
    identity: Seq<char>,
    parts: Seq<index::PartView>,
    facts: index::FactsView,
    at: int,
)
    requires
        index::sound(before),
        index::refusal(before, identity, parts, facts.thumb) is None,
    ensures
        ({
            let after = index::inserted(before, identity, parts, facts, at);
            let entry = after.entries.last();
            &&& after.entries.len() == before.entries.len() + 1
            &&& after.entries.drop_last() == before.entries
            &&& entry.id == index::next_id(before.entries)
            &&& before.entries.len() == 0 ==> entry.id == 1
            &&& before.entries.len() > 0 ==> entry.id == before.entries.last().id + 1
            &&& forall|i: int|
                0 <= i < before.entries.len() ==> (#[trigger] before.entries[i]).id < entry.id
            &&& entry.identity == identity
            &&& entry.at == at
            &&& !entry.pinned
            &&& entry.body == facts.body
            &&& index::body_at(after.entries, entry.id) == facts.body
            &&& entry.preview == facts.preview
            &&& entry.width == facts.width
            &&& entry.height == facts.height
            &&& entry.source == facts.source
            &&& entry.thumb is Some <==> facts.thumb is Some
            &&& facts.thumb matches Some(thumb) ==> entry.thumb == Some(thumb.digest)
        }),
        ({
            let entry = index::inserted(before, identity, parts, facts, at).entries.last();
            &&& entry.parts.to_multiset() == parts.to_multiset()
            &&& entry.parts.len() == parts.len()
            &&& entry.bytes == bytes_in_all(entry.parts)
            &&& forall|i: int, j: int|
                0 <= i < j < entry.parts.len() ==> kind::preference(
                    (#[trigger] entry.parts[i]).mime,
                ) <= kind::preference((#[trigger] entry.parts[j]).mime)
            &&& forall|i: int, j: int|
                0 <= i < j < entry.parts.len() && kind::preference((#[trigger] entry.parts[i]).mime)
                    == kind::preference((#[trigger] entry.parts[j]).mime) ==> text::before(
                    entry.parts[i].mime,
                    entry.parts[j].mime,
                )
        }),
        ({
            let entry = index::inserted(before, identity, parts, facts, at).entries.last();
            let files = exists|i: int|
                0 <= i < parts.len() && kind::file_list((#[trigger] parts[i]).mime);
            let picture = exists|i: int|
                0 <= i < parts.len() && kind::pictorial((#[trigger] parts[i]).mime);
            &&& entry.kind == kind::Kind::Files <==> files
            &&& entry.kind == kind::Kind::Image <==> !files && picture
            &&& !files && !picture ==> match facts.preview {
                Some(line) => {
                    &&& entry.kind == kind::Kind::Color <==> kind::colour(text::trim(line))
                    &&& entry.kind == kind::Kind::Link <==> kind::link(text::trim(line))
                },
                None => entry.kind == kind::Kind::Text,
            }
        }),
{
    let after = index::inserted(before, identity, parts, facts, at);
    let entry = after.entries.last();
    recording_an_entry(before, identity, parts, facts, at);
    serving_is_in_order(parts);
    order::ranking_keeps_the_items(parts, index::serving_order());
    weight_of_parts(entry.parts);
    assert(after.entries.drop_last() =~= before.entries);
    assert(after.entries[after.entries.len() - 1] == entry);
    index::placed_only(after.entries, after.entries.len() - 1);
    assert forall|i: int| 0 <= i < before.entries.len() implies (#[trigger] before.entries[i]).id
        < entry.id by {
        assert(after.entries[i].id < after.entries[after.entries.len() - 1].id);
    }
    let ahead = index::serving_order();
    assert forall|i: int, j: int| 0 <= i < j < entry.parts.len() implies kind::preference(
        (#[trigger] entry.parts[i]).mime,
    ) <= kind::preference((#[trigger] entry.parts[j]).mime) && (kind::preference(
        entry.parts[i].mime,
    ) == kind::preference(entry.parts[j].mime) ==> text::before(
        entry.parts[i].mime,
        entry.parts[j].mime,
    )) by {
        assert(ahead(entry.parts[i], entry.parts[j]));
    }
    let mimes = index::mimes_of(parts);
    kind::an_entry_is_shown_by_its_best_claim(mimes, facts.preview);
    assert forall|i: int| 0 <= i < parts.len() implies (#[trigger] parts[i]).mime == mimes[i] by {}
    if exists|i: int| 0 <= i < mimes.len() && kind::file_list(#[trigger] mimes[i]) {
        let i = choose|i: int| 0 <= i < mimes.len() && kind::file_list(#[trigger] mimes[i]);
        assert(kind::file_list(parts[i].mime));
    }
    if exists|i: int| 0 <= i < mimes.len() && kind::pictorial(#[trigger] mimes[i]) {
        let i = choose|i: int| 0 <= i < mimes.len() && kind::pictorial(#[trigger] mimes[i]);
        assert(kind::pictorial(parts[i].mime));
    }
}

/// An entry is refused where one with its identity is there, where no id is
/// left, where two representations have one mime type or where the sizes can no
/// longer be counted, and for no other reason.
pub proof fn an_entry_is_refused_for_four_reasons(
    before: index::IndexView,
    identity: Seq<char>,
    parts: Seq<index::PartView>,
    thumb: Option<index::PartView>,
)
    ensures
        ({
            let answer = index::refusal(before, identity, parts, thumb);
            let known = exists|i: int|
                0 <= i < before.entries.len() && (#[trigger] before.entries[i]).identity == identity;
            let full = before.entries.len() > 0 && before.entries.last().id
                >= 0x7fff_ffff_ffff_ffff;
            let twice = exists|i: int, j: int|
                0 <= i < j < parts.len() && (#[trigger] parts[i]).mime == (#[trigger] parts[j]).mime;
            &&& answer == Some(index::Refusal::Identity) <==> known
            &&& answer == Some(index::Refusal::Full) <==> !known && full
            &&& answer == Some(index::Refusal::Mime) <==> !known && !full && twice
            &&& answer is None ==> !known && !full && !twice
            &&& !known && !full && !twice && ledger::total(before.blobs) + bytes_in_all(parts) + (
            match thumb {
                Some(thumb) => thumb.bytes,
                None => 0,
            }) <= 0x7fff_ffff_ffff_ffff && parts.len() < 0x1_0000_0000 && (forall|i: int|
                0 <= i < before.blobs.len() ==> (#[trigger] before.blobs[i]).refs
                    < 0x1_0000_0000_0000) ==> answer is None
        }),
{
    index::identity_placed_right(before.entries, identity);
    let served = index::serving(parts);
    let uses = index::new_uses(served, thumb);
    order::ranking_keeps_the_items(parts, index::serving_order());
    weight_of_parts(served);
    same_bytes_in_any_order(parts, served);
    let plain = index::new_uses(served, None);
    if thumb is Some {
        assert(uses.drop_last() =~= plain);
    }
}

proof fn same_bytes_in_any_order(one: Seq<index::PartView>, other: Seq<index::PartView>)
    requires
        one.to_multiset() == other.to_multiset(),
    ensures
        bytes_in_all(one) == bytes_in_all(other),
{
    let add = |sum: nat, part: index::PartView| sum + part.bytes;
    assert(vstd::seq_lib::commutative_foldl(add));
    vstd::seq_lib::lemma_fold_left_permutation(one, other, add, 0nat);
}

/// What passes a test is listed pinned first and newest first, as much of it as
/// there is room for.
proof fn the_front_of_what_passes(
    entries: Seq<index::RecordView>,
    test: spec_fn(index::RecordView) -> bool,
    limit: int,
)
    requires
        index::rising(entries),
        limit >= 0,
    ensures
        ({
            let ahead = index::listing_order();
            let shown = order::cut(order::ranked(entries.filter(test), ahead), limit);
            &&& order::in_order(shown, ahead)
            &&& shown.len() <= limit
            &&& forall|k: int|
                0 <= k < shown.len() ==> entries.contains(#[trigger] shown[k]) && test(shown[k])
            &&& forall|entry: index::RecordView| #[trigger]
                entries.contains(entry) && test(entry) && !shown.contains(entry) ==> shown.len()
                    == limit && forall|k: int|
                    0 <= k < shown.len() ==> ahead(#[trigger] shown[k], entry)
        }),
{
    let ahead = index::listing_order();
    let matching = entries.filter(test);
    let all = order::ranked(matching, ahead);
    let shown = order::cut(all, limit);
    filtered_ids_rise(entries, test);
    assert forall|i: int, j: int| 0 <= i < j < matching.len() implies #[trigger] ahead(
        matching[i],
        matching[j],
    ) || ahead(matching[j], matching[i]) by {
        assert(matching[i].id < matching[j].id);
    }
    order::ranking_puts_in_order(matching, ahead);
    assert forall|k: int| 0 <= k < shown.len() implies entries.contains(#[trigger] shown[k])
        && test(shown[k]) by {
        assert(shown[k] == all[k]);
        order::ranking_keeps_membership(matching, ahead, all[k]);
        assert(all.contains(all[k]));
        assert(matching.contains(all[k]));
    }
    assert forall|i: int, j: int| 0 <= i < j < shown.len() implies #[trigger] ahead(
        shown[i],
        shown[j],
    ) by {
        assert(ahead(all[i], all[j]));
    }
    assert forall|entry: index::RecordView| #[trigger]
        entries.contains(entry) && test(entry) && !shown.contains(entry) implies shown.len()
        == limit && forall|k: int| 0 <= k < shown.len() ==> ahead(#[trigger] shown[k], entry) by {
        assert(matching.contains(entry));
        order::ranking_keeps_membership(matching, ahead, entry);
        let n = choose|n: int| 0 <= n < all.len() && all[n] == entry;
        if n < shown.len() {
            assert(shown[n] == entry);
        }
        assert forall|k: int| 0 <= k < shown.len() implies ahead(#[trigger] shown[k], entry) by {
            assert(ahead(all[k], all[n]));
        }
    }
}

/// Whether one entry is listed before another: it is pinned and the other is
/// not, or it was copied later, or it was recorded later at one time.
pub open spec fn above(one: index::RecordView, other: index::RecordView) -> bool {
    if one.pinned != other.pinned {
        one.pinned
    } else if one.at != other.at {
        one.at > other.at
    } else {
        one.id > other.id
    }
}

/// Of the entries a search found, a list restricted to a kind shows only
/// entries of that kind, and one that goes on from an entry only entries with
/// smaller ids. Every entry of that kind, with such an id and found, is shown
/// unless as many that come before it are.
pub proof fn a_list_shows_exactly_what_is_asked_of_it(
    entries: Seq<index::RecordView>,
    limit: u32,
    before: Option<i64>,
    found: Option<Seq<i64>>,
    only: Option<kind::Kind>,
)
    requires
        index::rising(entries),
    ensures
        ({
            let shown = index::listed_among(entries, limit, before, found, only);
            &&& shown.len() <= limit
            &&& shown.len() <= 500
            &&& forall|k: int|
                0 <= k < shown.len() ==> {
                    &&& entries.contains(#[trigger] shown[k])
                    &&& only matches Some(kind) ==> shown[k].kind == kind
                    &&& before matches Some(id) ==> shown[k].id < id
                    &&& found matches Some(ids) ==> ids.contains(shown[k].id as i64)
                }
            &&& forall|i: int, j: int|
                0 <= i < j < shown.len() ==> above(#[trigger] shown[i], #[trigger] shown[j])
            &&& forall|entry: index::RecordView|
                (only is None || only == Some(entry.kind)) && (before matches Some(id) ==> entry.id
                    < id) && (found matches Some(ids) ==> ids.contains(entry.id as i64))
                    && #[trigger] entries.contains(entry) && !shown.contains(entry) ==> (shown.len()
                    == limit || shown.len() == 500) && forall|k: int|
                    0 <= k < shown.len() ==> above(#[trigger] shown[k], entry)
        }),
{
    let asked = index::asked_among(before, found, only);
    let ahead = index::listing_order();
    let shown = index::listed_among(entries, limit, before, found, only);
    the_front_of_what_passes(entries, asked, index::window(limit));
    assert forall|a: index::RecordView, b: index::RecordView| #[trigger] ahead(a, b) == above(
        a,
        b,
    ) || (a.pinned == b.pinned && a.at == b.at && a.id == b.id) by {}
    assert forall|i: int, j: int| 0 <= i < j < shown.len() implies above(
        #[trigger] shown[i],
        #[trigger] shown[j],
    ) by {
        assert(ahead(shown[i], shown[j]));
    }
    assert forall|entry: index::RecordView|
        (only is None || only == Some(entry.kind)) && (before matches Some(id) ==> entry.id < id)
            && (found matches Some(ids) ==> ids.contains(entry.id as i64)) && #[trigger]
            entries.contains(entry) && !shown.contains(entry) implies (shown.len() == limit
        || shown.len() == 500) && forall|k: int|
        0 <= k < shown.len() ==> above(#[trigger] shown[k], entry) by {
        assert(asked(entry));
        assert forall|k: int| 0 <= k < shown.len() implies above(#[trigger] shown[k], entry) by {
            assert(ahead(shown[k], entry));
        }
    }
}

/// The same of a list that is searched: what is shown matches what was typed,
/// unless nothing to search for was, and every entry that does so counts.
pub proof fn a_list_shows_exactly_what_is_searched_for(
    entries: Seq<index::RecordView>,
    limit: u32,
    before: Option<i64>,
    query: Option<Seq<char>>,
    only: Option<kind::Kind>,
)
    requires
        index::rising(entries),
    ensures
        ({
            let shown = index::listed(entries, limit, before, query, only);
            &&& shown.len() <= limit
            &&& shown.len() <= 500
            &&& forall|k: int|
                0 <= k < shown.len() ==> {
                    &&& entries.contains(#[trigger] shown[k])
                    &&& only matches Some(kind) ==> shown[k].kind == kind
                    &&& before matches Some(id) ==> shown[k].id < id
                    &&& query matches Some(typed) ==> search::tokens(typed).len() == 0 || (
                    shown[k].body matches Some(body) && search::fts5_matches(
                        search::expression(typed),
                        body,
                    ))
                }
            &&& forall|i: int, j: int|
                0 <= i < j < shown.len() ==> above(#[trigger] shown[i], #[trigger] shown[j])
            &&& forall|entry: index::RecordView|
                (only is None || only == Some(entry.kind)) && (before matches Some(id) ==> entry.id
                    < id) && (query matches Some(typed) ==> search::tokens(typed).len() == 0 || (
                entry.body matches Some(body) && search::fts5_matches(
                    search::expression(typed),
                    body,
                ))) && #[trigger] entries.contains(entry) && !shown.contains(entry) ==> (shown.len()
                    == limit || shown.len() == 500) && forall|k: int|
                    0 <= k < shown.len() ==> above(#[trigger] shown[k], entry)
        }),
{
    let asked = index::asked_for(before, query, only);
    let ahead = index::listing_order();
    let shown = index::listed(entries, limit, before, query, only);
    the_front_of_what_passes(entries, asked, index::window(limit));
    if let Some(typed) = query {
        search::only_tokens_are_searched_for(typed);
    }
    assert forall|a: index::RecordView, b: index::RecordView| #[trigger] ahead(a, b) == above(
        a,
        b,
    ) || (a.pinned == b.pinned && a.at == b.at && a.id == b.id) by {}
    assert forall|i: int, j: int| 0 <= i < j < shown.len() implies above(
        #[trigger] shown[i],
        #[trigger] shown[j],
    ) by {
        assert(ahead(shown[i], shown[j]));
    }
    assert forall|entry: index::RecordView|
        (only is None || only == Some(entry.kind)) && (before matches Some(id) ==> entry.id < id)
            && (query matches Some(typed) ==> search::tokens(typed).len() == 0 || (
        entry.body matches Some(body) && search::fts5_matches(search::expression(typed), body)))
            && #[trigger] entries.contains(entry) && !shown.contains(entry) implies (shown.len()
        == limit || shown.len() == 500) && forall|k: int|
        0 <= k < shown.len() ==> above(#[trigger] shown[k], entry) by {
        assert(asked(entry));
        assert forall|k: int| 0 <= k < shown.len() implies above(#[trigger] shown[k], entry) by {
            assert(ahead(shown[k], entry));
        }
    }
}

/// A row of the list tells of its entry what the entry is, and names every
/// representation it holds.
pub proof fn a_row_tells_of_its_entry(entries: Seq<index::RecordView>, k: int)
    requires
        0 <= k < entries.len(),
    ensures
        index::summaries_of(entries).len() == entries.len(),
        ({
            let row = index::summaries_of(entries)[k];
            let entry = entries[k];
            &&& row.id == entry.id
            &&& kind::named(row.kind) == Some(entry.kind)
            &&& row.bytes == entry.bytes
            &&& row.preview == entry.preview
            &&& row.width == entry.width
            &&& row.height == entry.height
            &&& row.thumb <==> entry.thumb is Some
            &&& row.pinned == entry.pinned
            &&& row.source == entry.source
            &&& row.at == entry.at
            &&& row.mimes.len() == entry.parts.len()
            &&& forall|i: int|
                0 <= i < entry.parts.len() ==> #[trigger] row.mimes[i] == entry.parts[i].mime
        }),
{
    kind::a_kind_survives_its_name(entries[k].kind, entries[k].kind.name());
}

/// Pinning an entry sets its flag as asked and changes nothing else of it, no
/// other entry and no blob.
pub proof fn pinning_changes_one_flag(before: index::IndexView, id: int, pinned: bool)
    requires
        index::sound(before),
    ensures
        ({
            let after = index::pinning(before, id, pinned);
            &&& after.blobs == before.blobs
            &&& after.entries.len() == before.entries.len()
            &&& forall|k: int|
                0 <= k < before.entries.len() ==> #[trigger] after.entries[k] == (
                if before.entries[k].id == id {
                    index::RecordView { pinned, ..before.entries[k] }
                } else {
                    before.entries[k]
                })
            &&& (forall|k: int|
                0 <= k < before.entries.len() ==> (#[trigger] before.entries[k]).id != id) ==> after
                == before
        }),
{
    index::placed_right(before.entries, id);
    let after = index::pinning(before, id, pinned);
    if let Some(i) = index::place(before.entries, id) {
        assert forall|k: int| 0 <= k < before.entries.len() implies #[trigger] after.entries[k] == (
        if before.entries[k].id == id {
            index::RecordView { pinned, ..before.entries[k] }
        } else {
            before.entries[k]
        }) by {
            if k < i {
                assert(before.entries[k].id < before.entries[i].id);
            } else if k > i {
                assert(before.entries[i].id < before.entries[k].id);
            }
        }
    }
}

/// Removing an entry takes that entry out and leaves every other as it is, in
/// the order they stood in.
pub proof fn removal_takes_one_entry_out(before: index::IndexView, id: int)
    requires
        index::sound(before),
    ensures
        index::removed(before, id).entries == before.entries.filter(
            |entry: index::RecordView| entry.id != id,
        ),
        (forall|k: int| 0 <= k < before.entries.len() ==> (#[trigger] before.entries[k]).id != id)
            ==> index::removed(before, id) == before && index::orphans(before, id).len() == 0,
{
    let others = |entry: index::RecordView| entry.id != id;
    index::placed_right(before.entries, id);
    match index::place(before.entries, id) {
        Some(i) => {
            let head = before.entries.take(i);
            let rest = before.entries.skip(i + 1);
            let one = seq![before.entries[i]];
            assert(before.entries =~= head + one + rest);
            assert forall|k: int| 0 <= k < head.len() implies others(#[trigger] head[k]) by {
                assert(head[k] == before.entries[k]);
                assert(before.entries[k].id < before.entries[i].id);
            }
            assert forall|k: int| 0 <= k < rest.len() implies others(#[trigger] rest[k]) by {
                assert(rest[k] == before.entries[i + 1 + k]);
                assert(before.entries[i].id < before.entries[i + 1 + k].id);
            }
            all_stay(head, others);
            all_stay(rest, others);
            Seq::filter_distributes_over_add(head, one, others);
            Seq::filter_distributes_over_add(head + one, rest, others);
            assert(one.filter(others) =~= Seq::empty()) by {
                reveal(Seq::filter);
                assert(one.drop_last() =~= Seq::empty());
                assert(one.drop_last().filter(others) =~= Seq::empty());
                assert(!others(one.last()));
            }
            assert(before.entries.filter(others) =~= head + rest);
            assert(before.entries.remove(i) =~= head + rest);
        },
        None => {
            assert forall|k: int| 0 <= k < before.entries.len() implies others(
                #[trigger] before.entries[k],
            ) by {}
            all_stay(before.entries, others);
        },
    }
}

proof fn all_stay(entries: Seq<index::RecordView>, test: spec_fn(index::RecordView) -> bool)
    requires
        forall|k: int| 0 <= k < entries.len() ==> test(#[trigger] entries[k]),
    ensures
        entries.filter(test) == entries,
    decreases entries.len(),
{
    reveal(Seq::filter);
    if entries.len() > 0 {
        let front = entries.drop_last();
        assert forall|k: int| 0 <= k < front.len() implies test(#[trigger] front[k]) by {
            assert(front[k] == entries[k]);
        }
        all_stay(front, test);
        assert(test(entries[entries.len() - 1]));
        assert(front.push(entries.last()) =~= entries);
    } else {
        assert(entries.filter(test) =~= entries);
    }
}

/// A representation asked for by its mime type is the one the entry holds under
/// exactly that type; asked for without one it is the first, which is the one
/// preferred to all others. An entry that is not there, or has no such
/// representation, gives none.
pub proof fn what_is_located_is_what_the_entry_holds(
    index: index::IndexView,
    id: int,
    mime: Option<Seq<char>>,
)
    requires
        index::sound(index),
    ensures
        (forall|k: int| 0 <= k < index.entries.len() ==> (#[trigger] index.entries[k]).id != id)
            ==> index::located(index.entries, id, mime) is None,
        forall|k: int|
            0 <= k < index.entries.len() && (#[trigger] index.entries[k]).id == id ==> {
                let parts = index.entries[k].parts;
                let answer = index::located(index.entries, id, mime);
                match mime {
                    Some(mime) => {
                        &&& answer matches Some(part) ==> parts.contains(part) && part.mime == mime
                        &&& forall|i: int|
                            0 <= i < parts.len() && (#[trigger] parts[i]).mime == mime ==> answer
                                == Some(parts[i])
                    },
                    None => {
                        &&& parts.len() == 0 ==> answer is None
                        &&& parts.len() > 0 ==> answer == Some(parts[0])
                    },
                }
            },
{
    index::placed_right(index.entries, id);
    assert forall|k: int|
        0 <= k < index.entries.len() && (#[trigger] index.entries[k]).id == id implies ({
        let parts = index.entries[k].parts;
        let answer = index::located(index.entries, id, mime);
        match mime {
            Some(mime) => {
                &&& answer matches Some(part) ==> parts.contains(part) && part.mime == mime
                &&& forall|i: int|
                    0 <= i < parts.len() && (#[trigger] parts[i]).mime == mime ==> answer == Some(
                        parts[i],
                    )
            },
            None => {
                &&& parts.len() == 0 ==> answer is None
                &&& parts.len() > 0 ==> answer == Some(parts[0])
            },
        }
    }) by {
        index::placed_only(index.entries, k);
        let parts = index.entries[k].parts;
        if let Some(mime) = mime {
            standing_under_a_mime(parts, mime);
            assert forall|i: int|
                0 <= i < parts.len() && (#[trigger] parts[i]).mime == mime implies index::located(
                index.entries,
                id,
                Some(mime),
            ) == Some(parts[i]) by {
                found_under_its_mime(parts, i);
            }
        }
    }
}

proof fn standing_under_a_mime(parts: Seq<index::PartView>, mime: Seq<char>)
    ensures
        index::mime_place(parts, mime) matches Some(i) ==> 0 <= i < parts.len() && parts[i].mime
            == mime,
    decreases parts.len(),
{
    if parts.len() > 0 && parts[0].mime != mime {
        let rest = parts.drop_first();
        standing_under_a_mime(rest, mime);
    }
}

/// The picture of an entry is the one of its pictures that is preferred to the
/// others, and there is one wherever the entry holds a picture; likewise for
/// what is asked for by the beginning of a mime type.
pub proof fn a_picture_is_the_first_picture(index: index::IndexView, k: int, prefix: Seq<char>)
    requires
        index::sound(index),
        0 <= k < index.entries.len(),
    ensures
        ({
            let parts = index.entries[k].parts;
            let picture = index::located_picture(index.entries, index.entries[k].id);
            &&& picture is None <==> forall|i: int|
                0 <= i < parts.len() ==> !kind::pictorial((#[trigger] parts[i]).mime)
            &&& picture matches Some(part) ==> parts.contains(part) && kind::pictorial(part.mime)
                && forall|i: int|
                0 <= i < parts.len() && kind::pictorial((#[trigger] parts[i]).mime)
                    ==> kind::preference(part.mime) <= kind::preference(parts[i].mime)
        }),
        ({
            let parts = index.entries[k].parts;
            let under = index::located_under(index.entries, index.entries[k].id, prefix);
            &&& under is None <==> forall|i: int|
                0 <= i < parts.len() ==> !text::starts_with((#[trigger] parts[i]).mime, prefix)
            &&& under matches Some(part) ==> parts.contains(part) && text::starts_with(
                part.mime,
                prefix,
            ) && forall|i: int|
                0 <= i < parts.len() && text::starts_with((#[trigger] parts[i]).mime, prefix)
                    ==> kind::preference(part.mime) <= kind::preference(parts[i].mime)
        }),
{
    let entry = index.entries[k];
    index::placed_only(index.entries, k);
    assert(order::in_order(entry.parts, index::serving_order()));
    let pictures = |mime: Seq<char>| kind::pictorial(mime);
    let under = |mime: Seq<char>| index::mime_under(mime, prefix);
    the_first_that_passes(entry.parts, pictures);
    the_first_that_passes(entry.parts, under);
    let ahead = index::serving_order();
    if let Some(n) = index::passing_place(entry.parts, pictures) {
        assert forall|i: int|
            0 <= i < entry.parts.len() && kind::pictorial(
                (#[trigger] entry.parts[i]).mime,
            ) implies kind::preference(entry.parts[n].mime) <= kind::preference(
            entry.parts[i].mime,
        ) by {
            if n < i {
                assert(ahead(entry.parts[n], entry.parts[i]));
            }
            assert(pictures(entry.parts[i].mime));
        }
    } else {
        assert forall|i: int| 0 <= i < entry.parts.len() implies !kind::pictorial(
            (#[trigger] entry.parts[i]).mime,
        ) by {
            assert(!pictures(entry.parts[i].mime));
        }
    }
    if let Some(n) = index::passing_place(entry.parts, under) {
        assert forall|i: int|
            0 <= i < entry.parts.len() && text::starts_with(
                (#[trigger] entry.parts[i]).mime,
                prefix,
            ) implies kind::preference(entry.parts[n].mime) <= kind::preference(
            entry.parts[i].mime,
        ) by {
            if n < i {
                assert(ahead(entry.parts[n], entry.parts[i]));
            }
            assert(under(entry.parts[i].mime));
        }
    } else {
        assert forall|i: int| 0 <= i < entry.parts.len() implies !text::starts_with(
            (#[trigger] entry.parts[i]).mime,
            prefix,
        ) by {
            assert(!under(entry.parts[i].mime));
        }
    }
}

proof fn the_first_that_passes(parts: Seq<index::PartView>, test: spec_fn(Seq<char>) -> bool)
    ensures
        match index::passing_place(parts, test) {
            Some(n) => 0 <= n < parts.len() && test(parts[n].mime) && forall|i: int|
                0 <= i < n ==> !test((#[trigger] parts[i]).mime),
            None => forall|i: int| 0 <= i < parts.len() ==> !test((#[trigger] parts[i]).mime),
        },
    decreases parts.len(),
{
    if parts.len() > 0 && !test(parts[0].mime) {
        let rest = parts.drop_first();
        the_first_that_passes(rest, test);
        match index::passing_place(rest, test) {
            Some(n) => {
                assert forall|i: int| 0 <= i < n + 1 implies !test((#[trigger] parts[i]).mime) by {
                    if i > 0 {
                        assert(rest[i - 1] == parts[i]);
                    }
                }
            },
            None => {
                assert forall|i: int| 0 <= i < parts.len() implies !test(
                    (#[trigger] parts[i]).mime,
                ) by {
                    if i > 0 {
                        assert(rest[i - 1] == parts[i]);
                    }
                }
            },
        }
    }
}

/// The thumbnail of an entry is the one it points at, with the size it is
/// stored at, and every thumbnail an entry points at is there.
pub proof fn a_thumbnail_is_found_where_an_entry_has_one(index: index::IndexView, k: int)
    requires
        index::sound(index),
        0 <= k < index.entries.len(),
    ensures
        ({
            let found = index::thumb_of(index, index.entries[k].id);
            match index.entries[k].thumb {
                Some(digest) => found == Some((digest, ledger::bytes_of(index.blobs, digest))),
                None => found is None,
            }
        }),
{
    index::placed_only(index.entries, k);
    if let Some(digest) = index.entries[k].thumb {
        let uses = index::uses(index.entries[k]);
        assert(uses[uses.len() - 1] == digest);
        assert(uses.contains(digest));
        what_an_entry_uses_is_referenced(index.entries, k, digest);
        assert(ledger::refs_of(index.blobs, digest) == index::references(index.entries, digest));
    }
}

/// An entry keeps what it points at: as long as an entry is there, so is the
/// blob of every representation it holds and of its thumbnail, and no blob is
/// there that no entry points at.
pub proof fn blobs_are_there_as_long_as_they_are_needed(
    index: index::IndexView,
    k: int,
    i: int,
    b: int,
)
    requires
        index::sound(index),
        0 <= k < index.entries.len(),
        0 <= i < index.entries[k].parts.len(),
    ensures
        exists|n: int|
            0 <= n < index.blobs.len() && (#[trigger] index.blobs[n]).digest
                == index.entries[k].parts[i].digest,
        0 <= b < index.blobs.len() ==> exists|e: int|
            0 <= e < index.entries.len() && {
                ||| (#[trigger] index.entries[e]).thumb == Some(index.blobs[b].digest)
                ||| exists|p: int|
                    0 <= p < index.entries[e].parts.len() && (
                    #[trigger] index.entries[e].parts[p]).digest == index.blobs[b].digest
            },
{
    let digest = index.entries[k].parts[i].digest;
    let uses = index::uses(index.entries[k]);
    assert(uses[i] == digest);
    assert(uses.contains(digest));
    what_an_entry_uses_is_referenced(index.entries, k, digest);
    assert(ledger::refs_of(index.blobs, digest) == index::references(index.entries, digest));
    ledger::found(index.blobs, digest);
    if 0 <= b < index.blobs.len() {
        let held = index.blobs[b].digest;
        ledger::found_only(index.blobs, b);
        assert(ledger::refs_of(index.blobs, held) == index::references(index.entries, held));
        let e = one_that_points_at(index.entries, held);
        let points = index::uses(index.entries[e]);
        let n = choose|n: int| 0 <= n < points.len() && points[n] == held;
        if n < index.entries[e].parts.len() {
            assert(index.entries[e].parts[n].digest == held);
        } else {
            assert(index.entries[e].thumb == Some(held));
        }
    }
}

proof fn one_that_points_at(entries: Seq<index::RecordView>, digest: Seq<char>) -> (e: int)
    requires
        index::references(entries, digest) > 0,
    ensures
        0 <= e < entries.len(),
        index::uses(entries[e]).contains(digest),
    decreases entries.len(),
{
    if ledger::count(index::uses(entries.last()), digest) > 0 {
        counted_is_occurring(index::uses(entries.last()), digest);
        entries.len() - 1
    } else {
        one_that_points_at(entries.drop_last(), digest)
    }
}

proof fn counted_is_occurring(digests: Seq<Seq<char>>, digest: Seq<char>)
    requires
        ledger::count(digests, digest) > 0,
    ensures
        digests.contains(digest),
    decreases digests.len(),
{
    if digests.last() != digest {
        let front = digests.drop_last();
        counted_is_occurring(front, digest);
        let i = choose|i: int| 0 <= i < front.len() && front[i] == digest;
        assert(digests[i] == digest);
    } else {
        assert(digests[digests.len() - 1] == digest);
    }
}

/// A saved entry is taken in behind those already there where its id is greater
/// than theirs, its identity none of theirs and its mime types differ; it is
/// taken in as it was saved, what it points at is counted, and nothing about it
/// has to be saved again.
pub proof fn a_restored_entry_is_what_was_saved(
    before: index::IndexView,
    entry: index::RecordView,
    thumb_bytes: nat,
)
    requires
        index::sound(before),
        entry.id <= i64::MAX,
    ensures
        index::restorable(before, entry, thumb_bytes) ==> {
            let after = index::restored(before, entry, thumb_bytes);
            let last = after.entries.last();
            &&& index::sound(after)
            &&& after.entries.len() == before.entries.len() + 1
            &&& after.entries.drop_last() == before.entries
            &&& after.changes == before.changes
            &&& last.parts.to_multiset() == entry.parts.to_multiset()
            &&& last == (index::RecordView { parts: last.parts, ..entry })
            &&& 1 <= entry.id
            &&& forall|i: int|
                0 <= i < before.entries.len() ==> (#[trigger] before.entries[i]).id < entry.id
                    && before.entries[i].identity != entry.identity
            &&& forall|i: int, j: int|
                0 <= i < j < entry.parts.len() ==> (#[trigger] entry.parts[i]).mime != (
                #[trigger] entry.parts[j]).mime
        },
        1 <= entry.id && (forall|i: int|
            0 <= i < before.entries.len() ==> (#[trigger] before.entries[i]).id < entry.id
                && before.entries[i].identity != entry.identity) && (forall|i: int, j: int|
            0 <= i < j < entry.parts.len() ==> (#[trigger] entry.parts[i]).mime != (
            #[trigger] entry.parts[j]).mime) && !index::restorable(before, entry, thumb_bytes)
            ==> !ledger::has_room(
            before.blobs,
            index::new_uses(index::serving(entry.parts), index::saved_thumb(entry, thumb_bytes)),
        ),
{
    index::identity_placed_right(before.entries, entry.identity);
    if before.entries.len() > 0 {
        assert(before.entries[before.entries.len() - 1] == before.entries.last());
    }
    if index::restorable(before, entry, thumb_bytes) {
        let after = index::restored(before, entry, thumb_bytes);
        let last = after.entries.last();
        let thumb = index::saved_thumb(entry, thumb_bytes);
        let new = index::new_uses(index::serving(entry.parts), thumb);
        serving_is_in_order(entry.parts);
        assert(ledger::digests(new) =~= index::uses(last));
        adding_an_entry(before, last, new, before.changes);
        assert(after.entries.drop_last() =~= before.entries);
        assert forall|i: int| 0 <= i < before.entries.len() implies (
        #[trigger] before.entries[i]).id < entry.id && before.entries[i].identity
            != entry.identity by {
            assert(after.entries[i].id < after.entries[after.entries.len() - 1].id);
        }
    }
}

/// Room is left as long as the sizes add up to what sixty-three bits hold and
/// no blob is pointed at more often than can be counted.
pub proof fn room_is_left_for_what_can_be_counted(
    rows: Seq<ledger::BlobView>,
    uses: Seq<ledger::Use>,
)
    ensures
        ledger::has_room(rows, uses) <==> ledger::total(rows) + ledger::weight(uses)
            <= 0x7fff_ffff_ffff_ffff && uses.len() <= 0xffff_ffff_ffff_ffff && forall|i: int|
            0 <= i < rows.len() ==> (#[trigger] rows[i]).refs + uses.len() <= 0xffff_ffff_ffff_ffff,
{
}

/// What a client is told where the index refuses an entry.
pub proof fn a_refusal_is_worded(refused: index::Refusal)
    ensures
        refused == index::Refusal::Identity ==> refused.words()
            == "UNIQUE constraint failed: entry.identity"@,
        refused == index::Refusal::Mime ==> refused.words()
            == "UNIQUE constraint failed: part.entry, part.mime"@,
        refused == index::Refusal::Full ==> refused.words() == "database or disk is full"@,
        refused == index::Refusal::Overflow ==> refused.words() == "integer overflow"@,
{
}

} // verus!
