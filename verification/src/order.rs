//! Sequences put in order one item at a time.

use vstd::prelude::*;

verus! {

/// Whether one item is to come before another.
pub type Ahead<A> = spec_fn(A, A) -> bool;

/// How many items at the front of a line a new one comes after.
pub open spec fn slot<A>(line: Seq<A>, item: A, ahead: Ahead<A>) -> int
    decreases line.len(),
{
    if line.len() == 0 || ahead(item, line[0]) {
        0
    } else {
        1 + slot(line.drop_first(), item, ahead)
    }
}

/// A line with one more item in its place.
pub open spec fn placed<A>(line: Seq<A>, item: A, ahead: Ahead<A>) -> Seq<A> {
    line.insert(slot(line, item, ahead), item)
}

/// Items put in order, each placed among those before it.
pub open spec fn ranked<A>(items: Seq<A>, ahead: Ahead<A>) -> Seq<A>
    decreases items.len(),
{
    if items.len() == 0 {
        Seq::empty()
    } else {
        placed(ranked(items.drop_last(), ahead), items.last(), ahead)
    }
}

/// What an order needs to be an order on some items: it is transitive, and it
/// tells any two of the items apart.
pub open spec fn orders<A>(ahead: Ahead<A>, items: Seq<A>) -> bool {
    &&& forall|a: A, b: A, c: A|
        #[trigger] ahead(a, b) && #[trigger] ahead(b, c) ==> ahead(a, c)
    &&& forall|i: int, j: int|
        0 <= i < j < items.len() ==> #[trigger] ahead(items[i], items[j]) || ahead(
            items[j],
            items[i],
        )
}

/// Whether each item is ahead of all that follow it.
pub open spec fn in_order<A>(line: Seq<A>, ahead: Ahead<A>) -> bool {
    forall|i: int, j: int| 0 <= i < j < line.len() ==> #[trigger] ahead(line[i], line[j])
}

/// The slot is the first place whose item the new one is ahead of.
pub proof fn slot_is_first<A>(line: Seq<A>, item: A, ahead: Ahead<A>)
    ensures
        0 <= slot(line, item, ahead) <= line.len(),
        forall|i: int| 0 <= i < slot(line, item, ahead) ==> !ahead(item, #[trigger] line[i]),
        slot(line, item, ahead) < line.len() ==> ahead(item, line[slot(line, item, ahead)]),
    decreases line.len(),
{
    if line.len() > 0 && !ahead(item, line[0]) {
        let rest = line.drop_first();
        slot_is_first(rest, item, ahead);
        let s = slot(line, item, ahead);
        assert forall|i: int| 0 <= i < s implies !ahead(item, #[trigger] line[i]) by {
            if i > 0 {
                assert(rest[i - 1] == line[i]);
            }
        }
        if s < line.len() {
            assert(rest[s - 1] == line[s]);
        }
    }
}

/// Any place with that property is the slot.
pub proof fn slot_is_only<A>(line: Seq<A>, item: A, ahead: Ahead<A>, place: int)
    requires
        0 <= place <= line.len(),
        forall|i: int| 0 <= i < place ==> !ahead(item, #[trigger] line[i]),
        place < line.len() ==> ahead(item, line[place]),
    ensures
        place == slot(line, item, ahead),
{
    slot_is_first(line, item, ahead);
    let s = slot(line, item, ahead);
    if s < place {
        assert(!ahead(item, line[s]));
    }
    if place < s {
        assert(!ahead(item, line[place]));
    }
}

/// Placing an item and cutting the line is the same whether or not the line
/// was cut before.
pub proof fn placing_in_a_cut_line<A>(line: Seq<A>, item: A, ahead: Ahead<A>, limit: int)
    requires
        0 <= limit,
    ensures
        cut(placed(line, item, ahead), limit) == cut(placed(cut(line, limit), item, ahead), limit),
{
    let short = cut(line, limit);
    slot_is_first(line, item, ahead);
    slot_is_first(short, item, ahead);
    let s = slot(line, item, ahead);
    let t = slot(short, item, ahead);
    if s < short.len() {
        assert forall|i: int| 0 <= i < s implies !ahead(item, #[trigger] short[i]) by {
            assert(short[i] == line[i]);
        }
        assert(short[s] == line[s]);
        slot_is_only(short, item, ahead, s);
    } else {
        assert forall|i: int| 0 <= i < short.len() implies !ahead(item, #[trigger] short[i]) by {
            assert(short[i] == line[i]);
        }
        slot_is_only(short, item, ahead, short.len() as int);
    }
    assert(cut(placed(line, item, ahead), limit) =~= cut(placed(short, item, ahead), limit));
}

/// At most the first `limit` items.
pub open spec fn cut<A>(line: Seq<A>, limit: int) -> Seq<A> {
    if line.len() <= limit {
        line
    } else {
        line.take(limit)
    }
}

/// Putting items in order keeps every item as often as it occurs.
pub proof fn ranking_keeps_the_items<A>(items: Seq<A>, ahead: Ahead<A>)
    ensures
        ranked(items, ahead).to_multiset() == items.to_multiset(),
        ranked(items, ahead).len() == items.len(),
    decreases items.len(),
{
    broadcast use vstd::seq_lib::group_to_multiset_ensures;

    if items.len() > 0 {
        let earlier = ranked(items.drop_last(), ahead);
        ranking_keeps_the_items(items.drop_last(), ahead);
        slot_is_first(earlier, items.last(), ahead);
        assert(items =~= items.drop_last().push(items.last()));
        vstd::seq_lib::to_multiset_insert(
            earlier,
            slot(earlier, items.last(), ahead),
            items.last(),
        );
    } else {
        assert(ranked(items, ahead) =~= items);
    }
}

/// Whatever holds of all items holds of all items in order, and the other way
/// round.
pub proof fn ranking_keeps_membership<A>(items: Seq<A>, ahead: Ahead<A>, item: A)
    ensures
        ranked(items, ahead).contains(item) <==> items.contains(item),
        ranked(items, ahead).len() == items.len(),
{
    broadcast use vstd::seq_lib::group_to_multiset_ensures;

    ranking_keeps_the_items(items, ahead);
    assert(ranked(items, ahead).to_multiset().count(item) > 0 <==> ranked(items, ahead).contains(
        item,
    ));
    assert(items.to_multiset().count(item) > 0 <==> items.contains(item));
}

/// Items put in order by an order on them are in order.
pub proof fn ranking_puts_in_order<A>(items: Seq<A>, ahead: Ahead<A>)
    requires
        orders(ahead, items),
    ensures
        in_order(ranked(items, ahead), ahead),
    decreases items.len(),
{
    if items.len() > 0 {
        let front = items.drop_last();
        let item = items.last();
        assert forall|i: int, j: int| 0 <= i < j < front.len() implies #[trigger] ahead(
            front[i],
            front[j],
        ) || ahead(front[j], front[i]) by {
            assert(ahead(items[i], items[j]) || ahead(items[j], items[i]));
        }
        ranking_puts_in_order(front, ahead);
        let line = ranked(front, ahead);
        let s = slot(line, item, ahead);
        slot_is_first(line, item, ahead);
        let result = ranked(items, ahead);
        assert forall|i: int, j: int| 0 <= i < j < result.len() implies #[trigger] ahead(
            result[i],
            result[j],
        ) by {
            if j < s {
                assert(ahead(line[i], line[j]));
            } else if i > s {
                assert(ahead(line[i - 1], line[j - 1]));
            } else if i == s {
                assert(ahead(item, line[s]));
                if j - 1 > s {
                    assert(ahead(line[s], line[j - 1]));
                }
            } else {
                // The item at `i` precedes the slot, so the new one is not
                // ahead of it.
                assert(!ahead(item, line[i]));
                ranking_keeps_membership(front, ahead, line[i]);
                assert(line.contains(line[i]));
                let k = choose|k: int| 0 <= k < front.len() && front[k] == line[i];
                assert(ahead(items[k], items[items.len() - 1]) || ahead(
                    items[items.len() - 1],
                    items[k],
                ));
                assert(ahead(line[i], item));
                if j > s {
                    assert(ahead(line[i], line[j - 1]));
                }
            }
        }
    }
}

/// A line that is in order stays as it is.
pub proof fn ranking_keeps_a_line_in_order<A>(line: Seq<A>, ahead: Ahead<A>)
    requires
        in_order(line, ahead),
        forall|a: A, b: A| #[trigger] ahead(a, b) ==> !ahead(b, a),
    ensures
        ranked(line, ahead) == line,
    decreases line.len(),
{
    if line.len() > 0 {
        let front = line.drop_last();
        let item = line.last();
        assert forall|i: int, j: int| 0 <= i < j < front.len() implies #[trigger] ahead(
            front[i],
            front[j],
        ) by {
            assert(ahead(line[i], line[j]));
        }
        ranking_keeps_a_line_in_order(front, ahead);
        assert forall|i: int| 0 <= i < front.len() implies !ahead(item, #[trigger] front[i]) by {
            assert(ahead(line[i], line[line.len() - 1]));
        }
        slot_is_only(front, item, ahead, front.len() as int);
        assert(ranked(line, ahead) =~= line);
    } else {
        assert(ranked(line, ahead) =~= line);
    }
}

} // verus!
