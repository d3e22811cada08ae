//! What makes two clipboard events the same entry.

use crate::order;
use crate::store::blobs;
use crate::store::index;
use crate::text;
use vstd::prelude::*;

verus! {

/// The order texts sort in.
pub open spec fn text_order() -> order::Ahead<Seq<char>> {
    |a: Seq<char>, b: Seq<char>| text::before(a, b)
}

/// One representation's line: its mime type and the digest of its content.
pub open spec fn line_of(part: index::PartView) -> Seq<char> {
    part.mime + seq!['\0'] + part.digest
}

/// The lines of some representations, sorted and each once.
pub open spec fn lines(parts: Seq<index::PartView>) -> Seq<Seq<char>>
    decreases parts.len(),
{
    if parts.len() == 0 {
        Seq::empty()
    } else {
        let earlier = lines(parts.drop_last());
        let line = line_of(parts.last());
        if earlier.contains(line) {
            earlier
        } else {
            order::placed(earlier, line, text_order())
        }
    }
}

/// Lines written one after the other, each ended by a newline.
pub open spec fn ended(lines: Seq<Seq<char>>) -> Seq<char>
    decreases lines.len(),
{
    if lines.len() == 0 {
        Seq::empty()
    } else {
        ended(lines.drop_last()) + lines.last() + seq!['\n']
    }
}

/// An entry's identity: the digest of its sorted `(mime, content digest)` set.
pub open spec fn identity_of(parts: Seq<index::PartView>) -> Seq<char> {
    blobs::name_of(vstd::utf8::encode_utf8(ended(lines(parts))))
}

/// The lines hold every representation's line and nothing else, in strictly
/// rising order.
pub proof fn lines_are_a_sorted_set(parts: Seq<index::PartView>)
    ensures
        order::in_order(lines(parts), text_order()),
        forall|line: Seq<char>| #[trigger]
            lines(parts).contains(line) <==> exists|i: int|
                0 <= i < parts.len() && line == line_of(#[trigger] parts[i]),
    decreases parts.len(),
{
    let ahead = text_order();
    let all = lines(parts);
    if parts.len() > 0 {
        let front = parts.drop_last();
        lines_are_a_sorted_set(front);
        let earlier = lines(front);
        let line = line_of(parts.last());
        if !earlier.contains(line) {
            let s = order::slot(earlier, line, ahead);
            order::slot_is_first(earlier, line, ahead);
            assert forall|i: int, j: int| 0 <= i < j < all.len() implies #[trigger] ahead(
                all[i],
                all[j],
            ) by {
                if j < s {
                    assert(ahead(earlier[i], earlier[j]));
                } else if i > s {
                    assert(ahead(earlier[i - 1], earlier[j - 1]));
                } else if i == s {
                    assert(ahead(line, earlier[s]));
                    if j - 1 > s {
                        assert(ahead(earlier[s], earlier[j - 1]));
                        text::before_transitive(line, earlier[s], earlier[j - 1]);
                    }
                } else {
                    assert(!ahead(line, earlier[i]));
                    assert(earlier.contains(earlier[i]));
                    text::before_total(line, earlier[i]);
                    if j > s {
                        assert(ahead(earlier[i], earlier[j - 1]));
                    }
                }
            }
            assert forall|other: Seq<char>| #[trigger]
                all.contains(other) <==> earlier.contains(other) || other == line by {
                if all.contains(other) {
                    let k = choose|k: int| 0 <= k < all.len() && all[k] == other;
                    if k < s {
                        assert(earlier[k] == other);
                    } else if k > s {
                        assert(earlier[k - 1] == other);
                    }
                }
                if earlier.contains(other) {
                    let k = choose|k: int| 0 <= k < earlier.len() && earlier[k] == other;
                    if k < s {
                        assert(all[k] == other);
                    } else {
                        assert(all[k + 1] == other);
                    }
                }
                assert(all[s] == line);
            }
        }
        assert forall|other: Seq<char>| #[trigger] all.contains(other) <==> exists|i: int|
            0 <= i < parts.len() && other == line_of(#[trigger] parts[i]) by {
            assert(all.contains(other) <==> earlier.contains(other) || other == line);
            if earlier.contains(other) {
                let i = choose|i: int|
                    0 <= i < front.len() && other == line_of(#[trigger] front[i]);
                assert(other == line_of(parts[i]));
            }
            if other == line {
                assert(other == line_of(parts[parts.len() - 1]));
            }
            if exists|i: int| 0 <= i < parts.len() && other == line_of(#[trigger] parts[i]) {
                let i = choose|i: int|
                    0 <= i < parts.len() && other == line_of(#[trigger] parts[i]);
                if i < front.len() {
                    assert(other == line_of(front[i]));
                }
            }
        }
    }
}

/// Two strictly rising sequences of the same texts are the same sequence.
proof fn one_sorted_set(a: Seq<Seq<char>>, b: Seq<Seq<char>>)
    requires
        order::in_order(a, text_order()),
        order::in_order(b, text_order()),
        forall|line: Seq<char>| #[trigger] a.contains(line) <==> b.contains(line),
    ensures
        a == b,
    decreases a.len(),
{
    let ahead = text_order();
    if a.len() == 0 {
        if b.len() > 0 {
            assert(b.contains(b[0]));
            assert(a.contains(b[0]));
        }
        assert(a =~= b);
    } else {
        assert(a.contains(a[0]));
        assert(b.contains(a[0]));
        assert(b.contains(b[0]));
        assert(a.contains(b[0]));
        let k = choose|k: int| 0 <= k < b.len() && b[k] == a[0];
        let n = choose|n: int| 0 <= n < a.len() && a[n] == b[0];
        if k > 0 && n > 0 {
            assert(ahead(b[0], b[k]));
            assert(ahead(a[0], a[n]));
            text::before_transitive(a[0], b[0], a[0]);
            text::before_irreflexive(a[0]);
        }
        assert(a[0] == b[0]);
        let ra = a.drop_first();
        let rb = b.drop_first();
        assert forall|i: int, j: int| 0 <= i < j < ra.len() implies #[trigger] ahead(
            ra[i],
            ra[j],
        ) by {
            assert(ahead(a[i + 1], a[j + 1]));
        }
        assert forall|i: int, j: int| 0 <= i < j < rb.len() implies #[trigger] ahead(
            rb[i],
            rb[j],
        ) by {
            assert(ahead(b[i + 1], b[j + 1]));
        }
        assert forall|line: Seq<char>| #[trigger] ra.contains(line) <==> rb.contains(line) by {
            rest_of_a_sorted_set(a, line);
            rest_of_a_sorted_set(b, line);
            assert(a.contains(line) <==> b.contains(line));
        }
        one_sorted_set(ra, rb);
        assert(a =~= seq![a[0]] + ra);
        assert(b =~= seq![b[0]] + rb);
    }
}

proof fn rest_of_a_sorted_set(a: Seq<Seq<char>>, line: Seq<char>)
    requires
        order::in_order(a, text_order()),
        a.len() > 0,
    ensures
        a.drop_first().contains(line) <==> a.contains(line) && line != a[0],
{
    let ahead = text_order();
    let rest = a.drop_first();
    if rest.contains(line) {
        let k = choose|k: int| 0 <= k < rest.len() && rest[k] == line;
        assert(a[k + 1] == line);
        assert(ahead(a[0], a[k + 1]));
        text::before_irreflexive(line);
    }
    if a.contains(line) && line != a[0] {
        let k = choose|k: int| 0 <= k < a.len() && a[k] == line;
        assert(rest[k - 1] == line);
    }
}

/// Whether every pair of mime type and digest in one event is in another.
pub open spec fn offers_all(a: Seq<index::PartView>, b: Seq<index::PartView>) -> bool {
    forall|i: int|
        0 <= i < a.len() ==> exists|j: int|
            0 <= j < b.len() && (#[trigger] b[j]).mime == (#[trigger] a[i]).mime && b[j].digest
                == a[i].digest
}

/// Two clipboard events are the same entry when they offer the same
/// representations with the same bytes, whatever order they arrive in and
/// however often each is offered.
pub proof fn the_order_of_representations_is_no_part_of_an_identity(
    a: Seq<index::PartView>,
    b: Seq<index::PartView>,
)
    requires
        offers_all(a, b),
        offers_all(b, a),
    ensures
        identity_of(a) == identity_of(b),
{
    lines_are_a_sorted_set(a);
    lines_are_a_sorted_set(b);
    assert forall|line: Seq<char>| #[trigger]
        lines(a).contains(line) <==> lines(b).contains(line) by {
        same_lines(a, b, line);
        same_lines(b, a, line);
    }
    one_sorted_set(lines(a), lines(b));
}

proof fn same_lines(a: Seq<index::PartView>, b: Seq<index::PartView>, line: Seq<char>)
    requires
        offers_all(a, b),
    ensures
        lines(a).contains(line) ==> lines(b).contains(line),
{
    lines_are_a_sorted_set(a);
    lines_are_a_sorted_set(b);
    if lines(a).contains(line) {
        let i = choose|i: int| 0 <= i < a.len() && line == line_of(#[trigger] a[i]);
        assert(exists|j: int|
            0 <= j < b.len() && (#[trigger] b[j]).mime == a[i].mime && b[j].digest == a[i].digest);
        let j = choose|j: int|
            0 <= j < b.len() && (#[trigger] b[j]).mime == a[i].mime && b[j].digest == a[i].digest;
        assert(line_of(b[j]) == line_of(a[i]));
    }
}

/// Whether some representations can be told apart in writing: neither a mime
/// type nor a digest holds what lines are divided and ended by.
pub open spec fn plain(parts: Seq<index::PartView>) -> bool {
    &&& forall|i: int, j: int|
        0 <= i < parts.len() && 0 <= j < parts[i].mime.len() ==> #[trigger] parts[i].mime[j] != '\0'
            && parts[i].mime[j] != '\n'
    &&& forall|i: int, j: int|
        0 <= i < parts.len() && 0 <= j < parts[i].digest.len() ==> #[trigger] parts[i].digest[j]
            != '\0' && parts[i].digest[j] != '\n'
}

/// Whether a text has no newline in it.
spec fn unbroken(line: Seq<char>) -> bool {
    forall|i: int| 0 <= i < line.len() ==> #[trigger] line[i] != '\n'
}

/// Written lines are empty or end with a newline.
proof fn ended_ends(lines: Seq<Seq<char>>)
    ensures
        lines.len() > 0 ==> ended(lines).len() > 0 && ended(lines).last() == '\n',
{
}

/// Different lines differ when they are written.
proof fn written_lines_are_told_apart(a: Seq<Seq<char>>, b: Seq<Seq<char>>)
    requires
        forall|i: int| 0 <= i < a.len() ==> unbroken(#[trigger] a[i]),
        forall|i: int| 0 <= i < b.len() ==> unbroken(#[trigger] b[i]),
        ended(a) == ended(b),
    ensures
        a == b,
    decreases a.len(),
{
    ended_ends(a);
    ended_ends(b);
    if a.len() == 0 || b.len() == 0 {
        assert(a =~= b);
    } else {
        let fa = ended(a.drop_last());
        let fb = ended(b.drop_last());
        let la = a.last();
        let lb = b.last();
        let whole = ended(a);
        ended_ends(a.drop_last());
        ended_ends(b.drop_last());
        assert(unbroken(a[a.len() - 1]) && unbroken(b[b.len() - 1]));
        assert(whole == fa + la + seq!['\n']);
        assert(whole == fb + lb + seq!['\n']);
        if fa.len() < fb.len() {
            assert(whole[fb.len() - 1] == fb.last());
            assert(whole[fb.len() - 1] == la[fb.len() - 1 - fa.len()]);
        }
        if fb.len() < fa.len() {
            assert(whole[fa.len() - 1] == fa.last());
            assert(whole[fa.len() - 1] == lb[fa.len() - 1 - fb.len()]);
        }
        assert(fa =~= whole.take(fa.len() as int));
        assert(fb =~= whole.take(fb.len() as int));
        assert(la =~= whole.subrange(fa.len() as int, whole.len() - 1));
        assert(lb =~= whole.subrange(fb.len() as int, whole.len() - 1));
        assert forall|i: int| 0 <= i < a.drop_last().len() implies unbroken(
            #[trigger] a.drop_last()[i],
        ) by {
            assert(unbroken(a[i]));
        }
        assert forall|i: int| 0 <= i < b.drop_last().len() implies unbroken(
            #[trigger] b.drop_last()[i],
        ) by {
            assert(unbroken(b[i]));
        }
        written_lines_are_told_apart(a.drop_last(), b.drop_last());
        assert(a =~= a.drop_last().push(la));
        assert(b =~= b.drop_last().push(lb));
    }
}

/// Different pairs of mime type and digest make different lines.
proof fn pairs_are_told_apart(
    a: Seq<index::PartView>,
    b: Seq<index::PartView>,
    i: int,
    j: int,
)
    requires
        plain(a),
        plain(b),
        0 <= i < a.len(),
        0 <= j < b.len(),
        line_of(a[i]) == line_of(b[j]),
    ensures
        a[i].mime == b[j].mime,
        a[i].digest == b[j].digest,
{
    let line = line_of(a[i]);
    let m = a[i].mime.len() as int;
    let n = b[j].mime.len() as int;
    assert(line[m] == '\0');
    assert(line[n] == '\0');
    if m < n {
        assert(line[m] == b[j].mime[m]);
    }
    if n < m {
        assert(line[n] == a[i].mime[n]);
    }
    assert(a[i].mime =~= line.take(m));
    assert(b[j].mime =~= line.take(n));
    assert(a[i].digest =~= line.skip(m + 1));
    assert(b[j].digest =~= line.skip(n + 1));
}

proof fn lines_are_unbroken(parts: Seq<index::PartView>)
    requires
        plain(parts),
    ensures
        forall|k: int| 0 <= k < lines(parts).len() ==> unbroken(#[trigger] lines(parts)[k]),
{
    lines_are_a_sorted_set(parts);
    assert forall|k: int| 0 <= k < lines(parts).len() implies unbroken(
        #[trigger] lines(parts)[k],
    ) by {
        let line = lines(parts)[k];
        assert(lines(parts).contains(line));
        let i = choose|i: int| 0 <= i < parts.len() && line == line_of(#[trigger] parts[i]);
        let m = parts[i].mime.len() as int;
        assert forall|p: int| 0 <= p < line.len() implies #[trigger] line[p] != '\n' by {
            if p < m {
                assert(line[p] == parts[i].mime[p]);
            } else if p > m {
                assert(line[p] == parts[i].digest[p - m - 1]);
            }
        }
    }
}

/// Different sets of mime types and digests give different texts to hash, where
/// neither holds what lines are divided and ended by.
pub proof fn different_representations_are_written_differently(
    a: Seq<index::PartView>,
    b: Seq<index::PartView>,
)
    requires
        plain(a),
        plain(b),
        ended(lines(a)) == ended(lines(b)),
    ensures
        offers_all(a, b),
        offers_all(b, a),
{
    lines_are_unbroken(a);
    lines_are_unbroken(b);
    written_lines_are_told_apart(lines(a), lines(b));
    the_same_lines_offer_all(a, b);
    the_same_lines_offer_all(b, a);
}

proof fn the_same_lines_offer_all(a: Seq<index::PartView>, b: Seq<index::PartView>)
    requires
        plain(a),
        plain(b),
        lines(a) == lines(b),
    ensures
        offers_all(a, b),
{
    lines_are_a_sorted_set(a);
    lines_are_a_sorted_set(b);
    assert forall|i: int| 0 <= i < a.len() implies exists|j: int|
        0 <= j < b.len() && (#[trigger] b[j]).mime == (#[trigger] a[i]).mime && b[j].digest
            == a[i].digest by {
        let line = line_of(a[i]);
        assert(lines(a).contains(line));
        let j = choose|j: int| 0 <= j < b.len() && line == line_of(#[trigger] b[j]);
        pairs_are_told_apart(a, b, i, j);
        assert(b[j].mime == a[i].mime);
    }
}

/// Different representations have different identities, up to collisions of
/// SHA-256: where two sets that differ have the same identity, the texts hashed
/// for them differ and have the same digest.
pub proof fn different_representations_have_different_identities(
    a: Seq<index::PartView>,
    b: Seq<index::PartView>,
)
    requires
        plain(a),
        plain(b),
        identity_of(a) == identity_of(b),
        !(offers_all(a, b) && offers_all(b, a)),
    ensures
        ({
            let one = vstd::utf8::encode_utf8(ended(lines(a)));
            let other = vstd::utf8::encode_utf8(ended(lines(b)));
            one != other && blobs::sha256(one) == blobs::sha256(other)
        }),
{
    let one = vstd::utf8::encode_utf8(ended(lines(a)));
    let other = vstd::utf8::encode_utf8(ended(lines(b)));
    vstd::utf8::encode_utf8_decode_utf8(ended(lines(a)));
    vstd::utf8::encode_utf8_decode_utf8(ended(lines(b)));
    blobs::hex_tells_bytes_apart(blobs::sha256(one), blobs::sha256(other));
    if one == other {
        different_representations_are_written_differently(a, b);
    }
}

/// An entry's identity: the digest of its sorted `(mime, content digest)` set.
///
/// Two clipboard events are the same entry when they offer the same
/// representations with the same bytes, whatever order they arrived in and
/// whatever application produced them.
pub fn identity(parts: &[index::Part]) -> (identity: String)
    ensures
        identity@ == identity_of(index::part_views(parts@)),
        blobs::is_digest(identity@),
{
    let ghost all = index::part_views(parts@);
    let ghost ahead = text_order();
    let mut sorted: Vec<String> = Vec::new();
    let mut i: usize = 0;
    assert(text::contents(sorted@) =~= lines(all.take(0)));
    while i < parts.len()
        invariant
            i <= parts.len(),
            all == index::part_views(parts@),
            ahead == text_order(),
            text::contents(sorted@) == lines(all.take(i as int)),
        decreases parts.len() - i,
    {
        let mut line = parts[i].mime.clone();
        line.push('\0');
        text::push_text(&mut line, parts[i].digest.as_str());
        let ghost written = text::contents(sorted@);
        proof {
            assert(line@ =~= line_of(all[i as int]));
            assert(all.take(i as int + 1).drop_last() =~= all.take(i as int));
            assert(all.take(i as int + 1).last() == all[i as int]);
        }
        let mut slot: usize = 0;
        let mut known: bool = false;
        while slot < sorted.len() && !text::sorts_before(line.as_str(), sorted[slot].as_str())
            invariant
                slot <= sorted.len(),
                written == text::contents(sorted@),
                ahead == text_order(),
                known == exists|k: int| 0 <= k < slot && #[trigger] written[k] == line@,
                forall|k: int| 0 <= k < slot ==> !ahead(line@, #[trigger] written[k]),
            decreases sorted.len() - slot,
        {
            assert(written[slot as int] == sorted@[slot as int]@);
            if text::same(line.as_str(), sorted[slot].as_str()) {
                known = true;
            }
            slot += 1;
        }
        proof {
            lines_are_a_sorted_set(all.take(i as int));
            if slot < sorted.len() {
                assert(written[slot as int] == sorted@[slot as int]@);
                assert(ahead(line@, written[slot as int]));
            }
            order::slot_is_only(written, line@, ahead, slot as int);
            // Everything from the slot on sorts after the line.
            if !known && written.contains(line@) {
                let k = choose|k: int| 0 <= k < written.len() && written[k] == line@;
                assert(k >= slot);
                if k > slot {
                    assert(ahead(written[slot as int], written[k]));
                    text::before_transitive(line@, written[slot as int], line@);
                }
                text::before_irreflexive(line@);
            }
            if known {
                let k = choose|k: int| 0 <= k < slot && #[trigger] written[k] == line@;
                assert(written.contains(line@));
            }
        }
        if !known {
            let ghost content = line@;
            sorted.insert(slot, line);
            assert(text::contents(sorted@) =~= written.insert(slot as int, content));
        }
        i += 1;
    }
    assert(all.take(all.len() as int) =~= all);

    let ghost every = text::contents(sorted@);
    let mut whole = String::new();
    let mut n: usize = 0;
    assert(ended(every.take(0)) =~= Seq::empty());
    while n < sorted.len()
        invariant
            n <= sorted.len(),
            every == text::contents(sorted@),
            whole@ == ended(every.take(n as int)),
        decreases sorted.len() - n,
    {
        assert(every.take(n as int + 1).drop_last() =~= every.take(n as int));
        text::push_text(&mut whole, sorted[n].as_str());
        whole.push('\n');
        assert(whole@ =~= ended(every.take(n as int + 1)));
        n += 1;
    }
    assert(every.take(every.len() as int) =~= every);
    blobs::digest_of(whole.as_str().as_bytes())
}

/// An identity is the name of a text with one line for each representation: its
/// mime type, a zero character, its content's digest and a newline. The lines
/// are in order, and one that occurs already is not written again.
pub proof fn an_identity_names_its_lines(
    parts: Seq<index::PartView>,
    part: index::PartView,
    written: Seq<Seq<char>>,
    line: Seq<char>,
)
    ensures
        identity_of(parts) == blobs::hex_of(
            blobs::sha256(vstd::utf8::encode_utf8(ended(lines(parts)))),
        ),
        line_of(part) == part.mime + seq!['\0'] + part.digest,
        ended(Seq::empty()) == Seq::<char>::empty(),
        ended(written.push(line)) == ended(written) + line + seq!['\n'],
        forall|i: int, j: int|
            0 <= i < j < lines(parts).len() ==> text::before(
                #[trigger] lines(parts)[i],
                #[trigger] lines(parts)[j],
            ),
        forall|i: int| 0 <= i < parts.len() ==> lines(parts).contains(line_of(#[trigger] parts[i])),
{
    lines_are_a_sorted_set(parts);
    assert(written.push(line).drop_last() =~= written);
    let ahead = text_order();
    assert forall|i: int, j: int| 0 <= i < j < lines(parts).len() implies text::before(
        #[trigger] lines(parts)[i],
        #[trigger] lines(parts)[j],
    ) by {
        assert(ahead(lines(parts)[i], lines(parts)[j]));
    }
}

} // verus!
