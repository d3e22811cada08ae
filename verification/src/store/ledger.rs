//! The blobs the archive holds, and how many references each has.

use crate::text;
use vstd::prelude::*;

verus! {

/// One stored blob: its name, its size and how many representations and
/// thumbnails point at it.
pub struct Blob {
    pub digest: String,
    pub bytes: u64,
    pub refs: u64,
}

/// A blob as the contracts speak of it.
pub struct BlobView {
    pub digest: Seq<char>,
    pub bytes: nat,
    pub refs: nat,
}

impl View for Blob {
    type V = BlobView;

    open spec fn view(&self) -> BlobView {
        BlobView { digest: self.digest@, bytes: self.bytes as nat, refs: self.refs as nat }
    }
}

/// A digest and the size of what it names.
pub type Use = (Seq<char>, nat);

/// The most bytes the archive can account for.
pub const MOST_BYTES: u64 = 0x7fff_ffff_ffff_ffff;

/// Where the blob with a digest stands.
pub open spec fn find(rows: Seq<BlobView>, digest: Seq<char>) -> Option<int>
    decreases rows.len(),
{
    if rows.len() == 0 {
        None
    } else if rows.last().digest == digest {
        Some(rows.len() - 1)
    } else {
        find(rows.drop_last(), digest)
    }
}

/// How many references the blob with a digest has; none where there is no such
/// blob.
pub open spec fn refs_of(rows: Seq<BlobView>, digest: Seq<char>) -> nat {
    match find(rows, digest) {
        Some(i) => rows[i].refs,
        None => 0,
    }
}

/// How large the blob with a digest is; nothing where there is no such blob.
pub open spec fn bytes_of(rows: Seq<BlobView>, digest: Seq<char>) -> nat {
    match find(rows, digest) {
        Some(i) => rows[i].bytes,
        None => 0,
    }
}

/// The bytes of the blobs with some digests together.
pub open spec fn sizes(rows: Seq<BlobView>, digests: Seq<Seq<char>>) -> nat
    decreases digests.len(),
{
    if digests.len() == 0 {
        0
    } else {
        sizes(rows, digests.drop_last()) + bytes_of(rows, digests.last())
    }
}

/// The bytes all blobs take together, each counted once.
pub open spec fn total(rows: Seq<BlobView>) -> nat
    decreases rows.len(),
{
    if rows.len() == 0 {
        0
    } else {
        total(rows.drop_last()) + rows.last().bytes
    }
}

/// No digest occurs twice and every blob is referenced.
pub open spec fn sound(rows: Seq<BlobView>) -> bool {
    &&& forall|i: int, j: int|
        0 <= i < j < rows.len() ==> (#[trigger] rows[i]).digest != (#[trigger] rows[j]).digest
    &&& forall|i: int| 0 <= i < rows.len() ==> (#[trigger] rows[i]).refs >= 1
    &&& total(rows) <= MOST_BYTES
}

/// The blobs after one more reference to a digest. The size is recorded the
/// first time the digest is seen.
pub open spec fn referenced(rows: Seq<BlobView>, digest: Seq<char>, bytes: nat) -> Seq<BlobView> {
    match find(rows, digest) {
        Some(i) => rows.update(i, (BlobView { refs: rows[i].refs + 1, ..rows[i] })),
        None => rows.push((BlobView { digest, bytes, refs: 1 })),
    }
}

/// The blobs after one reference more for each of some digests.
pub open spec fn all_referenced(rows: Seq<BlobView>, uses: Seq<Use>) -> Seq<BlobView>
    decreases uses.len(),
{
    if uses.len() == 0 {
        rows
    } else {
        referenced(all_referenced(rows, uses.drop_last()), uses.last().0, uses.last().1)
    }
}

/// Whether dropping one reference to a digest leaves it with none.
pub open spec fn falls(rows: Seq<BlobView>, digest: Seq<char>) -> bool {
    refs_of(rows, digest) <= 1
}

/// The blobs after one reference to a digest less. One that falls to none is
/// gone.
pub open spec fn released(rows: Seq<BlobView>, digest: Seq<char>) -> Seq<BlobView> {
    match find(rows, digest) {
        Some(i) => if rows[i].refs <= 1 {
            rows.remove(i)
        } else {
            rows.update(i, (BlobView { refs: (rows[i].refs - 1) as nat, ..rows[i] }))
        },
        None => rows,
    }
}

/// The blobs after one reference less for each of some digests.
pub open spec fn all_released(rows: Seq<BlobView>, digests: Seq<Seq<char>>) -> Seq<BlobView>
    decreases digests.len(),
{
    if digests.len() == 0 {
        rows
    } else {
        released(all_released(rows, digests.drop_last()), digests.last())
    }
}

/// The digests that fall to no reference when each of some is dropped once, in
/// the order they fall.
pub open spec fn fallen(rows: Seq<BlobView>, digests: Seq<Seq<char>>) -> Seq<Seq<char>>
    decreases digests.len(),
{
    if digests.len() == 0 {
        Seq::empty()
    } else {
        let earlier = fallen(rows, digests.drop_last());
        if falls(all_released(rows, digests.drop_last()), digests.last()) {
            earlier.push(digests.last())
        } else {
            earlier
        }
    }
}

/// The bytes of some digests together, repeats counted again.
pub open spec fn weight(uses: Seq<Use>) -> nat
    decreases uses.len(),
{
    if uses.len() == 0 {
        0
    } else {
        weight(uses.drop_last()) + uses.last().1
    }
}

/// How often a digest occurs.
pub open spec fn count(digests: Seq<Seq<char>>, digest: Seq<char>) -> nat
    decreases digests.len(),
{
    if digests.len() == 0 {
        0
    } else {
        count(digests.drop_last(), digest) + if digests.last() == digest {
            1nat
        } else {
            0
        }
    }
}

/// The digests of some uses.
pub open spec fn digests(uses: Seq<Use>) -> Seq<Seq<char>> {
    Seq::new(uses.len(), |i: int| uses[i].0)
}

/// Whether one more reference for each of some digests can be accounted for.
pub open spec fn has_room(rows: Seq<BlobView>, uses: Seq<Use>) -> bool {
    &&& total(rows) + weight(uses) <= MOST_BYTES
    &&& forall|i: int| 0 <= i < rows.len() ==> (#[trigger] rows[i]).refs + uses.len() <= u64::MAX
    &&& uses.len() <= u64::MAX
}

// ---------------------------------------------------------------------------
// What the definitions mean
// ---------------------------------------------------------------------------

/// A blob is found where it stands, and not found only where it is not.
pub proof fn found(rows: Seq<BlobView>, digest: Seq<char>)
    ensures
        match find(rows, digest) {
            Some(i) => 0 <= i < rows.len() && rows[i].digest == digest,
            None => forall|i: int| 0 <= i < rows.len() ==> (#[trigger] rows[i]).digest != digest,
        },
    decreases rows.len(),
{
    if rows.len() > 0 && rows.last().digest != digest {
        let front = rows.drop_last();
        found(front, digest);
        if find(front, digest) is None {
            assert forall|i: int| 0 <= i < rows.len() implies (#[trigger] rows[i]).digest
                != digest by {
                if i < front.len() {
                    assert(front[i].digest != digest);
                }
            }
        }
    }
}

/// Where digests do not repeat, a blob stands where it is found and nowhere
/// else.
pub proof fn found_only(rows: Seq<BlobView>, place: int)
    requires
        forall|i: int, j: int|
            0 <= i < j < rows.len() ==> (#[trigger] rows[i]).digest != (#[trigger] rows[j]).digest,
        0 <= place < rows.len(),
    ensures
        find(rows, rows[place].digest) == Some(place),
{
    found(rows, rows[place].digest);
}

proof fn total_changed(rows: Seq<BlobView>, place: int, row: BlobView)
    requires
        0 <= place < rows.len(),
        row.bytes == rows[place].bytes,
    ensures
        total(rows.update(place, row)) == total(rows),
    decreases rows.len(),
{
    let changed = rows.update(place, row);
    if place == rows.len() - 1 {
        assert(changed.drop_last() =~= rows.drop_last());
    } else {
        total_changed(rows.drop_last(), place, row);
        assert(changed.drop_last() =~= rows.drop_last().update(place, row));
    }
}

proof fn total_removed(rows: Seq<BlobView>, place: int)
    requires
        0 <= place < rows.len(),
    ensures
        total(rows.remove(place)) + rows[place].bytes == total(rows),
    decreases rows.len(),
{
    let fewer = rows.remove(place);
    if place == rows.len() - 1 {
        assert(fewer =~= rows.drop_last());
    } else {
        total_removed(rows.drop_last(), place);
        assert(fewer.drop_last() =~= rows.drop_last().remove(place));
        assert(fewer.last() == rows.last());
    }
}

/// One more reference is counted for that digest and for no other, and the
/// digest's bytes are counted once.
pub proof fn referencing(rows: Seq<BlobView>, digest: Seq<char>, bytes: nat)
    requires
        sound(rows),
        find(rows, digest) is None ==> total(rows) + bytes <= MOST_BYTES,
    ensures
        sound(referenced(rows, digest, bytes)),
        forall|other: Seq<char>| #[trigger]
            refs_of(referenced(rows, digest, bytes), other) == refs_of(rows, other) + if other
                == digest {
                1nat
            } else {
                0
            },
        total(referenced(rows, digest, bytes)) == total(rows) + if find(rows, digest) is None {
            bytes
        } else {
            0
        },
{
    let after = referenced(rows, digest, bytes);
    found(rows, digest);
    match find(rows, digest) {
        Some(i) => {
            total_changed(rows, i, after[i]);
            assert forall|a: int, b: int| 0 <= a < b < after.len() implies (#[trigger] after[a]).digest
                != (#[trigger] after[b]).digest by {
                assert(rows[a].digest != rows[b].digest);
            }
        },
        None => {
            assert(after.drop_last() =~= rows);
        },
    }
    assert forall|other: Seq<char>| #[trigger] refs_of(after, other) == refs_of(rows, other) + if other
        == digest {
        1nat
    } else {
        0
    } by {
        found(rows, other);
        found(after, other);
        match find(rows, digest) {
            Some(i) => {
                match find(after, other) {
                    Some(k) => {
                        assert(rows[k].digest == other);
                        found_only(rows, k);
                    },
                    None => {
                        if let Some(k) = find(rows, other) {
                            assert(after[k].digest == other);
                        }
                    },
                }
            },
            None => {
                match find(after, other) {
                    Some(k) => {
                        if k < rows.len() {
                            assert(rows[k].digest == other);
                            found_only(rows, k);
                        }
                    },
                    None => {
                        if let Some(k) = find(rows, other) {
                            assert(after[k].digest == other);
                        }
                        assert(after[rows.len() as int].digest == digest);
                    },
                }
            },
        }
    }
}

/// One reference less is counted for that digest and for no other, and the
/// bytes of a blob that falls to none are no longer counted.
pub proof fn releasing(rows: Seq<BlobView>, digest: Seq<char>)
    requires
        sound(rows),
        refs_of(rows, digest) >= 1,
    ensures
        sound(released(rows, digest)),
        forall|other: Seq<char>| #[trigger]
            refs_of(released(rows, digest), other) == refs_of(rows, other) - if other == digest {
                1int
            } else {
                0
            },
        forall|other: Seq<char>| #[trigger]
            refs_of(released(rows, digest), other) > 0 ==> bytes_of(released(rows, digest), other)
                == bytes_of(rows, other),
        total(released(rows, digest)) + (if falls(rows, digest) {
            bytes_of(rows, digest)
        } else {
            0
        }) == total(rows),
{
    let after = released(rows, digest);
    found(rows, digest);
    let i = find(rows, digest)->0;
    if rows[i].refs <= 1 {
        total_removed(rows, i);
        assert forall|a: int, b: int| 0 <= a < b < after.len() implies (#[trigger] after[a]).digest
            != (#[trigger] after[b]).digest by {
            let c = if a < i {
                a
            } else {
                a + 1
            };
            let d = if b < i {
                b
            } else {
                b + 1
            };
            assert(after[a] == rows[c] && after[b] == rows[d]);
        }
        assert forall|a: int| 0 <= a < after.len() implies (#[trigger] after[a]).refs >= 1 by {
            let c = if a < i {
                a
            } else {
                a + 1
            };
            assert(after[a] == rows[c]);
        }
    } else {
        total_changed(rows, i, after[i]);
        assert forall|a: int, b: int| 0 <= a < b < after.len() implies (#[trigger] after[a]).digest
            != (#[trigger] after[b]).digest by {
            assert(rows[a].digest != rows[b].digest);
        }
    }
    assert forall|other: Seq<char>| #[trigger] refs_of(after, other) == refs_of(rows, other) - if other
        == digest {
        1int
    } else {
        0
    } by {
        found(rows, other);
        found(after, other);
        match find(after, other) {
            Some(k) => {
                let c = if rows[i].refs <= 1 && k >= i {
                    k + 1
                } else {
                    k
                };
                assert(rows[c].digest == other);
                found_only(rows, c);
                if c == i {
                    assert(rows[i].refs > 1);
                }
            },
            None => {
                if let Some(k) = find(rows, other) {
                    if k != i {
                        let c = if rows[i].refs <= 1 && k > i {
                            k - 1
                        } else {
                            k
                        };
                        assert(after[c].digest == other);
                    } else {
                        if rows[i].refs > 1 {
                            assert(after[i].digest == other);
                        }
                    }
                }
            },
        }
    }
    assert forall|other: Seq<char>| #[trigger] refs_of(after, other) > 0 implies bytes_of(
        after,
        other,
    ) == bytes_of(rows, other) by {
        found(after, other);
        let k = find(after, other)->0;
        let c = if rows[i].refs <= 1 && k >= i {
            k + 1
        } else {
            k
        };
        assert(rows[c].digest == other);
        found_only(rows, c);
    }
}

/// References for some digests are counted as often as each occurs.
pub proof fn referencing_all(rows: Seq<BlobView>, uses: Seq<Use>)
    requires
        sound(rows),
        total(rows) + weight(uses) <= MOST_BYTES,
    ensures
        sound(all_referenced(rows, uses)),
        total(all_referenced(rows, uses)) <= total(rows) + weight(uses),
        forall|d: Seq<char>| #[trigger]
            refs_of(all_referenced(rows, uses), d) == refs_of(rows, d) + count(digests(uses), d),
    decreases uses.len(),
{
    if uses.len() > 0 {
        let front = uses.drop_last();
        referencing_all(rows, front);
        let middle = all_referenced(rows, front);
        referencing(middle, uses.last().0, uses.last().1);
        assert(digests(uses).drop_last() =~= digests(front));
        assert forall|d: Seq<char>| #[trigger]
            refs_of(all_referenced(rows, uses), d) == refs_of(rows, d) + count(
            digests(uses),
            d,
        ) by {
            assert(refs_of(middle, d) == refs_of(rows, d) + count(digests(front), d));
        }
    }
}

/// Dropping references to some digests is counted as often as each occurs,
/// those that fall to none are exactly the ones reported, each once, and what
/// is counted no longer is exactly their bytes.
pub proof fn releasing_all(rows: Seq<BlobView>, gone: Seq<Seq<char>>)
    requires
        sound(rows),
        forall|d: Seq<char>| #[trigger] count(gone, d) <= refs_of(rows, d),
    ensures
        sound(all_released(rows, gone)),
        total(all_released(rows, gone)) + sizes(rows, fallen(rows, gone)) == total(rows),
        forall|d: Seq<char>| #[trigger]
            refs_of(all_released(rows, gone), d) > 0 ==> bytes_of(all_released(rows, gone), d)
                == bytes_of(rows, d),
        forall|d: Seq<char>| #[trigger]
            refs_of(all_released(rows, gone), d) == refs_of(rows, d) - count(gone, d),
        forall|d: Seq<char>| #[trigger]
            fallen(rows, gone).contains(d) <==> refs_of(rows, d) > 0 && refs_of(rows, d) == count(
                gone,
                d,
            ),
        fallen(rows, gone).no_duplicates(),
    decreases gone.len(),
{
    if gone.len() > 0 {
        let front = gone.drop_last();
        let last = gone.last();
        assert forall|d: Seq<char>| #[trigger] count(front, d) <= refs_of(rows, d) by {
            assert(count(gone, d) <= refs_of(rows, d));
        }
        releasing_all(rows, front);
        let middle = all_released(rows, front);
        assert(refs_of(middle, last) == refs_of(rows, last) - count(front, last));
        assert(count(gone, last) <= refs_of(rows, last));
        releasing(middle, last);
        assert forall|d: Seq<char>| #[trigger]
            refs_of(all_released(rows, gone), d) == refs_of(rows, d) - count(gone, d) by {
            assert(refs_of(middle, d) == refs_of(rows, d) - count(front, d));
            assert(refs_of(released(middle, last), d) == refs_of(middle, d) - if d == last {
                1int
            } else {
                0
            });
        }
        let before = fallen(rows, front);
        let after = fallen(rows, gone);
        assert(before.push(last).drop_last() =~= before);
        assert(refs_of(middle, last) > 0);
        assert forall|d: Seq<char>| #[trigger]
            refs_of(all_released(rows, gone), d) > 0 implies bytes_of(all_released(rows, gone), d)
            == bytes_of(rows, d) by {
            assert(refs_of(released(middle, last), d) > 0);
            assert(refs_of(middle, d) > 0);
        }
        assert(before.contains(last) <==> refs_of(rows, last) > 0 && refs_of(rows, last) == count(
            front,
            last,
        ));
        assert forall|d: Seq<char>| #[trigger] after.contains(d) <==> refs_of(rows, d) > 0
            && refs_of(rows, d) == count(gone, d) by {
            assert(before.contains(d) <==> refs_of(rows, d) > 0 && refs_of(rows, d) == count(
                front,
                d,
            ));
            if falls(middle, last) {
                assert(after == before.push(last));
                if before.contains(d) {
                    let k = choose|k: int| 0 <= k < before.len() && before[k] == d;
                    assert(after[k] == d);
                }
                assert(after[before.len() as int] == last);
            }
        }
    }
}

// ---------------------------------------------------------------------------
// The table itself
// ---------------------------------------------------------------------------

/// The blobs of an archive.
pub struct Ledger {
    rows: Vec<Blob>,
}

impl View for Ledger {
    type V = Seq<BlobView>;

    closed spec fn view(&self) -> Seq<BlobView> {
        Seq::new(self.rows@.len(), |i: int| self.rows@[i]@)
    }
}

impl Ledger {
    pub fn new() -> (ledger: Ledger)
        ensures
            ledger@ == Seq::<BlobView>::empty(),
    {
        let ledger = Ledger { rows: Vec::new() };
        assert(ledger@ =~= Seq::<BlobView>::empty());
        ledger
    }

    /// How many blobs there are.
    pub fn len(&self) -> (count: usize)
        ensures
            count == self@.len(),
    {
        self.rows.len()
    }

    /// The blob at a place.
    pub fn get(&self, place: usize) -> (blob: &Blob)
        requires
            place < self@.len(),
        ensures
            blob@ == self@[place as int],
    {
        &self.rows[place]
    }

    /// Where the blob with a digest stands.
    pub fn position(&self, digest: &str) -> (place: Option<usize>)
        ensures
            match place {
                Some(i) => find(self@, digest@) == Some(i as int) && i < self@.len(),
                None => find(self@, digest@) is None,
            },
    {
        let mut i: usize = self.rows.len();
        assert(self@.take(self@.len() as int) =~= self@);
        while i > 0
            invariant
                i <= self.rows.len(),
                find(self@, digest@) == find(self@.take(i as int), digest@),
            decreases i,
        {
            assert(self@.take(i as int).drop_last() =~= self@.take(i - 1));
            assert(self@.take(i as int).last() == self@[i - 1]);
            i -= 1;
            if text::same(self.rows[i].digest.as_str(), digest) {
                return Some(i);
            }
        }
        None
    }

    /// The bytes all blobs take together.
    pub fn total(&self) -> (bytes: i64)
        requires
            sound(self@),
        ensures
            bytes == total(self@),
    {
        let mut sum: u64 = 0;
        let mut i: usize = 0;
        while i < self.rows.len()
            invariant
                i <= self.rows.len(),
                sum == total(self@.take(i as int)),
                total(self@) <= MOST_BYTES,
            decreases self.rows.len() - i,
        {
            proof {
                assert(self@.take(i as int + 1).drop_last() =~= self@.take(i as int));
                total_of_front(self@, i as int + 1);
            }
            sum += self.rows[i].bytes;
            i += 1;
        }
        assert(self@.take(self@.len() as int) =~= self@);
        sum as i64
    }

    /// Whether no blob has so many references that some more could not be
    /// counted.
    pub fn countable(&self, more: u64) -> (answer: bool)
        ensures
            answer == forall|i: int|
                0 <= i < self@.len() ==> (#[trigger] self@[i]).refs + more <= u64::MAX,
    {
        let mut i: usize = 0;
        while i < self.rows.len()
            invariant
                i <= self.rows.len(),
                forall|j: int| 0 <= j < i ==> (#[trigger] self@[j]).refs + more <= u64::MAX,
            decreases self.rows.len() - i,
        {
            let refs: u64 = self.rows[i].refs;
            assert(self@[i as int].refs == refs);
            if refs > u64::MAX - more {
                return false;
            }
            i += 1;
        }
        true
    }

    /// Adds one reference to a blob, recording its size the first time it is
    /// seen.
    pub fn reference(&mut self, digest: &str, bytes: u64)
        requires
            find(old(self)@, digest@) matches Some(i) ==> old(self)@[i].refs < u64::MAX,
        ensures
            final(self)@ == referenced(old(self)@, digest@, bytes as nat),
    {
        match self.position(digest) {
            Some(i) => {
                let ghost before = self@;
                assert(before[i as int] == self.rows@[i as int]@);
                let row = &self.rows[i];
                let changed = Blob {
                    digest: row.digest.clone(),
                    bytes: row.bytes,
                    refs: row.refs + 1,
                };
                self.rows.set(i, changed);
                assert(self@ =~= referenced(before, digest@, bytes as nat));
            },
            None => {
                let ghost before = self@;
                self.rows.push(Blob { digest: digest.to_owned(), bytes, refs: 1 });
                assert(self@ =~= referenced(before, digest@, bytes as nat));
            },
        }
    }

    /// Drops one reference to a blob, and the blob with its last one. Tells
    /// whether nothing points at the digest any more.
    pub fn release(&mut self, digest: &str) -> (fell: bool)
        ensures
            final(self)@ == released(old(self)@, digest@),
            fell == falls(old(self)@, digest@),
    {
        match self.position(digest) {
            Some(i) => {
                let ghost before = self@;
                assert(before[i as int] == self.rows@[i as int]@);
                let row = &self.rows[i];
                if row.refs <= 1 {
                    self.rows.remove(i);
                    assert(self@ =~= released(before, digest@));
                    true
                } else {
                    let changed = Blob {
                        digest: row.digest.clone(),
                        bytes: row.bytes,
                        refs: row.refs - 1,
                    };
                    self.rows.set(i, changed);
                    assert(self@ =~= released(before, digest@));
                    false
                }
            },
            // A row that is already gone counts as zero: what pointed at it is
            // being deleted either way.
            None => true,
        }
    }
}

proof fn total_of_front(rows: Seq<BlobView>, count: int)
    requires
        0 <= count <= rows.len(),
    ensures
        total(rows.take(count)) <= total(rows),
    decreases rows.len(),
{
    if count < rows.len() {
        total_of_front(rows.drop_last(), count);
        assert(rows.drop_last().take(count) =~= rows.take(count));
    } else {
        assert(rows.take(count) =~= rows);
    }
}

// ---------------------------------------------------------------------------
// What is counted
// ---------------------------------------------------------------------------

/// A total is the sum of the sizes, each blob once; a weight the sum of what is
/// used, repeats again; a count how often a digest occurs.
pub proof fn sums_are_of_every_one(
    rows: Seq<BlobView>,
    uses: Seq<Use>,
    names: Seq<Seq<char>>,
    digest: Seq<char>,
)
    ensures
        total(rows) == rows.fold_left(0nat, |sum: nat, row: BlobView| sum + row.bytes),
        weight(uses) == uses.fold_left(0nat, |sum: nat, used: Use| sum + used.1),
        count(names, digest) == names.to_multiset().count(digest),
    decreases rows.len() + uses.len() + names.len(),
{
    broadcast use vstd::seq_lib::group_to_multiset_ensures;

    if rows.len() > 0 {
        sums_are_of_every_one(rows.drop_last(), uses, names, digest);
    } else if uses.len() > 0 {
        sums_are_of_every_one(rows, uses.drop_last(), names, digest);
    } else if names.len() > 0 {
        let front = names.drop_last();
        sums_are_of_every_one(rows, uses, front, digest);
        assert(names =~= front.push(names.last()));
        assert(names.to_multiset() =~= front.to_multiset().insert(names.last()));
    } else {
        assert(names.to_multiset().count(digest) == 0) by {
            assert(!names.contains(digest));
        }
    }
}

/// The references of a blob are those of the one row with its digest, and a
/// digest without a row has none.
pub proof fn a_blob_is_looked_up_by_its_digest(rows: Seq<BlobView>, k: int, digest: Seq<char>)
    requires
        forall|i: int, j: int|
            0 <= i < j < rows.len() ==> (#[trigger] rows[i]).digest != (#[trigger] rows[j]).digest,
    ensures
        0 <= k < rows.len() ==> refs_of(rows, rows[k].digest) == rows[k].refs && bytes_of(
            rows,
            rows[k].digest,
        ) == rows[k].bytes,
        (forall|i: int| 0 <= i < rows.len() ==> (#[trigger] rows[i]).digest != digest) ==> refs_of(
            rows,
            digest,
        ) == 0 && bytes_of(rows, digest) == 0,
{
    found(rows, digest);
    if 0 <= k < rows.len() {
        found(rows, rows[k].digest);
    }
}

} // verus!
