//! The encoder: from a set of items to an unbounded stream of coded symbols.

use vstd::prelude::*;
use vstd::seq_lib::to_multiset_contains;
use vstd::set_lib::{lemma_int_range, lemma_len_subset, set_int_range};
use crate::binaryheap::{
    above, heap_ordered, lemma_root_is_least, ordered_but, parent, rebuild, sift_down, sift_up, Keyed,
};
use crate::coding::{
    bytes_of, coded, hit_set, lemma_sum_of_agree, lemma_sum_of_insert, lemma_sum_of_none, sum_of,
    uniform,
};
use crate::digest::{checksum_of, hash};
use crate::index::{hits, index_at, lemma_hits_at, lemma_index_increasing, IndexGenerator};
use crate::symbol::{lemma_add_entry_is_add_single, Symbol};

verus! {

/// The base-2 logarithm of `n`, rounded down; 0 for `n < 2`.
pub open spec fn floor_log2(n: nat) -> nat
    decreases n,
{
    if n < 2 {
        0
    } else {
        1 + floor_log2(n / 2)
    }
}

/// The last output index at which an encoder of `n` items scans all its
/// cursors; from the next index on it keeps them in a heap.
pub open spec fn threshold_of(n: nat) -> nat {
    if n < 2 {
        0
    } else {
        2 * floor_log2(n)
    }
}

/// `usize::ilog2`: the base-2 logarithm rounded down, as its documentation
/// says; it panics on zero, which `requires` leaves out.
pub assume_specification[ usize::ilog2 ](n: usize) -> (r: u32)
    requires
        n > 0,
    ensures
        r == floor_log2(n as nat),
;

/// The logarithm does not decrease as its argument grows.
pub proof fn lemma_floor_log2_monotone(m: nat, n: nat)
    requires
        m <= n,
    ensures
        floor_log2(m) <= floor_log2(n),
    decreases n,
{
    if m >= 2 {
        lemma_floor_log2_monotone(m / 2, n / 2);
    }
}

/// The items of a set, in the order in which they were added.
#[derive(Clone)]
pub struct Encoder<const N: usize> {
    entries: Vec<[u8; N]>,
}

impl<const N: usize> Default for Encoder<N> {
    /// An encoder without items.
    fn default() -> (e: Self)
        ensures
            e@ == Seq::<[u8; N]>::empty(),
    {
        Encoder { entries: Vec::new() }
    }
}

impl<const N: usize> View for Encoder<N> {
    type V = Seq<[u8; N]>;

    closed spec fn view(&self) -> Seq<[u8; N]> {
        self.entries@
    }
}

impl<const N: usize> Encoder<N> {
    /// Appends `items`. Nothing is deduplicated: the caller supplies a set.
    pub fn extend(&mut self, items: &[[u8; N]])
        ensures
            final(self)@ == old(self)@ + items@,
    {
        let mut i: usize = 0;
        while i < items.len()
            invariant
                0 <= i <= items@.len(),
                self@ == old(self)@ + items@.subrange(0, i as int),
            decreases items@.len() - i,
        {
            self.entries.push(items[i]);
            assert(items@.subrange(0, i as int).push(items@[i as int]) =~= items@.subrange(
                0,
                i + 1,
            ));
            i += 1;
        }
        assert(items@.subrange(0, i as int) =~= items@);
    }

    /// Starts the stream: every item gets a cursor at the start of its index
    /// schedule, and the output index is 0.
    pub fn into_iter(self) -> (it: EncoderIter<N>)
        ensures
            it.wf(),
            it.entries() == self@,
            it.position() == 0,
    {
        let mut heap: Vec<Entry> = Vec::with_capacity(self.entries.len());
        let mut entry_index: usize = 0;
        while entry_index < self.entries.len()
            invariant
                0 <= entry_index <= self.entries@.len(),
                heap@.len() == entry_index,
                forall|i: int|
                    0 <= i < heap@.len() ==> {
                        &&& bound(#[trigger] heap@[i], self.entries@)
                        &&& heap@[i].entry_index == i
                        &&& heap@[i].index.draws() == 0
                    },
            decreases self.entries@.len() - entry_index,
        {
            let checksum = hash(self.entries[entry_index].as_slice());
            heap.push(Entry { index: IndexGenerator::new(checksum), entry_index, checksum });
            entry_index += 1;
        }
        proof {
            assert forall|e: int| 0 <= e < heap@.len() implies #[trigger] covered(heap@, e) by {
                assert(holds(heap@, e, e));
            }
        }
        EncoderIter { entries: self.entries, heap, index: 0 }
    }
}

/// The cursor of one item: where its index schedule stands.
#[derive(Clone, Copy)]
pub struct Entry {
    index: IndexGenerator,
    entry_index: usize,
    checksum: [u8; 16],
}

impl Keyed for Entry {
    closed spec fn key(&self) -> int {
        self.index.index() as int
    }

    fn key_le(&self, other: &Self) -> (b: bool) {
        self.index.current() <= other.index.current()
    }
}

/// The cursor belongs to the item at its position: it carries the item's
/// checksum, and its schedule is seeded with it.
spec fn bound<const N: usize>(c: Entry, entries: Seq<[u8; N]>) -> bool {
    &&& c.entry_index < entries.len()
    &&& c.checksum@ == checksum_of(entries[c.entry_index as int]@)
    &&& c.index.wf()
    &&& c.index.seed() == c.checksum@
}

/// The cursor at slot `i` is that of item `e`.
spec fn holds(heap: Seq<Entry>, i: int, e: int) -> bool {
    0 <= i < heap.len() && heap[i].entry_index == e
}

/// Item `e` has a cursor.
spec fn covered(heap: Seq<Entry>, e: int) -> bool {
    exists|i: int| #[trigger] holds(heap, i, e)
}

/// No two cursors are of one item.
spec fn distinct(heap: Seq<Entry>) -> bool {
    forall|i: int, j: int|
        0 <= i < heap.len() && 0 <= j < heap.len() && i != j ==> (#[trigger] heap[i]).entry_index
            != (#[trigger] heap[j]).entry_index
}

/// Where a cursor stands while cell `k` is being summed: past `k` if its
/// item is among those `done`, and not yet past it otherwise.
spec fn standing(c: Entry, k: nat, done: Set<int>) -> bool {
    if done.contains(c.entry_index as int) {
        c.index.just_past(k)
    } else {
        c.index.at_or_after(k)
    }
}

/// The cursors and the items belong together, one cursor for each item, and
/// the cursors stand around cell `k` as `done` says.
pub(crate) closed spec fn paired<const N: usize>(
    heap: Seq<Entry>,
    entries: Seq<[u8; N]>,
    k: nat,
    done: Set<int>,
) -> bool {
    &&& heap.len() == entries.len()
    &&& forall|i: int|
        0 <= i < heap.len() ==> bound(#[trigger] heap[i], entries) && standing(heap[i], k, done)
    &&& distinct(heap)
    &&& forall|e: int| 0 <= e < entries.len() ==> #[trigger] covered(heap, e)
    &&& forall|e: int| done.contains(e) ==> 0 <= e < entries.len()
}

/// No cursors are paired with no items.
pub(crate) proof fn lemma_paired_empty<const N: usize>(k: nat)
    ensures
        paired(Seq::<Entry>::empty(), Seq::<[u8; N]>::empty(), k, Set::empty()),
{
}

/// Paired cursors are as many as the items.
pub(crate) proof fn lemma_paired_len<const N: usize>(
    heap: Seq<Entry>,
    entries: Seq<[u8; N]>,
    k: nat,
    done: Set<int>,
)
    requires
        paired(heap, entries, k, done),
    ensures
        heap.len() == entries.len(),
{
}

/// Rearranging the cursors keeps them paired with the items.
proof fn lemma_rearranged<const N: usize>(
    old_heap: Seq<Entry>,
    new_heap: Seq<Entry>,
    entries: Seq<[u8; N]>,
    k: nat,
    done: Set<int>,
)
    requires
        paired(old_heap, entries, k, done),
        old_heap.len() == new_heap.len(),
        old_heap.to_multiset() == new_heap.to_multiset(),
    ensures
        paired(new_heap, entries, k, done),
{
    assert forall|i: int| 0 <= i < new_heap.len() implies bound(#[trigger] new_heap[i], entries)
        && standing(new_heap[i], k, done) by {
        to_multiset_contains(new_heap, new_heap[i]);
        to_multiset_contains(old_heap, new_heap[i]);
        assert(new_heap.contains(new_heap[i]));
        let j = choose|j: int| 0 <= j < old_heap.len() && old_heap[j] == new_heap[i];
        assert(bound(old_heap[j], entries));
    }
    assert forall|e: int| 0 <= e < entries.len() implies #[trigger] covered(new_heap, e) by {
        assert(covered(old_heap, e));
        let i = choose|i: int| #[trigger] holds(old_heap, i, e);
        to_multiset_contains(old_heap, old_heap[i]);
        to_multiset_contains(new_heap, old_heap[i]);
        assert(old_heap.contains(old_heap[i]));
        let j = choose|j: int| 0 <= j < new_heap.len() && new_heap[j] == old_heap[i];
        assert(holds(new_heap, j, e));
    }
    assert(old_heap.no_duplicates()) by {
        assert forall|i: int, j: int|
            0 <= i < old_heap.len() && 0 <= j < old_heap.len() && i != j implies old_heap[i]
            != old_heap[j] by {
            assert(old_heap[i].entry_index != old_heap[j].entry_index);
        }
    }
    old_heap.lemma_multiset_has_no_duplicates();
    new_heap.lemma_multiset_has_no_duplicates_conv();
    assert forall|i: int, j: int|
        0 <= i < new_heap.len() && 0 <= j < new_heap.len() && i != j implies (
    #[trigger] new_heap[i]).entry_index != (#[trigger] new_heap[j]).entry_index by {
        if new_heap[i].entry_index == new_heap[j].entry_index {
            to_multiset_contains(new_heap, new_heap[i]);
            to_multiset_contains(old_heap, new_heap[i]);
            to_multiset_contains(new_heap, new_heap[j]);
            to_multiset_contains(old_heap, new_heap[j]);
            assert(new_heap.contains(new_heap[i]));
            assert(new_heap.contains(new_heap[j]));
            let a = choose|a: int| 0 <= a < old_heap.len() && old_heap[a] == new_heap[i];
            let b = choose|b: int| 0 <= b < old_heap.len() && old_heap[b] == new_heap[j];
            assert(a == b);
            assert(new_heap[i] == new_heap[j]);
        }
    }
}

/// Moving the cursor at slot `i` from cell `k` to its next index keeps the
/// cursors paired, with its item done.
proof fn lemma_advanced<const N: usize>(
    heap: Seq<Entry>,
    entries: Seq<[u8; N]>,
    k: nat,
    done: Set<int>,
    i: int,
    c: Entry,
)
    requires
        paired(heap, entries, k, done),
        0 <= i < heap.len(),
        k < u64::MAX,
        heap[i].key() == k,
        c.entry_index == heap[i].entry_index,
        c.checksum == heap[i].checksum,
        c.index.wf(),
        c.index.seed() == heap[i].index.seed(),
        c.index.draws() == heap[i].index.draws() + 1,
    ensures
        !done.contains(heap[i].entry_index as int),
        hits(checksum_of(entries[heap[i].entry_index as int]@), k),
        paired(heap.update(i, c), entries, k, done.insert(heap[i].entry_index as int)),
{
    let e = heap[i].entry_index as int;
    let g = heap[i].index;
    let after = heap.update(i, c);
    let more = done.insert(e);
    assert(bound(heap[i], entries) && standing(heap[i], k, done));
    g.lemma_index();
    if done.contains(e) {
        lemma_index_increasing(g.seed(), (g.draws() - 1) as nat, g.draws());
    }
    assert(index_at(g.seed(), g.draws()) == k);
    assert forall|j: int| 0 <= j < after.len() implies bound(#[trigger] after[j], entries)
        && standing(after[j], k, more) by {
        if j != i {
            assert(bound(heap[j], entries) && standing(heap[j], k, done));
            assert(heap[j].entry_index != heap[i].entry_index);
        }
    }
    assert forall|a: int, b: int|
        0 <= a < after.len() && 0 <= b < after.len() && a != b implies (
    #[trigger] after[a]).entry_index != (#[trigger] after[b]).entry_index by {
        assert(heap[a].entry_index != heap[b].entry_index);
    }
    assert forall|x: int| 0 <= x < entries.len() implies #[trigger] covered(after, x) by {
        assert(covered(heap, x));
        let j = choose|j: int| #[trigger] holds(heap, j, x);
        assert(holds(after, j, x));
    }
}

/// Once every cursor stands beyond cell `k`, the items done are those whose
/// schedule contains `k`, and the cursors are placed for cell `k + 1`.
proof fn lemma_round_over<const N: usize>(
    heap: Seq<Entry>,
    entries: Seq<[u8; N]>,
    k: nat,
    done: Set<int>,
)
    requires
        paired(heap, entries, k, done),
        k < u64::MAX,
        forall|i: int| 0 <= i < heap.len() ==> (#[trigger] heap[i]).key() > k,
    ensures
        paired(heap, entries, k + 1, Set::empty()),
        sum_of(bytes_of(entries), N as nat, done) == coded(bytes_of(entries), N as nat, k),
{
    let items = bytes_of(entries);
    assert forall|i: int| 0 <= i < heap.len() implies standing(#[trigger] heap[i], k + 1, Set::empty())
        && (done.contains(heap[i].entry_index as int) <==> hits(heap[i].index.seed(), k)) by {
        let g = heap[i].index;
        assert(bound(heap[i], entries) && standing(heap[i], k, done));
        assert(heap[i].key() > k);
        g.lemma_index();
        if done.contains(heap[i].entry_index as int) {
            lemma_index_increasing(g.seed(), (g.draws() - 1) as nat, g.draws());
            assert(index_at(g.seed(), (g.draws() - 1) as nat) == k);
        } else {
            lemma_hits_at(g.seed(), g.draws(), k);
        }
    }
    assert forall|e: int| 0 <= e < items.len() implies done.contains(e) == hit_set(
        items,
        k,
    ).contains(e) by {
        assert(covered(heap, e));
        let i = choose|i: int| #[trigger] holds(heap, i, e);
        assert(bound(heap[i], entries));
    }
    lemma_sum_of_agree(items, N as nat, done, hit_set(items, k));
}

/// Arrays of `N` bytes are items of width `N`.
pub proof fn lemma_bytes_of_uniform<const N: usize>(entries: Seq<[u8; N]>)
    ensures
        uniform(bytes_of(entries), N as nat),
{
    assert forall|i: int| 0 <= i < entries.len() implies (#[trigger] bytes_of(entries)[i]).len()
        == N by {
        vstd::array::array_len_matches_n(&entries[i]);
    }
}

/// Adds an item and its cursor, and sifts the cursor up.
pub(crate) fn enlist<const N: usize>(
    entries: &mut Vec<[u8; N]>,
    heap: &mut Vec<Entry>,
    value: [u8; N],
    checksum: [u8; 16],
    index: IndexGenerator,
    Ghost(k): Ghost<nat>,
)
    requires
        paired(old(heap)@, old(entries)@, k, Set::empty()),
        checksum@ == checksum_of(value@),
        index.wf(),
        index.seed() == checksum@,
        index.at_or_after(k),
    ensures
        final(entries)@ == old(entries)@.push(value),
        paired(final(heap)@, final(entries)@, k, Set::empty()),
        heap_ordered(old(heap)@) ==> heap_ordered(final(heap)@),
{
    let entry_index = entries.len();
    let ghost before = heap@;
    heap.push(Entry { entry_index, checksum, index });
    entries.push(value);
    let ghost pushed = heap@;
    proof {
        let none = Set::<int>::empty();
        assert forall|i: int| 0 <= i < pushed.len() implies bound(#[trigger] pushed[i], entries@)
            && standing(pushed[i], k, none) by {
            if i < before.len() {
                assert(bound(before[i], old(entries)@) && standing(before[i], k, none));
            }
        }
        assert forall|a: int, b: int|
            0 <= a < pushed.len() && 0 <= b < pushed.len() && a != b implies (
        #[trigger] pushed[a]).entry_index != (#[trigger] pushed[b]).entry_index by {
            if a < before.len() {
                assert(bound(before[a], old(entries)@));
            }
            if b < before.len() {
                assert(bound(before[b], old(entries)@));
            }
            if a < before.len() && b < before.len() {
                assert(before[a].entry_index != before[b].entry_index);
            }
        }
        assert forall|e: int| 0 <= e < entries@.len() implies #[trigger] covered(pushed, e) by {
            if e < before.len() {
                assert(covered(before, e));
                let i = choose|i: int| #[trigger] holds(before, i, e);
                assert(holds(pushed, i, e));
            } else {
                assert(holds(pushed, before.len() as int, e));
            }
        }
        assert(paired(pushed, entries@, k, none));
        if heap_ordered(before) {
            assert forall|i: int| 1 <= i < pushed.len() && i != entry_index implies #[trigger] above(
                pushed,
                i,
            ) by {
                assert(above(before, i));
            }
            assert(ordered_but(pushed, entry_index as int));
        }
    }
    sift_up(heap.as_mut_slice(), 0, entry_index);
    proof {
        lemma_rearranged(pushed, heap@, entries@, k, Set::empty());
    }
}

/// Sums cell `index` by taking the cursors that stand at it from the root
/// of the heap.
pub(crate) fn drain<const N: usize>(entries: &Vec<[u8; N]>, heap: &mut Vec<Entry>, index: u64) -> (s: Symbol<N>)
    requires
        paired(old(heap)@, entries@, index as nat, Set::empty()),
        index < u64::MAX,
        heap_ordered(old(heap)@),
    ensures
        s@ == coded(bytes_of(entries@), N as nat, index as nat),
        paired(final(heap)@, entries@, (index + 1) as nat, Set::empty()),
        heap_ordered(final(heap)@),
{
    let mut s = Symbol::default();
    let ghost mut done: Set<int> = Set::empty();
    let ghost k = index as nat;
    let ghost items = bytes_of(entries@);
    proof {
        lemma_bytes_of_uniform(entries@);
        lemma_sum_of_none(items, N as nat);
    }
    while heap.len() > 0
        invariant
            k == index,
            k < u64::MAX,
            items == bytes_of(entries@),
            uniform(items, N as nat),
            paired(heap@, entries@, k, done),
            heap_ordered(heap@),
            done.finite(),
            done.len() <= entries@.len(),
            s@ == sum_of(items, N as nat, done),
        ensures
            paired(heap@, entries@, k, done),
            heap_ordered(heap@),
            s@ == sum_of(items, N as nat, done),
            forall|j: int| 0 <= j < heap@.len() ==> (#[trigger] heap@[j]).key() > k,
        decreases entries@.len() - done.len(),
    {
        let mut p = heap[0];
        if p.index.current() > index {
            proof {
                assert forall|j: int| 0 <= j < heap@.len() implies (
                #[trigger] heap@[j]).key() > k by {
                    lemma_root_is_least(heap@, j);
                }
            }
            break;
        }
        let ghost heap0 = heap@;
        proof {
            assert(bound(p, entries@) && standing(p, k, done));
            p.index.lemma_index();
            if done.contains(p.entry_index as int) {
                lemma_index_increasing(
                    p.index.seed(),
                    (p.index.draws() - 1) as nat,
                    p.index.draws(),
                );
            }
        }
        s.add_entry(&entries[p.entry_index], &p.checksum);
        p.index.next();
        heap[0] = p;
        let ghost heap1 = heap@;
        proof {
            let e = heap0[0].entry_index as int;
            lemma_advanced(heap0, entries@, k, done, 0, p);
            assert(heap1 =~= heap0.update(0, p));
            lemma_sum_of_insert(items, N as nat, done, e);
            lemma_add_entry_is_add_single(sum_of(items, N as nat, done), items[e]);
            vstd::set::axiom_set_insert_len(done, e);
            vstd::set::axiom_set_insert_finite(done, e);
            done = done.insert(e);
            lemma_int_range(0, entries@.len() as int);
            assert(done.subset_of(set_int_range(0, entries@.len() as int)));
            lemma_len_subset(done, set_int_range(0, entries@.len() as int));
            assert forall|j: int| 1 <= j < heap1.len() && parent(j) >= 1 implies #[trigger] above(
                heap1,
                j,
            ) by {
                assert(above(heap0, j));
            }
        }
        sift_down(heap.as_mut_slice(), 0);
        proof {
            lemma_rearranged(heap1, heap@, entries@, k, done);
        }
    }
    proof {
        lemma_round_over(heap@, entries@, k, done);
    }
    s
}

/// A stream of coded symbols in progress.
pub struct EncoderIter<const N: usize> {
    entries: Vec<[u8; N]>,
    heap: Vec<Entry>,
    index: u64,
}

impl<const N: usize> Default for EncoderIter<N> {
    /// The stream of no items, at output index 0.
    fn default() -> (it: Self)
        ensures
            it.wf(),
            it.entries() == Seq::<[u8; N]>::empty(),
            it.position() == 0,
    {
        let it = EncoderIter { entries: Vec::new(), heap: Vec::new(), index: 0 };
        it
    }
}

impl<const N: usize> EncoderIter<N> {
    /// The items of the stream, in the order in which they were added.
    pub closed spec fn entries(&self) -> Seq<[u8; N]> {
        self.entries@
    }

    /// The items as byte strings.
    pub open spec fn items(&self) -> Seq<Seq<u8>> {
        bytes_of(self.entries())
    }

    /// The index of the next symbol.
    pub closed spec fn position(&self) -> u64 {
        self.index
    }

    /// Every item has one cursor, which stands at the first index of the
    /// item's schedule that is not before the output index; past the
    /// threshold the cursors form a heap.
    pub closed spec fn wf(&self) -> bool {
        &&& paired(self.heap@, self.entries@, self.index as nat, Set::empty())
        &&& self.index > threshold_of(self.entries@.len()) ==> heap_ordered(self.heap@)
    }

    /// Adds an item whose cursor already stands at or after the output
    /// index.
    pub fn push_unchecked(&mut self, value: [u8; N], checksum: [u8; 16], index: IndexGenerator)
        requires
            old(self).wf(),
            checksum@ == checksum_of(value@),
            index.wf(),
            index.seed() == checksum@,
            index.at_or_after(old(self).position() as nat),
        ensures
            final(self).wf(),
            final(self).entries() == old(self).entries().push(value),
            final(self).position() == old(self).position(),
    {
        proof {
            lemma_floor_log2_monotone(self.entries@.len(), self.entries@.len() + 1);
        }
        enlist(&mut self.entries, &mut self.heap, value, checksum, index, Ghost(self.index as nat));
    }

    /// The last output index at which all cursors are scanned: twice the
    /// base-2 logarithm, rounded down, of the number of items.
    pub fn threshold(&self) -> (t: u64)
        ensures
            t == threshold_of(self.entries().len()),
    {
        if self.entries.len() < 2 {
            return 0;
        }
        (self.entries.len().ilog2() as u64) * 2
    }

    /// Sums the current cell by scanning every cursor, and orders the
    /// cursors as a heap at the threshold.
    fn update_many(&mut self) -> (s: Symbol<N>)
        requires
            old(self).wf(),
            old(self).index < u64::MAX,
            old(self).index <= threshold_of(old(self).entries@.len()),
        ensures
            s@ == coded(old(self).items(), N as nat, old(self).index as nat),
            final(self).entries == old(self).entries,
            final(self).index == old(self).index,
            paired(final(self).heap@, final(self).entries@, (old(self).index + 1) as nat, Set::empty()),
            old(self).index == threshold_of(old(self).entries@.len()) ==> heap_ordered(
                final(self).heap@,
            ),
    {
        let mut s = Symbol::default();
        let ghost mut done: Set<int> = Set::empty();
        let ghost k = self.index as nat;
        let ghost items = self.items();
        proof {
            lemma_bytes_of_uniform(self.entries@);
            lemma_sum_of_none(items, N as nat);
        }
        let mut i: usize = 0;
        while i < self.heap.len()
            invariant
                0 <= i <= self.heap@.len(),
                self.entries == old(self).entries,
                self.index == old(self).index,
                k == self.index,
                k < u64::MAX,
                items == bytes_of(self.entries@),
                uniform(items, N as nat),
                paired(self.heap@, self.entries@, k, done),
                forall|j: int| 0 <= j < i ==> (#[trigger] self.heap@[j]).key() > k,
                s@ == sum_of(items, N as nat, done),
            decreases self.heap@.len() - i,
        {
            let mut p = self.heap[i];
            proof {
                assert(bound(p, self.entries@) && standing(p, k, done));
                p.index.lemma_index();
                if done.contains(p.entry_index as int) {
                    lemma_index_increasing(
                        p.index.seed(),
                        (p.index.draws() - 1) as nat,
                        p.index.draws(),
                    );
                }
            }
            if p.index.current() > self.index {
                i += 1;
                continue;
            }
            let ghost heap0 = self.heap@;
            s.add_entry(&self.entries[p.entry_index], &p.checksum);
            p.index.next();
            self.heap[i] = p;
            proof {
                let e = heap0[i as int].entry_index as int;
                lemma_advanced(heap0, self.entries@, k, done, i as int, p);
                assert(self.heap@ =~= heap0.update(i as int, p));
                lemma_sum_of_insert(items, N as nat, done, e);
                lemma_add_entry_is_add_single(sum_of(items, N as nat, done), items[e]);
                done = done.insert(e);
                p.index.lemma_index();
                lemma_index_increasing(p.index.seed(), (p.index.draws() - 1) as nat, p.index.draws());
            }
            i += 1;
        }
        proof {
            lemma_round_over(self.heap@, self.entries@, k, done);
        }
        if self.index == self.threshold() {
            let ghost scanned = self.heap@;
            rebuild(self.heap.as_mut_slice());
            proof {
                lemma_rearranged(scanned, self.heap@, self.entries@, k + 1, Set::empty());
            }
        }
        s
    }

    /// Sums the current cell by taking the cursors that stand at it from the
    /// root of the heap.
    fn update_few(&mut self) -> (s: Symbol<N>)
        requires
            old(self).wf(),
            old(self).index < u64::MAX,
            heap_ordered(old(self).heap@),
        ensures
            s@ == coded(old(self).items(), N as nat, old(self).index as nat),
            final(self).entries == old(self).entries,
            final(self).index == old(self).index,
            paired(final(self).heap@, final(self).entries@, (old(self).index + 1) as nat, Set::empty()),
            heap_ordered(final(self).heap@),
    {
        drain(&self.entries, &mut self.heap, self.index)
    }

    /// The symbol at the output index; the output index moves on by one.
    pub fn must_next(&mut self) -> (s: Symbol<N>)
        requires
            old(self).wf(),
            old(self).position() < u64::MAX,
        ensures
            s@ == coded(old(self).items(), N as nat, old(self).position() as nat),
            final(self).wf(),
            final(self).entries() == old(self).entries(),
            final(self).position() == old(self).position() + 1,
    {
        let s = if self.index <= self.threshold() {
            self.update_many()
        } else {
            self.update_few()
        };
        self.index += 1;
        s
    }

    /// The next symbol of the stream, which ends only where the output index
    /// can no longer be counted in 64 bits.
    pub fn next(&mut self) -> (s: Option<Symbol<N>>)
        requires
            old(self).wf(),
        ensures
            final(self).wf(),
            final(self).entries() == old(self).entries(),
            old(self).position() < u64::MAX ==> s == Some(s->0) && s->0@ == coded(
                old(self).items(),
                N as nat,
                old(self).position() as nat,
            ) && final(self).position() == old(self).position() + 1,
            old(self).position() == u64::MAX ==> s.is_none() && final(self).position() == old(
                self,
            ).position(),
    {
        if self.index == u64::MAX {
            None
        } else {
            Some(self.must_next())
        }
    }

    /// Gives up the stream for its items.
    pub fn into_entries(self) -> (entries: Vec<[u8; N]>)
        ensures
            entries@ == self.entries(),
    {
        self.entries
    }
}

} // verus!
