//! A binary min-heap laid out in a slice, with the two sifting steps exposed
//! so that callers can repair the heap after changing an element in place.

use vstd::prelude::*;
use vstd::seq_lib::to_multiset_update;

verus! {

/// Elements that a heap can order: those with the smallest key come first.
pub trait Keyed: Copy {
    /// The key that the element is ordered by.
    spec fn key(&self) -> int;

    /// Whether the key of `self` is at most that of `other`.
    fn key_le(&self, other: &Self) -> (b: bool)
        ensures
            b == (self.key() <= other.key()),
    ;
}

impl Keyed for usize {
    open spec fn key(&self) -> int {
        *self as int
    }

    fn key_le(&self, other: &Self) -> (b: bool) {
        *self <= *other
    }
}

/// The index of the parent of the node at index `i > 0`.
pub open spec fn parent(i: int) -> int {
    (i - 1) / 2
}

/// The node at `i` does not come before its parent.
pub open spec fn above<T: Keyed>(v: Seq<T>, i: int) -> bool {
    v[parent(i)].key() <= v[i].key()
}

/// Every node whose parent is at index `lo` or later is in order with it.
pub open spec fn ordered_from<T: Keyed>(v: Seq<T>, lo: int) -> bool {
    forall|i: int| 1 <= i < v.len() && parent(i) >= lo ==> #[trigger] above(v, i)
}

/// The heap property: every node is in order with its parent.
pub open spec fn heap_ordered<T: Keyed>(v: Seq<T>) -> bool {
    ordered_from(v, 0)
}

/// Every node but the one at `at` is in order with its parent, and the
/// children of `at` are in order with its parent: the heap property would
/// hold if the element at `at` were small enough.
pub open spec fn ordered_but<T: Keyed>(v: Seq<T>, at: int) -> bool {
    &&& forall|i: int| 1 <= i < v.len() && i != at ==> #[trigger] above(v, i)
    &&& forall|i: int|
        1 <= i < v.len() && parent(i) == at && at >= 1 ==> v[parent(at)].key() <= (
        #[trigger] v[i]).key()
}

/// `v` with the elements at `i` and `j` exchanged.
pub open spec fn exchanged<T>(v: Seq<T>, i: int, j: int) -> Seq<T> {
    v.update(i, v[j]).update(j, v[i])
}

/// Exchanging two elements keeps the multiset of elements.
pub proof fn lemma_exchanged_multiset<T>(v: Seq<T>, i: int, j: int)
    requires
        0 <= i < v.len(),
        0 <= j < v.len(),
    ensures
        exchanged(v, i, j).to_multiset() == v.to_multiset(),
{
    broadcast use vstd::multiset::group_multiset_axioms;

    to_multiset_update(v, i, v[j]);
    to_multiset_update(v.update(i, v[j]), j, v[i]);
    vstd::seq_lib::to_multiset_contains(v, v[i]);
    vstd::seq_lib::to_multiset_contains(v, v[j]);
    assert(v.contains(v[i]));
    assert(v.contains(v[j]));
    assert(exchanged(v, i, j).to_multiset() =~= v.to_multiset());
}

/// The root of a heap has the least key.
pub proof fn lemma_root_is_least<T: Keyed>(v: Seq<T>, i: int)
    requires
        heap_ordered(v),
        0 <= i < v.len(),
    ensures
        v[0].key() <= v[i].key(),
    decreases i,
{
    if i > 0 {
        assert(above(v, i));
        lemma_root_is_least(v, parent(i));
    }
}

/// Whether node `i` lies in the subtree whose root is `root`: whether `root`
/// is `i` or an ancestor of `i`.
pub open spec fn in_subtree(root: int, i: int) -> bool
    decreases i,
{
    if i <= root || i <= 0 {
        i == root
    } else {
        in_subtree(root, parent(i))
    }
}

/// The subtree whose root is `root` is a heap: every node of it but the root
/// is in order with its parent.
pub open spec fn subtree_ordered<T: Keyed>(v: Seq<T>, root: int) -> bool {
    forall|i: int|
        1 <= i < v.len() && i != root && in_subtree(root, i) ==> #[trigger] above(v, i)
}

/// The subtrees of the children of `root` are heaps: every node below the
/// children is in order with its parent.
pub open spec fn children_ordered<T: Keyed>(v: Seq<T>, root: int) -> bool {
    forall|i: int|
        1 <= i < v.len() && i != root && parent(i) != root && in_subtree(root, i)
            ==> #[trigger] above(v, i)
}

/// The parent of an ancestor of a node is an ancestor of the node.
pub proof fn lemma_parent_is_ancestor(h: int, x: int)
    requires
        h >= 1,
        in_subtree(h, x),
    ensures
        in_subtree(parent(h), x),
    decreases x,
{
    if x != h {
        lemma_parent_is_ancestor(h, parent(x));
    } else {
        assert(in_subtree(parent(h), parent(h)));
        assert(in_subtree(parent(h), h));
    }
}

/// Of two ancestors of a node, the one with the smaller index is an ancestor
/// of the other.
pub proof fn lemma_ancestors_chain(s: int, h: int, x: int)
    requires
        0 <= s < h,
        in_subtree(s, x),
        in_subtree(h, x),
    ensures
        in_subtree(s, h),
        s <= parent(h),
    decreases x,
{
    if x != h {
        lemma_ancestors_chain(s, h, parent(x));
    }
    assert(in_subtree(s, h));
    assert(in_subtree(s, parent(h)));
}

/// Where all nodes after `pos` are in order with their parents, the subtrees
/// of the children of `pos` are heaps.
pub proof fn lemma_tail_gives_children<T: Keyed>(v: Seq<T>, pos: int)
    requires
        0 <= pos,
        ordered_from(v, pos + 1),
    ensures
        children_ordered(v, pos),
{
    assert forall|i: int|
        1 <= i < v.len() && i != pos && parent(i) != pos && in_subtree(pos, i) implies #[trigger] above(
        v,
        i,
    ) by {
        assert(in_subtree(pos, parent(i)));
    }
}

/// Where the tail after `pos` was in order, the subtree of `pos` has become a
/// heap and nothing outside it has changed, the tail from `pos` on is in
/// order.
pub proof fn lemma_subtree_gives_tail<T: Keyed>(before: Seq<T>, after: Seq<T>, pos: int)
    requires
        0 <= pos,
        before.len() == after.len(),
        ordered_from(before, pos + 1),
        subtree_ordered(after, pos),
        forall|i: int| 0 <= i < before.len() && !in_subtree(pos, i) ==> after[i] == before[i],
    ensures
        ordered_from(after, pos),
{
    assert forall|i: int| 1 <= i < after.len() && parent(i) >= pos implies #[trigger] above(
        after,
        i,
    ) by {
        if in_subtree(pos, i) {
        } else {
            assert(!in_subtree(pos, parent(i)));
            assert(above(before, i));
        }
    }
}

/// A position in a slice whose element is on its way to its place in the
/// heap.
pub struct Hole<'a, T> {
    pub data: &'a mut [T],
    pub pos: usize,
}

impl<'a, T: Copy> Hole<'a, T> {
    /// The elements of the slice.
    pub open spec fn items(&self) -> Seq<T> {
        self.data@
    }

    /// The index of the hole.
    pub open spec fn at(&self) -> int {
        self.pos as int
    }

    /// Creates a hole at index `pos`.
    pub fn new(data: &'a mut [T], pos: usize) -> (hole: Self)
        ensures
            hole.at() == pos,
            hole.items() == old(data)@,
            final(hole.data)@ == final(data)@,
    {
        Hole { data, pos }
    }

    /// The element at the hole.
    pub fn element(&self) -> (e: &T)
        requires
            0 <= self.at() < self.items().len(),
        ensures
            *e == self.items()[self.at()],
    {
        &self.data[self.pos]
    }

    /// Moves the hole to `index`: the element there and the element at the
    /// hole change places.
    pub fn move_to(&mut self, index: usize)
        requires
            0 <= old(self).at() < old(self).items().len(),
            index < old(self).items().len(),
        ensures
            final(self).at() == index,
            final(self).items() == exchanged(old(self).items(), index as int, old(self).at()),
            final(final(self).data)@ == final(old(self).data)@,
    {
        let here = self.data[self.pos];
        let there = self.data[index];
        self.data[index] = here;
        self.data[self.pos] = there;
        self.pos = index;
        assert(self.data@ =~= exchanged(old(self).items(), index as int, old(self).at()));
    }
}

/// Moves the element at `pos` towards the root until its parent does not come
/// after it, or until it stands at `start` or before. Returns its new index,
/// which is `pos` or an ancestor of `pos`. Only elements on the way from
/// `pos` to the root change places. With `pos <= start` nothing is touched,
/// whatever `pos` is.
pub fn sift_up<T: Keyed>(v: &mut [T], start: usize, pos: usize) -> (at: usize)
    requires
        pos < old(v)@.len() || pos <= start,
    ensures
        at <= pos,
        in_subtree(at as int, pos as int),
        in_subtree(start as int, pos as int) ==> start <= at,
        pos <= start ==> at == pos && final(v)@ == old(v)@,
        final(v)@.len() == old(v)@.len(),
        final(v)@.to_multiset() == old(v)@.to_multiset(),
        pos < old(v)@.len() ==> final(v)@[at as int] == old(v)@[pos as int],
        forall|i: int|
            0 <= i < old(v)@.len() && !in_subtree(i, pos as int) ==> final(v)@[i] == old(v)@[i],
        ordered_but(old(v)@, pos as int) ==> ordered_but(final(v)@, at as int),
        ordered_but(old(v)@, pos as int) && at > start ==> above(final(v)@, at as int),
        ordered_but(old(v)@, pos as int) && start == 0 ==> heap_ordered(final(v)@),
{
    let ghost before = v@;
    let ghost after = final(v)@;
    if pos <= start {
        proof {
            if start == 0 && ordered_but(before, pos as int) {
                assert forall|i: int| 1 <= i < before.len() && parent(i) >= 0 implies #[trigger] above(
                    before,
                    i,
                ) by {}
            }
        }
        return pos;
    }
    let mut hole = Hole::new(v, pos);
    while hole.pos > start
        invariant
            0 <= hole.at() <= pos < before.len(),
            in_subtree(hole.at(), pos as int),
            in_subtree(start as int, pos as int) ==> start <= hole.at(),
            hole.items().len() == before.len(),
            hole.items().to_multiset() == before.to_multiset(),
            hole.items()[hole.at()] == before[pos as int],
            forall|i: int|
                0 <= i < before.len() && !in_subtree(i, pos as int) ==> hole.items()[i]
                    == before[i],
            ordered_but(before, pos as int) ==> ordered_but(hole.items(), hole.at()),
            final(hole.data)@ == after,
        ensures
            0 <= hole.at() <= pos,
            in_subtree(hole.at(), pos as int),
            in_subtree(start as int, pos as int) ==> start <= hole.at(),
            hole.items().len() == before.len(),
            hole.items().to_multiset() == before.to_multiset(),
            hole.items()[hole.at()] == before[pos as int],
            forall|i: int|
                0 <= i < before.len() && !in_subtree(i, pos as int) ==> hole.items()[i]
                    == before[i],
            ordered_but(before, pos as int) ==> ordered_but(hole.items(), hole.at()),
            final(hole.data)@ == after,
            ordered_but(before, pos as int) && hole.at() > start ==> above(
                hole.items(),
                hole.at(),
            ),
        decreases hole.at(),
    {
        let up = (hole.pos - 1) / 2;
        if hole.data[up].key_le(hole.element()) {
            break;
        }
        let ghost prev = hole.items();
        let ghost h = hole.at();
        hole.move_to(up);
        proof {
            let cur = hole.items();
            let p = up as int;
            lemma_exchanged_multiset(prev, p, h);
            lemma_parent_is_ancestor(h, pos as int);
            if in_subtree(start as int, pos as int) {
                lemma_ancestors_chain(start as int, h, pos as int);
            }
            if ordered_but(before, pos as int) {
                assert forall|i: int| 1 <= i < cur.len() && i != p implies #[trigger] above(
                    cur,
                    i,
                ) by {
                    if i == h {
                    } else if parent(i) == h {
                        assert(prev[parent(h)].key() <= prev[i].key());
                    } else {
                        assert(above(prev, i));
                    }
                }
                assert forall|i: int| 1 <= i < cur.len() && parent(i) == p && p >= 1 implies cur[parent(
                    p,
                )].key() <= (#[trigger] cur[i]).key() by {
                    assert(above(prev, p));
                    if i != h {
                        assert(above(prev, i));
                    }
                }
            }
        }
    }
    proof {
        if start == 0 && ordered_but(before, pos as int) {
            let cur = hole.items();
            assert forall|i: int| 1 <= i < cur.len() && parent(i) >= 0 implies #[trigger] above(
                cur,
                i,
            ) by {}
        }
    }
    hole.pos
}

/// Moves the element at `pos` away from the root until none of its children
/// comes before it. Only elements of the subtree of `pos` change places, and
/// where the subtrees of its children were heaps, the subtree of `pos` is one
/// afterwards. With `pos` beyond the slice nothing is touched.
pub fn sift_down<T: Keyed>(v: &mut [T], pos: usize)
    ensures
        final(v)@.len() == old(v)@.len(),
        final(v)@.to_multiset() == old(v)@.to_multiset(),
        pos >= old(v)@.len() ==> final(v)@ == old(v)@,
        forall|i: int|
            0 <= i < old(v)@.len() && !in_subtree(pos as int, i) ==> final(v)@[i] == old(v)@[i],
        children_ordered(old(v)@, pos as int) ==> subtree_ordered(final(v)@, pos as int),
        ordered_from(old(v)@, pos + 1) ==> ordered_from(final(v)@, pos as int),
{
    let ghost before = v@;
    let ghost after = final(v)@;
    let end = v.len();
    if pos >= end {
        return;
    }
    let mut hole = Hole::new(v, pos);
    while hole.pos < end / 2
        invariant
            pos <= hole.at() < end,
            end == before.len(),
            in_subtree(pos as int, hole.at()),
            hole.items().len() == before.len(),
            hole.items().to_multiset() == before.to_multiset(),
            forall|i: int|
                0 <= i < end && !in_subtree(pos as int, i) ==> hole.items()[i] == before[i],
            children_ordered(before, pos as int) ==> forall|i: int|
                1 <= i < end && i != pos && parent(i) != hole.at() && in_subtree(pos as int, i)
                    ==> #[trigger] above(hole.items(), i),
            children_ordered(before, pos as int) ==> forall|i: int|
                1 <= i < end && parent(i) == hole.at() && hole.at() > pos ==> hole.items()[parent(
                    hole.at(),
                )].key() <= (#[trigger] hole.items()[i]).key(),
            final(hole.data)@ == after,
        ensures
            end == before.len(),
            hole.items().len() == before.len(),
            hole.items().to_multiset() == before.to_multiset(),
            forall|i: int|
                0 <= i < end && !in_subtree(pos as int, i) ==> hole.items()[i] == before[i],
            children_ordered(before, pos as int) ==> subtree_ordered(hole.items(), pos as int),
            final(hole.data)@ == after,
        decreases end - hole.at(),
    {
        let mut child = 2 * hole.pos + 1;
        if child + 1 < end && !hole.data[child].key_le(&hole.data[child + 1]) {
            child += 1;
        }
        let ghost prev = hole.items();
        let ghost h = hole.at();
        let ghost c = child as int;
        if hole.element().key_le(&hole.data[child]) {
            proof {
                if children_ordered(before, pos as int) {
                    assert forall|i: int|
                        1 <= i < end && i != pos && in_subtree(pos as int, i) implies #[trigger] above(
                        prev,
                        i,
                    ) by {
                        if parent(i) == h {
                            assert(i == 2 * h + 1 || i == 2 * h + 2);
                        }
                    }
                }
            }
            break;
        }
        hole.move_to(child);
        proof {
            let cur = hole.items();
            lemma_exchanged_multiset(prev, c, h);
            assert(parent(c) == h);
            assert(in_subtree(pos as int, c));
            if children_ordered(before, pos as int) {
                assert forall|i: int|
                    1 <= i < end && i != pos && parent(i) != c && in_subtree(
                        pos as int,
                        i,
                    ) implies #[trigger] above(cur, i) by {
                    if i == h {
                        assert(prev[parent(h)].key() <= prev[c].key());
                    } else if parent(i) == h {
                        assert(i == 2 * h + 1 || i == 2 * h + 2);
                    } else {
                        assert(above(prev, i));
                    }
                }
                assert forall|i: int| 1 <= i < end && parent(i) == c implies cur[parent(c)].key()
                    <= (#[trigger] cur[i]).key() by {
                    assert(in_subtree(pos as int, i));
                    assert(above(prev, i));
                }
            }
        }
    }
    proof {
        let cur = hole.items();
        if hole.at() >= end / 2 && children_ordered(before, pos as int) {
            assert forall|i: int|
                1 <= i < end && i != pos && in_subtree(pos as int, i) implies #[trigger] above(
                cur,
                i,
            ) by {
                assert(parent(i) != hole.at());
            }
        }
        if ordered_from(before, pos + 1) {
            lemma_tail_gives_children(before, pos as int);
            lemma_subtree_gives_tail(before, cur, pos as int);
        }
    }
}

/// Orders the whole slice as a heap.
pub fn rebuild<T: Keyed>(v: &mut [T])
    ensures
        final(v)@.len() == old(v)@.len(),
        final(v)@.to_multiset() == old(v)@.to_multiset(),
        heap_ordered(final(v)@),
{
    let mut n = v.len() / 2;
    while n > 0
        invariant
            n <= v@.len() / 2,
            v@.len() == old(v)@.len(),
            v@.to_multiset() == old(v)@.to_multiset(),
            ordered_from(v@, n as int),
        decreases n,
    {
        n -= 1;
        sift_down(v, n);
    }
}

} // verus!
