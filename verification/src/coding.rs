//! The mathematical model of a coded stream: which cell an item set gives at
//! each index.

use vstd::prelude::*;
use vstd::seq_lib::{
    lemma_multiset_commutative, to_multiset_contains, to_multiset_len, to_multiset_remove,
};
use crate::digest::{checksum_of, xor_bytes, zero_bytes};
use crate::index::{hits, lemma_hits_zero};
use crate::symbol::{
    lemma_add_associative, lemma_add_commutative, lemma_add_zero, lemma_cancel_common, Cell,
};

verus! {

/// The byte strings that a sequence of `N`-byte items holds.
pub open spec fn bytes_of<const N: usize>(items: Seq<[u8; N]>) -> Seq<Seq<u8>> {
    Seq::new(items.len(), |i: int| items[i]@)
}

/// Every item is `width` bytes wide.
pub open spec fn uniform(items: Seq<Seq<u8>>, width: nat) -> bool {
    forall|i: int| 0 <= i < items.len() ==> (#[trigger] items[i]).len() == width
}

/// The sum of the cells of the items whose position is in `chosen`.
pub open spec fn sum_of(items: Seq<Seq<u8>>, width: nat, chosen: Set<int>) -> Cell
    decreases items.len(),
{
    if items.len() == 0 {
        Cell::zero(width)
    } else {
        let rest = sum_of(items.drop_last(), width, chosen);
        if chosen.contains(items.len() - 1) {
            rest.add(Cell::single(items.last()))
        } else {
            rest
        }
    }
}

/// The positions of the items whose index schedule contains cell `k`.
pub open spec fn hit_set(items: Seq<Seq<u8>>, k: nat) -> Set<int> {
    Set::new(|e: int| 0 <= e < items.len() && hits(checksum_of(items[e]), k))
}

/// Cell `k` of the stream that encodes `items`: the sum of the items whose
/// index schedule contains `k`.
pub open spec fn coded(items: Seq<Seq<u8>>, width: nat, k: nat) -> Cell {
    sum_of(items, width, hit_set(items, k))
}

/// The sum of all the items.
pub open spec fn total(items: Seq<Seq<u8>>, width: nat) -> Cell {
    sum_of(items, width, Set::new(|e: int| true))
}

/// A sum of items of one width is a cell of that width.
pub proof fn lemma_sum_of_wf(items: Seq<Seq<u8>>, width: nat, chosen: Set<int>)
    requires
        uniform(items, width),
    ensures
        sum_of(items, width, chosen).wf(width),
    decreases items.len(),
{
    if items.len() > 0 {
        lemma_sum_of_wf(items.drop_last(), width, chosen);
        assert(items.last().len() == width);
    }
}

/// A sum depends on the chosen positions only as far as they are positions
/// of items.
pub proof fn lemma_sum_of_agree(items: Seq<Seq<u8>>, width: nat, c1: Set<int>, c2: Set<int>)
    requires
        forall|e: int| 0 <= e < items.len() ==> c1.contains(e) == c2.contains(e),
    ensures
        sum_of(items, width, c1) == sum_of(items, width, c2),
    decreases items.len(),
{
    if items.len() > 0 {
        lemma_sum_of_agree(items.drop_last(), width, c1, c2);
    }
}

/// The sum of no items is zero.
pub proof fn lemma_sum_of_none(items: Seq<Seq<u8>>, width: nat)
    ensures
        sum_of(items, width, Set::empty()) == Cell::zero(width),
    decreases items.len(),
{
    if items.len() > 0 {
        lemma_sum_of_none(items.drop_last(), width);
    }
}

/// Choosing one more position adds the cell of the item there.
pub proof fn lemma_sum_of_insert(items: Seq<Seq<u8>>, width: nat, chosen: Set<int>, e: int)
    requires
        uniform(items, width),
        0 <= e < items.len(),
        !chosen.contains(e),
    ensures
        sum_of(items, width, chosen.insert(e)) == sum_of(items, width, chosen).add(
            Cell::single(items[e]),
        ),
    decreases items.len(),
{
    let front = items.drop_last();
    let last = items.len() - 1;
    if e == last {
        lemma_sum_of_agree(front, width, chosen, chosen.insert(e));
    } else {
        lemma_sum_of_insert(front, width, chosen, e);
        if chosen.contains(last) {
            let rest = sum_of(front, width, chosen);
            let x = Cell::single(items[e]);
            let y = Cell::single(items.last());
            lemma_sum_of_wf(front, width, chosen);
            assert(items[e].len() == width);
            assert(items.last().len() == width);
            lemma_add_associative(rest, x, y, width);
            lemma_add_commutative(x, y, width);
            lemma_add_associative(rest, y, x, width);
        }
    }
}

/// Appending an item adds its cell where its position is chosen.
pub proof fn lemma_sum_of_push(items: Seq<Seq<u8>>, width: nat, chosen: Set<int>, item: Seq<u8>)
    ensures
        sum_of(items.push(item), width, chosen) == if chosen.contains(items.len() as int) {
            sum_of(items, width, chosen).add(Cell::single(item))
        } else {
            sum_of(items, width, chosen)
        },
{
    assert(items.push(item).drop_last() =~= items);
}

/// Appending an item to a coded stream adds its cell to the cells of its
/// index schedule and leaves the others as they are.
pub proof fn lemma_coded_push(items: Seq<Seq<u8>>, width: nat, item: Seq<u8>, k: nat)
    ensures
        coded(items.push(item), width, k) == if hits(checksum_of(item), k) {
            coded(items, width, k).add(Cell::single(item))
        } else {
            coded(items, width, k)
        },
{
    let more = items.push(item);
    lemma_sum_of_push(items, width, hit_set(more, k), item);
    assert forall|e: int| 0 <= e < items.len() implies hit_set(more, k).contains(e) == hit_set(
        items,
        k,
    ).contains(e) by {
        assert(more[e] == items[e]);
    }
    lemma_sum_of_agree(items, width, hit_set(more, k), hit_set(items, k));
    assert(more[items.len() as int] == item);
}

/// The first cell of a coded stream holds every item.
pub proof fn lemma_first_cell_is_total(items: Seq<Seq<u8>>, width: nat)
    ensures
        coded(items, width, 0) == total(items, width),
{
    assert forall|e: int| 0 <= e < items.len() implies hit_set(items, 0).contains(e) by {
        lemma_hits_zero(checksum_of(items[e]));
    }
    lemma_sum_of_agree(items, width, hit_set(items, 0), Set::new(|e: int| true));
}

/// The XOR of all the byte strings of `strings`, each `width` bytes wide.
pub open spec fn xor_all(strings: Seq<Seq<u8>>, width: nat) -> Seq<u8>
    decreases strings.len(),
{
    if strings.len() == 0 {
        zero_bytes(width)
    } else {
        xor_bytes(xor_all(strings.drop_last(), width), strings.last())
    }
}

/// The checksums of the items, in their order.
pub open spec fn checksums(items: Seq<Seq<u8>>) -> Seq<Seq<u8>> {
    Seq::new(items.len(), |i: int| checksum_of(items[i]))
}

/// `n` modulo 2^64, read as a 64-bit number in two's complement.
pub open spec fn wrapped(n: nat) -> i64 {
    let m = n % 0x1_0000_0000_0000_0000;
    if m < 0x8000_0000_0000_0000 {
        m as i64
    } else {
        (m - 0x1_0000_0000_0000_0000) as i64
    }
}

/// The sum of all the items: the count is their number modulo 2^64, the sum
/// is the XOR of their bytes, the checksum is the XOR of their checksums.
pub proof fn lemma_total(items: Seq<Seq<u8>>, width: nat)
    ensures
        total(items, width).count == wrapped(items.len()),
        total(items, width).sum == xor_all(items, width),
        total(items, width).checksum == xor_all(checksums(items), 16),
    decreases items.len(),
{
    if items.len() > 0 {
        lemma_total(items.drop_last(), width);
        assert(checksums(items).drop_last() =~= checksums(items.drop_last()));
        assert(checksums(items).last() == checksum_of(items.last()));
    }
}

/// The first cell of a coded stream: its count is the number of items modulo
/// 2^64, its sum is the XOR of the bytes of all the items, its checksum is
/// the XOR of their checksums.
pub proof fn lemma_first_cell(items: Seq<Seq<u8>>, width: nat)
    ensures
        coded(items, width, 0).count == wrapped(items.len()),
        coded(items, width, 0).sum == xor_all(items, width),
        coded(items, width, 0).checksum == xor_all(checksums(items), 16),
{
    lemma_first_cell_is_total(items, width);
    lemma_total(items, width);
}

/// A cell of a coded stream of items of one width is a cell of that width.
pub proof fn lemma_coded_wf(items: Seq<Seq<u8>>, width: nat, k: nat)
    requires
        uniform(items, width),
    ensures
        coded(items, width, k).wf(width),
{
    lemma_sum_of_wf(items, width, hit_set(items, k));
}

/// What an item gives to cell `k`: its cell if its index schedule contains
/// `k`, and nothing otherwise.
pub open spec fn share(item: Seq<u8>, width: nat, k: nat) -> Cell {
    if hits(checksum_of(item), k) {
        Cell::single(item)
    } else {
        Cell::zero(width)
    }
}

/// Appending an item adds its share.
pub proof fn lemma_coded_push_share(items: Seq<Seq<u8>>, width: nat, item: Seq<u8>, k: nat)
    requires
        uniform(items, width),
    ensures
        coded(items.push(item), width, k) == coded(items, width, k).add(share(item, width, k)),
{
    lemma_coded_push(items, width, item, k);
    lemma_coded_wf(items, width, k);
    lemma_add_zero(coded(items, width, k), width);
}

/// Inserting an item anywhere adds its share.
pub proof fn lemma_coded_insert(items: Seq<Seq<u8>>, width: nat, at: int, item: Seq<u8>, k: nat)
    requires
        uniform(items, width),
        item.len() == width,
        0 <= at <= items.len(),
    ensures
        coded(items.insert(at, item), width, k) == coded(items, width, k).add(
            share(item, width, k),
        ),
    decreases items.len() - at,
{
    if at == items.len() {
        assert(items.insert(at, item) =~= items.push(item));
        lemma_coded_push_share(items, width, item, k);
    } else {
        let front = items.drop_last();
        let last = items.last();
        assert(items =~= front.push(last));
        assert(items.insert(at, item) =~= front.insert(at, item).push(last));
        lemma_coded_insert(front, width, at, item, k);
        assert(uniform(front.insert(at, item), width)) by {
            assert forall|i: int| 0 <= i < front.insert(at, item).len() implies (
            #[trigger] front.insert(at, item)[i]).len() == width by {
                if i < at {
                    assert(front.insert(at, item)[i] == items[i]);
                } else if i > at {
                    assert(front.insert(at, item)[i] == items[i - 1]);
                }
            }
        }
        lemma_coded_push_share(front.insert(at, item), width, last, k);
        lemma_coded_push_share(front, width, last, k);
        let base = coded(front, width, k);
        let x = share(item, width, k);
        let y = share(last, width, k);
        lemma_coded_wf(front, width, k);
        assert(last.len() == width);
        lemma_add_associative(base, x, y, width);
        lemma_add_commutative(x, y, width);
        lemma_add_associative(base, y, x, width);
    }
}

/// A coded stream does not depend on the order of its items: two sequences
/// that hold the same items, each as often as the other, give the same cell
/// at every index.
pub proof fn lemma_coded_ignores_order(a: Seq<Seq<u8>>, b: Seq<Seq<u8>>, width: nat, k: nat)
    requires
        uniform(a, width),
        a.to_multiset() == b.to_multiset(),
    ensures
        coded(a, width, k) == coded(b, width, k),
    decreases a.len(),
{
    to_multiset_len(a);
    to_multiset_len(b);
    if a.len() == 0 {
        assert(a =~= b);
    } else {
        let x = a.last();
        let front = a.drop_last();
        to_multiset_contains(a, x);
        to_multiset_contains(b, x);
        assert(a.contains(x)) by {
            assert(a[a.len() - 1] == x);
        }
        let j = choose|j: int| 0 <= j < b.len() && b[j] == x;
        let rest = b.remove(j);
        assert(a.remove(a.len() - 1) =~= front);
        to_multiset_remove(a, a.len() - 1);
        to_multiset_remove(b, j);
        assert(b =~= rest.insert(j, x));
        assert(uniform(rest, width)) by {
            assert forall|i: int| 0 <= i < rest.len() implies (#[trigger] rest[i]).len()
                == width by {
                to_multiset_contains(b, rest[i]);
                to_multiset_contains(a, rest[i]);
                assert(b.contains(rest[i])) by {
                    if i < j {
                        assert(b[i] == rest[i]);
                    } else {
                        assert(b[i + 1] == rest[i]);
                    }
                }
                let m = choose|m: int| 0 <= m < a.len() && a[m] == rest[i];
            }
        }
        lemma_coded_ignores_order(front, rest, width, k);
        assert(a =~= front.push(x));
        lemma_coded_push_share(front, width, x, k);
        lemma_coded_insert(rest, width, j, x, k);
    }
}

/// The stream of two sequences of items, one after the other, is the sum of
/// their streams.
pub proof fn lemma_coded_concat(a: Seq<Seq<u8>>, b: Seq<Seq<u8>>, width: nat, k: nat)
    requires
        uniform(a, width),
        uniform(b, width),
    ensures
        coded(a + b, width, k) == coded(a, width, k).add(coded(b, width, k)),
    decreases b.len(),
{
    lemma_coded_wf(a, width, k);
    if b.len() == 0 {
        assert(a + b =~= a);
        lemma_add_zero(coded(a, width, k), width);
    } else {
        let front = b.drop_last();
        let x = b.last();
        assert(a + b =~= (a + front).push(x));
        assert(b =~= front.push(x));
        lemma_coded_concat(a, front, width, k);
        assert(uniform(a + front, width)) by {
            assert forall|i: int| 0 <= i < (a + front).len() implies (#[trigger] (a + front)[i]).len()
                == width by {
                if i < a.len() {
                    assert((a + front)[i] == a[i]);
                } else {
                    assert((a + front)[i] == b[i - a.len()]);
                }
            }
        }
        lemma_coded_push_share(a + front, width, x, k);
        lemma_coded_push_share(front, width, x, k);
        lemma_coded_wf(front, width, k);
        assert(x.len() == width);
        lemma_add_associative(coded(a, width, k), coded(front, width, k), share(x, width, k), width);
    }
}

/// The difference of two coded streams is that of the items that only one of
/// them has. If the first set is `common` together with `a_only`, and the
/// second is `common` together with `b_only`, then at every index the cell of
/// the first less the cell of the second is the cell of `a_only` less the
/// cell of `b_only`: what the parties share cancels.
pub proof fn lemma_difference_of_streams(
    a: Seq<Seq<u8>>,
    b: Seq<Seq<u8>>,
    common: Seq<Seq<u8>>,
    a_only: Seq<Seq<u8>>,
    b_only: Seq<Seq<u8>>,
    width: nat,
    k: nat,
)
    requires
        uniform(common, width),
        uniform(a_only, width),
        uniform(b_only, width),
        a.to_multiset() == common.to_multiset().add(a_only.to_multiset()),
        b.to_multiset() == common.to_multiset().add(b_only.to_multiset()),
    ensures
        coded(a, width, k).sub(coded(b, width, k)) == coded(a_only, width, k).sub(
            coded(b_only, width, k),
        ),
{
    lemma_multiset_commutative(common, a_only);
    lemma_multiset_commutative(common, b_only);
    lemma_uniform_concat(common, a_only, width);
    lemma_uniform_concat(common, b_only, width);
    lemma_coded_ignores_order(common + a_only, a, width, k);
    lemma_coded_ignores_order(common + b_only, b, width, k);
    lemma_coded_concat(common, a_only, width, k);
    lemma_coded_concat(common, b_only, width, k);
    lemma_coded_wf(common, width, k);
    lemma_coded_wf(a_only, width, k);
    lemma_coded_wf(b_only, width, k);
    lemma_cancel_common(
        coded(common, width, k),
        coded(a_only, width, k),
        coded(b_only, width, k),
        width,
    );
}

/// Two sequences of items of one width, one after the other, are items of
/// that width.
pub proof fn lemma_uniform_concat(a: Seq<Seq<u8>>, b: Seq<Seq<u8>>, width: nat)
    requires
        uniform(a, width),
        uniform(b, width),
    ensures
        uniform(a + b, width),
{
    assert forall|i: int| 0 <= i < (a + b).len() implies (#[trigger] (a + b)[i]).len() == width by {
        if i < a.len() {
            assert((a + b)[i] == a[i]);
        } else {
            assert((a + b)[i] == b[i - a.len()]);
        }
    }
}

} // verus!
