//! The coded symbol and its group structure.

use vstd::prelude::*;
use crate::digest::{
    bytes_eq, bytes_zero, checksum_of, hash, lemma_xor_associative, lemma_xor_cancel,
    lemma_xor_commutative, lemma_xor_exchange, lemma_xor_self, lemma_xor_settle, lemma_xor_zero,
    xor_bytes, xor_mut, zero_bytes,
};

verus! {

/// The mathematical value of a coded symbol: what a stream holds at one index.
pub ghost struct Cell {
    /// XOR of the bytes of the contributing items.
    pub sum: Seq<u8>,
    /// XOR of the checksums of the contributing items.
    pub checksum: Seq<u8>,
    /// Number of items added less number of items subtracted, in two's
    /// complement.
    pub count: i64,
}

impl Cell {
    /// A cell for items of `width` bytes.
    pub open spec fn wf(self, width: nat) -> bool {
        self.sum.len() == width && self.checksum.len() == 16
    }

    /// The identity: no item at all.
    pub open spec fn zero(width: nat) -> Cell {
        Cell { sum: zero_bytes(width), checksum: zero_bytes(16), count: 0 }
    }

    /// The cell that holds `item` once.
    pub open spec fn single(item: Seq<u8>) -> Cell {
        Cell { sum: item, checksum: checksum_of(item), count: 1 }
    }

    /// Componentwise sum: XOR of sums and checksums, wrapping sum of counts.
    pub open spec fn add(self, rhs: Cell) -> Cell {
        Cell {
            sum: xor_bytes(self.sum, rhs.sum),
            checksum: xor_bytes(self.checksum, rhs.checksum),
            count: self.count.wrapping_add(rhs.count),
        }
    }

    /// Componentwise difference: XOR of sums and checksums, wrapping
    /// difference of counts.
    pub open spec fn sub(self, rhs: Cell) -> Cell {
        Cell {
            sum: xor_bytes(self.sum, rhs.sum),
            checksum: xor_bytes(self.checksum, rhs.checksum),
            count: self.count.wrapping_sub(rhs.count),
        }
    }

    /// The inverse: the count negated, the XOR components unchanged.
    pub open spec fn neg(self) -> Cell {
        Cell { sum: self.sum, checksum: self.checksum, count: 0i64.wrapping_sub(self.count) }
    }

    /// The cell after one more item with the given bytes and checksum.
    pub open spec fn add_entry(self, value: Seq<u8>, checksum: Seq<u8>) -> Cell {
        Cell {
            sum: xor_bytes(self.sum, value),
            checksum: xor_bytes(self.checksum, checksum),
            count: self.count.wrapping_add(1),
        }
    }

    /// No item: the count and the checksum are zero.
    pub open spec fn is_empty(self) -> bool {
        self.count == 0 && self.checksum == zero_bytes(16)
    }

    /// Exactly one item, added or subtracted once: the count is 1 or -1 and
    /// the checksum is that of the sum.
    pub open spec fn is_pure(self) -> bool {
        (self.count == 1 || self.count == -1) && checksum_of(self.sum) == self.checksum
    }
}

/// A coded symbol over items of `N` bytes.
#[derive(Clone, Copy, Debug)]
pub struct Symbol<const N: usize> {
    pub sum: [u8; N],
    pub checksum: [u8; 16],
    pub count: i64,
}

impl<const N: usize> View for Symbol<N> {
    type V = Cell;

    open spec fn view(&self) -> Cell {
        Cell { sum: self.sum@, checksum: self.checksum@, count: self.count }
    }
}

impl<const N: usize> Default for Symbol<N> {
    /// The zero symbol.
    fn default() -> (s: Self)
        ensures
            s@ == Cell::zero(N as nat),
    {
        let s = Symbol { sum: [0u8; N], checksum: [0u8; 16], count: 0 };
        assert(s.sum@ =~= zero_bytes(N as nat));
        assert(s.checksum@ =~= zero_bytes(16));
        s
    }
}

impl<const N: usize> Symbol<N> {
    /// `self - rhs`.
    pub fn sub(self, rhs: Self) -> (out: Self)
        ensures
            out@ == self@.sub(rhs@),
    {
        let mut out = self;
        out.sub_assign(&rhs);
        out
    }

    /// Subtracts `rhs` from `self` in place.
    pub fn sub_assign(&mut self, rhs: &Self)
        ensures
            final(self)@ == old(self)@.sub(rhs@),
    {
        xor_mut(&mut self.sum, &rhs.sum);
        xor_mut(&mut self.checksum, &rhs.checksum);
        self.count = self.count.wrapping_sub(rhs.count);
    }

    /// `self + rhs`.
    pub fn add(self, rhs: Self) -> (out: Self)
        ensures
            out@ == self@.add(rhs@),
    {
        let mut out = self;
        out.add_assign(rhs);
        out
    }

    /// Adds `rhs` to `self` in place.
    pub fn add_assign(&mut self, rhs: Self)
        ensures
            final(self)@ == old(self)@.add(rhs@),
    {
        xor_mut(&mut self.sum, &rhs.sum);
        xor_mut(&mut self.checksum, &rhs.checksum);
        self.count = self.count.wrapping_add(rhs.count);
    }

    /// Adds one item with the given bytes and checksum.
    pub fn add_entry(&mut self, value: &[u8; N], checksum: &[u8; 16])
        ensures
            final(self)@ == old(self)@.add_entry(value@, checksum@),
    {
        xor_mut(&mut self.sum, value);
        xor_mut(&mut self.checksum, checksum);
        self.count = self.count.wrapping_add(1);
    }

    /// A copy of the symbol.
    pub fn copy(&self) -> (out: Self)
        ensures
            out == *self,
    {
        Symbol { sum: self.sum, checksum: self.checksum, count: self.count }
    }

    /// Whether the symbol holds exactly one item.
    pub fn is_pure_cell(&self) -> (pure: bool)
        ensures
            pure == self@.is_pure(),
    {
        if self.count == 1 || self.count == -1 {
            let h = hash(self.sum.as_slice());
            bytes_eq(&h, &self.checksum)
        } else {
            false
        }
    }

    /// Whether the symbol holds no item.
    pub fn is_empty_cell(&self) -> (empty: bool)
        ensures
            empty == self@.is_empty(),
    {
        self.count == 0 && bytes_zero(&self.checksum)
    }
}

/// Adding an item is adding the cell that holds it once.
pub proof fn lemma_add_entry_is_add_single(a: Cell, item: Seq<u8>)
    ensures
        a.add_entry(item, checksum_of(item)) == a.add(Cell::single(item)),
{
}

/// Addition of cells of one width is commutative.
pub proof fn lemma_add_commutative(a: Cell, b: Cell, width: nat)
    requires
        a.wf(width),
        b.wf(width),
    ensures
        a.add(b) == b.add(a),
{
    lemma_xor_commutative(a.sum, b.sum);
    lemma_xor_commutative(a.checksum, b.checksum);
}

/// Addition of cells of one width is associative.
pub proof fn lemma_add_associative(a: Cell, b: Cell, c: Cell, width: nat)
    requires
        a.wf(width),
        b.wf(width),
        c.wf(width),
    ensures
        a.add(b).add(c) == a.add(b.add(c)),
{
    lemma_xor_associative(a.sum, b.sum, c.sum);
    lemma_xor_associative(a.checksum, b.checksum, c.checksum);
}

/// The zero cell is the identity of addition.
pub proof fn lemma_add_zero(a: Cell, width: nat)
    requires
        a.wf(width),
    ensures
        a.add(Cell::zero(width)) == a,
        Cell::zero(width).add(a) == a,
        a.sub(Cell::zero(width)) == a,
{
    lemma_xor_zero(a.sum);
    lemma_xor_zero(a.checksum);
}

/// Subtracting a cell is adding its inverse, and a cell plus its inverse is
/// zero.
pub proof fn lemma_sub_is_add_neg(a: Cell, b: Cell, width: nat)
    requires
        a.wf(width),
        b.wf(width),
    ensures
        a.sub(b) == a.add(b.neg()),
        b.add(b.neg()) == Cell::zero(width),
        b.sub(b) == Cell::zero(width),
{
    lemma_xor_self(b.sum);
    lemma_xor_self(b.checksum);
}

/// Subtraction undoes addition: `(a + b) - b == a`.
pub proof fn lemma_add_then_sub(a: Cell, b: Cell, width: nat)
    requires
        a.wf(width),
        b.wf(width),
    ensures
        a.add(b).sub(b) == a,
        a.sub(b).add(b) == a,
{
    lemma_xor_associative(a.sum, b.sum, b.sum);
    lemma_xor_associative(a.checksum, b.checksum, b.checksum);
    lemma_xor_self(b.sum);
    lemma_xor_self(b.checksum);
    lemma_xor_zero(a.sum);
    lemma_xor_zero(a.checksum);
}

/// For all symbols `a` and `b` over items of one width, `(a + b) - b` is `a`.
pub proof fn lemma_symbol_add_then_sub<const N: usize>(a: Symbol<N>, b: Symbol<N>)
    ensures
        a@.add(b@).sub(b@) == a@,
{
    vstd::array::array_len_matches_n(&a.sum);
    vstd::array::array_len_matches_n(&b.sum);
    vstd::array::array_len_matches_n(&a.checksum);
    vstd::array::array_len_matches_n(&b.checksum);
    lemma_add_then_sub(a@, b@, N as nat);
}

/// An addition and a subtraction may change places: `(a - b) + c == (a + c) - b`.
pub proof fn lemma_sub_add_exchange(a: Cell, b: Cell, c: Cell, width: nat)
    requires
        a.wf(width),
        b.wf(width),
        c.wf(width),
    ensures
        a.sub(b).add(c) == a.add(c).sub(b),
{
    lemma_xor_exchange(a.sum, b.sum, c.sum);
    lemma_xor_exchange(a.checksum, b.checksum, c.checksum);
}

/// Subtracting one cell after another is subtracting their sum:
/// `(a - b) - c == a - (b + c)`.
pub proof fn lemma_sub_sub(a: Cell, b: Cell, c: Cell, width: nat)
    requires
        a.wf(width),
        b.wf(width),
        c.wf(width),
    ensures
        a.sub(b).sub(c) == a.sub(b.add(c)),
{
    lemma_xor_associative(a.sum, b.sum, c.sum);
    lemma_xor_associative(a.checksum, b.checksum, c.checksum);
}

/// Subtracting the inverse of a cell is adding the cell: `a - (-b) == a + b`.
pub proof fn lemma_sub_neg(a: Cell, b: Cell)
    ensures
        a.sub(b.neg()) == a.add(b),
{
}

/// What two sums have in common cancels in their difference:
/// `(c + a) - (c + b) == a - b`.
pub proof fn lemma_cancel_common(c: Cell, a: Cell, b: Cell, width: nat)
    requires
        a.wf(width),
        b.wf(width),
        c.wf(width),
    ensures
        c.add(a).sub(c.add(b)) == a.sub(b),
{
    lemma_xor_cancel(c.sum, a.sum, b.sum);
    lemma_xor_cancel(c.checksum, a.checksum, b.checksum);
}

/// Taking what was recovered out of a difference leaves the difference of
/// the rest: `(((r + u) - (l + v)) - r) + l == u - v`.
pub proof fn lemma_settle(r: Cell, u: Cell, l: Cell, v: Cell, width: nat)
    requires
        r.wf(width),
        u.wf(width),
        l.wf(width),
        v.wf(width),
    ensures
        r.add(u).sub(l.add(v)).sub(r).add(l) == u.sub(v),
{
    lemma_xor_settle(r.sum, u.sum, l.sum, v.sum);
    lemma_xor_settle(r.checksum, u.checksum, l.checksum, v.checksum);
}

} // verus!
