//! The encoder as a plain priority queue: every cursor is in the heap from
//! the moment its item is added, and every symbol is summed from the root.
//! The symbols are those of [`crate::encoder::EncoderIter`].

use vstd::prelude::*;
use crate::binaryheap::heap_ordered;
use crate::coding::{bytes_of, coded};
use crate::digest::{checksum_of, hash};
use crate::encoder::{drain, enlist, lemma_paired_empty, lemma_paired_len, paired, Entry};
use crate::index::IndexGenerator;
use crate::symbol::Symbol;

verus! {

/// The items of a set with their cursors, ready to be streamed.
#[derive(Clone)]
pub struct SetStream<const N: usize> {
    entries: Vec<[u8; N]>,
    heap: Vec<Entry>,
}

impl<const N: usize> View for SetStream<N> {
    type V = Seq<[u8; N]>;

    closed spec fn view(&self) -> Seq<[u8; N]> {
        self.entries@
    }
}

impl<const N: usize> Default for SetStream<N> {
    /// A stream without items.
    fn default() -> (s: Self)
        ensures
            s.wf(),
            s@ == Seq::<[u8; N]>::empty(),
    {
        proof {
            lemma_paired_empty::<N>(0);
        }
        SetStream { entries: Vec::new(), heap: Vec::new() }
    }
}

impl<const N: usize> SetStream<N> {
    /// Every item has its cursor at the start of its index schedule, and the
    /// cursors form a heap.
    pub closed spec fn wf(&self) -> bool {
        paired(self.heap@, self.entries@, 0, Set::empty()) && heap_ordered(self.heap@)
    }

    /// Appends `items`, each with a cursor at the start of its schedule.
    pub fn extend(&mut self, items: &[[u8; N]])
        requires
            old(self).wf(),
        ensures
            final(self).wf(),
            final(self)@ == old(self)@ + items@,
    {
        let mut i: usize = 0;
        while i < items.len()
            invariant
                0 <= i <= items@.len(),
                self.wf(),
                self@ == old(self)@ + items@.subrange(0, i as int),
            decreases items@.len() - i,
        {
            let checksum = hash(items[i].as_slice());
            let index = IndexGenerator::new(checksum);
            enlist(&mut self.entries, &mut self.heap, items[i], checksum, index, Ghost(0));
            assert(items@.subrange(0, i as int).push(items@[i as int]) =~= items@.subrange(
                0,
                i + 1,
            ));
            i += 1;
        }
        assert(items@.subrange(0, i as int) =~= items@);
    }

    /// Starts the stream at output index 0.
    pub fn into_iter(self) -> (it: SetStreamIter<N>)
        requires
            self.wf(),
        ensures
            it.wf(),
            it.entries() == self@,
            it.position() == 0,
            it.size() == self@.len(),
    {
        proof {
            lemma_paired_len(self.heap@, self.entries@, 0, Set::empty());
        }
        let size = self.heap.len();
        SetStreamIter { entries: self.entries, heap: self.heap, index: 0, size }
    }
}

/// A stream of coded symbols in progress, summed from a priority queue.
pub struct SetStreamIter<const N: usize> {
    entries: Vec<[u8; N]>,
    heap: Vec<Entry>,
    index: u64,
    size: usize,
}

impl<const N: usize> Default for SetStreamIter<N> {
    /// The stream of no items, at output index 0.
    fn default() -> (it: Self)
        ensures
            it.wf(),
            it.entries() == Seq::<[u8; N]>::empty(),
            it.position() == 0,
            it.size() == 0,
    {
        proof {
            lemma_paired_empty::<N>(0);
        }
        SetStreamIter { entries: Vec::new(), heap: Vec::new(), index: 0, size: 0 }
    }
}

impl<const N: usize> SetStreamIter<N> {
    /// The items of the stream, in the order in which they were added.
    pub closed spec fn entries(&self) -> Seq<[u8; N]> {
        self.entries@
    }

    /// The items as byte strings.
    pub open spec fn items(&self) -> Seq<Seq<u8>> {
        bytes_of(self.entries())
    }

    /// The index of the next symbol.
    pub closed spec fn position(&self) -> u64 {
        self.index
    }

    /// The number of items that the stream started with.
    pub closed spec fn size(&self) -> usize {
        self.size
    }

    /// Every item has one cursor, which stands at the first index of the
    /// item's schedule that is not before the output index, and the cursors
    /// form a heap.
    pub closed spec fn wf(&self) -> bool {
        paired(self.heap@, self.entries@, self.index as nat, Set::empty()) && heap_ordered(
            self.heap@,
        )
    }

    /// Adds an item whose cursor already stands at or after the output
    /// index.
    pub fn push_unchecked(&mut self, value: [u8; N], checksum: [u8; 16], index_rng: IndexGenerator)
        requires
            old(self).wf(),
            checksum@ == checksum_of(value@),
            index_rng.wf(),
            index_rng.seed() == checksum@,
            index_rng.at_or_after(old(self).position() as nat),
        ensures
            final(self).wf(),
            final(self).entries() == old(self).entries().push(value),
            final(self).position() == old(self).position(),
            final(self).size() == old(self).size(),
    {
        enlist(
            &mut self.entries,
            &mut self.heap,
            value,
            checksum,
            index_rng,
            Ghost(self.index as nat),
        );
    }

    /// The symbol at the output index; the output index moves on by one.
    pub fn must_next(&mut self) -> (s: Symbol<N>)
        requires
            old(self).wf(),
            old(self).position() < u64::MAX,
        ensures
            s@ == coded(old(self).items(), N as nat, old(self).position() as nat),
            final(self).wf(),
            final(self).entries() == old(self).entries(),
            final(self).position() == old(self).position() + 1,
            final(self).size() == old(self).size(),
    {
        let s = drain(&self.entries, &mut self.heap, self.index);
        self.index += 1;
        s
    }

    /// The next symbol of the stream, which ends only where the output index
    /// can no longer be counted in 64 bits.
    pub fn next(&mut self) -> (s: Option<Symbol<N>>)
        requires
            old(self).wf(),
        ensures
            final(self).wf(),
            final(self).entries() == old(self).entries(),
            final(self).size() == old(self).size(),
            old(self).position() < u64::MAX ==> s == Some(s->0) && s->0@ == coded(
                old(self).items(),
                N as nat,
                old(self).position() as nat,
            ) && final(self).position() == old(self).position() + 1,
            old(self).position() == u64::MAX ==> s.is_none() && final(self).position() == old(
                self,
            ).position(),
    {
        if self.index == u64::MAX {
            None
        } else {
            Some(self.must_next())
        }
    }

    /// Gives up the stream for its items.
    pub fn into_entries(self) -> (entries: Vec<[u8; N]>)
        ensures
            entries@ == self.entries(),
    {
        self.entries
    }
}

} // verus!
