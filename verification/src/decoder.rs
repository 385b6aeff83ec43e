//! The decoder: it takes the symbols of two streams pairwise, keeps the
//! difference of each pair as a working cell, and peels pure cells until the
//! first cell is empty.

use vstd::multiset::Multiset;
use vstd::prelude::*;
use vstd::seq_lib::{
    to_multiset_build, to_multiset_contains, to_multiset_len, to_multiset_remove,
    to_multiset_update,
};
use crate::binaryheap::{
    above, heap_ordered, lemma_root_is_least, ordered_but, parent, sift_down, sift_up,
};
use crate::coding::{bytes_of, coded};
use crate::encoder::EncoderIter;
use crate::index::{hits, index_at, lemma_hits_at, lemma_index_increasing, IndexGenerator};
use crate::symbol::{Cell, Symbol};

verus! {

/// What a decoder has made of the pairs it was given: its working cells, the
/// items it has recovered for either side, in the order of recovery, and the
/// indices of the cells that are listed for peeling.
pub ghost struct State {
    /// The working cells, one for each pair.
    pub cells: Seq<Cell>,
    /// The items recovered as held by the remote party only.
    pub remote: Seq<Seq<u8>>,
    /// The items recovered as held by the local party only.
    pub local: Seq<Seq<u8>>,
    /// The indices listed for peeling, each as often as it was listed.
    pub listed: Multiset<usize>,
}

impl State {
    /// The state of a decoder that was given nothing.
    pub open spec fn start() -> State {
        State {
            cells: Seq::empty(),
            remote: Seq::empty(),
            local: Seq::empty(),
            listed: Multiset::empty(),
        }
    }

    /// The first cell is there and empty: every item is accounted for.
    pub open spec fn is_complete(self) -> bool {
        self.cells.len() > 0 && self.cells[0].is_empty()
    }

    /// `j` is listed, and no smaller index is.
    pub open spec fn is_next(self, j: usize) -> bool {
        self.listed.count(j) > 0 && forall|i: usize| self.listed.count(i) > 0 ==> j <= i
    }

    /// The least listed index: the one that is taken off the list next.
    pub open spec fn next(self) -> usize {
        choose|j: usize| self.is_next(j)
    }

    /// The state with `j` taken off the list once.
    pub open spec fn unlist(self, j: usize) -> State {
        State {
            cells: self.cells,
            remote: self.remote,
            local: self.local,
            listed: self.listed.remove(j),
        }
    }

    /// The state with nothing listed.
    pub open spec fn dropped(self) -> State {
        State {
            cells: self.cells,
            remote: self.remote,
            local: self.local,
            listed: Multiset::empty(),
        }
    }

    /// The cells once `symbol` is subtracted from every working cell of the
    /// index schedule that its checksum seeds.
    pub open spec fn subtracted(cells: Seq<Cell>, symbol: Cell) -> Seq<Cell> {
        Seq::new(
            cells.len(),
            |g: int|
                if hits(symbol.checksum, g as nat) {
                    cells[g].sub(symbol)
                } else {
                    cells[g]
                },
        )
    }

    /// The indices below `n` that a peeling lists: those of the index
    /// schedule seeded with `seed` at which `cells`, the cells after the
    /// subtraction, hold a pure cell.
    pub open spec fn made_pure(cells: Seq<Cell>, seed: Seq<u8>, n: nat) -> Multiset<usize>
        decreases n,
    {
        if n == 0 {
            Multiset::empty()
        } else {
            let rest = State::made_pure(cells, seed, (n - 1) as nat);
            if hits(seed, (n - 1) as nat) && cells[n - 1].is_pure() {
                rest.insert((n - 1) as usize)
            } else {
                rest
            }
        }
    }

    /// Peels the pure cell `j`: its symbol is subtracted from every working
    /// cell of the index schedule that its checksum seeds, each of those
    /// cells that is pure afterwards is listed, and its item is recovered for
    /// the remote side if the count is 1, for the local side if it is -1.
    pub open spec fn peel(self, j: int) -> State {
        let s = self.cells[j];
        let cells = State::subtracted(self.cells, s);
        State {
            cells,
            remote: if s.count == 1 {
                self.remote.push(s.sum)
            } else {
                self.remote
            },
            local: if s.count == 1 {
                self.local
            } else {
                self.local.push(s.sum)
            },
            listed: self.listed.add(State::made_pure(cells, s.checksum, cells.len())),
        }
    }

    /// Takes the least listed index off the list and peels its cell if that
    /// is still pure, again and again, until nothing is listed. After `fuel`
    /// indices what is still listed is dropped.
    pub open spec fn peel_all(self, fuel: nat) -> State
        decreases fuel,
    {
        if self.listed.len() == 0 {
            self
        } else if fuel == 0 {
            self.dropped()
        } else {
            let j = self.next();
            let rest = self.unlist(j);
            if j < self.cells.len() && self.cells[j as int].is_pure() {
                rest.peel(j as int).peel_all((fuel - 1) as nat)
            } else {
                rest.peel_all((fuel - 1) as nat)
            }
        }
    }

    /// The working cell that a pair becomes: the remote symbol less the local
    /// one, less what the items already recovered for the remote side give at
    /// this index, plus what those recovered for the local side give.
    pub open spec fn cell(self, remote: Cell, local: Cell, width: nat) -> Cell {
        let k = self.cells.len();
        remote.sub(local).sub(coded(self.remote, width, k)).add(coded(self.local, width, k))
    }

    /// The state when the cell of a pair has arrived: the cell is stored, and
    /// listed if it is pure.
    pub open spec fn arrived(self, remote: Cell, local: Cell, width: nat) -> State {
        let cell = self.cell(remote, local, width);
        State {
            cells: self.cells.push(cell),
            remote: self.remote,
            local: self.local,
            listed: if cell.is_pure() {
                self.listed.insert(self.cells.len() as usize)
            } else {
                self.listed
            },
        }
    }

    /// The state after one more pair: its cell arrives, and then the listed
    /// cells are peeled, the least index first. A cell is listed when it
    /// arrives pure and when a subtraction makes it pure, and at no other
    /// time. At most as many indices are taken off the list as there are
    /// working cells; what is listed then is dropped.
    pub open spec fn step(self, remote: Cell, local: Cell, width: nat) -> State {
        self.arrived(remote, local, width).peel_all(self.cells.len() + 1)
    }

    /// The state in which the decoding of two streams ends, if it ends within
    /// `limit` pairs: the first complete state.
    pub open spec fn decoded(remote: Seq<Cell>, local: Seq<Cell>, width: nat, limit: nat) -> Option<
        State,
    >
        decreases limit,
    {
        if limit == 0 {
            None
        } else {
            match State::decoded(remote, local, width, (limit - 1) as nat) {
                Some(s) => Some(s),
                None => {
                    let s = State::after(remote, local, width, limit);
                    if s.is_complete() {
                        Some(s)
                    } else {
                        None
                    }
                },
            }
        }
    }

    /// The state after the first `k` pairs of two streams.
    pub open spec fn after(remote: Seq<Cell>, local: Seq<Cell>, width: nat, k: nat) -> State
        decreases k,
    {
        if k == 0 {
            State::start()
        } else {
            State::after(remote, local, width, (k - 1) as nat).step(
                remote[k - 1],
                local[k - 1],
                width,
            )
        }
    }
}

/// Only one index is the least listed one.
pub proof fn lemma_next_is(state: State, j: usize)
    requires
        state.is_next(j),
    ensures
        state.next() == j,
{
    assert(state.is_next(state.next()));
}

/// Indices that the schedule of a seed misses are not listed by a peeling.
pub proof fn lemma_made_pure_skips(cells: Seq<Cell>, seed: Seq<u8>, lo: nat, hi: nat)
    requires
        lo <= hi,
        forall|g: nat| lo <= g < hi ==> !hits(seed, g),
    ensures
        State::made_pure(cells, seed, hi) == State::made_pure(cells, seed, lo),
    decreases hi,
{
    if lo < hi {
        lemma_made_pure_skips(cells, seed, lo, (hi - 1) as nat);
    }
}

/// The cells that a vector of symbols stands for.
pub open spec fn cells_of<const N: usize>(symbols: Seq<Symbol<N>>) -> Seq<Cell> {
    Seq::new(symbols.len(), |i: int| symbols[i]@)
}

/// How many cells lie at or after index `i`.
spec fn ahead(i: u64, len: nat) -> nat {
    if i < len {
        (len - i) as nat
    } else {
        0
    }
}

/// The smaller of an index and the number of cells.
spec fn within(i: nat, len: nat) -> nat {
    if i < len {
        i
    } else {
        len
    }
}

/// Every entry of `heap` is the index of a cell.
spec fn in_range(heap: Seq<usize>, len: nat) -> bool {
    forall|i: int| 0 <= i < heap.len() ==> (#[trigger] heap[i]) < len
}

/// The element of a slice at an index given in 64 bits, if there is one.
pub fn index_mut_u64<T>(s: &mut [T], i: u64) -> (r: Option<&mut T>)
    ensures
        match r {
            Some(x) => i < old(s)@.len() && *x == old(s)@[i as int] && final(s)@ == old(s)@.update(
                i as int,
                *final(x),
            ),
            None => i >= old(s)@.len() && final(s)@ == old(s)@,
        },
{
    if i < s.len() as u64 {
        Some(&mut s[i as usize])
    } else {
        None
    }
}

/// A streaming peeling decoder over items of `N` bytes.
pub struct Decoder<const N: usize> {
    remote: EncoderIter<N>,
    local: EncoderIter<N>,
    symbols: Vec<Symbol<N>>,
    pure_heap: Vec<usize>,
}

impl<const N: usize> Default for Decoder<N> {
    /// A decoder that was given nothing.
    fn default() -> (d: Self)
        ensures
            d.wf(),
            d@ == State::start(),
    {
        let d = Decoder {
            remote: EncoderIter::default(),
            local: EncoderIter::default(),
            symbols: Vec::new(),
            pure_heap: Vec::new(),
        };
        proof {
            lemma_nothing_listed(d.pure_heap@);
        }
        assert(d@.cells =~= Seq::<Cell>::empty());
        assert(d@.remote =~= Seq::<Seq<u8>>::empty());
        assert(d@.local =~= Seq::<Seq<u8>>::empty());
        d
    }
}

/// An empty heap lists nothing.
proof fn lemma_nothing_listed(heap: Seq<usize>)
    requires
        heap.len() == 0,
    ensures
        heap.to_multiset() == Multiset::<usize>::empty(),
{
    broadcast use vstd::multiset::group_multiset_axioms;

    to_multiset_len(heap);
    assert(heap.to_multiset() =~= Multiset::<usize>::empty());
}

impl<const N: usize> View for Decoder<N> {
    type V = State;

    closed spec fn view(&self) -> State {
        State {
            cells: cells_of(self.symbols@),
            remote: bytes_of(self.remote.entries()),
            local: bytes_of(self.local.entries()),
            listed: self.pure_heap@.to_multiset(),
        }
    }
}

impl<const N: usize> Decoder<N> {
    /// The two streams of recovered items stand at the next input index, and
    /// nothing is listed for peeling: every call of `push` leaves the list
    /// empty.
    pub closed spec fn wf(&self) -> bool {
        &&& self.remote.wf()
        &&& self.local.wf()
        &&& self.remote.position() == self.symbols@.len()
        &&& self.local.position() == self.symbols@.len()
        &&& self.pure_heap@.len() == 0
    }

    /// In a decoder between two calls nothing is listed for peeling.
    pub proof fn lemma_nothing_listed(&self)
        requires
            self.wf(),
        ensures
            self@.listed.len() == 0,
            self@.listed == Multiset::<usize>::empty(),
    {
        lemma_nothing_listed(self.pure_heap@);
        to_multiset_len(self.pure_heap@);
    }

    /// The number of pairs taken so far.
    pub fn len(&self) -> (n: usize)
        ensures
            n == self@.cells.len(),
    {
        self.symbols.len()
    }

    /// Whether every item is accounted for: the first working cell is there
    /// and empty.
    pub fn is_complete(&self) -> (done: bool)
        ensures
            done == self@.is_complete(),
    {
        self.symbols.len() > 0 && self.symbols[0].is_empty_cell()
    }

    /// Gives up the decoder for the items recovered: those that only the
    /// remote party holds, and those that only the local party holds.
    pub fn consume(self) -> (items: (Vec<[u8; N]>, Vec<[u8; N]>))
        ensures
            bytes_of(items.0@) == self@.remote,
            bytes_of(items.1@) == self@.local,
    {
        (self.remote.into_entries(), self.local.into_entries())
    }

    /// Lists cell `at` for peeling.
    fn list(&mut self, at: usize)
        requires
            at < old(self).symbols@.len(),
            heap_ordered(old(self).pure_heap@),
            in_range(old(self).pure_heap@, old(self).symbols@.len()),
        ensures
            final(self).remote == old(self).remote,
            final(self).local == old(self).local,
            final(self).symbols == old(self).symbols,
            heap_ordered(final(self).pure_heap@),
            in_range(final(self).pure_heap@, final(self).symbols@.len()),
            final(self).pure_heap@.to_multiset() == old(self).pure_heap@.to_multiset().insert(at),
    {
        let ghost before = self.pure_heap@;
        let last = self.pure_heap.len();
        self.pure_heap.push(at);
        let ghost pushed = self.pure_heap@;
        proof {
            to_multiset_build(before, at);
            assert forall|i: int| 1 <= i < pushed.len() && i != last implies #[trigger] above(
                pushed,
                i,
            ) by {
                assert(above(before, i));
            }
            assert(ordered_but(pushed, last as int));
        }
        sift_up(self.pure_heap.as_mut_slice(), 0, last);
        proof {
            let now = self.pure_heap@;
            assert forall|i: int| 0 <= i < now.len() implies (#[trigger] now[i])
                < self.symbols@.len() by {
                to_multiset_contains(now, now[i]);
                to_multiset_contains(pushed, now[i]);
                assert(now.contains(now[i]));
                let j = choose|j: int| 0 <= j < pushed.len() && pushed[j] == now[i];
                if j < before.len() {
                    assert(before[j] < self.symbols@.len());
                }
            }
        }
    }

    /// Takes the least listed index off the list.
    fn unlist(&mut self) -> (at: usize)
        requires
            old(self).pure_heap@.len() > 0,
            heap_ordered(old(self).pure_heap@),
            in_range(old(self).pure_heap@, old(self).symbols@.len()),
        ensures
            final(self).remote == old(self).remote,
            final(self).local == old(self).local,
            final(self).symbols == old(self).symbols,
            heap_ordered(final(self).pure_heap@),
            in_range(final(self).pure_heap@, final(self).symbols@.len()),
            at < old(self).symbols@.len(),
            old(self)@.is_next(at),
            final(self).pure_heap@.to_multiset() == old(self).pure_heap@.to_multiset().remove(at),
    {
        let ghost before = self.pure_heap@;
        let at = self.pure_heap.swap_remove(0);
        let ghost cut = self.pure_heap@;
        proof {
            broadcast use vstd::multiset::group_multiset_axioms;

            to_multiset_contains(before, at);
            assert(before[0] == at);
            assert(before.contains(at));
            assert forall|x: usize| before.to_multiset().count(x) > 0 implies at <= x by {
                to_multiset_contains(before, x);
                let j = choose|j: int| 0 <= j < before.len() && before[j] == x;
                lemma_root_is_least(before, j);
            }
            let moved = before.update(0, before.last());
            to_multiset_update(before, 0, before.last());
            to_multiset_remove(moved, moved.len() - 1);
            assert(moved.remove(moved.len() - 1) =~= cut);
            to_multiset_contains(before, before.last());
            assert(before[before.len() - 1] == before.last());
            assert(before.contains(before.last()));
            assert(cut.to_multiset() =~= before.to_multiset().remove(at));
            assert forall|i: int| 0 <= i < cut.len() implies (#[trigger] cut[i])
                < self.symbols@.len() by {
                if i == 0 {
                    assert(before[before.len() - 1] < self.symbols@.len());
                } else {
                    assert(before[i] < self.symbols@.len());
                }
            }
            assert(before[0] < self.symbols@.len());
            assert forall|i: int| 1 <= i < cut.len() && parent(i) >= 1 implies #[trigger] above(
                cut,
                i,
            ) by {
                assert(above(before, i));
            }
        }
        sift_down(self.pure_heap.as_mut_slice(), 0);
        proof {
            let now = self.pure_heap@;
            assert forall|i: int| 0 <= i < now.len() implies (#[trigger] now[i])
                < self.symbols@.len() by {
                to_multiset_contains(now, now[i]);
                to_multiset_contains(cut, now[i]);
                assert(now.contains(now[i]));
            }
        }
        at
    }

    /// Takes one pair of symbols, the next of either stream. The difference
    /// of the pair, less what the items recovered so far give at this index,
    /// becomes a working cell, which is listed if it is pure. Then the listed
    /// cells are peeled, the one with the least index first, until nothing is
    /// listed. On streams that no encoder gives this could go on for ever, so
    /// one call takes at most as many indices off the list as the decoder
    /// holds cells, and drops what is listed then.
    ///
    /// A pair whose cell is not pure adds that cell and changes nothing else.
    pub fn push(&mut self, remote: Symbol<N>, local: Symbol<N>)
        requires
            old(self).wf(),
            old(self)@.cells.len() < usize::MAX,
        ensures
            final(self).wf(),
            final(self)@ == old(self)@.step(remote@, local@, N as nat),
            !old(self)@.cell(remote@, local@, N as nat).is_pure() ==> final(self)@ == (State {
                cells: old(self)@.cells.push(old(self)@.cell(remote@, local@, N as nat)),
                remote: old(self)@.remote,
                local: old(self)@.local,
                listed: old(self)@.listed,
            }),
    {
        let ghost k = self.symbols@.len();
        let ghost before = self@;
        proof {
            self.lemma_nothing_listed();
            if !before.cell(remote@, local@, N as nat).is_pure() {
                lemma_step_without_pure_cell(before, remote@, local@, N as nat);
            }
        }
        let cell = remote.sub(local).sub(self.remote.must_next()).add(self.local.must_next());
        let at = self.symbols.len();
        self.symbols.push(cell);
        proof {
            assert(cells_of(self.symbols@) =~= before.cells.push(cell@));
        }
        if cell.is_pure_cell() {
            self.list(at);
        }
        let ghost arrived = self@;
        assert(arrived == before.arrived(remote@, local@, N as nat));
        let mut budget = self.symbols.len();
        while budget > 0 && self.pure_heap.len() > 0
            invariant
                self.remote.wf(),
                self.local.wf(),
                self.remote.position() == self.symbols@.len(),
                self.local.position() == self.symbols@.len(),
                self.symbols@.len() == k + 1,
                k + 1 <= usize::MAX,
                heap_ordered(self.pure_heap@),
                in_range(self.pure_heap@, self.symbols@.len()),
                self@.peel_all(budget as nat) == arrived.peel_all((k + 1) as nat),
            decreases budget,
        {
            let ghost state = self@;
            proof {
                to_multiset_len(self.pure_heap@);
            }
            budget -= 1;
            let i = self.unlist();
            proof {
                lemma_next_is(state, i);
                assert(self@ == state.unlist(i));
            }
            let symbol = self.symbols[i].copy();
            if symbol.is_pure_cell() {
                self.peel_off(i, symbol);
            }
        }
        proof {
            to_multiset_len(self.pure_heap@);
        }
        if self.pure_heap.len() > 0 {
            self.pure_heap.clear();
            proof {
                lemma_nothing_listed(self.pure_heap@);
            }
        }
    }

    /// Peels the pure cell `at`, whose symbol is `symbol`: the symbol is
    /// subtracted along the index schedule of its checksum, cells that the
    /// subtraction makes pure are listed, and the item joins the stream of
    /// its side with the schedule where the subtraction left it.
    fn peel_off(&mut self, at: usize, symbol: Symbol<N>)
        requires
            old(self).remote.wf(),
            old(self).local.wf(),
            old(self).remote.position() == old(self).symbols@.len(),
            old(self).local.position() == old(self).symbols@.len(),
            heap_ordered(old(self).pure_heap@),
            in_range(old(self).pure_heap@, old(self).symbols@.len()),
            at < old(self).symbols@.len() <= usize::MAX,
            symbol == old(self).symbols@[at as int],
            symbol@.is_pure(),
        ensures
            final(self).remote.wf(),
            final(self).local.wf(),
            final(self).remote.position() == final(self).symbols@.len(),
            final(self).local.position() == final(self).symbols@.len(),
            heap_ordered(final(self).pure_heap@),
            in_range(final(self).pure_heap@, final(self).symbols@.len()),
            final(self).symbols@.len() == old(self).symbols@.len(),
            final(self)@ == old(self)@.peel(at as int),
    {
        let ghost cells0 = cells_of(self.symbols@);
        let ghost seed = symbol.checksum@;
        let ghost len = self.symbols@.len();
        let ghost target = State::subtracted(cells0, symbol@);
        let ghost base = self.pure_heap@.to_multiset();
        let mut index = IndexGenerator::new(symbol.checksum);
        proof {
            broadcast use vstd::multiset::group_multiset_axioms;

            index.lemma_index();
            assert(base.add(State::made_pure(target, seed, 0)) =~= base);
        }
        while index.current() < self.symbols.len() as u64
            invariant
                self.remote == old(self).remote,
                self.local == old(self).local,
                self.symbols@.len() == len,
                at < len <= usize::MAX,
                cells0.len() == len,
                symbol@ == cells0[at as int],
                seed == symbol.checksum@,
                target == State::subtracted(cells0, symbol@),
                index.wf(),
                index.seed() == seed,
                index.draws() == 0 || index_at(seed, (index.draws() - 1) as nat) < len,
                heap_ordered(self.pure_heap@),
                in_range(self.pure_heap@, len),
                forall|g: int|
                    0 <= g < len ==> (#[trigger] self.symbols@[g])@ == if g < index_at(
                        seed,
                        index.draws(),
                    ) {
                        target[g]
                    } else {
                        cells0[g]
                    },
                self.pure_heap@.to_multiset() == base.add(
                    State::made_pure(target, seed, within(index_at(seed, index.draws()), len)),
                ),
            decreases ahead(index.index(), len),
        {
            let here = index.current();
            let ghost m = index.draws();
            let ghost listed = self.pure_heap@.to_multiset();
            proof {
                index.lemma_index();
                assert(index_at(seed, m) == here);
            }
            let mut pure = false;
            match index_mut_u64(self.symbols.as_mut_slice(), here) {
                Some(s) => {
                    s.sub_assign(&symbol);
                    pure = s.is_pure_cell();
                },
                None => {},
            }
            if pure {
                self.list(here as usize);
            }
            index.next();
            proof {
                broadcast use vstd::multiset::group_multiset_axioms;

                index.lemma_index();
                lemma_index_increasing(seed, m, m + 1);
                let next = index_at(seed, m + 1);
                assert(hits(seed, here as nat));
                assert(target[here as int] == cells0[here as int].sub(symbol@));
                assert forall|g: int| 0 <= g < len implies (#[trigger] self.symbols@[g])@ == if g
                    < next {
                    target[g]
                } else {
                    cells0[g]
                } by {
                    if g > here && g < next {
                        lemma_hits_at(seed, m + 1, g as nat);
                    }
                }
                assert forall|g: nat| here + 1 <= g < within(next, len) implies !hits(seed, g) by {
                    lemma_hits_at(seed, m + 1, g);
                }
                lemma_made_pure_skips(target, seed, (here + 1) as nat, within(next, len));
                assert(within(here as nat, len) == here);
                assert(self.pure_heap@.to_multiset() =~= base.add(
                    State::made_pure(target, seed, (here + 1) as nat),
                ));
            }
        }
        proof {
            index.lemma_index();
            assert(cells_of(self.symbols@) =~= target);
        }
        let ghost peeled = old(self)@.peel(at as int);
        if symbol.count == 1 {
            self.remote.push_unchecked(symbol.sum, symbol.checksum, index);
            proof {
                assert(bytes_of(self.remote.entries()) =~= peeled.remote);
            }
        } else {
            self.local.push_unchecked(symbol.sum, symbol.checksum, index);
            proof {
                assert(bytes_of(self.local.entries()) =~= peeled.local);
            }
        }
    }
}

/// The number of pairs that two streams of the given lengths make.
pub open spec fn pairs(remote: nat, local: nat) -> nat {
    if remote <= local {
        remote
    } else {
        local
    }
}

/// Decodes two streams pairwise until the decoder is complete. Returns the
/// items that only the remote party holds and those that only the local
/// party holds, or `None` if either stream ends first.
pub fn set_difference<const N: usize>(remote: &[Symbol<N>], local: &[Symbol<N>]) -> (out: Option<
    (Vec<[u8; N]>, Vec<[u8; N]>),
>)
    ensures
        match out {
            Some((r, l)) => State::decoded(
                cells_of(remote@),
                cells_of(local@),
                N as nat,
                pairs(remote@.len(), local@.len()),
            ) matches Some(s) && bytes_of(r@) == s.remote && bytes_of(l@) == s.local,
            None => State::decoded(
                cells_of(remote@),
                cells_of(local@),
                N as nat,
                pairs(remote@.len(), local@.len()),
            ) is None,
        },
{
    let mut decoder = Decoder::default();
    let mut k: usize = 0;
    while k < remote.len() && k < local.len()
        invariant
            k <= remote@.len(),
            k <= local@.len(),
            decoder.wf(),
            decoder@ == State::after(cells_of(remote@), cells_of(local@), N as nat, k as nat),
            decoder@.cells.len() == k,
            State::decoded(cells_of(remote@), cells_of(local@), N as nat, k as nat) is None,
        decreases remote@.len() - k,
    {
        decoder.push(remote[k].copy(), local[k].copy());
        k += 1;
        proof {
            lemma_step_length(
                State::after(cells_of(remote@), cells_of(local@), N as nat, (k - 1) as nat),
                cells_of(remote@)[k - 1],
                cells_of(local@)[k - 1],
                N as nat,
            );
        }
        if decoder.is_complete() {
            proof {
                lemma_decoded_stays(
                    cells_of(remote@),
                    cells_of(local@),
                    N as nat,
                    k as nat,
                    pairs(remote@.len(), local@.len()),
                );
            }
            return Some(decoder.consume());
        }
    }
    None
}

/// Once decoding has ended, more pairs change nothing.
pub proof fn lemma_decoded_stays(remote: Seq<Cell>, local: Seq<Cell>, width: nat, k: nat, limit: nat)
    requires
        k <= limit,
        State::decoded(remote, local, width, k) is Some,
    ensures
        State::decoded(remote, local, width, limit) == State::decoded(remote, local, width, k),
    decreases limit,
{
    if k < limit {
        lemma_decoded_stays(remote, local, width, k, (limit - 1) as nat);
    }
}

/// Where decoding ends, it ends in the first complete state.
pub proof fn lemma_decoded_is_first_complete(
    remote: Seq<Cell>,
    local: Seq<Cell>,
    width: nat,
    limit: nat,
) -> (k: nat)
    requires
        State::decoded(remote, local, width, limit) is Some,
    ensures
        1 <= k <= limit,
        State::decoded(remote, local, width, limit) == Some(State::after(remote, local, width, k)),
        State::after(remote, local, width, k).is_complete(),
        forall|j: nat| 1 <= j < k ==> !(#[trigger] State::after(remote, local, width, j)).is_complete(),
    decreases limit,
{
    if State::decoded(remote, local, width, (limit - 1) as nat) is Some {
        lemma_decoded_is_first_complete(remote, local, width, (limit - 1) as nat)
    } else {
        lemma_undecoded(remote, local, width, (limit - 1) as nat);
        limit
    }
}

/// Where decoding has not ended, no state so far was complete.
pub proof fn lemma_undecoded(remote: Seq<Cell>, local: Seq<Cell>, width: nat, limit: nat)
    requires
        State::decoded(remote, local, width, limit) is None,
    ensures
        forall|j: nat|
            1 <= j <= limit ==> !(#[trigger] State::after(remote, local, width, j)).is_complete(),
    decreases limit,
{
    if limit > 0 {
        lemma_undecoded(remote, local, width, (limit - 1) as nat);
    }
}

/// Peeling keeps the number of working cells.
pub proof fn lemma_peel_all_length(state: State, fuel: nat)
    ensures
        state.peel_all(fuel).cells.len() == state.cells.len(),
    decreases fuel,
{
    if state.listed.len() != 0 && fuel > 0 {
        let j = state.next();
        let rest = state.unlist(j);
        if j < state.cells.len() && state.cells[j as int].is_pure() {
            lemma_peel_all_length(rest.peel(j as int), (fuel - 1) as nat);
        } else {
            lemma_peel_all_length(rest, (fuel - 1) as nat);
        }
    }
}

/// Every pair adds one working cell.
pub proof fn lemma_step_length(state: State, remote: Cell, local: Cell, width: nat)
    ensures
        state.step(remote, local, width).cells.len() == state.cells.len() + 1,
{
    lemma_peel_all_length(state.arrived(remote, local, width), state.cells.len() + 1);
}

/// A pair whose cell is not pure adds that cell and changes nothing else,
/// where nothing was listed before.
pub proof fn lemma_step_without_pure_cell(state: State, remote: Cell, local: Cell, width: nat)
    requires
        state.listed.len() == 0,
        !state.cell(remote, local, width).is_pure(),
    ensures
        state.step(remote, local, width) == (State {
            cells: state.cells.push(state.cell(remote, local, width)),
            remote: state.remote,
            local: state.local,
            listed: state.listed,
        }),
{
}

/// After a pair, nothing is listed.
pub proof fn lemma_peel_all_unlists(state: State, fuel: nat)
    ensures
        state.peel_all(fuel).listed.len() == 0,
    decreases fuel,
{
    broadcast use vstd::multiset::group_multiset_axioms;

    if state.listed.len() != 0 && fuel > 0 {
        let j = state.next();
        let rest = state.unlist(j);
        if j < state.cells.len() && state.cells[j as int].is_pure() {
            lemma_peel_all_unlists(rest.peel(j as int), (fuel - 1) as nat);
        } else {
            lemma_peel_all_unlists(rest, (fuel - 1) as nat);
        }
    }
}

} // verus!
