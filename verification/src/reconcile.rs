//! What a decoder makes of two coded streams: the equation that its working
//! cells satisfy at every step, and the round trip from two sets to the items
//! that only one of them holds.

use vstd::prelude::*;
use vstd::seq_lib::{
    lemma_multiset_commutative, to_multiset_build, to_multiset_contains, to_multiset_remove,
};
use crate::coding::{
    coded, lemma_coded_concat, lemma_coded_ignores_order, lemma_coded_push, lemma_coded_wf,
    lemma_difference_of_streams, lemma_uniform_concat, uniform,
};
use crate::decoder::{lemma_decoded_is_first_complete, State};
use crate::index::hits;
use crate::symbol::{
    lemma_add_associative, lemma_add_zero, lemma_settle, lemma_sub_add_exchange, lemma_sub_neg,
    lemma_sub_sub, Cell,
};

verus! {

/// The first `n` cells of the stream that encodes `items`.
pub open spec fn stream(items: Seq<Seq<u8>>, width: nat, n: nat) -> Seq<Cell> {
    Seq::new(n, |j: int| coded(items, width, j as nat))
}

/// Every cell is `width` bytes wide.
pub open spec fn cells_wf(cells: Seq<Cell>, width: nat) -> bool {
    forall|j: int| 0 <= j < cells.len() ==> (#[trigger] cells[j]).wf(width)
}

/// What is left of a pair of symbols at index `j` once the items recovered
/// are taken out: the remote symbol less the local one, less the cell of the
/// items recovered for the remote side, plus the cell of those recovered for
/// the local side.
pub open spec fn residual(remote: Cell, local: Cell, state: State, width: nat, j: nat) -> Cell {
    remote.sub(local).sub(coded(state.remote, width, j)).add(coded(state.local, width, j))
}

/// Every working cell is the residual of its pair, and all items and cells
/// are `width` bytes wide.
pub open spec fn balanced(state: State, remote: Seq<Cell>, local: Seq<Cell>, width: nat) -> bool {
    &&& state.cells.len() <= remote.len()
    &&& state.cells.len() <= local.len()
    &&& uniform(state.remote, width)
    &&& uniform(state.local, width)
    &&& forall|j: int|
        0 <= j < state.cells.len() ==> #[trigger] state.cells[j] == residual(
            remote[j],
            local[j],
            state,
            width,
            j as nat,
        )
}

/// A residual of cells of one width is a cell of that width.
pub proof fn lemma_residual_wf(remote: Cell, local: Cell, state: State, width: nat, j: nat)
    requires
        remote.wf(width),
        local.wf(width),
        uniform(state.remote, width),
        uniform(state.local, width),
    ensures
        residual(remote, local, state, width, j).wf(width),
{
    lemma_coded_wf(state.remote, width, j);
    lemma_coded_wf(state.local, width, j);
}

/// Peeling a pure cell keeps every working cell the residual of its pair.
pub proof fn lemma_peel_balanced(
    state: State,
    i: int,
    remote: Seq<Cell>,
    local: Seq<Cell>,
    width: nat,
)
    requires
        cells_wf(remote, width),
        cells_wf(local, width),
        balanced(state, remote, local, width),
        0 <= i < state.cells.len(),
        state.cells[i].is_pure(),
    ensures
        balanced(state.peel(i), remote, local, width),
{
    let s = state.cells[i];
    let after = state.peel(i);
    let x = Cell::single(s.sum);
    lemma_residual_wf(remote[i], local[i], state, width, i as nat);
    assert(s.wf(width));
    assert forall|j: int| 0 <= j < after.remote.len() implies (#[trigger] after.remote[j]).len()
        == width by {
        if j < state.remote.len() {
            assert(after.remote[j] == state.remote[j]);
        }
    }
    assert forall|j: int| 0 <= j < after.local.len() implies (#[trigger] after.local[j]).len()
        == width by {
        if j < state.local.len() {
            assert(after.local[j] == state.local[j]);
        }
    }
    assert forall|j: int| 0 <= j < after.cells.len() implies #[trigger] after.cells[j] == residual(
        remote[j],
        local[j],
        after,
        width,
        j as nat,
    ) by {
        let d = remote[j].sub(local[j]);
        let gr = coded(state.remote, width, j as nat);
        let gl = coded(state.local, width, j as nat);
        assert(state.cells[j] == residual(remote[j], local[j], state, width, j as nat));
        assert(remote[j].wf(width) && local[j].wf(width));
        lemma_coded_wf(state.remote, width, j as nat);
        lemma_coded_wf(state.local, width, j as nat);
        if s.count == 1 {
            assert(s == x);
            lemma_coded_push(state.remote, width, s.sum, j as nat);
            if hits(s.checksum, j as nat) {
                lemma_sub_add_exchange(d.sub(gr), s, gl, width);
                lemma_sub_sub(d, gr, s, width);
            }
        } else {
            assert(s == x.neg());
            lemma_coded_push(state.local, width, s.sum, j as nat);
            if hits(s.checksum, j as nat) {
                lemma_sub_neg(d.sub(gr).add(gl), x);
                lemma_add_associative(d.sub(gr), gl, x, width);
            }
        }
    }
}

/// Balance does not depend on what is listed.
pub proof fn lemma_balanced_whatever_listed(
    state: State,
    other: State,
    remote: Seq<Cell>,
    local: Seq<Cell>,
    width: nat,
)
    requires
        balanced(state, remote, local, width),
        other.cells == state.cells,
        other.remote == state.remote,
        other.local == state.local,
    ensures
        balanced(other, remote, local, width),
{
    assert forall|j: int| 0 <= j < other.cells.len() implies #[trigger] other.cells[j] == residual(
        remote[j],
        local[j],
        other,
        width,
        j as nat,
    ) by {
        assert(state.cells[j] == residual(remote[j], local[j], state, width, j as nat));
    }
}

/// Peeling keeps every working cell the residual of its pair.
pub proof fn lemma_peel_all_balanced(
    state: State,
    fuel: nat,
    remote: Seq<Cell>,
    local: Seq<Cell>,
    width: nat,
)
    requires
        cells_wf(remote, width),
        cells_wf(local, width),
        balanced(state, remote, local, width),
    ensures
        balanced(state.peel_all(fuel), remote, local, width),
        state.peel_all(fuel).cells.len() == state.cells.len(),
    decreases fuel,
{
    if state.listed.len() == 0 {
    } else if fuel == 0 {
        lemma_balanced_whatever_listed(state, state.dropped(), remote, local, width);
    } else {
        let j = state.next();
        let rest = state.unlist(j);
        lemma_balanced_whatever_listed(state, rest, remote, local, width);
        if j < state.cells.len() && state.cells[j as int].is_pure() {
            lemma_peel_balanced(rest, j as int, remote, local, width);
            lemma_peel_all_balanced(rest.peel(j as int), (fuel - 1) as nat, remote, local, width);
        } else {
            lemma_peel_all_balanced(rest, (fuel - 1) as nat, remote, local, width);
        }
    }
}

/// After any number of pairs, every working cell of a decoder is the
/// residual of its pair: the remote symbol less the local one, less what the
/// items recovered for the remote side give at that index, plus what the
/// items recovered for the local side give.
pub proof fn lemma_cells_are_residuals(remote: Seq<Cell>, local: Seq<Cell>, width: nat, k: nat)
    requires
        cells_wf(remote, width),
        cells_wf(local, width),
        k <= remote.len(),
        k <= local.len(),
    ensures
        balanced(State::after(remote, local, width, k), remote, local, width),
        State::after(remote, local, width, k).cells.len() == k,
    decreases k,
{
    if k > 0 {
        let before = State::after(remote, local, width, (k - 1) as nat);
        lemma_cells_are_residuals(remote, local, width, (k - 1) as nat);
        let pushed = before.arrived(remote[k - 1], local[k - 1], width);
        assert forall|j: int| 0 <= j < pushed.cells.len() implies #[trigger] pushed.cells[j]
            == residual(remote[j], local[j], pushed, width, j as nat) by {
            if j < k - 1 {
                assert(before.cells[j] == residual(remote[j], local[j], before, width, j as nat));
            }
        }
        lemma_peel_all_balanced(pushed, k, remote, local, width);
    }
}

/// What a decoder makes of two coded streams does not depend on the order in
/// which the items were added to either encoder.
pub proof fn lemma_result_ignores_order(
    a1: Seq<Seq<u8>>,
    a2: Seq<Seq<u8>>,
    b1: Seq<Seq<u8>>,
    b2: Seq<Seq<u8>>,
    width: nat,
    n: nat,
    k: nat,
)
    requires
        uniform(a1, width),
        uniform(b1, width),
        a1.to_multiset() == a2.to_multiset(),
        b1.to_multiset() == b2.to_multiset(),
    ensures
        State::after(stream(a1, width, n), stream(b1, width, n), width, k) == State::after(
            stream(a2, width, n),
            stream(b2, width, n),
            width,
            k,
        ),
{
    assert forall|j: int| 0 <= j < n implies stream(a1, width, n)[j] == stream(a2, width, n)[j] by {
        lemma_coded_ignores_order(a1, a2, width, j as nat);
    }
    assert forall|j: int| 0 <= j < n implies stream(b1, width, n)[j] == stream(b2, width, n)[j] by {
        lemma_coded_ignores_order(b1, b2, width, j as nat);
    }
    assert(stream(a1, width, n) =~= stream(a2, width, n));
    assert(stream(b1, width, n) =~= stream(b2, width, n));
}

/// `part` holds no item more often than `whole` does.
pub open spec fn part_of(part: Seq<Seq<u8>>, whole: Seq<Seq<u8>>) -> bool {
    part.to_multiset().subset_of(whole.to_multiset())
}

/// Cell `j` of the stream of `plus` less cell `j` of the stream of `minus`.
pub open spec fn signed(plus: Seq<Seq<u8>>, minus: Seq<Seq<u8>>, width: nat, j: nat) -> Cell {
    coded(plus, width, j).sub(coded(minus, width, j))
}

/// Cell `j` of the items `plus` less the items `minus` is what it seems to
/// be: if it is pure, its sum is one of the items, of `plus` if the count is
/// 1 and of `minus` if it is -1; and if it is the first cell and empty, there
/// are no items at all.
pub open spec fn genuine(plus: Seq<Seq<u8>>, minus: Seq<Seq<u8>>, width: nat, j: nat) -> bool {
    let c = signed(plus, minus, width, j);
    &&& c.is_pure() ==> if c.count == 1 {
        plus.contains(c.sum)
    } else {
        minus.contains(c.sum)
    }
    &&& j == 0 && c.is_empty() ==> plus.len() == 0 && minus.len() == 0
}

/// No cell made of some of the items of `plus`, less some of the items of
/// `minus`, is mistaken for a pure or an empty one. This fails only where
/// checksums collide.
pub open spec fn unmistakable(plus: Seq<Seq<u8>>, minus: Seq<Seq<u8>>, width: nat) -> bool {
    forall|u: Seq<Seq<u8>>, v: Seq<Seq<u8>>, j: nat|
        part_of(u, plus) && part_of(v, minus) ==> #[trigger] genuine(u, v, width, j)
}

/// The decoder is on its way from two streams to their difference: its
/// working cells are residuals, and the items recovered for either side,
/// together with those still to be recovered (`u` and `v`), are the items
/// that only that side holds.
pub open spec fn on_track(
    state: State,
    remote: Seq<Cell>,
    local: Seq<Cell>,
    a_only: Seq<Seq<u8>>,
    b_only: Seq<Seq<u8>>,
    u: Seq<Seq<u8>>,
    v: Seq<Seq<u8>>,
    width: nat,
) -> bool {
    &&& balanced(state, remote, local, width)
    &&& (state.remote + u).to_multiset() == a_only.to_multiset()
    &&& (state.local + v).to_multiset() == b_only.to_multiset()
}

/// A part of items of one width is of that width.
proof fn lemma_part_uniform(part: Seq<Seq<u8>>, whole: Seq<Seq<u8>>, width: nat)
    requires
        uniform(whole, width),
        part_of(part, whole),
    ensures
        uniform(part, width),
{
    assert forall|i: int| 0 <= i < part.len() implies (#[trigger] part[i]).len() == width by {
        to_multiset_contains(part, part[i]);
        to_multiset_contains(whole, part[i]);
        assert(part.contains(part[i]));
        let j = choose|j: int| 0 <= j < whole.len() && whole[j] == part[i];
    }
}

/// The second of two sequences that together are `whole` is a part of it.
proof fn lemma_rest_is_part(done: Seq<Seq<u8>>, rest: Seq<Seq<u8>>, whole: Seq<Seq<u8>>)
    requires
        (done + rest).to_multiset() == whole.to_multiset(),
    ensures
        part_of(rest, whole),
        part_of(done, whole),
{
    broadcast use vstd::multiset::group_multiset_axioms;

    lemma_multiset_commutative(done, rest);
}

/// On track, every working cell is the cell of the items still to be
/// recovered for the remote side less that of those still to be recovered
/// for the local side.
proof fn lemma_cell_is_signed(
    state: State,
    a: Seq<Seq<u8>>,
    b: Seq<Seq<u8>>,
    common: Seq<Seq<u8>>,
    a_only: Seq<Seq<u8>>,
    b_only: Seq<Seq<u8>>,
    u: Seq<Seq<u8>>,
    v: Seq<Seq<u8>>,
    width: nat,
    n: nat,
    j: int,
)
    requires
        uniform(common, width),
        uniform(a_only, width),
        uniform(b_only, width),
        a.to_multiset() == common.to_multiset().add(a_only.to_multiset()),
        b.to_multiset() == common.to_multiset().add(b_only.to_multiset()),
        on_track(state, stream(a, width, n), stream(b, width, n), a_only, b_only, u, v, width),
        0 <= j < state.cells.len(),
    ensures
        state.cells[j] == signed(u, v, width, j as nat),
        uniform(u, width),
        uniform(v, width),
{
    let k = j as nat;
    lemma_rest_is_part(state.remote, u, a_only);
    lemma_rest_is_part(state.local, v, b_only);
    lemma_part_uniform(u, a_only, width);
    lemma_part_uniform(v, b_only, width);
    lemma_difference_of_streams(a, b, common, a_only, b_only, width, k);
    lemma_uniform_concat(state.remote, u, width);
    lemma_uniform_concat(state.local, v, width);
    lemma_coded_ignores_order(state.remote + u, a_only, width, k);
    lemma_coded_ignores_order(state.local + v, b_only, width, k);
    lemma_coded_concat(state.remote, u, width, k);
    lemma_coded_concat(state.local, v, width, k);
    lemma_coded_wf(state.remote, width, k);
    lemma_coded_wf(state.local, width, k);
    lemma_coded_wf(u, width, k);
    lemma_coded_wf(v, width, k);
    lemma_settle(
        coded(state.remote, width, k),
        coded(u, width, k),
        coded(state.local, width, k),
        coded(v, width, k),
        width,
    );
    assert(state.cells[j] == residual(
        stream(a, width, n)[j],
        stream(b, width, n)[j],
        state,
        width,
        k,
    ));
}

/// Moving an item from those still to be recovered to those recovered keeps
/// the two together what they were.
proof fn lemma_move_item(done: Seq<Seq<u8>>, rest: Seq<Seq<u8>>, at: int)
    requires
        0 <= at < rest.len(),
    ensures
        (done.push(rest[at]) + rest.remove(at)).to_multiset() == (done + rest).to_multiset(),
{
    broadcast use vstd::multiset::group_multiset_axioms;

    lemma_multiset_commutative(done.push(rest[at]), rest.remove(at));
    lemma_multiset_commutative(done, rest);
    to_multiset_build(done, rest[at]);
    to_multiset_remove(rest, at);
    to_multiset_contains(rest, rest[at]);
    assert(rest.contains(rest[at]));
    assert((done.push(rest[at]) + rest.remove(at)).to_multiset() =~= (done + rest).to_multiset());
}

/// Peeling keeps the decoder on track. Returns the items that are still to
/// be recovered afterwards.
proof fn lemma_peel_all_on_track(
    state: State,
    fuel: nat,
    a: Seq<Seq<u8>>,
    b: Seq<Seq<u8>>,
    common: Seq<Seq<u8>>,
    a_only: Seq<Seq<u8>>,
    b_only: Seq<Seq<u8>>,
    u: Seq<Seq<u8>>,
    v: Seq<Seq<u8>>,
    width: nat,
    n: nat,
) -> (left: (Seq<Seq<u8>>, Seq<Seq<u8>>))
    requires
        uniform(common, width),
        uniform(a_only, width),
        uniform(b_only, width),
        a.to_multiset() == common.to_multiset().add(a_only.to_multiset()),
        b.to_multiset() == common.to_multiset().add(b_only.to_multiset()),
        uniform(a, width),
        uniform(b, width),
        unmistakable(a_only, b_only, width),
        state.cells.len() <= n,
        on_track(state, stream(a, width, n), stream(b, width, n), a_only, b_only, u, v, width),
    ensures
        on_track(
            state.peel_all(fuel),
            stream(a, width, n),
            stream(b, width, n),
            a_only,
            b_only,
            left.0,
            left.1,
            width,
        ),
        state.peel_all(fuel).cells.len() == state.cells.len(),
    decreases fuel,
{
    let ra = stream(a, width, n);
    let rb = stream(b, width, n);
    if state.listed.len() == 0 {
        (u, v)
    } else if fuel == 0 {
        lemma_balanced_whatever_listed(state, state.dropped(), ra, rb, width);
        (u, v)
    } else {
        let listed = state.next();
        let rest = state.unlist(listed);
        let i = listed as int;
        lemma_balanced_whatever_listed(state, rest, ra, rb, width);
        if listed < state.cells.len() && state.cells[i].is_pure() {
            lemma_stream_wf(a, width, n);
            lemma_stream_wf(b, width, n);
            lemma_peel_balanced(rest, i, ra, rb, width);
            lemma_cell_is_signed(rest, a, b, common, a_only, b_only, u, v, width, n, i);
            lemma_rest_is_part(rest.remote, u, a_only);
            lemma_rest_is_part(rest.local, v, b_only);
            assert(genuine(u, v, width, i as nat));
            let s = rest.cells[i];
            let next = rest.peel(i);
            if s.count == 1 {
                let at = choose|at: int| 0 <= at < u.len() && u[at] == s.sum;
                lemma_move_item(rest.remote, u, at);
                lemma_peel_all_on_track(
                    next,
                    (fuel - 1) as nat,
                    a,
                    b,
                    common,
                    a_only,
                    b_only,
                    u.remove(at),
                    v,
                    width,
                    n,
                )
            } else {
                let at = choose|at: int| 0 <= at < v.len() && v[at] == s.sum;
                lemma_move_item(rest.local, v, at);
                lemma_peel_all_on_track(
                    next,
                    (fuel - 1) as nat,
                    a,
                    b,
                    common,
                    a_only,
                    b_only,
                    u,
                    v.remove(at),
                    width,
                    n,
                )
            }
        } else {
            lemma_peel_all_on_track(
                rest,
                (fuel - 1) as nat,
                a,
                b,
                common,
                a_only,
                b_only,
                u,
                v,
                width,
                n,
            )
        }
    }
}

/// The cells of a stream of items of one width are of that width.
pub proof fn lemma_stream_wf(items: Seq<Seq<u8>>, width: nat, n: nat)
    requires
        uniform(items, width),
    ensures
        cells_wf(stream(items, width, n), width),
{
    assert forall|j: int| 0 <= j < n implies (#[trigger] stream(items, width, n)[j]).wf(width) by {
        lemma_coded_wf(items, width, j as nat);
    }
}

/// Fed with the streams of two sets, the decoder stays on track. Returns the
/// items that are still to be recovered after `k` pairs.
proof fn lemma_after_on_track(
    a: Seq<Seq<u8>>,
    b: Seq<Seq<u8>>,
    common: Seq<Seq<u8>>,
    a_only: Seq<Seq<u8>>,
    b_only: Seq<Seq<u8>>,
    width: nat,
    n: nat,
    k: nat,
) -> (left: (Seq<Seq<u8>>, Seq<Seq<u8>>))
    requires
        uniform(common, width),
        uniform(a_only, width),
        uniform(b_only, width),
        a.to_multiset() == common.to_multiset().add(a_only.to_multiset()),
        b.to_multiset() == common.to_multiset().add(b_only.to_multiset()),
        uniform(a, width),
        uniform(b, width),
        unmistakable(a_only, b_only, width),
        k <= n,
    ensures
        on_track(
            State::after(stream(a, width, n), stream(b, width, n), width, k),
            stream(a, width, n),
            stream(b, width, n),
            a_only,
            b_only,
            left.0,
            left.1,
            width,
        ),
        State::after(stream(a, width, n), stream(b, width, n), width, k).cells.len() == k,
    decreases k,
{
    let ra = stream(a, width, n);
    let rb = stream(b, width, n);
    if k == 0 {
        assert(Seq::<Seq<u8>>::empty() + a_only =~= a_only);
        assert(Seq::<Seq<u8>>::empty() + b_only =~= b_only);
        (a_only, b_only)
    } else {
        let (u, v) = lemma_after_on_track(a, b, common, a_only, b_only, width, n, (k - 1) as nat);
        let before = State::after(ra, rb, width, (k - 1) as nat);
        let pushed = before.arrived(ra[k - 1], rb[k - 1], width);
        assert forall|j: int| 0 <= j < pushed.cells.len() implies #[trigger] pushed.cells[j]
            == residual(ra[j], rb[j], pushed, width, j as nat) by {
            if j < k - 1 {
                assert(before.cells[j] == residual(ra[j], rb[j], before, width, j as nat));
            }
        }
        lemma_peel_all_on_track(pushed, k, a, b, common, a_only, b_only, u, v, width, n)
    }
}

/// The round trip. Let the remote party hold `common` and `a_only`, the
/// local party `common` and `b_only`, and let no cell made of some of
/// `a_only` less some of `b_only` be mistaken for a pure or an empty one.
/// If a decoder fed with the two streams is complete after `k` pairs, it has
/// recovered, as multisets, `a_only` for the remote side and `b_only` for the
/// local side.
pub proof fn lemma_round_trip(
    a: Seq<Seq<u8>>,
    b: Seq<Seq<u8>>,
    common: Seq<Seq<u8>>,
    a_only: Seq<Seq<u8>>,
    b_only: Seq<Seq<u8>>,
    width: nat,
    n: nat,
    k: nat,
)
    requires
        uniform(common, width),
        uniform(a_only, width),
        uniform(b_only, width),
        a.to_multiset() == common.to_multiset().add(a_only.to_multiset()),
        b.to_multiset() == common.to_multiset().add(b_only.to_multiset()),
        unmistakable(a_only, b_only, width),
        k <= n,
        State::after(stream(a, width, n), stream(b, width, n), width, k).is_complete(),
    ensures
        State::after(stream(a, width, n), stream(b, width, n), width, k).remote.to_multiset()
            == a_only.to_multiset(),
        State::after(stream(a, width, n), stream(b, width, n), width, k).local.to_multiset()
            == b_only.to_multiset(),
{
    lemma_multiset_commutative(common, a_only);
    lemma_multiset_commutative(common, b_only);
    lemma_uniform_concat(common, a_only, width);
    lemma_uniform_concat(common, b_only, width);
    lemma_part_uniform(a, common + a_only, width);
    lemma_part_uniform(b, common + b_only, width);
    let (u, v) = lemma_after_on_track(a, b, common, a_only, b_only, width, n, k);
    let state = State::after(stream(a, width, n), stream(b, width, n), width, k);
    lemma_cell_is_signed(state, a, b, common, a_only, b_only, u, v, width, n, 0);
    lemma_rest_is_part(state.remote, u, a_only);
    lemma_rest_is_part(state.local, v, b_only);
    assert(genuine(u, v, width, 0));
    assert(state.remote + u =~= state.remote);
    assert(state.local + v =~= state.local);
}

/// The converse of the round trip. Once a decoder fed with the streams of two
/// sets has recovered, as multisets, the items that only the remote party
/// holds and those that only the local party holds, every working cell is
/// zero, and the decoder is complete.
pub proof fn lemma_recovered_is_complete(
    a: Seq<Seq<u8>>,
    b: Seq<Seq<u8>>,
    common: Seq<Seq<u8>>,
    a_only: Seq<Seq<u8>>,
    b_only: Seq<Seq<u8>>,
    width: nat,
    n: nat,
    k: nat,
)
    requires
        uniform(common, width),
        uniform(a_only, width),
        uniform(b_only, width),
        a.to_multiset() == common.to_multiset().add(a_only.to_multiset()),
        b.to_multiset() == common.to_multiset().add(b_only.to_multiset()),
        1 <= k <= n,
        State::after(stream(a, width, n), stream(b, width, n), width, k).remote.to_multiset()
            == a_only.to_multiset(),
        State::after(stream(a, width, n), stream(b, width, n), width, k).local.to_multiset()
            == b_only.to_multiset(),
    ensures
        State::after(stream(a, width, n), stream(b, width, n), width, k).is_complete(),
        forall|j: int|
            0 <= j < k ==> #[trigger] State::after(
                stream(a, width, n),
                stream(b, width, n),
                width,
                k,
            ).cells[j] == Cell::zero(width),
{
    let ra = stream(a, width, n);
    let rb = stream(b, width, n);
    let state = State::after(ra, rb, width, k);
    lemma_multiset_commutative(common, a_only);
    lemma_multiset_commutative(common, b_only);
    lemma_uniform_concat(common, a_only, width);
    lemma_uniform_concat(common, b_only, width);
    lemma_part_uniform(a, common + a_only, width);
    lemma_part_uniform(b, common + b_only, width);
    lemma_stream_wf(a, width, n);
    lemma_stream_wf(b, width, n);
    lemma_cells_are_residuals(ra, rb, width, k);
    assert forall|j: int| 0 <= j < k implies #[trigger] state.cells[j] == Cell::zero(width) by {
        let x = coded(a_only, width, j as nat);
        let y = coded(b_only, width, j as nat);
        let zero = Cell::zero(width);
        assert(state.cells[j] == residual(ra[j], rb[j], state, width, j as nat));
        lemma_difference_of_streams(a, b, common, a_only, b_only, width, j as nat);
        lemma_coded_ignores_order(state.remote, a_only, width, j as nat);
        lemma_coded_ignores_order(state.local, b_only, width, j as nat);
        lemma_coded_wf(a_only, width, j as nat);
        lemma_coded_wf(b_only, width, j as nat);
        lemma_add_zero(x, width);
        lemma_add_zero(y, width);
        lemma_add_zero(zero, width);
        lemma_settle(x, zero, y, zero, width);
    }
    assert(state.cells[0] == Cell::zero(width));
}

/// The round trip, as far as `limit` pairs go. Under the conditions of
/// [`lemma_round_trip`], the state in which decoding the two streams ends
/// holds `a_only` for the remote side and `b_only` for the local side.
pub proof fn lemma_decoded_round_trip(
    a: Seq<Seq<u8>>,
    b: Seq<Seq<u8>>,
    common: Seq<Seq<u8>>,
    a_only: Seq<Seq<u8>>,
    b_only: Seq<Seq<u8>>,
    width: nat,
    n: nat,
    limit: nat,
)
    requires
        uniform(common, width),
        uniform(a_only, width),
        uniform(b_only, width),
        a.to_multiset() == common.to_multiset().add(a_only.to_multiset()),
        b.to_multiset() == common.to_multiset().add(b_only.to_multiset()),
        unmistakable(a_only, b_only, width),
        limit <= n,
        State::decoded(stream(a, width, n), stream(b, width, n), width, limit) is Some,
    ensures
        State::decoded(
            stream(a, width, n),
            stream(b, width, n),
            width,
            limit,
        )->0.remote.to_multiset() == a_only.to_multiset(),
        State::decoded(
            stream(a, width, n),
            stream(b, width, n),
            width,
            limit,
        )->0.local.to_multiset() == b_only.to_multiset(),
{
    let k = lemma_decoded_is_first_complete(
        stream(a, width, n),
        stream(b, width, n),
        width,
        limit,
    );
    lemma_round_trip(a, b, common, a_only, b_only, width, n, k);
}

} // verus!
