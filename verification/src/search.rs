//! Pour actions over a state, the single-pour neighbor relation, and
//! the breadth-first search for a sequence of pours that solves the
//! puzzle.
use vstd::prelude::*;
use std::collections::VecDeque;
use crate::color::ColorModel;
use crate::finite::state_in_alphabet;
use crate::finite::state_shape;
use crate::state::TubeState;
use crate::state::spec_state_solved;
use crate::transfer::transfer;
use crate::transfer::transfer_ok;
use crate::transfer::transfer_recv_result;
use crate::transfer::transfer_send_result;
use crate::tube::tube_wf;

verus! {

/// One pour, addressed by tube positions: pour the top block of the
/// tube at `send_idx` onto the tube at `recv_idx`. The indices are
/// opaque addresses into a state's tube order; the same action means
/// different pours in different states.
#[derive(Debug, Clone, Copy, PartialEq, Eq, Structural)]
pub struct TransferAction {
    pub send_idx: i32,
    pub recv_idx: i32,
}

/// Whether pouring from position `send` to position `recv` is a legal
/// move in state `v`: two distinct positions in range, and the pour
/// itself succeeds.
pub open spec fn action_legal(v: Seq<Seq<ColorModel>>, send: int, recv: int) -> bool {
    &&& 0 <= send < v.len()
    &&& 0 <= recv < v.len()
    &&& send != recv
    &&& transfer_ok(v[send], v[recv])
}

/// The state after the legal pour from `send` to `recv`: the two
/// addressed slots are replaced, everything else is unchanged.
pub open spec fn action_result(v: Seq<Seq<ColorModel>>, send: int, recv: int) -> Seq<
    Seq<ColorModel>,
> {
    v.update(send, transfer_send_result(v[send])).update(
        recv,
        transfer_recv_result(v[send], v[recv]),
    )
}

/// The state that a sequence of pours leads to from `v`, or `None`
/// when some pour along the way is illegal.
pub open spec fn path_result(v: Seq<Seq<ColorModel>>, acts: Seq<TransferAction>) -> Option<
    Seq<Seq<ColorModel>>,
>
    decreases acts.len(),
{
    if acts.len() == 0 {
        Some(v)
    } else {
        let a = acts[0];
        if action_legal(v, a.send_idx as int, a.recv_idx as int) {
            path_result(action_result(v, a.send_idx as int, a.recv_idx as int), acts.skip(1))
        } else {
            None
        }
    }
}

/// Whether some sequence of legal pours leads from `v` to `t`.
pub open spec fn reachable(v: Seq<Seq<ColorModel>>, t: Seq<Seq<ColorModel>>) -> bool {
    exists|acts: Seq<TransferAction>| path_result(v, acts) == Some(t)
}

/// Appending one action to a path applies it after the path: the
/// extended path succeeds exactly when the path succeeds and the new
/// action is legal where the path ends.
pub proof fn lemma_path_result_push(
    v: Seq<Seq<ColorModel>>,
    acts: Seq<TransferAction>,
    a: TransferAction,
)
    ensures
        path_result(v, acts) is None ==> path_result(v, acts.push(a)) is None,
        path_result(v, acts) matches Some(w) ==> path_result(v, acts.push(a)) == (
        if action_legal(w, a.send_idx as int, a.recv_idx as int) {
            Some(action_result(w, a.send_idx as int, a.recv_idx as int))
        } else {
            None
        }),
    decreases acts.len(),
{
    let ext = acts.push(a);
    assert(ext.len() == acts.len() + 1);
    if acts.len() == 0 {
        assert(ext[0] == a);
        assert(ext.skip(1) =~= Seq::<TransferAction>::empty());
        assert(path_result(v, acts) == Some(v));
        if action_legal(v, a.send_idx as int, a.recv_idx as int) {
            let w1 = action_result(v, a.send_idx as int, a.recv_idx as int);
            assert(path_result(w1, ext.skip(1)) == Some(w1));
        }
    } else {
        let a0 = acts[0];
        assert(ext[0] == a0);
        assert(ext.skip(1) =~= acts.skip(1).push(a));
        if action_legal(v, a0.send_idx as int, a0.recv_idx as int) {
            let v1 = action_result(v, a0.send_idx as int, a0.recv_idx as int);
            lemma_path_result_push(v1, acts.skip(1), a);
            assert(path_result(v, ext) == path_result(v1, ext.skip(1)));
            assert(path_result(v, acts) == path_result(v1, acts.skip(1)));
        } else {
            assert(path_result(v, ext) is None);
        }
    }
}

/// Whether the neighbor list holds an entry for the ordered pair
/// (`s0`, `r0`).
pub open spec fn has_pair(l: Seq<(TransferAction, TubeState)>, s0: int, r0: int) -> bool {
    exists|k: int|
        0 <= k < l.len() && (#[trigger] l[k]).0.send_idx as int == s0 && l[k].0.recv_idx as int
            == r0
}

/// Every legal single pour, paired with the state it leads to.
///
/// The list enumerates ordered pairs of distinct tube positions,
/// sending position outermost and both ascending; it contains exactly
/// the pairs whose pour succeeds, each with the state in which the
/// two addressed tubes are replaced by the pour's outcome.
pub fn neighbors(state: &TubeState) -> (r: Vec<(TransferAction, TubeState)>)
    requires
        state.wf(),
        state@.len() <= 0x7fff_ffff,
    ensures
        forall|k: int| 0 <= k < r@.len() ==> action_legal(
            state@,
            (#[trigger] r@[k]).0.send_idx as int,
            r@[k].0.recv_idx as int,
        ),
        forall|k: int| 0 <= k < r@.len() ==> (#[trigger] r@[k]).0.send_idx != r@[k].0.recv_idx,
        forall|k: int| 0 <= k < r@.len() ==> (#[trigger] r@[k]).1@ == action_result(
            state@,
            r@[k].0.send_idx as int,
            r@[k].0.recv_idx as int,
        ),
        forall|k: int| 0 <= k < r@.len() ==> (#[trigger] r@[k]).1.wf(),
        forall|si: int, ri: int| action_legal(state@, si, ri) ==> has_pair(r@, si, ri),
        forall|k1: int, k2: int|
            0 <= k1 < k2 < r@.len() ==> (#[trigger] r@[k1]).0.send_idx
                < (#[trigger] r@[k2]).0.send_idx || (r@[k1].0.send_idx == r@[k2].0.send_idx
                && r@[k1].0.recv_idx < r@[k2].0.recv_idx),
{
    let n = state.tubes.len();
    let mut out: Vec<(TransferAction, TubeState)> = Vec::new();
    let mut si: usize = 0;
    while si < n
        invariant
            state.wf(),
            state@.len() <= 0x7fff_ffff,
            n == state@.len(),
            0 <= si <= n,
            forall|k: int| 0 <= k < out@.len() ==> action_legal(
                state@,
                (#[trigger] out@[k]).0.send_idx as int,
                out@[k].0.recv_idx as int,
            ),
            forall|k: int| 0 <= k < out@.len() ==> (#[trigger] out@[k]).1@ == action_result(
                state@,
                out@[k].0.send_idx as int,
                out@[k].0.recv_idx as int,
            ),
            forall|k: int| 0 <= k < out@.len() ==> (#[trigger] out@[k]).1.wf(),
            forall|s0: int, r0: int|
                s0 < si && action_legal(state@, s0, r0) ==> has_pair(out@, s0, r0),
            forall|k: int| 0 <= k < out@.len() ==> (#[trigger] out@[k]).0.send_idx < si,
            forall|k1: int, k2: int|
                0 <= k1 < k2 < out@.len() ==> (#[trigger] out@[k1]).0.send_idx
                    < (#[trigger] out@[k2]).0.send_idx || (out@[k1].0.send_idx
                    == out@[k2].0.send_idx && out@[k1].0.recv_idx < out@[k2].0.recv_idx),
        decreases n - si,
    {
        let mut ri: usize = 0;
        while ri < n
            invariant
                state.wf(),
                state@.len() <= 0x7fff_ffff,
                n == state@.len(),
                0 <= si < n,
                0 <= ri <= n,
                forall|k: int| 0 <= k < out@.len() ==> action_legal(
                    state@,
                    (#[trigger] out@[k]).0.send_idx as int,
                    out@[k].0.recv_idx as int,
                ),
                forall|k: int| 0 <= k < out@.len() ==> (#[trigger] out@[k]).1@ == action_result(
                    state@,
                    out@[k].0.send_idx as int,
                    out@[k].0.recv_idx as int,
                ),
                forall|k: int| 0 <= k < out@.len() ==> (#[trigger] out@[k]).1.wf(),
                forall|s0: int, r0: int|
                    s0 < si && action_legal(state@, s0, r0) ==> has_pair(out@, s0, r0),
                forall|r0: int|
                    r0 < ri && action_legal(state@, si as int, r0) ==> has_pair(
                        out@,
                        si as int,
                        r0,
                    ),
                forall|k: int| 0 <= k < out@.len() ==> (#[trigger] out@[k]).0.send_idx < si
                    || (out@[k].0.send_idx == si as i32 && out@[k].0.recv_idx < ri as i32),
                forall|k1: int, k2: int|
                    0 <= k1 < k2 < out@.len() ==> (#[trigger] out@[k1]).0.send_idx
                        < (#[trigger] out@[k2]).0.send_idx || (out@[k1].0.send_idx
                        == out@[k2].0.send_idx && out@[k1].0.recv_idx < out@[k2].0.recv_idx),
            decreases n - ri,
        {
            if si != ri {
                assert(state@[si as int] == state.tubes@[si as int]@);
                assert(state@[ri as int] == state.tubes@[ri as int]@);
                let send_tube = state.tubes[si].duplicate();
                let recv_tube = state.tubes[ri].duplicate();
                let transfer_result = transfer(send_tube, recv_tube);
                if transfer_result.success {
                    let mut neighboring_state = state.duplicate();
                    neighboring_state.tubes[si] = transfer_result.send_tube;
                    neighboring_state.tubes[ri] = transfer_result.recieve_tube;
                    let ghost ns = neighboring_state@;
                    proof {
                        assert(ns =~= action_result(state@, si as int, ri as int));
                        assert forall|k: int| 0 <= k < ns.len() implies tube_wf(
                            #[trigger] ns[k],
                        ) by {
                            if k != si as int && k != ri as int {
                                assert(ns[k] == state@[k]);
                            }
                        }
                    }
                    let action = TransferAction { send_idx: si as i32, recv_idx: ri as i32 };
                    let ghost before = out@;
                    out.push((action, neighboring_state));
                    proof {
                        let last = before.len() as int;
                        assert(out@[last].0.send_idx as int == si as int);
                        assert forall|s0: int, r0: int|
                            (s0 < si as int || (s0 == si as int && r0 <= ri as int))
                                && action_legal(state@, s0, r0) implies has_pair(
                            out@,
                            s0,
                            r0,
                        ) by {
                            if s0 == si as int && r0 == ri as int {
                                assert(out@[last].0.send_idx as int == s0 && out@[last]
                                    .0.recv_idx as int == r0);
                            } else {
                                assert(has_pair(before, s0, r0));
                                let k0 = choose|k: int|
                                    0 <= k < before.len() && (#[trigger] before[k])
                                        .0.send_idx as int == s0 && before[k].0.recv_idx as int
                                        == r0;
                                assert(out@[k0] == before[k0]);
                            }
                        }
                    }
                } else {
                    assert(!action_legal(state@, si as int, ri as int));
                }
            } else {
                assert(!action_legal(state@, si as int, ri as int));
            }
            ri += 1;
        }
        si += 1;
    }
    out
}

} // verus!

verus! {

/// A state paired with the pour sequence that produced it from the
/// search's initial state.
pub struct TubeStateNode {
    pub actions: Vec<TransferAction>,
    pub state: TubeState,
}

/// Whether some entry of `es` has the state model `v`.
pub open spec fn in_explored(es: Seq<TubeState>, v: Seq<Seq<ColorModel>>) -> bool {
    exists|j: int| 0 <= j < es.len() && (#[trigger] es[j])@ == v
}

/// Whether some node of `qs` carries the state model `v`.
pub open spec fn in_queue(qs: Seq<TubeStateNode>, v: Seq<Seq<ColorModel>>) -> bool {
    exists|k: int| 0 <= k < qs.len() && (#[trigger] qs[k]).state@ == v
}

/// Every legal pour out of `v` leads to a state already in `es`.
pub open spec fn succ_closed_at(es: Seq<TubeState>, v: Seq<Seq<ColorModel>>) -> bool {
    forall|si: int, ri: int|
        action_legal(v, si, ri) ==> in_explored(es, #[trigger] action_result(v, si, ri))
}

proof fn lemma_in_explored_push(es: Seq<TubeState>, e: TubeState, v: Seq<Seq<ColorModel>>)
    requires
        in_explored(es, v),
    ensures
        in_explored(es.push(e), v),
{
    let j = choose|j: int| 0 <= j < es.len() && (#[trigger] es[j])@ == v;
    assert(es.push(e)[j] == es[j]);
}

/// Whether some entry of `es` has the state model `v` and a recorded
/// search level of at most `l`.
pub open spec fn in_explored_lev(
    es: Seq<TubeState>,
    lev: Seq<int>,
    v: Seq<Seq<ColorModel>>,
    l: int,
) -> bool {
    exists|j: int| 0 <= j < es.len() && (#[trigger] es[j])@ == v && lev[j] <= l
}

/// Every legal pour out of `v` leads to a state recorded in `es` at
/// level `l + 1` or lower.
pub open spec fn succ_closed_lev(
    es: Seq<TubeState>,
    lev: Seq<int>,
    v: Seq<Seq<ColorModel>>,
    l: int,
) -> bool {
    forall|si: int, ri: int|
        action_legal(v, si, ri) ==> in_explored_lev(
            es,
            lev,
            #[trigger] action_result(v, si, ri),
            l + 1,
        )
}

proof fn lemma_in_explored_lev_push(
    es: Seq<TubeState>,
    lev: Seq<int>,
    e: TubeState,
    le: int,
    v: Seq<Seq<ColorModel>>,
    l: int,
)
    requires
        es.len() == lev.len(),
        in_explored_lev(es, lev, v, l),
    ensures
        in_explored_lev(es.push(e), lev.push(le), v, l),
{
    let j = choose|j: int| 0 <= j < es.len() && (#[trigger] es[j])@ == v && lev[j] <= l;
    assert(es.push(e)[j] == es[j]);
    assert(lev.push(le)[j] == lev[j]);
}

proof fn lemma_succ_closed_lev_push(
    es: Seq<TubeState>,
    lev: Seq<int>,
    e: TubeState,
    le: int,
    v: Seq<Seq<ColorModel>>,
    l: int,
)
    requires
        es.len() == lev.len(),
        succ_closed_lev(es, lev, v, l),
    ensures
        succ_closed_lev(es.push(e), lev.push(le), v, l),
{
    assert forall|si: int, ri: int| action_legal(v, si, ri) implies in_explored_lev(
        es.push(e),
        lev.push(le),
        #[trigger] action_result(v, si, ri),
        l + 1,
    ) by {
        lemma_in_explored_lev_push(es, lev, e, le, action_result(v, si, ri), l + 1);
    }
}

/// The frontier argument of breadth-first search: when every queued
/// node's level matches its explored record and every explored state
/// is either still queued or closed under pours at the next level,
/// then any pour path from a state recorded at level `i0` ends at a
/// state recorded at level `i0` plus the path length, or crosses the
/// queue at a node of such a level or lower.
proof fn lemma_bfs_cover(
    es: Seq<TubeState>,
    lev: Seq<int>,
    qs: Seq<TubeStateNode>,
    v: Seq<Seq<ColorModel>>,
    i0: int,
    acts: Seq<TransferAction>,
    t: Seq<Seq<ColorModel>>,
)
    requires
        es.len() == lev.len(),
        forall|j1: int, j2: int|
            0 <= j1 < j2 < es.len() ==> (#[trigger] es[j1])@ != (#[trigger] es[j2])@,
        forall|k: int| 0 <= k < qs.len() ==> exists|j: int|
            0 <= j < es.len() && (#[trigger] es[j])@ == (#[trigger] qs[k]).state@ && lev[j]
                == qs[k].actions@.len(),
        forall|j: int| 0 <= j < es.len() ==> in_queue(qs, (#[trigger] es[j])@)
            || succ_closed_lev(es, lev, es[j]@, lev[j]),
        in_explored_lev(es, lev, v, i0),
        path_result(v, acts) == Some(t),
    ensures
        in_explored_lev(es, lev, t, i0 + acts.len()) || exists|k: int|
            0 <= k < qs.len() && (#[trigger] qs[k]).actions@.len() <= i0 + acts.len(),
    decreases acts.len(),
{
    let j = choose|j: int| 0 <= j < es.len() && (#[trigger] es[j])@ == v && lev[j] <= i0;
    if acts.len() == 0 {
        assert(t == v);
    } else if in_queue(qs, v) {
        let k = choose|k: int| 0 <= k < qs.len() && (#[trigger] qs[k]).state@ == v;
        let j2 = choose|j2: int|
            0 <= j2 < es.len() && (#[trigger] es[j2])@ == qs[k].state@ && lev[j2]
                == qs[k].actions@.len();
        if j2 != j {
            if j < j2 {
                assert(es[j]@ != es[j2]@);
            } else {
                assert(es[j2]@ != es[j]@);
            }
        }
        assert(qs[k].actions@.len() == lev[j] <= i0 + acts.len());
    } else {
        assert(succ_closed_lev(es, lev, v, lev[j]));
        let a = acts[0];
        assert(action_legal(v, a.send_idx as int, a.recv_idx as int));
        let v1 = action_result(v, a.send_idx as int, a.recv_idx as int);
        assert(in_explored_lev(es, lev, v1, lev[j] + 1));
        assert(in_explored_lev(es, lev, v1, i0 + 1));
        lemma_bfs_cover(es, lev, qs, v1, i0 + 1, acts.skip(1), t);
    }
}

proof fn lemma_in_queue_push(qs: Seq<TubeStateNode>, nd: TubeStateNode, v: Seq<Seq<ColorModel>>)
    requires
        in_queue(qs, v),
    ensures
        in_queue(qs.push(nd), v),
{
    let k = choose|k: int| 0 <= k < qs.len() && (#[trigger] qs[k]).state@ == v;
    assert(qs.push(nd)[k] == qs[k]);
}

/// When a set of explored states contains the start of a pour path
/// and every member is closed under legal pours, it also contains
/// the path's end.
proof fn lemma_closed_explored_covers(
    es: Seq<TubeState>,
    v0: Seq<Seq<ColorModel>>,
    acts: Seq<TransferAction>,
    t: Seq<Seq<ColorModel>>,
)
    requires
        in_explored(es, v0),
        forall|j: int| 0 <= j < es.len() ==> succ_closed_at(es, (#[trigger] es[j])@),
        path_result(v0, acts) == Some(t),
    ensures
        in_explored(es, t),
    decreases acts.len(),
{
    if acts.len() == 0 {
        assert(t == v0);
    } else {
        let a = acts[0];
        assert(action_legal(v0, a.send_idx as int, a.recv_idx as int));
        let v1 = action_result(v0, a.send_idx as int, a.recv_idx as int);
        let j = choose|j: int| 0 <= j < es.len() && (#[trigger] es[j])@ == v0;
        assert(succ_closed_at(es, v0));
        assert(in_explored(es, v1));
        lemma_closed_explored_covers(es, v1, acts.skip(1), t);
    }
}

/// The alphabet of a state: the empty marker followed by every layer
/// the state holds, position by position.
pub open spec fn alphabet(v: Seq<Seq<ColorModel>>) -> Seq<ColorModel> {
    Seq::new(1 + 4 * v.len(), |j: int| if j == 0 {
        ColorModel::Empty
    } else {
        v[(j - 1) / 4][(j - 1) % 4]
    })
}

/// A state's own alphabet covers all of its layers and the empty
/// marker.
proof fn lemma_alphabet_covers(v: Seq<Seq<ColorModel>>)
    requires
        forall|k: int| 0 <= k < v.len() ==> (#[trigger] v[k]).len() == 4,
    ensures
        alphabet(v).len() == 1 + 4 * v.len(),
        alphabet(v).contains(ColorModel::Empty),
        state_in_alphabet(v, alphabet(v)),
{
    let alpha = alphabet(v);
    assert(alpha[0] == ColorModel::Empty);
    assert forall|k: int, i: int| 0 <= k < v.len() && 0 <= i < v[k].len() implies alpha.contains(
        #[trigger] v[k][i],
    ) by {
        let j = 1 + 4 * k + i;
        assert((j - 1) / 4 == k && (j - 1) % 4 == i) by (nonlinear_arith)
            requires
                0 <= i < 4,
                0 <= k,
                j == 1 + 4 * k + i,
        ;
        assert(0 <= j < alpha.len()) by (nonlinear_arith)
            requires
                0 <= i < 4,
                0 <= k < v.len(),
                j == 1 + 4 * k + i,
                alpha.len() == 1 + 4 * v.len(),
        ;
        assert(alpha[j] == v[k][i]);
    }
}

/// A legal pour keeps the state's shape and introduces no layer from
/// outside the alphabet: it only moves layers around and empties
/// slots.
proof fn lemma_action_preserves(
    v: Seq<Seq<ColorModel>>,
    send: int,
    recv: int,
    alpha: Seq<ColorModel>,
)
    requires
        action_legal(v, send, recv),
        state_shape(v, v.len() as int),
        state_in_alphabet(v, alpha),
        alpha.contains(ColorModel::Empty),
    ensures
        state_shape(action_result(v, send, recv), v.len() as int),
        state_in_alphabet(action_result(v, send, recv), alpha),
{
    let w = action_result(v, send, recv);
    let s = v[send];
    let r = v[recv];
    let new_send = transfer_send_result(s);
    let new_recv = transfer_recv_result(s, r);
    assert(w.len() == v.len());
    assert(w[send] == new_send && w[recv] == new_recv);
    assert forall|k: int| 0 <= k < w.len() implies (#[trigger] w[k]).len() == 4 by {
        if k != send && k != recv {
            assert(w[k] == v[k]);
        }
    }
    crate::tube::lemma_empty_count(s);
    let c = crate::tube::top_color(s);
    assert(alpha.contains(c)) by {
        assert(crate::tube::empty_count(s) != s.len());
        assert(c == s[crate::tube::empty_count(s)]);
    }
    assert forall|k: int, i: int| 0 <= k < w.len() && 0 <= i < w[k].len() implies alpha.contains(
        #[trigger] w[k][i],
    ) by {
        if k == recv {
            assert(w[k][i] == c || w[k][i] == r[i]);
        } else if k == send {
            assert(w[k][i] == ColorModel::Empty || w[k][i] == s[i]);
        } else {
            assert(w[k] == v[k]);
        }
    }
}

/// A fresh copy of an action list.
fn copy_actions(v: &Vec<TransferAction>) -> (r: Vec<TransferAction>)
    ensures
        r@ == v@,
{
    let mut out: Vec<TransferAction> = Vec::new();
    let mut i: usize = 0;
    while i < v.len()
        invariant
            0 <= i <= v@.len(),
            out@.len() == i,
            forall|j: int| 0 <= j < i ==> out@[j] == v@[j],
        decreases v@.len() - i,
    {
        out.push(v[i]);
        i += 1;
    }
    assert(out@ =~= v@);
    out
}

/// Whether the list already holds a state with this model.
fn state_in_list(list: &Vec<TubeState>, s: &TubeState) -> (r: bool)
    ensures
        r == in_explored(list@, s@),
{
    let mut i: usize = 0;
    while i < list.len()
        invariant
            0 <= i <= list@.len(),
            forall|j: int| 0 <= j < i ==> (#[trigger] list@[j])@ != s@,
        decreases list@.len() - i,
    {
        if list[i].same_state(s) {
            assert(list@[i as int]@ == s@);
            return true;
        }
        i += 1;
    }
    false
}

} // verus!

verus! {


/// Searches breadth-first for a shortest pour sequence that solves
/// the puzzle.
///
/// Returns a fewest-pours sequence together with the solved state it
/// leads to, or `None` when no sequence of legal pours can solve the
/// puzzle. An already-solved state yields `Some` with an empty pour
/// sequence, never the unsolvable outcome. States are expanded in
/// first-reached order with an explored set for deduplication, so no
/// shorter pour sequence reaches a solved state, and the finiteness
/// of the state space bounds the search.
#[verifier::rlimit(100)]
pub fn solve_bfs(initial_state: &TubeState) -> (r: Option<TubeStateNode>)
    requires
        initial_state.wf(),
        initial_state@.len() <= 0x7fff_ffff,
    ensures
        match r {
            Some(node) => {
                &&& node.state.wf()
                &&& spec_state_solved(node.state@)
                &&& path_result(initial_state@, node.actions@) == Some(node.state@)
                &&& (spec_state_solved(initial_state@) ==> node.actions@.len() == 0
                    && node.state@ == initial_state@)
                &&& forall|acts: Seq<TransferAction>, t: Seq<Seq<ColorModel>>|
                    #![trigger path_result(initial_state@, acts), spec_state_solved(t)]
                    path_result(initial_state@, acts) == Some(t) && spec_state_solved(t)
                        ==> acts.len() >= node.actions@.len()
            },
            None => forall|t: Seq<Seq<ColorModel>>|
                reachable(initial_state@, t) ==> !spec_state_solved(t),
        },
{
    let ghost init = initial_state@;
    let ghost n = init.len() as int;
    let ghost alpha = alphabet(init);
    let ghost m = crate::finite::state_space_size(init.len(), alpha.len() as int);
    proof {
        assert forall|k: int| 0 <= k < init.len() implies (#[trigger] init[k]).len() == 4 by {
            assert(tube_wf(init[k]));
        }
        lemma_alphabet_covers(init);
        vstd::arithmetic::power::lemma_pow_positive(alpha.len() as int, 4);
        vstd::arithmetic::power::lemma_pow_positive(
            vstd::arithmetic::power::pow(alpha.len() as int, 4),
            init.len(),
        );
    }
    let mut explored: Vec<TubeState> = Vec::new();
    explored.push(initial_state.duplicate());
    let ghost mut lev: Seq<int> = Seq::<int>::empty().push(0);
    let mut q: VecDeque<TubeStateNode> = VecDeque::new();
    q.push_back(TubeStateNode { actions: Vec::new(), state: initial_state.duplicate() });
    proof {
        assert(explored@[0]@ == init);
        assert(q@[0].state@ == init);
        assert(path_result(init, q@[0].actions@) == Some(init));
        assert(in_explored(explored@, q@[0].state@));
        assert(lev[0] == 0 && q@[0].actions@.len() == 0);
    }
    while q.len() != 0
        invariant
            initial_state.wf(),
            init == initial_state@,
            n == init.len() as int,
            0 <= n <= 0x7fff_ffff,
            alpha == alphabet(init),
            alpha.len() >= 1,
            alpha.contains(ColorModel::Empty),
            m == crate::finite::state_space_size(init.len(), alpha.len() as int),
            state_shape(init, n),
            state_in_alphabet(init, alpha),
            1 <= explored@.len() <= m,
            explored@[0]@ == init,
            lev.len() == explored@.len(),
            lev[0] == 0,
            forall|j: int| 0 <= j < explored@.len() ==> (#[trigger] explored@[j]).wf(),
            forall|j: int| 0 <= j < explored@.len() ==> state_shape(
                (#[trigger] explored@[j])@,
                n,
            ),
            forall|j: int| 0 <= j < explored@.len() ==> state_in_alphabet(
                (#[trigger] explored@[j])@,
                alpha,
            ),
            forall|j1: int, j2: int|
                0 <= j1 < j2 < explored@.len() ==> (#[trigger] explored@[j1])@ != (
                #[trigger] explored@[j2])@,
            forall|k: int| 0 <= k < q@.len() ==> (#[trigger] q@[k]).state.wf(),
            forall|k: int| 0 <= k < q@.len() ==> path_result(
                init,
                (#[trigger] q@[k]).actions@,
            ) == Some(q@[k].state@),
            forall|k: int| 0 <= k < q@.len() ==> in_explored(
                explored@,
                (#[trigger] q@[k]).state@,
            ),
            forall|k: int| 0 <= k < q@.len() ==> exists|j: int|
                0 <= j < explored@.len() && (#[trigger] explored@[j])@ == (
                #[trigger] q@[k]).state@ && lev[j] == q@[k].actions@.len(),
            forall|k: int|
                0 <= k < q@.len() ==> ((#[trigger] q@[k]).state@ == init ==> q@[k].actions@.len()
                    == 0),
            forall|k1: int, k2: int|
                #![trigger q@[k1], q@[k2]]
                0 <= k1 <= k2 < q@.len() ==> q@[k1].actions@.len() <= q@[k2].actions@.len(),
            forall|k1: int, k2: int|
                #![trigger q@[k1], q@[k2]]
                0 <= k1 < q@.len() && 0 <= k2 < q@.len() ==> q@[k1].actions@.len()
                    <= q@[k2].actions@.len() + 1,
            forall|j: int|
                0 <= j < lev.len() && q@.len() > 0 ==> #[trigger] lev[j] <= q@[0].actions@.len()
                    + 1,
            forall|j: int| 0 <= j < explored@.len() ==> in_queue(
                q@,
                (#[trigger] explored@[j])@,
            ) || succ_closed_lev(explored@, lev, explored@[j]@, lev[j]),
            forall|j: int| 0 <= j < explored@.len() ==> in_queue(
                q@,
                (#[trigger] explored@[j])@,
            ) || !spec_state_solved(explored@[j]@),
            spec_state_solved(init) ==> q@.len() >= 1 && q@[0].state@ == init,
        decreases m - explored@.len(), q@.len(),
    {
        let ghost q0 = q@;
        let y = match q.pop_front() {
            Some(node) => node,
            None => {
                proof {
                    assert(false);
                }
                return None;
            },
        };
        let ghost lvl = y.actions@.len() as int;
        proof {
            assert(y == q0[0]);
            assert forall|k: int| 0 <= k < q@.len() implies q@[k] == q0[k + 1] by {}
        }
        if y.state.issolved() {
            proof {
                if spec_state_solved(init) {
                    assert(y.state@ == init);
                }
                assert forall|acts: Seq<TransferAction>, t: Seq<Seq<ColorModel>>|
                    #![trigger path_result(init, acts), spec_state_solved(t)]
                    path_result(init, acts) == Some(t) && spec_state_solved(t) implies acts.len()
                    >= lvl by {
                    assert(in_explored_lev(explored@, lev, init, 0)) by {
                        assert(explored@[0]@ == init && lev[0] == 0);
                    }
                    lemma_bfs_cover(explored@, lev, q0, init, 0, acts, t);
                    if in_explored_lev(explored@, lev, t, acts.len() as int) {
                        let j = choose|j: int|
                            0 <= j < explored@.len() && (#[trigger] explored@[j])@ == t && lev[j]
                                <= acts.len();
                        assert(in_queue(q0, t));
                        let k = choose|k: int|
                            0 <= k < q0.len() && (#[trigger] q0[k]).state@ == t;
                        let j2 = choose|j2: int|
                            0 <= j2 < explored@.len() && (#[trigger] explored@[j2])@
                                == q0[k].state@ && lev[j2] == q0[k].actions@.len();
                        if j2 != j {
                            if j < j2 {
                                assert(explored@[j]@ != explored@[j2]@);
                            } else {
                                assert(explored@[j2]@ != explored@[j]@);
                            }
                        }
                        assert(q0[k].actions@.len() >= q0[0].actions@.len());
                    } else {
                        let k = choose|k: int|
                            0 <= k < q0.len() && (#[trigger] q0[k]).actions@.len() <= 0
                                + acts.len();
                        assert(q0[k].actions@.len() >= q0[0].actions@.len());
                    }
                }
            }
            return Some(y);
        }
        let ghost ys = y.state@;
        let ghost jy = choose|j: int|
            0 <= j < explored@.len() && (#[trigger] explored@[j])@ == ys && lev[j]
                == q0[0].actions@.len();
        proof {
            assert(!spec_state_solved(ys));
            // were the start solved, the popped head would be the
            // start node and solved, against the check above
            if spec_state_solved(init) {
                assert(q0[0].state@ == init);
                assert(spec_state_solved(ys));
            }
            assert(!spec_state_solved(init));
            assert(in_explored(explored@, ys));
            let j = choose|j: int| 0 <= j < explored@.len() && (#[trigger] explored@[j])@ == ys;
            assert(state_shape(ys, n));
            assert(state_in_alphabet(ys, alpha));
            assert(0 <= jy < explored@.len() && explored@[jy]@ == ys && lev[jy] == lvl);
            assert forall|j: int| 0 <= j < explored@.len() implies (#[trigger] explored@[j])@
                == ys || in_queue(q@, explored@[j]@) || succ_closed_lev(
                explored@,
                lev,
                explored@[j]@,
                lev[j],
            ) by {
                let v = explored@[j]@;
                if v != ys && in_queue(q0, v) {
                    let k = choose|k: int| 0 <= k < q0.len() && (#[trigger] q0[k]).state@ == v;
                    assert(k >= 1);
                    assert(q@[k - 1] == q0[k]);
                }
            }
            assert forall|j: int| 0 <= j < explored@.len() implies in_queue(
                q@,
                (#[trigger] explored@[j])@,
            ) || !spec_state_solved(explored@[j]@) by {
                let v = explored@[j]@;
                if in_queue(q0, v) {
                    let k = choose|k: int| 0 <= k < q0.len() && (#[trigger] q0[k]).state@ == v;
                    if k == 0 {
                        assert(v == ys);
                    } else {
                        assert(q@[k - 1] == q0[k]);
                    }
                }
            }
        }
        let neigh = neighbors(&y.state);
        let ghost exn0 = explored@.len() as int;
        let mut idx: usize = 0;
        while idx < neigh.len()
            invariant
                exn0 <= explored@.len(),
                q@.len() + exn0 == q0.len() - 1 + explored@.len(),
                initial_state.wf(),
                init == initial_state@,
                n == init.len() as int,
                0 <= n <= 0x7fff_ffff,
                alpha == alphabet(init),
                alpha.len() >= 1,
                alpha.contains(ColorModel::Empty),
                m == crate::finite::state_space_size(init.len(), alpha.len() as int),
                state_shape(init, n),
                state_in_alphabet(init, alpha),
                0 <= idx <= neigh@.len(),
                y.state.wf(),
                ys == y.state@,
                lvl == y.actions@.len() as int,
                !spec_state_solved(ys),
                !spec_state_solved(init),
                in_explored(explored@, ys),
                0 <= jy < explored@.len(),
                explored@[jy]@ == ys,
                lev[jy] == lvl,
                path_result(init, y.actions@) == Some(ys),
                state_shape(ys, n),
                state_in_alphabet(ys, alpha),
                forall|k: int| 0 <= k < neigh@.len() ==> action_legal(
                    ys,
                    (#[trigger] neigh@[k]).0.send_idx as int,
                    neigh@[k].0.recv_idx as int,
                ),
                forall|k: int| 0 <= k < neigh@.len() ==> (#[trigger] neigh@[k]).1@
                    == action_result(
                    ys,
                    neigh@[k].0.send_idx as int,
                    neigh@[k].0.recv_idx as int,
                ),
                forall|k: int| 0 <= k < neigh@.len() ==> (#[trigger] neigh@[k]).1.wf(),
                forall|si: int, ri: int|
                    action_legal(ys, si, ri) ==> has_pair(neigh@, si, ri),
                1 <= explored@.len() <= m,
                explored@[0]@ == init,
                lev.len() == explored@.len(),
                lev[0] == 0,
                forall|j: int| 0 <= j < explored@.len() ==> (#[trigger] explored@[j]).wf(),
                forall|j: int| 0 <= j < explored@.len() ==> state_shape(
                    (#[trigger] explored@[j])@,
                    n,
                ),
                forall|j: int| 0 <= j < explored@.len() ==> state_in_alphabet(
                    (#[trigger] explored@[j])@,
                    alpha,
                ),
                forall|j1: int, j2: int|
                    0 <= j1 < j2 < explored@.len() ==> (#[trigger] explored@[j1])@ != (
                    #[trigger] explored@[j2])@,
                forall|k: int| 0 <= k < q@.len() ==> (#[trigger] q@[k]).state.wf(),
                forall|k: int| 0 <= k < q@.len() ==> path_result(
                    init,
                    (#[trigger] q@[k]).actions@,
                ) == Some(q@[k].state@),
                forall|k: int| 0 <= k < q@.len() ==> in_explored(
                    explored@,
                    (#[trigger] q@[k]).state@,
                ),
                forall|k: int| 0 <= k < q@.len() ==> exists|j: int|
                    0 <= j < explored@.len() && (#[trigger] explored@[j])@ == (
                    #[trigger] q@[k]).state@ && lev[j] == q@[k].actions@.len(),
                forall|k: int|
                    0 <= k < q@.len() ==> ((#[trigger] q@[k]).state@ == init
                        ==> q@[k].actions@.len() == 0),
                forall|k1: int, k2: int|
                    #![trigger q@[k1], q@[k2]]
                    0 <= k1 <= k2 < q@.len() ==> q@[k1].actions@.len()
                        <= q@[k2].actions@.len(),
                forall|k: int|
                    0 <= k < q@.len() ==> lvl <= (#[trigger] q@[k]).actions@.len() <= lvl + 1,
                forall|j: int| 0 <= j < lev.len() ==> #[trigger] lev[j] <= lvl + 1,
                forall|k: int| 0 <= k < idx ==> in_explored_lev(
                    explored@,
                    lev,
                    (#[trigger] neigh@[k]).1@,
                    lvl + 1,
                ),
                forall|j: int| 0 <= j < explored@.len() ==> (#[trigger] explored@[j])@ == ys
                    || in_queue(q@, explored@[j]@) || succ_closed_lev(
                    explored@,
                    lev,
                    explored@[j]@,
                    lev[j],
                ),
                forall|j: int| 0 <= j < explored@.len() ==> in_queue(
                    q@,
                    (#[trigger] explored@[j])@,
                ) || !spec_state_solved(explored@[j]@),
            decreases neigh@.len() - idx,
        {
            let action = neigh[idx].0;
            let ghost ar = action_result(ys, action.send_idx as int, action.recv_idx as int);
            let found = state_in_list(&explored, &neigh[idx].1);
            if !found {
                let st_copy = neigh[idx].1.duplicate();
                let ghost ex0 = explored@;
                let ghost lev0 = lev;
                explored.push(st_copy);
                proof {
                    lev = lev.push(lvl + 1);
                    let last = ex0.len() as int;
                    assert(explored@[last]@ == ar && lev[last] == lvl + 1);
                    assert forall|j: int| 0 <= j < last implies explored@[j] == ex0[j] && lev[j]
                        == lev0[j] by {}
                    // the new entry keeps the state's shape and alphabet
                    lemma_action_preserves(
                        ys,
                        action.send_idx as int,
                        action.recv_idx as int,
                        alpha,
                    );
                    assert(state_shape(ar, n));
                    // distinctness: the new state differs from every old entry
                    assert forall|j1: int, j2: int|
                        0 <= j1 < j2 < explored@.len() implies (#[trigger] explored@[j1])@ != (
                        #[trigger] explored@[j2])@ by {
                        if j2 == last {
                            assert(explored@[j1] == ex0[j1]);
                            assert(!(ex0[j1]@ == st_copy@));
                        } else {
                            assert(explored@[j1] == ex0[j1]);
                            assert(explored@[j2] == ex0[j2]);
                        }
                    }
                    // the bound on the number of distinct states
                    let views = explored@.map_values(|t: TubeState| t@);
                    assert forall|j1: int, j2: int|
                        0 <= j1 < views.len() && 0 <= j2 < views.len() && j1 != j2 implies
                        views[j1] != views[j2] by {
                        assert(views[j1] == explored@[j1]@);
                        assert(views[j2] == explored@[j2]@);
                    }
                    assert(views.no_duplicates());
                    assert forall|j: int| 0 <= j < views.len() implies state_shape(
                        #[trigger] views[j],
                        n,
                    ) && state_in_alphabet(views[j], alpha) by {
                        assert(views[j] == explored@[j]@);
                    }
                    crate::finite::lemma_distinct_states_bounded(views, alpha, n);
                    assert(explored@.len() <= m);
                    // everything membership-like is monotone under push
                    lemma_in_explored_push(ex0, st_copy, ys);
                    assert forall|k: int| 0 <= k < q@.len() implies in_explored(
                        explored@,
                        (#[trigger] q@[k]).state@,
                    ) by {
                        lemma_in_explored_push(ex0, st_copy, q@[k].state@);
                    }
                    assert forall|k: int| 0 <= k < idx implies in_explored_lev(
                        explored@,
                        lev,
                        (#[trigger] neigh@[k]).1@,
                        lvl + 1,
                    ) by {
                        lemma_in_explored_lev_push(
                            ex0,
                            lev0,
                            st_copy,
                            lvl + 1,
                            neigh@[k].1@,
                            lvl + 1,
                        );
                    }
                }
                let mut actions = copy_actions(&y.actions);
                actions.push(action);
                let st_node = neigh[idx].1.duplicate();
                let ghost qb = q@;
                let ghost new_actions = actions@;
                q.push_back(TubeStateNode { actions, state: st_node });
                proof {
                    let last = ex0.len() as int;
                    let lastq = qb.len() as int;
                    assert(q@[lastq].state@ == ar && q@[lastq].actions@ == new_actions);
                    assert(new_actions == y.actions@.push(action));
                    assert(new_actions.len() == lvl + 1);
                    lemma_path_result_push(init, y.actions@, action);
                    assert(path_result(init, new_actions) == Some(ar));
                    assert forall|k: int| 0 <= k < q@.len() implies path_result(
                        init,
                        (#[trigger] q@[k]).actions@,
                    ) == Some(q@[k].state@) && q@[k].state.wf() && in_explored(
                        explored@,
                        q@[k].state@,
                    ) && lvl <= q@[k].actions@.len() <= lvl + 1 by {
                        if k < lastq {
                            assert(q@[k] == qb[k]);
                        } else {
                            assert(in_explored(explored@, ar));
                        }
                    }
                    // each queued node still matches its explored record
                    assert forall|k: int| 0 <= k < q@.len() implies exists|j: int|
                        0 <= j < explored@.len() && (#[trigger] explored@[j])@ == (
                        #[trigger] q@[k]).state@ && lev[j] == q@[k].actions@.len() by {
                        if k < lastq {
                            assert(q@[k] == qb[k]);
                            let j0 = choose|j0: int|
                                0 <= j0 < ex0.len() && (#[trigger] ex0[j0])@ == qb[k].state@
                                    && lev0[j0] == qb[k].actions@.len();
                            assert(explored@[j0] == ex0[j0] && lev[j0] == lev0[j0]);
                        } else {
                            assert(explored@[last]@ == q@[k].state@ && lev[last]
                                == q@[k].actions@.len());
                        }
                    }
                    // the queue stays sorted by level
                    assert forall|k1: int, k2: int|
                        #![trigger q@[k1], q@[k2]]
                        0 <= k1 <= k2 < q@.len() implies q@[k1].actions@.len()
                        <= q@[k2].actions@.len() by {
                        if k2 < lastq {
                            assert(q@[k1] == qb[k1] && q@[k2] == qb[k2]);
                        } else if k1 < lastq {
                            assert(q@[k1] == qb[k1]);
                        }
                    }
                    // a state never enqueued twice: the new node is not the start
                    assert forall|k: int|
                        0 <= k < q@.len() implies ((#[trigger] q@[k]).state@ == init
                        ==> q@[k].actions@.len() == 0) by {
                        if k < lastq {
                            assert(q@[k] == qb[k]);
                        } else {
                            assert(ex0[0]@ == init);
                        }
                    }
                    assert forall|j: int| 0 <= j < explored@.len() implies (
                    #[trigger] explored@[j])@ == ys || in_queue(q@, explored@[j]@)
                        || succ_closed_lev(explored@, lev, explored@[j]@, lev[j]) by {
                        let v = explored@[j]@;
                        if v != ys {
                            if j == ex0.len() as int {
                                assert(q@[lastq].state@ == v);
                            } else {
                                assert(explored@[j] == ex0[j] && lev[j] == lev0[j]);
                                if in_queue(qb, v) {
                                    lemma_in_queue_push(qb, q@[lastq], v);
                                } else {
                                    assert(succ_closed_lev(ex0, lev0, v, lev0[j]));
                                    lemma_succ_closed_lev_push(
                                        ex0,
                                        lev0,
                                        st_copy,
                                        lvl + 1,
                                        v,
                                        lev0[j],
                                    );
                                }
                            }
                        }
                    }
                    assert forall|j: int| 0 <= j < explored@.len() implies in_queue(
                        q@,
                        (#[trigger] explored@[j])@,
                    ) || !spec_state_solved(explored@[j]@) by {
                        let v = explored@[j]@;
                        if in_queue(qb, v) {
                            lemma_in_queue_push(qb, q@[lastq], v);
                        } else if j == ex0.len() as int {
                            assert(q@[lastq].state@ == v);
                        } else if v == ys {
                            assert(!spec_state_solved(v));
                        }
                    }
                }
            } else {
                proof {
                    assert(in_explored(explored@, neigh@[idx as int].1@));
                    let j = choose|j: int|
                        0 <= j < explored@.len() && (#[trigger] explored@[j])@
                            == neigh@[idx as int].1@;
                    assert(lev[j] <= lvl + 1);
                    assert(in_explored_lev(explored@, lev, neigh@[idx as int].1@, lvl + 1));
                }
            }
            idx += 1;
        }
        proof {
            // the popped state is now closed under legal pours at the
            // next level
            assert forall|j: int| 0 <= j < explored@.len() implies in_queue(
                q@,
                (#[trigger] explored@[j])@,
            ) || succ_closed_lev(explored@, lev, explored@[j]@, lev[j]) by {
                let v = explored@[j]@;
                if v == ys {
                    assert forall|si: int, ri: int| action_legal(v, si, ri) implies
                        in_explored_lev(
                        explored@,
                        lev,
                        #[trigger] action_result(v, si, ri),
                        lev[j] + 1,
                    ) by {
                        assert(has_pair(neigh@, si, ri));
                        let k = choose|k: int|
                            0 <= k < neigh@.len() && (#[trigger] neigh@[k]).0.send_idx as int
                                == si && neigh@[k].0.recv_idx as int == ri;
                        assert(neigh@[k].1@ == action_result(v, si, ri));
                        assert(in_explored_lev(explored@, lev, neigh@[k].1@, lvl + 1));
                        // the popped node's level matches its record
                        if jy != j {
                            if j < jy {
                                assert(explored@[j]@ != explored@[jy]@);
                            } else {
                                assert(explored@[jy]@ != explored@[j]@);
                            }
                        }
                        assert(lev[j] == lvl);
                    }
                    assert(succ_closed_lev(explored@, lev, v, lev[j]));
                }
            }
            // levels stay within one of the new head's level
            assert forall|j: int|
                0 <= j < lev.len() && q@.len() > 0 implies #[trigger] lev[j]
                <= q@[0].actions@.len() + 1 by {
                assert(q@[0].actions@.len() >= lvl);
            }
        }
    }
    proof {
        assert(q@.len() == 0);
        assert forall|j: int| 0 <= j < explored@.len() implies succ_closed_at(
            explored@,
            (#[trigger] explored@[j])@,
        ) && !spec_state_solved(explored@[j]@) by {
            assert(!in_queue(q@, explored@[j]@));
            assert(succ_closed_lev(explored@, lev, explored@[j]@, lev[j]));
            assert forall|si: int, ri: int|
                action_legal(explored@[j]@, si, ri) implies in_explored(
                explored@,
                #[trigger] action_result(explored@[j]@, si, ri),
            ) by {
                let ar2 = action_result(explored@[j]@, si, ri);
                assert(in_explored_lev(explored@, lev, ar2, lev[j] + 1));
                let j2 = choose|j2: int|
                    0 <= j2 < explored@.len() && (#[trigger] explored@[j2])@ == ar2 && lev[j2]
                        <= lev[j] + 1;
                assert(explored@[j2]@ == ar2);
            }
        }
        assert forall|t: Seq<Seq<ColorModel>>| reachable(init, t) implies !spec_state_solved(
            t,
        ) by {
            let acts = choose|acts: Seq<TransferAction>| path_result(init, acts) == Some(t);
            assert(in_explored(explored@, init));
            lemma_closed_explored_covers(explored@, init, acts, t);
            let j = choose|j: int| 0 <= j < explored@.len() && (#[trigger] explored@[j])@ == t;
            assert(!spec_state_solved(explored@[j]@));
        }
    }
    None
}

} // verus!
