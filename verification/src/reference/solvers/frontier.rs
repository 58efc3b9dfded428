//! Frontier solvers: re-evaluate only the cells that can see a cell whose cost
//! just fell, found by dilating the set of changed cells by the largest
//! transition displacement.
use vstd::prelude::*;
use vstd::arithmetic::div_mod::lemma_mod_multiples_vanish;
use crate::reference::params::MAX_COST;
use crate::reference::state::{Action, State, StateTransition};
use crate::reference::value_iterator::{StateSpace, index_of, lemma_index_inj, lemma_index_bound, update_at, states_ok,
    lemma_update_keeps, actions_ok, action_ok, transition_ok, in_grid};
use crate::bitboard::{Bitboard2D, Bitboard3D, fits2, fits3, empty_stack, empty_grid, shape3};
use crate::bitboard::ops::{dilate_stack, dilate_grid};
use crate::bitboard::enumerate::{set_cells3, cell3_before, lemma_count_empty3, set_cells2, cell_before, lemma_count_empty2};
use crate::bitboard::grid::{shape2, lemma_index};
use crate::reference::solvers::fused::clamped_update_at;
use crate::reference::solvers::greatest::{agree_ok, greatest_settled};
use crate::reference::solvers::pad_settle::{above_best, all_reached, lemma_pad_greatest, lemma_unclamped_is_padded};
use crate::reference::solvers::frontier_settle::lemma_frontier3d_greatest;

verus! {

/// Absolute value.
pub open spec fn abs_int(d: int) -> int {
    if d < 0 { -d } else { d }
}

/// Cyclic distance from source heading `t` to heading `dit` on `nt` headings.
pub open spec fn circ_dist(dit: int, t: int, nt: int) -> int {
    let e = (dit - t) % nt;
    if e <= nt - e { e } else { nt - e }
}

/// The displacement `m` covers outcome `tr` from source heading `t`.
pub open spec fn covers(tr: StateTransition, t: int, nt: int, m: (int, int, int)) -> bool {
    abs_int(tr.dix as int) <= m.0 && abs_int(tr.diy as int) <= m.1 && circ_dist(tr.dit as int, t, nt) <= m.2
}

/// Every position offset of every action is above `i32::MIN`.
pub open spec fn offsets_ok(actions: Seq<Action>, nt: int) -> bool {
    forall|a: int, t: int, k: int| 0 <= a < actions.len() && 0 <= t < actions[a].state_transitions@.len()
        && 0 <= k < actions[a].state_transitions@[t]@.len()
        ==> (#[trigger] actions[a].state_transitions@[t]@[k]).dix > i32::MIN && actions[a].state_transitions@[t]@[k].diy > i32::MIN
}

/// Largest displacement over the outcomes of one source heading, starting from `cur`.
fn list_disp(trs: &Vec<StateTransition>, t: usize, nt: i32, cur: (i32, i32, i32)) -> (r: (i32, i32, i32))
    requires
        0 <= t < nt,
        0 <= cur.0,
        0 <= cur.1,
        0 <= cur.2,
        2 * cur.2 <= nt,
        forall|k: int| 0 <= k < trs@.len() ==> (#[trigger] trs@[k]).dix > i32::MIN && trs@[k].diy > i32::MIN,
    ensures
        cur.0 <= r.0,
        cur.1 <= r.1,
        cur.2 <= r.2,
        2 * r.2 <= nt,
        forall|k: int| 0 <= k < trs@.len() ==> covers(#[trigger] trs@[k], t as int, nt as int, (r.0 as int, r.1 as int, r.2 as int)),
        r.0 == cur.0 || exists|k: int| 0 <= k < trs@.len() && abs_int((#[trigger] trs@[k]).dix as int) == r.0,
        r.1 == cur.1 || exists|k: int| 0 <= k < trs@.len() && abs_int((#[trigger] trs@[k]).diy as int) == r.1,
        r.2 == cur.2 || exists|k: int| 0 <= k < trs@.len() && circ_dist((#[trigger] trs@[k]).dit as int, t as int, nt as int) == r.2,
{
    let mut m = cur;
    let mut k: usize = 0;
    while k < trs.len()
        invariant
            0 <= t < nt,
            0 <= k <= trs@.len(),
            cur.0 <= m.0,
            cur.1 <= m.1,
            cur.2 <= m.2,
            2 * m.2 <= nt,
            forall|j: int| 0 <= j < trs@.len() ==> (#[trigger] trs@[j]).dix > i32::MIN && trs@[j].diy > i32::MIN,
            forall|j: int| 0 <= j < k ==> covers(#[trigger] trs@[j], t as int, nt as int, (m.0 as int, m.1 as int, m.2 as int)),
            m.0 == cur.0 || exists|j: int| 0 <= j < k && abs_int((#[trigger] trs@[j]).dix as int) == m.0,
            m.1 == cur.1 || exists|j: int| 0 <= j < k && abs_int((#[trigger] trs@[j]).diy as int) == m.1,
            m.2 == cur.2 || exists|j: int| 0 <= j < k && circ_dist((#[trigger] trs@[j]).dit as int, t as int, nt as int) == m.2,
        decreases trs@.len() - k,
    {
        let st = &trs[k];
        let ax = if st.dix < 0 { -st.dix } else { st.dix };
        let ay = if st.diy < 0 { -st.diy } else { st.diy };
        let mag: i64 = if st.dit < 0 { -(st.dit as i64) } else { st.dit as i64 };
        let q: i64 = mag / (nt as i64) + 2;
        proof {
            assert(0 <= mag <= 0x8000_0000);
            assert((mag as int) / (nt as int) <= mag) by (nonlinear_arith) requires 0 <= mag, 0 < nt;
            assert(0 <= (mag as int) / (nt as int)) by (nonlinear_arith) requires 0 <= mag, 0 < nt;
            assert(0 <= q * (nt as int) <= 0x4000_0001_0000_0000) by (nonlinear_arith)
                requires 2 <= q <= 0x8000_0000 + 2, 0 < nt <= 0x7fff_ffff;
            assert(q * (nt as int) >= mag + nt) by (nonlinear_arith)
                requires q == (mag as int) / (nt as int) + 2, 0 <= mag, 0 < nt;
        }
        let d: i64 = st.dit as i64 - t as i64 + q * (nt as i64);
        let raw = d % (nt as i64);
        proof {
            lemma_mod_multiples_vanish(q as int, st.dit - t, nt as int);
            assert(raw == (st.dit - t) % (nt as int));
        }
        let circ = if raw <= nt as i64 - raw { raw } else { nt as i64 - raw };
        let circ = circ as i32;
        if ax > m.0 {
            m.0 = ax;
        }
        if ay > m.1 {
            m.1 = ay;
        }
        if circ > m.2 {
            m.2 = circ;
        }
        proof {
            assert(circ_dist(st.dit as int, t as int, nt as int) == circ);
            assert(covers(trs@[k as int], t as int, nt as int, (m.0 as int, m.1 as int, m.2 as int)));
        }
        k += 1;
    }
    m
}

/// Largest displacement over all source headings of one action, starting from `cur`.
fn action_disp(a: &Action, nt: i32, cur: (i32, i32, i32)) -> (r: (i32, i32, i32))
    requires
        0 <= nt,
        a.state_transitions@.len() <= nt,
        0 <= cur.0,
        0 <= cur.1,
        0 <= cur.2,
        2 * cur.2 <= nt,
        offsets_ok(seq![*a], nt as int),
    ensures
        cur.0 <= r.0,
        cur.1 <= r.1,
        cur.2 <= r.2,
        2 * r.2 <= nt,
        forall|t: int, k: int| 0 <= t < a.state_transitions@.len() && 0 <= k < a.state_transitions@[t]@.len()
            ==> covers(#[trigger] a.state_transitions@[t]@[k], t, nt as int, (r.0 as int, r.1 as int, r.2 as int)),
        r.0 == cur.0 || exists|t: int, k: int| 0 <= t < a.state_transitions@.len() && 0 <= k < a.state_transitions@[t]@.len()
            && abs_int((#[trigger] a.state_transitions@[t]@[k]).dix as int) == r.0,
        r.1 == cur.1 || exists|t: int, k: int| 0 <= t < a.state_transitions@.len() && 0 <= k < a.state_transitions@[t]@.len()
            && abs_int((#[trigger] a.state_transitions@[t]@[k]).diy as int) == r.1,
        r.2 == cur.2 || exists|t: int, k: int| 0 <= t < a.state_transitions@.len() && 0 <= k < a.state_transitions@[t]@.len()
            && circ_dist((#[trigger] a.state_transitions@[t]@[k]).dit as int, t, nt as int) == r.2,
{
    let ghost lists = a.state_transitions@;
    let mut m = cur;
    let mut t: usize = 0;
    while t < a.state_transitions.len()
        invariant
            lists == a.state_transitions@,
            lists.len() <= nt,
            0 <= t <= lists.len(),
            0 <= cur.0,
            0 <= cur.1,
            0 <= cur.2,
            cur.0 <= m.0,
            cur.1 <= m.1,
            cur.2 <= m.2,
            2 * m.2 <= nt,
            offsets_ok(seq![*a], nt as int),
            forall|t2: int, k: int| 0 <= t2 < t && 0 <= k < lists[t2]@.len()
                ==> covers(#[trigger] lists[t2]@[k], t2, nt as int, (m.0 as int, m.1 as int, m.2 as int)),
            m.0 == cur.0 || exists|t2: int, k: int| 0 <= t2 < t && 0 <= k < lists[t2]@.len() && abs_int((#[trigger] lists[t2]@[k]).dix as int) == m.0,
            m.1 == cur.1 || exists|t2: int, k: int| 0 <= t2 < t && 0 <= k < lists[t2]@.len() && abs_int((#[trigger] lists[t2]@[k]).diy as int) == m.1,
            m.2 == cur.2 || exists|t2: int, k: int| 0 <= t2 < t && 0 <= k < lists[t2]@.len()
                && circ_dist((#[trigger] lists[t2]@[k]).dit as int, t2, nt as int) == m.2,
        decreases lists.len() - t,
    {
        proof {
            assert forall|k: int| 0 <= k < lists[t as int]@.len() implies (#[trigger] lists[t as int]@[k]).dix > i32::MIN
                && lists[t as int]@[k].diy > i32::MIN by {
                assert(seq![*a][0] == *a);
                assert(seq![*a][0].state_transitions@[t as int]@[k] == lists[t as int]@[k]);
            }
        }
        let ghost m0 = m;
        m = list_disp(&a.state_transitions[t], t, nt, m);
        proof {
            assert forall|t2: int, k: int| 0 <= t2 < t + 1 && 0 <= k < lists[t2]@.len()
                implies covers(#[trigger] lists[t2]@[k], t2, nt as int, (m.0 as int, m.1 as int, m.2 as int)) by {
                if t2 < t {
                    assert(covers(lists[t2]@[k], t2, nt as int, (m0.0 as int, m0.1 as int, m0.2 as int)));
                }
            }
            if m.0 != cur.0 {
                if m.0 == m0.0 {
                    let (t2, k) = choose|t2: int, k: int| 0 <= t2 < t && 0 <= k < lists[t2]@.len() && abs_int((#[trigger] lists[t2]@[k]).dix as int) == m0.0;
                    assert(abs_int(lists[t2]@[k].dix as int) == m.0);
                } else {
                    let k = choose|k: int| 0 <= k < lists[t as int]@.len() && abs_int((#[trigger] lists[t as int]@[k]).dix as int) == m.0;
                    assert(abs_int(lists[t as int]@[k].dix as int) == m.0);
                }
            }
            if m.1 != cur.1 {
                if m.1 == m0.1 {
                    let (t2, k) = choose|t2: int, k: int| 0 <= t2 < t && 0 <= k < lists[t2]@.len() && abs_int((#[trigger] lists[t2]@[k]).diy as int) == m0.1;
                    assert(abs_int(lists[t2]@[k].diy as int) == m.1);
                } else {
                    let k = choose|k: int| 0 <= k < lists[t as int]@.len() && abs_int((#[trigger] lists[t as int]@[k]).diy as int) == m.1;
                    assert(abs_int(lists[t as int]@[k].diy as int) == m.1);
                }
            }
            if m.2 != cur.2 {
                if m.2 == m0.2 {
                    let (t2, k) = choose|t2: int, k: int| 0 <= t2 < t && 0 <= k < lists[t2]@.len()
                        && circ_dist((#[trigger] lists[t2]@[k]).dit as int, t2, nt as int) == m0.2;
                    assert(circ_dist(lists[t2]@[k].dit as int, t2, nt as int) == m.2);
                } else {
                    let k = choose|k: int| 0 <= k < lists[t as int]@.len()
                        && circ_dist((#[trigger] lists[t as int]@[k]).dit as int, t as int, nt as int) == m.2;
                    assert(circ_dist(lists[t as int]@[k].dit as int, t as int, nt as int) == m.2);
                }
            }
        }
        t += 1;
    }
    m
}

/// `m` is the displacement of `actions`: the largest `|dix|` and `|diy|` (at
/// least 1) and the largest cyclic heading distance over every outcome.
pub open spec fn is_displacement(actions: Seq<Action>, nt: int, m: (int, int, int)) -> bool {
    &&& 1 <= m.0
    &&& 1 <= m.1
    &&& 0 <= m.2
    &&& 2 * m.2 <= nt
    &&& forall|a: int, t: int, k: int| 0 <= a < actions.len() && 0 <= t < actions[a].state_transitions@.len()
        && 0 <= k < actions[a].state_transitions@[t]@.len()
        ==> covers(#[trigger] actions[a].state_transitions@[t]@[k], t, nt, m)
    &&& m.0 == 1 || exists|a: int, t: int, k: int| 0 <= a < actions.len() && 0 <= t < actions[a].state_transitions@.len()
        && 0 <= k < actions[a].state_transitions@[t]@.len() && abs_int((#[trigger] actions[a].state_transitions@[t]@[k]).dix as int) == m.0
    &&& m.1 == 1 || exists|a: int, t: int, k: int| 0 <= a < actions.len() && 0 <= t < actions[a].state_transitions@.len()
        && 0 <= k < actions[a].state_transitions@[t]@.len() && abs_int((#[trigger] actions[a].state_transitions@[t]@[k]).diy as int) == m.1
    &&& m.2 == 0 || exists|a: int, t: int, k: int| 0 <= a < actions.len() && 0 <= t < actions[a].state_transitions@.len()
        && 0 <= k < actions[a].state_transitions@[t]@.len() && circ_dist((#[trigger] actions[a].state_transitions@[t]@[k]).dit as int, t, nt) == m.2
}

/// Dilation displacement `(mx, my, mt)` of the actions: cells that can see a
/// changed cell lie within it.
pub fn displacement(actions: &Vec<Action>, cell_num_t: i32) -> (r: (i32, i32, i32))
    requires
        0 <= cell_num_t,
        forall|a: int| 0 <= a < actions@.len() ==> (#[trigger] actions@[a]).state_transitions@.len() == cell_num_t,
        offsets_ok(actions@, cell_num_t as int),
    ensures
        is_displacement(actions@, cell_num_t as int, (r.0 as int, r.1 as int, r.2 as int)),
{
    let ghost acts = actions@;
    let ghost nt = cell_num_t as int;
    let mut m: (i32, i32, i32) = (0, 0, 0);
    let mut ai: usize = 0;
    while ai < actions.len()
        invariant
            acts == actions@,
            nt == cell_num_t,
            0 <= nt,
            forall|a: int| 0 <= a < acts.len() ==> (#[trigger] acts[a]).state_transitions@.len() == nt,
            offsets_ok(acts, nt),
            0 <= ai <= acts.len(),
            0 <= m.0,
            0 <= m.1,
            0 <= m.2,
            2 * m.2 <= nt,
            forall|a: int, t: int, k: int| 0 <= a < ai && 0 <= t < acts[a].state_transitions@.len() && 0 <= k < acts[a].state_transitions@[t]@.len()
                ==> covers(#[trigger] acts[a].state_transitions@[t]@[k], t, nt, (m.0 as int, m.1 as int, m.2 as int)),
            m.0 == 0 || exists|a: int, t: int, k: int| 0 <= a < ai && 0 <= t < acts[a].state_transitions@.len()
                && 0 <= k < acts[a].state_transitions@[t]@.len() && abs_int((#[trigger] acts[a].state_transitions@[t]@[k]).dix as int) == m.0,
            m.1 == 0 || exists|a: int, t: int, k: int| 0 <= a < ai && 0 <= t < acts[a].state_transitions@.len()
                && 0 <= k < acts[a].state_transitions@[t]@.len() && abs_int((#[trigger] acts[a].state_transitions@[t]@[k]).diy as int) == m.1,
            m.2 == 0 || exists|a: int, t: int, k: int| 0 <= a < ai && 0 <= t < acts[a].state_transitions@.len()
                && 0 <= k < acts[a].state_transitions@[t]@.len() && circ_dist((#[trigger] acts[a].state_transitions@[t]@[k]).dit as int, t, nt) == m.2,
        decreases acts.len() - ai,
    {
        let a = &actions[ai];
        proof {
            assert(seq![*a][0] == *a);
            assert forall|a2: int, t: int, k: int| 0 <= a2 < 1 && 0 <= t < seq![*a][a2].state_transitions@.len()
                && 0 <= k < seq![*a][a2].state_transitions@[t]@.len()
                implies (#[trigger] seq![*a][a2].state_transitions@[t]@[k]).dix > i32::MIN && seq![*a][a2].state_transitions@[t]@[k].diy > i32::MIN by {
                assert(acts[ai as int].state_transitions@[t]@[k] == seq![*a][a2].state_transitions@[t]@[k]);
            }
        }
        let ghost m0 = m;
        m = action_disp(a, cell_num_t, m);
        proof {
            assert forall|a2: int, t: int, k: int| 0 <= a2 < ai + 1 && 0 <= t < acts[a2].state_transitions@.len() && 0 <= k < acts[a2].state_transitions@[t]@.len()
                implies covers(#[trigger] acts[a2].state_transitions@[t]@[k], t, nt, (m.0 as int, m.1 as int, m.2 as int)) by {
                if a2 < ai {
                    assert(covers(acts[a2].state_transitions@[t]@[k], t, nt, (m0.0 as int, m0.1 as int, m0.2 as int)));
                }
            }
            if m.0 != 0 {
                if m.0 == m0.0 {
                    let (a2, t, k) = choose|a2: int, t: int, k: int| 0 <= a2 < ai && 0 <= t < acts[a2].state_transitions@.len()
                        && 0 <= k < acts[a2].state_transitions@[t]@.len() && abs_int((#[trigger] acts[a2].state_transitions@[t]@[k]).dix as int) == m0.0;
                    assert(abs_int(acts[a2].state_transitions@[t]@[k].dix as int) == m.0);
                } else {
                    let (t, k) = choose|t: int, k: int| 0 <= t < a.state_transitions@.len() && 0 <= k < a.state_transitions@[t]@.len()
                        && abs_int((#[trigger] a.state_transitions@[t]@[k]).dix as int) == m.0;
                    assert(abs_int(acts[ai as int].state_transitions@[t]@[k].dix as int) == m.0);
                }
            }
            if m.1 != 0 {
                if m.1 == m0.1 {
                    let (a2, t, k) = choose|a2: int, t: int, k: int| 0 <= a2 < ai && 0 <= t < acts[a2].state_transitions@.len()
                        && 0 <= k < acts[a2].state_transitions@[t]@.len() && abs_int((#[trigger] acts[a2].state_transitions@[t]@[k]).diy as int) == m0.1;
                    assert(abs_int(acts[a2].state_transitions@[t]@[k].diy as int) == m.1);
                } else {
                    let (t, k) = choose|t: int, k: int| 0 <= t < a.state_transitions@.len() && 0 <= k < a.state_transitions@[t]@.len()
                        && abs_int((#[trigger] a.state_transitions@[t]@[k]).diy as int) == m.1;
                    assert(abs_int(acts[ai as int].state_transitions@[t]@[k].diy as int) == m.1);
                }
            }
            if m.2 != 0 {
                if m.2 == m0.2 {
                    let (a2, t, k) = choose|a2: int, t: int, k: int| 0 <= a2 < ai && 0 <= t < acts[a2].state_transitions@.len()
                        && 0 <= k < acts[a2].state_transitions@[t]@.len() && circ_dist((#[trigger] acts[a2].state_transitions@[t]@[k]).dit as int, t, nt) == m0.2;
                    assert(circ_dist(acts[a2].state_transitions@[t]@[k].dit as int, t, nt) == m.2);
                } else {
                    let (t, k) = choose|t: int, k: int| 0 <= t < a.state_transitions@.len() && 0 <= k < a.state_transitions@[t]@.len()
                        && circ_dist((#[trigger] a.state_transitions@[t]@[k]).dit as int, t, nt) == m.2;
                    assert(circ_dist(acts[ai as int].state_transitions@[t]@[k].dit as int, t, nt) == m.2);
                }
            }
        }
        ai += 1;
    }
    let mx = if m.0 > 1 { m.0 } else { 1 };
    let my = if m.1 > 1 { m.1 } else { 1 };
    (mx, my, m.2)
}

/// Cells of the 3-D frontier seed: every state with a cost below `MAX_COST`.
pub open spec fn seed_view3(states: Seq<State>, nx: int, ny: int, nt: int) -> Seq<Seq<Seq<bool>>> {
    Seq::new(nt as nat, |t: int| Seq::new(ny as nat, |y: int| Seq::new(nx as nat, |x: int|
        states[index_of(x, y, t, nx, nt)].total_cost < MAX_COST)))
}

/// Cells of the 2-D frontier seed: every `(x, y)` with a cost below `MAX_COST` at some heading.
pub open spec fn seed_view2(states: Seq<State>, nx: int, ny: int, nt: int) -> Seq<Seq<bool>> {
    Seq::new(ny as nat, |y: int| Seq::new(nx as nat, |x: int|
        exists|t: int| 0 <= t < nt && #[trigger] states[index_of(x, y, t, nx, nt)].total_cost < MAX_COST))
}

/// Initial 3-D frontier: the states whose cost is below `MAX_COST` (the goal states once a goal is set).
pub fn seed_frontier(vi: &StateSpace) -> (r: Bitboard3D)
    requires
        vi.wf(),
        fits3(vi.cell_num_x as u32, vi.cell_num_y as u32, vi.cell_num_t as u32),
    ensures
        r.wf(),
        r.width() == vi.cell_num_x,
        r.height() == vi.cell_num_y,
        r.layers() == vi.cell_num_t,
        r@ == seed_view3(vi.states@, vi.cell_num_x as int, vi.cell_num_y as int, vi.cell_num_t as int),
{
    let ghost nx = vi.cell_num_x as int;
    let ghost ny = vi.cell_num_y as int;
    let ghost nt = vi.cell_num_t as int;
    let ghost st = vi.states@;
    let mut bb = Bitboard3D::new(vi.cell_num_x as u32, vi.cell_num_y as u32, vi.cell_num_t as u32);
    let n = vi.states.len();
    let mut i: usize = 0;
    while i < n
        invariant
            vi.wf(),
            st == vi.states@,
            n == st.len(),
            nx == vi.cell_num_x,
            ny == vi.cell_num_y,
            nt == vi.cell_num_t,
            0 <= i <= n,
            bb.wf(),
            bb.width() == nx,
            bb.height() == ny,
            bb.layers() == nt,
            forall|t: int, y: int, x: int| 0 <= t < nt && 0 <= y < ny && 0 <= x < nx ==> #[trigger] bb@[t][y][x]
                == (index_of(x, y, t, nx, nt) < i && st[index_of(x, y, t, nx, nt)].total_cost < MAX_COST),
        decreases n - i,
    {
        let s = &vi.states[i];
        proof {
            bb.lemma_shape();
        }
        if s.total_cost < MAX_COST {
            let ghost b0 = bb@;
            bb.set(s.ix as u32, s.iy as u32, s.it as u32);
            proof {
                bb.lemma_shape();
                assert forall|t: int, y: int, x: int| 0 <= t < nt && 0 <= y < ny && 0 <= x < nx implies #[trigger] bb@[t][y][x]
                    == (index_of(x, y, t, nx, nt) < i + 1 && st[index_of(x, y, t, nx, nt)].total_cost < MAX_COST) by {
                    lemma_index_bound(x, y, t, nx, ny, nt);
                    assert(shape2(b0[t], nx, ny));
                    assert(shape2(b0[s.it as int], nx, ny));
                    if index_of(x, y, t, nx, nt) == i {
                        lemma_index_inj(x, y, t, s.ix as int, s.iy as int, s.it as int, nx, nt);
                    }
                    if x == s.ix && y == s.iy && t == s.it {
                    } else {
                        assert(b0[t][y][x] == bb@[t][y][x]);
                    }
                }
            }
        } else {
            proof {
                assert forall|t: int, y: int, x: int| 0 <= t < nt && 0 <= y < ny && 0 <= x < nx implies #[trigger] bb@[t][y][x]
                    == (index_of(x, y, t, nx, nt) < i + 1 && st[index_of(x, y, t, nx, nt)].total_cost < MAX_COST) by {
                    lemma_index_bound(x, y, t, nx, ny, nt);
                }
            }
        }
        i += 1;
    }
    proof {
        bb.lemma_shape();
        let sv = seed_view3(st, nx, ny, nt);
        assert forall|t: int| 0 <= t < nt implies #[trigger] bb@[t] =~= sv[t] by {
            assert(shape2(bb@[t], nx, ny));
            assert forall|y: int| 0 <= y < ny implies #[trigger] bb@[t][y] =~= sv[t][y] by {
                assert forall|x: int| 0 <= x < nx implies bb@[t][y][x] == sv[t][y][x] by {
                    lemma_index_bound(x, y, t, nx, ny, nt);
                }
            }
        }
        assert(bb@ =~= sv);
    }
    bb
}

/// Initial 2-D frontier: every `(x, y)` with a cost below `MAX_COST` at some heading.
pub fn seed_frontier_2d(vi: &StateSpace) -> (r: Bitboard2D)
    requires
        vi.wf(),
        fits2(vi.cell_num_x as u32, vi.cell_num_y as u32),
    ensures
        r.wf(),
        r.width() == vi.cell_num_x,
        r.height() == vi.cell_num_y,
        r@ == seed_view2(vi.states@, vi.cell_num_x as int, vi.cell_num_y as int, vi.cell_num_t as int),
{
    let ghost nx = vi.cell_num_x as int;
    let ghost ny = vi.cell_num_y as int;
    let ghost nt = vi.cell_num_t as int;
    let ghost st = vi.states@;
    let mut bb = Bitboard2D::new(vi.cell_num_x as u32, vi.cell_num_y as u32);
    let n = vi.states.len();
    let mut i: usize = 0;
    while i < n
        invariant
            vi.wf(),
            st == vi.states@,
            n == st.len(),
            nx == vi.cell_num_x,
            ny == vi.cell_num_y,
            nt == vi.cell_num_t,
            0 <= i <= n,
            bb.wf(),
            bb.width() == nx,
            bb.height() == ny,
            forall|y: int, x: int| 0 <= y < ny && 0 <= x < nx ==> #[trigger] bb@[y][x]
                == exists|t: int| 0 <= t < nt && index_of(x, y, t, nx, nt) < i && #[trigger] st[index_of(x, y, t, nx, nt)].total_cost < MAX_COST,
        decreases n - i,
    {
        let s = &vi.states[i];
        proof {
            bb.lemma_shape();
        }
        let ghost b0 = bb@;
        if s.total_cost < MAX_COST {
            bb.set(s.ix as u32, s.iy as u32);
        }
        proof {
            bb.lemma_shape();
            assert forall|y: int, x: int| 0 <= y < ny && 0 <= x < nx implies #[trigger] bb@[y][x]
                == exists|t: int| 0 <= t < nt && index_of(x, y, t, nx, nt) < i + 1 && #[trigger] st[index_of(x, y, t, nx, nt)].total_cost < MAX_COST by {
                if exists|t: int| 0 <= t < nt && index_of(x, y, t, nx, nt) < i + 1 && #[trigger] st[index_of(x, y, t, nx, nt)].total_cost < MAX_COST {
                    let t = choose|t: int| 0 <= t < nt && index_of(x, y, t, nx, nt) < i + 1 && #[trigger] st[index_of(x, y, t, nx, nt)].total_cost < MAX_COST;
                    if index_of(x, y, t, nx, nt) == i {
                        lemma_index_inj(x, y, t, s.ix as int, s.iy as int, s.it as int, nx, nt);
                    }
                }
                if b0[y][x] {
                    let t = choose|t: int| 0 <= t < nt && index_of(x, y, t, nx, nt) < i && #[trigger] st[index_of(x, y, t, nx, nt)].total_cost < MAX_COST;
                    assert(index_of(x, y, t, nx, nt) < i + 1);
                }
                if s.total_cost < MAX_COST && x == s.ix && y == s.iy {
                    assert(index_of(x, y, s.it as int, nx, nt) < i + 1);
                    assert(st[index_of(x, y, s.it as int, nx, nt)].total_cost < MAX_COST);
                }
            }
        }
        i += 1;
    }
    proof {
        bb.lemma_shape();
        let sv = seed_view2(st, nx, ny, nt);
        assert forall|y: int| 0 <= y < ny implies #[trigger] bb@[y] =~= sv[y] by {
            assert forall|x: int| 0 <= x < nx implies bb@[y][x] == sv[y][x] by {
                if bb@[y][x] {
                    let t = choose|t: int| 0 <= t < nt && index_of(x, y, t, nx, nt) < n && #[trigger] st[index_of(x, y, t, nx, nt)].total_cost < MAX_COST;
                }
                if sv[y][x] {
                    let t = choose|t: int| 0 <= t < nt && #[trigger] st[index_of(x, y, t, nx, nt)].total_cost < MAX_COST;
                    lemma_index_bound(x, y, t, nx, ny, nt);
                    assert(index_of(x, y, t, nx, nt) < n);
                }
            }
        }
        assert(bb@ =~= sv);
    }
    bb
}

/// The stack `v` with cell `c` set.
pub open spec fn set_cell3(v: Seq<Seq<Seq<bool>>>, c: (u32, u32, u32)) -> Seq<Seq<Seq<bool>>> {
    v.update(c.2 as int, v[c.2 as int].update(c.1 as int, v[c.2 as int][c.1 as int].update(c.0 as int, true)))
}

/// `cells` lists the set cells of the `w × h × n` stack `v` in storage order.
pub open spec fn lists_cells3(cells: Seq<(u32, u32, u32)>, v: Seq<Seq<Seq<bool>>>, w: int, h: int, n: int) -> bool {
    &&& forall|i: int| 0 <= i < cells.len() ==> set_cells3(v, w, h, n).contains(
        (#[trigger] cells[i].0 as int, cells[i].1 as int, cells[i].2 as int))
    &&& forall|i: int, j: int| 0 <= i < j < cells.len() ==> cell3_before((cells[i].0 as int, cells[i].1 as int, cells[i].2 as int),
        (cells[j].0 as int, cells[j].1 as int, cells[j].2 as int))
    &&& forall|c: (int, int, int)| #[trigger] set_cells3(v, w, h, n).contains(c)
        ==> exists|i: int| 0 <= i < cells.len() && (cells[i].0 as int, cells[i].1 as int, cells[i].2 as int) == c
}

/// One frontier round over `cells`: each cell gets the per-state update in turn;
/// gives the states, the next frontier (the cells whose cost fell) and their number.
/// The per-state update of `states[idx]`: the exact one, or the top-k one
/// keeping `k` outcomes per action.
pub open spec fn step3(states: Seq<State>, actions: Seq<Action>, idx: int, nx: int, ny: int, nt: int, mode: Option<u32>) -> Seq<State> {
    match mode {
        None => update_at(states, actions, idx, nx, ny, nt),
        Some(k) => crate::reference::solvers::topk::topk_update_at(states, actions, idx, k, nx, ny, nt),
    }
}

/// Either update keeps the layout invariant.
proof fn lemma_step_keeps(states: Seq<State>, actions: Seq<Action>, idx: int, nx: int, ny: int, nt: int, mode: Option<u32>)
    requires
        states_ok(states, nx, ny, nt),
        actions.len() <= usize::MAX,
        0 <= idx < states.len(),
    ensures
        states_ok(step3(states, actions, idx, nx, ny, nt, mode), nx, ny, nt),
        step3(states, actions, idx, nx, ny, nt, mode).len() == states.len(),
{
    match mode {
        None => {
            lemma_update_keeps(states, actions, idx, nx, ny, nt);
        },
        Some(k) => {
            crate::reference::solvers::topk::lemma_topk_best(states, actions, states[idx], k, nx, ny, nt);
            let s2 = step3(states, actions, idx, nx, ny, nt, mode);
            assert forall|i: int| 0 <= i < s2.len() implies {
                &&& in_grid(#[trigger] s2[i], nx, ny, nt)
                &&& index_of(s2[i].ix as int, s2[i].iy as int, s2[i].it as int, nx, nt) == i
                &&& s2[i].total_cost <= i64::MAX
            } by {
                assert(in_grid(states[i], nx, ny, nt));
            }
        },
    }
}

pub open spec fn round3(states: Seq<State>, actions: Seq<Action>, cells: Seq<(u32, u32, u32)>, nx: int, ny: int, nt: int, mode: Option<u32>)
    -> (Seq<State>, Seq<Seq<Seq<bool>>>, nat)
    decreases cells.len(),
{
    if cells.len() == 0 {
        (states, empty_stack(nx, ny, nt), 0)
    } else {
        let p = round3(states, actions, cells.drop_last(), nx, ny, nt, mode);
        let c = cells.last();
        let idx = index_of(c.0 as int, c.1 as int, c.2 as int, nx, nt);
        let s2 = step3(p.0, actions, idx, nx, ny, nt, mode);
        if s2[idx].total_cost < p.0[idx].total_cost {
            (s2, set_cell3(p.1, c), p.2 + 1)
        } else {
            (s2, p.1, p.2)
        }
    }
}

/// The rounds over the candidate lists of `hist`, from `states` and frontier `f`;
/// gives the states, the last frontier and the total number of cost decreases.
pub open spec fn rounds3(states: Seq<State>, actions: Seq<Action>, f: Seq<Seq<Seq<bool>>>, hist: Seq<Seq<(u32, u32, u32)>>,
    nx: int, ny: int, nt: int, mode: Option<u32>) -> (Seq<State>, Seq<Seq<Seq<bool>>>, nat)
    decreases hist.len(),
{
    if hist.len() == 0 {
        (states, f, 0)
    } else {
        let p = rounds3(states, actions, f, hist.drop_last(), nx, ny, nt, mode);
        let r = round3(p.0, actions, hist.last(), nx, ny, nt, mode);
        (r.0, r.1, p.2 + r.2)
    }
}

/// `hist` is a run of the frontier solver: before each round the frontier had a
/// set cell, and the round's candidates are the set cells of the frontier
/// dilated by `m`, in storage order.
pub open spec fn frontier_run3(states: Seq<State>, actions: Seq<Action>, f: Seq<Seq<Seq<bool>>>, hist: Seq<Seq<(u32, u32, u32)>>,
    nx: int, ny: int, nt: int, m: (int, int, int), mode: Option<u32>) -> bool {
    forall|r: int| 0 <= r < hist.len() ==> {
        let p = #[trigger] rounds3(states, actions, f, hist.take(r), nx, ny, nt, mode);
        &&& set_cells3(p.1, nx, ny, nt) != Set::<(int, int, int)>::empty()
        &&& lists_cells3(hist[r], dilate_stack(p.1, nx, ny, nt, m.0, m.1, m.2), nx, ny, nt)
    }
}

/// The actions move at most 63 cells in `x`, so one word-shift dilation covers
/// them, and `-diy` fits in `i32`.
pub open spec fn frontier_ok(actions: Seq<Action>) -> bool {
    forall|a: int, t: int, k: int| 0 <= a < actions.len() && 0 <= t < actions[a].state_transitions@.len()
        && 0 <= k < actions[a].state_transitions@[t]@.len()
        ==> -63 <= (#[trigger] actions[a].state_transitions@[t]@[k]).dix <= 63 && actions[a].state_transitions@[t]@[k].diy > i32::MIN
}

/// A strictly increasing sequence of integers in `0 .. n` has at most `n` entries.
proof fn lemma_increasing_len(l: Seq<int>, n: int)
    requires
        0 <= n,
        forall|i: int| 0 <= i < l.len() ==> 0 <= #[trigger] l[i] < n,
        forall|i: int, j: int| 0 <= i < j < l.len() ==> #[trigger] l[i] < #[trigger] l[j],
    ensures
        l.len() <= n,
    decreases l.len(),
{
    if l.len() > 0 {
        let d = l.drop_last();
        assert forall|i: int| 0 <= i < d.len() implies 0 <= #[trigger] d[i] < l.last() by {
            assert(l[i] < l[l.len() - 1]);
        }
        assert forall|i: int, j: int| 0 <= i < j < d.len() implies #[trigger] d[i] < #[trigger] d[j] by {
            assert(l[i] < l[j]);
        }
        lemma_increasing_len(d, l.last());
        assert(l[l.len() - 1] < n);
    }
}

/// A list of distinct cells of an `nx × ny × nt` stack in storage order has at most `nx * ny * nt` entries.
proof fn lemma_cells_len(cells: Seq<(u32, u32, u32)>, v: Seq<Seq<Seq<bool>>>, nx: int, ny: int, nt: int)
    requires
        lists_cells3(cells, v, nx, ny, nt),
        0 <= nx,
        0 <= ny,
        0 <= nt,
    ensures
        cells.len() <= nx * ny * nt,
{
    let key = |c: (u32, u32, u32)| (c.2 as int * ny + c.1 as int) * nx + c.0 as int;
    let l = Seq::new(cells.len(), |i: int| key(cells[i]));
    assert forall|i: int| 0 <= i < l.len() implies 0 <= #[trigger] l[i] < nx * ny * nt by {
        assert(set_cells3(v, nx, ny, nt).contains((cells[i].0 as int, cells[i].1 as int, cells[i].2 as int)));
        crate::bitboard::grid::lemma_layer_row(cells[i].2 as int, cells[i].1 as int, cells[i].0 as int, ny, nx, nt);
        assert(nt * ny * nx == nx * ny * nt) by (nonlinear_arith);
    }
    assert forall|i: int, j: int| 0 <= i < j < l.len() implies #[trigger] l[i] < #[trigger] l[j] by {
        let a = cells[i];
        let b = cells[j];
        assert(set_cells3(v, nx, ny, nt).contains((a.0 as int, a.1 as int, a.2 as int)));
        assert(set_cells3(v, nx, ny, nt).contains((b.0 as int, b.1 as int, b.2 as int)));
        assert(cell3_before((a.0 as int, a.1 as int, a.2 as int), (b.0 as int, b.1 as int, b.2 as int)));
        let ra = a.2 as int * ny + a.1 as int;
        let rb = b.2 as int * ny + b.1 as int;
        if (a.2 as int) < (b.2 as int) {
            assert(ra < rb) by (nonlinear_arith) requires ra == a.2 as int * ny + a.1 as int, rb == b.2 as int * ny + b.1 as int,
                (a.2 as int) < (b.2 as int), 0 <= a.1 < ny, 0 <= b.1;
        }
        if ra < rb {
            assert(ra * nx + a.0 < rb * nx + b.0) by (nonlinear_arith) requires ra < rb, 0 <= a.0 < nx, 0 <= b.0;
        }
    }
    assert(0 <= nx * ny * nt) by (nonlinear_arith) requires 0 <= nx, 0 <= ny, 0 <= nt;
    lemma_increasing_len(l, nx * ny * nt);
}

/// A round keeps the layout invariant and the frontier's shape, and counts at
/// most one decrease per candidate.
pub proof fn lemma_round3(states: Seq<State>, actions: Seq<Action>, cells: Seq<(u32, u32, u32)>, nx: int, ny: int, nt: int, mode: Option<u32>)
    requires
        states_ok(states, nx, ny, nt),
        actions.len() <= usize::MAX,
        forall|i: int| 0 <= i < cells.len() ==> (#[trigger] cells[i]).0 < nx && cells[i].1 < ny && cells[i].2 < nt,
    ensures
        states_ok(round3(states, actions, cells, nx, ny, nt, mode).0, nx, ny, nt),
        shape3(round3(states, actions, cells, nx, ny, nt, mode).1, nx, ny, nt),
        round3(states, actions, cells, nx, ny, nt, mode).2 <= cells.len(),
    decreases cells.len(),
{
    if cells.len() > 0 {
        let d = cells.drop_last();
        assert forall|i: int| 0 <= i < d.len() implies (#[trigger] d[i]).0 < nx && d[i].1 < ny && d[i].2 < nt by {
            assert(d[i] == cells[i]);
        }
        lemma_round3(states, actions, d, nx, ny, nt, mode);
        let p = round3(states, actions, d, nx, ny, nt, mode);
        let c = cells.last();
        lemma_index_bound(c.0 as int, c.1 as int, c.2 as int, nx, ny, nt);
        lemma_step_keeps(p.0, actions, index_of(c.0 as int, c.1 as int, c.2 as int, nx, nt), nx, ny, nt, mode);
        let f2 = set_cell3(p.1, c);
        assert forall|t: int| 0 <= t < nt implies #[trigger] crate::bitboard::grid::shape2(f2[t], nx, ny) by {
            assert(crate::bitboard::grid::shape2(p.1[t], nx, ny));
        }
    } else {
        let e = empty_stack(nx, ny, nt);
        assert forall|t: int| 0 <= t < nt implies #[trigger] crate::bitboard::grid::shape2(e[t], nx, ny) by {}
    }
}

/// Frontier conditions follow from the actions of a well-formed space.
pub proof fn lemma_frontier_offsets(actions: Seq<Action>, nx: int, ny: int, nt: int)
    requires
        actions_ok(actions, nx, ny, nt),
        frontier_ok(actions),
    ensures
        offsets_ok(actions, nt),
        forall|a: int| 0 <= a < actions.len() ==> (#[trigger] actions[a]).state_transitions@.len() == nt,
{
    assert forall|a: int| 0 <= a < actions.len() implies (#[trigger] actions[a]).state_transitions@.len() == nt by {
        assert(action_ok(actions[a], nx, ny, nt));
    }
    assert forall|a: int, t: int, k: int| 0 <= a < actions.len() && 0 <= t < actions[a].state_transitions@.len()
        && 0 <= k < actions[a].state_transitions@[t]@.len()
        implies (#[trigger] actions[a].state_transitions@[t]@[k]).dix > i32::MIN && actions[a].state_transitions@[t]@[k].diy > i32::MIN
            && actions[a].state_transitions@[t]@[k].dit >= -nt by {
        assert(action_ok(actions[a], nx, ny, nt));
        assert(transition_ok(actions[a].state_transitions@[t]@[k], nx, ny, nt));
    }
}

/// The frontier solver started from `states` with displacement `m` ran the
/// rounds `hist` and ended with `states2`, `updates` decreases and, when
/// `converged`, an empty frontier.
pub open spec fn frontier3d_result(states: Seq<State>, actions: Seq<Action>, nx: int, ny: int, nt: int, m: (int, int, int),
    hist: Seq<Seq<(u32, u32, u32)>>, states2: Seq<State>, updates: u64, converged: bool, mode: Option<u32>) -> bool {
    let f0 = seed_view3(states, nx, ny, nt);
    let res = rounds3(states, actions, f0, hist, nx, ny, nt, mode);
    &&& is_displacement(actions, nt, m)
    &&& frontier_run3(states, actions, f0, hist, nx, ny, nt, m, mode)
    &&& states2 == res.0
    &&& updates == res.2
    &&& converged == (set_cells3(res.1, nx, ny, nt) == Set::<(int, int, int)>::empty())
}

/// Frontier solver over 3-D cells.  Starting from the cells whose cost is below
/// `MAX_COST`, each round dilates the frontier by the displacement of the
/// actions, applies the per-state update to the candidates in storage order, and
/// keeps as the next frontier the candidates whose cost fell.  Stops when the
/// frontier is empty (converged) or after `max_iter` rounds; gives
/// `(rounds, decreases, converged)`.  `mode` picks the per-state update: the
/// exact one, or the top-k one.
pub(crate) fn frontier3d_run(vi: &mut StateSpace, max_iter: u32, mode: Option<u32>) -> (r: (u32, u64, bool))
    requires
        old(vi).wf(),
        mode is Some ==> crate::reference::solvers::topk::probs_ok(old(vi).actions@),
        frontier_ok(old(vi).actions@),
        fits3(old(vi).cell_num_x as u32, old(vi).cell_num_y as u32, old(vi).cell_num_t as u32),
    ensures
        final(vi).wf(),
        final(vi).actions@ == old(vi).actions@,
        final(vi).cell_num_x == old(vi).cell_num_x,
        final(vi).cell_num_y == old(vi).cell_num_y,
        final(vi).cell_num_t == old(vi).cell_num_t,
        r.0 <= max_iter,
        exists|m: (int, int, int), hist: Seq<Seq<(u32, u32, u32)>>|
            #[trigger] frontier3d_result(old(vi).states@, old(vi).actions@, old(vi).cell_num_x as int, old(vi).cell_num_y as int,
                old(vi).cell_num_t as int, m, hist, final(vi).states@, r.1, r.2, mode)
            && hist.len() == r.0 && (r.2 || r.0 == max_iter),
{
    let ghost s0 = vi.states@;
    let ghost acts = vi.actions@;
    let ghost nx = vi.cell_num_x as int;
    let ghost ny = vi.cell_num_y as int;
    let ghost nt = vi.cell_num_t as int;
    let ghost big_n = nx * ny * nt;
    let cnx = vi.cell_num_x;
    let cny = vi.cell_num_y;
    let cnt = vi.cell_num_t;
    let n_actions = vi.actions.len();
    proof {
        lemma_frontier_offsets(acts, nx, ny, nt);
    }
    let (mx, my, mt) = displacement(&vi.actions, cnt);
    let ghost m = (mx as int, my as int, mt as int);
    proof {
        if mx != 1 {
            let (a, t, k) = choose|a: int, t: int, k: int| 0 <= a < acts.len() && 0 <= t < acts[a].state_transitions@.len()
                && 0 <= k < acts[a].state_transitions@[t]@.len() && abs_int((#[trigger] acts[a].state_transitions@[t]@[k]).dix as int) == m.0;
            assert(-63 <= acts[a].state_transitions@[t]@[k].dix <= 63);
        }
    }
    let mut frontier = seed_frontier(vi);
    let ghost f0 = frontier@;
    let mut updates: u64 = 0;
    let mut iters: u32 = 0;
    let ghost mut hist: Seq<Seq<(u32, u32, u32)>> = Seq::empty();
    while frontier.popcount() > 0 && iters < max_iter
        invariant
            vi.wf(),
            vi.actions@ == acts,
            mode is Some ==> crate::reference::solvers::topk::probs_ok(acts),
            n_actions == acts.len(),
            vi.cell_num_x == cnx,
            vi.cell_num_y == cny,
            vi.cell_num_t == cnt,
            nx == cnx,
            ny == cny,
            nt == cnt,
            big_n == nx * ny * nt,
            fits3(cnx as u32, cny as u32, cnt as u32),
            states_ok(s0, nx, ny, nt),
            frontier.wf(),
            frontier.width() == nx,
            frontier.height() == ny,
            frontier.layers() == nt,
            is_displacement(acts, nt, m),
            m == (mx as int, my as int, mt as int),
            mx < 64,
            f0 == seed_view3(s0, nx, ny, nt),
            hist.len() == iters,
            iters <= max_iter,
            frontier_run3(s0, acts, f0, hist, nx, ny, nt, m, mode),
            vi.states@ == rounds3(s0, acts, f0, hist, nx, ny, nt, mode).0,
            frontier@ == rounds3(s0, acts, f0, hist, nx, ny, nt, mode).1,
            updates == rounds3(s0, acts, f0, hist, nx, ny, nt, mode).2,
            updates <= iters * big_n,
        decreases max_iter - iters,
    {
        let ghost p = rounds3(s0, acts, f0, hist, nx, ny, nt, mode);
        proof {
            frontier.lemma_shape();
            lemma_count_empty3(frontier@, nx, ny, nt);
            assert(exists|c: (int, int, int)| set_cells3(frontier@, nx, ny, nt).contains(c)) by {
                if !(exists|c: (int, int, int)| set_cells3(frontier@, nx, ny, nt).contains(c)) {
                    assert(set_cells3(frontier@, nx, ny, nt) =~= Set::<(int, int, int)>::empty());
                }
            }
            let c = choose|c: (int, int, int)| set_cells3(frontier@, nx, ny, nt).contains(c);
            assert(set_cells3(frontier@, nx, ny, nt).contains(c));
        }
        iters += 1;
        let candidates = frontier.dilate(mx as u32, my as u32, mt as u32);
        let cand = candidates.enumerate();
        let ghost cv = cand@;
        proof {
            assert(lists_cells3(cv, dilate_stack(p.1, nx, ny, nt, m.0, m.1, m.2), nx, ny, nt));
            lemma_cells_len(cv, dilate_stack(p.1, nx, ny, nt, m.0, m.1, m.2), nx, ny, nt);
            assert((iters - 1) * big_n + big_n == iters * big_n) by (nonlinear_arith);
            assert(iters * big_n <= 0x8000_0000_0000_0000) by (nonlinear_arith)
                requires iters <= u32::MAX, big_n <= i32::MAX, 0 <= big_n;
        }
        let mut new_frontier = Bitboard3D::new(cnx as u32, cny as u32, cnt as u32);
        let ghost u0 = updates;
        let mut j: usize = 0;
        while j < cand.len()
            invariant
                vi.wf(),
                vi.actions@ == acts,
                mode is Some ==> crate::reference::solvers::topk::probs_ok(acts),
                n_actions == acts.len(),
                vi.cell_num_x == cnx,
                vi.cell_num_y == cny,
                vi.cell_num_t == cnt,
                nx == cnx,
                ny == cny,
                nt == cnt,
                fits3(cnx as u32, cny as u32, cnt as u32),
                cv == cand@,
                lists_cells3(cv, dilate_stack(p.1, nx, ny, nt, m.0, m.1, m.2), nx, ny, nt),
                cv.len() <= big_n,
                0 <= j <= cv.len(),
                new_frontier.wf(),
                new_frontier.width() == nx,
                new_frontier.height() == ny,
                new_frontier.layers() == nt,
                states_ok(p.0, nx, ny, nt),
                vi.states@ == round3(p.0, acts, cv.take(j as int), nx, ny, nt, mode).0,
                new_frontier@ == round3(p.0, acts, cv.take(j as int), nx, ny, nt, mode).1,
                updates == u0 + round3(p.0, acts, cv.take(j as int), nx, ny, nt, mode).2,
                round3(p.0, acts, cv.take(j as int), nx, ny, nt, mode).2 <= j,
                u0 + big_n <= 0x8000_0000_0000_0000,
            decreases cv.len() - j,
        {
            let c = cand[j];
            proof {
                assert(set_cells3(dilate_stack(p.1, nx, ny, nt, m.0, m.1, m.2), nx, ny, nt).contains((cv[j as int].0 as int, cv[j as int].1 as int, cv[j as int].2 as int)));
                lemma_index_bound(c.0 as int, c.1 as int, c.2 as int, nx, ny, nt);
                assert(cv.take(j + 1).drop_last() =~= cv.take(j as int));
                assert(cv.take(j + 1).last() == c);
            }
            let idx = vi.to_index(c.0 as i32, c.1 as i32, c.2 as i32) as usize;
            let before = vi.states[idx].total_cost;
            match mode {
                None => {
                    vi.value_iteration_at(idx);
                },
                Some(k) => {
                    crate::reference::solvers::topk::topk_update(vi, idx, k);
                },
            }
            if vi.states[idx].total_cost < before {
                updates += 1;
                new_frontier.set(c.0, c.1, c.2);
            }
            j += 1;
        }
        proof {
            assert(cv.take(cv.len() as int) =~= cv);
            let h2 = hist.push(cv);
            assert(h2.drop_last() =~= hist);
            assert forall|r: int| 0 <= r < h2.len() implies {
                let q = #[trigger] rounds3(s0, acts, f0, h2.take(r), nx, ny, nt, mode);
                &&& set_cells3(q.1, nx, ny, nt) != Set::<(int, int, int)>::empty()
                &&& lists_cells3(h2[r], dilate_stack(q.1, nx, ny, nt, m.0, m.1, m.2), nx, ny, nt)
            } by {
                if r < hist.len() {
                    assert(h2.take(r) =~= hist.take(r));
                    assert(rounds3(s0, acts, f0, hist.take(r), nx, ny, nt, mode) == rounds3(s0, acts, f0, h2.take(r), nx, ny, nt, mode));
                } else {
                    assert(h2.take(r) =~= hist);
                }
            }
            hist = h2;
        }
        frontier = new_frontier;
    }
    let converged = frontier.popcount() == 0;
    proof {
        frontier.lemma_shape();
        lemma_count_empty3(frontier@, nx, ny, nt);
        assert(frontier3d_result(s0, acts, nx, ny, nt, m, hist, vi.states@, updates, converged, mode));
        assert(frontier3d_result(old(vi).states@, old(vi).actions@, old(vi).cell_num_x as int, old(vi).cell_num_y as int,
                old(vi).cell_num_t as int, m, hist, vi.states@, updates, converged, mode)
            && hist.len() == iters && (converged || iters == max_iter));
    }
    let r = (iters, updates, converged);
    assert(frontier3d_result(old(vi).states@, old(vi).actions@, old(vi).cell_num_x as int, old(vi).cell_num_y as int,
                old(vi).cell_num_t as int, m, hist, vi.states@, r.1, r.2, mode)
            && hist.len() == r.0 && (r.2 || r.0 == max_iter));
    r
}

/// Frontier solver over 3-D cells.  Starting from the cells whose cost is below
/// `MAX_COST`, each round dilates the frontier by the displacement of the
/// actions, applies the per-state update to the candidates in storage order, and
/// keeps as the next frontier the candidates whose cost fell.  Stops when the
/// frontier is empty (converged) or after `max_iter` rounds; gives
/// `(rounds, decreases, converged)`.
pub fn frontier3d_solve(vi: &mut StateSpace, max_iter: u32) -> (r: (u32, u64, bool))
    requires
        old(vi).wf(),
        frontier_ok(old(vi).actions@),
        fits3(old(vi).cell_num_x as u32, old(vi).cell_num_y as u32, old(vi).cell_num_t as u32),
    ensures
        final(vi).wf(),
        final(vi).actions@ == old(vi).actions@,
        final(vi).cell_num_x == old(vi).cell_num_x,
        final(vi).cell_num_y == old(vi).cell_num_y,
        final(vi).cell_num_t == old(vi).cell_num_t,
        r.0 <= max_iter,
        exists|m: (int, int, int), hist: Seq<Seq<(u32, u32, u32)>>|
            #[trigger] frontier3d_result(old(vi).states@, old(vi).actions@, old(vi).cell_num_x as int, old(vi).cell_num_y as int,
                old(vi).cell_num_t as int, m, hist, final(vi).states@, r.1, r.2, None)
            && hist.len() == r.0 && (r.2 || r.0 == max_iter),
        agree_ok(old(vi).states@, old(vi).actions@, old(vi).cell_num_t as int) && all_reached(old(vi).states@)
            && above_best(old(vi).states@, old(vi).actions@, old(vi).cell_num_x as int, old(vi).cell_num_y as int,
                old(vi).cell_num_t as int) && r.2 ==> exists|gs: Seq<State>|
            #[trigger] greatest_settled(gs, old(vi).states@, old(vi).actions@, old(vi).cell_num_x as int,
                old(vi).cell_num_y as int, old(vi).cell_num_t as int)
            && forall|k: int| 0 <= k < old(vi).states@.len() ==> (#[trigger] final(vi).states@[k]).total_cost == gs[k].total_cost,
{
    let r = frontier3d_run(vi, max_iter, None);
    proof {
        let s0 = old(vi).states@;
        let acts = old(vi).actions@;
        let nx = old(vi).cell_num_x as int;
        let ny = old(vi).cell_num_y as int;
        let nt = old(vi).cell_num_t as int;
        if agree_ok(s0, acts, nt) && all_reached(s0) && above_best(s0, acts, nx, ny, nt) && r.2 {
            let (m, hist) = choose|m: (int, int, int), hist: Seq<Seq<(u32, u32, u32)>>|
                #[trigger] frontier3d_result(s0, acts, nx, ny, nt, m, hist, vi.states@, r.1, r.2, None)
                && hist.len() == r.0 && (r.2 || r.0 == max_iter);
            let gs = lemma_frontier3d_greatest(s0, acts, nx, ny, nt, m, hist, vi.states@, r.1);
            assert(greatest_settled(gs, s0, acts, nx, ny, nt));
        }
    }
    r
}

/// The grid `v` with cell `c` set.
pub open spec fn set_cell2(v: Seq<Seq<bool>>, c: (u32, u32)) -> Seq<Seq<bool>> {
    v.update(c.1 as int, v[c.1 as int].update(c.0 as int, true))
}

/// `cells` lists the set cells of the `w × h` grid `v` in storage order.
pub open spec fn lists_cells2(cells: Seq<(u32, u32)>, v: Seq<Seq<bool>>, w: int, h: int) -> bool {
    &&& forall|i: int| 0 <= i < cells.len() ==> set_cells2(v, w, h).contains((#[trigger] cells[i].0 as int, cells[i].1 as int))
    &&& forall|i: int, j: int| 0 <= i < j < cells.len() ==> cell_before((cells[i].0 as int, cells[i].1 as int), (cells[j].0 as int, cells[j].1 as int))
    &&& forall|c: (int, int)| #[trigger] set_cells2(v, w, h).contains(c)
        ==> exists|i: int| 0 <= i < cells.len() && (cells[i].0 as int, cells[i].1 as int) == c
}

/// The per-state update of `states[idx]`: the reference update or, when
/// `clamp`, the one that counts outcomes on unreached cells as blocked.
pub open spec fn step2(states: Seq<State>, actions: Seq<Action>, idx: int, nx: int, ny: int, nt: int, clamp: bool) -> Seq<State> {
    if clamp {
        clamped_update_at(states, actions, idx, nx, ny, nt)
    } else {
        update_at(states, actions, idx, nx, ny, nt)
    }
}

/// The per-state updates of headings `0 .. k` of column `(x, y)`, in order;
/// gives the states and how many of the updates lowered a cost.
pub open spec fn column2(states: Seq<State>, actions: Seq<Action>, x: int, y: int, k: int, nx: int, ny: int, nt: int, clamp: bool) -> (Seq<State>, nat)
    decreases k,
{
    if k <= 0 {
        (states, 0)
    } else {
        let p = column2(states, actions, x, y, k - 1, nx, ny, nt, clamp);
        let idx = index_of(x, y, k - 1, nx, nt);
        let s2 = step2(p.0, actions, idx, nx, ny, nt, clamp);
        (s2, p.1 + if s2[idx].total_cost < p.0[idx].total_cost { 1nat } else { 0nat })
    }
}

/// One round of the 2-D frontier solver over `cells`: every heading of each
/// cell gets the per-state update; gives the states, the next frontier (cells
/// with a lowered cost) and the number of lowered costs.
pub open spec fn round2(states: Seq<State>, actions: Seq<Action>, cells: Seq<(u32, u32)>, nx: int, ny: int, nt: int, clamp: bool)
    -> (Seq<State>, Seq<Seq<bool>>, nat)
    decreases cells.len(),
{
    if cells.len() == 0 {
        (states, empty_grid(nx, ny), 0)
    } else {
        let p = round2(states, actions, cells.drop_last(), nx, ny, nt, clamp);
        let c = cells.last();
        let col = column2(p.0, actions, c.0 as int, c.1 as int, nt, nx, ny, nt, clamp);
        if col.1 > 0 {
            (col.0, set_cell2(p.1, c), p.2 + col.1)
        } else {
            (col.0, p.1, p.2)
        }
    }
}

/// The rounds over the candidate lists of `hist`, from `states` and frontier `f`.
pub open spec fn rounds2(states: Seq<State>, actions: Seq<Action>, f: Seq<Seq<bool>>, hist: Seq<Seq<(u32, u32)>>,
    nx: int, ny: int, nt: int, clamp: bool) -> (Seq<State>, Seq<Seq<bool>>, nat)
    decreases hist.len(),
{
    if hist.len() == 0 {
        (states, f, 0)
    } else {
        let p = rounds2(states, actions, f, hist.drop_last(), nx, ny, nt, clamp);
        let r = round2(p.0, actions, hist.last(), nx, ny, nt, clamp);
        (r.0, r.1, p.2 + r.2)
    }
}

/// `hist` is a run of the 2-D frontier solver with displacement `m`.
pub open spec fn frontier_run2(states: Seq<State>, actions: Seq<Action>, f: Seq<Seq<bool>>, hist: Seq<Seq<(u32, u32)>>,
    nx: int, ny: int, nt: int, m: (int, int, int), clamp: bool) -> bool {
    forall|r: int| 0 <= r < hist.len() ==> {
        let p = #[trigger] rounds2(states, actions, f, hist.take(r), nx, ny, nt, clamp);
        &&& set_cells2(p.1, nx, ny) != Set::<(int, int)>::empty()
        &&& lists_cells2(hist[r], dilate_grid(p.1, nx, ny, m.0, m.1), nx, ny)
    }
}

/// The 2-D frontier solver started from `states` ran the rounds `hist` and
/// ended with `states2`, `updates` lowered costs and, when `converged`, an
/// empty frontier.
pub open spec fn frontier2d_result(states: Seq<State>, actions: Seq<Action>, nx: int, ny: int, nt: int, m: (int, int, int),
    hist: Seq<Seq<(u32, u32)>>, states2: Seq<State>, updates: u64, converged: bool, clamp: bool) -> bool {
    let f0 = seed_view2(states, nx, ny, nt);
    let res = rounds2(states, actions, f0, hist, nx, ny, nt, clamp);
    &&& is_displacement(actions, nt, m)
    &&& frontier_run2(states, actions, f0, hist, nx, ny, nt, m, clamp)
    &&& states2 == res.0
    &&& updates == res.2
    &&& converged == (set_cells2(res.1, nx, ny) == Set::<(int, int)>::empty())
}

/// A list of distinct cells of an `nx × ny` grid in storage order has at most `nx * ny` entries.
pub proof fn lemma_cells2_len(cells: Seq<(u32, u32)>, v: Seq<Seq<bool>>, nx: int, ny: int)
    requires
        lists_cells2(cells, v, nx, ny),
        0 <= nx,
        0 <= ny,
    ensures
        cells.len() <= nx * ny,
{
    let l = Seq::new(cells.len(), |i: int| cells[i].1 as int * nx + cells[i].0 as int);
    assert forall|i: int| 0 <= i < l.len() implies 0 <= #[trigger] l[i] < nx * ny by {
        assert(set_cells2(v, nx, ny).contains((cells[i].0 as int, cells[i].1 as int)));
        lemma_index(cells[i].1 as int, cells[i].0 as int, nx, ny);
        assert(ny * nx == nx * ny) by (nonlinear_arith);
    }
    assert forall|i: int, j: int| 0 <= i < j < l.len() implies #[trigger] l[i] < #[trigger] l[j] by {
        let a = cells[i];
        let b = cells[j];
        assert(set_cells2(v, nx, ny).contains((a.0 as int, a.1 as int)));
        assert(cell_before((a.0 as int, a.1 as int), (b.0 as int, b.1 as int)));
        if (a.1 as int) < (b.1 as int) {
            assert(a.1 * nx + a.0 < b.1 * nx + b.0) by (nonlinear_arith) requires (a.1 as int) < (b.1 as int), 0 <= a.0 < nx, 0 <= b.0;
        }
    }
    assert(0 <= nx * ny) by (nonlinear_arith) requires 0 <= nx, 0 <= ny;
    lemma_increasing_len(l, nx * ny);
}

/// Frontier solver over 2-D columns: like [`frontier3d_solve`], but a frontier
/// cell `(x, y)` stands for all its headings; each round dilates the frontier in
/// `x` and `y`, updates every heading of each candidate column in storage order,
/// and keeps the columns where some cost fell.
pub fn frontier2d_solve(vi: &mut StateSpace, max_iter: u32) -> (r: (u32, u64, bool))
    requires
        old(vi).wf(),
        frontier_ok(old(vi).actions@),
        fits2(old(vi).cell_num_x as u32, old(vi).cell_num_y as u32),
    ensures
        final(vi).wf(),
        final(vi).actions@ == old(vi).actions@,
        final(vi).cell_num_x == old(vi).cell_num_x,
        final(vi).cell_num_y == old(vi).cell_num_y,
        final(vi).cell_num_t == old(vi).cell_num_t,
        r.0 <= max_iter,
        exists|m: (int, int, int), hist: Seq<Seq<(u32, u32)>>|
            #[trigger] frontier2d_result(old(vi).states@, old(vi).actions@, old(vi).cell_num_x as int, old(vi).cell_num_y as int,
                old(vi).cell_num_t as int, m, hist, final(vi).states@, r.1, r.2, false)
            && hist.len() == r.0 && (r.2 || r.0 == max_iter),
        agree_ok(old(vi).states@, old(vi).actions@, old(vi).cell_num_t as int) && all_reached(old(vi).states@)
            && above_best(old(vi).states@, old(vi).actions@, old(vi).cell_num_x as int, old(vi).cell_num_y as int,
                old(vi).cell_num_t as int) && r.2 ==> exists|gs: Seq<State>|
            #[trigger] greatest_settled(gs, old(vi).states@, old(vi).actions@, old(vi).cell_num_x as int,
                old(vi).cell_num_y as int, old(vi).cell_num_t as int)
            && forall|k: int| 0 <= k < old(vi).states@.len() ==> (#[trigger] final(vi).states@[k]).total_cost == gs[k].total_cost,
{
    let ghost s0 = vi.states@;
    let ghost acts = vi.actions@;
    let ghost nx = vi.cell_num_x as int;
    let ghost ny = vi.cell_num_y as int;
    let ghost nt = vi.cell_num_t as int;
    let ghost big_n = nx * ny * nt;
    let cnx = vi.cell_num_x;
    let cny = vi.cell_num_y;
    let cnt = vi.cell_num_t;
    let n_actions = vi.actions.len();
    proof {
        lemma_frontier_offsets(acts, nx, ny, nt);
    }
    let (mx, my, mt) = displacement(&vi.actions, cnt);
    let ghost m = (mx as int, my as int, mt as int);
    proof {
        if mx != 1 {
            let (a, t, k) = choose|a: int, t: int, k: int| 0 <= a < acts.len() && 0 <= t < acts[a].state_transitions@.len()
                && 0 <= k < acts[a].state_transitions@[t]@.len() && abs_int((#[trigger] acts[a].state_transitions@[t]@[k]).dix as int) == m.0;
            assert(-63 <= acts[a].state_transitions@[t]@[k].dix <= 63);
        }
    }
    let mut frontier = seed_frontier_2d(vi);
    let ghost f0 = frontier@;
    let mut updates: u64 = 0;
    let mut iters: u32 = 0;
    let ghost mut hist: Seq<Seq<(u32, u32)>> = Seq::empty();
    while frontier.popcount() > 0 && iters < max_iter
        invariant
            vi.wf(),
            vi.actions@ == acts,
            n_actions == acts.len(),
            vi.cell_num_x == cnx,
            vi.cell_num_y == cny,
            vi.cell_num_t == cnt,
            nx == cnx,
            ny == cny,
            nt == cnt,
            big_n == nx * ny * nt,
            fits2(cnx as u32, cny as u32),
            states_ok(s0, nx, ny, nt),
            frontier.wf(),
            frontier.width() == nx,
            frontier.height() == ny,
            is_displacement(acts, nt, m),
            m == (mx as int, my as int, mt as int),
            mx < 64,
            f0 == seed_view2(s0, nx, ny, nt),
            hist.len() == iters,
            iters <= max_iter,
            frontier_run2(s0, acts, f0, hist, nx, ny, nt, m, false),
            vi.states@ == rounds2(s0, acts, f0, hist, nx, ny, nt, false).0,
            frontier@ == rounds2(s0, acts, f0, hist, nx, ny, nt, false).1,
            updates == rounds2(s0, acts, f0, hist, nx, ny, nt, false).2,
            updates <= iters * big_n,
        decreases max_iter - iters,
    {
        let ghost p = rounds2(s0, acts, f0, hist, nx, ny, nt, false);
        proof {
            frontier.lemma_shape();
            lemma_count_empty2(frontier@, nx, ny);
            assert(exists|c: (int, int)| set_cells2(frontier@, nx, ny).contains(c)) by {
                if !(exists|c: (int, int)| set_cells2(frontier@, nx, ny).contains(c)) {
                    assert(set_cells2(frontier@, nx, ny) =~= Set::<(int, int)>::empty());
                }
            }
            let c = choose|c: (int, int)| set_cells2(frontier@, nx, ny).contains(c);
            assert(set_cells2(frontier@, nx, ny).contains(c));
        }
        iters += 1;
        let candidates = frontier.dilate(mx as u32, my as u32);
        let cand = candidates.enumerate();
        let ghost cv = cand@;
        proof {
            assert(lists_cells2(cv, dilate_grid(p.1, nx, ny, m.0, m.1), nx, ny));
            lemma_cells2_len(cv, dilate_grid(p.1, nx, ny, m.0, m.1), nx, ny);
            assert((iters - 1) * big_n + big_n == iters * big_n) by (nonlinear_arith);
            assert(iters * big_n <= 0x8000_0000_0000_0000) by (nonlinear_arith)
                requires iters <= u32::MAX, big_n <= i32::MAX, 0 <= big_n;
            assert(cv.len() * nt <= big_n) by (nonlinear_arith) requires cv.len() <= nx * ny, big_n == nx * ny * nt, 0 <= nt;
        }
        let mut new_frontier = Bitboard2D::new(cnx as u32, cny as u32);
        let ghost u0 = updates;
        let mut j: usize = 0;
        while j < cand.len()
            invariant
                vi.wf(),
                vi.actions@ == acts,
                n_actions == acts.len(),
                vi.cell_num_x == cnx,
                vi.cell_num_y == cny,
                vi.cell_num_t == cnt,
                nx == cnx,
                ny == cny,
                nt == cnt,
                fits2(cnx as u32, cny as u32),
                cv == cand@,
                lists_cells2(cv, dilate_grid(p.1, nx, ny, m.0, m.1), nx, ny),
                cv.len() * nt <= big_n,
                0 <= j <= cv.len(),
                new_frontier.wf(),
                new_frontier.width() == nx,
                new_frontier.height() == ny,
                states_ok(p.0, nx, ny, nt),
                vi.states@ == round2(p.0, acts, cv.take(j as int), nx, ny, nt, false).0,
                new_frontier@ == round2(p.0, acts, cv.take(j as int), nx, ny, nt, false).1,
                updates == u0 + round2(p.0, acts, cv.take(j as int), nx, ny, nt, false).2,
                round2(p.0, acts, cv.take(j as int), nx, ny, nt, false).2 <= j * nt,
                u0 + big_n <= 0x8000_0000_0000_0000,
            decreases cv.len() - j,
        {
            let c = cand[j];
            proof {
                assert(set_cells2(dilate_grid(p.1, nx, ny, m.0, m.1), nx, ny).contains((cv[j as int].0 as int, cv[j as int].1 as int)));
                assert(cv.take(j + 1).drop_last() =~= cv.take(j as int));
                assert(cv.take(j + 1).last() == c);
                assert((j + 1) * nt <= cv.len() * nt) by (nonlinear_arith) requires j + 1 <= cv.len(), 0 <= nt;
                assert(j * nt + nt == (j + 1) * nt) by (nonlinear_arith);
            }
            let ghost sc = vi.states@;
            let mut u: u64 = 0;
            let mut it: i32 = 0;
            while it < cnt
                invariant
                    vi.wf(),
                    vi.actions@ == acts,
                    n_actions == acts.len(),
                    vi.cell_num_x == cnx,
                    vi.cell_num_y == cny,
                    vi.cell_num_t == cnt,
                    nx == cnx,
                    ny == cny,
                    nt == cnt,
                    0 <= c.0 < nx,
                    0 <= c.1 < ny,
                    0 <= it <= nt,
                    vi.states@ == column2(sc, acts, c.0 as int, c.1 as int, it as int, nx, ny, nt, false).0,
                    u == column2(sc, acts, c.0 as int, c.1 as int, it as int, nx, ny, nt, false).1,
                    u <= it,
                decreases nt - it,
            {
                proof {
                    lemma_index_bound(c.0 as int, c.1 as int, it as int, nx, ny, nt);
                }
                let idx = vi.to_index(c.0 as i32, c.1 as i32, it) as usize;
                let before = vi.states[idx].total_cost;
                vi.value_iteration_at(idx);
                if vi.states[idx].total_cost < before {
                    u += 1;
                }
                it += 1;
            }
            if u > 0 {
                updates += u;
                new_frontier.set(c.0, c.1);
            }
            j += 1;
        }
        proof {
            assert(cv.take(cv.len() as int) =~= cv);
            let h2 = hist.push(cv);
            assert(h2.drop_last() =~= hist);
            assert forall|r: int| 0 <= r < h2.len() implies {
                let q = #[trigger] rounds2(s0, acts, f0, h2.take(r), nx, ny, nt, false);
                &&& set_cells2(q.1, nx, ny) != Set::<(int, int)>::empty()
                &&& lists_cells2(h2[r], dilate_grid(q.1, nx, ny, m.0, m.1), nx, ny)
            } by {
                if r < hist.len() {
                    assert(h2.take(r) =~= hist.take(r));
                    assert(rounds2(s0, acts, f0, hist.take(r), nx, ny, nt, false) == rounds2(s0, acts, f0, h2.take(r), nx, ny, nt, false));
                } else {
                    assert(h2.take(r) =~= hist);
                }
            }
            hist = h2;
        }
        frontier = new_frontier;
    }
    let converged = frontier.popcount() == 0;
    proof {
        frontier.lemma_shape();
        lemma_count_empty2(frontier@, nx, ny);
    }
    let r = (iters, updates, converged);
    assert(frontier2d_result(old(vi).states@, old(vi).actions@, old(vi).cell_num_x as int, old(vi).cell_num_y as int,
                old(vi).cell_num_t as int, m, hist, vi.states@, r.1, r.2, false)
            && hist.len() == r.0 && (r.2 || r.0 == max_iter));
    proof {
        let s0 = old(vi).states@;
        let acts = old(vi).actions@;
        let nx = old(vi).cell_num_x as int;
        let ny = old(vi).cell_num_y as int;
        let nt = old(vi).cell_num_t as int;
        if agree_ok(s0, acts, nt) && all_reached(s0) && above_best(s0, acts, nx, ny, nt) && r.2 {
            lemma_unclamped_is_padded(s0, acts, nx, ny, nt, m, hist, vi.states@, r.1);
            let gs = lemma_pad_greatest(s0, acts, nx, ny, nt, m, hist, vi.states@, r.1);
            assert(greatest_settled(gs, s0, acts, nx, ny, nt));
        }
    }
    r
}

} // verus!
