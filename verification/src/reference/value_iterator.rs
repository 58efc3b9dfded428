//! The per-state Bellman update of the integer model.
//!
//! States are stored heading-fastest: cell `(ix, iy, it)` lives at
//! `it + ix * nt + iy * (nt * nx)`.  The expected cost of an action from a state
//! sums, over its outcomes, `(total_cost + penalty + local_penalty) * prob` of the
//! outcome cell in wrapping `u64` arithmetic and drops the `PROB_BASE_BIT`
//! fixed-point bits; an outcome off the map or on a blocked cell makes the action
//! cost `MAX_COST`.
use vstd::prelude::*;
use vstd::wrapping::u64_specs;
use crate::reference::params::{MAX_COST, PROB_BASE_BIT};
use crate::reference::state::{Action, State, StateTransition};

verus! {

/// Flat index of cell `(ix, iy, it)`.
pub open spec fn index_of(ix: int, iy: int, it: int, nx: int, nt: int) -> int {
    it + ix * nt + iy * (nt * nx)
}

/// `n` states fill an `nx × ny × nt` grid whose flat indices fit in `i32`.
pub open spec fn layout_ok(n: int, nx: int, ny: int, nt: int) -> bool {
    &&& 0 <= nx
    &&& 0 <= ny
    &&& 0 <= nt
    &&& nx * ny * nt <= i32::MAX
    &&& n == nx * ny * nt
}

/// The coordinates of `s` lie on the grid.
pub open spec fn in_grid(s: State, nx: int, ny: int, nt: int) -> bool {
    0 <= s.ix < nx && 0 <= s.iy < ny && 0 <= s.it < nt
}

/// Adding the offsets of `tr` to a cell of the grid stays within `i32`, and the
/// absolute heading `tr.dit` is at least `-nt`, so `dit + nt` is a valid dividend.
pub open spec fn transition_ok(tr: StateTransition, nx: int, ny: int, nt: int) -> bool {
    &&& tr.dix + nx - 1 <= i32::MAX
    &&& tr.diy + ny - 1 <= i32::MAX
    &&& -nt <= tr.dit
    &&& tr.dit + nt <= i32::MAX
}

/// The action lists outcomes for each of the `nt` headings, all of them `transition_ok`.
pub open spec fn action_ok(a: Action, nx: int, ny: int, nt: int) -> bool {
    &&& a.state_transitions@.len() == nt
    &&& forall|t: int, k: int| 0 <= t < nt && 0 <= k < a.state_transitions@[t]@.len()
        ==> transition_ok(#[trigger] a.state_transitions@[t]@[k], nx, ny, nt)
}

/// Every action is `action_ok`.
pub open spec fn actions_ok(actions: Seq<Action>, nx: int, ny: int, nt: int) -> bool {
    forall|i: int| 0 <= i < actions.len() ==> action_ok(#[trigger] actions[i], nx, ny, nt)
}

/// The outcomes of `a` from the heading of `s`.
pub open spec fn outcomes(a: Action, s: State) -> Seq<StateTransition> {
    a.state_transitions@[s.it as int]@
}

/// The cell an outcome leads to: offsets added, heading wrapped into `0..nt`.
pub open spec fn outcome_cell(s: State, tr: StateTransition, nt: int) -> (int, int, int) {
    (s.ix + tr.dix, s.iy + tr.diy, (tr.dit + nt) % nt)
}

/// The outcome leaves the map or lands on a cell that is not free.
pub open spec fn outcome_blocked(states: Seq<State>, s: State, tr: StateTransition, nx: int, ny: int, nt: int) -> bool {
    let c = outcome_cell(s, tr, nt);
    !(0 <= c.0 < nx && 0 <= c.1 < ny) || !states[index_of(c.0, c.1, c.2, nx, nt)].free
}

/// Weighted cost of an outcome: `(total_cost + penalty + local_penalty) * prob`
/// of the cell it leads to, in wrapping `u64` arithmetic.
pub open spec fn outcome_cost(states: Seq<State>, s: State, tr: StateTransition, nx: int, nt: int) -> u64 {
    let c = outcome_cell(s, tr, nt);
    let after = states[index_of(c.0, c.1, c.2, nx, nt)];
    u64_specs::wrapping_mul(
        u64_specs::wrapping_add(u64_specs::wrapping_add(after.total_cost, after.penalty), after.local_penalty),
        tr.prob as u64,
    )
}

/// Wrapping sum of the weighted costs of `trs`, in order.
pub open spec fn outcomes_sum(states: Seq<State>, s: State, trs: Seq<StateTransition>, nx: int, nt: int) -> u64
    decreases trs.len(),
{
    if trs.len() == 0 {
        0
    } else {
        u64_specs::wrapping_add(outcomes_sum(states, s, trs.drop_last(), nx, nt), outcome_cost(states, s, trs.last(), nx, nt))
    }
}

/// Expected cost of taking an action with outcomes `trs` from `s`: `MAX_COST`
/// when some outcome is blocked, else the weighted sum without its fixed-point bits.
pub open spec fn cost_of(states: Seq<State>, trs: Seq<StateTransition>, s: State, nx: int, ny: int, nt: int) -> u64 {
    if exists|k: int| 0 <= k < trs.len() && #[trigger] outcome_blocked(states, s, trs[k], nx, ny, nt) {
        MAX_COST
    } else {
        outcomes_sum(states, s, trs, nx, nt) >> (PROB_BASE_BIT as u64)
    }
}

/// Every intermediate of `it + ix * nt + iy * (nt * nx)` fits in `i32`.
pub open spec fn index_fits(ix: int, iy: int, it: int, nx: int, nt: int) -> bool {
    &&& i32::MIN <= ix * nt <= i32::MAX
    &&& i32::MIN <= nt * nx <= i32::MAX
    &&& i32::MIN <= iy * (nt * nx) <= i32::MAX
    &&& i32::MIN <= it + ix * nt <= i32::MAX
    &&& i32::MIN <= index_of(ix, iy, it, nx, nt) <= i32::MAX
}

/// Flat index of cell `(ix, iy, it)`: heading fastest, then `x`, then `y`.
pub fn to_index_raw(ix: i32, iy: i32, it: i32, cell_num_x: i32, cell_num_t: i32) -> (r: i32)
    requires
        index_fits(ix as int, iy as int, it as int, cell_num_x as int, cell_num_t as int),
    ensures
        r == index_of(ix as int, iy as int, it as int, cell_num_x as int, cell_num_t as int),
{
    it + ix * cell_num_t + iy * (cell_num_t * cell_num_x)
}

/// The flat index of an in-grid cell lies in `0 .. nx * ny * nt`, and so do its
/// partial sums.
pub proof fn lemma_index_bound(ix: int, iy: int, it: int, nx: int, ny: int, nt: int)
    requires
        0 <= ix < nx,
        0 <= iy < ny,
        0 <= it < nt,
    ensures
        0 <= ix * nt,
        0 <= nt * nx <= nx * ny * nt,
        0 <= iy * (nt * nx),
        0 <= index_of(ix, iy, it, nx, nt) < nx * ny * nt,
        nx * ny * nt <= i32::MAX ==> index_fits(ix, iy, it, nx, nt),
{
    assert(0 <= ix * nt) by (nonlinear_arith) requires 0 <= ix, 0 <= nt;
    assert(0 <= nt * nx <= nx * ny * nt) by (nonlinear_arith) requires 0 < nx, 1 <= ny, 0 < nt;
    assert(0 <= iy * (nt * nx)) by (nonlinear_arith) requires 0 <= iy, 0 <= nt * nx;
    assert(it + ix * nt < nt * nx) by (nonlinear_arith) requires 0 <= it < nt, 0 <= ix < nx;
    assert(iy * (nt * nx) + nt * nx <= nx * ny * nt) by (nonlinear_arith) requires 0 <= iy < ny, 0 <= nt * nx;
}

/// Distinct in-grid cells have distinct flat indices.
pub proof fn lemma_index_inj(x1: int, y1: int, t1: int, x2: int, y2: int, t2: int, nx: int, nt: int)
    requires
        0 <= x1 < nx,
        0 <= x2 < nx,
        0 <= t1 < nt,
        0 <= t2 < nt,
        0 <= y1,
        0 <= y2,
        index_of(x1, y1, t1, nx, nt) == index_of(x2, y2, t2, nx, nt),
    ensures
        x1 == x2 && y1 == y2 && t1 == t2,
{
    assert(index_of(x1, y1, t1, nx, nt) == (y1 * nx + x1) * nt + t1) by (nonlinear_arith);
    assert(index_of(x2, y2, t2, nx, nt) == (y2 * nx + x2) * nt + t2) by (nonlinear_arith);
    assert(0 <= y1 * nx + x1 && 0 <= y2 * nx + x2) by (nonlinear_arith) requires 0 <= y1, 0 <= y2, 0 <= x1, 0 <= x2, 0 < nx;
    crate::bitboard::grid::lemma_index_inj(y1 * nx + x1, t1, y2 * nx + x2, t2, nt);
    crate::bitboard::grid::lemma_index_inj(y1, x1, y2, x2, nx);
}

/// Expected cost of taking `a` from `s`; see [`cost_of`].
pub fn action_cost_raw(states: &Vec<State>, a: &Action, s: &State, cell_num_x: i32, cell_num_y: i32, cell_num_t: i32) -> (r: u64)
    requires
        layout_ok(states@.len() as int, cell_num_x as int, cell_num_y as int, cell_num_t as int),
        in_grid(*s, cell_num_x as int, cell_num_y as int, cell_num_t as int),
        action_ok(*a, cell_num_x as int, cell_num_y as int, cell_num_t as int),
    ensures
        r == cost_of(states@, outcomes(*a, *s), *s, cell_num_x as int, cell_num_y as int, cell_num_t as int),
{
    let ghost nx = cell_num_x as int;
    let ghost ny = cell_num_y as int;
    let ghost nt = cell_num_t as int;
    let trans = &a.state_transitions[s.it as usize];
    let ghost trs = trans@;
    proof {
        assert forall|j: int| 0 <= j < trs.len() implies transition_ok(#[trigger] trs[j], nx, ny, nt) by {
            assert(a.state_transitions@[s.it as int]@[j] == trs[j]);
        }
    }
    let mut cost: u64 = 0;
    let mut k: usize = 0;
    while k < trans.len()
        invariant
            trs == trans@,
            trs == outcomes(*a, *s),
            0 <= k <= trs.len(),
            layout_ok(states@.len() as int, nx, ny, nt),
            in_grid(*s, nx, ny, nt),
            nx == cell_num_x,
            ny == cell_num_y,
            nt == cell_num_t,
            forall|j: int| 0 <= j < trs.len() ==> transition_ok(#[trigger] trs[j], nx, ny, nt),
            forall|j: int| 0 <= j < k ==> !#[trigger] outcome_blocked(states@, *s, trs[j], nx, ny, nt),
            cost == outcomes_sum(states@, *s, trs.take(k as int), nx, nt),
        decreases trs.len() - k,
    {
        let tran = &trans[k];
        proof {
            assert(transition_ok(trs[k as int], nx, ny, nt));
        }
        let ix = s.ix + tran.dix;
        if ix < 0 || ix >= cell_num_x {
            proof {
                assert(outcome_blocked(states@, *s, trs[k as int], nx, ny, nt));
            }
            return MAX_COST;
        }
        let iy = s.iy + tran.diy;
        if iy < 0 || iy >= cell_num_y {
            proof {
                assert(outcome_blocked(states@, *s, trs[k as int], nx, ny, nt));
            }
            return MAX_COST;
        }
        let it = (tran.dit + cell_num_t) % cell_num_t;
        proof {
            lemma_index_bound(ix as int, iy as int, it as int, nx, ny, nt);
        }
        let idx = to_index_raw(ix, iy, it, cell_num_x, cell_num_t) as usize;
        let after = &states[idx];
        if !after.free {
            proof {
                assert(outcome_blocked(states@, *s, trs[k as int], nx, ny, nt));
            }
            return MAX_COST;
        }
        let term = after.total_cost.wrapping_add(after.penalty).wrapping_add(after.local_penalty).wrapping_mul(#[verifier::truncate] (tran.prob as u64));
        proof {
            assert(term == outcome_cost(states@, *s, trs[k as int], nx, nt));
            assert(trs.take(k + 1).drop_last() =~= trs.take(k as int));
        }
        cost = cost.wrapping_add(term);
        k += 1;
    }
    proof {
        assert(trs.take(k as int) =~= trs);
    }
    cost >> PROB_BASE_BIT
}

/// `(m, opt)` is the best action from `s`: `m` is the least action cost, capped
/// at `MAX_COST`, and `opt` the first action reaching it, or `None` when no
/// action costs less than `MAX_COST`.
pub open spec fn best_action(states: Seq<State>, actions: Seq<Action>, s: State, nx: int, ny: int, nt: int, m: u64, opt: Option<usize>) -> bool {
    &&& m <= MAX_COST
    &&& forall|a: int| 0 <= a < actions.len() ==> m <= #[trigger] cost_of(states, outcomes(actions[a], s), s, nx, ny, nt)
    &&& match opt {
        None => m == MAX_COST,
        Some(i) => {
            &&& i < actions.len()
            &&& m < MAX_COST
            &&& cost_of(states, outcomes(actions[i as int], s), s, nx, ny, nt) == m
            &&& forall|j: int| 0 <= j < i ==> m < #[trigger] cost_of(states, outcomes(actions[j], s), s, nx, ny, nt)
        },
    }
}

/// The best action over `actions`, scanning them in order and keeping the first
/// strictly cheaper one, starting from `(MAX_COST, None)`.
pub open spec fn best_of(states: Seq<State>, actions: Seq<Action>, s: State, nx: int, ny: int, nt: int) -> (u64, Option<usize>)
    decreases actions.len(),
{
    if actions.len() == 0 {
        (MAX_COST, None)
    } else {
        let prev = best_of(states, actions.drop_last(), s, nx, ny, nt);
        let c = cost_of(states, outcomes(actions.last(), s), s, nx, ny, nt);
        if c < prev.0 {
            (c, Some((actions.len() - 1) as usize))
        } else {
            prev
        }
    }
}

/// [`best_of`] is the best action in the sense of [`best_action`], and that
/// sense admits exactly one answer.
pub proof fn lemma_best_of(states: Seq<State>, actions: Seq<Action>, s: State, nx: int, ny: int, nt: int, m: u64, opt: Option<usize>)
    requires
        actions.len() <= usize::MAX,
    ensures
        best_action(states, actions, s, nx, ny, nt, best_of(states, actions, s, nx, ny, nt).0, best_of(states, actions, s, nx, ny, nt).1),
        best_action(states, actions, s, nx, ny, nt, m, opt) ==> (m, opt) == best_of(states, actions, s, nx, ny, nt),
    decreases actions.len(),
{
    let b = best_of(states, actions, s, nx, ny, nt);
    if actions.len() > 0 {
        let pa = actions.drop_last();
        let pb = best_of(states, pa, s, nx, ny, nt);
        let last = (actions.len() - 1) as int;
        let c = cost_of(states, outcomes(actions[last], s), s, nx, ny, nt);
        lemma_best_of(states, pa, s, nx, ny, nt, m, opt);
        assert forall|a: int| 0 <= a < pa.len() implies #[trigger] pa[a] == actions[a] by {}
        assert forall|a: int| 0 <= a < actions.len() implies b.0 <= #[trigger] cost_of(states, outcomes(actions[a], s), s, nx, ny, nt) by {
            if a < last {
                assert(pa[a] == actions[a]);
                assert(pb.0 <= cost_of(states, outcomes(pa[a], s), s, nx, ny, nt));
            }
        }
        match b.1 {
            Some(i) => {
                assert forall|j: int| 0 <= j < i implies b.0 < #[trigger] cost_of(states, outcomes(actions[j], s), s, nx, ny, nt) by {
                    assert(pa[j] == actions[j]);
                    assert(pb.0 <= cost_of(states, outcomes(pa[j], s), s, nx, ny, nt));
                    if i as int != last {
                        assert(b == pb);
                        assert(pb.0 < cost_of(states, outcomes(pa[j], s), s, nx, ny, nt));
                    }
                }
                if i as int != last {
                    assert(pa[i as int] == actions[i as int]);
                }
            },
            None => {},
        }
        assert(best_action(states, actions, s, nx, ny, nt, b.0, b.1));
    }
    if best_action(states, actions, s, nx, ny, nt, m, opt) {
        match opt {
            Some(i) => {
                match b.1 {
                    Some(i2) => {
                        if i < i2 {
                            assert(b.0 < cost_of(states, outcomes(actions[i as int], s), s, nx, ny, nt));
                        } else if i2 < i {
                            assert(m < cost_of(states, outcomes(actions[i2 as int], s), s, nx, ny, nt));
                        }
                    },
                    None => {
                        assert(b.0 <= cost_of(states, outcomes(actions[i as int], s), s, nx, ny, nt));
                    },
                }
            },
            None => {
                match b.1 {
                    Some(i2) => {
                        assert(m <= cost_of(states, outcomes(actions[i2 as int], s), s, nx, ny, nt));
                    },
                    None => {},
                }
            },
        }
    }
}

/// The states after the per-state update of `states[idx]`.
pub open spec fn update_at(states: Seq<State>, actions: Seq<Action>, idx: int, nx: int, ny: int, nt: int) -> Seq<State> {
    if updatable(states, idx) {
        let b = best_of(states, actions, states[idx], nx, ny, nt);
        states.update(idx, State { total_cost: b.0, optimal_action: b.1, ..states[idx] })
    } else {
        states
    }
}

/// How far the per-state update of `states[idx]` moves its cost.
pub open spec fn delta_at(states: Seq<State>, actions: Seq<Action>, idx: int, nx: int, ny: int, nt: int) -> u64 {
    let o = states[idx].total_cost;
    let n = update_at(states, actions, idx, nx, ny, nt)[idx].total_cost;
    if n >= o { (n - o) as u64 } else { (o - n) as u64 }
}

/// The state at `idx` takes part in the update: it is free and outside the goal.
pub open spec fn updatable(states: Seq<State>, idx: int) -> bool {
    states[idx].free && !states[idx].final_state
}

/// Requirements of the per-state update of `states[idx]`.
pub open spec fn update_ok(states: Seq<State>, actions: Seq<Action>, idx: int, nx: int, ny: int, nt: int) -> bool {
    &&& layout_ok(states.len() as int, nx, ny, nt)
    &&& actions_ok(actions, nx, ny, nt)
    &&& 0 <= idx < states.len()
    &&& in_grid(states[idx], nx, ny, nt)
}

/// The best action from `states[idx]` without writing it: `None` for a blocked
/// or goal state, otherwise `Some((cost, action))` as [`best_action`] describes.
pub fn min_action_cost(states: &Vec<State>, actions: &Vec<Action>, idx: usize, cell_num_x: i32, cell_num_y: i32, cell_num_t: i32)
    -> (r: Option<(u64, Option<usize>)>)
    requires
        update_ok(states@, actions@, idx as int, cell_num_x as int, cell_num_y as int, cell_num_t as int),
    ensures
        r is None <==> !updatable(states@, idx as int),
        r matches Some(p) ==> best_action(states@, actions@, states@[idx as int], cell_num_x as int, cell_num_y as int, cell_num_t as int, p.0, p.1),
{
    if !states[idx].free || states[idx].final_state {
        return None;
    }
    let ghost nx = cell_num_x as int;
    let ghost ny = cell_num_y as int;
    let ghost nt = cell_num_t as int;
    let mut min_cost: u64 = MAX_COST;
    let mut min_action: Option<usize> = None;
    let s = &states[idx];
    let mut ai: usize = 0;
    while ai < actions.len()
        invariant
            0 <= ai <= actions.len(),
            *s == states@[idx as int],
            update_ok(states@, actions@, idx as int, nx, ny, nt),
            nx == cell_num_x,
            ny == cell_num_y,
            nt == cell_num_t,
            best_action(states@, actions@.take(ai as int), *s, nx, ny, nt, min_cost, min_action),
        decreases actions.len() - ai,
    {
        proof {
            assert(action_ok(actions@[ai as int], nx, ny, nt));
        }
        let c = action_cost_raw(states, &actions[ai], s, cell_num_x, cell_num_y, cell_num_t);
        let ghost prev = actions@.take(ai as int);
        let ghost next = actions@.take(ai + 1);
        proof {
            assert forall|a: int| 0 <= a < ai implies next[a] == #[trigger] prev[a] by {}
            assert(next[ai as int] == actions@[ai as int]);
        }
        if c < min_cost {
            min_cost = c;
            min_action = Some(ai);
        }
        proof {
            assert forall|a: int| 0 <= a < next.len() implies min_cost <= #[trigger] cost_of(states@, outcomes(next[a], *s), *s, nx, ny, nt) by {
                if a < ai {
                    assert(next[a] == prev[a]);
                }
            }
            match min_action {
                Some(i) => {
                    assert(cost_of(states@, outcomes(next[i as int], *s), *s, nx, ny, nt) == min_cost) by {
                        if i < ai {
                            assert(next[i as int] == prev[i as int]);
                        }
                    }
                    assert forall|j: int| 0 <= j < i implies min_cost < #[trigger] cost_of(states@, outcomes(next[j], *s), *s, nx, ny, nt) by {
                        assert(next[j] == prev[j]);
                    }
                },
                None => {},
            }
        }
        ai += 1;
    }
    proof {
        assert(actions@.take(ai as int) =~= actions@);
    }
    Some((min_cost, min_action))
}

/// The per-state Bellman update: a free state outside the goal takes the cost and
/// the index of its best action; the result is how far its cost moved.  Blocked
/// and goal states are left alone and give `0`.
pub fn value_iteration_raw(states: &mut Vec<State>, actions: &Vec<Action>, idx: usize, cell_num_x: i32, cell_num_y: i32, cell_num_t: i32)
    -> (r: u64)
    requires
        update_ok(old(states)@, actions@, idx as int, cell_num_x as int, cell_num_y as int, cell_num_t as int),
        old(states)@[idx as int].total_cost <= i64::MAX,
    ensures
        final(states)@ == update_at(old(states)@, actions@, idx as int, cell_num_x as int, cell_num_y as int, cell_num_t as int),
        r == delta_at(old(states)@, actions@, idx as int, cell_num_x as int, cell_num_y as int, cell_num_t as int),
        updatable(old(states)@, idx as int) ==> best_action(old(states)@, actions@, old(states)@[idx as int],
            cell_num_x as int, cell_num_y as int, cell_num_t as int,
            final(states)@[idx as int].total_cost, final(states)@[idx as int].optimal_action),
{
    let res = min_action_cost(states, actions, idx, cell_num_x, cell_num_y, cell_num_t);
    match res {
        None => 0,
        Some((min_cost, min_action)) => {
            let n_actions = actions.len();
            proof {
                lemma_best_of(states@, actions@, states@[idx as int], cell_num_x as int, cell_num_y as int, cell_num_t as int, min_cost, min_action);
            }
            let mut st = states[idx];
            let old_cost = st.total_cost;
            let delta: i64 = (min_cost as i64) - (old_cost as i64);
            st.total_cost = min_cost;
            st.optimal_action = min_action;
            states.set(idx, st);
            if delta < 0 {
                (-delta) as u64
            } else {
                delta as u64
            }
        },
    }
}

/// Layout invariant of the states of an `nx × ny × nt` grid: one state per
/// cell, stored at the index of its coordinates, with costs that fit in `i64`.
pub open spec fn states_ok(states: Seq<State>, nx: int, ny: int, nt: int) -> bool {
    &&& layout_ok(states.len() as int, nx, ny, nt)
    &&& forall|i: int| 0 <= i < states.len() ==> {
        &&& in_grid(#[trigger] states[i], nx, ny, nt)
        &&& index_of(states[i].ix as int, states[i].iy as int, states[i].it as int, nx, nt) == i
        &&& states[i].total_cost <= i64::MAX
    }
}

/// The per-state update keeps the layout invariant and moves no other state.
pub proof fn lemma_update_keeps(states: Seq<State>, actions: Seq<Action>, idx: int, nx: int, ny: int, nt: int)
    requires
        states_ok(states, nx, ny, nt),
        actions.len() <= usize::MAX,
        0 <= idx < states.len(),
    ensures
        states_ok(update_at(states, actions, idx, nx, ny, nt), nx, ny, nt),
        update_at(states, actions, idx, nx, ny, nt).len() == states.len(),
        forall|i: int| 0 <= i < states.len() && i != idx ==> #[trigger] update_at(states, actions, idx, nx, ny, nt)[i] == states[i],
        update_at(states, actions, idx, nx, ny, nt)[idx].total_cost <= MAX_COST || update_at(states, actions, idx, nx, ny, nt)[idx] == states[idx],
{
    lemma_best_of(states, actions, states[idx], nx, ny, nt, 0, None);
}

/// The states after updating indices `0 .. k` in order.
pub open spec fn sweep_upto(states: Seq<State>, actions: Seq<Action>, k: int, nx: int, ny: int, nt: int) -> Seq<State>
    decreases k,
{
    if k <= 0 {
        states
    } else {
        update_at(sweep_upto(states, actions, k - 1, nx, ny, nt), actions, k - 1, nx, ny, nt)
    }
}

/// The largest cost change over the updates of indices `0 .. k`.
pub open spec fn sweep_delta(states: Seq<State>, actions: Seq<Action>, k: int, nx: int, ny: int, nt: int) -> u64
    decreases k,
{
    if k <= 0 {
        0
    } else {
        let prev = sweep_delta(states, actions, k - 1, nx, ny, nt);
        let d = delta_at(sweep_upto(states, actions, k - 1, nx, ny, nt), actions, k - 1, nx, ny, nt);
        if d > prev { d } else { prev }
    }
}

/// One full sweep: every state updated once, in index order.
pub open spec fn sweep_spec(states: Seq<State>, actions: Seq<Action>, nx: int, ny: int, nt: int) -> Seq<State> {
    sweep_upto(states, actions, states.len() as int, nx, ny, nt)
}

/// Partial sweeps keep the layout invariant and the number of states.
pub proof fn lemma_sweep_keeps(states: Seq<State>, actions: Seq<Action>, k: int, nx: int, ny: int, nt: int)
    requires
        states_ok(states, nx, ny, nt),
        actions.len() <= usize::MAX,
        0 <= k <= states.len(),
    ensures
        states_ok(sweep_upto(states, actions, k, nx, ny, nt), nx, ny, nt),
        sweep_upto(states, actions, k, nx, ny, nt).len() == states.len(),
    decreases k,
{
    if k > 0 {
        lemma_sweep_keeps(states, actions, k - 1, nx, ny, nt);
        lemma_update_keeps(sweep_upto(states, actions, k - 1, nx, ny, nt), actions, k - 1, nx, ny, nt);
    }
}

/// The states, actions and grid size that the solvers work on.
pub struct StateSpace {
    pub states: Vec<State>,
    pub actions: Vec<Action>,
    pub cell_num_x: i32,
    pub cell_num_y: i32,
    pub cell_num_t: i32,
}

impl StateSpace {
    /// The layout invariant of states and actions.
    pub open spec fn wf(&self) -> bool {
        &&& states_ok(self.states@, self.cell_num_x as int, self.cell_num_y as int, self.cell_num_t as int)
        &&& actions_ok(self.actions@, self.cell_num_x as int, self.cell_num_y as int, self.cell_num_t as int)
    }

    /// The space of the given states and actions, or `None` when they break the
    /// layout invariant.
    pub fn new(states: Vec<State>, actions: Vec<Action>, cell_num_x: i32, cell_num_y: i32, cell_num_t: i32) -> (r: Option<Self>)
        ensures
            r is Some <==> (states_ok(states@, cell_num_x as int, cell_num_y as int, cell_num_t as int)
                && actions_ok(actions@, cell_num_x as int, cell_num_y as int, cell_num_t as int)),
            r matches Some(sp) ==> sp.states@ == states@ && sp.actions@ == actions@ && sp.cell_num_x == cell_num_x
                && sp.cell_num_y == cell_num_y && sp.cell_num_t == cell_num_t,
    {
        let ghost nx = cell_num_x as int;
        let ghost ny = cell_num_y as int;
        let ghost nt = cell_num_t as int;
        if cell_num_x < 0 || cell_num_y < 0 || cell_num_t < 0 {
            return None;
        }
        proof {
            assert(0 <= nx * ny <= 0x4000_0000_0000_0000) by (nonlinear_arith)
                requires 0 <= nx <= i32::MAX, 0 <= ny <= i32::MAX;
        }
        let pxy: i64 = (cell_num_x as i64) * (cell_num_y as i64);
        let total: i64 = if cell_num_t == 0 {
            0
        } else if pxy > i32::MAX as i64 {
            proof {
                assert(nx * ny * nt > i32::MAX) by (nonlinear_arith) requires nx * ny > i32::MAX, nt >= 1;
            }
            return None;
        } else {
            proof {
                assert(0 <= pxy * nt <= 0x4000_0000_0000_0000) by (nonlinear_arith)
                    requires 0 <= pxy <= i32::MAX, 0 <= nt <= i32::MAX;
            }
            pxy * (cell_num_t as i64)
        };
        proof {
            if cell_num_t == 0 {
                assert(nx * ny * nt == 0) by (nonlinear_arith) requires nt == 0;
            }
        }
        if total > i32::MAX as i64 || states.len() != total as usize {
            return None;
        }
        let mut i: usize = 0;
        while i < states.len()
            invariant
                0 <= i <= states@.len(),
                layout_ok(states@.len() as int, nx, ny, nt),
                nx == cell_num_x,
                ny == cell_num_y,
                nt == cell_num_t,
                forall|j: int| 0 <= j < i ==> {
                    &&& in_grid(#[trigger] states@[j], nx, ny, nt)
                    &&& index_of(states@[j].ix as int, states@[j].iy as int, states@[j].it as int, nx, nt) == j
                    &&& states@[j].total_cost <= i64::MAX
                },
            decreases states@.len() - i,
        {
            let s = &states[i];
            if s.ix < 0 || s.ix >= cell_num_x || s.iy < 0 || s.iy >= cell_num_y || s.it < 0 || s.it >= cell_num_t
                || s.total_cost > i64::MAX as u64 {
                return None;
            }
            proof {
                lemma_index_bound(s.ix as int, s.iy as int, s.it as int, nx, ny, nt);
            }
            if to_index_raw(s.ix, s.iy, s.it, cell_num_x, cell_num_t) as usize != i {
                return None;
            }
            i += 1;
        }
        let mut a: usize = 0;
        while a < actions.len()
            invariant
                0 <= a <= actions@.len(),
                nx == cell_num_x,
                ny == cell_num_y,
                nt == cell_num_t,
                0 <= nt,
                forall|j: int| 0 <= j < a ==> action_ok(#[trigger] actions@[j], nx, ny, nt),
            decreases actions@.len() - a,
        {
            let trs = &actions[a].state_transitions;
            if trs.len() != cell_num_t as usize {
                proof {
                    assert(!action_ok(actions@[a as int], nx, ny, nt));
                }
                return None;
            }
            let mut t: usize = 0;
            while t < trs.len()
                invariant
                    0 <= a < actions@.len(),
                    0 <= t <= trs@.len(),
                    trs@ == actions@[a as int].state_transitions@,
                    trs@.len() == nt,
                    nx == cell_num_x,
                    ny == cell_num_y,
                    nt == cell_num_t,
                    forall|t2: int, k: int| 0 <= t2 < t && 0 <= k < trs@[t2]@.len()
                        ==> transition_ok(#[trigger] trs@[t2]@[k], nx, ny, nt),
                decreases trs@.len() - t,
            {
                let list = &trs[t];
                let mut k: usize = 0;
                while k < list.len()
                    invariant
                        0 <= a < actions@.len(),
                        0 <= t < trs@.len(),
                        trs@ == actions@[a as int].state_transitions@,
                        0 <= k <= list@.len(),
                        list@ == trs@[t as int]@,
                        nx == cell_num_x,
                        ny == cell_num_y,
                        nt == cell_num_t,
                        forall|k2: int| 0 <= k2 < k ==> transition_ok(#[trigger] list@[k2], nx, ny, nt),
                    decreases list@.len() - k,
                {
                    let tr = &list[k];
                    if (tr.dix as i64) + (cell_num_x as i64) - 1 > i32::MAX as i64
                        || (tr.diy as i64) + (cell_num_y as i64) - 1 > i32::MAX as i64
                        || (tr.dit as i64) < -(cell_num_t as i64)
                        || (tr.dit as i64) + (cell_num_t as i64) > i32::MAX as i64 {
                        proof {
                            assert(!transition_ok(actions@[a as int].state_transitions@[t as int]@[k as int], nx, ny, nt));
                            assert(!action_ok(actions@[a as int], nx, ny, nt));
                        }
                        return None;
                    }
                    k += 1;
                }
                t += 1;
            }
            a += 1;
        }
        Some(StateSpace { states, actions, cell_num_x, cell_num_y, cell_num_t })
    }

    /// Flat index of cell `(ix, iy, it)`.
    pub fn to_index(&self, ix: i32, iy: i32, it: i32) -> (r: i32)
        requires
            index_fits(ix as int, iy as int, it as int, self.cell_num_x as int, self.cell_num_t as int),
        ensures
            r == index_of(ix as int, iy as int, it as int, self.cell_num_x as int, self.cell_num_t as int),
    {
        to_index_raw(ix, iy, it, self.cell_num_x, self.cell_num_t)
    }

    /// The cell `(ix, iy)` lies on the map.
    pub fn in_map_area(&self, ix: i32, iy: i32) -> (r: bool)
        ensures
            r == (0 <= ix < self.cell_num_x && 0 <= iy < self.cell_num_y),
    {
        ix >= 0 && ix < self.cell_num_x && iy >= 0 && iy < self.cell_num_y
    }

    /// Expected cost of taking `a` from `s`.
    pub fn action_cost(&self, s: &State, a: &Action) -> (r: u64)
        requires
            self.wf(),
            in_grid(*s, self.cell_num_x as int, self.cell_num_y as int, self.cell_num_t as int),
            action_ok(*a, self.cell_num_x as int, self.cell_num_y as int, self.cell_num_t as int),
        ensures
            r == cost_of(self.states@, outcomes(*a, *s), *s, self.cell_num_x as int, self.cell_num_y as int, self.cell_num_t as int),
    {
        action_cost_raw(&self.states, a, s, self.cell_num_x, self.cell_num_y, self.cell_num_t)
    }

    /// The per-state update of `states[idx]`.
    pub fn value_iteration_at(&mut self, idx: usize) -> (r: u64)
        requires
            old(self).wf(),
            idx < old(self).states@.len(),
        ensures
            final(self).wf(),
            final(self).actions@ == old(self).actions@,
            final(self).cell_num_x == old(self).cell_num_x,
            final(self).cell_num_y == old(self).cell_num_y,
            final(self).cell_num_t == old(self).cell_num_t,
            final(self).states@ == update_at(old(self).states@, old(self).actions@, idx as int,
                old(self).cell_num_x as int, old(self).cell_num_y as int, old(self).cell_num_t as int),
            r == delta_at(old(self).states@, old(self).actions@, idx as int,
                old(self).cell_num_x as int, old(self).cell_num_y as int, old(self).cell_num_t as int),
    {
        let n_actions = self.actions.len();
        proof {
            lemma_update_keeps(self.states@, self.actions@, idx as int, self.cell_num_x as int, self.cell_num_y as int, self.cell_num_t as int);
        }
        value_iteration_raw(&mut self.states, &self.actions, idx, self.cell_num_x, self.cell_num_y, self.cell_num_t)
    }

    /// One full sweep in index order; the result is the largest cost change.
    pub fn sweep(&mut self) -> (r: u64)
        requires
            old(self).wf(),
        ensures
            final(self).wf(),
            final(self).actions@ == old(self).actions@,
            final(self).cell_num_x == old(self).cell_num_x,
            final(self).cell_num_y == old(self).cell_num_y,
            final(self).cell_num_t == old(self).cell_num_t,
            final(self).states@ == sweep_spec(old(self).states@, old(self).actions@,
                old(self).cell_num_x as int, old(self).cell_num_y as int, old(self).cell_num_t as int),
            r == sweep_delta(old(self).states@, old(self).actions@, old(self).states@.len() as int,
                old(self).cell_num_x as int, old(self).cell_num_y as int, old(self).cell_num_t as int),
    {
        let ghost s0 = self.states@;
        let ghost nx = self.cell_num_x as int;
        let ghost ny = self.cell_num_y as int;
        let ghost nt = self.cell_num_t as int;
        let n = self.states.len();
        let n_actions = self.actions.len();
        let mut max_delta: u64 = 0;
        let mut i: usize = 0;
        while i < n
            invariant
                0 <= i <= n,
                n == s0.len(),
                n_actions == self.actions@.len(),
                self.actions@ == old(self).actions@,
                self.cell_num_x == nx,
                self.cell_num_y == ny,
                self.cell_num_t == nt,
                self.cell_num_x == old(self).cell_num_x,
                self.cell_num_y == old(self).cell_num_y,
                self.cell_num_t == old(self).cell_num_t,
                s0 == old(self).states@,
                states_ok(s0, nx, ny, nt),
                actions_ok(self.actions@, nx, ny, nt),
                self.states@ == sweep_upto(s0, self.actions@, i as int, nx, ny, nt),
                max_delta == sweep_delta(s0, self.actions@, i as int, nx, ny, nt),
            decreases n - i,
        {
            proof {
                lemma_sweep_keeps(s0, self.actions@, i as int, nx, ny, nt);
            }
            let d = self.value_iteration_at(i);
            if d > max_delta {
                max_delta = d;
            }
            i += 1;
        }
        proof {
            lemma_sweep_keeps(s0, self.actions@, n as int, nx, ny, nt);
        }
        max_delta
    }
}

} // verus!
