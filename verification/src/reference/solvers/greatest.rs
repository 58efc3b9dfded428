//! Where the clamped lowering solvers end.  From capped starting costs, with
//! an outcome for every action, non-negative outcome weights of total at most
//! `PROB_BASE` and costs that stay clear of `u64` wrap-around, the clamped
//! update is monotone on the states reachable from the start.  Every state that
//! can no longer be lowered and lies below the start then stays below the
//! running costs, so a converged run ends at the greatest such state: the same
//! for every solver that only lowers costs by the clamped update, whatever the
//! order of its updates.
use vstd::prelude::*;
use vstd::wrapping::u64_specs;
use crate::reference::params::{MAX_COST, PROB_BASE, PROB_BASE_BIT};
use crate::reference::state::{Action, State, StateTransition};
use crate::reference::value_iterator::{index_of, states_ok, outcomes, outcome_cell, outcome_blocked, outcomes_sum,
    outcome_cost, updatable, in_grid};
use crate::reference::solvers::fused::{clamped_cost, clamped_best, outcome_unreached};
use crate::reference::solvers::settle::{improvable, settled, capped, nonempty_outcomes, lemma_best_witness, lemma_coords};
use crate::reference::solvers::topk::probs_ok;
use crate::reference::solvers::settle::{cells_ok, lemma_round_apply};
use crate::reference::solvers::par::{jround2, jrounds2};
use crate::reference::solvers::par_unsafe::{gs_column, gs_round, gs_rounds};

verus! {

/// The largest cost a reached state may reach for the weighted sums of the
/// clamped update to stay within `u64`: `u64::MAX >> PROB_BASE_BIT`.
pub const COST_ROOM: u64 = 70_368_744_177_663;

/// `q` is `s` with some costs lowered and nothing else changed.
pub open spec fn below(s: Seq<State>, q: Seq<State>) -> bool {
    &&& q.len() == s.len()
    &&& forall|j: int| 0 <= j < s.len() ==> #[trigger] q[j] == (State { total_cost: q[j].total_cost, ..s[j] })
        && q[j].total_cost <= s[j].total_cost
}

/// Every cost of `w` is at most the cost of the same state in `v`.
pub open spec fn costs_le(w: Seq<State>, v: Seq<State>) -> bool {
    &&& w.len() == v.len()
    &&& forall|j: int| 0 <= j < w.len() ==> (#[trigger] w[j]).total_cost <= v[j].total_cost
}

/// Largest cost below `MAX_COST` in `s`, `0` when there is none.
pub open spec fn max_reached(s: Seq<State>) -> u64
    decreases s.len(),
{
    if s.len() == 0 {
        0
    } else {
        let m = max_reached(s.drop_last());
        let c = s.last().total_cost;
        if c < MAX_COST && c > m { c } else { m }
    }
}

/// Largest penalty or local penalty in `s`, `0` when `s` is empty.
pub open spec fn max_pen(s: Seq<State>) -> u64
    decreases s.len(),
{
    if s.len() == 0 {
        0
    } else {
        let m = max_pen(s.drop_last());
        let p = if s.last().penalty > s.last().local_penalty { s.last().penalty } else { s.last().local_penalty };
        if p > m { p } else { m }
    }
}

/// Number of states of `s` whose cost is below `MAX_COST`.
pub open spec fn reach_count(s: Seq<State>) -> nat
    decreases s.len(),
{
    if s.len() == 0 {
        0
    } else {
        reach_count(s.drop_last()) + if s.last().total_cost < MAX_COST { 1nat } else { 0nat }
    }
}

/// Sum of the outcome weights of `trs`.
pub open spec fn prob_mass(trs: Seq<StateTransition>) -> int
    decreases trs.len(),
{
    if trs.len() == 0 {
        0
    } else {
        prob_mass(trs.drop_last()) + trs.last().prob
    }
}

/// The outcome weights of every action from every heading total at most `PROB_BASE`.
pub open spec fn mass_ok(acts: Seq<Action>, nt: int) -> bool {
    forall|a: int, t: int| 0 <= a < acts.len() && 0 <= t < nt ==> prob_mass(#[trigger] acts[a].state_transitions@[t]@) <= PROB_BASE
}

/// The bound on the reached costs of `v` in a run from `s0`: the largest
/// reached starting cost, plus two penalties for every reached state.
pub open spec fn room(v: Seq<State>, s0: Seq<State>) -> int {
    max_reached(s0) + reach_count(v) * (2 * max_pen(s0))
}

/// Every reached cost of `v` is within [`room`].
pub open spec fn bounded(v: Seq<State>, s0: Seq<State>) -> bool {
    forall|j: int| 0 <= j < v.len() && (#[trigger] v[j]).total_cost < MAX_COST ==> v[j].total_cost <= room(v, s0)
}

/// The conditions under which the clamped lowering solvers end at the greatest
/// settled state below the start: capped starting costs, an outcome for every
/// action and heading, non-negative weights of total at most `PROB_BASE`, and
/// reached costs that cannot grow past [`COST_ROOM`] by adding two penalties for
/// every state of the grid.
pub open spec fn agree_ok(s0: Seq<State>, acts: Seq<Action>, nt: int) -> bool {
    &&& capped(s0)
    &&& nonempty_outcomes(acts, nt)
    &&& probs_ok(acts)
    &&& mass_ok(acts, nt)
    &&& forall|a: int| 0 <= a < acts.len() ==> (#[trigger] acts[a]).state_transitions@.len() == nt
    &&& max_reached(s0) + (s0.len() + 1) * (2 * max_pen(s0)) <= COST_ROOM
}

/// `f` lies below `s0` and no state of it can be lowered by the clamped update.
pub open spec fn fixed_below(f: Seq<State>, s0: Seq<State>, acts: Seq<Action>, nx: int, ny: int, nt: int) -> bool {
    below(s0, f) && settled(f, acts, nx, ny, nt)
}

/// Every state below `s0` that cannot be lowered has costs at most those of `v`.
pub open spec fn above_fixed(v: Seq<State>, s0: Seq<State>, acts: Seq<Action>, nx: int, ny: int, nt: int) -> bool {
    forall|f: Seq<State>| #[trigger] fixed_below(f, s0, acts, nx, ny, nt) ==> costs_le(f, v)
}

/// What a clamped lowering run keeps from a start `s0` that meets [`agree_ok`]:
/// its costs lie below the start and within [`room`], and above every settled
/// state below the start.
pub open spec fn lowering_inv(v: Seq<State>, s0: Seq<State>, acts: Seq<Action>, nx: int, ny: int, nt: int) -> bool {
    &&& below(s0, v)
    &&& bounded(v, s0)
    &&& above_fixed(v, s0, acts, nx, ny, nt)
}

/// `r` is the greatest state below `s0` that the clamped update cannot lower.
pub open spec fn greatest_settled(r: Seq<State>, s0: Seq<State>, acts: Seq<Action>, nx: int, ny: int, nt: int) -> bool {
    fixed_below(r, s0, acts, nx, ny, nt) && above_fixed(r, s0, acts, nx, ny, nt)
}

/// `s` holds, for the settled state `r` below `s0`, what the fused-layout
/// solvers write back: the cost of `r` on every free cell it reached and
/// `MAX_COST` elsewhere, and the clamped best action of every cell that takes
/// part in the update.
pub open spec fn settled_outcome(s: Seq<State>, r: Seq<State>, s0: Seq<State>, acts: Seq<Action>, nx: int, ny: int, nt: int) -> bool {
    &&& s.len() == s0.len()
    &&& forall|k: int| 0 <= k < s0.len() ==> (#[trigger] s[k]).total_cost
            == (if s0[k].free && r[k].total_cost != MAX_COST { r[k].total_cost } else { MAX_COST })
    &&& forall|k: int| 0 <= k < s0.len() ==> (#[trigger] s[k]).optimal_action
            == (if updatable(r, k) { clamped_best(r, acts, r[k], nx, ny, nt).1 } else { None })
}

pub proof fn lemma_below_trans(a: Seq<State>, b: Seq<State>, c: Seq<State>)
    requires
        below(a, b),
        below(b, c),
    ensures
        below(a, c),
{
    assert forall|j: int| 0 <= j < a.len() implies #[trigger] c[j] == (State { total_cost: c[j].total_cost, ..a[j] })
        && c[j].total_cost <= a[j].total_cost by {
        assert(b[j] == (State { total_cost: b[j].total_cost, ..a[j] }));
        assert(c[j] == (State { total_cost: c[j].total_cost, ..b[j] }));
    }
}

/// A state below a laid-out start is laid out.
pub proof fn lemma_below_ok(s0: Seq<State>, v: Seq<State>, nx: int, ny: int, nt: int)
    requires
        states_ok(s0, nx, ny, nt),
        below(s0, v),
    ensures
        states_ok(v, nx, ny, nt),
{
    assert forall|i: int| 0 <= i < v.len() implies {
        &&& in_grid(#[trigger] v[i], nx, ny, nt)
        &&& index_of(v[i].ix as int, v[i].iy as int, v[i].it as int, nx, nt) == i
        &&& v[i].total_cost <= i64::MAX
    } by {
        assert(in_grid(s0[i], nx, ny, nt));
        assert(v[i] == (State { total_cost: v[i].total_cost, ..s0[i] }));
    }
}

/// The reached costs of `s` are at most [`max_reached`], and its penalties at most [`max_pen`].
pub proof fn lemma_maxima(s: Seq<State>)
    ensures
        forall|j: int| 0 <= j < s.len() && (#[trigger] s[j]).total_cost < MAX_COST ==> s[j].total_cost <= max_reached(s),
        forall|j: int| 0 <= j < s.len() ==> (#[trigger] s[j]).penalty <= max_pen(s) && s[j].local_penalty <= max_pen(s),
    decreases s.len(),
{
    if s.len() > 0 {
        let p = s.drop_last();
        lemma_maxima(p);
        assert forall|j: int| 0 <= j < s.len() && (#[trigger] s[j]).total_cost < MAX_COST implies s[j].total_cost <= max_reached(s) by {
            if j < p.len() {
                assert(p[j] == s[j]);
            }
        }
        assert forall|j: int| 0 <= j < s.len() implies (#[trigger] s[j]).penalty <= max_pen(s) && s[j].local_penalty <= max_pen(s) by {
            if j < p.len() {
                assert(p[j] == s[j]);
            }
        }
    }
}

/// States below `s0` have its penalties.
pub proof fn lemma_pen_below(s0: Seq<State>, v: Seq<State>)
    requires
        below(s0, v),
    ensures
        forall|j: int| 0 <= j < v.len() ==> (#[trigger] v[j]).penalty <= max_pen(s0) && v[j].local_penalty <= max_pen(s0),
{
    lemma_maxima(s0);
    assert forall|j: int| 0 <= j < v.len() implies (#[trigger] v[j]).penalty <= max_pen(s0) && v[j].local_penalty <= max_pen(s0) by {
        assert(v[j] == (State { total_cost: v[j].total_cost, ..s0[j] }));
        assert(s0[j].penalty <= max_pen(s0));
    }
}

/// At most every state is reached.
pub proof fn lemma_count_len(s: Seq<State>)
    ensures
        reach_count(s) <= s.len(),
    decreases s.len(),
{
    if s.len() > 0 {
        lemma_count_len(s.drop_last());
    }
}

/// Lowering costs reaches no fewer states, and one more for each state that
/// becomes reached.
pub proof fn lemma_count_below(a: Seq<State>, b: Seq<State>, i: int)
    requires
        costs_le(b, a),
        0 <= i < a.len(),
    ensures
        reach_count(b) >= reach_count(a) + if a[i].total_cost >= MAX_COST && b[i].total_cost < MAX_COST { 1int } else { 0int },
        reach_count(b) >= reach_count(a),
    decreases a.len(),
{
    let n = a.len() - 1;
    let pa = a.drop_last();
    let pb = b.drop_last();
    assert(costs_le(pb, pa)) by {
        assert forall|j: int| 0 <= j < pb.len() implies (#[trigger] pb[j]).total_cost <= pa[j].total_cost by {
            assert(pb[j] == b[j] && pa[j] == a[j]);
        }
    }
    assert(b[n].total_cost <= a[n].total_cost);
    if n > 0 {
        if i < n {
            lemma_count_below(pa, pb, i);
            assert(pa[i] == a[i] && pb[i] == b[i]);
        } else {
            lemma_count_below(pa, pb, 0);
        }
    }
}

/// Exact weighted sum of the outcomes `trs` from `s`.
pub open spec fn exact_sum(states: Seq<State>, s: State, trs: Seq<StateTransition>, nx: int, nt: int) -> int
    decreases trs.len(),
{
    if trs.len() == 0 {
        0
    } else {
        let c = outcome_cell(s, trs.last(), nt);
        let after = states[index_of(c.0, c.1, c.2, nx, nt)];
        exact_sum(states, s, trs.drop_last(), nx, nt)
            + (after.total_cost + after.penalty + after.local_penalty) * trs.last().prob
    }
}

/// The weights are non-negative and every outcome lands in the grid on a cell
/// whose cost plus penalties is at most `k`.
pub open spec fn sum_small(states: Seq<State>, s: State, trs: Seq<StateTransition>, nx: int, ny: int, nt: int, k: int) -> bool {
    forall|j: int| 0 <= j < trs.len() ==> {
        let c = #[trigger] outcome_cell(s, trs[j], nt);
        let after = states[index_of(c.0, c.1, c.2, nx, nt)];
        &&& 0 <= trs[j].prob
        &&& 0 <= c.0 < nx
        &&& 0 <= c.1 < ny
        &&& after.total_cost + after.penalty + after.local_penalty <= k
    }
}

/// Without wrap-around the wrapping sum is the exact sum, at most `k` times the weights.
pub proof fn lemma_sum_exact(states: Seq<State>, s: State, trs: Seq<StateTransition>, nx: int, ny: int, nt: int, k: int)
    requires
        sum_small(states, s, trs, nx, ny, nt, k),
        0 <= k <= COST_ROOM,
        prob_mass(trs) <= PROB_BASE,
    ensures
        outcomes_sum(states, s, trs, nx, nt) == exact_sum(states, s, trs, nx, nt),
        0 <= exact_sum(states, s, trs, nx, nt) <= k * prob_mass(trs),
        0 <= prob_mass(trs),
    decreases trs.len(),
{
    if trs.len() > 0 {
        let p = trs.drop_last();
        let tr = trs.last();
        assert(sum_small(states, s, p, nx, ny, nt, k)) by {
            assert forall|j: int| 0 <= j < p.len() implies {
                let c = #[trigger] outcome_cell(s, p[j], nt);
                let after = states[index_of(c.0, c.1, c.2, nx, nt)];
                &&& 0 <= p[j].prob
                &&& 0 <= c.0 < nx
                &&& 0 <= c.1 < ny
                &&& after.total_cost + after.penalty + after.local_penalty <= k
            } by {
                assert(p[j] == trs[j]);
                assert(outcome_cell(s, trs[j], nt) == outcome_cell(s, p[j], nt));
            }
        }
        let c = outcome_cell(s, tr, nt);
        assert(c == outcome_cell(s, trs[trs.len() - 1], nt));
        let after = states[index_of(c.0, c.1, c.2, nx, nt)];
        let w = after.total_cost + after.penalty + after.local_penalty;
        assert(0 <= tr.prob);
        assert(prob_mass(p) <= PROB_BASE - tr.prob);
        lemma_sum_exact(states, s, p, nx, ny, nt, k);
        let e = exact_sum(states, s, p, nx, nt);
        assert(0 <= w * tr.prob <= k * tr.prob) by (nonlinear_arith) requires 0 <= w <= k, 0 <= tr.prob;
        assert(k * prob_mass(p) + k * tr.prob == k * prob_mass(trs)) by (nonlinear_arith)
            requires prob_mass(trs) == prob_mass(p) + tr.prob;
        assert(k * prob_mass(trs) <= COST_ROOM * PROB_BASE) by (nonlinear_arith)
            requires 0 <= k <= COST_ROOM, 0 <= prob_mass(trs) <= PROB_BASE;
        assert(w * tr.prob <= u64::MAX);
        assert(u64_specs::wrapping_add(u64_specs::wrapping_add(after.total_cost, after.penalty), after.local_penalty) == w);
        assert(tr.prob as u64 == tr.prob);
        assert(outcome_cost(states, s, tr, nx, nt) == w * tr.prob);
    }
}

/// `x >> PROB_BASE_BIT` is `x / PROB_BASE`.
proof fn lemma_shift(x: u64)
    ensures
        x >> (PROB_BASE_BIT as u64) == x / (PROB_BASE as u64),
{
    assert(x >> 18u64 == x / 262144u64) by (bit_vector);
}

/// Any clamped cost is at most `MAX_COST`.
pub proof fn lemma_cost_capped(states: Seq<State>, trs: Seq<StateTransition>, s: State, nx: int, ny: int, nt: int)
    ensures
        clamped_cost(states, trs, s, nx, ny, nt) <= MAX_COST,
{
    let x = outcomes_sum(states, s, trs, nx, nt);
    assert(x >> 18u64 <= 70368744177663u64) by (bit_vector);
}

/// A clamped cost below `MAX_COST` is at most the largest cost plus penalties of its outcomes.
pub proof fn lemma_cost_bound(v: Seq<State>, trs: Seq<StateTransition>, s: State, nx: int, ny: int, nt: int, k: int)
    requires
        clamped_cost(v, trs, s, nx, ny, nt) < MAX_COST,
        capped(v),
        states_ok(v, nx, ny, nt),
        0 < nt,
        0 <= k <= COST_ROOM,
        prob_mass(trs) <= PROB_BASE,
        forall|j: int| 0 <= j < trs.len() ==> 0 <= (#[trigger] trs[j]).prob,
        forall|j: int| 0 <= j < trs.len() ==> {
            let c = #[trigger] outcome_cell(s, trs[j], nt);
            let after = v[index_of(c.0, c.1, c.2, nx, nt)];
            0 <= c.0 < nx && 0 <= c.1 < ny && after.total_cost < MAX_COST ==> after.total_cost + after.penalty + after.local_penalty <= k
        },
    ensures
        clamped_cost(v, trs, s, nx, ny, nt) <= k,
{
    assert(sum_small(v, s, trs, nx, ny, nt, k)) by {
        assert forall|j: int| 0 <= j < trs.len() implies {
            let c = #[trigger] outcome_cell(s, trs[j], nt);
            let after = v[index_of(c.0, c.1, c.2, nx, nt)];
            &&& 0 <= trs[j].prob
            &&& 0 <= c.0 < nx
            &&& 0 <= c.1 < ny
            &&& after.total_cost + after.penalty + after.local_penalty <= k
        } by {
            assert(!outcome_unreached(v, s, trs[j], nx, ny, nt));
            let c = outcome_cell(s, trs[j], nt);
            lemma_coords(v, c.0, c.1, c.2, nx, ny, nt);
        }
    }
    lemma_sum_exact(v, s, trs, nx, ny, nt, k);
    let x = outcomes_sum(v, s, trs, nx, nt);
    lemma_shift(x);
    assert(x <= k * PROB_BASE) by (nonlinear_arith)
        requires x <= k * prob_mass(trs), prob_mass(trs) <= PROB_BASE, 0 <= k;
    assert(x / (PROB_BASE as u64) <= k) by (nonlinear_arith) requires x <= k * PROB_BASE, PROB_BASE == 262144;
}

/// Exact sums grow with the costs of the outcomes.
proof fn lemma_exact_mono(w: Seq<State>, v: Seq<State>, s: State, trs: Seq<StateTransition>, nx: int, ny: int, nt: int)
    requires
        forall|j: int| 0 <= j < trs.len() ==> 0 <= (#[trigger] trs[j]).prob,
        forall|j: int| 0 <= j < trs.len() ==> {
            let c = #[trigger] outcome_cell(s, trs[j], nt);
            let i = index_of(c.0, c.1, c.2, nx, nt);
            &&& w[i].total_cost <= v[i].total_cost
            &&& w[i].penalty == v[i].penalty
            &&& w[i].local_penalty == v[i].local_penalty
        },
    ensures
        exact_sum(w, s, trs, nx, nt) <= exact_sum(v, s, trs, nx, nt),
    decreases trs.len(),
{
    if trs.len() > 0 {
        let p = trs.drop_last();
        assert forall|j: int| 0 <= j < p.len() implies 0 <= (#[trigger] p[j]).prob by {
            assert(p[j] == trs[j]);
        }
        assert forall|j: int| 0 <= j < p.len() implies {
            let c = #[trigger] outcome_cell(s, p[j], nt);
            let i = index_of(c.0, c.1, c.2, nx, nt);
            &&& w[i].total_cost <= v[i].total_cost
            &&& w[i].penalty == v[i].penalty
            &&& w[i].local_penalty == v[i].local_penalty
        } by {
            assert(p[j] == trs[j]);
            assert(outcome_cell(s, trs[j], nt) == outcome_cell(s, p[j], nt));
        }
        lemma_exact_mono(w, v, s, p, nx, ny, nt);
        let tr = trs.last();
        let c = outcome_cell(s, tr, nt);
        assert(c == outcome_cell(s, trs[trs.len() - 1], nt));
        let i = index_of(c.0, c.1, c.2, nx, nt);
        let a = w[i].total_cost + w[i].penalty + w[i].local_penalty;
        let b = v[i].total_cost + v[i].penalty + v[i].local_penalty;
        assert(a * tr.prob <= b * tr.prob) by (nonlinear_arith) requires a <= b, 0 <= tr.prob;
    }
}

/// The conditions of the monotonicity of the clamped update between `w` and
/// `v`: both below `s0`, `w` no costlier than `v`, and the reached costs of `v`
/// at most `r` with two penalties of room under [`COST_ROOM`].
pub open spec fn mono_ok(w: Seq<State>, v: Seq<State>, s0: Seq<State>, acts: Seq<Action>, nt: int, r: int) -> bool {
    &&& below(s0, w)
    &&& below(s0, v)
    &&& costs_le(w, v)
    &&& capped(s0)
    &&& probs_ok(acts)
    &&& mass_ok(acts, nt)
    &&& forall|a: int| 0 <= a < acts.len() ==> (#[trigger] acts[a]).state_transitions@.len() == nt
    &&& 0 <= r
    &&& r + 2 * max_pen(s0) <= COST_ROOM
    &&& forall|j: int| 0 <= j < v.len() && (#[trigger] v[j]).total_cost < MAX_COST ==> v[j].total_cost <= r
}

/// Per action, the clamped cost over `w` is at most that over `v`.
proof fn lemma_cost_mono(w: Seq<State>, v: Seq<State>, s0: Seq<State>, acts: Seq<Action>, a: int, x: State,
    nx: int, ny: int, nt: int, r: int)
    requires
        mono_ok(w, v, s0, acts, nt, r),
        states_ok(s0, nx, ny, nt),
        in_grid(x, nx, ny, nt),
        0 <= a < acts.len(),
    ensures
        clamped_cost(w, outcomes(acts[a], x), x, nx, ny, nt) <= clamped_cost(v, outcomes(acts[a], x), x, nx, ny, nt),
{
    let trs = outcomes(acts[a], x);
    let k = r + 2 * max_pen(s0);
    lemma_cost_capped(w, trs, x, nx, ny, nt);
    lemma_cost_capped(v, trs, x, nx, ny, nt);
    lemma_pen_below(s0, w);
    lemma_pen_below(s0, v);
    lemma_below_ok(s0, w, nx, ny, nt);
    lemma_below_ok(s0, v, nx, ny, nt);
    if exists|j: int| 0 <= j < trs.len() && #[trigger] outcome_unreached(v, x, trs[j], nx, ny, nt) {
    } else {
        assert forall|j: int| 0 <= j < trs.len() implies 0 <= (#[trigger] trs[j]).prob by {
            assert(trs[j] == acts[a].state_transitions@[x.it as int]@[j]);
        }
        assert forall|j: int| 0 <= j < trs.len() implies {
            let c = #[trigger] outcome_cell(x, trs[j], nt);
            let i = index_of(c.0, c.1, c.2, nx, nt);
            &&& !outcome_unreached(w, x, trs[j], nx, ny, nt)
            &&& w[i].total_cost <= v[i].total_cost
            &&& w[i].penalty == v[i].penalty
            &&& w[i].local_penalty == v[i].local_penalty
            &&& w[i].total_cost + w[i].penalty + w[i].local_penalty <= k
            &&& v[i].total_cost + v[i].penalty + v[i].local_penalty <= k
        } by {
            let c = outcome_cell(x, trs[j], nt);
            assert(!outcome_unreached(v, x, trs[j], nx, ny, nt));
            lemma_coords(s0, c.0, c.1, c.2, nx, ny, nt);
            let i = index_of(c.0, c.1, c.2, nx, nt);
            assert(w[i] == (State { total_cost: w[i].total_cost, ..s0[i] }));
            assert(v[i] == (State { total_cost: v[i].total_cost, ..s0[i] }));
        }
        assert(!exists|j: int| 0 <= j < trs.len() && #[trigger] outcome_unreached(w, x, trs[j], nx, ny, nt));
        assert(sum_small(w, x, trs, nx, ny, nt, k));
        assert(sum_small(v, x, trs, nx, ny, nt, k));
        assert(prob_mass(trs) <= PROB_BASE) by {
            assert(prob_mass(acts[a].state_transitions@[x.it as int]@) <= PROB_BASE);
        }
        lemma_sum_exact(w, x, trs, nx, ny, nt, k);
        lemma_sum_exact(v, x, trs, nx, ny, nt, k);
        lemma_exact_mono(w, v, x, trs, nx, ny, nt);
        let sw = outcomes_sum(w, x, trs, nx, nt);
        let sv = outcomes_sum(v, x, trs, nx, nt);
        lemma_shift(sw);
        lemma_shift(sv);
        assert(sw / (PROB_BASE as u64) <= sv / (PROB_BASE as u64)) by (nonlinear_arith) requires sw <= sv, PROB_BASE == 262144;
    }
}

/// The clamped update is monotone between `w` and `v` under [`mono_ok`].
pub proof fn lemma_best_mono(w: Seq<State>, v: Seq<State>, s0: Seq<State>, acts: Seq<Action>, x: State,
    nx: int, ny: int, nt: int, r: int, na: int)
    requires
        mono_ok(w, v, s0, acts, nt, r),
        states_ok(s0, nx, ny, nt),
        in_grid(x, nx, ny, nt),
        0 <= na <= acts.len(),
    ensures
        clamped_best(w, acts.take(na), x, nx, ny, nt).0 <= clamped_best(v, acts.take(na), x, nx, ny, nt).0,
    decreases na,
{
    if na > 0 {
        lemma_best_mono(w, v, s0, acts, x, nx, ny, nt, r, na - 1);
        lemma_cost_mono(w, v, s0, acts, na - 1, x, nx, ny, nt, r);
        assert(acts.take(na).drop_last() =~= acts.take(na - 1));
        assert(acts.take(na).last() == acts[na - 1]);
    }
}

/// The clamped best cost of a state below `MAX_COST` is at most the bound of
/// its reached outcomes plus two penalties.
pub proof fn lemma_best_bound(v: Seq<State>, s0: Seq<State>, acts: Seq<Action>, x: State, nx: int, ny: int, nt: int, r: int)
    requires
        below(s0, v),
        states_ok(s0, nx, ny, nt),
        in_grid(x, nx, ny, nt),
        probs_ok(acts),
        mass_ok(acts, nt),
        capped(s0),
        forall|a: int| 0 <= a < acts.len() ==> (#[trigger] acts[a]).state_transitions@.len() == nt,
        0 <= r,
        r + 2 * max_pen(s0) <= COST_ROOM,
        forall|j: int| 0 <= j < v.len() && (#[trigger] v[j]).total_cost < MAX_COST ==> v[j].total_cost <= r,
        clamped_best(v, acts, x, nx, ny, nt).0 < MAX_COST,
    ensures
        clamped_best(v, acts, x, nx, ny, nt).0 <= r + 2 * max_pen(s0),
{
    let a = lemma_best_witness(v, acts, x, nx, ny, nt);
    let trs = outcomes(acts[a], x);
    let k = r + 2 * max_pen(s0);
    lemma_pen_below(s0, v);
    lemma_below_ok(s0, v, nx, ny, nt);
    assert forall|j: int| 0 <= j < trs.len() implies 0 <= (#[trigger] trs[j]).prob by {
        assert(trs[j] == acts[a].state_transitions@[x.it as int]@[j]);
    }
    assert forall|j: int| 0 <= j < trs.len() implies {
        let c = #[trigger] outcome_cell(x, trs[j], nt);
        let after = v[index_of(c.0, c.1, c.2, nx, nt)];
        0 <= c.0 < nx && 0 <= c.1 < ny && after.total_cost < MAX_COST ==> after.total_cost + after.penalty + after.local_penalty <= k
    } by {
        let c = outcome_cell(x, trs[j], nt);
        if 0 <= c.0 < nx && 0 <= c.1 < ny && 0 <= c.2 < nt {
            lemma_coords(s0, c.0, c.1, c.2, nx, ny, nt);
        }
    }
    assert(prob_mass(trs) <= PROB_BASE) by {
        assert(prob_mass(acts[a].state_transitions@[x.it as int]@) <= PROB_BASE);
    }
    assert(capped(v)) by {
        assert forall|i: int| 0 <= i < v.len() implies (#[trigger] v[i]).total_cost <= MAX_COST by {
            assert(s0[i].total_cost <= MAX_COST);
        }
    }
    lemma_cost_bound(v, trs, x, nx, ny, nt, k);
}

/// The clamped best cost depends on the source state only through its cell.
pub proof fn lemma_best_source(v: Seq<State>, acts: Seq<Action>, x: State, y: State, nx: int, ny: int, nt: int)
    requires
        x.ix == y.ix,
        x.iy == y.iy,
        x.it == y.it,
    ensures
        clamped_best(v, acts, x, nx, ny, nt) == clamped_best(v, acts, y, nx, ny, nt),
    decreases acts.len(),
{
    if acts.len() > 0 {
        lemma_best_source(v, acts.drop_last(), x, y, nx, ny, nt);
        let trs = outcomes(acts.last(), x);
        assert(trs == outcomes(acts.last(), y));
        crate::reference::solvers::settle::lemma_cost_frame(v, v, x, y, trs, nx, ny, nt);
    }
}

/// Under [`agree_ok`], room is left for two more penalties.
pub proof fn lemma_room(v: Seq<State>, s0: Seq<State>, acts: Seq<Action>, nt: int)
    requires
        agree_ok(s0, acts, nt),
        v.len() == s0.len(),
    ensures
        0 <= room(v, s0),
        room(v, s0) + 2 * max_pen(s0) <= COST_ROOM,
{
    lemma_count_len(v);
    let q = 2 * max_pen(s0);
    assert(reach_count(v) * q + q <= (s0.len() + 1) * q) by (nonlinear_arith)
        requires reach_count(v) <= s0.len(), 0 <= q;
    assert(0 <= reach_count(v) * q) by (nonlinear_arith) requires 0 <= q;
}

/// Room grows with the number of reached states.
proof fn lemma_room_mono(a: Seq<State>, b: Seq<State>, s0: Seq<State>, extra: int)
    requires
        reach_count(b) >= reach_count(a) + extra,
        0 <= extra,
    ensures
        room(b, s0) >= room(a, s0) + extra * (2 * max_pen(s0)),
{
    let q = 2 * max_pen(s0);
    assert(reach_count(b) * q >= reach_count(a) * q + extra * q) by (nonlinear_arith)
        requires reach_count(b) >= reach_count(a) + extra, 0 <= q, 0 <= extra;
}

/// Lowering one state of `cur` to its clamped best cost over a state `w` no
/// cheaper than `cur` keeps [`lowering_inv`].
pub proof fn lemma_lower_step(s0: Seq<State>, acts: Seq<Action>, nx: int, ny: int, nt: int, cur: Seq<State>, w: Seq<State>, idx: int)
    requires
        agree_ok(s0, acts, nt),
        states_ok(s0, nx, ny, nt),
        lowering_inv(cur, s0, acts, nx, ny, nt),
        lowering_inv(w, s0, acts, nx, ny, nt),
        costs_le(cur, w),
        0 <= idx < cur.len(),
        updatable(w, idx),
        clamped_best(w, acts, w[idx], nx, ny, nt).0 < cur[idx].total_cost,
    ensures
        lowering_inv(cur.update(idx, State { total_cost: clamped_best(w, acts, w[idx], nx, ny, nt).0, ..cur[idx] }),
            s0, acts, nx, ny, nt),
{
    let b = clamped_best(w, acts, w[idx], nx, ny, nt).0;
    let c2 = cur.update(idx, State { total_cost: b, ..cur[idx] });
    let q = 2 * max_pen(s0);
    assert(cur[idx] == (State { total_cost: cur[idx].total_cost, ..s0[idx] }));
    assert(w[idx] == (State { total_cost: w[idx].total_cost, ..s0[idx] }));
    assert(in_grid(s0[idx], nx, ny, nt));
    assert(below(s0, c2)) by {
        assert forall|j: int| 0 <= j < s0.len() implies #[trigger] c2[j] == (State { total_cost: c2[j].total_cost, ..s0[j] })
            && c2[j].total_cost <= s0[j].total_cost by {
            if j != idx {
                assert(cur[j] == (State { total_cost: cur[j].total_cost, ..s0[j] }));
            }
        }
    }
    lemma_room(w, s0, acts, nt);
    lemma_room(cur, s0, acts, nt);
    let rw = room(w, s0);
    assert(capped(s0));
    assert(s0[idx].total_cost <= MAX_COST);
    lemma_best_bound(w, s0, acts, w[idx], nx, ny, nt, rw);
    assert(costs_le(c2, cur)) by {
        assert forall|j: int| 0 <= j < c2.len() implies (#[trigger] c2[j]).total_cost <= cur[j].total_cost by {}
    }
    lemma_count_below(w, cur, idx);
    lemma_count_below(cur, c2, idx);
    lemma_room_mono(w, cur, s0, 0);
    if cur[idx].total_cost >= MAX_COST {
        lemma_room_mono(cur, c2, s0, 1);
    } else {
        lemma_room_mono(cur, c2, s0, 0);
    }
    assert(bounded(c2, s0)) by {
        assert forall|j: int| 0 <= j < c2.len() && (#[trigger] c2[j]).total_cost < MAX_COST implies c2[j].total_cost <= room(c2, s0) by {
            if j != idx {
                assert(cur[j] == c2[j]);
            }
        }
    }
    assert(above_fixed(c2, s0, acts, nx, ny, nt)) by {
        assert forall|f: Seq<State>| #[trigger] fixed_below(f, s0, acts, nx, ny, nt) implies costs_le(f, c2) by {
            assert(costs_le(f, cur));
            assert(costs_le(f, w));
            assert forall|j: int| 0 <= j < f.len() implies (#[trigger] f[j]).total_cost <= c2[j].total_cost by {
                if j == idx {
                    assert(f[idx] == (State { total_cost: f[idx].total_cost, ..s0[idx] }));
                    assert(!improvable(f, acts, idx, nx, ny, nt));
                    assert(updatable(f, idx));
                    assert(mono_ok(f, w, s0, acts, nt, rw));
                    lemma_best_mono(f, w, s0, acts, f[idx], nx, ny, nt, rw, acts.len() as int);
                    assert(acts.take(acts.len() as int) =~= acts);
                    lemma_best_source(w, acts, f[idx], w[idx], nx, ny, nt);
                } else {
                    assert(cur[j] == c2[j]);
                }
            }
        }
    }
}

/// The conditions hold of the start itself.
pub proof fn lemma_inv_start(s0: Seq<State>, acts: Seq<Action>, nx: int, ny: int, nt: int)
    requires
        agree_ok(s0, acts, nt),
    ensures
        lowering_inv(s0, s0, acts, nx, ny, nt),
{
    assert(below(s0, s0));
    lemma_maxima(s0);
    assert(room(s0, s0) >= max_reached(s0)) by {
        assert(0 <= reach_count(s0) * (2 * max_pen(s0))) by (nonlinear_arith);
    }
    assert forall|f: Seq<State>| #[trigger] fixed_below(f, s0, acts, nx, ny, nt) implies costs_le(f, s0) by {
        assert forall|j: int| 0 <= j < f.len() implies (#[trigger] f[j]).total_cost <= s0[j].total_cost by {}
    }
}

/// Two greatest settled states below the same start are equal.
pub proof fn lemma_greatest_unique(r1: Seq<State>, r2: Seq<State>, s0: Seq<State>, acts: Seq<Action>, nx: int, ny: int, nt: int)
    requires
        greatest_settled(r1, s0, acts, nx, ny, nt),
        greatest_settled(r2, s0, acts, nx, ny, nt),
    ensures
        r1 == r2,
{
    assert(costs_le(r2, r1));
    assert(costs_le(r1, r2));
    assert forall|j: int| 0 <= j < r1.len() implies r1[j] == r2[j] by {
        assert(r1[j] == (State { total_cost: r1[j].total_cost, ..s0[j] }));
        assert(r2[j] == (State { total_cost: r2[j].total_cost, ..s0[j] }));
        assert(r1[j].total_cost <= r2[j].total_cost);
        assert(r2[j].total_cost <= r1[j].total_cost);
    }
    assert(r1 =~= r2);
}

/// The in-place updates of a column keep [`lowering_inv`].
pub proof fn lemma_gs_column_inv(s0: Seq<State>, acts: Seq<Action>, q: Seq<State>, c: (u32, u32), k: int, nx: int, ny: int, nt: int)
    requires
        agree_ok(s0, acts, nt),
        states_ok(s0, nx, ny, nt),
        lowering_inv(q, s0, acts, nx, ny, nt),
        c.0 < nx,
        c.1 < ny,
        0 <= k <= nt,
    ensures
        lowering_inv(gs_column(q, acts, c, k, nx, ny, nt).0, s0, acts, nx, ny, nt),
    decreases k,
{
    if k > 0 {
        lemma_gs_column_inv(s0, acts, q, c, k - 1, nx, ny, nt);
        let p = gs_column(q, acts, c, k - 1, nx, ny, nt).0;
        let idx = index_of(c.0 as int, c.1 as int, k - 1, nx, nt);
        lemma_coords(s0, c.0 as int, c.1 as int, k - 1, nx, ny, nt);
        assert(p.len() == s0.len());
        let b = clamped_best(p, acts, p[idx], nx, ny, nt).0;
        if updatable(p, idx) && b < p[idx].total_cost {
            assert(costs_le(p, p));
            lemma_lower_step(s0, acts, nx, ny, nt, p, p, idx);
        }
    }
}

/// Every cell listed in `hist` lies in the grid.
pub open spec fn hist_in_grid(hist: Seq<Seq<(u32, u32)>>, nx: int, ny: int) -> bool {
    forall|r: int, j: int| 0 <= r < hist.len() && 0 <= j < hist[r].len() ==> (#[trigger] hist[r][j]).0 < nx && hist[r][j].1 < ny
}

/// An asynchronous round keeps [`lowering_inv`], whatever the order of its cells.
pub proof fn lemma_gs_round_inv(s0: Seq<State>, acts: Seq<Action>, q: Seq<State>, cells: Seq<(u32, u32)>, nx: int, ny: int, nt: int)
    requires
        agree_ok(s0, acts, nt),
        states_ok(s0, nx, ny, nt),
        lowering_inv(q, s0, acts, nx, ny, nt),
        forall|j: int| 0 <= j < cells.len() ==> (#[trigger] cells[j]).0 < nx && cells[j].1 < ny,
    ensures
        lowering_inv(gs_round(q, acts, cells, nx, ny, nt).0, s0, acts, nx, ny, nt),
    decreases cells.len(),
{
    if cells.len() > 0 {
        let pc = cells.drop_last();
        assert forall|j: int| 0 <= j < pc.len() implies (#[trigger] pc[j]).0 < nx && pc[j].1 < ny by {
            assert(pc[j] == cells[j]);
        }
        lemma_gs_round_inv(s0, acts, q, pc, nx, ny, nt);
        let c = cells.last();
        assert(c == cells[cells.len() - 1]);
        lemma_gs_column_inv(s0, acts, gs_round(q, acts, pc, nx, ny, nt).0, c, nt, nx, ny, nt);
    }
}

/// The asynchronous rounds keep [`lowering_inv`].
pub proof fn lemma_gs_rounds_inv(s0: Seq<State>, acts: Seq<Action>, f: Seq<Seq<bool>>, hist: Seq<Seq<(u32, u32)>>,
    nx: int, ny: int, nt: int)
    requires
        agree_ok(s0, acts, nt),
        states_ok(s0, nx, ny, nt),
        hist_in_grid(hist, nx, ny),
        0 <= nt,
    ensures
        lowering_inv(gs_rounds(s0, acts, f, hist, nx, ny, nt).0, s0, acts, nx, ny, nt),
    decreases hist.len(),
{
    if hist.len() == 0 {
        lemma_inv_start(s0, acts, nx, ny, nt);
    } else {
        let ph = hist.drop_last();
        assert(hist_in_grid(ph, nx, ny)) by {
            assert forall|r: int, j: int| 0 <= r < ph.len() && 0 <= j < ph[r].len() implies (#[trigger] ph[r][j]).0 < nx && ph[r][j].1 < ny by {
                assert(ph[r] == hist[r]);
            }
        }
        lemma_gs_rounds_inv(s0, acts, f, ph, nx, ny, nt);
        let cells = hist.last();
        assert forall|j: int| 0 <= j < cells.len() implies (#[trigger] cells[j]).0 < nx && cells[j].1 < ny by {
            assert(cells[j] == hist[hist.len() - 1][j]);
        }
        lemma_gs_round_inv(s0, acts, gs_rounds(s0, acts, f, ph, nx, ny, nt).0, cells, nx, ny, nt);
    }
}

/// A Jacobi round over distinct in-grid cells keeps [`lowering_inv`]: every
/// state it lowers takes its clamped best cost over the states the round read.
pub proof fn lemma_jround_inv(s0: Seq<State>, acts: Seq<Action>, q: Seq<State>, cells: Seq<(u32, u32)>, nx: int, ny: int, nt: int)
    requires
        agree_ok(s0, acts, nt),
        states_ok(s0, nx, ny, nt),
        lowering_inv(q, s0, acts, nx, ny, nt),
        cells_ok(cells, nx, ny),
    ensures
        lowering_inv(jround2(q, acts, cells, nx, ny, nt).0, s0, acts, nx, ny, nt),
{
    lemma_below_ok(s0, q, nx, ny, nt);
    lemma_round_apply(q, acts, cells, nx, ny, nt);
    let s2 = jround2(q, acts, cells, nx, ny, nt).0;
    assert(s2.len() == q.len());
    let rq = room(q, s0);
    lemma_room(q, s0, acts, nt);
    assert(below(q, s2)) by {
        assert forall|j: int| 0 <= j < q.len() implies #[trigger] s2[j] == (State { total_cost: s2[j].total_cost, ..q[j] })
            && s2[j].total_cost <= q[j].total_cost by {}
    }
    lemma_below_trans(s0, q, s2);
    assert(costs_le(s2, q)) by {
        assert forall|j: int| 0 <= j < s2.len() implies (#[trigger] s2[j]).total_cost <= q[j].total_cost by {}
    }
    if q.len() > 0 {
        lemma_count_below(q, s2, 0);
    } else {
        assert(reach_count(s2) == 0 && reach_count(q) == 0);
    }
    lemma_room_mono(q, s2, s0, 0);
    assert(bounded(s2, s0)) by {
        assert forall|j: int| 0 <= j < s2.len() && (#[trigger] s2[j]).total_cost < MAX_COST implies s2[j].total_cost <= room(s2, s0) by {
            if s2[j] != q[j] {
                assert(q[j] == (State { total_cost: q[j].total_cost, ..s0[j] }));
                assert(in_grid(s0[j], nx, ny, nt));
                lemma_best_bound(q, s0, acts, q[j], nx, ny, nt, rq);
                lemma_count_below(q, s2, j);
                if q[j].total_cost >= MAX_COST {
                    lemma_room_mono(q, s2, s0, 1);
                }
            }
        }
    }
    assert(above_fixed(s2, s0, acts, nx, ny, nt)) by {
        assert forall|f: Seq<State>| #[trigger] fixed_below(f, s0, acts, nx, ny, nt) implies costs_le(f, s2) by {
            assert(costs_le(f, q));
            assert forall|j: int| 0 <= j < f.len() implies (#[trigger] f[j]).total_cost <= s2[j].total_cost by {
                if s2[j] != q[j] {
                    assert(f[j] == (State { total_cost: f[j].total_cost, ..s0[j] }));
                    assert(q[j] == (State { total_cost: q[j].total_cost, ..s0[j] }));
                    assert(in_grid(s0[j], nx, ny, nt));
                    assert(!improvable(f, acts, j, nx, ny, nt));
                    assert(mono_ok(f, q, s0, acts, nt, rq));
                    lemma_best_mono(f, q, s0, acts, f[j], nx, ny, nt, rq, acts.len() as int);
                    assert(acts.take(acts.len() as int) =~= acts);
                    lemma_best_source(q, acts, f[j], q[j], nx, ny, nt);
                }
            }
        }
    }
}

/// The Jacobi rounds over distinct in-grid cells keep [`lowering_inv`].
pub proof fn lemma_jrounds_inv(s0: Seq<State>, acts: Seq<Action>, f: Seq<Seq<bool>>, hist: Seq<Seq<(u32, u32)>>,
    nx: int, ny: int, nt: int)
    requires
        agree_ok(s0, acts, nt),
        states_ok(s0, nx, ny, nt),
        forall|r: int| 0 <= r < hist.len() ==> cells_ok(#[trigger] hist[r], nx, ny),
    ensures
        lowering_inv(jrounds2(s0, acts, f, hist, nx, ny, nt).0, s0, acts, nx, ny, nt),
    decreases hist.len(),
{
    if hist.len() == 0 {
        lemma_inv_start(s0, acts, nx, ny, nt);
    } else {
        let ph = hist.drop_last();
        assert forall|r: int| 0 <= r < ph.len() implies cells_ok(#[trigger] ph[r], nx, ny) by {
            assert(ph[r] == hist[r]);
        }
        lemma_jrounds_inv(s0, acts, f, ph, nx, ny, nt);
        assert(cells_ok(hist[hist.len() - 1], nx, ny));
        lemma_jround_inv(s0, acts, jrounds2(s0, acts, f, ph, nx, ny, nt).0, hist.last(), nx, ny, nt);
    }
}

} // verus!
