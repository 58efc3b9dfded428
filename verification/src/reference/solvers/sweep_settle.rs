//! Where the full-sweep reference solver ends when no outcome is ever
//! unreached: from a start where every free cell is reached below the
//! reference threshold and none lies below its clamped best cost, each sweep
//! writes the costs of clamped lowerings in index order, and a sweep that
//! changes no reached cost leaves the greatest settled state below the start.
use vstd::prelude::*;
use crate::reference::state::{Action, State};
use crate::reference::value_iterator::{states_ok, updatable, sweep_upto};
use crate::reference::solvers::{sweeps, reached_stable, reference_result, REACH_THRESH};
use crate::reference::solvers::par_unsafe::lower_at;
use crate::reference::solvers::frontier::step2;
use crate::reference::solvers::greatest::{agree_ok, lowering_inv, greatest_settled, below, lemma_below_trans, lemma_inv_start};
use crate::reference::solvers::settle::{settled, improvable};
use crate::reference::solvers::pad_settle::{same_costs, above_best, all_reached, lemma_pad_step, lemma_step_same};

verus! {

/// The clamped lowerings of states `0 .. k` of `q`, in index order.
pub open spec fn lower_upto(q: Seq<State>, acts: Seq<Action>, k: int, nx: int, ny: int, nt: int) -> Seq<State>
    decreases k,
{
    if k <= 0 {
        q
    } else {
        lower_at(lower_upto(q, acts, k - 1, nx, ny, nt), acts, k - 1, nx, ny, nt)
    }
}

/// `k` sweeps of clamped lowerings over every state of `q`.
pub open spec fn lower_sweeps(q: Seq<State>, acts: Seq<Action>, k: nat, nx: int, ny: int, nt: int) -> Seq<State>
    decreases k,
{
    if k == 0 {
        q
    } else {
        let p = lower_sweeps(q, acts, (k - 1) as nat, nx, ny, nt);
        lower_upto(p, acts, p.len() as int, nx, ny, nt)
    }
}

/// Every free cell of `s` is reached below the reference threshold.
pub open spec fn reached_below(s: Seq<State>) -> bool {
    forall|i: int| 0 <= i < s.len() && (#[trigger] s[i]).free ==> s[i].total_cost < REACH_THRESH
}

/// Lowerings only lower costs, and leave the states outside the update as they are.
pub proof fn lemma_lower_upto_below(q: Seq<State>, acts: Seq<Action>, k: int, nx: int, ny: int, nt: int)
    requires
        0 <= k <= q.len(),
    ensures
        below(q, lower_upto(q, acts, k, nx, ny, nt)),
        forall|i: int| 0 <= i < q.len() && !updatable(q, i) ==> #[trigger] lower_upto(q, acts, k, nx, ny, nt)[i] == q[i],
    decreases k,
{
    if k == 0 {
        assert(below(q, q));
    } else {
        lemma_lower_upto_below(q, acts, k - 1, nx, ny, nt);
        let a = lower_upto(q, acts, k - 1, nx, ny, nt);
        let b = lower_upto(q, acts, k, nx, ny, nt);
        assert(a.len() == q.len());
        assert(below(a, b)) by {
            assert forall|j: int| 0 <= j < a.len() implies #[trigger] b[j] == (State { total_cost: b[j].total_cost, ..a[j] })
                && b[j].total_cost <= a[j].total_cost by {}
        }
        lemma_below_trans(q, a, b);
        assert forall|i: int| 0 <= i < q.len() && !updatable(q, i) implies #[trigger] b[i] == q[i] by {
            assert(a[i] == q[i]);
        }
    }
}

/// A sweep of the reference solver from `p` writes the costs of the clamped
/// lowerings of `q` in index order.
pub proof fn lemma_sweep_upto_same(s0: Seq<State>, acts: Seq<Action>, nx: int, ny: int, nt: int, p: Seq<State>, q: Seq<State>, k: int)
    requires
        agree_ok(s0, acts, nt),
        states_ok(s0, nx, ny, nt),
        all_reached(s0),
        lowering_inv(q, s0, acts, nx, ny, nt),
        above_best(q, acts, nx, ny, nt),
        same_costs(p, q),
        0 <= k <= q.len(),
    ensures
        same_costs(sweep_upto(p, acts, k, nx, ny, nt), lower_upto(q, acts, k, nx, ny, nt)),
        lowering_inv(lower_upto(q, acts, k, nx, ny, nt), s0, acts, nx, ny, nt),
        above_best(lower_upto(q, acts, k, nx, ny, nt), acts, nx, ny, nt),
    decreases k,
{
    if k > 0 {
        lemma_sweep_upto_same(s0, acts, nx, ny, nt, p, q, k - 1);
        let pp = sweep_upto(p, acts, k - 1, nx, ny, nt);
        let qq = lower_upto(q, acts, k - 1, nx, ny, nt);
        assert(qq.len() == s0.len());
        lemma_step_same(s0, acts, nx, ny, nt, pp, qq, k - 1);
        lemma_pad_step(s0, acts, nx, ny, nt, pp, qq, k - 1);
        assert(sweep_upto(p, acts, k, nx, ny, nt) == step2(pp, acts, k - 1, nx, ny, nt, false));
    }
}

/// From a start where every free cell is reached and none lies below its
/// clamped best cost, the reference sweeps write the costs of the sweeps of
/// clamped lowerings.
pub proof fn lemma_sweeps_same(s0: Seq<State>, acts: Seq<Action>, nx: int, ny: int, nt: int, k: nat)
    requires
        agree_ok(s0, acts, nt),
        states_ok(s0, nx, ny, nt),
        all_reached(s0),
        above_best(s0, acts, nx, ny, nt),
    ensures
        same_costs(sweeps(s0, acts, k, nx, ny, nt), lower_sweeps(s0, acts, k, nx, ny, nt)),
        lowering_inv(lower_sweeps(s0, acts, k, nx, ny, nt), s0, acts, nx, ny, nt),
        above_best(lower_sweeps(s0, acts, k, nx, ny, nt), acts, nx, ny, nt),
    decreases k,
{
    if k == 0 {
        lemma_inv_start(s0, acts, nx, ny, nt);
        assert forall|j: int| 0 <= j < s0.len() implies #[trigger] s0[j] == (State { optimal_action: s0[j].optimal_action, ..s0[j] }) by {}
    } else {
        lemma_sweeps_same(s0, acts, nx, ny, nt, (k - 1) as nat);
        let p = sweeps(s0, acts, (k - 1) as nat, nx, ny, nt);
        let q = lower_sweeps(s0, acts, (k - 1) as nat, nx, ny, nt);
        lemma_sweep_upto_same(s0, acts, nx, ny, nt, p, q, q.len() as int);
    }
}

/// A sweep of clamped lowerings that changes no cost leaves no state that can be lowered.
pub proof fn lemma_still_settles(q: Seq<State>, acts: Seq<Action>, k: int, nx: int, ny: int, nt: int)
    requires
        0 <= k <= q.len(),
        lower_upto(q, acts, k, nx, ny, nt) == q,
    ensures
        forall|i: int| 0 <= i < k ==> !#[trigger] improvable(q, acts, i, nx, ny, nt),
    decreases k,
{
    if k > 0 {
        let a = lower_upto(q, acts, k - 1, nx, ny, nt);
        lemma_lower_upto_below(q, acts, k - 1, nx, ny, nt);
        assert(below(a, q));
        assert(a =~= q) by {
            assert forall|j: int| 0 <= j < q.len() implies a[j] == q[j] by {
                assert(q[j] == (State { total_cost: q[j].total_cost, ..a[j] }));
                assert(a[j] == (State { total_cost: a[j].total_cost, ..q[j] }));
            }
        }
        lemma_still_settles(q, acts, k - 1, nx, ny, nt);
        assert(lower_at(q, acts, k - 1, nx, ny, nt) == q);
        if improvable(q, acts, k - 1, nx, ny, nt) {
            assert(lower_at(q, acts, k - 1, nx, ny, nt)[k - 1].total_cost < q[k - 1].total_cost);
        }
    }
}

/// A converged run of the reference solver from a start where every free
/// cell is reached below the threshold and none lies below its clamped best
/// cost ends with the costs of the greatest settled state below the start.
pub proof fn lemma_reference_greatest(s0: Seq<State>, acts: Seq<Action>, nx: int, ny: int, nt: int, max_iter: u32,
    s2: Seq<State>, r: (u32, u64, bool)) -> (g: Seq<State>)
    requires
        reference_result(s0, acts, nx, ny, nt, max_iter, s2, r),
        r.2,
        agree_ok(s0, acts, nt),
        states_ok(s0, nx, ny, nt),
        reached_below(s0),
        above_best(s0, acts, nx, ny, nt),
    ensures
        greatest_settled(g, s0, acts, nx, ny, nt),
        s2.len() == s0.len(),
        forall|k: int| 0 <= k < s0.len() ==> (#[trigger] s2[k]).total_cost == g[k].total_cost,
{
    assert(all_reached(s0));
    let n = r.0 as nat;
    let a = sweeps(s0, acts, (n - 1) as nat, nx, ny, nt);
    let qa = lower_sweeps(s0, acts, (n - 1) as nat, nx, ny, nt);
    lemma_sweeps_same(s0, acts, nx, ny, nt, (n - 1) as nat);
    lemma_sweeps_same(s0, acts, nx, ny, nt, n);
    let qb = lower_sweeps(s0, acts, n, nx, ny, nt);
    assert(qb == lower_upto(qa, acts, qa.len() as int, nx, ny, nt));
    assert(reached_stable(a, s2));
    lemma_lower_upto_below(qa, acts, qa.len() as int, nx, ny, nt);
    assert(qb =~= qa) by {
        assert forall|i: int| 0 <= i < qa.len() implies qb[i] == qa[i] by {
            assert(qb[i] == (State { total_cost: qb[i].total_cost, ..qa[i] }));
            assert(qa[i] == (State { total_cost: qa[i].total_cost, ..s0[i] }));
            assert(qb[i] == (State { total_cost: qb[i].total_cost, ..s0[i] }));
            if updatable(qa, i) {
                assert(s2[i] == (State { optimal_action: s2[i].optimal_action, ..qb[i] }));
                assert(a[i] == (State { optimal_action: a[i].optimal_action, ..qa[i] }));
                assert(s2[i].total_cost < REACH_THRESH);
            }
        }
    }
    lemma_still_settles(qa, acts, qa.len() as int, nx, ny, nt);
    assert(settled(qa, acts, nx, ny, nt));
    assert forall|k: int| 0 <= k < s0.len() implies (#[trigger] s2[k]).total_cost == qa[k].total_cost by {
        assert(s2[k] == (State { optimal_action: s2[k].optimal_action, ..qb[k] }));
    }
    qa
}

} // verus!
