//! Top-k approximation of the integer model: each action keeps only its `k`
//! most probable outcomes, and its expected cost is normalized by the kept
//! probability mass.  An action with at most `k` outcomes keeps the exact cost.
use vstd::prelude::*;
use vstd::wrapping::u64_specs;
use crate::reference::params::MAX_COST;
use crate::reference::state::{Action, State, StateTransition};
use crate::reference::value_iterator::{StateSpace, index_of, layout_ok, in_grid, action_ok, actions_ok, transition_ok, outcomes,
    outcome_blocked, outcome_cost, cost_of, action_cost_raw, to_index_raw, lemma_index_bound, states_ok, updatable};
use crate::algorithm::topk::is_pick;
use crate::bitboard::fits3;
use crate::reference::solvers::frontier::{frontier3d_run, frontier3d_result, frontier_ok, round3, rounds3, step3, frontier_run3,
    lemma_round3};
use crate::reference::value_iterator::{best_of, update_at};

verus! {

/// The outcome weights as unsigned integers.
pub open spec fn prob_seq(trs: Seq<StateTransition>) -> Seq<u32> {
    Seq::new(trs.len(), |i: int| trs[i].prob as u32)
}

/// The first `k` greedy picks among the first `lim` weights of `p`: each the
/// largest weight not yet picked, ties going to the earlier index.
pub open spec fn greedy_sel(p: Seq<u32>, lim: int, k: nat) -> Seq<int>
    decreases k,
{
    if k == 0 {
        Seq::empty()
    } else {
        let prev = greedy_sel(p, lim, (k - 1) as nat);
        prev.push(choose|i: int| is_pick(p, lim, prev.to_set(), i))
    }
}

/// `greedy_sel` gives `k` picks.
pub proof fn lemma_greedy_len(p: Seq<u32>, lim: int, k: nat)
    ensures
        greedy_sel(p, lim, k).len() == k,
    decreases k,
{
    if k > 0 {
        lemma_greedy_len(p, lim, (k - 1) as nat);
    }
}

/// A greedy pick is unique.
pub proof fn lemma_pick_unique(p: Seq<u32>, lim: int, used: Set<int>, i: int, j: int)
    requires
        is_pick(p, lim, used, i),
        is_pick(p, lim, used, j),
    ensures
        i == j,
{
    assert(p[j] <= p[i] && (j < i ==> p[j] < p[i]));
    assert(p[i] <= p[j] && (i < j ==> p[i] < p[j]));
}

/// Some kept outcome leaves the map or lands on a cell that is not free.
pub open spec fn sel_blocked(states: Seq<State>, s: State, trs: Seq<StateTransition>, sel: Seq<int>, nx: int, ny: int, nt: int) -> bool {
    exists|d: int| 0 <= d < sel.len() && #[trigger] outcome_blocked(states, s, trs[sel[d]], nx, ny, nt)
}

/// Wrapping sum of the weighted costs of the kept outcomes, in pick order.
pub open spec fn sel_sum(states: Seq<State>, s: State, trs: Seq<StateTransition>, sel: Seq<int>, nx: int, nt: int) -> u64
    decreases sel.len(),
{
    if sel.len() == 0 {
        0
    } else {
        u64_specs::wrapping_add(sel_sum(states, s, trs, sel.drop_last(), nx, nt), outcome_cost(states, s, trs[sel.last()], nx, nt))
    }
}

/// Sum of the weights of the kept outcomes.
pub open spec fn sel_mass(trs: Seq<StateTransition>, sel: Seq<int>) -> int
    decreases sel.len(),
{
    if sel.len() == 0 { 0 } else { sel_mass(trs, sel.drop_last()) + trs[sel.last()].prob }
}

/// Expected cost of an action with outcomes `trs` from `s` kept to `k`
/// outcomes: the exact cost when it has at most `k`; otherwise `MAX_COST` when
/// a kept outcome is blocked or the kept weights sum to zero, else the
/// weighted sum of the kept outcomes divided by their total weight.
pub open spec fn topk_cost(states: Seq<State>, trs: Seq<StateTransition>, s: State, k: u32, nx: int, ny: int, nt: int) -> u64 {
    if trs.len() <= k {
        cost_of(states, trs, s, nx, ny, nt)
    } else {
        let sel = greedy_sel(prob_seq(trs), trs.len() as int, k as nat);
        if sel_blocked(states, s, trs, sel, nx, ny, nt) || sel_mass(trs, sel) == 0 {
            MAX_COST
        } else {
            (sel_sum(states, s, trs, sel, nx, nt) as int / sel_mass(trs, sel)) as u64
        }
    }
}

/// The weights of the outcomes are non-negative.
pub open spec fn probs_ok(actions: Seq<Action>) -> bool {
    forall|a: int, t: int, j: int| 0 <= a < actions.len() && 0 <= t < actions[a].state_transitions@.len()
        && 0 <= j < actions[a].state_transitions@[t]@.len() ==> 0 <= (#[trigger] actions[a].state_transitions@[t]@[j]).prob
}

/// The greedy picks among the first `lim` weights of `p`, `k` of them.
fn greedy_picks_exec(p: &Vec<u32>, k: usize) -> (r: Vec<usize>)
    requires
        k <= p@.len(),
    ensures
        r@.len() == k,
        forall|d: int| 0 <= d < k ==> (#[trigger] r@[d]) as int == greedy_sel(p@, p@.len() as int, k as nat)[d],
        forall|d: int| 0 <= d < k ==> (#[trigger] r@[d]) < p@.len(),
{
    let n = p.len();
    let mut used: Vec<bool> = Vec::new();
    let mut i0: usize = 0;
    while i0 < n
        invariant
            0 <= i0 <= n,
            n == p@.len(),
            used@.len() == i0,
            forall|j: int| 0 <= j < i0 ==> !#[trigger] used@[j],
        decreases n - i0,
    {
        used.push(false);
        i0 += 1;
    }
    let mut sel: Vec<usize> = Vec::new();
    let mut d: usize = 0;
    while d < k
        invariant
            0 <= d <= k,
            k <= n,
            n == p@.len(),
            used@.len() == n,
            sel@.len() == d,
            forall|e: int| 0 <= e < d ==> (#[trigger] sel@[e]) as int == greedy_sel(p@, n as int, d as nat)[e],
            forall|e: int| 0 <= e < d ==> (#[trigger] sel@[e]) < n,
            forall|j: int| 0 <= j < n ==> (#[trigger] used@[j] <==> greedy_sel(p@, n as int, d as nat).to_set().contains(j)),
            greedy_sel(p@, n as int, d as nat).len() == d,
            forall|e: int| 0 <= e < d ==> 0 <= #[trigger] greedy_sel(p@, n as int, d as nat)[e] < n,
            forall|e1: int, e2: int| 0 <= e1 < e2 < d ==> greedy_sel(p@, n as int, d as nat)[e1] != greedy_sel(p@, n as int, d as nat)[e2],
        decreases k - d,
    {
        let ghost prev = greedy_sel(p@, n as int, d as nat);
        proof {
            // An unused index exists: `d < n` distinct indices are used.
            let l = prev;
            if forall|j: int| 0 <= j < n ==> prev.to_set().contains(j) {
                assert(vstd::set_lib::set_int_range(0, n as int).subset_of(prev.to_set()));
                vstd::set_lib::lemma_int_range(0, n as int);
                prev.unique_seq_to_set();
                vstd::set_lib::lemma_len_subset(vstd::set_lib::set_int_range(0, n as int), prev.to_set());
            }
        }
        let ghost free_j = choose|j: int| 0 <= j < n && !prev.to_set().contains(j);
        proof {
            assert(0 <= free_j < n && !used@[free_j]);
        }
        let mut best: usize = n;
        let mut i: usize = 0;
        while i < n
            invariant
                0 <= i <= n,
                n == p@.len(),
                used@.len() == n,
                best == n || (best < i && !used@[best as int]),
                0 <= free_j < n && !used@[free_j],
                forall|j: int| 0 <= j < i && !(#[trigger] used@[j]) ==> best < n,
                forall|j: int| 0 <= j < i && !used@[j] ==> (#[trigger] p@[j] <= p@[best as int] && (j < best ==> p@[j] < p@[best as int])),
            decreases n - i,
        {
            let ghost ob = best;
            if !used[i] && (best == n || p[i] > p[best]) {
                best = i;
            }
            proof {
                assert forall|j: int| 0 <= j < i + 1 && !(#[trigger] used@[j]) implies best < n by {
                    if j < i {
                        assert(ob < n);
                    }
                }
                assert forall|j: int| 0 <= j < i + 1 && !used@[j] implies
                    (#[trigger] p@[j] <= p@[best as int] && (j < best ==> p@[j] < p@[best as int])) by {
                    if j < i {
                        assert(ob < n);
                        assert(p@[j] <= p@[ob as int]);
                    }
                }
            }
            i += 1;
        }
        proof {
            assert(!used@[free_j]);
            assert(best < n);
            assert(!used@[best as int]);
            assert(!prev.to_set().contains(best as int));
            assert(is_pick(p@, n as int, prev.to_set(), best as int)) by {
                assert forall|j: int| 0 <= j < n && !prev.to_set().contains(j) implies #[trigger] p@[j] <= p@[best as int]
                    && (j < best ==> p@[j] < p@[best as int]) by {
                    assert(!used@[j]);
                }
            }
            let c = choose|i2: int| is_pick(p@, n as int, prev.to_set(), i2);
            lemma_pick_unique(p@, n as int, prev.to_set(), best as int, c);
        }
        sel.push(best);
        used.set(best, true);
        proof {
            let nxt = greedy_sel(p@, n as int, (d + 1) as nat);
            assert(nxt == prev.push(best as int));
            assert forall|j: int| 0 <= j < n implies (#[trigger] used@[j] <==> nxt.to_set().contains(j)) by {
                if j == best {
                    assert(nxt[d as int] == j);
                } else {
                    if nxt.to_set().contains(j) {
                        let e = choose|e: int| 0 <= e < nxt.len() && nxt[e] == j;
                        if e < d {
                            assert(prev[e] == j);
                        }
                    }
                    if prev.to_set().contains(j) {
                        let e = choose|e: int| 0 <= e < prev.len() && prev[e] == j;
                        assert(nxt[e] == j);
                    }
                }
            }
            assert forall|e: int| 0 <= e < d + 1 implies (#[trigger] sel@[e]) as int == nxt[e] by {
                if e < d {
                    assert(nxt[e] == prev[e]);
                }
            }
            assert forall|e1: int, e2: int| 0 <= e1 < e2 < d + 1 implies nxt[e1] != nxt[e2] by {
                if e2 == d {
                    assert(prev.to_set().contains(prev[e1]));
                    assert(used@[prev[e1]] || true);
                }
            }
        }
        d += 1;
    }
    sel
}

/// Expected cost of taking `a` from `s` with its outcomes kept to `k`; see [`topk_cost`].
pub fn action_cost_topk(states: &Vec<State>, a: &Action, s: &State, k: u32, cell_num_x: i32, cell_num_y: i32, cell_num_t: i32) -> (r: u64)
    requires
        layout_ok(states@.len() as int, cell_num_x as int, cell_num_y as int, cell_num_t as int),
        in_grid(*s, cell_num_x as int, cell_num_y as int, cell_num_t as int),
        action_ok(*a, cell_num_x as int, cell_num_y as int, cell_num_t as int),
        forall|j: int| 0 <= j < outcomes(*a, *s).len() ==> 0 <= (#[trigger] outcomes(*a, *s)[j]).prob,
    ensures
        r == topk_cost(states@, outcomes(*a, *s), *s, k, cell_num_x as int, cell_num_y as int, cell_num_t as int),
{
    let ghost nx = cell_num_x as int;
    let ghost ny = cell_num_y as int;
    let ghost nt = cell_num_t as int;
    let trans = &a.state_transitions[s.it as usize];
    let ghost trs = trans@;
    let n = trans.len();
    if n <= k as usize {
        return action_cost_raw(states, a, s, cell_num_x, cell_num_y, cell_num_t);
    }
    proof {
        assert(trs == outcomes(*a, *s));
        assert forall|j: int| 0 <= j < trs.len() implies 0 <= (#[trigger] trs[j]).prob by {
            assert(outcomes(*a, *s)[j] == trs[j]);
        }
        lemma_greedy_len(prob_seq(trs), n as int, k as nat);
        assert forall|j: int| 0 <= j < trs.len() implies transition_ok(#[trigger] trs[j], nx, ny, nt) by {
            assert(a.state_transitions@[s.it as int]@[j] == trs[j]);
        }
    }
    let mut p: Vec<u32> = Vec::new();
    let mut i: usize = 0;
    while i < n
        invariant
            0 <= i <= n,
            n == trs.len(),
            trs == trans@,
            p@.len() == i,
            forall|j: int| 0 <= j < i ==> #[trigger] p@[j] == trs[j].prob as u32,
        decreases n - i,
    {
        p.push(trans[i].prob as u32);
        i += 1;
    }
    proof {
        assert(p@ =~= prob_seq(trs));
    }
    let sel = greedy_picks_exec(&p, k as usize);
    let ghost gs = greedy_sel(prob_seq(trs), n as int, k as nat);
    let mut cost: u64 = 0;
    let mut psum: u64 = 0;
    let mut d: usize = 0;
    while d < k as usize
        invariant
            0 <= d <= k,
            k < n,
            n == trs.len(),
            trs == trans@,
            trs == outcomes(*a, *s),
            sel@.len() == k,
            gs == greedy_sel(prob_seq(trs), n as int, k as nat),
            gs.len() == k,
            forall|e: int| 0 <= e < k ==> (#[trigger] sel@[e]) as int == gs[e],
            forall|e: int| 0 <= e < k ==> (#[trigger] sel@[e]) < n,
            layout_ok(states@.len() as int, nx, ny, nt),
            in_grid(*s, nx, ny, nt),
            nx == cell_num_x,
            ny == cell_num_y,
            nt == cell_num_t,
            forall|j: int| 0 <= j < trs.len() ==> transition_ok(#[trigger] trs[j], nx, ny, nt),
            forall|j: int| 0 <= j < trs.len() ==> 0 <= (#[trigger] trs[j]).prob,
            forall|e: int| 0 <= e < d ==> !#[trigger] outcome_blocked(states@, *s, trs[gs[e]], nx, ny, nt),
            cost == sel_sum(states@, *s, trs, gs.take(d as int), nx, nt),
            psum == sel_mass(trs, gs.take(d as int)),
            psum <= d * 0x7fff_ffff,
        decreases k - d,
    {
        let i = sel[d];
        let tran = &trans[i];
        proof {
            assert(transition_ok(trs[i as int], nx, ny, nt));
            assert(gs.take(d + 1).drop_last() =~= gs.take(d as int));
            assert(gs.take(d + 1).last() == i as int);
        }
        let ix = s.ix + tran.dix;
        if ix < 0 || ix >= cell_num_x {
            proof {
                assert(outcome_blocked(states@, *s, trs[gs[d as int]], nx, ny, nt));
                assert(sel_blocked(states@, *s, trs, gs, nx, ny, nt));
                assert(greedy_sel(prob_seq(trs), trs.len() as int, k as nat) == gs);
                assert(topk_cost(states@, trs, *s, k, nx, ny, nt) == MAX_COST);
            }
            return MAX_COST;
        }
        let iy = s.iy + tran.diy;
        if iy < 0 || iy >= cell_num_y {
            proof {
                assert(outcome_blocked(states@, *s, trs[gs[d as int]], nx, ny, nt));
                assert(sel_blocked(states@, *s, trs, gs, nx, ny, nt));
                assert(greedy_sel(prob_seq(trs), trs.len() as int, k as nat) == gs);
                assert(topk_cost(states@, trs, *s, k, nx, ny, nt) == MAX_COST);
            }
            return MAX_COST;
        }
        let it = (tran.dit + cell_num_t) % cell_num_t;
        proof {
            lemma_index_bound(ix as int, iy as int, it as int, nx, ny, nt);
        }
        let idx = to_index_raw(ix, iy, it, cell_num_x, cell_num_t) as usize;
        let after = &states[idx];
        if !after.free {
            proof {
                assert(outcome_blocked(states@, *s, trs[gs[d as int]], nx, ny, nt));
                assert(sel_blocked(states@, *s, trs, gs, nx, ny, nt));
                assert(greedy_sel(prob_seq(trs), trs.len() as int, k as nat) == gs);
                assert(topk_cost(states@, trs, *s, k, nx, ny, nt) == MAX_COST);
            }
            return MAX_COST;
        }
        let term = after.total_cost.wrapping_add(after.penalty).wrapping_add(after.local_penalty).wrapping_mul(#[verifier::truncate] (tran.prob as u64));
        proof {
            assert(term == outcome_cost(states@, *s, trs[gs[d as int]], nx, nt));
            assert(0 <= tran.prob <= 0x7fff_ffff);
            assert(d * 0x7fff_ffff + 0x7fff_ffff == (d + 1) * 0x7fff_ffff) by (nonlinear_arith);
            assert((d + 1) * 0x7fff_ffff <= 0xffff_ffff * 0x7fff_ffff) by (nonlinear_arith) requires d + 1 <= 0xffff_ffff;
        }
        cost = cost.wrapping_add(term);
        psum = psum + tran.prob as u64;
        d += 1;
    }
    proof {
        assert(gs.take(k as int) =~= gs);
        assert(!sel_blocked(states@, *s, trs, gs, nx, ny, nt));
    }
    if psum == 0 {
        return MAX_COST;
    }
    cost / psum
}

/// The best action from `s` under [`topk_cost`], scanning the actions in order
/// and keeping the first strictly cheaper one, from `(MAX_COST, None)`.
pub open spec fn topk_best(states: Seq<State>, actions: Seq<Action>, s: State, k: u32, nx: int, ny: int, nt: int) -> (u64, Option<usize>)
    decreases actions.len(),
{
    if actions.len() == 0 {
        (MAX_COST, None)
    } else {
        let prev = topk_best(states, actions.drop_last(), s, k, nx, ny, nt);
        let c = topk_cost(states, outcomes(actions.last(), s), s, k, nx, ny, nt);
        if c < prev.0 {
            (c, Some((actions.len() - 1) as usize))
        } else {
            prev
        }
    }
}

/// The top-k update of `states[idx]`: a free state outside the goal takes the
/// cost and the index of its best action under [`topk_cost`]; others are left alone.
pub open spec fn topk_update_at(states: Seq<State>, actions: Seq<Action>, idx: int, k: u32, nx: int, ny: int, nt: int) -> Seq<State> {
    if updatable(states, idx) {
        let b = topk_best(states, actions, states[idx], k, nx, ny, nt);
        states.update(idx, State { total_cost: b.0, optimal_action: b.1, ..states[idx] })
    } else {
        states
    }
}

/// [`topk_best`] never exceeds `MAX_COST`, and names an action when below it.
pub proof fn lemma_topk_best(states: Seq<State>, actions: Seq<Action>, s: State, k: u32, nx: int, ny: int, nt: int)
    ensures
        topk_best(states, actions, s, k, nx, ny, nt).0 <= MAX_COST,
        topk_best(states, actions, s, k, nx, ny, nt).1 matches Some(i) ==> i < actions.len(),
    decreases actions.len(),
{
    if actions.len() > 0 {
        lemma_topk_best(states, actions.drop_last(), s, k, nx, ny, nt);
    }
}

/// The top-k update of `states[idx]` in place; gives whether its cost fell.
pub fn topk_update(vi: &mut StateSpace, idx: usize, k: u32) -> (r: bool)
    requires
        old(vi).wf(),
        probs_ok(old(vi).actions@),
        idx < old(vi).states@.len(),
    ensures
        final(vi).wf(),
        final(vi).actions@ == old(vi).actions@,
        final(vi).cell_num_x == old(vi).cell_num_x,
        final(vi).cell_num_y == old(vi).cell_num_y,
        final(vi).cell_num_t == old(vi).cell_num_t,
        final(vi).states@ == topk_update_at(old(vi).states@, old(vi).actions@, idx as int, k,
            old(vi).cell_num_x as int, old(vi).cell_num_y as int, old(vi).cell_num_t as int),
        r == (final(vi).states@[idx as int].total_cost < old(vi).states@[idx as int].total_cost),
{
    let ghost st = vi.states@;
    let ghost acts = vi.actions@;
    let ghost nx = vi.cell_num_x as int;
    let ghost ny = vi.cell_num_y as int;
    let ghost nt = vi.cell_num_t as int;
    if !vi.states[idx].free || vi.states[idx].final_state {
        return false;
    }
    let old_cost = vi.states[idx].total_cost;
    let mut min_cost: u64 = MAX_COST;
    let mut min_a: Option<usize> = None;
    let s = vi.states[idx];
    proof {
        assert(st[idx as int] == s);
        assert(in_grid(s, nx, ny, nt));
    }
    let mut ai: usize = 0;
    while ai < vi.actions.len()
        invariant
            0 <= ai <= acts.len(),
            acts == vi.actions@,
            st == vi.states@,
            vi.wf(),
            nx == vi.cell_num_x,
            ny == vi.cell_num_y,
            nt == vi.cell_num_t,
            probs_ok(acts),
            s == st[idx as int],
            in_grid(s, nx, ny, nt),
            (min_cost, min_a) == topk_best(st, acts.take(ai as int), s, k, nx, ny, nt),
        decreases acts.len() - ai,
    {
        proof {
            assert(action_ok(acts[ai as int], nx, ny, nt));
            assert forall|j: int| 0 <= j < outcomes(acts[ai as int], s).len() implies 0 <= (#[trigger] outcomes(acts[ai as int], s)[j]).prob by {
                assert(outcomes(acts[ai as int], s)[j] == acts[ai as int].state_transitions@[s.it as int]@[j]);
            }
            assert(acts.take(ai + 1).drop_last() =~= acts.take(ai as int));
            assert(acts.take(ai + 1).last() == acts[ai as int]);
        }
        let c = action_cost_topk(&vi.states, &vi.actions[ai], &s, k, vi.cell_num_x, vi.cell_num_y, vi.cell_num_t);
        if c < min_cost {
            min_cost = c;
            min_a = Some(ai);
        }
        ai += 1;
    }
    proof {
        assert(acts.take(acts.len() as int) =~= acts);
        lemma_topk_best(st, acts, s, k, nx, ny, nt);
    }
    let mut s2 = s;
    s2.total_cost = min_cost;
    s2.optimal_action = min_a;
    vi.states.set(idx, s2);
    proof {
        assert forall|i: int| 0 <= i < vi.states@.len() implies {
            &&& in_grid(#[trigger] vi.states@[i], nx, ny, nt)
            &&& crate::reference::value_iterator::index_of(vi.states@[i].ix as int, vi.states@[i].iy as int, vi.states@[i].it as int, nx, nt) == i
            &&& vi.states@[i].total_cost <= i64::MAX
        } by {
            if i != idx {
                assert(vi.states@[i] == st[i]);
            }
        }
    }
    min_cost < old_cost
}

/// Every outcome list holds at most `k` outcomes.
pub open spec fn all_within_k(actions: Seq<Action>, k: u32) -> bool {
    forall|a: int, t: int| 0 <= a < actions.len() && 0 <= t < actions[a].state_transitions@.len()
        ==> (#[trigger] actions[a].state_transitions@[t])@.len() <= k
}

/// With at most `k` outcomes per list, the top-k best action is the exact one.
proof fn lemma_topk_best_exact(states: Seq<State>, actions: Seq<Action>, s: State, k: u32, nx: int, ny: int, nt: int)
    requires
        all_within_k(actions, k),
        actions_ok(actions, nx, ny, nt),
        0 <= s.it < nt,
    ensures
        topk_best(states, actions, s, k, nx, ny, nt) == best_of(states, actions, s, nx, ny, nt),
    decreases actions.len(),
{
    if actions.len() > 0 {
        let d = actions.drop_last();
        assert forall|a: int, t: int| 0 <= a < d.len() && 0 <= t < d[a].state_transitions@.len()
            implies (#[trigger] d[a].state_transitions@[t])@.len() <= k by {
            assert(d[a] == actions[a]);
        }
        assert forall|i: int| 0 <= i < d.len() implies action_ok(#[trigger] d[i], nx, ny, nt) by {
            assert(d[i] == actions[i]);
        }
        lemma_topk_best_exact(states, d, s, k, nx, ny, nt);
        let last = actions.last();
        assert(last == actions[actions.len() - 1]);
        assert(action_ok(last, nx, ny, nt));
        assert(outcomes(last, s).len() <= k);
    }
}

/// With at most `k` outcomes per list, the top-k update is the exact update.
pub proof fn lemma_topk_step_exact(states: Seq<State>, actions: Seq<Action>, idx: int, k: u32, nx: int, ny: int, nt: int)
    requires
        all_within_k(actions, k),
        actions_ok(actions, nx, ny, nt),
        states_ok(states, nx, ny, nt),
        0 <= idx < states.len(),
    ensures
        step3(states, actions, idx, nx, ny, nt, Some(k)) == step3(states, actions, idx, nx, ny, nt, None),
{
    assert(in_grid(states[idx], nx, ny, nt));
    lemma_topk_best_exact(states, actions, states[idx], k, nx, ny, nt);
}

/// With at most `k` outcomes per list, a round of the top-k frontier solver
/// is a round of the exact one.
proof fn lemma_round_exact(states: Seq<State>, actions: Seq<Action>, cells: Seq<(u32, u32, u32)>, k: u32, nx: int, ny: int, nt: int)
    requires
        all_within_k(actions, k),
        actions_ok(actions, nx, ny, nt),
        states_ok(states, nx, ny, nt),
        actions.len() <= usize::MAX,
        forall|i: int| 0 <= i < cells.len() ==> (#[trigger] cells[i]).0 < nx && cells[i].1 < ny && cells[i].2 < nt,
    ensures
        round3(states, actions, cells, nx, ny, nt, Some(k)) == round3(states, actions, cells, nx, ny, nt, None),
    decreases cells.len(),
{
    if cells.len() > 0 {
        let d = cells.drop_last();
        assert forall|i: int| 0 <= i < d.len() implies (#[trigger] d[i]).0 < nx && d[i].1 < ny && d[i].2 < nt by {
            assert(d[i] == cells[i]);
        }
        lemma_round_exact(states, actions, d, k, nx, ny, nt);
        lemma_round3(states, actions, d, nx, ny, nt, None);
        let p = round3(states, actions, d, nx, ny, nt, None);
        let c = cells.last();
        assert(c == cells[cells.len() - 1]);
        lemma_index_bound(c.0 as int, c.1 as int, c.2 as int, nx, ny, nt);
        lemma_topk_step_exact(p.0, actions, index_of(c.0 as int, c.1 as int, c.2 as int, nx, nt), k, nx, ny, nt);
    }
}

/// With at most `k` outcomes per list, the rounds of the top-k frontier solver
/// over in-grid candidates are the rounds of the exact one.
proof fn lemma_rounds_exact(states: Seq<State>, actions: Seq<Action>, f: Seq<Seq<Seq<bool>>>, hist: Seq<Seq<(u32, u32, u32)>>,
    k: u32, nx: int, ny: int, nt: int)
    requires
        all_within_k(actions, k),
        actions_ok(actions, nx, ny, nt),
        states_ok(states, nx, ny, nt),
        actions.len() <= usize::MAX,
        forall|r: int, i: int| 0 <= r < hist.len() && 0 <= i < hist[r].len() ==>
            (#[trigger] hist[r][i]).0 < nx && hist[r][i].1 < ny && hist[r][i].2 < nt,
    ensures
        rounds3(states, actions, f, hist, nx, ny, nt, Some(k)) == rounds3(states, actions, f, hist, nx, ny, nt, None),
        states_ok(rounds3(states, actions, f, hist, nx, ny, nt, None).0, nx, ny, nt),
    decreases hist.len(),
{
    if hist.len() > 0 {
        let d = hist.drop_last();
        assert forall|r: int, i: int| 0 <= r < d.len() && 0 <= i < d[r].len() implies
            (#[trigger] d[r][i]).0 < nx && d[r][i].1 < ny && d[r][i].2 < nt by {
            assert(d[r] == hist[r]);
        }
        lemma_rounds_exact(states, actions, f, d, k, nx, ny, nt);
        let p = rounds3(states, actions, f, d, nx, ny, nt, None);
        let l = hist.last();
        assert(l == hist[hist.len() - 1]);
        assert forall|i: int| 0 <= i < l.len() implies (#[trigger] l[i]).0 < nx && l[i].1 < ny && l[i].2 < nt by {
            assert(hist[hist.len() - 1][i] == l[i]);
        }
        lemma_round_exact(p.0, actions, l, k, nx, ny, nt);
        lemma_round3(p.0, actions, l, nx, ny, nt, None);
    }
}

/// When no action has more than `k` outcomes from any heading, keeping the
/// top `k` prunes nothing: a run of the top-k frontier solver is a run of the
/// exact frontier solver, with the same states, counts and outcome.
pub proof fn lemma_topk_full_is_exact(states: Seq<State>, actions: Seq<Action>, nx: int, ny: int, nt: int, m: (int, int, int),
    hist: Seq<Seq<(u32, u32, u32)>>, states2: Seq<State>, updates: u64, converged: bool, k: u32)
    requires
        states_ok(states, nx, ny, nt),
        actions_ok(actions, nx, ny, nt),
        actions.len() <= usize::MAX,
        all_within_k(actions, k),
        forall|r: int, i: int| 0 <= r < hist.len() && 0 <= i < hist[r].len() ==>
            (#[trigger] hist[r][i]).0 < nx && hist[r][i].1 < ny && hist[r][i].2 < nt,
    ensures
        frontier3d_result(states, actions, nx, ny, nt, m, hist, states2, updates, converged, Some(k))
            == frontier3d_result(states, actions, nx, ny, nt, m, hist, states2, updates, converged, None),
{
    let f0 = crate::reference::solvers::frontier::seed_view3(states, nx, ny, nt);
    lemma_rounds_exact(states, actions, f0, hist, k, nx, ny, nt);
    assert forall|r: int| 0 <= r <= hist.len() implies
        #[trigger] rounds3(states, actions, f0, hist.take(r), nx, ny, nt, Some(k)) == rounds3(states, actions, f0, hist.take(r), nx, ny, nt, None) by {
        let h = hist.take(r);
        assert forall|r2: int, i: int| 0 <= r2 < h.len() && 0 <= i < h[r2].len() implies
            (#[trigger] h[r2][i]).0 < nx && h[r2][i].1 < ny && h[r2][i].2 < nt by {
            assert(h[r2] == hist[r2]);
        }
        lemma_rounds_exact(states, actions, f0, h, k, nx, ny, nt);
    }
    if frontier_run3(states, actions, f0, hist, nx, ny, nt, m, Some(k)) {
        assert forall|r: int| 0 <= r < hist.len() implies {
            let p = #[trigger] rounds3(states, actions, f0, hist.take(r), nx, ny, nt, None);
            &&& crate::bitboard::enumerate::set_cells3(p.1, nx, ny, nt) != Set::<(int, int, int)>::empty()
            &&& crate::reference::solvers::frontier::lists_cells3(hist[r],
                crate::bitboard::ops::dilate_stack(p.1, nx, ny, nt, m.0, m.1, m.2), nx, ny, nt)
        } by {
            assert(rounds3(states, actions, f0, hist.take(r), nx, ny, nt, Some(k)) == rounds3(states, actions, f0, hist.take(r), nx, ny, nt, None));
        }
    }
    if frontier_run3(states, actions, f0, hist, nx, ny, nt, m, None) {
        assert forall|r: int| 0 <= r < hist.len() implies {
            let p = #[trigger] rounds3(states, actions, f0, hist.take(r), nx, ny, nt, Some(k));
            &&& crate::bitboard::enumerate::set_cells3(p.1, nx, ny, nt) != Set::<(int, int, int)>::empty()
            &&& crate::reference::solvers::frontier::lists_cells3(hist[r],
                crate::bitboard::ops::dilate_stack(p.1, nx, ny, nt, m.0, m.1, m.2), nx, ny, nt)
        } by {
            assert(rounds3(states, actions, f0, hist.take(r), nx, ny, nt, Some(k)) == rounds3(states, actions, f0, hist.take(r), nx, ny, nt, None));
        }
    }
    assert(frontier_run3(states, actions, f0, hist, nx, ny, nt, m, Some(k)) == frontier_run3(states, actions, f0, hist, nx, ny, nt, m, None));
}

/// Frontier solver over 3-D cells with the top-k update: like
/// [`crate::reference::solvers::frontier::frontier3d_solve`], but each
/// candidate takes the cost and action of its best action with the outcomes
/// kept to `k`; with `k` at least the number of outcomes of every action it is
/// the exact frontier solver.
pub fn frontier3d_topk_solve(vi: &mut StateSpace, k: u32, max_iter: u32) -> (r: (u32, u64, bool))
    requires
        old(vi).wf(),
        frontier_ok(old(vi).actions@),
        probs_ok(old(vi).actions@),
        fits3(old(vi).cell_num_x as u32, old(vi).cell_num_y as u32, old(vi).cell_num_t as u32),
    ensures
        final(vi).wf(),
        final(vi).actions@ == old(vi).actions@,
        final(vi).cell_num_x == old(vi).cell_num_x,
        final(vi).cell_num_y == old(vi).cell_num_y,
        final(vi).cell_num_t == old(vi).cell_num_t,
        r.0 <= max_iter,
        exists|m: (int, int, int), hist: Seq<Seq<(u32, u32, u32)>>|
            #[trigger] frontier3d_result(old(vi).states@, old(vi).actions@, old(vi).cell_num_x as int, old(vi).cell_num_y as int,
                old(vi).cell_num_t as int, m, hist, final(vi).states@, r.1, r.2, Some(k))
            && hist.len() == r.0 && (r.2 || r.0 == max_iter),
{
    frontier3d_run(vi, max_iter, Some(k))
}

} // verus!
