//! Where the padded Gauss–Seidel solver ends: it writes the clamped best cost
//! and action of every cell it visits.  From a start where no cell lies below
//! its clamped best cost (as from the usual start, where every cell that takes
//! part in the update is unreached) it never raises a cost, so its costs follow
//! the asynchronous lowering rounds over the same lists of cells, and a
//! converged run ends at the greatest settled state below the start.
use vstd::prelude::*;
use crate::reference::params::MAX_COST;
use crate::reference::state::{Action, State, StateTransition};
use crate::reference::value_iterator::{index_of, states_ok, outcome_cell, outcome_cost, outcome_blocked, updatable, in_grid,
    lemma_index_bound, outcomes};
use crate::reference::solvers::fused::{clamped_cost, clamped_best, outcome_unreached, outcomes_settled,
    lemma_clamped_update_is_reference};
use crate::reference::solvers::greatest::below;
use crate::reference::solvers::settle::lemma_sum_eq;
use crate::reference::solvers::frontier::{step2, column2, round2, rounds2};
use crate::reference::solvers::par_unsafe::{lower_at, gs_column, gs_round, gs_rounds};
use crate::reference::solvers::greatest::{agree_ok, lowering_inv, lemma_lower_step, lemma_room, room, mono_ok, costs_le,
    lemma_best_mono, lemma_best_source, hist_in_grid, lemma_inv_start, greatest_settled, lemma_below_ok};
use crate::reference::solvers::frontier::{frontier2d_result, is_displacement, lists_cells2, seed_view2};
use crate::reference::solvers::par_unsafe::{lemma_gs_round, lemma_gs_round_covers, lemma_order_ok};
use crate::reference::solvers::settle::{capped, covered, nonempty_outcomes, lemma_seed_covers, lemma_listed_ok, lemma_empty_settles};
use crate::bitboard::ops::dilate_grid;

verus! {

/// `p` and `q` agree on every state but for the chosen actions.
pub open spec fn same_costs(p: Seq<State>, q: Seq<State>) -> bool {
    &&& p.len() == q.len()
    &&& forall|j: int| 0 <= j < p.len() ==> #[trigger] p[j] == (State { optimal_action: p[j].optimal_action, ..q[j] })
}

/// No state of `s` that takes part in the update lies below its clamped best cost.
pub open spec fn above_best(s: Seq<State>, acts: Seq<Action>, nx: int, ny: int, nt: int) -> bool {
    forall|i: int| 0 <= i < s.len() && #[trigger] updatable(s, i) ==> clamped_best(s, acts, s[i], nx, ny, nt).0 <= s[i].total_cost
}

/// The clamped cost does not read the chosen actions.
pub proof fn lemma_cost_same(p: Seq<State>, q: Seq<State>, trs: Seq<StateTransition>, x: State, nx: int, ny: int, nt: int)
    requires
        same_costs(p, q),
        p.len() == nx * ny * nt,
        0 < nt,
    ensures
        clamped_cost(p, trs, x, nx, ny, nt) == clamped_cost(q, trs, x, nx, ny, nt),
{
    assert forall|k: int| 0 <= k < trs.len() implies
        #[trigger] outcome_unreached(p, x, trs[k], nx, ny, nt) == outcome_unreached(q, x, trs[k], nx, ny, nt)
        && (!outcome_blocked(q, x, trs[k], nx, ny, nt) ==> outcome_cost(p, x, trs[k], nx, nt) == outcome_cost(q, x, trs[k], nx, nt)) by {
        let c = outcome_cell(x, trs[k], nt);
        if 0 <= c.0 < nx && 0 <= c.1 < ny {
            lemma_index_bound(c.0, c.1, c.2, nx, ny, nt);
            let j = index_of(c.0, c.1, c.2, nx, nt);
            assert(p[j] == (State { optimal_action: p[j].optimal_action, ..q[j] }));
        }
    }
    if exists|k: int| 0 <= k < trs.len() && #[trigger] outcome_unreached(q, x, trs[k], nx, ny, nt) {
        let k = choose|k: int| 0 <= k < trs.len() && #[trigger] outcome_unreached(q, x, trs[k], nx, ny, nt);
        assert(outcome_unreached(p, x, trs[k], nx, ny, nt));
    } else {
        assert forall|k: int| 0 <= k < trs.len() implies #[trigger] outcome_cost(p, x, trs[k], nx, nt) == outcome_cost(q, x, trs[k], nx, nt) by {
            assert(!outcome_unreached(q, x, trs[k], nx, ny, nt));
            assert(outcome_unreached(p, x, trs[k], nx, ny, nt) == outcome_unreached(q, x, trs[k], nx, ny, nt));
        }
        lemma_sum_eq(q, p, x, x, trs, nx, nt);
        assert forall|k: int| 0 <= k < trs.len() implies !#[trigger] outcome_unreached(p, x, trs[k], nx, ny, nt) by {
            assert(!outcome_unreached(q, x, trs[k], nx, ny, nt));
        }
    }
}

/// The clamped best cost and action do not read the chosen actions.
pub proof fn lemma_best_same(p: Seq<State>, q: Seq<State>, acts: Seq<Action>, x: State, nx: int, ny: int, nt: int)
    requires
        same_costs(p, q),
        p.len() == nx * ny * nt,
        0 < nt,
    ensures
        clamped_best(p, acts, x, nx, ny, nt) == clamped_best(q, acts, x, nx, ny, nt),
    decreases acts.len(),
{
    if acts.len() > 0 {
        lemma_best_same(p, q, acts.drop_last(), x, nx, ny, nt);
        lemma_cost_same(p, q, outcomes(acts.last(), x), x, nx, ny, nt);
    }
}

/// One update of the padded solver from `p` writes the cost that one clamped
/// lowering writes from `q`, and keeps `q` above its clamped best costs.
pub proof fn lemma_pad_step(s0: Seq<State>, acts: Seq<Action>, nx: int, ny: int, nt: int, p: Seq<State>, q: Seq<State>, idx: int)
    requires
        agree_ok(s0, acts, nt),
        states_ok(s0, nx, ny, nt),
        lowering_inv(q, s0, acts, nx, ny, nt),
        above_best(q, acts, nx, ny, nt),
        same_costs(p, q),
        0 <= idx < q.len(),
    ensures
        ({
            let p2 = step2(p, acts, idx, nx, ny, nt, true);
            let q2 = lower_at(q, acts, idx, nx, ny, nt);
            &&& same_costs(p2, q2)
            &&& lowering_inv(q2, s0, acts, nx, ny, nt)
            &&& above_best(q2, acts, nx, ny, nt)
            &&& (p2[idx].total_cost < p[idx].total_cost) == (q2[idx].total_cost < q[idx].total_cost)
        }),
{
    let p2 = step2(p, acts, idx, nx, ny, nt, true);
    let q2 = lower_at(q, acts, idx, nx, ny, nt);
    assert(q.len() == s0.len());
    assert(q[idx] == (State { total_cost: q[idx].total_cost, ..s0[idx] }));
    assert(in_grid(s0[idx], nx, ny, nt));
    assert(0 < nt);
    assert(p[idx] == (State { optimal_action: p[idx].optimal_action, ..q[idx] }));
    lemma_best_same(p, q, acts, p[idx], nx, ny, nt);
    lemma_best_source(q, acts, p[idx], q[idx], nx, ny, nt);
    let b = clamped_best(q, acts, q[idx], nx, ny, nt);
    if updatable(q, idx) {
        assert(b.0 <= q[idx].total_cost);
        if b.0 < q[idx].total_cost {
            lemma_lower_step(s0, acts, nx, ny, nt, q, q, idx);
            assert(q2 == q.update(idx, State { total_cost: b.0, ..q[idx] }));
            lemma_room(q, s0, acts, nt);
            let r = room(q, s0);
            assert(costs_le(q2, q));
            assert(mono_ok(q2, q, s0, acts, nt, r));
            assert forall|i: int| 0 <= i < q2.len() && #[trigger] updatable(q2, i)
                implies clamped_best(q2, acts, q2[i], nx, ny, nt).0 <= q2[i].total_cost by {
                assert(q2[i] == (State { total_cost: q2[i].total_cost, ..s0[i] }));
                assert(q[i] == (State { total_cost: q[i].total_cost, ..s0[i] }));
                assert(in_grid(s0[i], nx, ny, nt));
                lemma_best_mono(q2, q, s0, acts, q2[i], nx, ny, nt, r, acts.len() as int);
                assert(acts.take(acts.len() as int) =~= acts);
                lemma_best_source(q, acts, q2[i], q[i], nx, ny, nt);
                assert(updatable(q, i));
            }
            assert forall|j: int| 0 <= j < p2.len() implies #[trigger] p2[j] == (State { optimal_action: p2[j].optimal_action, ..q2[j] }) by {
                assert(p[j] == (State { optimal_action: p[j].optimal_action, ..q[j] }));
            }
        } else {
            assert(q2 == q);
            assert forall|j: int| 0 <= j < p2.len() implies #[trigger] p2[j] == (State { optimal_action: p2[j].optimal_action, ..q2[j] }) by {
                assert(p[j] == (State { optimal_action: p[j].optimal_action, ..q[j] }));
            }
        }
    } else {
        assert(q2 == q);
        assert(p2 == p);
    }
}

/// The updates of headings `0 .. k` of column `c` by the padded solver write
/// the costs of the asynchronous lowering of the same column, and count the
/// same lowered costs.
pub proof fn lemma_pad_column(s0: Seq<State>, acts: Seq<Action>, nx: int, ny: int, nt: int, p: Seq<State>, q: Seq<State>,
    c: (u32, u32), k: int)
    requires
        agree_ok(s0, acts, nt),
        states_ok(s0, nx, ny, nt),
        lowering_inv(q, s0, acts, nx, ny, nt),
        above_best(q, acts, nx, ny, nt),
        same_costs(p, q),
        c.0 < nx,
        c.1 < ny,
        0 <= k <= nt,
    ensures
        ({
            let pc = column2(p, acts, c.0 as int, c.1 as int, k, nx, ny, nt, true);
            let qc = gs_column(q, acts, c, k, nx, ny, nt);
            &&& same_costs(pc.0, qc.0)
            &&& pc.1 == qc.1
            &&& lowering_inv(qc.0, s0, acts, nx, ny, nt)
            &&& above_best(qc.0, acts, nx, ny, nt)
        }),
    decreases k,
{
    if k > 0 {
        lemma_pad_column(s0, acts, nx, ny, nt, p, q, c, k - 1);
        let pp = column2(p, acts, c.0 as int, c.1 as int, k - 1, nx, ny, nt, true);
        let qq = gs_column(q, acts, c, k - 1, nx, ny, nt);
        let idx = index_of(c.0 as int, c.1 as int, k - 1, nx, nt);
        lemma_index_bound(c.0 as int, c.1 as int, k - 1, nx, ny, nt);
        assert(qq.0.len() == s0.len());
        lemma_pad_step(s0, acts, nx, ny, nt, pp.0, qq.0, idx);
    }
}

/// A round of the padded solver over `cells` writes the costs of the
/// asynchronous lowering round over the same list, and marks the same columns.
pub proof fn lemma_pad_round(s0: Seq<State>, acts: Seq<Action>, nx: int, ny: int, nt: int, p: Seq<State>, q: Seq<State>,
    cells: Seq<(u32, u32)>)
    requires
        agree_ok(s0, acts, nt),
        states_ok(s0, nx, ny, nt),
        lowering_inv(q, s0, acts, nx, ny, nt),
        above_best(q, acts, nx, ny, nt),
        same_costs(p, q),
        forall|j: int| 0 <= j < cells.len() ==> (#[trigger] cells[j]).0 < nx && cells[j].1 < ny,
    ensures
        ({
            let pr = round2(p, acts, cells, nx, ny, nt, true);
            let qr = gs_round(q, acts, cells, nx, ny, nt);
            &&& same_costs(pr.0, qr.0)
            &&& pr.1 == qr.1
            &&& pr.2 == qr.2
            &&& lowering_inv(qr.0, s0, acts, nx, ny, nt)
            &&& above_best(qr.0, acts, nx, ny, nt)
        }),
    decreases cells.len(),
{
    if cells.len() > 0 {
        let pc = cells.drop_last();
        assert forall|j: int| 0 <= j < pc.len() implies (#[trigger] pc[j]).0 < nx && pc[j].1 < ny by {
            assert(pc[j] == cells[j]);
        }
        lemma_pad_round(s0, acts, nx, ny, nt, p, q, pc);
        let pr = round2(p, acts, pc, nx, ny, nt, true);
        let qr = gs_round(q, acts, pc, nx, ny, nt);
        let c = cells.last();
        assert(c == cells[cells.len() - 1]);
        lemma_pad_column(s0, acts, nx, ny, nt, pr.0, qr.0, c, nt);
    }
}

/// From a start above its clamped best costs, the rounds of the padded solver
/// over `hist` write the costs of the asynchronous lowering rounds over the
/// same lists, with the same frontiers and the same counts.
pub proof fn lemma_pad_rounds(s0: Seq<State>, acts: Seq<Action>, nx: int, ny: int, nt: int, f: Seq<Seq<bool>>,
    hist: Seq<Seq<(u32, u32)>>)
    requires
        agree_ok(s0, acts, nt),
        states_ok(s0, nx, ny, nt),
        above_best(s0, acts, nx, ny, nt),
        hist_in_grid(hist, nx, ny),
    ensures
        ({
            let pr = rounds2(s0, acts, f, hist, nx, ny, nt, true);
            let qr = gs_rounds(s0, acts, f, hist, nx, ny, nt);
            &&& same_costs(pr.0, qr.0)
            &&& pr.1 == qr.1
            &&& pr.2 == qr.2
            &&& lowering_inv(qr.0, s0, acts, nx, ny, nt)
            &&& above_best(qr.0, acts, nx, ny, nt)
        }),
    decreases hist.len(),
{
    if hist.len() == 0 {
        lemma_inv_start(s0, acts, nx, ny, nt);
        assert forall|j: int| 0 <= j < s0.len() implies #[trigger] s0[j] == (State { optimal_action: s0[j].optimal_action, ..s0[j] }) by {}
    } else {
        let ph = hist.drop_last();
        assert(hist_in_grid(ph, nx, ny)) by {
            assert forall|r: int, j: int| 0 <= r < ph.len() && 0 <= j < ph[r].len() implies (#[trigger] ph[r][j]).0 < nx && ph[r][j].1 < ny by {
                assert(ph[r] == hist[r]);
            }
        }
        lemma_pad_rounds(s0, acts, nx, ny, nt, f, ph);
        let cells = hist.last();
        assert forall|j: int| 0 <= j < cells.len() implies (#[trigger] cells[j]).0 < nx && cells[j].1 < ny by {
            assert(cells[j] == hist[hist.len() - 1][j]);
        }
        lemma_pad_round(s0, acts, nx, ny, nt, rounds2(s0, acts, f, ph, nx, ny, nt, true).0, gs_rounds(s0, acts, f, ph, nx, ny, nt).0, cells);
    }
}

/// Round `r` of `hist` lists, in storage order, the dilation of the frontier
/// that the asynchronous rounds before it left.
pub open spec fn fwd_run2(s0: Seq<State>, acts: Seq<Action>, f: Seq<Seq<bool>>, hist: Seq<Seq<(u32, u32)>>,
    nx: int, ny: int, nt: int, m: (int, int, int)) -> bool {
    forall|r: int| 0 <= r < hist.len() ==>
        lists_cells2(hist[r], dilate_grid(#[trigger] gs_rounds(s0, acts, f, hist.take(r), nx, ny, nt).1, nx, ny, m.0, m.1), nx, ny)
}

/// Asynchronous rounds over the dilated frontiers in storage order leave every
/// state that can still be lowered next to the frontier.
pub proof fn lemma_fwd_run_covers(s0: Seq<State>, acts: Seq<Action>, hist: Seq<Seq<(u32, u32)>>, nx: int, ny: int, nt: int,
    m: (int, int, int))
    requires
        states_ok(s0, nx, ny, nt),
        capped(s0),
        nonempty_outcomes(acts, nt),
        is_displacement(acts, nt, m),
        forall|a: int| 0 <= a < acts.len() ==> (#[trigger] acts[a]).state_transitions@.len() == nt,
        fwd_run2(s0, acts, seed_view2(s0, nx, ny, nt), hist, nx, ny, nt, m),
        0 <= nx,
        0 <= ny,
    ensures
        ({
            let q = gs_rounds(s0, acts, seed_view2(s0, nx, ny, nt), hist, nx, ny, nt);
            &&& states_ok(q.0, nx, ny, nt)
            &&& capped(q.0)
            &&& covered(q.0, acts, q.1, nx, ny, nt, m)
        }),
    decreases hist.len(),
{
    let f0 = seed_view2(s0, nx, ny, nt);
    if hist.len() == 0 {
        lemma_seed_covers(s0, acts, nx, ny, nt, m);
    } else {
        let ph = hist.drop_last();
        assert(fwd_run2(s0, acts, f0, ph, nx, ny, nt, m)) by {
            assert forall|r: int| 0 <= r < ph.len() implies
                lists_cells2(ph[r], dilate_grid(#[trigger] gs_rounds(s0, acts, f0, ph.take(r), nx, ny, nt).1, nx, ny, m.0, m.1), nx, ny) by {
                assert(ph.take(r) =~= hist.take(r));
                assert(ph[r] == hist[r]);
            }
        }
        lemma_fwd_run_covers(s0, acts, ph, nx, ny, nt, m);
        let p = gs_rounds(s0, acts, f0, ph, nx, ny, nt);
        let r = ph.len() as int;
        assert(hist.take(r) =~= ph);
        assert(gs_rounds(s0, acts, f0, hist.take(r), nx, ny, nt) == p);
        let cv = hist[r];
        let d = dilate_grid(p.1, nx, ny, m.0, m.1);
        assert(lists_cells2(cv, d, nx, ny));
        lemma_order_ok(cv, d, nx, ny, false);
        assert(hist.last() == cv);
        lemma_gs_round(p.0, acts, cv, nx, ny, nt);
        lemma_gs_round_covers(p.0, acts, p.1, cv, nx, ny, nt, m);
        lemma_below_ok(p.0, gs_round(p.0, acts, cv, nx, ny, nt).0, nx, ny, nt);
    }
}

/// A converged run of the padded solver from a start above its clamped best
/// costs ends with the costs of the greatest settled state below the start.
pub proof fn lemma_pad_greatest(s0: Seq<State>, acts: Seq<Action>, nx: int, ny: int, nt: int, m: (int, int, int),
    hist: Seq<Seq<(u32, u32)>>, s2: Seq<State>, updates: u64) -> (r: Seq<State>)
    requires
        frontier2d_result(s0, acts, nx, ny, nt, m, hist, s2, updates, true, true),
        agree_ok(s0, acts, nt),
        states_ok(s0, nx, ny, nt),
        above_best(s0, acts, nx, ny, nt),
    ensures
        greatest_settled(r, s0, acts, nx, ny, nt),
        s2.len() == s0.len(),
        forall|k: int| 0 <= k < s0.len() ==> (#[trigger] s2[k]).total_cost == r[k].total_cost,
{
    let f0 = seed_view2(s0, nx, ny, nt);
    assert(hist_in_grid(hist, nx, ny)) by {
        assert forall|r: int, j: int| 0 <= r < hist.len() && 0 <= j < hist[r].len()
            implies (#[trigger] hist[r][j]).0 < nx && hist[r][j].1 < ny by {
            let p = rounds2(s0, acts, f0, hist.take(r), nx, ny, nt, true);
            lemma_listed_ok(hist[r], dilate_grid(p.1, nx, ny, m.0, m.1), nx, ny);
        }
    }
    lemma_pad_rounds(s0, acts, nx, ny, nt, f0, hist);
    assert(fwd_run2(s0, acts, f0, hist, nx, ny, nt, m)) by {
        assert forall|r: int| 0 <= r < hist.len() implies
            lists_cells2(hist[r], dilate_grid(#[trigger] gs_rounds(s0, acts, f0, hist.take(r), nx, ny, nt).1, nx, ny, m.0, m.1), nx, ny) by {
            let h = hist.take(r);
            assert(hist_in_grid(h, nx, ny)) by {
                assert forall|a: int, j: int| 0 <= a < h.len() && 0 <= j < h[a].len() implies (#[trigger] h[a][j]).0 < nx && h[a][j].1 < ny by {
                    assert(h[a] == hist[a]);
                }
            }
            lemma_pad_rounds(s0, acts, nx, ny, nt, f0, h);
            assert(rounds2(s0, acts, f0, h, nx, ny, nt, true).1 == gs_rounds(s0, acts, f0, h, nx, ny, nt).1);
        }
    }
    lemma_fwd_run_covers(s0, acts, hist, nx, ny, nt, m);
    let q = gs_rounds(s0, acts, f0, hist, nx, ny, nt);
    lemma_empty_settles(q.0, acts, q.1, nx, ny, nt, m);
    let pr = rounds2(s0, acts, f0, hist, nx, ny, nt, true);
    assert forall|k: int| 0 <= k < s0.len() implies (#[trigger] s2[k]).total_cost == q.0[k].total_cost by {
        assert(pr.0[k] == (State { optimal_action: pr.0[k].optimal_action, ..q.0[k] }));
    }
    q.0
}

/// Every free cell of `s` is reached.
pub open spec fn all_reached(s: Seq<State>) -> bool {
    forall|i: int| 0 <= i < s.len() && (#[trigger] s[i]).free ==> s[i].total_cost < MAX_COST
}

/// Where every free cell is reached, counting unreached outcomes as blocked
/// changes no per-state update.
pub proof fn lemma_step_same(s0: Seq<State>, acts: Seq<Action>, nx: int, ny: int, nt: int, p: Seq<State>, q: Seq<State>, idx: int)
    requires
        states_ok(s0, nx, ny, nt),
        all_reached(s0),
        same_costs(p, q),
        below(s0, q),
        0 <= idx < p.len(),
    ensures
        step2(p, acts, idx, nx, ny, nt, false) == step2(p, acts, idx, nx, ny, nt, true),
{
    let x = p[idx];
    assert(p[idx] == (State { optimal_action: p[idx].optimal_action, ..q[idx] }));
    assert(q[idx] == (State { total_cost: q[idx].total_cost, ..s0[idx] }));
    assert(in_grid(s0[idx], nx, ny, nt));
    assert(outcomes_settled(p, acts, x, nx, ny, nt)) by {
        assert forall|a: int, k: int| 0 <= a < acts.len() && 0 <= k < outcomes(acts[a], x).len() implies
            (#[trigger] outcome_unreached(p, x, outcomes(acts[a], x)[k], nx, ny, nt))
            ==> outcome_blocked(p, x, outcomes(acts[a], x)[k], nx, ny, nt) by {
            let tr = outcomes(acts[a], x)[k];
            let c = outcome_cell(x, tr, nt);
            if 0 <= c.0 < nx && 0 <= c.1 < ny {
                lemma_index_bound(c.0, c.1, c.2, nx, ny, nt);
                let j = index_of(c.0, c.1, c.2, nx, nt);
                assert(p[j] == (State { optimal_action: p[j].optimal_action, ..q[j] }));
                assert(q[j] == (State { total_cost: q[j].total_cost, ..s0[j] }));
            }
        }
    }
    lemma_clamped_update_is_reference(p, acts, idx, nx, ny, nt);
}

/// Where every free cell is reached, the column updates with and without
/// counting unreached outcomes as blocked agree.
proof fn lemma_column_same(s0: Seq<State>, acts: Seq<Action>, nx: int, ny: int, nt: int, p: Seq<State>, q: Seq<State>,
    c: (u32, u32), k: int)
    requires
        agree_ok(s0, acts, nt),
        states_ok(s0, nx, ny, nt),
        all_reached(s0),
        lowering_inv(q, s0, acts, nx, ny, nt),
        above_best(q, acts, nx, ny, nt),
        same_costs(p, q),
        c.0 < nx,
        c.1 < ny,
        0 <= k <= nt,
    ensures
        column2(p, acts, c.0 as int, c.1 as int, k, nx, ny, nt, false) == column2(p, acts, c.0 as int, c.1 as int, k, nx, ny, nt, true),
    decreases k,
{
    if k > 0 {
        lemma_column_same(s0, acts, nx, ny, nt, p, q, c, k - 1);
        lemma_pad_column(s0, acts, nx, ny, nt, p, q, c, k - 1);
        let pc = column2(p, acts, c.0 as int, c.1 as int, k - 1, nx, ny, nt, true);
        let qc = gs_column(q, acts, c, k - 1, nx, ny, nt);
        let idx = index_of(c.0 as int, c.1 as int, k - 1, nx, nt);
        lemma_index_bound(c.0 as int, c.1 as int, k - 1, nx, ny, nt);
        lemma_step_same(s0, acts, nx, ny, nt, pc.0, qc.0, idx);
    }
}

/// Where every free cell is reached, the rounds with and without counting
/// unreached outcomes as blocked agree.
proof fn lemma_round_same(s0: Seq<State>, acts: Seq<Action>, nx: int, ny: int, nt: int, p: Seq<State>, q: Seq<State>,
    cells: Seq<(u32, u32)>)
    requires
        agree_ok(s0, acts, nt),
        states_ok(s0, nx, ny, nt),
        all_reached(s0),
        lowering_inv(q, s0, acts, nx, ny, nt),
        above_best(q, acts, nx, ny, nt),
        same_costs(p, q),
        forall|j: int| 0 <= j < cells.len() ==> (#[trigger] cells[j]).0 < nx && cells[j].1 < ny,
    ensures
        round2(p, acts, cells, nx, ny, nt, false) == round2(p, acts, cells, nx, ny, nt, true),
    decreases cells.len(),
{
    if cells.len() > 0 {
        let pc = cells.drop_last();
        assert forall|j: int| 0 <= j < pc.len() implies (#[trigger] pc[j]).0 < nx && pc[j].1 < ny by {
            assert(pc[j] == cells[j]);
        }
        lemma_round_same(s0, acts, nx, ny, nt, p, q, pc);
        lemma_pad_round(s0, acts, nx, ny, nt, p, q, pc);
        let c = cells.last();
        assert(c == cells[cells.len() - 1]);
        lemma_column_same(s0, acts, nx, ny, nt, round2(p, acts, pc, nx, ny, nt, true).0, gs_round(q, acts, pc, nx, ny, nt).0, c, nt);
    }
}

/// From a start where every free cell is reached and none lies below its
/// clamped best cost, the 2-D frontier rounds with and without counting
/// unreached outcomes as blocked agree.
pub proof fn lemma_rounds_same(s0: Seq<State>, acts: Seq<Action>, nx: int, ny: int, nt: int, f: Seq<Seq<bool>>,
    hist: Seq<Seq<(u32, u32)>>)
    requires
        agree_ok(s0, acts, nt),
        states_ok(s0, nx, ny, nt),
        all_reached(s0),
        above_best(s0, acts, nx, ny, nt),
        hist_in_grid(hist, nx, ny),
    ensures
        rounds2(s0, acts, f, hist, nx, ny, nt, false) == rounds2(s0, acts, f, hist, nx, ny, nt, true),
    decreases hist.len(),
{
    if hist.len() > 0 {
        let ph = hist.drop_last();
        assert(hist_in_grid(ph, nx, ny)) by {
            assert forall|r: int, j: int| 0 <= r < ph.len() && 0 <= j < ph[r].len() implies (#[trigger] ph[r][j]).0 < nx && ph[r][j].1 < ny by {
                assert(ph[r] == hist[r]);
            }
        }
        lemma_rounds_same(s0, acts, nx, ny, nt, f, ph);
        lemma_pad_rounds(s0, acts, nx, ny, nt, f, ph);
        let cells = hist.last();
        assert forall|j: int| 0 <= j < cells.len() implies (#[trigger] cells[j]).0 < nx && cells[j].1 < ny by {
            assert(cells[j] == hist[hist.len() - 1][j]);
        }
        lemma_round_same(s0, acts, nx, ny, nt, rounds2(s0, acts, f, ph, nx, ny, nt, true).0, gs_rounds(s0, acts, f, ph, nx, ny, nt).0, cells);
    }
}

/// A converged run of the 2-D frontier solver from a start where every free
/// cell is reached and none lies below its clamped best cost is a converged
/// run of the padded solver.
pub proof fn lemma_unclamped_is_padded(s0: Seq<State>, acts: Seq<Action>, nx: int, ny: int, nt: int, m: (int, int, int),
    hist: Seq<Seq<(u32, u32)>>, s2: Seq<State>, updates: u64)
    requires
        frontier2d_result(s0, acts, nx, ny, nt, m, hist, s2, updates, true, false),
        agree_ok(s0, acts, nt),
        states_ok(s0, nx, ny, nt),
        all_reached(s0),
        above_best(s0, acts, nx, ny, nt),
    ensures
        frontier2d_result(s0, acts, nx, ny, nt, m, hist, s2, updates, true, true),
{
    let f0 = seed_view2(s0, nx, ny, nt);
    assert(hist_in_grid(hist, nx, ny)) by {
        assert forall|r: int, j: int| 0 <= r < hist.len() && 0 <= j < hist[r].len()
            implies (#[trigger] hist[r][j]).0 < nx && hist[r][j].1 < ny by {
            let p = rounds2(s0, acts, f0, hist.take(r), nx, ny, nt, false);
            lemma_listed_ok(hist[r], dilate_grid(p.1, nx, ny, m.0, m.1), nx, ny);
        }
    }
    lemma_rounds_same(s0, acts, nx, ny, nt, f0, hist);
    assert forall|r: int| 0 <= r < hist.len() implies
        #[trigger] rounds2(s0, acts, f0, hist.take(r), nx, ny, nt, true) == rounds2(s0, acts, f0, hist.take(r), nx, ny, nt, false) by {
        let h = hist.take(r);
        assert(hist_in_grid(h, nx, ny)) by {
            assert forall|a: int, j: int| 0 <= a < h.len() && 0 <= j < h[a].len() implies (#[trigger] h[a][j]).0 < nx && h[a][j].1 < ny by {
                assert(h[a] == hist[a]);
            }
        }
        lemma_rounds_same(s0, acts, nx, ny, nt, f0, h);
    }
}

} // verus!
