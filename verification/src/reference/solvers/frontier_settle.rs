//! Where the 3-D frontier solver ends when no outcome is ever unreached: from
//! a start where every free cell is reached and none lies below its clamped
//! best cost, each round writes the costs of clamped lowerings of the listed
//! states, and a run that converged leaves the greatest settled state below
//! the start.
use vstd::prelude::*;
use vstd::arithmetic::div_mod::{lemma_add_mod_noop, lemma_mod_add_multiples_vanish, lemma_small_mod};
use crate::reference::params::MAX_COST;
use crate::reference::state::{Action, State, StateTransition};
use crate::reference::value_iterator::{index_of, states_ok, outcomes, outcome_cell, updatable, in_grid, lemma_index_bound};
use crate::reference::solvers::fused::{clamped_best, outcome_unreached};
use crate::reference::solvers::frontier::{set_cell3, round3, rounds3, step3, step2, frontier3d_result, is_displacement,
    covers, circ_dist, lists_cells3, seed_view3};
use crate::reference::solvers::par_unsafe::lower_at;
use crate::reference::solvers::greatest::{agree_ok, lowering_inv, greatest_settled, below, lemma_below_trans, lemma_below_ok,
    lemma_inv_start};
use crate::reference::solvers::settle::{settled, improvable, capped, nonempty_outcomes, lemma_best_witness, lemma_best_le,
    lemma_cost_frame, lemma_coords, lemma_near};
use crate::reference::solvers::pad_settle::{same_costs, above_best, all_reached, lemma_pad_step, lemma_step_same};
use crate::bitboard::{empty_stack, shape3};
use crate::bitboard::ops::{dilate_stack, dilate_grid, theta_hit};
use crate::bitboard::enumerate::{set_cells3, cell3_before};

verus! {

/// One round of clamped lowerings over the states of `cells`, in order: the
/// states, the cells whose cost fell, and how many fell.
pub open spec fn lower_round3(q: Seq<State>, acts: Seq<Action>, cells: Seq<(u32, u32, u32)>, nx: int, ny: int, nt: int)
    -> (Seq<State>, Seq<Seq<Seq<bool>>>, nat)
    decreases cells.len(),
{
    if cells.len() == 0 {
        (q, empty_stack(nx, ny, nt), 0)
    } else {
        let p = lower_round3(q, acts, cells.drop_last(), nx, ny, nt);
        let c = cells.last();
        let idx = index_of(c.0 as int, c.1 as int, c.2 as int, nx, nt);
        let s2 = lower_at(p.0, acts, idx, nx, ny, nt);
        if s2[idx].total_cost < p.0[idx].total_cost {
            (s2, set_cell3(p.1, c), p.2 + 1)
        } else {
            (s2, p.1, p.2)
        }
    }
}

/// The rounds of clamped lowerings over the lists of `hist`.
pub open spec fn lower_rounds3(q: Seq<State>, acts: Seq<Action>, f: Seq<Seq<Seq<bool>>>, hist: Seq<Seq<(u32, u32, u32)>>,
    nx: int, ny: int, nt: int) -> (Seq<State>, Seq<Seq<Seq<bool>>>, nat)
    decreases hist.len(),
{
    if hist.len() == 0 {
        (q, f, 0)
    } else {
        let p = lower_rounds3(q, acts, f, hist.drop_last(), nx, ny, nt);
        let r = lower_round3(p.0, acts, hist.last(), nx, ny, nt);
        (r.0, r.1, p.2 + r.2)
    }
}

/// Every listed cell of `hist` lies in the `nx × ny × nt` grid.
pub open spec fn hist3_in_grid(hist: Seq<Seq<(u32, u32, u32)>>, nx: int, ny: int, nt: int) -> bool {
    forall|r: int, j: int| 0 <= r < hist.len() && 0 <= j < hist[r].len()
        ==> (#[trigger] hist[r][j]).0 < nx && hist[r][j].1 < ny && hist[r][j].2 < nt
}

/// `cells` are distinct cells of the grid.
pub open spec fn cells3_ok(cells: Seq<(u32, u32, u32)>, nx: int, ny: int, nt: int) -> bool {
    &&& forall|j: int| 0 <= j < cells.len() ==> (#[trigger] cells[j]).0 < nx && cells[j].1 < ny && cells[j].2 < nt
    &&& forall|i: int, j: int| 0 <= i < j < cells.len() ==> #[trigger] cells[i] != #[trigger] cells[j]
}

/// Cell `(x, y, t)` is among `cells`.
pub open spec fn cell_in3(cells: Seq<(u32, u32, u32)>, x: int, y: int, t: int) -> bool {
    exists|j: int| 0 <= j < cells.len() && cells[j].0 == x && cells[j].1 == y && cells[j].2 == t
}

/// Every state that can be lowered lies in the dilation of `f`.
pub open spec fn covered3(s: Seq<State>, acts: Seq<Action>, f: Seq<Seq<Seq<bool>>>, nx: int, ny: int, nt: int, m: (int, int, int)) -> bool {
    forall|i: int| 0 <= i < s.len() && #[trigger] improvable(s, acts, i, nx, ny, nt)
        ==> dilate_stack(f, nx, ny, nt, m.0, m.1, m.2)[s[i].it as int][s[i].iy as int][s[i].ix as int]
}

/// The round of `hist` number `r` lists the dilation of the frontier that the
/// lowering rounds before it left.
pub open spec fn lower_run3(s0: Seq<State>, acts: Seq<Action>, f: Seq<Seq<Seq<bool>>>, hist: Seq<Seq<(u32, u32, u32)>>,
    nx: int, ny: int, nt: int, m: (int, int, int)) -> bool {
    forall|r: int| 0 <= r < hist.len() ==>
        lists_cells3(hist[r], dilate_stack(#[trigger] lower_rounds3(s0, acts, f, hist.take(r), nx, ny, nt).1, nx, ny, nt, m.0, m.1, m.2),
            nx, ny, nt)
}

/// A round of the 3-D frontier solver from `p` writes the costs of the
/// clamped lowerings from `q` over the same list, and marks the same cells.
proof fn lemma_round3_same(s0: Seq<State>, acts: Seq<Action>, nx: int, ny: int, nt: int, p: Seq<State>, q: Seq<State>,
    cells: Seq<(u32, u32, u32)>)
    requires
        agree_ok(s0, acts, nt),
        states_ok(s0, nx, ny, nt),
        all_reached(s0),
        lowering_inv(q, s0, acts, nx, ny, nt),
        above_best(q, acts, nx, ny, nt),
        same_costs(p, q),
        forall|j: int| 0 <= j < cells.len() ==> (#[trigger] cells[j]).0 < nx && cells[j].1 < ny && cells[j].2 < nt,
    ensures
        ({
            let pr = round3(p, acts, cells, nx, ny, nt, None);
            let qr = lower_round3(q, acts, cells, nx, ny, nt);
            &&& same_costs(pr.0, qr.0)
            &&& pr.1 == qr.1
            &&& pr.2 == qr.2
            &&& lowering_inv(qr.0, s0, acts, nx, ny, nt)
            &&& above_best(qr.0, acts, nx, ny, nt)
        }),
    decreases cells.len(),
{
    if cells.len() > 0 {
        let pc = cells.drop_last();
        assert forall|j: int| 0 <= j < pc.len() implies (#[trigger] pc[j]).0 < nx && pc[j].1 < ny && pc[j].2 < nt by {
            assert(pc[j] == cells[j]);
        }
        lemma_round3_same(s0, acts, nx, ny, nt, p, q, pc);
        let pp = round3(p, acts, pc, nx, ny, nt, None);
        let qq = lower_round3(q, acts, pc, nx, ny, nt);
        let c = cells.last();
        assert(c == cells[cells.len() - 1]);
        let idx = index_of(c.0 as int, c.1 as int, c.2 as int, nx, nt);
        lemma_index_bound(c.0 as int, c.1 as int, c.2 as int, nx, ny, nt);
        assert(qq.0.len() == s0.len());
        lemma_step_same(s0, acts, nx, ny, nt, pp.0, qq.0, idx);
        lemma_pad_step(s0, acts, nx, ny, nt, pp.0, qq.0, idx);
        assert(step3(pp.0, acts, idx, nx, ny, nt, None) == step2(pp.0, acts, idx, nx, ny, nt, false));
    }
}

/// From a start where every free cell is reached and none lies below its
/// clamped best cost, the rounds of the 3-D frontier solver write the costs of
/// the rounds of clamped lowerings over the same lists, with the same frontiers.
pub proof fn lemma_rounds3_same(s0: Seq<State>, acts: Seq<Action>, nx: int, ny: int, nt: int, f: Seq<Seq<Seq<bool>>>,
    hist: Seq<Seq<(u32, u32, u32)>>)
    requires
        agree_ok(s0, acts, nt),
        states_ok(s0, nx, ny, nt),
        all_reached(s0),
        above_best(s0, acts, nx, ny, nt),
        hist3_in_grid(hist, nx, ny, nt),
    ensures
        ({
            let pr = rounds3(s0, acts, f, hist, nx, ny, nt, None);
            let qr = lower_rounds3(s0, acts, f, hist, nx, ny, nt);
            &&& same_costs(pr.0, qr.0)
            &&& pr.1 == qr.1
            &&& pr.2 == qr.2
            &&& lowering_inv(qr.0, s0, acts, nx, ny, nt)
            &&& above_best(qr.0, acts, nx, ny, nt)
        }),
    decreases hist.len(),
{
    if hist.len() == 0 {
        lemma_inv_start(s0, acts, nx, ny, nt);
        assert forall|j: int| 0 <= j < s0.len() implies #[trigger] s0[j] == (State { optimal_action: s0[j].optimal_action, ..s0[j] }) by {}
    } else {
        let ph = hist.drop_last();
        assert(hist3_in_grid(ph, nx, ny, nt)) by {
            assert forall|r: int, j: int| 0 <= r < ph.len() && 0 <= j < ph[r].len()
                implies (#[trigger] ph[r][j]).0 < nx && ph[r][j].1 < ny && ph[r][j].2 < nt by {
                assert(ph[r] == hist[r]);
            }
        }
        lemma_rounds3_same(s0, acts, nx, ny, nt, f, ph);
        let cells = hist.last();
        assert forall|j: int| 0 <= j < cells.len() implies (#[trigger] cells[j]).0 < nx && cells[j].1 < ny && cells[j].2 < nt by {
            assert(cells[j] == hist[hist.len() - 1][j]);
        }
        lemma_round3_same(s0, acts, nx, ny, nt, rounds3(s0, acts, f, ph, nx, ny, nt, None).0,
            lower_rounds3(s0, acts, f, ph, nx, ny, nt).0, cells);
    }
}

/// A state with an outcome on a set cell of `f`, within the displacement, lies
/// in the dilation of `f`.
pub proof fn lemma_near3(f: Seq<Seq<Seq<bool>>>, x: State, tr: StateTransition, nx: int, ny: int, nt: int, m: (int, int, int))
    requires
        0 <= x.ix < nx,
        0 <= x.iy < ny,
        0 <= x.it < nt,
        covers(tr, x.it as int, nt, m),
        ({
            let c = outcome_cell(x, tr, nt);
            0 <= c.0 < nx && 0 <= c.1 < ny && f[c.2][c.1][c.0]
        }),
    ensures
        dilate_stack(f, nx, ny, nt, m.0, m.1, m.2)[x.it as int][x.iy as int][x.ix as int],
{
    let c = outcome_cell(x, tr, nt);
    let t = x.it as int;
    let dit = tr.dit as int;
    let e = (dit - t) % nt;
    lemma_add_mod_noop(t, dit - t, nt);
    lemma_small_mod(t as nat, nt as nat);
    lemma_mod_add_multiples_vanish(dit, nt);
    assert((t + e) % nt == c.2);
    let st = if e <= nt - e { e } else { nt - e };
    assert(st == circ_dist(dit, t, nt));
    assert(0 <= st <= m.2);
    let d = Seq::new(nt as nat, |l: int| dilate_grid(f[l], nx, ny, m.0, m.1));
    assert(0 <= c.2 < nt);
    lemma_near(f[c.2], x, tr, nx, ny, nt, m);
    assert(d[c.2][x.iy as int][x.ix as int]);
    if e <= nt - e {
        assert(theta_hit(d, nt, t, st, x.iy as int, x.ix as int));
    } else {
        assert(t + nt - st == t + e);
        assert(theta_hit(d, nt, t, st, x.iy as int, x.ix as int));
    }
}

/// With capped costs and an outcome from every heading, every state that can
/// be lowered has an outcome on a reached state, so it lies in the dilation of
/// the initial 3-D frontier.
pub proof fn lemma_seed_covers3(s: Seq<State>, acts: Seq<Action>, nx: int, ny: int, nt: int, m: (int, int, int))
    requires
        states_ok(s, nx, ny, nt),
        capped(s),
        nonempty_outcomes(acts, nt),
        is_displacement(acts, nt, m),
        forall|a: int| 0 <= a < acts.len() ==> (#[trigger] acts[a]).state_transitions@.len() == nt,
    ensures
        covered3(s, acts, seed_view3(s, nx, ny, nt), nx, ny, nt, m),
{
    assert forall|i: int| 0 <= i < s.len() && #[trigger] improvable(s, acts, i, nx, ny, nt)
        implies dilate_stack(seed_view3(s, nx, ny, nt), nx, ny, nt, m.0, m.1, m.2)[s[i].it as int][s[i].iy as int][s[i].ix as int] by {
        let x = s[i];
        assert(x.total_cost <= MAX_COST);
        let a = lemma_best_witness(s, acts, x, nx, ny, nt);
        let trs = outcomes(acts[a], x);
        assert(in_grid(x, nx, ny, nt));
        assert(trs.len() > 0);
        assert(!outcome_unreached(s, x, trs[0], nx, ny, nt));
        let c = outcome_cell(x, trs[0], nt);
        lemma_coords(s, c.0, c.1, c.2, nx, ny, nt);
        assert(covers(acts[a].state_transitions@[x.it as int]@[0], x.it as int, nt, m));
        let f = seed_view3(s, nx, ny, nt);
        assert(s[index_of(c.0, c.1, c.2, nx, nt)].total_cost < MAX_COST);
        assert(f[c.2][c.1][c.0]);
        lemma_near3(f, x, trs[0], nx, ny, nt, m);
    }
}

/// What a round of lowerings does over distinct in-grid `cells`: it only
/// lowers costs, only of listed states; every changed state is marked in the
/// new frontier; and each updatable listed state ends at most at its clamped
/// best cost over some states between the start and the end.
pub proof fn lemma_lower_round3(s: Seq<State>, acts: Seq<Action>, cells: Seq<(u32, u32, u32)>, nx: int, ny: int, nt: int)
    requires
        states_ok(s, nx, ny, nt),
        cells3_ok(cells, nx, ny, nt),
    ensures
        ({
            let r = lower_round3(s, acts, cells, nx, ny, nt);
            &&& below(s, r.0)
            &&& shape3(r.1, nx, ny, nt)
            &&& forall|j: int| 0 <= j < s.len() && !cell_in3(cells, s[j].ix as int, s[j].iy as int, s[j].it as int)
                ==> #[trigger] r.0[j] == s[j]
            &&& forall|j: int| 0 <= j < s.len() && #[trigger] r.0[j] != s[j] ==> r.1[s[j].it as int][s[j].iy as int][s[j].ix as int]
            &&& forall|j: int| 0 <= j < s.len() && cell_in3(cells, s[j].ix as int, s[j].iy as int, s[j].it as int) && updatable(s, j) ==>
                exists|w: Seq<State>| below(s, w) && below(w, r.0)
                    && (#[trigger] r.0[j]).total_cost <= clamped_best(w, acts, w[j], nx, ny, nt).0
        }),
    decreases cells.len(),
{
    let r = lower_round3(s, acts, cells, nx, ny, nt);
    if cells.len() == 0 {
        assert(below(s, s));
        assert(shape3(empty_stack(nx, ny, nt), nx, ny, nt)) by {
            assert forall|it: int| 0 <= it < nt implies #[trigger] crate::bitboard::grid::shape2(empty_stack(nx, ny, nt)[it], nx, ny) by {}
        }
        assert forall|j: int| 0 <= j < s.len() && cell_in3(cells, s[j].ix as int, s[j].iy as int, s[j].it as int) implies false by {
            let e = choose|e: int| 0 <= e < cells.len() && cells[e].0 == s[j].ix && cells[e].1 == s[j].iy && cells[e].2 == s[j].it;
        }
    } else {
        let pc = cells.drop_last();
        assert(cells3_ok(pc, nx, ny, nt)) by {
            assert forall|j: int| 0 <= j < pc.len() implies (#[trigger] pc[j]).0 < nx && pc[j].1 < ny && pc[j].2 < nt by {
                assert(pc[j] == cells[j]);
            }
            assert forall|i: int, j: int| 0 <= i < j < pc.len() implies #[trigger] pc[i] != #[trigger] pc[j] by {
                assert(pc[i] == cells[i] && pc[j] == cells[j]);
            }
        }
        lemma_lower_round3(s, acts, pc, nx, ny, nt);
        let p = lower_round3(s, acts, pc, nx, ny, nt);
        let c = cells.last();
        assert(c == cells[cells.len() - 1]);
        let idx = index_of(c.0 as int, c.1 as int, c.2 as int, nx, nt);
        lemma_coords(s, c.0 as int, c.1 as int, c.2 as int, nx, ny, nt);
        assert(p.0[idx] == (State { total_cost: p.0[idx].total_cost, ..s[idx] }));
        let s2 = lower_at(p.0, acts, idx, nx, ny, nt);
        assert(s2 == r.0);
        assert(below(p.0, r.0)) by {
            assert forall|j: int| 0 <= j < p.0.len() implies #[trigger] r.0[j] == (State { total_cost: r.0[j].total_cost, ..p.0[j] })
                && r.0[j].total_cost <= p.0[j].total_cost by {}
        }
        lemma_below_trans(s, p.0, r.0);
        let lowered = s2[idx].total_cost < p.0[idx].total_cost;
        assert(shape3(r.1, nx, ny, nt)) by {
            if lowered {
                assert forall|it: int| 0 <= it < nt implies #[trigger] crate::bitboard::grid::shape2(r.1[it], nx, ny) by {
                    assert(crate::bitboard::grid::shape2(p.1[it], nx, ny));
                }
            }
        }
        assert forall|j: int| 0 <= j < s.len() && !cell_in3(cells, s[j].ix as int, s[j].iy as int, s[j].it as int)
            implies #[trigger] r.0[j] == s[j] by {
            if cell_in3(pc, s[j].ix as int, s[j].iy as int, s[j].it as int) {
                let e = choose|e: int| 0 <= e < pc.len() && pc[e].0 == s[j].ix && pc[e].1 == s[j].iy && pc[e].2 == s[j].it;
                assert(cells[e] == pc[e]);
            }
            assert(p.0[j] == s[j]);
            if j == idx {
                assert(cells[cells.len() - 1] == c);
            }
        }
        assert forall|j: int| 0 <= j < s.len() && #[trigger] r.0[j] != s[j] implies r.1[s[j].it as int][s[j].iy as int][s[j].ix as int] by {
            assert(in_grid(s[j], nx, ny, nt));
            assert(p.0[j] == (State { total_cost: p.0[j].total_cost, ..s[j] }));
            if p.0[j] != s[j] {
                assert(p.1[s[j].it as int][s[j].iy as int][s[j].ix as int]);
                assert(crate::bitboard::grid::shape2(p.1[s[j].it as int], nx, ny));
            } else {
                assert(j == idx);
                assert(lowered);
                assert(crate::bitboard::grid::shape2(p.1[c.2 as int], nx, ny));
            }
        }
        assert forall|j: int| 0 <= j < s.len() && cell_in3(cells, s[j].ix as int, s[j].iy as int, s[j].it as int) && updatable(s, j) implies
            exists|w: Seq<State>| below(s, w) && below(w, r.0)
                && (#[trigger] r.0[j]).total_cost <= clamped_best(w, acts, w[j], nx, ny, nt).0 by {
            assert(p.0[j] == (State { total_cost: p.0[j].total_cost, ..s[j] }));
            assert(in_grid(s[j], nx, ny, nt));
            if j == idx {
                assert(updatable(p.0, idx));
                assert(r.0[j].total_cost <= clamped_best(p.0, acts, p.0[j], nx, ny, nt).0);
                assert(below(s, p.0) && below(p.0, r.0));
            } else {
                let e = choose|e: int| 0 <= e < cells.len() && cells[e].0 == s[j].ix && cells[e].1 == s[j].iy && cells[e].2 == s[j].it;
                if e == cells.len() - 1 {
                    assert(index_of(s[j].ix as int, s[j].iy as int, s[j].it as int, nx, nt) == j);
                    assert(false);
                }
                assert(pc[e] == cells[e]);
                assert(cell_in3(pc, s[j].ix as int, s[j].iy as int, s[j].it as int));
                let w = choose|w: Seq<State>| below(s, w) && below(w, p.0)
                    && (#[trigger] p.0[j]).total_cost <= clamped_best(w, acts, w[j], nx, ny, nt).0;
                lemma_below_trans(w, p.0, r.0);
                assert(r.0[j] == p.0[j]);
            }
        }
    }
}

/// A round of lowerings from capped states covered by frontier `f`, over
/// distinct in-grid cells that include every cell of the dilation of `f`,
/// gives capped states covered by its own frontier.
pub proof fn lemma_round3_covers(s: Seq<State>, acts: Seq<Action>, f: Seq<Seq<Seq<bool>>>, cells: Seq<(u32, u32, u32)>,
    nx: int, ny: int, nt: int, m: (int, int, int))
    requires
        states_ok(s, nx, ny, nt),
        capped(s),
        is_displacement(acts, nt, m),
        forall|a: int| 0 <= a < acts.len() ==> (#[trigger] acts[a]).state_transitions@.len() == nt,
        covered3(s, acts, f, nx, ny, nt, m),
        cells3_ok(cells, nx, ny, nt),
        forall|x: int, y: int, t: int| 0 <= x < nx && 0 <= y < ny && 0 <= t < nt
            && #[trigger] dilate_stack(f, nx, ny, nt, m.0, m.1, m.2)[t][y][x] ==> cell_in3(cells, x, y, t),
    ensures
        capped(lower_round3(s, acts, cells, nx, ny, nt).0),
        covered3(lower_round3(s, acts, cells, nx, ny, nt).0, acts, lower_round3(s, acts, cells, nx, ny, nt).1, nx, ny, nt, m),
{
    lemma_lower_round3(s, acts, cells, nx, ny, nt);
    let s2 = lower_round3(s, acts, cells, nx, ny, nt).0;
    let f2 = lower_round3(s, acts, cells, nx, ny, nt).1;
    assert forall|i: int| 0 <= i < s2.len() implies (#[trigger] s2[i]).total_cost <= MAX_COST by {
        assert(s[i].total_cost <= MAX_COST);
    }
    assert forall|i: int| 0 <= i < s2.len() && #[trigger] improvable(s2, acts, i, nx, ny, nt)
        implies dilate_stack(f2, nx, ny, nt, m.0, m.1, m.2)[s2[i].it as int][s2[i].iy as int][s2[i].ix as int] by {
        let x = s[i];
        let y = s2[i];
        assert(y == (State { total_cost: y.total_cost, ..x }));
        assert(in_grid(x, nx, ny, nt));
        assert(y.total_cost <= MAX_COST);
        let a = lemma_best_witness(s2, acts, y, nx, ny, nt);
        let trs = outcomes(acts[a], y);
        assert(trs == outcomes(acts[a], x));
        if exists|k: int| 0 <= k < trs.len() && {
            let c = #[trigger] outcome_cell(x, trs[k], nt);
            0 <= c.0 < nx && 0 <= c.1 < ny && s2[index_of(c.0, c.1, c.2, nx, nt)] != s[index_of(c.0, c.1, c.2, nx, nt)]
        } {
            let k = choose|k: int| 0 <= k < trs.len() && {
                let c = #[trigger] outcome_cell(x, trs[k], nt);
                0 <= c.0 < nx && 0 <= c.1 < ny && s2[index_of(c.0, c.1, c.2, nx, nt)] != s[index_of(c.0, c.1, c.2, nx, nt)]
            };
            let c = outcome_cell(x, trs[k], nt);
            lemma_coords(s, c.0, c.1, c.2, nx, ny, nt);
            let j = index_of(c.0, c.1, c.2, nx, nt);
            assert(f2[c.2][c.1][c.0]);
            assert(covers(acts[a].state_transitions@[x.it as int]@[k], x.it as int, nt, m));
            assert(outcome_cell(y, trs[k], nt) == c);
            lemma_near3(f2, y, trs[k], nx, ny, nt, m);
        } else {
            lemma_cost_frame(s, s2, x, y, trs, nx, ny, nt);
            if cell_in3(cells, x.ix as int, x.iy as int, x.it as int) {
                assert(updatable(s, i));
                let w = choose|w: Seq<State>| below(s, w) && below(w, s2)
                    && (#[trigger] s2[i]).total_cost <= clamped_best(w, acts, w[i], nx, ny, nt).0;
                assert(w[i] == (State { total_cost: w[i].total_cost, ..x }));
                assert forall|k: int| 0 <= k < trs.len() implies {
                    let c = #[trigger] outcome_cell(w[i], trs[k], nt);
                    0 <= c.0 < nx && 0 <= c.1 < ny ==> s2[index_of(c.0, c.1, c.2, nx, nt)] == w[index_of(c.0, c.1, c.2, nx, nt)]
                } by {
                    let c = outcome_cell(w[i], trs[k], nt);
                    assert(c == outcome_cell(x, trs[k], nt));
                    if 0 <= c.0 < nx && 0 <= c.1 < ny {
                        lemma_coords(s, c.0, c.1, c.2, nx, ny, nt);
                        let j = index_of(c.0, c.1, c.2, nx, nt);
                        assert(s2[j] == s[j]);
                        assert(w[j] == (State { total_cost: w[j].total_cost, ..s[j] }));
                        assert(s2[j] == (State { total_cost: s2[j].total_cost, ..w[j] }));
                    }
                }
                lemma_cost_frame(w, s2, w[i], y, trs, nx, ny, nt);
                lemma_best_le(w, acts, w[i], a, nx, ny, nt);
                assert(outcomes(acts[a], w[i]) == trs);
                assert(false);
            } else {
                assert(s2[i] == s[i]);
                lemma_best_le(s, acts, x, a, nx, ny, nt);
                assert(improvable(s, acts, i, nx, ny, nt));
                assert(dilate_stack(f, nx, ny, nt, m.0, m.1, m.2)[x.it as int][x.iy as int][x.ix as int]);
                assert(false);
            }
        }
    }
}

/// A storage-order listing of the set cells of a stack is a list of distinct
/// in-grid cells that holds every set cell.
pub proof fn lemma_listed3_ok(cells: Seq<(u32, u32, u32)>, v: Seq<Seq<Seq<bool>>>, nx: int, ny: int, nt: int)
    requires
        lists_cells3(cells, v, nx, ny, nt),
    ensures
        cells3_ok(cells, nx, ny, nt),
        forall|x: int, y: int, t: int| 0 <= x < nx && 0 <= y < ny && 0 <= t < nt && #[trigger] v[t][y][x] ==> cell_in3(cells, x, y, t),
{
    assert forall|j: int| 0 <= j < cells.len() implies (#[trigger] cells[j]).0 < nx && cells[j].1 < ny && cells[j].2 < nt by {
        assert(set_cells3(v, nx, ny, nt).contains((cells[j].0 as int, cells[j].1 as int, cells[j].2 as int)));
    }
    assert forall|i: int, j: int| 0 <= i < j < cells.len() implies #[trigger] cells[i] != #[trigger] cells[j] by {
        assert(cell3_before((cells[i].0 as int, cells[i].1 as int, cells[i].2 as int), (cells[j].0 as int, cells[j].1 as int, cells[j].2 as int)));
    }
    assert forall|x: int, y: int, t: int| 0 <= x < nx && 0 <= y < ny && 0 <= t < nt && #[trigger] v[t][y][x] implies cell_in3(cells, x, y, t) by {
        assert(set_cells3(v, nx, ny, nt).contains((x, y, t)));
        let i = choose|i: int| 0 <= i < cells.len() && (cells[i].0 as int, cells[i].1 as int, cells[i].2 as int) == (x, y, t);
        assert(cells[i].0 == x && cells[i].1 == y && cells[i].2 == t);
    }
}

/// Rounds of lowerings over the listed dilations of their frontiers leave
/// every state that can still be lowered in the dilation of the last frontier.
pub proof fn lemma_run3_covers(s0: Seq<State>, acts: Seq<Action>, hist: Seq<Seq<(u32, u32, u32)>>, nx: int, ny: int, nt: int,
    m: (int, int, int))
    requires
        states_ok(s0, nx, ny, nt),
        capped(s0),
        nonempty_outcomes(acts, nt),
        is_displacement(acts, nt, m),
        forall|a: int| 0 <= a < acts.len() ==> (#[trigger] acts[a]).state_transitions@.len() == nt,
        lower_run3(s0, acts, seed_view3(s0, nx, ny, nt), hist, nx, ny, nt, m),
    ensures
        ({
            let q = lower_rounds3(s0, acts, seed_view3(s0, nx, ny, nt), hist, nx, ny, nt);
            &&& states_ok(q.0, nx, ny, nt)
            &&& capped(q.0)
            &&& covered3(q.0, acts, q.1, nx, ny, nt, m)
        }),
    decreases hist.len(),
{
    let f0 = seed_view3(s0, nx, ny, nt);
    if hist.len() == 0 {
        lemma_seed_covers3(s0, acts, nx, ny, nt, m);
    } else {
        let ph = hist.drop_last();
        assert(lower_run3(s0, acts, f0, ph, nx, ny, nt, m)) by {
            assert forall|r: int| 0 <= r < ph.len() implies
                lists_cells3(ph[r], dilate_stack(#[trigger] lower_rounds3(s0, acts, f0, ph.take(r), nx, ny, nt).1, nx, ny, nt, m.0, m.1, m.2),
                    nx, ny, nt) by {
                assert(ph.take(r) =~= hist.take(r));
                assert(ph[r] == hist[r]);
            }
        }
        lemma_run3_covers(s0, acts, ph, nx, ny, nt, m);
        let p = lower_rounds3(s0, acts, f0, ph, nx, ny, nt);
        let r = ph.len() as int;
        assert(hist.take(r) =~= ph);
        assert(lower_rounds3(s0, acts, f0, hist.take(r), nx, ny, nt) == p);
        let cv = hist[r];
        let d = dilate_stack(p.1, nx, ny, nt, m.0, m.1, m.2);
        assert(lists_cells3(cv, d, nx, ny, nt));
        lemma_listed3_ok(cv, d, nx, ny, nt);
        assert(hist.last() == cv);
        lemma_lower_round3(p.0, acts, cv, nx, ny, nt);
        lemma_round3_covers(p.0, acts, p.1, cv, nx, ny, nt, m);
        lemma_below_ok(p.0, lower_round3(p.0, acts, cv, nx, ny, nt).0, nx, ny, nt);
    }
}

/// Covered by an empty frontier, no state can be lowered.
pub proof fn lemma_empty_settles3(s: Seq<State>, acts: Seq<Action>, f: Seq<Seq<Seq<bool>>>, nx: int, ny: int, nt: int, m: (int, int, int))
    requires
        states_ok(s, nx, ny, nt),
        covered3(s, acts, f, nx, ny, nt, m),
        set_cells3(f, nx, ny, nt) == Set::<(int, int, int)>::empty(),
    ensures
        settled(s, acts, nx, ny, nt),
{
    assert forall|i: int| 0 <= i < s.len() implies !#[trigger] improvable(s, acts, i, nx, ny, nt) by {
        if improvable(s, acts, i, nx, ny, nt) {
            let x = s[i];
            assert(in_grid(x, nx, ny, nt));
            let t = x.it as int;
            let d = Seq::new(nt as nat, |l: int| dilate_grid(f[l], nx, ny, m.0, m.1));
            assert(dilate_stack(f, nx, ny, nt, m.0, m.1, m.2)[t][x.iy as int][x.ix as int]);
            let st = choose|st: int| 0 <= st <= m.2 && #[trigger] theta_hit(d, nt, t, st, x.iy as int, x.ix as int);
            let l = if d[(t + st) % nt][x.iy as int][x.ix as int] { (t + st) % nt } else { (t + nt - st) % nt };
            assert(0 <= l < nt);
            assert(dilate_grid(f[l], nx, ny, m.0, m.1)[x.iy as int][x.ix as int]);
            let (x2, y2) = choose|x2: int, y2: int| 0 <= x2 < nx && 0 <= y2 < ny && x.ix - m.0 <= x2 <= x.ix + m.0
                && x.iy - m.1 <= y2 <= x.iy + m.1 && #[trigger] f[l][y2][x2];
            assert(set_cells3(f, nx, ny, nt).contains((x2, y2, l)));
            assert(!Set::<(int, int, int)>::empty().contains((x2, y2, l)));
        }
    }
}

/// A converged run of the 3-D frontier solver from a start where every free
/// cell is reached and none lies below its clamped best cost ends with the
/// costs of the greatest settled state below the start.
pub proof fn lemma_frontier3d_greatest(s0: Seq<State>, acts: Seq<Action>, nx: int, ny: int, nt: int, m: (int, int, int),
    hist: Seq<Seq<(u32, u32, u32)>>, s2: Seq<State>, updates: u64) -> (g: Seq<State>)
    requires
        frontier3d_result(s0, acts, nx, ny, nt, m, hist, s2, updates, true, None),
        agree_ok(s0, acts, nt),
        states_ok(s0, nx, ny, nt),
        all_reached(s0),
        above_best(s0, acts, nx, ny, nt),
    ensures
        greatest_settled(g, s0, acts, nx, ny, nt),
        s2.len() == s0.len(),
        forall|k: int| 0 <= k < s0.len() ==> (#[trigger] s2[k]).total_cost == g[k].total_cost,
{
    let f0 = seed_view3(s0, nx, ny, nt);
    assert(hist3_in_grid(hist, nx, ny, nt)) by {
        assert forall|r: int, j: int| 0 <= r < hist.len() && 0 <= j < hist[r].len()
            implies (#[trigger] hist[r][j]).0 < nx && hist[r][j].1 < ny && hist[r][j].2 < nt by {
            let p = rounds3(s0, acts, f0, hist.take(r), nx, ny, nt, None);
            lemma_listed3_ok(hist[r], dilate_stack(p.1, nx, ny, nt, m.0, m.1, m.2), nx, ny, nt);
        }
    }
    lemma_rounds3_same(s0, acts, nx, ny, nt, f0, hist);
    assert(lower_run3(s0, acts, f0, hist, nx, ny, nt, m)) by {
        assert forall|r: int| 0 <= r < hist.len() implies
            lists_cells3(hist[r], dilate_stack(#[trigger] lower_rounds3(s0, acts, f0, hist.take(r), nx, ny, nt).1, nx, ny, nt, m.0, m.1, m.2),
                nx, ny, nt) by {
            let h = hist.take(r);
            assert(hist3_in_grid(h, nx, ny, nt)) by {
                assert forall|a: int, j: int| 0 <= a < h.len() && 0 <= j < h[a].len()
                    implies (#[trigger] h[a][j]).0 < nx && h[a][j].1 < ny && h[a][j].2 < nt by {
                    assert(h[a] == hist[a]);
                }
            }
            lemma_rounds3_same(s0, acts, nx, ny, nt, f0, h);
            assert(rounds3(s0, acts, f0, h, nx, ny, nt, None).1 == lower_rounds3(s0, acts, f0, h, nx, ny, nt).1);
        }
    }
    lemma_run3_covers(s0, acts, hist, nx, ny, nt, m);
    let q = lower_rounds3(s0, acts, f0, hist, nx, ny, nt);
    lemma_empty_settles3(q.0, acts, q.1, nx, ny, nt, m);
    let pr = rounds3(s0, acts, f0, hist, nx, ny, nt, None);
    assert forall|k: int| 0 <= k < s0.len() implies (#[trigger] s2[k]).total_cost == q.0[k].total_cost by {
        assert(pr.0[k] == (State { optimal_action: pr.0[k].optimal_action, ..q.0[k] }));
    }
    q.0
}

} // verus!
