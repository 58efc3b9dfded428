//! The asynchronous (Gauss–Seidel) form of the padded 2-D frontier solver.
//! Each state of a candidate column takes its lowered cost at once, so later
//! states of the same round already read it; the scan runs through the
//! candidates in storage order on even rounds and backwards on odd rounds, so
//! values travel both ways within a round.  The work is shared out here by one
//! worker; the actions are chosen once, from the final costs.
use vstd::prelude::*;
use crate::reference::params::MAX_COST;
use crate::reference::state::{Action, State};
use crate::reference::value_iterator::{StateSpace, index_of, states_ok, lemma_index_bound, lemma_index_inj,
    in_grid, updatable};
use crate::reference::solvers::fused::{geom_fits, pad_index, in_box, pad_of, lemma_pad_index, clamped_best};
use crate::reference::solvers::pad::{Padded, lemma_match_set, lemma_set_keeps_ok, same_cells};
use crate::reference::solvers::par::{par_ok, policy_of, best_at, final_policy};
use crate::reference::solvers::settle::{lemma_coords, col_in, cells_ok, capped, covered, improvable, settled,
    nonempty_outcomes, lemma_best_witness, lemma_best_le, lemma_cost_frame, lemma_near, lemma_seed_covers,
    lemma_empty_settles, lemma_listed_ok};
use crate::reference::value_iterator::{outcomes, outcome_cell};
use crate::reference::solvers::frontier::covers;
use crate::reference::solvers::greatest::{agree_ok, greatest_settled, below, lemma_below_trans, hist_in_grid, lemma_gs_rounds_inv,
    lemma_below_ok};
use crate::bitboard::grid::shape2;
use crate::reference::solvers::frontier::{is_displacement, abs_int, frontier_ok, lemma_frontier_offsets,
    seed_frontier_2d, seed_view2, lists_cells2, lemma_cells2_len, set_cell2};
use crate::bitboard::{Bitboard2D, fits2, empty_grid};
use crate::bitboard::ops::dilate_grid;
use crate::bitboard::enumerate::{set_cells2, lemma_count_empty2};

verus! {

/// The asynchronous update of `states[idx]`: a free state outside the goal
/// whose clamped best cost is below its cost takes that cost; nothing else changes.
pub open spec fn lower_at(states: Seq<State>, actions: Seq<Action>, idx: int, nx: int, ny: int, nt: int) -> Seq<State> {
    let b = clamped_best(states, actions, states[idx], nx, ny, nt).0;
    if updatable(states, idx) && b < states[idx].total_cost {
        states.update(idx, State { total_cost: b, ..states[idx] })
    } else {
        states
    }
}

/// The asynchronous updates of headings `0 .. k` of column `c`, in order;
/// gives the states and how many costs fell.
pub open spec fn gs_column(states: Seq<State>, actions: Seq<Action>, c: (u32, u32), k: int, nx: int, ny: int, nt: int)
    -> (Seq<State>, nat)
    decreases k,
{
    if k <= 0 {
        (states, 0)
    } else {
        let p = gs_column(states, actions, c, k - 1, nx, ny, nt);
        let idx = index_of(c.0 as int, c.1 as int, k - 1, nx, nt);
        let s2 = lower_at(p.0, actions, idx, nx, ny, nt);
        (s2, p.1 + if s2[idx].total_cost < p.0[idx].total_cost { 1nat } else { 0nat })
    }
}

/// One asynchronous round over `cells`, in the order given: the states, the
/// columns where a cost fell, and how many costs fell.
pub open spec fn gs_round(states: Seq<State>, actions: Seq<Action>, cells: Seq<(u32, u32)>, nx: int, ny: int, nt: int)
    -> (Seq<State>, Seq<Seq<bool>>, nat)
    decreases cells.len(),
{
    if cells.len() == 0 {
        (states, empty_grid(nx, ny), 0)
    } else {
        let p = gs_round(states, actions, cells.drop_last(), nx, ny, nt);
        let c = cells.last();
        let col = gs_column(p.0, actions, c, nt, nx, ny, nt);
        (col.0, if col.1 > 0 { set_cell2(p.1, c) } else { p.1 }, p.2 + col.1)
    }
}

/// The asynchronous rounds over the scan orders of `hist`, from `states` and frontier `f`.
pub open spec fn gs_rounds(states: Seq<State>, actions: Seq<Action>, f: Seq<Seq<bool>>, hist: Seq<Seq<(u32, u32)>>,
    nx: int, ny: int, nt: int) -> (Seq<State>, Seq<Seq<bool>>, nat)
    decreases hist.len(),
{
    if hist.len() == 0 {
        (states, f, 0)
    } else {
        let p = gs_rounds(states, actions, f, hist.drop_last(), nx, ny, nt);
        let r = gs_round(p.0, actions, hist.last(), nx, ny, nt);
        (r.0, r.1, p.2 + r.2)
    }
}

/// `hist` is a run of the asynchronous solver with displacement `m`: round `r`
/// scans the dilated frontier in storage order when `r` is even and backwards
/// when `r` is odd.
pub open spec fn gs_run2(states: Seq<State>, actions: Seq<Action>, f: Seq<Seq<bool>>, hist: Seq<Seq<(u32, u32)>>,
    nx: int, ny: int, nt: int, m: (int, int, int)) -> bool {
    forall|r: int| 0 <= r < hist.len() ==> {
        let p = #[trigger] gs_rounds(states, actions, f, hist.take(r), nx, ny, nt);
        &&& set_cells2(p.1, nx, ny) != Set::<(int, int)>::empty()
        &&& lists_cells2(if r % 2 == 0 { hist[r] } else { hist[r].reverse() }, dilate_grid(p.1, nx, ny, m.0, m.1), nx, ny)
    }
}

/// The asynchronous solver started from `states` ran the rounds `hist` and
/// ended with `states2` (the costs of the rounds, the actions chosen from
/// them), `updates` lowered costs and, when `converged`, an empty frontier.
/// When it converged from costs of at most `MAX_COST`, with an outcome for
/// every action and heading, its costs are a fixed point of the clamped
/// update: no free cell outside the goal can be lowered.  Under [`agree_ok`]
/// a converged run ends at the greatest such fixed point below its start.
pub open spec fn gs2d_result(states: Seq<State>, actions: Seq<Action>, nx: int, ny: int, nt: int, m: (int, int, int),
    hist: Seq<Seq<(u32, u32)>>, states2: Seq<State>, updates: u64, converged: bool) -> bool {
    let f0 = seed_view2(states, nx, ny, nt);
    let res = gs_rounds(states, actions, f0, hist, nx, ny, nt);
    &&& is_displacement(actions, nt, m)
    &&& gs_run2(states, actions, f0, hist, nx, ny, nt, m)
    &&& states2 == policy_of(res.0, actions, nx, ny, nt)
    &&& updates == res.2
    &&& converged == (set_cells2(res.1, nx, ny) == Set::<(int, int)>::empty())
    &&& (capped(states) && nonempty_outcomes(actions, nt) && converged ==> settled(res.0, actions, nx, ny, nt))
    &&& (agree_ok(states, actions, nt) && converged ==> greatest_settled(res.0, states, actions, nx, ny, nt))
}


/// What one column of a round does: it only lowers costs, only on its own
/// headings `0 .. k`; a lowered state makes the count positive; and each
/// updatable state of the column ends at most at its clamped best cost over
/// some states between the start and the end.
proof fn lemma_gs_column(q: Seq<State>, acts: Seq<Action>, c: (u32, u32), k: int, nx: int, ny: int, nt: int)
    requires
        states_ok(q, nx, ny, nt),
        c.0 < nx,
        c.1 < ny,
        0 <= k <= nt,
    ensures
        ({
            let r = gs_column(q, acts, c, k, nx, ny, nt);
            &&& below(q, r.0)
            &&& forall|j: int| 0 <= j < q.len() && !(q[j].ix == c.0 && q[j].iy == c.1 && q[j].it < k) ==> #[trigger] r.0[j] == q[j]
            &&& (exists|j: int| 0 <= j < q.len() && #[trigger] r.0[j] != q[j]) ==> r.1 > 0
            &&& forall|j: int| 0 <= j < q.len() && q[j].ix == c.0 && q[j].iy == c.1 && q[j].it < k && updatable(q, j) ==>
                exists|w: Seq<State>| below(q, w) && below(w, r.0)
                    && (#[trigger] r.0[j]).total_cost <= clamped_best(w, acts, w[j], nx, ny, nt).0
        }),
    decreases k,
{
    let r = gs_column(q, acts, c, k, nx, ny, nt);
    if k <= 0 {
        assert(below(q, q));
    } else {
        lemma_gs_column(q, acts, c, k - 1, nx, ny, nt);
        let p = gs_column(q, acts, c, k - 1, nx, ny, nt);
        let idx = index_of(c.0 as int, c.1 as int, k - 1, nx, nt);
        lemma_coords(q, c.0 as int, c.1 as int, k - 1, nx, ny, nt);
        assert(p.0[idx] == (State { total_cost: p.0[idx].total_cost, ..q[idx] }));
        let b = clamped_best(p.0, acts, p.0[idx], nx, ny, nt).0;
        assert(below(p.0, r.0)) by {
            assert forall|j: int| 0 <= j < p.0.len() implies #[trigger] r.0[j] == (State { total_cost: r.0[j].total_cost, ..p.0[j] })
                && r.0[j].total_cost <= p.0[j].total_cost by {
            }
        }
        lemma_below_trans(q, p.0, r.0);
        assert forall|j: int| 0 <= j < q.len() && !(q[j].ix == c.0 && q[j].iy == c.1 && q[j].it < k) implies #[trigger] r.0[j] == q[j] by {
            assert(j != idx);
            assert(p.0[j] == q[j]);
        }
        if exists|j: int| 0 <= j < q.len() && #[trigger] r.0[j] != q[j] {
            let j = choose|j: int| 0 <= j < q.len() && #[trigger] r.0[j] != q[j];
            if r.0[idx].total_cost >= p.0[idx].total_cost {
                assert(r.0 == p.0);
                assert(p.0[j] != q[j]);
            }
        }
        assert forall|j: int| 0 <= j < q.len() && q[j].ix == c.0 && q[j].iy == c.1 && q[j].it < k && updatable(q, j) implies
            exists|w: Seq<State>| below(q, w) && below(w, r.0)
                && (#[trigger] r.0[j]).total_cost <= clamped_best(w, acts, w[j], nx, ny, nt).0 by {
            if j == idx {
                assert(updatable(p.0, idx));
                assert(r.0[j].total_cost <= b);
                assert(below(q, p.0) && below(p.0, r.0));
            } else {
                assert(in_grid(q[j], nx, ny, nt));
                assert(index_of(q[j].ix as int, q[j].iy as int, q[j].it as int, nx, nt) == j);
                assert(q[j].it < k - 1);
                let w = choose|w: Seq<State>| below(q, w) && below(w, p.0)
                    && (#[trigger] p.0[j]).total_cost <= clamped_best(w, acts, w[j], nx, ny, nt).0;
                lemma_below_trans(w, p.0, r.0);
                assert(r.0[j] == p.0[j]);
            }
        }
    }
}

/// What a round does over distinct in-grid `cells`: it only lowers costs,
/// only in listed columns; every changed state's column is in the new
/// frontier; and each updatable state of a listed column ends at most at its
/// clamped best cost over some states between the start and the end.
pub proof fn lemma_gs_round(s: Seq<State>, acts: Seq<Action>, cells: Seq<(u32, u32)>, nx: int, ny: int, nt: int)
    requires
        states_ok(s, nx, ny, nt),
        cells_ok(cells, nx, ny),
        0 <= nx,
        0 <= ny,
    ensures
        ({
            let r = gs_round(s, acts, cells, nx, ny, nt);
            &&& below(s, r.0)
            &&& shape2(r.1, nx, ny)
            &&& forall|j: int| 0 <= j < s.len() && !col_in(cells, s[j].ix as int, s[j].iy as int) ==> #[trigger] r.0[j] == s[j]
            &&& forall|j: int| 0 <= j < s.len() && #[trigger] r.0[j] != s[j] ==> r.1[s[j].iy as int][s[j].ix as int]
            &&& forall|j: int| 0 <= j < s.len() && col_in(cells, s[j].ix as int, s[j].iy as int) && updatable(s, j) ==>
                exists|w: Seq<State>| below(s, w) && below(w, r.0)
                    && (#[trigger] r.0[j]).total_cost <= clamped_best(w, acts, w[j], nx, ny, nt).0
        }),
    decreases cells.len(),
{
    let r = gs_round(s, acts, cells, nx, ny, nt);
    if cells.len() == 0 {
        assert(below(s, s));
        assert forall|j: int| 0 <= j < s.len() && col_in(cells, s[j].ix as int, s[j].iy as int) implies false by {
            let e = choose|e: int| 0 <= e < cells.len() && cells[e].0 == s[j].ix && cells[e].1 == s[j].iy;
        }
    } else {
        let pc = cells.drop_last();
        assert(cells_ok(pc, nx, ny)) by {
            assert forall|j: int| 0 <= j < pc.len() implies (#[trigger] pc[j]).0 < nx && pc[j].1 < ny by {
                assert(pc[j] == cells[j]);
            }
            assert forall|i: int, j: int| 0 <= i < j < pc.len() implies #[trigger] pc[i] != #[trigger] pc[j] by {
                assert(pc[i] == cells[i] && pc[j] == cells[j]);
            }
        }
        lemma_gs_round(s, acts, pc, nx, ny, nt);
        let p = gs_round(s, acts, pc, nx, ny, nt);
        let c = cells.last();
        assert(c == cells[cells.len() - 1]);
        assert(c.0 < nx && c.1 < ny);
        assert(states_ok(p.0, nx, ny, nt)) by {
            assert forall|i: int| 0 <= i < p.0.len() implies {
                &&& in_grid(#[trigger] p.0[i], nx, ny, nt)
                &&& index_of(p.0[i].ix as int, p.0[i].iy as int, p.0[i].it as int, nx, nt) == i
                &&& p.0[i].total_cost <= i64::MAX
            } by {
                assert(in_grid(s[i], nx, ny, nt));
                assert(p.0[i] == (State { total_cost: p.0[i].total_cost, ..s[i] }));
            }
        }
        lemma_gs_column(p.0, acts, c, nt, nx, ny, nt);
        let col = gs_column(p.0, acts, c, nt, nx, ny, nt);
        lemma_below_trans(s, p.0, col.0);
        assert forall|j: int| 0 <= j < s.len() && !col_in(cells, s[j].ix as int, s[j].iy as int) implies #[trigger] r.0[j] == s[j] by {
            if col_in(pc, s[j].ix as int, s[j].iy as int) {
                let e = choose|e: int| 0 <= e < pc.len() && pc[e].0 == s[j].ix && pc[e].1 == s[j].iy;
                assert(cells[e] == pc[e]);
            }
            assert(p.0[j] == s[j]);
            if s[j].ix == c.0 && s[j].iy == c.1 {
                assert(cells[cells.len() - 1] == c);
            }
        }
        assert forall|j: int| 0 <= j < s.len() && #[trigger] r.0[j] != s[j] implies r.1[s[j].iy as int][s[j].ix as int] by {
            assert(p.0[j] == (State { total_cost: p.0[j].total_cost, ..s[j] }));
            if p.0[j] != s[j] {
                assert(p.1[s[j].iy as int][s[j].ix as int]);
            } else {
                assert(col.0[j] != p.0[j]);
                assert(col.1 > 0);
            }
        }
        assert forall|j: int| 0 <= j < s.len() && col_in(cells, s[j].ix as int, s[j].iy as int) && updatable(s, j) implies
            exists|w: Seq<State>| below(s, w) && below(w, r.0)
                && (#[trigger] r.0[j]).total_cost <= clamped_best(w, acts, w[j], nx, ny, nt).0 by {
            assert(p.0[j] == (State { total_cost: p.0[j].total_cost, ..s[j] }));
            assert(in_grid(s[j], nx, ny, nt));
            if s[j].ix == c.0 && s[j].iy == c.1 {
                assert(updatable(p.0, j));
                let w = choose|w: Seq<State>| below(p.0, w) && below(w, col.0)
                    && (#[trigger] col.0[j]).total_cost <= clamped_best(w, acts, w[j], nx, ny, nt).0;
                lemma_below_trans(s, p.0, w);
            } else {
                let e = choose|e: int| 0 <= e < cells.len() && cells[e].0 == s[j].ix && cells[e].1 == s[j].iy;
                assert(e != cells.len() - 1);
                assert(pc[e] == cells[e]);
                assert(col_in(pc, s[j].ix as int, s[j].iy as int));
                let w = choose|w: Seq<State>| below(s, w) && below(w, p.0)
                    && (#[trigger] p.0[j]).total_cost <= clamped_best(w, acts, w[j], nx, ny, nt).0;
                lemma_below_trans(w, p.0, col.0);
                assert(col.0[j] == p.0[j]);
            }
        }
    }
}

/// A round from capped states covered by frontier `f`, over distinct in-grid
/// cells that include every column of the dilation of `f` (in any order),
/// gives capped states covered by its own frontier.
pub proof fn lemma_gs_round_covers(s: Seq<State>, acts: Seq<Action>, f: Seq<Seq<bool>>, cells: Seq<(u32, u32)>,
    nx: int, ny: int, nt: int, m: (int, int, int))
    requires
        states_ok(s, nx, ny, nt),
        capped(s),
        is_displacement(acts, nt, m),
        forall|a: int| 0 <= a < acts.len() ==> (#[trigger] acts[a]).state_transitions@.len() == nt,
        covered(s, acts, f, nx, ny, nt, m),
        cells_ok(cells, nx, ny),
        forall|x: int, y: int| 0 <= x < nx && 0 <= y < ny && #[trigger] dilate_grid(f, nx, ny, m.0, m.1)[y][x]
            ==> col_in(cells, x, y),
        0 <= nx,
        0 <= ny,
    ensures
        capped(gs_round(s, acts, cells, nx, ny, nt).0),
        covered(gs_round(s, acts, cells, nx, ny, nt).0, acts, gs_round(s, acts, cells, nx, ny, nt).1, nx, ny, nt, m),
{
    lemma_gs_round(s, acts, cells, nx, ny, nt);
    let s2 = gs_round(s, acts, cells, nx, ny, nt).0;
    let f2 = gs_round(s, acts, cells, nx, ny, nt).1;
    assert forall|i: int| 0 <= i < s2.len() implies (#[trigger] s2[i]).total_cost <= MAX_COST by {
        assert(s[i].total_cost <= MAX_COST);
    }
    assert forall|i: int| 0 <= i < s2.len() && #[trigger] improvable(s2, acts, i, nx, ny, nt)
        implies dilate_grid(f2, nx, ny, m.0, m.1)[s2[i].iy as int][s2[i].ix as int] by {
        let x = s[i];
        let y = s2[i];
        assert(y == (State { total_cost: y.total_cost, ..x }));
        assert(in_grid(x, nx, ny, nt));
        assert(y.total_cost <= MAX_COST);
        let a = lemma_best_witness(s2, acts, y, nx, ny, nt);
        let trs = outcomes(acts[a], y);
        assert(trs == outcomes(acts[a], x));
        if exists|k: int| 0 <= k < trs.len() && {
            let c = #[trigger] outcome_cell(x, trs[k], nt);
            0 <= c.0 < nx && 0 <= c.1 < ny && s2[index_of(c.0, c.1, c.2, nx, nt)] != s[index_of(c.0, c.1, c.2, nx, nt)]
        } {
            let k = choose|k: int| 0 <= k < trs.len() && {
                let c = #[trigger] outcome_cell(x, trs[k], nt);
                0 <= c.0 < nx && 0 <= c.1 < ny && s2[index_of(c.0, c.1, c.2, nx, nt)] != s[index_of(c.0, c.1, c.2, nx, nt)]
            };
            let c = outcome_cell(x, trs[k], nt);
            lemma_coords(s, c.0, c.1, c.2, nx, ny, nt);
            let j = index_of(c.0, c.1, c.2, nx, nt);
            assert(f2[c.1][c.0]);
            assert(covers(acts[a].state_transitions@[x.it as int]@[k], x.it as int, nt, m));
            assert(outcome_cell(y, trs[k], nt) == c);
            lemma_near(f2, y, trs[k], nx, ny, nt, m);
        } else {
            lemma_cost_frame(s, s2, x, y, trs, nx, ny, nt);
            if col_in(cells, x.ix as int, x.iy as int) {
                assert(updatable(s, i));
                let w = choose|w: Seq<State>| below(s, w) && below(w, s2)
                    && (#[trigger] s2[i]).total_cost <= clamped_best(w, acts, w[i], nx, ny, nt).0;
                assert(w[i] == (State { total_cost: w[i].total_cost, ..x }));
                assert forall|k: int| 0 <= k < trs.len() implies {
                    let c = #[trigger] outcome_cell(w[i], trs[k], nt);
                    0 <= c.0 < nx && 0 <= c.1 < ny ==> s2[index_of(c.0, c.1, c.2, nx, nt)] == w[index_of(c.0, c.1, c.2, nx, nt)]
                } by {
                    let c = outcome_cell(w[i], trs[k], nt);
                    assert(c == outcome_cell(x, trs[k], nt));
                    if 0 <= c.0 < nx && 0 <= c.1 < ny {
                        lemma_coords(s, c.0, c.1, c.2, nx, ny, nt);
                        let j = index_of(c.0, c.1, c.2, nx, nt);
                        assert(s2[j] == s[j]);
                        assert(w[j] == (State { total_cost: w[j].total_cost, ..s[j] }));
                        assert(s2[j] == (State { total_cost: s2[j].total_cost, ..w[j] }));
                    }
                }
                lemma_cost_frame(w, s2, w[i], y, trs, nx, ny, nt);
                lemma_best_le(w, acts, w[i], a, nx, ny, nt);
                assert(outcomes(acts[a], w[i]) == trs);
                assert(false);
            } else {
                assert(s2[i] == s[i]);
                lemma_best_le(s, acts, x, a, nx, ny, nt);
                assert(improvable(s, acts, i, nx, ny, nt));
                assert(dilate_grid(f, nx, ny, m.0, m.1)[x.iy as int][x.ix as int]);
                assert(false);
            }
        }
    }
}

/// A storage-order listing of the set cells of `v`, or its reverse, is a list
/// of distinct in-grid cells that holds every set cell.
pub proof fn lemma_order_ok(cv: Seq<(u32, u32)>, v: Seq<Seq<bool>>, nx: int, ny: int, rev: bool)
    requires
        lists_cells2(cv, v, nx, ny),
    ensures
        cells_ok(if rev { cv.reverse() } else { cv }, nx, ny),
        forall|x: int, y: int| 0 <= x < nx && 0 <= y < ny && #[trigger] v[y][x]
            ==> col_in(if rev { cv.reverse() } else { cv }, x, y),
{
    lemma_listed_ok(cv, v, nx, ny);
    let ord = if rev { cv.reverse() } else { cv };
    let n = cv.len();
    if rev {
        assert forall|j: int| 0 <= j < ord.len() implies (#[trigger] ord[j]).0 < nx && ord[j].1 < ny by {
            assert(ord[j] == cv[n - 1 - j]);
        }
        assert forall|i: int, j: int| 0 <= i < j < ord.len() implies #[trigger] ord[i] != #[trigger] ord[j] by {
            assert(ord[i] == cv[n - 1 - i] && ord[j] == cv[n - 1 - j]);
        }
    }
    assert forall|x: int, y: int| 0 <= x < nx && 0 <= y < ny && #[trigger] v[y][x] implies col_in(ord, x, y) by {
        assert(set_cells2(v, nx, ny).contains((x, y)));
        let i = choose|i: int| 0 <= i < cv.len() && (cv[i].0 as int, cv[i].1 as int) == (x, y);
        if rev {
            assert(ord[n - 1 - i] == cv[i]);
        } else {
            assert(ord[i] == cv[i]);
        }
    }
}

/// The asynchronous updates of every heading of in-grid column `c`, written
/// into `m`; gives how many costs fell.
fn lower_column(m: &mut Padded, c: (u32, u32), Ghost(st): Ghost<Seq<State>>, Ghost(s0): Ghost<Seq<State>>,
    Ghost(acts): Ghost<Seq<Action>>) -> (r: u64)
    requires
        par_ok(*old(m), st, acts),
        same_cells(s0, st),
        c.0 < old(m).g.nx,
        c.1 < old(m).g.ny,
    ensures
        final(m).g == old(m).g,
        final(m).free@ == old(m).free@,
        final(m).finals@ == old(m).finals@,
        ({
            let col = gs_column(st, acts, c, old(m).g.nt as int, old(m).g.nx as int, old(m).g.ny as int, old(m).g.nt as int);
            &&& par_ok(*final(m), col.0, acts)
            &&& same_cells(s0, col.0)
            &&& r == col.1
            &&& r <= old(m).g.nt
        }),
{
    let ghost nx = m.g.nx as int;
    let ghost ny = m.g.ny as int;
    let ghost nt = m.g.nt as int;
    let ghost g0 = m.g;
    let ghost mut cur = st;
    let pad_col = m.pad_col(c.0 as i32, c.1 as i32);
    let mut count: u64 = 0;
    let mut it: i32 = 0;
    while it < m.g.nt
        invariant
            0 <= it <= nt,
            m.g == g0,
            m.free@ == old(m).free@,
            m.finals@ == old(m).finals@,
            nx == m.g.nx,
            ny == m.g.ny,
            nt == m.g.nt,
            c.0 < nx,
            c.1 < ny,
            pad_col == pad_index(c.0 as int, c.1 as int, 0, nx, nt, m.g.mx as int, m.g.my as int),
            par_ok(*m, cur, acts),
            same_cells(s0, cur),
            cur == gs_column(st, acts, c, it as int, nx, ny, nt).0,
            count == gs_column(st, acts, c, it as int, nx, ny, nt).1,
            count <= it,
        decreases nt - it,
    {
        let ghost idx = index_of(c.0 as int, c.1 as int, it as int, nx, nt);
        proof {
            lemma_index_bound(c.0 as int, c.1 as int, it as int, nx, ny, nt);
            let q = cur[idx];
            assert(in_grid(q, nx, ny, nt));
            lemma_index_inj(q.ix as int, q.iy as int, q.it as int, c.0 as int, c.1 as int, it as int, nx, nt);
            assert(in_box(m.g, c.0 as int, c.1 as int, it as int));
            lemma_pad_index(m.g, c.0 as int, c.1 as int, it as int, c.0 as int, c.1 as int, it as int);
            assert(pad_col + it == pad_of(q, m.g));
        }
        let pad_idx = (pad_col + it as i64) as usize;
        if m.free[pad_idx] && !m.finals[pad_idx] {
            let before = m.hot[pad_idx].0;
            let (min_cost, _) = best_at(m, c.0 as i32, c.1 as i32, it, pad_col, Ghost(cur), Ghost(acts));
            if min_cost < before {
                proof {
                    lemma_match_set(m.hot@, m.free@, m.finals@, cur, m.g, idx, min_cost, cur[idx].optimal_action);
                    lemma_set_keeps_ok(cur, nx, ny, nt, idx, min_cost, cur[idx].optimal_action);
                }
                let pen = m.hot[pad_idx].1;
                m.hot.set(pad_idx, (min_cost, pen));
                count += 1;
                proof {
                    let st2 = cur.update(idx, State { total_cost: min_cost, ..cur[idx] });
                    assert(st2 == cur.update(idx, State { total_cost: min_cost, optimal_action: cur[idx].optimal_action, ..cur[idx] }));
                    assert forall|k2: int| 0 <= k2 < s0.len() implies #[trigger] st2[k2]
                        == (State { total_cost: st2[k2].total_cost, optimal_action: st2[k2].optimal_action, ..s0[k2] }) by {
                        assert(cur[k2] == (State { total_cost: cur[k2].total_cost, optimal_action: cur[k2].optimal_action, ..s0[k2] }));
                    }
                    assert(st2 == lower_at(cur, acts, idx, nx, ny, nt));
                    cur = st2;
                }
            } else {
                proof {
                    assert(cur == lower_at(cur, acts, idx, nx, ny, nt));
                }
            }
        } else {
            proof {
                assert(cur == lower_at(cur, acts, idx, nx, ny, nt));
            }
        }
        it += 1;
    }
    count
}

/// One asynchronous round over `cand`, scanned backwards when `rev`: each
/// candidate column has its states lowered in place.  Gives the columns where
/// a cost fell and how many costs fell.
fn gs_pass(m: &mut Padded, cand: &Vec<(u32, u32)>, rev: bool, Ghost(st): Ghost<Seq<State>>, Ghost(s0): Ghost<Seq<State>>,
    Ghost(acts): Ghost<Seq<Action>>) -> (r: (Bitboard2D, u64))
    requires
        par_ok(*old(m), st, acts),
        same_cells(s0, st),
        fits2(old(m).g.nx as u32, old(m).g.ny as u32),
        forall|i: int| 0 <= i < cand@.len() ==> (#[trigger] cand@[i]).0 < old(m).g.nx && cand@[i].1 < old(m).g.ny,
        cand@.len() * old(m).g.nt <= i32::MAX,
    ensures
        final(m).g == old(m).g,
        ({
            let ord = if rev { cand@.reverse() } else { cand@ };
            let res = gs_round(st, acts, ord, old(m).g.nx as int, old(m).g.ny as int, old(m).g.nt as int);
            &&& par_ok(*final(m), res.0, acts)
            &&& same_cells(s0, res.0)
            &&& r.0.wf()
            &&& r.0.width() == old(m).g.nx
            &&& r.0.height() == old(m).g.ny
            &&& r.0@ == res.1
            &&& r.1 == res.2
            &&& r.1 <= cand@.len() * old(m).g.nt
        }),
{
    let ghost nx = m.g.nx as int;
    let ghost ny = m.g.ny as int;
    let ghost nt = m.g.nt as int;
    let ghost g0 = m.g;
    let ghost cv = cand@;
    let ghost ord = if rev { cv.reverse() } else { cv };
    let ghost mut cur = st;
    let n = cand.len();
    let mut frontier = Bitboard2D::new(m.g.nx as u32, m.g.ny as u32);
    let mut count: u64 = 0;
    let mut j: usize = 0;
    while j < n
        invariant
            0 <= j <= n,
            n == cv.len(),
            cv == cand@,
            ord == (if rev { cv.reverse() } else { cv }),
            m.g == g0,
            nx == m.g.nx,
            ny == m.g.ny,
            nt == m.g.nt,
            0 <= nt,
            fits2(nx as u32, ny as u32),
            forall|i: int| 0 <= i < cv.len() ==> (#[trigger] cv[i]).0 < nx && cv[i].1 < ny,
            cv.len() * nt <= i32::MAX,
            par_ok(*m, cur, acts),
            same_cells(s0, cur),
            cur == gs_round(st, acts, ord.take(j as int), nx, ny, nt).0,
            frontier@ == gs_round(st, acts, ord.take(j as int), nx, ny, nt).1,
            count == gs_round(st, acts, ord.take(j as int), nx, ny, nt).2,
            count <= j * nt,
            frontier.wf(),
            frontier.width() == nx,
            frontier.height() == ny,
        decreases n - j,
    {
        let c = if rev { cand[n - 1 - j] } else { cand[j] };
        proof {
            assert(ord[j as int] == c);
            assert(ord.take(j + 1).drop_last() =~= ord.take(j as int));
            assert(ord.take(j + 1).last() == c);
            assert(j * nt + nt == (j + 1) * nt) by (nonlinear_arith);
            assert((j + 1) * nt <= cv.len() * nt) by (nonlinear_arith) requires j + 1 <= cv.len(), 0 <= nt;
            if !rev {
                assert(c.0 < nx && c.1 < ny);
            } else {
                assert(cv[n - 1 - j] == c);
            }
        }
        let u = lower_column(m, c, Ghost(cur), Ghost(s0), Ghost(acts));
        proof {
            cur = gs_column(cur, acts, c, nt, nx, ny, nt).0;
        }
        count = count + u;
        if u > 0 {
            frontier.set(c.0, c.1);
        }
        j += 1;
    }
    proof {
        assert(ord.take(n as int) =~= ord);
        assert(n * nt == cv.len() * nt);
    }
    (frontier, count)
}

/// Frontier solver over 2-D columns on the padded arrays, in asynchronous
/// rounds: every free non-goal state of each candidate column takes its
/// clamped best cost as soon as it is lower, and later states of the round read
/// it; the candidates are scanned forward on even rounds and backwards on odd
/// ones, and the frontier is the set of columns where a cost fell.  Stops once
/// a round lowers no cost (converged) or after `max_iter` rounds.  The actions
/// are chosen once at the end, from the final costs.
pub fn frontier2d_par_unsafe_solve(vi: &mut StateSpace, max_iter: u32) -> (r: (u32, u64, bool))
    requires
        old(vi).wf(),
        frontier_ok(old(vi).actions@),
        fits2(old(vi).cell_num_x as u32, old(vi).cell_num_y as u32),
        forall|d: (int, int, int)| is_displacement(old(vi).actions@, old(vi).cell_num_t as int, d)
            ==> #[trigger] geom_fits(old(vi).cell_num_x as int, old(vi).cell_num_y as int, old(vi).cell_num_t as int, d.0, d.1),
    ensures
        final(vi).wf(),
        final(vi).actions@ == old(vi).actions@,
        final(vi).cell_num_x == old(vi).cell_num_x,
        final(vi).cell_num_y == old(vi).cell_num_y,
        final(vi).cell_num_t == old(vi).cell_num_t,
        r.0 <= max_iter,
        exists|m: (int, int, int), hist: Seq<Seq<(u32, u32)>>|
            #[trigger] gs2d_result(old(vi).states@, old(vi).actions@, old(vi).cell_num_x as int, old(vi).cell_num_y as int,
                old(vi).cell_num_t as int, m, hist, final(vi).states@, r.1, r.2)
            && hist.len() == r.0 && (r.2 || r.0 == max_iter),
{
    let ghost s0 = vi.states@;
    let ghost acts = vi.actions@;
    let ghost nx = vi.cell_num_x as int;
    let ghost ny = vi.cell_num_y as int;
    let ghost nt = vi.cell_num_t as int;
    let ghost big_n = nx * ny * nt;
    let cnx = vi.cell_num_x;
    let cny = vi.cell_num_y;
    let cnt = vi.cell_num_t;
    proof {
        lemma_frontier_offsets(acts, nx, ny, nt);
    }
    let mut m = Padded::build(vi);
    let mx = m.g.mx;
    let my = m.g.my;
    let ghost mt = choose|mt: int| is_displacement(acts, nt, (mx as int, my as int, mt));
    let ghost dm = (mx as int, my as int, mt);
    proof {
        if mx != 1 {
            let (a, t, k) = choose|a: int, t: int, k: int| 0 <= a < acts.len() && 0 <= t < acts[a].state_transitions@.len()
                && 0 <= k < acts[a].state_transitions@[t]@.len() && abs_int((#[trigger] acts[a].state_transitions@[t]@[k]).dix as int) == dm.0;
            assert(-63 <= acts[a].state_transitions@[t]@[k].dix <= 63);
        }
        assert(0 <= m.g.row_stride) by (nonlinear_arith)
            requires m.g.row_stride == m.g.nt * (m.g.nx + 2 * m.g.mx), 0 <= m.g.nt, 0 < m.g.nx + 2 * m.g.mx;
        assert(m.g.pad_len() <= 0x7fff_ffff * 0x7fff_ffff) by (nonlinear_arith)
            requires 0 <= m.g.row_stride <= 0x7fff_ffff, 0 <= m.g.ny + 2 * m.g.my <= 0x7fff_ffff,
                m.g.pad_len() == m.g.row_stride * (m.g.ny + 2 * m.g.my);
        assert(s0.len() == big_n);
    }
    let ghost mut st = s0;
    let mut frontier = seed_frontier_2d(vi);
    let ghost f0 = frontier@;
    proof {
        assert forall|a: int| 0 <= a < acts.len() implies (#[trigger] acts[a]).state_transitions@.len() == nt by {
            assert(crate::reference::value_iterator::action_ok(acts[a], nx, ny, nt));
        }
        if capped(s0) && nonempty_outcomes(acts, nt) {
            lemma_seed_covers(s0, acts, nx, ny, nt, dm);
        }
    }
    let mut updates: u64 = 0;
    let mut iters: u32 = 0;
    let ghost mut hist: Seq<Seq<(u32, u32)>> = Seq::empty();
    while frontier.popcount() > 0 && iters < max_iter
        invariant
            vi.wf(),
            vi.states@ == s0,
            vi.actions@ == acts,
            vi.cell_num_x == cnx,
            vi.cell_num_y == cny,
            vi.cell_num_t == cnt,
            nx == cnx,
            ny == cny,
            nt == cnt,
            big_n == nx * ny * nt,
            big_n <= i32::MAX,
            fits2(cnx as u32, cny as u32),
            states_ok(s0, nx, ny, nt),
            par_ok(m, st, acts),
            m.g.nx == cnx,
            m.g.ny == cny,
            m.g.nt == cnt,
            m.g.mx == mx,
            m.g.my == my,
            same_cells(s0, st),
            frontier.wf(),
            frontier.width() == nx,
            frontier.height() == ny,
            is_displacement(acts, nt, dm),
            dm == (mx as int, my as int, mt),
            mx < 64,
            f0 == seed_view2(s0, nx, ny, nt),
            hist.len() == iters,
            iters <= max_iter,
            gs_run2(s0, acts, f0, hist, nx, ny, nt, dm),
            st == gs_rounds(s0, acts, f0, hist, nx, ny, nt).0,
            frontier@ == gs_rounds(s0, acts, f0, hist, nx, ny, nt).1,
            updates == gs_rounds(s0, acts, f0, hist, nx, ny, nt).2,
            updates <= iters * big_n,
            forall|a: int| 0 <= a < acts.len() ==> (#[trigger] acts[a]).state_transitions@.len() == nt,
            capped(s0) && nonempty_outcomes(acts, nt) ==> capped(st) && covered(st, acts, frontier@, nx, ny, nt, dm),
        decreases max_iter - iters,
    {
        let ghost p = gs_rounds(s0, acts, f0, hist, nx, ny, nt);
        proof {
            frontier.lemma_shape();
            lemma_count_empty2(frontier@, nx, ny);
            assert(exists|c: (int, int)| set_cells2(frontier@, nx, ny).contains(c)) by {
                if !(exists|c: (int, int)| set_cells2(frontier@, nx, ny).contains(c)) {
                    assert(set_cells2(frontier@, nx, ny) =~= Set::<(int, int)>::empty());
                }
            }
            let c = choose|c: (int, int)| set_cells2(frontier@, nx, ny).contains(c);
            assert(set_cells2(frontier@, nx, ny).contains(c));
        }
        let rev = iters % 2 == 1;
        let ghost r0 = iters as int;
        iters += 1;
        let candidates = frontier.dilate(mx as u32, my as u32);
        let cand = candidates.enumerate();
        let ghost cv = cand@;
        proof {
            assert(lists_cells2(cv, dilate_grid(p.1, nx, ny, dm.0, dm.1), nx, ny));
            lemma_cells2_len(cv, dilate_grid(p.1, nx, ny, dm.0, dm.1), nx, ny);
            assert((iters - 1) * big_n + big_n == iters * big_n) by (nonlinear_arith);
            assert(iters * big_n <= 0x8000_0000_0000_0000) by (nonlinear_arith)
                requires iters <= u32::MAX, big_n <= i32::MAX, 0 <= big_n;
            assert(cv.len() * nt <= big_n) by (nonlinear_arith) requires cv.len() <= nx * ny, big_n == nx * ny * nt, 0 <= nt;
            assert forall|i: int| 0 <= i < cv.len() implies (#[trigger] cv[i]).0 < nx && cv[i].1 < ny by {
                assert(set_cells2(dilate_grid(p.1, nx, ny, dm.0, dm.1), nx, ny).contains((cv[i].0 as int, cv[i].1 as int)));
            }
        }
        let ghost ord = if rev { cv.reverse() } else { cv };
        let (next, u) = gs_pass(&mut m, &cand, rev, Ghost(st), Ghost(s0), Ghost(acts));
        proof {
            lemma_order_ok(cv, dilate_grid(p.1, nx, ny, dm.0, dm.1), nx, ny, rev);
            if capped(s0) && nonempty_outcomes(acts, nt) {
                lemma_gs_round_covers(st, acts, p.1, ord, nx, ny, nt, dm);
            }
            st = gs_round(st, acts, ord, nx, ny, nt).0;
            let h2 = hist.push(ord);
            assert(h2.drop_last() =~= hist);
            assert forall|r: int| 0 <= r < h2.len() implies {
                let q = #[trigger] gs_rounds(s0, acts, f0, h2.take(r), nx, ny, nt);
                &&& set_cells2(q.1, nx, ny) != Set::<(int, int)>::empty()
                &&& lists_cells2(if r % 2 == 0 { h2[r] } else { h2[r].reverse() }, dilate_grid(q.1, nx, ny, dm.0, dm.1), nx, ny)
            } by {
                if r < hist.len() {
                    assert(h2.take(r) =~= hist.take(r));
                    assert(gs_rounds(s0, acts, f0, hist.take(r), nx, ny, nt) == gs_rounds(s0, acts, f0, h2.take(r), nx, ny, nt));
                } else {
                    assert(h2.take(r) =~= hist);
                    assert(r == r0);
                    if rev {
                        assert(h2[r].reverse() =~= cv);
                    }
                }
            }
            hist = h2;
        }
        updates = updates + u;
        frontier = next;
    }
    let converged = frontier.popcount() == 0;
    proof {
        frontier.lemma_shape();
        lemma_count_empty2(frontier@, nx, ny);
        if capped(s0) && nonempty_outcomes(acts, nt) && converged {
            lemma_empty_settles(st, acts, frontier@, nx, ny, nt, dm);
        }
        if agree_ok(s0, acts, nt) && converged {
            assert forall|r: int, j: int| 0 <= r < hist.len() && 0 <= j < hist[r].len()
                implies (#[trigger] hist[r][j]).0 < nx && hist[r][j].1 < ny by {
                let q = gs_rounds(s0, acts, f0, hist.take(r), nx, ny, nt);
                let h = hist[r];
                if r % 2 == 0 {
                    lemma_listed_ok(h, dilate_grid(q.1, nx, ny, dm.0, dm.1), nx, ny);
                } else {
                    lemma_listed_ok(h.reverse(), dilate_grid(q.1, nx, ny, dm.0, dm.1), nx, ny);
                    assert(h.reverse()[h.len() - 1 - j] == h[j]);
                }
            }
            assert(hist_in_grid(hist, nx, ny));
            lemma_gs_rounds_inv(s0, acts, f0, hist, nx, ny, nt);
        }
    }
    let opt = final_policy(&m, Ghost(st), Ghost(acts));
    m.write_back(vi, Some(&opt));
    proof {
        let fin = policy_of(st, acts, nx, ny, nt);
        assert forall|k2: int| 0 <= k2 < s0.len() implies #[trigger] vi.states@[k2] == fin[k2] by {
            assert(st[k2] == (State { total_cost: st[k2].total_cost, optimal_action: st[k2].optimal_action, ..s0[k2] }));
            assert(pad_of(s0[k2], m.g) == pad_of(st[k2], m.g));
            assert(in_grid(st[k2], nx, ny, nt));
            assert(in_box(m.g, st[k2].ix as int, st[k2].iy as int, st[k2].it as int));
        }
        assert(vi.states@ =~= fin);
    }
    let r = (iters, updates, converged);
    assert(gs2d_result(old(vi).states@, old(vi).actions@, old(vi).cell_num_x as int, old(vi).cell_num_y as int,
                old(vi).cell_num_t as int, dm, hist, vi.states@, r.1, r.2)
            && hist.len() == r.0 && (r.2 || r.0 == max_iter));
    r
}

/// A run of the asynchronous solver from capped laid-out states, with an
/// outcome for every action and heading, keeps its states laid out, capped and
/// covered by its frontier: every state it could still lower lies near a
/// column of the frontier.
pub proof fn lemma_gs_run_covers(s0: Seq<State>, acts: Seq<Action>, hist: Seq<Seq<(u32, u32)>>, nx: int, ny: int, nt: int,
    m: (int, int, int))
    requires
        states_ok(s0, nx, ny, nt),
        capped(s0),
        nonempty_outcomes(acts, nt),
        is_displacement(acts, nt, m),
        forall|a: int| 0 <= a < acts.len() ==> (#[trigger] acts[a]).state_transitions@.len() == nt,
        gs_run2(s0, acts, seed_view2(s0, nx, ny, nt), hist, nx, ny, nt, m),
        0 <= nx,
        0 <= ny,
    ensures
        ({
            let q = gs_rounds(s0, acts, seed_view2(s0, nx, ny, nt), hist, nx, ny, nt);
            &&& states_ok(q.0, nx, ny, nt)
            &&& capped(q.0)
            &&& covered(q.0, acts, q.1, nx, ny, nt, m)
        }),
    decreases hist.len(),
{
    let f0 = seed_view2(s0, nx, ny, nt);
    if hist.len() == 0 {
        lemma_seed_covers(s0, acts, nx, ny, nt, m);
    } else {
        let ph = hist.drop_last();
        assert(gs_run2(s0, acts, f0, ph, nx, ny, nt, m)) by {
            assert forall|r: int| 0 <= r < ph.len() implies {
                let p = #[trigger] gs_rounds(s0, acts, f0, ph.take(r), nx, ny, nt);
                &&& set_cells2(p.1, nx, ny) != Set::<(int, int)>::empty()
                &&& lists_cells2(if r % 2 == 0 { ph[r] } else { ph[r].reverse() }, dilate_grid(p.1, nx, ny, m.0, m.1), nx, ny)
            } by {
                assert(ph.take(r) =~= hist.take(r));
                assert(ph[r] == hist[r]);
                assert(gs_rounds(s0, acts, f0, hist.take(r), nx, ny, nt) == gs_rounds(s0, acts, f0, ph.take(r), nx, ny, nt));
            }
        }
        lemma_gs_run_covers(s0, acts, ph, nx, ny, nt, m);
        let p = gs_rounds(s0, acts, f0, ph, nx, ny, nt);
        let r = ph.len() as int;
        assert(hist.take(r) =~= ph);
        assert(gs_rounds(s0, acts, f0, hist.take(r), nx, ny, nt) == p);
        let rev = r % 2 == 1;
        let cv = if r % 2 == 0 { hist[r] } else { hist[r].reverse() };
        let d = dilate_grid(p.1, nx, ny, m.0, m.1);
        assert(lists_cells2(cv, d, nx, ny));
        lemma_order_ok(cv, d, nx, ny, rev);
        let ord = if rev { cv.reverse() } else { cv };
        assert(ord =~= hist[r]);
        assert(hist.last() == hist[r]);
        lemma_gs_round(p.0, acts, ord, nx, ny, nt);
        lemma_gs_round_covers(p.0, acts, p.1, ord, nx, ny, nt, m);
        lemma_below_ok(p.0, gs_round(p.0, acts, ord, nx, ny, nt).0, nx, ny, nt);
    }
}

} // verus!
