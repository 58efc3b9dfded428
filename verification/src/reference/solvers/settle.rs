//! When the clamped solvers stop: a free cell outside the goal whose clamped
//! best cost is below its cost can still be lowered; a run that stops with an
//! empty frontier leaves no such cell.
use vstd::prelude::*;
use crate::reference::params::MAX_COST;
use crate::reference::state::{Action, State, StateTransition};
use crate::reference::value_iterator::{index_of, states_ok, outcomes, outcome_cell, outcome_blocked, outcomes_sum,
    outcome_cost, updatable, in_grid, lemma_index_bound, lemma_index_inj};
use crate::reference::solvers::fused::{clamped_cost, clamped_best, outcome_unreached, outcomes_settled,
    lemma_clamped_best_is_reference};
use crate::reference::value_iterator::update_at;
use crate::reference::solvers::frontier::{is_displacement, covers, abs_int};
use crate::bitboard::grid::shape2;
use crate::bitboard::ops::dilate_grid;
use crate::reference::solvers::par::{column_ups, jacobi_ups, apply_ups, ups_grid, jround2};
use crate::reference::solvers::frontier::{lists_cells2, seed_view2};
use crate::bitboard::empty_grid;
use crate::bitboard::enumerate::{set_cells2, cell_before};

verus! {

/// State `i` is free, outside the goal, and its clamped best cost is below its cost.
pub open spec fn improvable(s: Seq<State>, acts: Seq<Action>, i: int, nx: int, ny: int, nt: int) -> bool {
    updatable(s, i) && clamped_best(s, acts, s[i], nx, ny, nt).0 < s[i].total_cost
}

/// No state can be lowered by the clamped update: a fixed point of it.
pub open spec fn settled(s: Seq<State>, acts: Seq<Action>, nx: int, ny: int, nt: int) -> bool {
    forall|i: int| 0 <= i < s.len() ==> !#[trigger] improvable(s, acts, i, nx, ny, nt)
}

/// Every cost is at most `MAX_COST`.
pub open spec fn capped(s: Seq<State>) -> bool {
    forall|i: int| 0 <= i < s.len() ==> (#[trigger] s[i]).total_cost <= MAX_COST
}

/// Every state that can be lowered lies in a column of the dilated frontier `f`.
pub open spec fn covered(s: Seq<State>, acts: Seq<Action>, f: Seq<Seq<bool>>, nx: int, ny: int, nt: int, m: (int, int, int)) -> bool {
    forall|i: int| 0 <= i < s.len() && #[trigger] improvable(s, acts, i, nx, ny, nt)
        ==> dilate_grid(f, nx, ny, m.0, m.1)[s[i].iy as int][s[i].ix as int]
}

/// The clamped best cost is at most the clamped cost of each action.
pub proof fn lemma_best_le(s: Seq<State>, acts: Seq<Action>, x: State, a: int, nx: int, ny: int, nt: int)
    requires
        0 <= a < acts.len(),
    ensures
        clamped_best(s, acts, x, nx, ny, nt).0 <= clamped_cost(s, outcomes(acts[a], x), x, nx, ny, nt),
    decreases acts.len(),
{
    if a < acts.len() - 1 {
        lemma_best_le(s, acts.drop_last(), x, a, nx, ny, nt);
        assert(acts.drop_last()[a] == acts[a]);
    } else {
        assert(acts.last() == acts[a]);
    }
}

/// A clamped best cost below `MAX_COST` is the clamped cost of some action.
pub proof fn lemma_best_witness(s: Seq<State>, acts: Seq<Action>, x: State, nx: int, ny: int, nt: int) -> (a: int)
    requires
        clamped_best(s, acts, x, nx, ny, nt).0 < MAX_COST,
    ensures
        0 <= a < acts.len(),
        clamped_best(s, acts, x, nx, ny, nt).0 == clamped_cost(s, outcomes(acts[a], x), x, nx, ny, nt),
    decreases acts.len(),
{
    let p = clamped_best(s, acts.drop_last(), x, nx, ny, nt);
    let c = clamped_cost(s, outcomes(acts.last(), x), x, nx, ny, nt);
    if c < p.0 {
        assert(acts.last() == acts[acts.len() - 1]);
        acts.len() - 1
    } else {
        let a = lemma_best_witness(s, acts.drop_last(), x, nx, ny, nt);
        assert(acts.drop_last()[a] == acts[a]);
        a
    }
}

/// Equal weighted terms give equal sums.
pub proof fn lemma_sum_eq(s: Seq<State>, s2: Seq<State>, x: State, y: State, trs: Seq<StateTransition>, nx: int, nt: int)
    requires
        forall|k: int| 0 <= k < trs.len() ==> #[trigger] outcome_cost(s2, y, trs[k], nx, nt) == outcome_cost(s, x, trs[k], nx, nt),
    ensures
        outcomes_sum(s2, y, trs, nx, nt) == outcomes_sum(s, x, trs, nx, nt),
    decreases trs.len(),
{
    if trs.len() > 0 {
        let t2 = trs.drop_last();
        assert forall|k: int| 0 <= k < t2.len() implies #[trigger] outcome_cost(s2, y, t2[k], nx, nt) == outcome_cost(s, x, t2[k], nx, nt) by {
            assert(t2[k] == trs[k]);
        }
        lemma_sum_eq(s, s2, x, y, t2, nx, nt);
        assert(trs.last() == trs[trs.len() - 1]);
    }
}

/// The clamped cost from a cell reads only the states its outcomes land on:
/// two sources on the same column over states that agree there give the same cost.
pub proof fn lemma_cost_frame(s: Seq<State>, s2: Seq<State>, x: State, y: State, trs: Seq<StateTransition>, nx: int, ny: int, nt: int)
    requires
        x.ix == y.ix,
        x.iy == y.iy,
        forall|k: int| 0 <= k < trs.len() ==> {
            let c = #[trigger] outcome_cell(x, trs[k], nt);
            0 <= c.0 < nx && 0 <= c.1 < ny ==> s2[index_of(c.0, c.1, c.2, nx, nt)] == s[index_of(c.0, c.1, c.2, nx, nt)]
        },
    ensures
        clamped_cost(s2, trs, y, nx, ny, nt) == clamped_cost(s, trs, x, nx, ny, nt),
{
    assert forall|k: int| 0 <= k < trs.len() implies
        #[trigger] outcome_unreached(s2, y, trs[k], nx, ny, nt) == outcome_unreached(s, x, trs[k], nx, ny, nt) by {
        assert(outcome_cell(y, trs[k], nt) == outcome_cell(x, trs[k], nt));
    }
    if exists|k: int| 0 <= k < trs.len() && #[trigger] outcome_unreached(s, x, trs[k], nx, ny, nt) {
        let k = choose|k: int| 0 <= k < trs.len() && #[trigger] outcome_unreached(s, x, trs[k], nx, ny, nt);
        assert(outcome_unreached(s2, y, trs[k], nx, ny, nt));
    } else {
        assert forall|k: int| 0 <= k < trs.len() implies #[trigger] outcome_cost(s2, y, trs[k], nx, nt) == outcome_cost(s, x, trs[k], nx, nt) by {
            assert(!outcome_unreached(s, x, trs[k], nx, ny, nt));
            assert(outcome_cell(y, trs[k], nt) == outcome_cell(x, trs[k], nt));
        }
        lemma_sum_eq(s, s2, x, y, trs, nx, nt);
        assert forall|k: int| 0 <= k < trs.len() implies !#[trigger] outcome_unreached(s2, y, trs[k], nx, ny, nt) by {
            assert(!outcome_unreached(s, x, trs[k], nx, ny, nt));
        }
    }
}

/// A cell whose outcome lands on a set cell of `f` lies in the dilation of `f`.
pub proof fn lemma_near(f: Seq<Seq<bool>>, x: State, tr: StateTransition, nx: int, ny: int, nt: int, m: (int, int, int))
    requires
        0 <= x.ix < nx,
        0 <= x.iy < ny,
        abs_int(tr.dix as int) <= m.0,
        abs_int(tr.diy as int) <= m.1,
        ({
            let c = outcome_cell(x, tr, nt);
            0 <= c.0 < nx && 0 <= c.1 < ny && f[c.1][c.0]
        }),
    ensures
        dilate_grid(f, nx, ny, m.0, m.1)[x.iy as int][x.ix as int],
{
    let c = outcome_cell(x, tr, nt);
    assert(f[c.1][c.0]);
}

/// Column `(x, y)` is among `cells`.
pub open spec fn col_in(cells: Seq<(u32, u32)>, x: int, y: int) -> bool {
    exists|j: int| 0 <= j < cells.len() && cells[j].0 == x && cells[j].1 == y
}

/// Writing two lists of lowered costs in turn is writing their concatenation.
proof fn lemma_apply_concat(s: Seq<State>, a: Seq<(int, u64, u32, u32)>, b: Seq<(int, u64, u32, u32)>)
    ensures
        apply_ups(s, a + b) == apply_ups(apply_ups(s, a), b),
    decreases b.len(),
{
    if b.len() == 0 {
        assert(a + b =~= a);
    } else {
        assert((a + b).drop_last() =~= a + b.drop_last());
        assert((a + b).last() == b.last());
        lemma_apply_concat(s, a, b.drop_last());
    }
}

/// Writing two lists of lowered costs in turn sets the columns of both.
proof fn lemma_grid_concat(g: Seq<Seq<bool>>, a: Seq<(int, u64, u32, u32)>, b: Seq<(int, u64, u32, u32)>)
    ensures
        ups_grid(g, a + b) == ups_grid(ups_grid(g, a), b),
    decreases b.len(),
{
    if b.len() == 0 {
        assert(a + b =~= a);
    } else {
        assert((a + b).drop_last() =~= a + b.drop_last());
        assert((a + b).last() == b.last());
        lemma_grid_concat(g, a, b.drop_last());
    }
}

/// The state at index `i` of an in-grid column, by the layout invariant.
pub proof fn lemma_coords(s: Seq<State>, x: int, y: int, t: int, nx: int, ny: int, nt: int)
    requires
        states_ok(s, nx, ny, nt),
        0 <= x < nx,
        0 <= y < ny,
        0 <= t < nt,
    ensures
        0 <= index_of(x, y, t, nx, nt) < s.len(),
        s[index_of(x, y, t, nx, nt)].ix == x,
        s[index_of(x, y, t, nx, nt)].iy == y,
        s[index_of(x, y, t, nx, nt)].it == t,
{
    lemma_index_bound(x, y, t, nx, ny, nt);
    let i = index_of(x, y, t, nx, nt);
    assert(in_grid(s[i], nx, ny, nt));
    lemma_index_inj(s[i].ix as int, s[i].iy as int, s[i].it as int, x, y, t, nx, nt);
}

/// Writing the lowered headings `0 .. k` of column `c` computed from `s` onto `q`.
proof fn lemma_column_apply(s: Seq<State>, q: Seq<State>, acts: Seq<Action>, c: (u32, u32), k: int, nx: int, ny: int, nt: int)
    requires
        states_ok(s, nx, ny, nt),
        q.len() == s.len(),
        c.0 < nx,
        c.1 < ny,
        0 <= k <= nt,
    ensures
        apply_ups(q, column_ups(s, acts, c, k, nx, ny, nt)).len() == q.len(),
        forall|i: int| 0 <= i < q.len() ==> #[trigger] apply_ups(q, column_ups(s, acts, c, k, nx, ny, nt))[i]
            == if s[i].ix == c.0 && s[i].iy == c.1 && s[i].it < k && improvable(s, acts, i, nx, ny, nt) {
                State { total_cost: clamped_best(s, acts, s[i], nx, ny, nt).0, ..q[i] }
            } else {
                q[i]
            },
        forall|j: int| 0 <= j < column_ups(s, acts, c, k, nx, ny, nt).len() ==>
            (#[trigger] column_ups(s, acts, c, k, nx, ny, nt)[j]).2 == c.0 && column_ups(s, acts, c, k, nx, ny, nt)[j].3 == c.1,
    decreases k,
{
    if k > 0 {
        lemma_column_apply(s, q, acts, c, k - 1, nx, ny, nt);
        let p = column_ups(s, acts, c, k - 1, nx, ny, nt);
        let idx = index_of(c.0 as int, c.1 as int, k - 1, nx, nt);
        lemma_coords(s, c.0 as int, c.1 as int, k - 1, nx, ny, nt);
        let r = apply_ups(q, p);
        if improvable(s, acts, idx, nx, ny, nt) {
            let e = (idx, clamped_best(s, acts, s[idx], nx, ny, nt).0, c.0, c.1);
            assert(column_ups(s, acts, c, k, nx, ny, nt) == p.push(e));
            assert(p.push(e).drop_last() =~= p);
            assert forall|i: int| 0 <= i < q.len() implies #[trigger] apply_ups(q, column_ups(s, acts, c, k, nx, ny, nt))[i]
                == if s[i].ix == c.0 && s[i].iy == c.1 && s[i].it < k && improvable(s, acts, i, nx, ny, nt) {
                    State { total_cost: clamped_best(s, acts, s[i], nx, ny, nt).0, ..q[i] }
                } else {
                    q[i]
                } by {
                if i != idx && s[i].ix == c.0 && s[i].iy == c.1 && s[i].it == k - 1 {
                    assert(index_of(s[i].ix as int, s[i].iy as int, s[i].it as int, nx, nt) == i);
                }
            }
        } else {
            assert forall|i: int| 0 <= i < q.len() implies #[trigger] apply_ups(q, column_ups(s, acts, c, k, nx, ny, nt))[i]
                == if s[i].ix == c.0 && s[i].iy == c.1 && s[i].it < k && improvable(s, acts, i, nx, ny, nt) {
                    State { total_cost: clamped_best(s, acts, s[i], nx, ny, nt).0, ..q[i] }
                } else {
                    q[i]
                } by {
                if s[i].ix == c.0 && s[i].iy == c.1 && s[i].it == k - 1 {
                    assert(index_of(s[i].ix as int, s[i].iy as int, s[i].it as int, nx, nt) == i);
                }
            }
        }
    }
}

/// The lowered headings of a column computed from `s` include every heading of
/// the column that can be lowered.
proof fn lemma_column_has(s: Seq<State>, acts: Seq<Action>, c: (u32, u32), k: int, t: int, nx: int, ny: int, nt: int)
    requires
        0 <= t < k,
        improvable(s, acts, index_of(c.0 as int, c.1 as int, t, nx, nt), nx, ny, nt),
    ensures
        exists|j: int| 0 <= j < column_ups(s, acts, c, k, nx, ny, nt).len()
            && #[trigger] column_ups(s, acts, c, k, nx, ny, nt)[j].0 == index_of(c.0 as int, c.1 as int, t, nx, nt),
    decreases k,
{
    let p = column_ups(s, acts, c, k - 1, nx, ny, nt);
    let idx = index_of(c.0 as int, c.1 as int, k - 1, nx, nt);
    let e = (idx, clamped_best(s, acts, s[idx], nx, ny, nt).0, c.0, c.1);
    let cu = column_ups(s, acts, c, k, nx, ny, nt);
    if t < k - 1 {
        lemma_column_has(s, acts, c, k - 1, t, nx, ny, nt);
        let j = choose|j: int| 0 <= j < p.len() && #[trigger] p[j].0 == index_of(c.0 as int, c.1 as int, t, nx, nt);
        if improvable(s, acts, idx, nx, ny, nt) {
            assert(cu == p.push(e));
            assert(cu[j] == p[j]);
        } else {
            assert(cu == p);
        }
        assert(cu[j].0 == index_of(c.0 as int, c.1 as int, t, nx, nt));
    } else {
        assert(cu == p.push(e));
        assert(cu[p.len() as int] == e);
        assert(cu[p.len() as int].0 == index_of(c.0 as int, c.1 as int, t, nx, nt));
    }
}

/// Cells listed in `cells` are pairwise distinct and lie in the grid.
pub open spec fn cells_ok(cells: Seq<(u32, u32)>, nx: int, ny: int) -> bool {
    &&& forall|j: int| 0 <= j < cells.len() ==> (#[trigger] cells[j]).0 < nx && cells[j].1 < ny
    &&& forall|i: int, j: int| 0 <= i < j < cells.len() ==> #[trigger] cells[i] != #[trigger] cells[j]
}

/// A Jacobi round over `cells` lowers exactly the states of its columns that
/// can be lowered under `s`, to their clamped best cost; each lowered state
/// has an entry in the column it lies in, and every entry's column is in the grid.
pub proof fn lemma_round_apply(s: Seq<State>, acts: Seq<Action>, cells: Seq<(u32, u32)>, nx: int, ny: int, nt: int)
    requires
        states_ok(s, nx, ny, nt),
        cells_ok(cells, nx, ny),
    ensures
        apply_ups(s, jacobi_ups(s, acts, cells, nx, ny, nt)).len() == s.len(),
        forall|i: int| 0 <= i < s.len() ==> #[trigger] apply_ups(s, jacobi_ups(s, acts, cells, nx, ny, nt))[i]
            == if col_in(cells, s[i].ix as int, s[i].iy as int) && improvable(s, acts, i, nx, ny, nt) {
                State { total_cost: clamped_best(s, acts, s[i], nx, ny, nt).0, ..s[i] }
            } else {
                s[i]
            },
        forall|i: int| 0 <= i < s.len() && col_in(cells, s[i].ix as int, s[i].iy as int) && #[trigger] improvable(s, acts, i, nx, ny, nt)
            ==> exists|j: int| 0 <= j < jacobi_ups(s, acts, cells, nx, ny, nt).len()
                && (#[trigger] jacobi_ups(s, acts, cells, nx, ny, nt)[j]).2 == s[i].ix && jacobi_ups(s, acts, cells, nx, ny, nt)[j].3 == s[i].iy,
        forall|j: int| 0 <= j < jacobi_ups(s, acts, cells, nx, ny, nt).len() ==>
            (#[trigger] jacobi_ups(s, acts, cells, nx, ny, nt)[j]).2 < nx && jacobi_ups(s, acts, cells, nx, ny, nt)[j].3 < ny,
    decreases cells.len(),
{
    let ju = jacobi_ups(s, acts, cells, nx, ny, nt);
    if cells.len() > 0 {
        let c2 = cells.drop_last();
        let c = cells.last();
        assert(cells_ok(c2, nx, ny)) by {
            assert forall|j: int| 0 <= j < c2.len() implies (#[trigger] c2[j]).0 < nx && c2[j].1 < ny by {
                assert(c2[j] == cells[j]);
            }
            assert forall|i: int, j: int| 0 <= i < j < c2.len() implies #[trigger] c2[i] != #[trigger] c2[j] by {
                assert(c2[i] == cells[i] && c2[j] == cells[j]);
            }
        }
        lemma_round_apply(s, acts, c2, nx, ny, nt);
        let a = jacobi_ups(s, acts, c2, nx, ny, nt);
        let b = column_ups(s, acts, c, nt, nx, ny, nt);
        assert(ju == a + b);
        lemma_apply_concat(s, a, b);
        let q = apply_ups(s, a);
        assert(c == cells[cells.len() - 1]);
        lemma_column_apply(s, q, acts, c, nt, nx, ny, nt);
        assert forall|i: int| 0 <= i < s.len() implies #[trigger] apply_ups(s, ju)[i]
            == if col_in(cells, s[i].ix as int, s[i].iy as int) && improvable(s, acts, i, nx, ny, nt) {
                State { total_cost: clamped_best(s, acts, s[i], nx, ny, nt).0, ..s[i] }
            } else {
                s[i]
            } by {
            assert(in_grid(s[i], nx, ny, nt));
            if s[i].ix == c.0 && s[i].iy == c.1 {
                assert(col_in(cells, s[i].ix as int, s[i].iy as int));
                if col_in(c2, s[i].ix as int, s[i].iy as int) {
                    let j = choose|j: int| 0 <= j < c2.len() && c2[j].0 == s[i].ix && c2[j].1 == s[i].iy;
                    assert(cells[j] == c2[j]);
                    assert(cells[j] == cells[cells.len() - 1]);
                }
            } else {
                if col_in(cells, s[i].ix as int, s[i].iy as int) {
                    let j = choose|j: int| 0 <= j < cells.len() && cells[j].0 == s[i].ix && cells[j].1 == s[i].iy;
                    assert(j < cells.len() - 1);
                    assert(c2[j] == cells[j]);
                    assert(col_in(c2, s[i].ix as int, s[i].iy as int));
                }
                if col_in(c2, s[i].ix as int, s[i].iy as int) {
                    let j = choose|j: int| 0 <= j < c2.len() && c2[j].0 == s[i].ix && c2[j].1 == s[i].iy;
                    assert(cells[j] == c2[j]);
                }
            }
        }
        assert forall|i: int| 0 <= i < s.len() && col_in(cells, s[i].ix as int, s[i].iy as int) && #[trigger] improvable(s, acts, i, nx, ny, nt)
            implies exists|j: int| 0 <= j < ju.len() && (#[trigger] ju[j]).2 == s[i].ix && ju[j].3 == s[i].iy by {
            assert(in_grid(s[i], nx, ny, nt));
            if s[i].ix == c.0 && s[i].iy == c.1 {
                assert(index_of(s[i].ix as int, s[i].iy as int, s[i].it as int, nx, nt) == i);
                lemma_column_has(s, acts, c, nt, s[i].it as int, nx, ny, nt);
                let j = choose|j: int| 0 <= j < b.len() && #[trigger] b[j].0 == i;
                assert(ju[a.len() + j] == b[j]);
            } else {
                let j = choose|j: int| 0 <= j < cells.len() && cells[j].0 == s[i].ix && cells[j].1 == s[i].iy;
                assert(j < cells.len() - 1);
                assert(c2[j] == cells[j]);
                assert(col_in(c2, s[i].ix as int, s[i].iy as int));
                let j2 = choose|j2: int| 0 <= j2 < a.len() && (#[trigger] a[j2]).2 == s[i].ix && a[j2].3 == s[i].iy;
                assert(ju[j2] == a[j2]);
            }
        }
        assert forall|j: int| 0 <= j < ju.len() implies (#[trigger] ju[j]).2 < nx && ju[j].3 < ny by {
            if j < a.len() {
                assert(ju[j] == a[j]);
            } else {
                assert(ju[j] == b[j - a.len()]);
            }
        }
    }
}

/// The columns set by a list of lowered costs.
pub proof fn lemma_ups_grid(g: Seq<Seq<bool>>, ups: Seq<(int, u64, u32, u32)>, nx: int, ny: int)
    requires
        shape2(g, nx, ny),
        forall|j: int| 0 <= j < ups.len() ==> (#[trigger] ups[j]).2 < nx && ups[j].3 < ny,
    ensures
        shape2(ups_grid(g, ups), nx, ny),
        forall|x: int, y: int| 0 <= x < nx && 0 <= y < ny ==> #[trigger] ups_grid(g, ups)[y][x]
            == (g[y][x] || exists|j: int| 0 <= j < ups.len() && ups[j].2 == x && ups[j].3 == y),
    decreases ups.len(),
{
    if ups.len() > 0 {
        let u2 = ups.drop_last();
        assert forall|j: int| 0 <= j < u2.len() implies (#[trigger] u2[j]).2 < nx && u2[j].3 < ny by {
            assert(u2[j] == ups[j]);
        }
        lemma_ups_grid(g, u2, nx, ny);
        let e = ups.last();
        assert(e == ups[ups.len() - 1]);
        let p = ups_grid(g, u2);
        assert forall|x: int, y: int| 0 <= x < nx && 0 <= y < ny implies #[trigger] ups_grid(g, ups)[y][x]
            == (g[y][x] || exists|j: int| 0 <= j < ups.len() && ups[j].2 == x && ups[j].3 == y) by {
            if exists|j: int| 0 <= j < u2.len() && u2[j].2 == x && u2[j].3 == y {
                let j = choose|j: int| 0 <= j < u2.len() && u2[j].2 == x && u2[j].3 == y;
                assert(ups[j] == u2[j]);
            }
            if exists|j: int| 0 <= j < ups.len() && ups[j].2 == x && ups[j].3 == y {
                let j = choose|j: int| 0 <= j < ups.len() && ups[j].2 == x && ups[j].3 == y;
                if j < ups.len() - 1 {
                    assert(u2[j] == ups[j]);
                }
            }
        }
    }
}

/// Every action has at least one outcome from every heading.
pub open spec fn nonempty_outcomes(acts: Seq<Action>, nt: int) -> bool {
    forall|a: int, t: int| 0 <= a < acts.len() && 0 <= t < nt ==> (#[trigger] acts[a].state_transitions@[t])@.len() > 0
}

/// A listing of the set cells of a grid is a list of distinct in-grid cells.
pub proof fn lemma_listed_ok(cells: Seq<(u32, u32)>, v: Seq<Seq<bool>>, nx: int, ny: int)
    requires
        lists_cells2(cells, v, nx, ny),
    ensures
        cells_ok(cells, nx, ny),
{
    assert forall|j: int| 0 <= j < cells.len() implies (#[trigger] cells[j]).0 < nx && cells[j].1 < ny by {
        assert(set_cells2(v, nx, ny).contains((cells[j].0 as int, cells[j].1 as int)));
    }
    assert forall|i: int, j: int| 0 <= i < j < cells.len() implies #[trigger] cells[i] != #[trigger] cells[j] by {
        assert(cell_before((cells[i].0 as int, cells[i].1 as int), (cells[j].0 as int, cells[j].1 as int)));
    }
}

/// With capped costs and an outcome from every heading, every state that can
/// be lowered has an outcome on a reached cell, so its column lies in the
/// dilation of the initial frontier.
pub proof fn lemma_seed_covers(s: Seq<State>, acts: Seq<Action>, nx: int, ny: int, nt: int, m: (int, int, int))
    requires
        states_ok(s, nx, ny, nt),
        capped(s),
        nonempty_outcomes(acts, nt),
        is_displacement(acts, nt, m),
        forall|a: int| 0 <= a < acts.len() ==> (#[trigger] acts[a]).state_transitions@.len() == nt,
    ensures
        covered(s, acts, seed_view2(s, nx, ny, nt), nx, ny, nt, m),
{
    assert forall|i: int| 0 <= i < s.len() && #[trigger] improvable(s, acts, i, nx, ny, nt)
        implies dilate_grid(seed_view2(s, nx, ny, nt), nx, ny, m.0, m.1)[s[i].iy as int][s[i].ix as int] by {
        let x = s[i];
        assert(x.total_cost <= MAX_COST);
        let a = lemma_best_witness(s, acts, x, nx, ny, nt);
        let trs = outcomes(acts[a], x);
        assert(in_grid(x, nx, ny, nt));
        assert(trs.len() > 0);
        assert(!outcome_unreached(s, x, trs[0], nx, ny, nt));
        let c = outcome_cell(x, trs[0], nt);
        lemma_coords(s, c.0, c.1, c.2, nx, ny, nt);
        assert(covers(acts[a].state_transitions@[x.it as int]@[0], x.it as int, nt, m));
        let f = seed_view2(s, nx, ny, nt);
        assert(s[index_of(c.0, c.1, c.2, nx, nt)].total_cost < MAX_COST);
        assert(f[c.1][c.0]);
        lemma_near(f, x, trs[0], nx, ny, nt, m);
    }
}

/// A Jacobi round from capped states covered by frontier `f`, over the listed
/// cells of the dilation of `f`, gives capped states covered by its own frontier.
pub proof fn lemma_round_covers(s: Seq<State>, acts: Seq<Action>, f: Seq<Seq<bool>>, cells: Seq<(u32, u32)>,
    nx: int, ny: int, nt: int, m: (int, int, int))
    requires
        states_ok(s, nx, ny, nt),
        capped(s),
        is_displacement(acts, nt, m),
        forall|a: int| 0 <= a < acts.len() ==> (#[trigger] acts[a]).state_transitions@.len() == nt,
        covered(s, acts, f, nx, ny, nt, m),
        lists_cells2(cells, dilate_grid(f, nx, ny, m.0, m.1), nx, ny),
    ensures
        capped(jround2(s, acts, cells, nx, ny, nt).0),
        covered(jround2(s, acts, cells, nx, ny, nt).0, acts, jround2(s, acts, cells, nx, ny, nt).1, nx, ny, nt, m),
{
    lemma_listed_ok(cells, dilate_grid(f, nx, ny, m.0, m.1), nx, ny);
    lemma_round_apply(s, acts, cells, nx, ny, nt);
    let ju = jacobi_ups(s, acts, cells, nx, ny, nt);
    let s2 = jround2(s, acts, cells, nx, ny, nt).0;
    let f2 = jround2(s, acts, cells, nx, ny, nt).1;
    assert(s2 == apply_ups(s, ju));
    assert(f2 == ups_grid(empty_grid(nx, ny), ju));
    assert(shape2(empty_grid(nx, ny), nx, ny));
    lemma_ups_grid(empty_grid(nx, ny), ju, nx, ny);
    assert forall|i: int| 0 <= i < s2.len() implies (#[trigger] s2[i]).total_cost <= MAX_COST by {
        assert(s[i].total_cost <= MAX_COST);
    }
    assert forall|i: int| 0 <= i < s2.len() && #[trigger] improvable(s2, acts, i, nx, ny, nt)
        implies dilate_grid(f2, nx, ny, m.0, m.1)[s2[i].iy as int][s2[i].ix as int] by {
        let x = s[i];
        let y = s2[i];
        assert(in_grid(x, nx, ny, nt));
        assert(x.total_cost <= MAX_COST);
        assert(y.total_cost <= MAX_COST);
        let a = lemma_best_witness(s2, acts, y, nx, ny, nt);
        let trs = outcomes(acts[a], y);
        assert(trs == outcomes(acts[a], x));
        if exists|k: int| 0 <= k < trs.len() && {
            let c = #[trigger] outcome_cell(x, trs[k], nt);
            0 <= c.0 < nx && 0 <= c.1 < ny && s2[index_of(c.0, c.1, c.2, nx, nt)] != s[index_of(c.0, c.1, c.2, nx, nt)]
        } {
            let k = choose|k: int| 0 <= k < trs.len() && {
                let c = #[trigger] outcome_cell(x, trs[k], nt);
                0 <= c.0 < nx && 0 <= c.1 < ny && s2[index_of(c.0, c.1, c.2, nx, nt)] != s[index_of(c.0, c.1, c.2, nx, nt)]
            };
            let c = outcome_cell(x, trs[k], nt);
            lemma_coords(s, c.0, c.1, c.2, nx, ny, nt);
            let j = index_of(c.0, c.1, c.2, nx, nt);
            assert(col_in(cells, s[j].ix as int, s[j].iy as int) && improvable(s, acts, j, nx, ny, nt));
            let e = choose|e: int| 0 <= e < ju.len() && (#[trigger] ju[e]).2 == s[j].ix && ju[e].3 == s[j].iy;
            assert(f2[c.1][c.0]);
            assert(covers(acts[a].state_transitions@[x.it as int]@[k], x.it as int, nt, m));
            assert(outcome_cell(y, trs[k], nt) == c);
            lemma_near(f2, y, trs[k], nx, ny, nt, m);
        } else {
            lemma_cost_frame(s, s2, x, y, trs, nx, ny, nt);
            lemma_best_le(s, acts, x, a, nx, ny, nt);
            assert(improvable(s, acts, i, nx, ny, nt));
            let d = dilate_grid(f, nx, ny, m.0, m.1);
            assert(set_cells2(d, nx, ny).contains((x.ix as int, x.iy as int)));
            let j = choose|j: int| 0 <= j < cells.len() && (cells[j].0 as int, cells[j].1 as int) == (x.ix as int, x.iy as int);
            assert(col_in(cells, x.ix as int, x.iy as int));
            assert(false);
        }
    }
}

/// A frontier with no set cell covers no state, so covered states are settled.
pub proof fn lemma_empty_settles(s: Seq<State>, acts: Seq<Action>, f: Seq<Seq<bool>>, nx: int, ny: int, nt: int, m: (int, int, int))
    requires
        states_ok(s, nx, ny, nt),
        covered(s, acts, f, nx, ny, nt, m),
        set_cells2(f, nx, ny) == Set::<(int, int)>::empty(),
    ensures
        settled(s, acts, nx, ny, nt),
{
    assert forall|i: int| 0 <= i < s.len() implies !#[trigger] improvable(s, acts, i, nx, ny, nt) by {
        if improvable(s, acts, i, nx, ny, nt) {
            assert(in_grid(s[i], nx, ny, nt));
            let d = dilate_grid(f, nx, ny, m.0, m.1);
            assert(d[s[i].iy as int][s[i].ix as int]);
            let (x2, y2) = choose|x2: int, y2: int| 0 <= x2 < nx && 0 <= y2 < ny && s[i].ix - m.0 <= x2 <= s[i].ix + m.0
                && s[i].iy - m.1 <= y2 <= s[i].iy + m.1 && #[trigger] f[y2][x2];
            assert(set_cells2(f, nx, ny).contains((x2, y2)));
            assert(!Set::<(int, int)>::empty().contains((x2, y2)));
        }
    }
}

/// At a fixed point of the clamped update, the reference update lowers no
/// state whose outcomes all land on reached or blocked cells.
pub proof fn lemma_settled_reference(s: Seq<State>, acts: Seq<Action>, nx: int, ny: int, nt: int, i: int)
    requires
        settled(s, acts, nx, ny, nt),
        0 <= i < s.len(),
        outcomes_settled(s, acts, s[i], nx, ny, nt),
    ensures
        update_at(s, acts, i, nx, ny, nt)[i].total_cost >= s[i].total_cost,
{
    lemma_clamped_best_is_reference(s, acts, s[i], nx, ny, nt);
    assert(!improvable(s, acts, i, nx, ny, nt));
}

} // verus!
