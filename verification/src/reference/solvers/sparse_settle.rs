//! The heading-sparse solver on the states its fused arrays hold: each round
//! lowers, in place, the selected headings of its candidate columns, and a
//! state that can still be lowered after a round lies near a changed column
//! and within the heading displacement of one of its changed headings.  So a
//! run whose last round changed nothing ends at a state no update can lower.
use vstd::prelude::*;
use crate::reference::params::MAX_COST;
use crate::reference::state::{Action, State};
use crate::reference::value_iterator::{index_of, states_ok, in_grid, updatable};
use crate::reference::solvers::fused::{Geom, UNREACHED, fused_best, pad_index, clamped_best};
use crate::reference::solvers::par_unsafe::lower_at;
use crate::reference::solvers::fused_async::{follows, lemma_lower_follows, lemma_no_clash, lemma_best_none};
use crate::reference::solvers::fused::{in_box, pad_of, cp_of, pen_of, eval_of, lemma_fused_best};
use crate::reference::value_iterator::actions_ok;
use crate::reference::solvers::sparse::sparse_result;
use crate::reference::solvers::greatest::{agree_ok, greatest_settled, lemma_inv_start, COST_ROOM};
use crate::reference::solvers::settle::lemma_listed_ok;
use crate::reference::solvers::sparse::{relax_col, sparse_round, sparse_rounds, sel_heading, win_or, store_cells, zero_cells,
    cells_of, tracks, midx, row_or, near_heading, mark_cells};
use crate::reference::solvers::frontier::circ_dist;
use crate::bitboard::empty_grid;
use crate::reference::solvers::greatest::{lemma_lower_step, costs_le, below, lemma_below_trans, lemma_below_ok};
use crate::reference::solvers::settle::{lemma_coords, col_in, cells_ok, improvable, capped, lemma_best_witness, lemma_best_le,
    lemma_cost_frame, lemma_near, nonempty_outcomes, lemma_seed_covers, settled};
use crate::reference::value_iterator::{outcomes, outcome_cell};
use crate::reference::solvers::frontier::{is_displacement, covers, lists_cells2, seed_view2};
use crate::reference::solvers::par_unsafe::lemma_order_ok;
use crate::bitboard::ops::dilate_grid;
use crate::bitboard::bits::{bit, lemma_bit_or};

verus! {

/// The states after the selected headings `0 .. k` of column `c` were lowered
/// in place, with the mask of the headings that fell.
pub open spec fn sel_column(st: Seq<State>, acts: Seq<Action>, c: (u32, u32), first: bool, acc: u64, mt: int, k: int,
    nx: int, ny: int, nt: int) -> (Seq<State>, u64)
    decreases k,
{
    if k <= 0 {
        (st, 0u64)
    } else {
        let p = sel_column(st, acts, c, first, acc, mt, k - 1, nx, ny, nt);
        let idx = index_of(c.0 as int, c.1 as int, k - 1, nx, nt);
        if sel_heading(first, acc, k - 1, mt, nt) {
            let s2 = lower_at(p.0, acts, idx, nx, ny, nt);
            if s2[idx].total_cost < p.0[idx].total_cost {
                (s2, p.1 | (1u64 << ((k - 1) as u64)))
            } else {
                p
            }
        } else {
            p
        }
    }
}

/// The states after one round over `cands`, with the changed columns and their masks.
pub open spec fn sel_round(st: Seq<State>, acts: Seq<Action>, masks: Seq<u64>, cands: Seq<(u32, u32)>, first: bool, mt: int,
    nx: int, ny: int, nt: int, mx: int, my: int) -> (Seq<State>, Seq<(u32, u32, u64)>)
    decreases cands.len(),
{
    if cands.len() == 0 {
        (st, Seq::empty())
    } else {
        let p = sel_round(st, acts, masks, cands.drop_last(), first, mt, nx, ny, nt, mx, my);
        let c = cands.last();
        let acc = win_or(masks, c.0 as int, c.1 as int, 2 * mx + 1, nx + 2 * mx, 2 * my + 1);
        let rc = sel_column(p.0, acts, c, first, acc, mt, nt, nx, ny, nt);
        (rc.0, if rc.1 != 0 { p.1.push((c.0, c.1, rc.1)) } else { p.1 })
    }
}

/// The states after the rounds of `hist`, with the masks, the changed columns
/// of the last round and their masks, kept as the fused rounds keep them.
pub open spec fn sel_rounds(s0: Seq<State>, acts: Seq<Action>, hist: Seq<Seq<(u32, u32)>>, mt: int, nx: int, ny: int, nt: int,
    mx: int, my: int) -> (Seq<State>, Seq<u64>, Seq<(u32, u32)>, Seq<(u32, u32, u64)>)
    decreases hist.len(),
{
    let mw = nx + 2 * mx;
    if hist.len() == 0 {
        (s0, Seq::new((mw * (ny + 2 * my)) as nat, |j: int| 0u64), Seq::empty(), Seq::empty())
    } else {
        let p = sel_rounds(s0, acts, hist.drop_last(), mt, nx, ny, nt, mx, my);
        let rd = sel_round(p.0, acts, p.1, hist.last(), hist.len() == 1, mt, nx, ny, nt, mx, my);
        let m2 = store_cells(zero_cells(p.1, p.2, mx, my, mw), rd.1, mx, my, mw);
        (rd.0, m2, cells_of(rd.1), rd.1)
    }
}

/// The relaxation of a column through fused arrays that track `st` is the
/// lowering of the same headings of the states, with the same mask.
pub proof fn lemma_sel_column(s0: Seq<State>, acts: Seq<Action>, g: Geom, cp: Seq<u64>, pen: Seq<u64>, ev: Seq<bool>,
    st: Seq<State>, c: (u32, u32), first: bool, acc: u64, mt: int, k: int)
    requires
        tracks(s0, acts, g, cp, pen, ev, st),
        c.0 < g.nx,
        c.1 < g.ny,
        0 <= k <= g.nt,
    ensures
        ({
            let rc = relax_col(cp, pen, ev, g.precomp@, pad_index(c.0 as int, c.1 as int, 0, g.nx as int, g.nt as int,
                g.mx as int, g.my as int), first, acc, mt, g.nt as int, k);
            let sc = sel_column(st, acts, c, first, acc, mt, k, g.nx as int, g.ny as int, g.nt as int);
            &&& tracks(s0, acts, g, rc.0, pen, ev, sc.0)
            &&& rc.1 == sc.1
        }),
    decreases k,
{
    if k > 0 {
        let col = pad_index(c.0 as int, c.1 as int, 0, g.nx as int, g.nt as int, g.mx as int, g.my as int);
        lemma_sel_column(s0, acts, g, cp, pen, ev, st, c, first, acc, mt, k - 1);
        let p = relax_col(cp, pen, ev, g.precomp@, col, first, acc, mt, g.nt as int, k - 1);
        let sp = sel_column(st, acts, c, first, acc, mt, k - 1, g.nx as int, g.ny as int, g.nt as int);
        let t = k - 1;
        lemma_lower_follows(s0, acts, g, p.0, pen, ev, sp.0, c, t);
        let idx = index_of(c.0 as int, c.1 as int, t, g.nx as int, g.nt as int);
        let j = col + t;
        let m = fused_best(p.0, g.precomp@, t, col, g.precomp@.len() as int).0;
        let before = if p.0[j] == UNREACHED { MAX_COST } else { vstd::wrapping::u64_specs::wrapping_sub(p.0[j], pen[j]) };
        if sel_heading(first, acc, t, mt, g.nt as int) && ev[j] && m < before {
            assert(costs_le(sp.0, sp.0));
            lemma_lower_step(s0, acts, g.nx as int, g.ny as int, g.nt as int, sp.0, sp.0, idx);
        }
    }
}

/// A compute phase through fused arrays that track `st` is the round of the
/// states, with the same changed columns and masks.
pub proof fn lemma_sel_round(s0: Seq<State>, acts: Seq<Action>, g: Geom, cp: Seq<u64>, pen: Seq<u64>, ev: Seq<bool>,
    st: Seq<State>, masks: Seq<u64>, cands: Seq<(u32, u32)>, first: bool, mt: int)
    requires
        tracks(s0, acts, g, cp, pen, ev, st),
        forall|j: int| 0 <= j < cands.len() ==> (#[trigger] cands[j]).0 < g.nx && cands[j].1 < g.ny,
    ensures
        ({
            let fr = sparse_round(cp, pen, ev, g.precomp@, masks, cands, first, mt, g.nx as int, g.nt as int, g.mx as int, g.my as int);
            let sr = sel_round(st, acts, masks, cands, first, mt, g.nx as int, g.ny as int, g.nt as int, g.mx as int, g.my as int);
            &&& tracks(s0, acts, g, fr.0, pen, ev, sr.0)
            &&& fr.1 == sr.1
        }),
    decreases cands.len(),
{
    if cands.len() > 0 {
        let pc = cands.drop_last();
        assert forall|j: int| 0 <= j < pc.len() implies (#[trigger] pc[j]).0 < g.nx && pc[j].1 < g.ny by {
            assert(pc[j] == cands[j]);
        }
        lemma_sel_round(s0, acts, g, cp, pen, ev, st, masks, pc, first, mt);
        let fp = sparse_round(cp, pen, ev, g.precomp@, masks, pc, first, mt, g.nx as int, g.nt as int, g.mx as int, g.my as int);
        let sp = sel_round(st, acts, masks, pc, first, mt, g.nx as int, g.ny as int, g.nt as int, g.mx as int, g.my as int);
        let c = cands.last();
        assert(c == cands[cands.len() - 1]);
        let acc = win_or(masks, c.0 as int, c.1 as int, 2 * g.mx + 1, g.nx + 2 * g.mx, 2 * g.my + 1);
        lemma_sel_column(s0, acts, g, fp.0, pen, ev, sp.0, c, first, acc, mt, g.nt as int);
    }
}

/// Every column listed in `hist` lies in the grid.
pub open spec fn hist_cols_ok(hist: Seq<Seq<(u32, u32)>>, nx: int, ny: int) -> bool {
    forall|r: int, j: int| 0 <= r < hist.len() && 0 <= j < hist[r].len() ==> (#[trigger] hist[r][j]).0 < nx && hist[r][j].1 < ny
}

/// The rounds of `hist` through fused arrays that track the start are the
/// rounds of the states, with the same masks and changes.
pub proof fn lemma_sel_rounds(s0: Seq<State>, acts: Seq<Action>, g: Geom, cp0: Seq<u64>, pen: Seq<u64>, ev: Seq<bool>,
    hist: Seq<Seq<(u32, u32)>>, mt: int)
    requires
        tracks(s0, acts, g, cp0, pen, ev, s0),
        hist_cols_ok(hist, g.nx as int, g.ny as int),
    ensures
        ({
            let fr = sparse_rounds(cp0, pen, ev, g.precomp@, hist, mt, g.nx as int, g.ny as int, g.nt as int, g.mx as int, g.my as int);
            let sr = sel_rounds(s0, acts, hist, mt, g.nx as int, g.ny as int, g.nt as int, g.mx as int, g.my as int);
            &&& tracks(s0, acts, g, fr.0, pen, ev, sr.0)
            &&& fr.1 == sr.1
            &&& fr.2 == sr.2
            &&& fr.3 == sr.3
        }),
    decreases hist.len(),
{
    if hist.len() > 0 {
        let ph = hist.drop_last();
        assert(hist_cols_ok(ph, g.nx as int, g.ny as int)) by {
            assert forall|r: int, j: int| 0 <= r < ph.len() && 0 <= j < ph[r].len() implies (#[trigger] ph[r][j]).0 < g.nx && ph[r][j].1 < g.ny by {
                assert(ph[r] == hist[r]);
            }
        }
        lemma_sel_rounds(s0, acts, g, cp0, pen, ev, ph, mt);
        let fp = sparse_rounds(cp0, pen, ev, g.precomp@, ph, mt, g.nx as int, g.ny as int, g.nt as int, g.mx as int, g.my as int);
        let sp = sel_rounds(s0, acts, ph, mt, g.nx as int, g.ny as int, g.nt as int, g.mx as int, g.my as int);
        let cells = hist.last();
        assert forall|j: int| 0 <= j < cells.len() implies (#[trigger] cells[j]).0 < g.nx && cells[j].1 < g.ny by {
            assert(cells[j] == hist[hist.len() - 1][j]);
        }
        lemma_sel_round(s0, acts, g, fp.0, pen, ev, sp.0, fp.1, cells, hist.len() == 1, mt);
    }
}

/// Bit `s` of `1 << s`, and no other.
proof fn lemma_one_bit(sh: u64, b: u64)
    by (bit_vector)
    requires
        sh < 64,
        b < 64,
    ensures
        (((1u64 << sh) >> b) & 1u64 == 1u64) == (b == sh),
{
}

/// What the lowering of the selected headings of one column does: it only
/// lowers costs, only on selected headings `0 .. k` of the column; each
/// lowered heading is in the mask; and each selected updatable heading ends
/// at most at its clamped best cost over some states between the start and the end.
pub proof fn lemma_sel_column_facts(q: Seq<State>, acts: Seq<Action>, c: (u32, u32), first: bool, acc: u64, mt: int, k: int,
    nx: int, ny: int, nt: int)
    requires
        states_ok(q, nx, ny, nt),
        c.0 < nx,
        c.1 < ny,
        0 <= k <= nt,
        nt <= 64,
    ensures
        ({
            let r = sel_column(q, acts, c, first, acc, mt, k, nx, ny, nt);
            &&& below(q, r.0)
            &&& forall|j: int| 0 <= j < q.len() && !(q[j].ix == c.0 && q[j].iy == c.1 && q[j].it < k
                && sel_heading(first, acc, q[j].it as int, mt, nt)) ==> #[trigger] r.0[j] == q[j]
            &&& forall|j: int| 0 <= j < q.len() && #[trigger] r.0[j] != q[j] ==> bit(r.1, q[j].it as int)
            &&& forall|j: int| 0 <= j < q.len() && q[j].ix == c.0 && q[j].iy == c.1 && q[j].it < k
                && sel_heading(first, acc, q[j].it as int, mt, nt) && updatable(q, j) ==>
                exists|w: Seq<State>| below(q, w) && below(w, r.0)
                    && (#[trigger] r.0[j]).total_cost <= clamped_best(w, acts, w[j], nx, ny, nt).0
        }),
    decreases k,
{
    let r = sel_column(q, acts, c, first, acc, mt, k, nx, ny, nt);
    if k <= 0 {
        assert(below(q, q));
    } else {
        lemma_sel_column_facts(q, acts, c, first, acc, mt, k - 1, nx, ny, nt);
        let p = sel_column(q, acts, c, first, acc, mt, k - 1, nx, ny, nt);
        let idx = index_of(c.0 as int, c.1 as int, k - 1, nx, nt);
        lemma_coords(q, c.0 as int, c.1 as int, k - 1, nx, ny, nt);
        assert(p.0[idx] == (State { total_cost: p.0[idx].total_cost, ..q[idx] }));
        let b = clamped_best(p.0, acts, p.0[idx], nx, ny, nt).0;
        assert(below(p.0, r.0)) by {
            assert forall|j: int| 0 <= j < p.0.len() implies #[trigger] r.0[j] == (State { total_cost: r.0[j].total_cost, ..p.0[j] })
                && r.0[j].total_cost <= p.0[j].total_cost by {
            }
        }
        lemma_below_trans(q, p.0, r.0);
        let sh = (k - 1) as u64;
        assert forall|j: int| 0 <= j < q.len() && !(q[j].ix == c.0 && q[j].iy == c.1 && q[j].it < k
            && sel_heading(first, acc, q[j].it as int, mt, nt)) implies #[trigger] r.0[j] == q[j] by {
            if j == idx {
                assert(q[j].it == k - 1);
            }
            assert(p.0[j] == q[j]);
        }
        assert forall|j: int| 0 <= j < q.len() && #[trigger] r.0[j] != q[j] implies bit(r.1, q[j].it as int) by {
            assert(0 <= q[j].it < nt) by {
                assert(in_grid(q[j], nx, ny, nt));
            }
            let lowered = sel_heading(first, acc, k - 1, mt, nt)
                && lower_at(p.0, acts, idx, nx, ny, nt)[idx].total_cost < p.0[idx].total_cost;
            if lowered {
                assert(r.1 == p.1 | (1u64 << sh));
                lemma_bit_or(p.1, 1u64 << sh, q[j].it as int);
                if p.0[j] != q[j] {
                } else {
                    assert(j == idx);
                    assert(q[j].it == k - 1);
                    lemma_one_bit(sh, sh);
                }
            } else {
                assert(r.0 == p.0);
                assert(p.0[j] != q[j]);
            }
        }
        assert forall|j: int| 0 <= j < q.len() && q[j].ix == c.0 && q[j].iy == c.1 && q[j].it < k
            && sel_heading(first, acc, q[j].it as int, mt, nt) && updatable(q, j) implies
            exists|w: Seq<State>| below(q, w) && below(w, r.0)
                && (#[trigger] r.0[j]).total_cost <= clamped_best(w, acts, w[j], nx, ny, nt).0 by {
            if j == idx {
                assert(updatable(p.0, idx));
                assert(r.0[j].total_cost <= b);
                assert(below(q, p.0) && below(p.0, r.0));
            } else {
                assert(in_grid(q[j], nx, ny, nt));
                assert(index_of(q[j].ix as int, q[j].iy as int, q[j].it as int, nx, nt) == j);
                assert(q[j].it < k - 1);
                let w = choose|w: Seq<State>| below(q, w) && below(w, p.0)
                    && (#[trigger] p.0[j]).total_cost <= clamped_best(w, acts, w[j], nx, ny, nt).0;
                lemma_below_trans(w, p.0, r.0);
                assert(r.0[j] == p.0[j]);
            }
        }
    }
}

/// State `j` of `st` is re-evaluated in a round over `cands` with masks
/// `masks`: its column is a candidate and its heading is selected.
pub open spec fn sel_at(st: Seq<State>, masks: Seq<u64>, cands: Seq<(u32, u32)>, first: bool, mt: int, j: int,
    nx: int, nt: int, mx: int, my: int) -> bool {
    &&& col_in(cands, st[j].ix as int, st[j].iy as int)
    &&& sel_heading(first, win_or(masks, st[j].ix as int, st[j].iy as int, 2 * mx + 1, nx + 2 * mx, 2 * my + 1),
        st[j].it as int, mt, nt)
}

/// What a round over distinct in-grid candidates does: it only lowers costs,
/// only on re-evaluated states; each lowered state's column is among the
/// changes with its heading in the mask; each re-evaluated updatable state
/// ends at most at its clamped best cost over some states between the start
/// and the end; the changed columns are distinct candidates.
pub proof fn lemma_sel_round_facts(st: Seq<State>, acts: Seq<Action>, masks: Seq<u64>, cands: Seq<(u32, u32)>, first: bool,
    mt: int, nx: int, ny: int, nt: int, mx: int, my: int)
    requires
        states_ok(st, nx, ny, nt),
        cells_ok(cands, nx, ny),
        nt <= 64,
    ensures
        ({
            let r = sel_round(st, acts, masks, cands, first, mt, nx, ny, nt, mx, my);
            &&& below(st, r.0)
            &&& forall|j: int| 0 <= j < st.len() && !sel_at(st, masks, cands, first, mt, j, nx, nt, mx, my) ==> #[trigger] r.0[j] == st[j]
            &&& forall|j: int| 0 <= j < st.len() && #[trigger] r.0[j] != st[j] ==> exists|e: int| 0 <= e < r.1.len()
                && (#[trigger] r.1[e]).0 == st[j].ix && r.1[e].1 == st[j].iy && bit(r.1[e].2, st[j].it as int)
            &&& forall|j: int| 0 <= j < st.len() && sel_at(st, masks, cands, first, mt, j, nx, nt, mx, my) && updatable(st, j) ==>
                exists|w: Seq<State>| below(st, w) && below(w, r.0)
                    && (#[trigger] r.0[j]).total_cost <= clamped_best(w, acts, w[j], nx, ny, nt).0
            &&& forall|e: int| 0 <= e < r.1.len() ==> col_in(cands, (#[trigger] r.1[e]).0 as int, r.1[e].1 as int)
            &&& forall|e1: int, e2: int| 0 <= e1 < e2 < r.1.len() ==> (#[trigger] r.1[e1]).0 != (#[trigger] r.1[e2]).0
                || r.1[e1].1 != r.1[e2].1
        }),
    decreases cands.len(),
{
    let r = sel_round(st, acts, masks, cands, first, mt, nx, ny, nt, mx, my);
    if cands.len() == 0 {
        assert(below(st, st));
        assert forall|j: int| 0 <= j < st.len() && sel_at(st, masks, cands, first, mt, j, nx, nt, mx, my) implies false by {
            let e = choose|e: int| 0 <= e < cands.len() && cands[e].0 == st[j].ix && cands[e].1 == st[j].iy;
        }
    } else {
        let pc = cands.drop_last();
        assert(cells_ok(pc, nx, ny)) by {
            assert forall|j: int| 0 <= j < pc.len() implies (#[trigger] pc[j]).0 < nx && pc[j].1 < ny by {
                assert(pc[j] == cands[j]);
            }
            assert forall|i: int, j: int| 0 <= i < j < pc.len() implies #[trigger] pc[i] != #[trigger] pc[j] by {
                assert(pc[i] == cands[i] && pc[j] == cands[j]);
            }
        }
        lemma_sel_round_facts(st, acts, masks, pc, first, mt, nx, ny, nt, mx, my);
        let p = sel_round(st, acts, masks, pc, first, mt, nx, ny, nt, mx, my);
        let c = cands.last();
        assert(c == cands[cands.len() - 1]);
        assert(c.0 < nx && c.1 < ny);
        lemma_below_ok(st, p.0, nx, ny, nt);
        let acc = win_or(masks, c.0 as int, c.1 as int, 2 * mx + 1, nx + 2 * mx, 2 * my + 1);
        lemma_sel_column_facts(p.0, acts, c, first, acc, mt, nt, nx, ny, nt);
        let rc = sel_column(p.0, acts, c, first, acc, mt, nt, nx, ny, nt);
        assert(r.0 == rc.0);
        lemma_below_trans(st, p.0, rc.0);
        assert(!col_in(pc, c.0 as int, c.1 as int)) by {
            if col_in(pc, c.0 as int, c.1 as int) {
                let e = choose|e: int| 0 <= e < pc.len() && pc[e].0 == c.0 && pc[e].1 == c.1;
                assert(cands[e] == pc[e]);
                assert(cands[e] == cands[cands.len() - 1]);
            }
        }
        assert forall|j: int| 0 <= j < st.len() && !sel_at(st, masks, cands, first, mt, j, nx, nt, mx, my) implies #[trigger] r.0[j] == st[j] by {
            assert(p.0[j] == (State { total_cost: p.0[j].total_cost, ..st[j] }));
            if col_in(pc, st[j].ix as int, st[j].iy as int) {
                let e = choose|e: int| 0 <= e < pc.len() && pc[e].0 == st[j].ix && pc[e].1 == st[j].iy;
                assert(cands[e] == pc[e]);
                assert(!sel_at(st, masks, pc, first, mt, j, nx, nt, mx, my));
            }
            assert(p.0[j] == st[j]);
            if st[j].ix == c.0 && st[j].iy == c.1 {
                assert(col_in(cands, st[j].ix as int, st[j].iy as int));
            }
        }
        assert forall|j: int| 0 <= j < st.len() && #[trigger] r.0[j] != st[j] implies exists|e: int| 0 <= e < r.1.len()
            && (#[trigger] r.1[e]).0 == st[j].ix && r.1[e].1 == st[j].iy && bit(r.1[e].2, st[j].it as int) by {
            assert(p.0[j] == (State { total_cost: p.0[j].total_cost, ..st[j] }));
            if p.0[j] != st[j] {
                let e = choose|e: int| 0 <= e < p.1.len()
                    && (#[trigger] p.1[e]).0 == st[j].ix && p.1[e].1 == st[j].iy && bit(p.1[e].2, st[j].it as int);
                assert(r.1[e] == p.1[e]);
            } else {
                assert(rc.0[j] != p.0[j]);
                assert(bit(rc.1, p.0[j].it as int));
                assert(rc.1 != 0) by {
                    let b = p.0[j].it as u64;
                    assert(b < 64) by { assert(in_grid(st[j], nx, ny, nt)); }
                    assert((0u64 >> b) & 1u64 == 0u64) by (bit_vector);
                }
                assert(r.1[r.1.len() - 1] == (c.0, c.1, rc.1));
            }
        }
        assert forall|j: int| 0 <= j < st.len() && sel_at(st, masks, cands, first, mt, j, nx, nt, mx, my) && updatable(st, j) implies
            exists|w: Seq<State>| below(st, w) && below(w, r.0)
                && (#[trigger] r.0[j]).total_cost <= clamped_best(w, acts, w[j], nx, ny, nt).0 by {
            assert(p.0[j] == (State { total_cost: p.0[j].total_cost, ..st[j] }));
            assert(in_grid(st[j], nx, ny, nt));
            if st[j].ix == c.0 && st[j].iy == c.1 {
                assert(updatable(p.0, j));
                let w = choose|w: Seq<State>| below(p.0, w) && below(w, rc.0)
                    && (#[trigger] rc.0[j]).total_cost <= clamped_best(w, acts, w[j], nx, ny, nt).0;
                lemma_below_trans(st, p.0, w);
            } else {
                let e = choose|e: int| 0 <= e < cands.len() && cands[e].0 == st[j].ix && cands[e].1 == st[j].iy;
                assert(e != cands.len() - 1);
                assert(pc[e] == cands[e]);
                assert(sel_at(st, masks, pc, first, mt, j, nx, nt, mx, my));
                let w = choose|w: Seq<State>| below(st, w) && below(w, p.0)
                    && (#[trigger] p.0[j]).total_cost <= clamped_best(w, acts, w[j], nx, ny, nt).0;
                lemma_below_trans(w, p.0, rc.0);
                assert(rc.0[j] == p.0[j]);
            }
        }
        assert forall|e: int| 0 <= e < r.1.len() implies col_in(cands, (#[trigger] r.1[e]).0 as int, r.1[e].1 as int) by {
            if e < p.1.len() {
                assert(r.1[e] == p.1[e]);
                let e2 = choose|e2: int| 0 <= e2 < pc.len() && pc[e2].0 == p.1[e].0 && pc[e2].1 == p.1[e].1;
                assert(cands[e2] == pc[e2]);
            } else {
                assert(r.1[e] == (c.0, c.1, rc.1));
                assert(cands[cands.len() - 1] == c);
            }
        }
        assert forall|e1: int, e2: int| 0 <= e1 < e2 < r.1.len() implies (#[trigger] r.1[e1]).0 != (#[trigger] r.1[e2]).0
            || r.1[e1].1 != r.1[e2].1 by {
            if e2 < p.1.len() {
                assert(r.1[e1] == p.1[e1] && r.1[e2] == p.1[e2]);
            } else {
                assert(r.1[e1] == p.1[e1]);
                assert(r.1[e2] == (c.0, c.1, rc.1));
                assert(col_in(pc, p.1[e1].0 as int, p.1[e1].1 as int));
            }
        }
    }
}

/// Clearing the masks of in-grid columns keeps their number.
pub proof fn lemma_zero_len(masks: Seq<u64>, cells: Seq<(u32, u32)>, nx: int, ny: int, mx: int, my: int)
    requires
        masks.len() == (nx + 2 * mx) * (ny + 2 * my),
        0 <= mx,
        0 <= my,
        forall|k: int| 0 <= k < cells.len() ==> (#[trigger] cells[k]).0 < nx && cells[k].1 < ny,
    ensures
        zero_cells(masks, cells, mx, my, nx + 2 * mx).len() == masks.len(),
    decreases cells.len(),
{
    if cells.len() > 0 {
        let pc = cells.drop_last();
        assert forall|k: int| 0 <= k < pc.len() implies (#[trigger] pc[k]).0 < nx && pc[k].1 < ny by {
            assert(pc[k] == cells[k]);
        }
        lemma_zero_len(masks, pc, nx, ny, mx, my);
        let c = cells.last();
        assert(c == cells[cells.len() - 1]);
        lemma_midx(c.0 as int, c.1 as int, c.0 as int, c.1 as int, nx, ny, mx, my);
    }
}

/// Storing the masks of in-grid columns keeps their number.
pub proof fn lemma_store_len(masks: Seq<u64>, ch: Seq<(u32, u32, u64)>, nx: int, ny: int, mx: int, my: int)
    requires
        masks.len() == (nx + 2 * mx) * (ny + 2 * my),
        0 <= mx,
        0 <= my,
        forall|k: int| 0 <= k < ch.len() ==> (#[trigger] ch[k]).0 < nx && ch[k].1 < ny,
    ensures
        store_cells(masks, ch, mx, my, nx + 2 * mx).len() == masks.len(),
    decreases ch.len(),
{
    if ch.len() > 0 {
        let pc = ch.drop_last();
        assert forall|k: int| 0 <= k < pc.len() implies (#[trigger] pc[k]).0 < nx && pc[k].1 < ny by {
            assert(pc[k] == ch[k]);
        }
        lemma_store_len(masks, pc, nx, ny, mx, my);
        let c = ch.last();
        assert(c == ch[ch.len() - 1]);
        lemma_midx(c.0 as int, c.1 as int, c.0 as int, c.1 as int, nx, ny, mx, my);
    }
}

/// In-grid columns have distinct mask indices inside the mask grid.
proof fn lemma_midx(x1: int, y1: int, x2: int, y2: int, nx: int, ny: int, mx: int, my: int)
    requires
        0 <= x1 < nx,
        0 <= y1 < ny,
        0 <= x2 < nx,
        0 <= y2 < ny,
        0 <= mx,
        0 <= my,
    ensures
        0 <= midx(x1, y1, mx, my, nx + 2 * mx) < (nx + 2 * mx) * (ny + 2 * my),
        midx(x1, y1, mx, my, nx + 2 * mx) == midx(x2, y2, mx, my, nx + 2 * mx) ==> x1 == x2 && y1 == y2,
{
    let mw = nx + 2 * mx;
    assert(0 <= (y1 + my) * mw) by (nonlinear_arith) requires 0 <= y1 + my, 0 <= mw;
    assert((y1 + my) * mw + mw <= (ny + 2 * my) * mw) by (nonlinear_arith) requires y1 + my + 1 <= ny + 2 * my, 0 <= mw;
    assert((ny + 2 * my) * mw == mw * (ny + 2 * my)) by (nonlinear_arith);
    if midx(x1, y1, mx, my, mw) == midx(x2, y2, mx, my, mw) {
        vstd::arithmetic::div_mod::lemma_fundamental_div_mod_converse(midx(x1, y1, mx, my, mw), mw, y1 + my, x1 + mx);
        vstd::arithmetic::div_mod::lemma_fundamental_div_mod_converse(midx(x2, y2, mx, my, mw), mw, y2 + my, x2 + mx);
    }
}

/// The stored masks hold, at the index of each changed column, its mask.
pub proof fn lemma_store_mask(base: Seq<u64>, ch: Seq<(u32, u32, u64)>, nx: int, ny: int, mx: int, my: int, e: int)
    requires
        base.len() == (nx + 2 * mx) * (ny + 2 * my),
        0 <= mx,
        0 <= my,
        forall|k: int| 0 <= k < ch.len() ==> (#[trigger] ch[k]).0 < nx && ch[k].1 < ny,
        forall|e1: int, e2: int| 0 <= e1 < e2 < ch.len() ==> (#[trigger] ch[e1]).0 != (#[trigger] ch[e2]).0 || ch[e1].1 != ch[e2].1,
        0 <= e < ch.len(),
    ensures
        store_cells(base, ch, mx, my, nx + 2 * mx)[midx(ch[e].0 as int, ch[e].1 as int, mx, my, nx + 2 * mx)] == ch[e].2,
    decreases ch.len(),
{
    let mw = nx + 2 * mx;
    let pch = ch.drop_last();
    let l = ch.last();
    assert(l == ch[ch.len() - 1]);
    assert forall|k: int| 0 <= k < pch.len() implies (#[trigger] pch[k]).0 < nx && pch[k].1 < ny by {
        assert(pch[k] == ch[k]);
    }
    lemma_store_len(base, pch, nx, ny, mx, my);
    lemma_midx(ch[e].0 as int, ch[e].1 as int, l.0 as int, l.1 as int, nx, ny, mx, my);
    lemma_midx(l.0 as int, l.1 as int, l.0 as int, l.1 as int, nx, ny, mx, my);
    let prev = store_cells(base, pch, mx, my, mw);
    assert(store_cells(base, ch, mx, my, mw) == prev.update(midx(l.0 as int, l.1 as int, mx, my, mw), l.2));
    if e < ch.len() - 1 {
        assert forall|e1: int, e2: int| 0 <= e1 < e2 < pch.len() implies (#[trigger] pch[e1]).0 != (#[trigger] pch[e2]).0
            || pch[e1].1 != pch[e2].1 by {
            assert(pch[e1] == ch[e1] && pch[e2] == ch[e2]);
        }
        assert forall|k: int| 0 <= k < pch.len() implies (#[trigger] pch[k]).0 < nx && pch[k].1 < ny by {
            assert(pch[k] == ch[k]);
        }
        lemma_store_mask(base, pch, nx, ny, mx, my, e);
        assert(pch[e] == ch[e]);
        assert(ch[e].0 != ch[ch.len() - 1].0 || ch[e].1 != ch[ch.len() - 1].1);
        assert(midx(ch[e].0 as int, ch[e].1 as int, mx, my, mw) != midx(l.0 as int, l.1 as int, mx, my, mw));
        assert(0 <= midx(ch[e].0 as int, ch[e].1 as int, mx, my, mw) < prev.len()) by {
            lemma_midx(ch[e].0 as int, ch[e].1 as int, ch[e].0 as int, ch[e].1 as int, nx, ny, mx, my);
        }
        assert(prev[midx(ch[e].0 as int, ch[e].1 as int, mx, my, mw)] == ch[e].2);
        assert(store_cells(base, ch, mx, my, mw)[midx(ch[e].0 as int, ch[e].1 as int, mx, my, mw)] == ch[e].2);
    } else {
        assert(ch[e] == l);
        assert(0 <= midx(l.0 as int, l.1 as int, mx, my, mw) < prev.len());
        assert(store_cells(base, ch, mx, my, mw)[midx(ch[e].0 as int, ch[e].1 as int, mx, my, mw)] == ch[e].2);
    }
}

/// A mask in a row of the window ors into the row.
proof fn lemma_row_bit(masks: Seq<u64>, b: int, len: int, p: int, t: int)
    requires
        0 <= p < len,
        0 <= t < 64,
        bit(masks[b + p], t),
    ensures
        bit(row_or(masks, b, len), t),
    decreases len,
{
    lemma_bit_or(row_or(masks, b, len - 1), masks[b + len - 1], t);
    if p < len - 1 {
        lemma_row_bit(masks, b, len - 1, p, t);
    }
}

/// A mask of the window ors into the window.
proof fn lemma_win_bit(masks: Seq<u64>, x: int, y: int, wlen: int, mw: int, rows: int, r: int, p: int, t: int)
    requires
        0 <= r < rows,
        0 <= p < wlen,
        0 <= t < 64,
        bit(masks[x + (y + r) * mw + p], t),
    ensures
        bit(win_or(masks, x, y, wlen, mw, rows), t),
    decreases rows,
{
    lemma_bit_or(win_or(masks, x, y, wlen, mw, rows - 1), row_or(masks, x + (y + rows - 1) * mw, wlen), t);
    if r < rows - 1 {
        lemma_win_bit(masks, x, y, wlen, mw, rows - 1, r, p, t);
    } else {
        lemma_row_bit(masks, x + (y + rows - 1) * mw, wlen, p, t);
    }
}

/// A set heading within the cyclic heading distance of an outcome makes the
/// source heading selected.
proof fn lemma_near_heading(acc: u64, dit: int, t: int, mt: int, nt: int)
    requires
        1 <= nt,
        0 <= t < nt,
        circ_dist(dit, t, nt) <= mt,
        bit(acc, (dit + nt) % nt),
    ensures
        near_heading(acc, t, mt, nt),
{
    let e = (dit - t) % nt;
    vstd::arithmetic::div_mod::lemma_fundamental_div_mod(dit - t, nt);
    let q = (dit - t) / nt;
    vstd::arithmetic::div_mod::lemma_mod_multiples_vanish(1, dit, nt);
    if e <= nt - e {
        let d = -e;
        assert(nt * (-q) == -(nt * q)) by (nonlinear_arith);
        assert(t - d == dit + nt * (-q));
        vstd::arithmetic::div_mod::lemma_mod_multiples_vanish(-q, dit, nt);
        assert((t - d) % nt == (dit + nt) % nt);
        assert(bit(acc, (t - d) % nt));
    } else {
        let d = nt - e;
        assert(nt * (-q - 1) == -(nt * q) - nt) by (nonlinear_arith);
        assert(t - d == dit + nt * (-q - 1));
        vstd::arithmetic::div_mod::lemma_mod_multiples_vanish(-q - 1, dit, nt);
        assert((t - d) % nt == (dit + nt) % nt);
        assert(bit(acc, (t - d) % nt));
    }
}

/// The marked grid holds the column of every change.
pub proof fn lemma_marked(ch: Seq<(u32, u32, u64)>, nx: int, ny: int, e: int)
    requires
        0 <= nx,
        0 <= ny,
        forall|k: int| 0 <= k < ch.len() ==> (#[trigger] ch[k]).0 < nx && ch[k].1 < ny,
        0 <= e < ch.len(),
    ensures
        mark_cells(empty_grid(nx, ny), ch)[ch[e].1 as int][ch[e].0 as int],
    decreases ch.len(),
{
    lemma_marked_shape(ch, nx, ny);
    let pch = ch.drop_last();
    assert forall|k: int| 0 <= k < pch.len() implies (#[trigger] pch[k]).0 < nx && pch[k].1 < ny by {
        assert(pch[k] == ch[k]);
    }
    lemma_marked_shape(pch, nx, ny);
    if e < ch.len() - 1 {
        lemma_marked(pch, nx, ny, e);
        assert(pch[e] == ch[e]);
    }
}

/// The marked grid keeps the shape of the grid.
pub proof fn lemma_marked_shape(ch: Seq<(u32, u32, u64)>, nx: int, ny: int)
    requires
        0 <= nx,
        0 <= ny,
        forall|k: int| 0 <= k < ch.len() ==> (#[trigger] ch[k]).0 < nx && ch[k].1 < ny,
    ensures
        mark_cells(empty_grid(nx, ny), ch).len() == ny,
        forall|y: int| 0 <= y < ny ==> (#[trigger] mark_cells(empty_grid(nx, ny), ch)[y]).len() == nx,
    decreases ch.len(),
{
    if ch.len() > 0 {
        let pch = ch.drop_last();
        assert forall|k: int| 0 <= k < pch.len() implies (#[trigger] pch[k]).0 < nx && pch[k].1 < ny by {
            assert(pch[k] == ch[k]);
        }
        lemma_marked_shape(pch, nx, ny);
        assert(ch.last() == ch[ch.len() - 1]);
    }
}

/// Every state of `st` that can be lowered lies in a column of the dilation
/// of `g` by `(m.0, m.1)` and, unless `first`, within `m.2` headings of a
/// heading set in the masks of its window.
pub open spec fn sparse_cov(st: Seq<State>, acts: Seq<Action>, g: Seq<Seq<bool>>, masks: Seq<u64>, first: bool,
    nx: int, ny: int, nt: int, m: (int, int, int)) -> bool {
    forall|i: int| 0 <= i < st.len() && #[trigger] improvable(st, acts, i, nx, ny, nt) ==> {
        &&& dilate_grid(g, nx, ny, m.0, m.1)[st[i].iy as int][st[i].ix as int]
        &&& (first || near_heading(win_or(masks, st[i].ix as int, st[i].iy as int, 2 * m.0 + 1, nx + 2 * m.0, 2 * m.1 + 1),
            st[i].it as int, m.2, nt))
    }
}

/// A round from capped states covered by `g` and `masks`, over distinct
/// in-grid candidates that include every column of the dilation of `g`, gives
/// capped states covered by its own changed columns and the masks it stores.
pub proof fn lemma_sel_round_covers(st: Seq<State>, acts: Seq<Action>, g: Seq<Seq<bool>>, masks: Seq<u64>,
    cands: Seq<(u32, u32)>, first: bool, nx: int, ny: int, nt: int, m: (int, int, int), zbase: Seq<u64>)
    requires
        states_ok(st, nx, ny, nt),
        capped(st),
        is_displacement(acts, nt, m),
        forall|a: int| 0 <= a < acts.len() ==> (#[trigger] acts[a]).state_transitions@.len() == nt,
        sparse_cov(st, acts, g, masks, first, nx, ny, nt, m),
        cells_ok(cands, nx, ny),
        forall|x: int, y: int| 0 <= x < nx && 0 <= y < ny && #[trigger] dilate_grid(g, nx, ny, m.0, m.1)[y][x]
            ==> col_in(cands, x, y),
        1 <= nt <= 64,
        0 <= nx,
        0 <= ny,
        zbase.len() == (nx + 2 * m.0) * (ny + 2 * m.1),
    ensures
        ({
            let r = sel_round(st, acts, masks, cands, first, m.2, nx, ny, nt, m.0, m.1);
            &&& states_ok(r.0, nx, ny, nt)
            &&& capped(r.0)
            &&& below(st, r.0)
            &&& forall|e: int| 0 <= e < r.1.len() ==> (#[trigger] r.1[e]).0 < nx && r.1[e].1 < ny
            &&& sparse_cov(r.0, acts, mark_cells(empty_grid(nx, ny), r.1),
                store_cells(zbase, r.1, m.0, m.1, nx + 2 * m.0), false, nx, ny, nt, m)
        }),
{
    lemma_sel_round_facts(st, acts, masks, cands, first, m.2, nx, ny, nt, m.0, m.1);
    let r = sel_round(st, acts, masks, cands, first, m.2, nx, ny, nt, m.0, m.1);
    let s2 = r.0;
    let ch = r.1;
    let mw = nx + 2 * m.0;
    let f2 = mark_cells(empty_grid(nx, ny), ch);
    let m2 = store_cells(zbase, ch, m.0, m.1, mw);
    lemma_below_ok(st, s2, nx, ny, nt);
    assert forall|e: int| 0 <= e < ch.len() implies (#[trigger] ch[e]).0 < nx && ch[e].1 < ny by {
        assert(col_in(cands, ch[e].0 as int, ch[e].1 as int));
        let e2 = choose|e2: int| 0 <= e2 < cands.len() && cands[e2].0 == ch[e].0 && cands[e2].1 == ch[e].1;
    }
    assert forall|i: int| 0 <= i < s2.len() implies (#[trigger] s2[i]).total_cost <= MAX_COST by {
        assert(st[i].total_cost <= MAX_COST);
    }
    assert forall|i: int| 0 <= i < s2.len() && #[trigger] improvable(s2, acts, i, nx, ny, nt) implies {
        &&& dilate_grid(f2, nx, ny, m.0, m.1)[s2[i].iy as int][s2[i].ix as int]
        &&& (false || near_heading(win_or(m2, s2[i].ix as int, s2[i].iy as int, 2 * m.0 + 1, nx + 2 * m.0, 2 * m.1 + 1),
            s2[i].it as int, m.2, nt))
    } by {
        let x = st[i];
        let y = s2[i];
        assert(y == (State { total_cost: y.total_cost, ..x }));
        assert(in_grid(x, nx, ny, nt));
        assert(y.total_cost <= MAX_COST);
        let a = lemma_best_witness(s2, acts, y, nx, ny, nt);
        let trs = outcomes(acts[a], y);
        assert(trs == outcomes(acts[a], x));
        if exists|k: int| 0 <= k < trs.len() && {
            let c = #[trigger] outcome_cell(x, trs[k], nt);
            0 <= c.0 < nx && 0 <= c.1 < ny && s2[index_of(c.0, c.1, c.2, nx, nt)] != st[index_of(c.0, c.1, c.2, nx, nt)]
        } {
            let k = choose|k: int| 0 <= k < trs.len() && {
                let c = #[trigger] outcome_cell(x, trs[k], nt);
                0 <= c.0 < nx && 0 <= c.1 < ny && s2[index_of(c.0, c.1, c.2, nx, nt)] != st[index_of(c.0, c.1, c.2, nx, nt)]
            };
            let c = outcome_cell(x, trs[k], nt);
            lemma_coords(st, c.0, c.1, c.2, nx, ny, nt);
            let o = index_of(c.0, c.1, c.2, nx, nt);
            let e = choose|e: int| 0 <= e < ch.len()
                && (#[trigger] ch[e]).0 == st[o].ix && ch[e].1 == st[o].iy && bit(ch[e].2, st[o].it as int);
            lemma_marked(ch, nx, ny, e);
            let tr = acts[a].state_transitions@[x.it as int]@[k];
            assert(trs[k] == tr);
            assert(covers(tr, x.it as int, nt, m));
            assert(outcome_cell(y, trs[k], nt) == c);
            lemma_near(f2, y, trs[k], nx, ny, nt, m);
            lemma_store_mask(zbase, ch, nx, ny, m.0, m.1, e);
            let rr = c.1 - y.iy + m.1;
            let pp = c.0 - y.ix + m.0;
            assert(y.iy + rr == c.1 + m.1);
            assert(y.ix + (y.iy + rr) * mw + pp == midx(c.0, c.1, m.0, m.1, mw));
            lemma_win_bit(m2, y.ix as int, y.iy as int, 2 * m.0 + 1, mw, 2 * m.1 + 1, rr, pp, c.2);
            lemma_near_heading(win_or(m2, y.ix as int, y.iy as int, 2 * m.0 + 1, mw, 2 * m.1 + 1), tr.dit as int, y.it as int, m.2, nt);
        } else {
            if sel_at(st, masks, cands, first, m.2, i, nx, nt, m.0, m.1) {
                assert(updatable(st, i));
                let w = choose|w: Seq<State>| below(st, w) && below(w, s2)
                    && (#[trigger] s2[i]).total_cost <= clamped_best(w, acts, w[i], nx, ny, nt).0;
                assert(w[i] == (State { total_cost: w[i].total_cost, ..x }));
                assert forall|k: int| 0 <= k < trs.len() implies {
                    let c = #[trigger] outcome_cell(w[i], trs[k], nt);
                    0 <= c.0 < nx && 0 <= c.1 < ny ==> s2[index_of(c.0, c.1, c.2, nx, nt)] == w[index_of(c.0, c.1, c.2, nx, nt)]
                } by {
                    let c = outcome_cell(w[i], trs[k], nt);
                    assert(c == outcome_cell(x, trs[k], nt));
                    if 0 <= c.0 < nx && 0 <= c.1 < ny {
                        lemma_coords(st, c.0, c.1, c.2, nx, ny, nt);
                        let j = index_of(c.0, c.1, c.2, nx, nt);
                        assert(s2[j] == st[j]);
                        assert(w[j] == (State { total_cost: w[j].total_cost, ..st[j] }));
                        assert(s2[j] == (State { total_cost: s2[j].total_cost, ..w[j] }));
                    }
                }
                lemma_cost_frame(w, s2, w[i], y, trs, nx, ny, nt);
                lemma_best_le(w, acts, w[i], a, nx, ny, nt);
                assert(outcomes(acts[a], w[i]) == trs);
                assert(false);
            } else {
                assert(s2[i] == st[i]);
                lemma_cost_frame(st, s2, x, y, trs, nx, ny, nt);
                lemma_best_le(st, acts, x, a, nx, ny, nt);
                assert(improvable(st, acts, i, nx, ny, nt));
                assert(dilate_grid(g, nx, ny, m.0, m.1)[x.iy as int][x.ix as int]);
                assert(col_in(cands, x.ix as int, x.iy as int));
                assert(false);
            }
        }
    }
}

/// `hist` is a run of the sparse rounds of the states from the seed grid
/// `seed`: the first round takes the columns of the seed dilated by
/// `(mx, my)` in storage order, and each later one the changed columns of the
/// round before dilated by `(mx, my)`, in storage order on even rounds and in
/// reverse on odd ones.
pub open spec fn sel_run(s0: Seq<State>, acts: Seq<Action>, seed: Seq<Seq<bool>>, hist: Seq<Seq<(u32, u32)>>, mt: int,
    nx: int, ny: int, nt: int, mx: int, my: int) -> bool {
    &&& hist.len() >= 1
    &&& lists_cells2(hist[0], dilate_grid(seed, nx, ny, mx, my), nx, ny)
    &&& forall|r: int| 1 <= r < hist.len() ==> {
        let q = #[trigger] sel_rounds(s0, acts, hist.take(r), mt, nx, ny, nt, mx, my);
        lists_cells2(if r % 2 == 1 { hist[r].reverse() } else { hist[r] },
            dilate_grid(mark_cells(empty_grid(nx, ny), q.3), nx, ny, mx, my), nx, ny)
    }
}

/// The sparse rounds of a run from capped laid-out states keep them laid out
/// and capped, and covered by the changed columns of the last round and the
/// masks stored after it.
pub proof fn lemma_sel_run_covers(s0: Seq<State>, acts: Seq<Action>, hist: Seq<Seq<(u32, u32)>>, nx: int, ny: int, nt: int,
    m: (int, int, int))
    requires
        states_ok(s0, nx, ny, nt),
        capped(s0),
        nonempty_outcomes(acts, nt),
        is_displacement(acts, nt, m),
        forall|a: int| 0 <= a < acts.len() ==> (#[trigger] acts[a]).state_transitions@.len() == nt,
        sel_run(s0, acts, seed_view2(s0, nx, ny, nt), hist, m.2, nx, ny, nt, m.0, m.1),
        1 <= nt <= 64,
        0 <= nx,
        0 <= ny,
    ensures
        ({
            let q = sel_rounds(s0, acts, hist, m.2, nx, ny, nt, m.0, m.1);
            &&& states_ok(q.0, nx, ny, nt)
            &&& capped(q.0)
            &&& q.1.len() == (nx + 2 * m.0) * (ny + 2 * m.1)
            &&& q.2 == cells_of(q.3)
            &&& forall|e: int| 0 <= e < q.3.len() ==> (#[trigger] q.3[e]).0 < nx && q.3[e].1 < ny
            &&& sparse_cov(q.0, acts, mark_cells(empty_grid(nx, ny), q.3), q.1, false, nx, ny, nt, m)
        }),
    decreases hist.len(),
{
    let mw = nx + 2 * m.0;
    let seed = seed_view2(s0, nx, ny, nt);
    let ph = hist.drop_last();
    let p = sel_rounds(s0, acts, ph, m.2, nx, ny, nt, m.0, m.1);
    let r = ph.len() as int;
    assert(hist.take(r) =~= ph);
    let cv = if r % 2 == 1 { hist[r].reverse() } else { hist[r] };
    let cands = hist[r];
    assert(hist.last() == hist[r]);
    if hist.len() == 1 {
        lemma_seed_covers(s0, acts, nx, ny, nt, m);
        let zeros = p.1;
        assert(sparse_cov(s0, acts, seed, zeros, true, nx, ny, nt, m));
        lemma_order_ok(cv, dilate_grid(seed, nx, ny, m.0, m.1), nx, ny, false);
        assert(zero_cells(zeros, p.2, m.0, m.1, mw) == zeros);
        lemma_sel_round_covers(s0, acts, seed, zeros, cands, true, nx, ny, nt, m, zeros);
        let rd = sel_round(s0, acts, zeros, cands, true, m.2, nx, ny, nt, m.0, m.1);
        lemma_store_len(zeros, rd.1, nx, ny, m.0, m.1);
    } else {
        assert(sel_run(s0, acts, seed, ph, m.2, nx, ny, nt, m.0, m.1)) by {
            assert(ph[0] == hist[0]);
            assert forall|r2: int| 1 <= r2 < ph.len() implies {
                let q = #[trigger] sel_rounds(s0, acts, ph.take(r2), m.2, nx, ny, nt, m.0, m.1);
                lists_cells2(if r2 % 2 == 1 { ph[r2].reverse() } else { ph[r2] },
                    dilate_grid(mark_cells(empty_grid(nx, ny), q.3), nx, ny, m.0, m.1), nx, ny)
            } by {
                assert(ph.take(r2) =~= hist.take(r2));
                assert(ph[r2] == hist[r2]);
                assert(sel_rounds(s0, acts, hist.take(r2), m.2, nx, ny, nt, m.0, m.1)
                    == sel_rounds(s0, acts, ph.take(r2), m.2, nx, ny, nt, m.0, m.1));
            }
        }
        lemma_sel_run_covers(s0, acts, ph, nx, ny, nt, m);
        assert(sel_rounds(s0, acts, hist.take(r), m.2, nx, ny, nt, m.0, m.1) == p);
        let g = mark_cells(empty_grid(nx, ny), p.3);
        lemma_order_ok(cv, dilate_grid(g, nx, ny, m.0, m.1), nx, ny, r % 2 == 1);
        let ord = if r % 2 == 1 { cv.reverse() } else { cv };
        assert(ord =~= cands);
        assert forall|k: int| 0 <= k < p.2.len() implies (#[trigger] p.2[k]).0 < nx && p.2[k].1 < ny by {
            assert(p.2[k] == (p.3[k].0, p.3[k].1));
        }
        lemma_zero_len(p.1, p.2, nx, ny, m.0, m.1);
        let zb = zero_cells(p.1, p.2, m.0, m.1, mw);
        lemma_sel_round_covers(p.0, acts, g, p.1, cands, false, nx, ny, nt, m, zb);
        let rd = sel_round(p.0, acts, p.1, cands, false, m.2, nx, ny, nt, m.0, m.1);
        lemma_store_len(zb, rd.1, nx, ny, m.0, m.1);
    }
}

/// A run whose last round changed nothing ends at a state no update can lower.
pub proof fn lemma_sel_run_settles(s0: Seq<State>, acts: Seq<Action>, hist: Seq<Seq<(u32, u32)>>, nx: int, ny: int, nt: int,
    m: (int, int, int))
    requires
        states_ok(s0, nx, ny, nt),
        capped(s0),
        nonempty_outcomes(acts, nt),
        is_displacement(acts, nt, m),
        forall|a: int| 0 <= a < acts.len() ==> (#[trigger] acts[a]).state_transitions@.len() == nt,
        sel_run(s0, acts, seed_view2(s0, nx, ny, nt), hist, m.2, nx, ny, nt, m.0, m.1),
        1 <= nt <= 64,
        0 <= nx,
        0 <= ny,
        sel_rounds(s0, acts, hist, m.2, nx, ny, nt, m.0, m.1).3.len() == 0,
    ensures
        settled(sel_rounds(s0, acts, hist, m.2, nx, ny, nt, m.0, m.1).0, acts, nx, ny, nt),
{
    lemma_sel_run_covers(s0, acts, hist, nx, ny, nt, m);
    let q = sel_rounds(s0, acts, hist, m.2, nx, ny, nt, m.0, m.1);
    assert(mark_cells(empty_grid(nx, ny), q.3) == empty_grid(nx, ny));
    assert forall|i: int| 0 <= i < q.0.len() implies !#[trigger] improvable(q.0, acts, i, nx, ny, nt) by {
        if improvable(q.0, acts, i, nx, ny, nt) {
            let x = q.0[i];
            assert(in_grid(x, nx, ny, nt));
            assert(dilate_grid(empty_grid(nx, ny), nx, ny, m.0, m.1)[x.iy as int][x.ix as int]);
            let (x2, y2) = choose|x2: int, y2: int| 0 <= x2 < nx && 0 <= y2 < ny && x.ix - m.0 <= x2 <= x.ix + m.0
                && x.iy - m.1 <= y2 <= x.iy + m.1 && #[trigger] empty_grid(nx, ny)[y2][x2];
        }
    }
}

/// A converged run of the sparse solver from a start meeting [`agree_ok`]
/// holds the greatest state `r` below the start that the clamped update
/// cannot lower: every free cell reached in `r` has its cost, every other cell
/// `MAX_COST`, and every free cell outside the goal the clamped best action under `r`.
pub proof fn lemma_sparse_greatest(s0: Seq<State>, acts: Seq<Action>, nx: int, ny: int, nt: int, max_iter: int,
    g: Geom, mt: int, cp0: Seq<u64>, pen: Seq<u64>, ev: Seq<bool>, hist: Seq<Seq<(u32, u32)>>,
    s2: Seq<State>, iters: int, updates: int) -> (r: Seq<State>)
    requires
        sparse_result(s0, acts, nx, ny, nt, max_iter, g, mt, cp0, pen, ev, hist, s2, iters, updates, true),
        agree_ok(s0, acts, nt),
        states_ok(s0, nx, ny, nt),
        actions_ok(acts, nx, ny, nt),
        1 <= nt <= 64,
    ensures
        greatest_settled(r, s0, acts, nx, ny, nt),
        s2.len() == s0.len(),
        forall|k: int| 0 <= k < s0.len() ==> (#[trigger] s2[k]).total_cost
            == (if s0[k].free && r[k].total_cost != MAX_COST { r[k].total_cost } else { MAX_COST }),
        forall|k: int| 0 <= k < s0.len() ==> (#[trigger] s2[k]).optimal_action
            == (if updatable(r, k) { clamped_best(r, acts, r[k], nx, ny, nt).1 } else { None }),
{
    let mx = g.mx as int;
    let my = g.my as int;
    let m = (mx, my, mt);
    let precomp = g.precomp@;
    let seed = seed_view2(s0, nx, ny, nt);
    assert(below(s0, s0));
    lemma_inv_start(s0, acts, nx, ny, nt);
    assert(tracks(s0, acts, g, cp0, pen, ev, s0));
    assert(hist_cols_ok(hist, nx, ny)) by {
        assert forall|r: int, j: int| 0 <= r < hist.len() && 0 <= j < hist[r].len()
            implies (#[trigger] hist[r][j]).0 < nx && hist[r][j].1 < ny by {
            let h = hist[r];
            if r == 0 {
                lemma_listed_ok(h, dilate_grid(seed, nx, ny, mx, my), nx, ny);
            } else {
                let q = sparse_rounds(cp0, pen, ev, precomp, hist.take(r), mt, nx, ny, nt, mx, my);
                let v = dilate_grid(mark_cells(empty_grid(nx, ny), q.3), nx, ny, mx, my);
                if r % 2 == 1 {
                    lemma_listed_ok(h.reverse(), v, nx, ny);
                    assert(h.reverse()[h.len() - 1 - j] == h[j]);
                } else {
                    lemma_listed_ok(h, v, nx, ny);
                }
            }
        }
    }
    lemma_sel_rounds(s0, acts, g, cp0, pen, ev, hist, mt);
    let q = sparse_rounds(cp0, pen, ev, precomp, hist, mt, nx, ny, nt, mx, my);
    let sq = sel_rounds(s0, acts, hist, mt, nx, ny, nt, mx, my);
    let res = sq.0;
    assert(sel_run(s0, acts, seed, hist, mt, nx, ny, nt, mx, my)) by {
        assert forall|r: int| 1 <= r < hist.len() implies {
            let q2 = #[trigger] sel_rounds(s0, acts, hist.take(r), mt, nx, ny, nt, mx, my);
            lists_cells2(if r % 2 == 1 { hist[r].reverse() } else { hist[r] },
                dilate_grid(mark_cells(empty_grid(nx, ny), q2.3), nx, ny, mx, my), nx, ny)
        } by {
            let ht = hist.take(r);
            assert(hist_cols_ok(ht, nx, ny)) by {
                assert forall|r2: int, j: int| 0 <= r2 < ht.len() && 0 <= j < ht[r2].len()
                    implies (#[trigger] ht[r2][j]).0 < nx && ht[r2][j].1 < ny by {
                    assert(ht[r2] == hist[r2]);
                }
            }
            lemma_sel_rounds(s0, acts, g, cp0, pen, ev, ht, mt);
            let q1 = sparse_rounds(cp0, pen, ev, precomp, ht, mt, nx, ny, nt, mx, my);
        }
    }
    assert(sq.3.len() == 0);
    lemma_sel_run_settles(s0, acts, hist, nx, ny, nt, m);
    assert(greatest_settled(res, s0, acts, nx, ny, nt));
    lemma_no_clash(s0, acts, nt, res);
    let na = acts.len() as int;
    assert forall|k: int| 0 <= k < s0.len() implies {
        &&& (#[trigger] s2[k]).total_cost == (if s0[k].free && res[k].total_cost != MAX_COST { res[k].total_cost } else { MAX_COST })
        &&& s2[k].optimal_action == (if updatable(res, k) { clamped_best(res, acts, res[k], nx, ny, nt).1 } else { None })
    } by {
        let x = s0[k];
        assert(in_grid(x, nx, ny, nt));
        lemma_coords(s0, x.ix as int, x.iy as int, x.it as int, nx, ny, nt);
        assert(index_of(x.ix as int, x.iy as int, x.it as int, nx, nt) == k);
        assert(in_box(g, x.ix as int, x.iy as int, x.it as int));
        let j = pad_of(x, g);
        let y = res[k];
        assert(y == (State { total_cost: y.total_cost, ..x }));
        assert(q.0[j] == cp_of(y) && pen[j] == pen_of(y) && ev[j] == eval_of(y));
        assert(y.total_cost <= MAX_COST) by {
            assert(x.total_cost <= MAX_COST);
        }
        assert(y.penalty + y.local_penalty <= COST_ROOM);
        lemma_below_ok(s0, res, nx, ny, nt);
        lemma_fused_best(res, acts, g, q.0, pen, ev, k, na);
        assert(acts.take(na) =~= acts);
        lemma_best_none(res, acts, y, nx, ny, nt);
        assert(!improvable(res, acts, k, nx, ny, nt));
    }
    res
}

} // verus!
