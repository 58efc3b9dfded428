//! The asynchronous (Gauss–Seidel) frontier solver on the penalty-fused
//! padded layout.  Each heading of a candidate column takes its lowered value
//! in place, as `cost + penalties`, so later columns of the same round already
//! read it; the candidates are scanned in storage order on even rounds and
//! backwards on odd rounds.  The work is shared out here by one worker; the
//! actions are chosen once, from the final values.
use vstd::prelude::*;
use vstd::wrapping::u64_specs;
use crate::reference::params::MAX_COST;
use crate::reference::state::{Action, State};
use crate::reference::value_iterator::{StateSpace, actions_ok};
use crate::reference::solvers::fused::{Geom, Fused, UNREACHED, fused_best, fused_match, pad_index, pad_of, value_of,
    action_cost_fused, lemma_buckets, lemma_pad_index, final_policy_fused, write_back_fused};
use crate::reference::solvers::sparse::policy_of;
use crate::reference::solvers::frontier::{is_displacement, abs_int, frontier_ok, lemma_frontier_offsets, displacement,
    seed_frontier_2d, seed_view2, lists_cells2, lemma_cells2_len, set_cell2};
use crate::bitboard::{Bitboard2D, fits2, empty_grid};
use crate::bitboard::ops::dilate_grid;
use crate::bitboard::enumerate::{set_cells2, lemma_count_empty2};
use crate::reference::value_iterator::{index_of, states_ok};
use crate::reference::solvers::fused::{cp_of, pen_of, eval_of, in_box, no_marker_clash, lemma_fused_best, clamped_best};
use crate::reference::solvers::settle::lemma_coords;
use crate::reference::solvers::par_unsafe::{gs_column, gs_round, gs_rounds, lower_at};
use crate::reference::solvers::greatest::{agree_ok, below, lemma_below_ok, lemma_pen_below, max_pen, max_reached, COST_ROOM,
    hist_in_grid, greatest_settled, lemma_gs_rounds_inv, settled_outcome};
use crate::reference::solvers::par_unsafe::{gs_run2, lemma_gs_run_covers};
use crate::reference::solvers::settle::{lemma_listed_ok, lemma_empty_settles, improvable};
use crate::reference::value_iterator::{in_grid, updatable};

verus! {

/// The in-place updates of headings `0 .. t` of the column at padded base
/// `col`, in order, for the cells that take part in the update: a heading takes
/// the least cost through the fused layout when that lowers its value.  Gives
/// the fused values and how many headings were lowered.
pub open spec fn lower_fused(cp: Seq<u64>, pen: Seq<u64>, ev: Seq<bool>, precomp: Seq<Vec<Vec<(i64, u64)>>>, col: int, t: int)
    -> (Seq<u64>, nat)
    decreases t,
{
    if t <= 0 {
        (cp, 0)
    } else {
        let p = lower_fused(cp, pen, ev, precomp, col, t - 1);
        let k = t - 1;
        let j = col + k;
        if ev[j] {
            let before = if p.0[j] == UNREACHED { MAX_COST } else { u64_specs::wrapping_sub(p.0[j], pen[j]) };
            let m = fused_best(p.0, precomp, k, col, precomp.len() as int).0;
            if m < before {
                (p.0.update(j, u64_specs::wrapping_add(m, pen[j])), p.1 + 1)
            } else {
                p
            }
        } else {
            p
        }
    }
}

/// One asynchronous round over `cands`, in the order given: the fused values,
/// the columns where a heading was lowered, and how many were lowered.
pub open spec fn fused_round(cp: Seq<u64>, pen: Seq<u64>, ev: Seq<bool>, precomp: Seq<Vec<Vec<(i64, u64)>>>,
    cands: Seq<(u32, u32)>, nx: int, ny: int, nt: int, mx: int, my: int) -> (Seq<u64>, Seq<Seq<bool>>, nat)
    decreases cands.len(),
{
    if cands.len() == 0 {
        (cp, empty_grid(nx, ny), 0)
    } else {
        let p = fused_round(cp, pen, ev, precomp, cands.drop_last(), nx, ny, nt, mx, my);
        let c = cands.last();
        let lc = lower_fused(p.0, pen, ev, precomp, pad_index(c.0 as int, c.1 as int, 0, nx, nt, mx, my), nt);
        (lc.0, if lc.1 > 0 { set_cell2(p.1, c) } else { p.1 }, p.2 + lc.1)
    }
}

/// The asynchronous rounds over the scan orders of `hist`, from fused values `cp0` and frontier `f`.
pub open spec fn fused_rounds(cp0: Seq<u64>, pen: Seq<u64>, ev: Seq<bool>, precomp: Seq<Vec<Vec<(i64, u64)>>>,
    f: Seq<Seq<bool>>, hist: Seq<Seq<(u32, u32)>>, nx: int, ny: int, nt: int, mx: int, my: int) -> (Seq<u64>, Seq<Seq<bool>>, nat)
    decreases hist.len(),
{
    if hist.len() == 0 {
        (cp0, f, 0)
    } else {
        let p = fused_rounds(cp0, pen, ev, precomp, f, hist.drop_last(), nx, ny, nt, mx, my);
        let r = fused_round(p.0, pen, ev, precomp, hist.last(), nx, ny, nt, mx, my);
        (r.0, r.1, p.2 + r.2)
    }
}

/// `hist` is a run of the asynchronous fused solver: before each round the
/// frontier has a column, and round `r` scans the frontier dilated by
/// `(mx, my)` in storage order when `r` is even and backwards when `r` is odd.
pub open spec fn fused_run(cp0: Seq<u64>, pen: Seq<u64>, ev: Seq<bool>, precomp: Seq<Vec<Vec<(i64, u64)>>>,
    f: Seq<Seq<bool>>, hist: Seq<Seq<(u32, u32)>>, nx: int, ny: int, nt: int, mx: int, my: int) -> bool {
    forall|r: int| 0 <= r < hist.len() ==> {
        let p = #[trigger] fused_rounds(cp0, pen, ev, precomp, f, hist.take(r), nx, ny, nt, mx, my);
        &&& set_cells2(p.1, nx, ny) != Set::<(int, int)>::empty()
        &&& lists_cells2(if r % 2 == 0 { hist[r] } else { hist[r].reverse() }, dilate_grid(p.1, nx, ny, mx, my), nx, ny)
    }
}

/// A run of the asynchronous fused solver from `states` with geometry `g`,
/// heading displacement `mt`, fused arrays `(cp0, pen, ev)` and scan orders
/// `hist` ended with `states2`, `updates` lowered headings and, when
/// `converged`, an empty frontier: each state takes the value of its padded
/// cell and the best action through the final fused values, unreached cells
/// skipped when the run converged.
pub open spec fn fused_async_result(states: Seq<State>, actions: Seq<Action>, nx: int, ny: int, nt: int, g: Geom, mt: int,
    cp0: Seq<u64>, pen: Seq<u64>, ev: Seq<bool>, hist: Seq<Seq<(u32, u32)>>, states2: Seq<State>, updates: u64,
    converged: bool) -> bool {
    let f0 = seed_view2(states, nx, ny, nt);
    let q = fused_rounds(cp0, pen, ev, g.precomp@, f0, hist, nx, ny, nt, g.mx as int, g.my as int);
    &&& g.wf(actions)
    &&& g.nx == nx
    &&& g.ny == ny
    &&& g.nt == nt
    &&& is_displacement(actions, nt, (g.mx as int, g.my as int, mt))
    &&& fused_match(cp0, pen, ev, states, g)
    &&& fused_run(cp0, pen, ev, g.precomp@, f0, hist, nx, ny, nt, g.mx as int, g.my as int)
    &&& updates == q.2
    &&& converged == (set_cells2(q.1, nx, ny) == Set::<(int, int)>::empty())
    &&& states2.len() == states.len()
    &&& forall|k: int| 0 <= k < states.len() ==> #[trigger] states2[k] == (State {
        total_cost: value_of(q.0, pen, pad_of(states[k], g)),
        optimal_action: policy_of(q.0, ev, g, states[k], converged, actions.len() as int),
        ..states[k]
    })
}

/// Lowers the headings of in-grid column `(ix, iy)` in place; gives how many fell.
fn lower_fused_column(f: &mut Fused, g: &Geom, vi: &StateSpace, ix: i32, iy: i32) -> (r: u64)
    requires
        vi.wf(),
        g.wf(vi.actions@),
        g.nx == vi.cell_num_x,
        g.ny == vi.cell_num_y,
        g.nt == vi.cell_num_t,
        old(f).cp@.len() == g.pad_len(),
        old(f).pen@.len() == g.pad_len(),
        old(f).eval_ok@.len() == g.pad_len(),
        0 <= ix < g.nx,
        0 <= iy < g.ny,
    ensures
        final(f).pen@ == old(f).pen@,
        final(f).eval_ok@ == old(f).eval_ok@,
        final(f).cp@.len() == g.pad_len(),
        ({
            let res = lower_fused(old(f).cp@, old(f).pen@, old(f).eval_ok@, g.precomp@,
                pad_index(ix as int, iy as int, 0, g.nx as int, g.nt as int, g.mx as int, g.my as int), g.nt as int);
            &&& final(f).cp@ == res.0
            &&& r == res.1
        }),
        r <= g.nt,
{
    let ghost cp0 = f.cp@;
    let ghost nx = g.nx as int;
    let ghost ny = g.ny as int;
    let ghost nt = g.nt as int;
    let ghost acts = vi.actions@;
    proof {
        assert(g.pad_len() <= 0x7fff_ffff * 0x7fff_ffff) by (nonlinear_arith)
            requires 0 <= g.row_stride <= 0x7fff_ffff, 0 <= g.ny + 2 * g.my <= 0x7fff_ffff,
                g.pad_len() == g.row_stride * (g.ny + 2 * g.my);
    }
    let col = g.pad_col(ix, iy);
    let mut ups: u64 = 0;
    let mut it: i32 = 0;
    while it < g.nt
        invariant
            0 <= it <= nt,
            nx == g.nx,
            ny == g.ny,
            nt == g.nt,
            acts == vi.actions@,
            vi.wf(),
            actions_ok(acts, nx, ny, nt),
            g.wf(acts),
            0 <= ix < nx,
            0 <= iy < ny,
            g.pad_len() <= 0x7fff_ffff * 0x7fff_ffff,
            f.cp@.len() == g.pad_len(),
            f.pen@ == old(f).pen@,
            f.eval_ok@ == old(f).eval_ok@,
            f.pen@.len() == g.pad_len(),
            f.eval_ok@.len() == g.pad_len(),
            cp0 == old(f).cp@,
            col == pad_index(ix as int, iy as int, 0, nx, nt, g.mx as int, g.my as int),
            (f.cp@, ups as nat) == lower_fused(cp0, f.pen@, f.eval_ok@, g.precomp@, col as int, it as int),
            ups <= it,
        decreases nt - it,
    {
        proof {
            lemma_pad_index(*g, ix as int, iy as int, it as int, ix as int, iy as int, it as int);
            assert(col + it == pad_index(ix as int, iy as int, it as int, nx, nt, g.mx as int, g.my as int));
        }
        let pad = (col + it as i64) as usize;
        if f.eval_ok[pad] {
            let cp_self = f.cp[pad];
            let pen_self = f.pen[pad];
            let before = if cp_self == UNREACHED { MAX_COST } else { cp_self.wrapping_sub(pen_self) };
            let mut min_cost: u64 = MAX_COST;
            let mut ai: usize = 0;
            while ai < vi.actions.len()
                invariant
                    0 <= ai <= acts.len(),
                    acts == vi.actions@,
                    actions_ok(acts, nx, ny, nt),
                    g.wf(acts),
                    nx == g.nx,
                    ny == g.ny,
                    nt == g.nt,
                    0 <= ix < nx,
                    0 <= iy < ny,
                    0 <= it < nt,
                    f.cp@.len() == g.pad_len(),
                    g.pad_len() <= 0x7fff_ffff * 0x7fff_ffff,
                    col == pad_index(ix as int, iy as int, 0, nx, nt, g.mx as int, g.my as int),
                    min_cost == fused_best(f.cp@, g.precomp@, it as int, col as int, ai as int).0,
                decreases acts.len() - ai,
            {
                proof {
                    lemma_buckets(acts, *g, ix as int, iy as int, it as int, ai as int);
                }
                let c = action_cost_fused(&f.cp, &g.precomp[ai][it as usize], col);
                if c < min_cost {
                    min_cost = c;
                }
                ai += 1;
            }
            proof {
                assert(g.precomp@.len() == acts.len());
            }
            if min_cost < before {
                f.cp.set(pad, min_cost.wrapping_add(pen_self));
                ups += 1;
            }
        }
        it += 1;
    }
    ups
}

/// One asynchronous round over `cand`, scanned backwards when `rev`: each
/// candidate column has its headings lowered in place.  Gives the columns
/// where a heading fell and how many fell.
fn fused_pass(f: &mut Fused, g: &Geom, vi: &StateSpace, cand: &Vec<(u32, u32)>, rev: bool) -> (r: (Bitboard2D, u64))
    requires
        vi.wf(),
        g.wf(vi.actions@),
        g.nx == vi.cell_num_x,
        g.ny == vi.cell_num_y,
        g.nt == vi.cell_num_t,
        old(f).cp@.len() == g.pad_len(),
        old(f).pen@.len() == g.pad_len(),
        old(f).eval_ok@.len() == g.pad_len(),
        fits2(g.nx as u32, g.ny as u32),
        forall|i: int| 0 <= i < cand@.len() ==> (#[trigger] cand@[i]).0 < g.nx && cand@[i].1 < g.ny,
        cand@.len() * g.nt <= i32::MAX,
    ensures
        final(f).pen@ == old(f).pen@,
        final(f).eval_ok@ == old(f).eval_ok@,
        final(f).cp@.len() == g.pad_len(),
        ({
            let ord = if rev { cand@.reverse() } else { cand@ };
            let res = fused_round(old(f).cp@, old(f).pen@, old(f).eval_ok@, g.precomp@, ord, g.nx as int, g.ny as int,
                g.nt as int, g.mx as int, g.my as int);
            &&& final(f).cp@ == res.0
            &&& r.0.wf()
            &&& r.0.width() == g.nx
            &&& r.0.height() == g.ny
            &&& r.0@ == res.1
            &&& r.1 == res.2
            &&& r.1 <= cand@.len() * g.nt
        }),
{
    let ghost nx = g.nx as int;
    let ghost ny = g.ny as int;
    let ghost nt = g.nt as int;
    let ghost cv = cand@;
    let ghost ord = if rev { cv.reverse() } else { cv };
    let ghost cp0 = f.cp@;
    let n = cand.len();
    let mut frontier = Bitboard2D::new(g.nx as u32, g.ny as u32);
    let mut count: u64 = 0;
    let mut j: usize = 0;
    while j < n
        invariant
            0 <= j <= n,
            n == cv.len(),
            cv == cand@,
            ord == (if rev { cv.reverse() } else { cv }),
            vi.wf(),
            g.wf(vi.actions@),
            g.nx == vi.cell_num_x,
            g.ny == vi.cell_num_y,
            g.nt == vi.cell_num_t,
            nx == g.nx,
            ny == g.ny,
            nt == g.nt,
            0 <= nt,
            fits2(nx as u32, ny as u32),
            forall|i: int| 0 <= i < cv.len() ==> (#[trigger] cv[i]).0 < nx && cv[i].1 < ny,
            cv.len() * nt <= i32::MAX,
            f.pen@ == old(f).pen@,
            f.eval_ok@ == old(f).eval_ok@,
            f.cp@.len() == g.pad_len(),
            f.pen@.len() == g.pad_len(),
            f.eval_ok@.len() == g.pad_len(),
            cp0 == old(f).cp@,
            f.cp@ == fused_round(cp0, f.pen@, f.eval_ok@, g.precomp@, ord.take(j as int), nx, ny, nt, g.mx as int, g.my as int).0,
            frontier@ == fused_round(cp0, f.pen@, f.eval_ok@, g.precomp@, ord.take(j as int), nx, ny, nt, g.mx as int, g.my as int).1,
            count == fused_round(cp0, f.pen@, f.eval_ok@, g.precomp@, ord.take(j as int), nx, ny, nt, g.mx as int, g.my as int).2,
            count <= j * nt,
            frontier.wf(),
            frontier.width() == nx,
            frontier.height() == ny,
        decreases n - j,
    {
        let c = if rev { cand[n - 1 - j] } else { cand[j] };
        proof {
            assert(ord[j as int] == c);
            assert(ord.take(j + 1).drop_last() =~= ord.take(j as int));
            assert(ord.take(j + 1).last() == c);
            assert(j * nt + nt == (j + 1) * nt) by (nonlinear_arith);
            assert((j + 1) * nt <= cv.len() * nt) by (nonlinear_arith) requires j + 1 <= cv.len(), 0 <= nt;
            if !rev {
                assert(c.0 < nx && c.1 < ny);
            } else {
                assert(cv[n - 1 - j] == c);
            }
        }
        let u = lower_fused_column(f, g, vi, c.0 as i32, c.1 as i32);
        count = count + u;
        if u > 0 {
            frontier.set(c.0, c.1);
        }
        j += 1;
    }
    proof {
        assert(ord.take(n as int) =~= ord);
    }
    (frontier, count)
}

/// Frontier solver over 2-D columns on the penalty-fused padded layout, in
/// asynchronous rounds: every heading of each candidate column that takes
/// part in the update takes its least cost through the layout as soon as that
/// lowers its value, and later columns of the round read it; the candidates are
/// scanned forward on even rounds and backwards on odd ones, and the frontier
/// is the set of columns where a value fell.  Stops once a round lowers
/// nothing (converged) or after `max_iter` rounds, then writes the values and
/// the best actions back.
pub fn frontier2d_fused_solve(vi: &mut StateSpace, max_iter: u32) -> (r: (u32, u64, bool))
    requires
        old(vi).wf(),
        frontier_ok(old(vi).actions@),
        fits2(old(vi).cell_num_x as u32, old(vi).cell_num_y as u32),
        forall|d: (int, int, int)| is_displacement(old(vi).actions@, old(vi).cell_num_t as int, d)
            ==> #[trigger] crate::reference::solvers::fused::geom_fits(old(vi).cell_num_x as int, old(vi).cell_num_y as int,
                old(vi).cell_num_t as int, d.0, d.1),
    ensures
        final(vi).actions@ == old(vi).actions@,
        final(vi).cell_num_x == old(vi).cell_num_x,
        final(vi).cell_num_y == old(vi).cell_num_y,
        final(vi).cell_num_t == old(vi).cell_num_t,
        r.0 <= max_iter,
        exists|g: Geom, mt: int, cp0: Seq<u64>, pen: Seq<u64>, ev: Seq<bool>, hist: Seq<Seq<(u32, u32)>>|
            #[trigger] fused_async_result(old(vi).states@, old(vi).actions@, old(vi).cell_num_x as int, old(vi).cell_num_y as int,
                old(vi).cell_num_t as int, g, mt, cp0, pen, ev, hist, final(vi).states@, r.1, r.2)
            && hist.len() == r.0 && (r.2 || r.0 == max_iter),
        agree_ok(old(vi).states@, old(vi).actions@, old(vi).cell_num_t as int) && r.2 ==> exists|gs: Seq<State>|
            #[trigger] greatest_settled(gs, old(vi).states@, old(vi).actions@, old(vi).cell_num_x as int,
                old(vi).cell_num_y as int, old(vi).cell_num_t as int)
            && settled_outcome(final(vi).states@, gs, old(vi).states@, old(vi).actions@, old(vi).cell_num_x as int,
                old(vi).cell_num_y as int, old(vi).cell_num_t as int),
{
    let ghost s0 = vi.states@;
    let ghost acts = vi.actions@;
    let ghost nx = vi.cell_num_x as int;
    let ghost ny = vi.cell_num_y as int;
    let ghost nt = vi.cell_num_t as int;
    let ghost big_n = nx * ny * nt;
    proof {
        lemma_frontier_offsets(acts, nx, ny, nt);
    }
    let (mx, my, mt) = displacement(&vi.actions, vi.cell_num_t);
    let ghost m = (mx as int, my as int, mt as int);
    proof {
        assert(crate::reference::solvers::fused::geom_fits(nx, ny, nt, mx as int, my as int));
        if mx != 1 {
            let (a, t, k) = choose|a: int, t: int, k: int| 0 <= a < acts.len() && 0 <= t < acts[a].state_transitions@.len()
                && 0 <= k < acts[a].state_transitions@[t]@.len() && abs_int((#[trigger] acts[a].state_transitions@[t]@[k]).dix as int) == m.0;
            assert(-63 <= acts[a].state_transitions@[t]@[k].dix <= 63);
        }
    }
    let g = Geom::build_with(vi, mx, my, Ghost(mt as int));
    let mut f = Fused::build_direct(vi, &g);
    let ghost cp0 = f.cp@;
    let ghost pen = f.pen@;
    let ghost ev = f.eval_ok@;
    let ghost precomp = g.precomp@;
    proof {
        assert(s0.len() == big_n);
        assert(big_n <= i32::MAX);
    }
    let mut frontier = seed_frontier_2d(vi);
    let ghost f0 = frontier@;
    let mut updates: u64 = 0;
    let mut iters: u32 = 0;
    let ghost mut hist: Seq<Seq<(u32, u32)>> = Seq::empty();
    while frontier.popcount() > 0 && iters < max_iter
        invariant
            vi.wf(),
            vi.states@ == s0,
            vi.actions@ == acts,
            nx == vi.cell_num_x,
            ny == vi.cell_num_y,
            nt == vi.cell_num_t,
            big_n == nx * ny * nt,
            0 <= big_n <= i32::MAX,
            fits2(nx as u32, ny as u32),
            g.wf(acts),
            g.nx == vi.cell_num_x,
            g.ny == vi.cell_num_y,
            g.nt == vi.cell_num_t,
            g.mx == mx,
            g.my == my,
            m == (mx as int, my as int, mt as int),
            is_displacement(acts, nt, m),
            mx < 64,
            precomp == g.precomp@,
            fused_match(cp0, pen, ev, s0, g),
            f.pen@ == pen,
            f.eval_ok@ == ev,
            f.cp@.len() == g.pad_len(),
            pen.len() == g.pad_len(),
            ev.len() == g.pad_len(),
            frontier.wf(),
            frontier.width() == nx,
            frontier.height() == ny,
            f0 == seed_view2(s0, nx, ny, nt),
            hist.len() == iters,
            iters <= max_iter,
            fused_run(cp0, pen, ev, precomp, f0, hist, nx, ny, nt, mx as int, my as int),
            f.cp@ == fused_rounds(cp0, pen, ev, precomp, f0, hist, nx, ny, nt, mx as int, my as int).0,
            frontier@ == fused_rounds(cp0, pen, ev, precomp, f0, hist, nx, ny, nt, mx as int, my as int).1,
            updates == fused_rounds(cp0, pen, ev, precomp, f0, hist, nx, ny, nt, mx as int, my as int).2,
            updates <= iters * big_n,
        decreases max_iter - iters,
    {
        let ghost p = fused_rounds(cp0, pen, ev, precomp, f0, hist, nx, ny, nt, mx as int, my as int);
        proof {
            frontier.lemma_shape();
            lemma_count_empty2(frontier@, nx, ny);
            assert(exists|c: (int, int)| set_cells2(frontier@, nx, ny).contains(c)) by {
                if !(exists|c: (int, int)| set_cells2(frontier@, nx, ny).contains(c)) {
                    assert(set_cells2(frontier@, nx, ny) =~= Set::<(int, int)>::empty());
                }
            }
            let c = choose|c: (int, int)| set_cells2(frontier@, nx, ny).contains(c);
            assert(set_cells2(frontier@, nx, ny).contains(c));
        }
        let rev = iters % 2 == 1;
        let ghost r0 = iters as int;
        iters += 1;
        let candidates = frontier.dilate(mx as u32, my as u32);
        let cand = candidates.enumerate();
        let ghost cv = cand@;
        proof {
            assert(lists_cells2(cv, dilate_grid(p.1, nx, ny, mx as int, my as int), nx, ny));
            lemma_cells2_len(cv, dilate_grid(p.1, nx, ny, mx as int, my as int), nx, ny);
            assert((iters - 1) * big_n + big_n == iters * big_n) by (nonlinear_arith);
            assert(iters * big_n <= 0x8000_0000_0000_0000) by (nonlinear_arith)
                requires iters <= u32::MAX, big_n <= i32::MAX, 0 <= big_n;
            assert(cv.len() * nt <= big_n) by (nonlinear_arith) requires cv.len() <= nx * ny, big_n == nx * ny * nt, 0 <= nt;
            assert forall|i: int| 0 <= i < cv.len() implies (#[trigger] cv[i]).0 < nx && cv[i].1 < ny by {
                assert(set_cells2(dilate_grid(p.1, nx, ny, mx as int, my as int), nx, ny).contains((cv[i].0 as int, cv[i].1 as int)));
            }
        }
        let ghost ord = if rev { cv.reverse() } else { cv };
        let (next, u) = fused_pass(&mut f, &g, vi, &cand, rev);
        proof {
            let h2 = hist.push(ord);
            assert(h2.drop_last() =~= hist);
            assert forall|r: int| 0 <= r < h2.len() implies {
                let q = #[trigger] fused_rounds(cp0, pen, ev, precomp, f0, h2.take(r), nx, ny, nt, mx as int, my as int);
                &&& set_cells2(q.1, nx, ny) != Set::<(int, int)>::empty()
                &&& lists_cells2(if r % 2 == 0 { h2[r] } else { h2[r].reverse() }, dilate_grid(q.1, nx, ny, mx as int, my as int), nx, ny)
            } by {
                if r < hist.len() {
                    assert(h2.take(r) =~= hist.take(r));
                    assert(fused_rounds(cp0, pen, ev, precomp, f0, hist.take(r), nx, ny, nt, mx as int, my as int)
                        == fused_rounds(cp0, pen, ev, precomp, f0, h2.take(r), nx, ny, nt, mx as int, my as int));
                } else {
                    assert(h2.take(r) =~= hist);
                    assert(r == r0);
                    if rev {
                        assert(h2[r].reverse() =~= cv);
                    }
                }
            }
            hist = h2;
        }
        updates = updates + u;
        frontier = next;
    }
    let converged = frontier.popcount() == 0;
    proof {
        frontier.lemma_shape();
        lemma_count_empty2(frontier@, nx, ny);
    }
    let opt = final_policy_fused(vi, &g, &f, converged);
    write_back_fused(vi, &g, &f, &opt);
    let r = (iters, updates, converged);
    proof {
        assert(fused_async_result(s0, acts, nx, ny, nt, g, mt as int, cp0, pen, ev, hist, vi.states@, r.1, r.2));
        if agree_ok(s0, acts, nt) && r.2 {
            let gs = lemma_fused_greatest(s0, acts, nx, ny, nt, g, mt as int, cp0, pen, ev, hist, vi.states@, r.1);
            assert(settled_outcome(vi.states@, gs, s0, acts, nx, ny, nt));
        }
    }
    r
}

/// Under [`agree_ok`], no state below the start has a fused value equal to the
/// `UNREACHED` marker.
pub proof fn lemma_no_clash(s0: Seq<State>, acts: Seq<Action>, nt: int, st: Seq<State>)
    requires
        agree_ok(s0, acts, nt),
        below(s0, st),
    ensures
        no_marker_clash(st),
        forall|i: int| 0 <= i < st.len() ==> (#[trigger] st[i]).penalty + st[i].local_penalty <= COST_ROOM,
{
    lemma_pen_below(s0, st);
    let q = 2 * max_pen(s0);
    assert(q <= (s0.len() + 1) * q) by (nonlinear_arith) requires 0 <= q;
    assert(0 <= max_reached(s0));
    assert forall|i: int| 0 <= i < st.len() implies (#[trigger] st[i]).penalty + st[i].local_penalty <= COST_ROOM by {}
    assert forall|i: int| 0 <= i < st.len() && (#[trigger] st[i]).free && st[i].total_cost != MAX_COST
        implies u64_specs::wrapping_add(st[i].total_cost, pen_of(st[i])) != UNREACHED by {
        assert(st[i] == (State { total_cost: st[i].total_cost, ..s0[i] }));
        assert(s0[i].total_cost <= MAX_COST);
    }
}

/// The conditions under which the fused arrays follow the states of the
/// asynchronous rounds: [`agree_ok`], laid-out states and actions, and fused
/// arrays of `st` in geometry `g`, with `st` below `s0`.
pub open spec fn follows(s0: Seq<State>, acts: Seq<Action>, g: Geom, cp: Seq<u64>, pen: Seq<u64>, ev: Seq<bool>, st: Seq<State>) -> bool {
    &&& agree_ok(s0, acts, g.nt as int)
    &&& states_ok(s0, g.nx as int, g.ny as int, g.nt as int)
    &&& actions_ok(acts, g.nx as int, g.ny as int, g.nt as int)
    &&& g.wf(acts)
    &&& below(s0, st)
    &&& fused_match(cp, pen, ev, st, g)
}

/// The in-place lowering of the headings `0 .. k` of an in-grid column through
/// the fused arrays is the asynchronous column update of the states they hold.
pub proof fn lemma_fused_column(s0: Seq<State>, acts: Seq<Action>, g: Geom, cp: Seq<u64>, pen: Seq<u64>, ev: Seq<bool>,
    st: Seq<State>, c: (u32, u32), k: int)
    requires
        follows(s0, acts, g, cp, pen, ev, st),
        c.0 < g.nx,
        c.1 < g.ny,
        0 <= k <= g.nt,
    ensures
        ({
            let lf = lower_fused(cp, pen, ev, g.precomp@, pad_index(c.0 as int, c.1 as int, 0, g.nx as int, g.nt as int, g.mx as int, g.my as int), k);
            let gc = gs_column(st, acts, c, k, g.nx as int, g.ny as int, g.nt as int);
            &&& follows(s0, acts, g, lf.0, pen, ev, gc.0)
            &&& lf.1 == gc.1
        }),
    decreases k,
{
    if k > 0 {
        let nx = g.nx as int;
        let ny = g.ny as int;
        let nt = g.nt as int;
        let mx = g.mx as int;
        let my = g.my as int;
        let col = pad_index(c.0 as int, c.1 as int, 0, nx, nt, mx, my);
        lemma_fused_column(s0, acts, g, cp, pen, ev, st, c, k - 1);
        let lp = lower_fused(cp, pen, ev, g.precomp@, col, k - 1);
        let gp = gs_column(st, acts, c, k - 1, nx, ny, nt);
        let lf = lower_fused(cp, pen, ev, g.precomp@, col, k);
        let gc = gs_column(st, acts, c, k, nx, ny, nt);
        let t = k - 1;
        let j = col + t;
        let idx = index_of(c.0 as int, c.1 as int, t, nx, nt);
        assert(j == pad_index(c.0 as int, c.1 as int, t, nx, nt, mx, my));
        assert(in_box(g, c.0 as int, c.1 as int, t));
        lemma_pad_index(g, c.0 as int, c.1 as int, t, c.0 as int, c.1 as int, t);
        lemma_coords(s0, c.0 as int, c.1 as int, t, nx, ny, nt);
        lemma_below_ok(s0, gp.0, nx, ny, nt);
        lemma_no_clash(s0, acts, nt, gp.0);
        let x = gp.0[idx];
        assert(x == (State { total_cost: x.total_cost, ..s0[idx] }));
        assert(lp.0[j] == cp_of(x) && pen[j] == pen_of(x) && ev[j] == eval_of(x));
        let na = g.precomp@.len() as int;
        lemma_fused_best(gp.0, acts, g, lp.0, pen, ev, idx, na);
        assert(acts.take(na) =~= acts);
        let m = fused_best(lp.0, g.precomp@, t, col, na).0;
        assert(m == clamped_best(gp.0, acts, x, nx, ny, nt).0);
        assert(gc.0 == lower_at(gp.0, acts, idx, nx, ny, nt));
        if ev[j] {
            assert(x.total_cost <= MAX_COST) by {
                assert(s0[idx].total_cost <= MAX_COST);
            }
            let before = if lp.0[j] == UNREACHED { MAX_COST } else { u64_specs::wrapping_sub(lp.0[j], pen[j]) };
            assert(x.penalty + x.local_penalty <= COST_ROOM);
            assert(before == x.total_cost);
            if m < before {
                let x2 = State { total_cost: m, ..x };
                assert(gc.0 == gp.0.update(idx, x2));
                assert(lf.0 == lp.0.update(j, u64_specs::wrapping_add(m, pen[j])));
                assert(cp_of(x2) == u64_specs::wrapping_add(m, pen[j]));
                assert(below(s0, gc.0)) by {
                    assert forall|i: int| 0 <= i < s0.len() implies #[trigger] gc.0[i] == (State { total_cost: gc.0[i].total_cost, ..s0[i] })
                        && gc.0[i].total_cost <= s0[i].total_cost by {
                        assert(gp.0[i] == (State { total_cost: gp.0[i].total_cost, ..s0[i] }));
                    }
                }
                assert(fused_match(lf.0, pen, ev, gc.0, g)) by {
                    assert forall|x3: int, y3: int, t3: int| in_box(g, x3, y3, t3) implies {
                        let j3 = #[trigger] pad_index(x3, y3, t3, nx, nt, mx, my);
                        if 0 <= x3 < g.nx && 0 <= y3 < g.ny {
                            let s3 = gc.0[index_of(x3, y3, t3, nx, nt)];
                            &&& lf.0[j3] == cp_of(s3)
                            &&& pen[j3] == pen_of(s3)
                            &&& ev[j3] == eval_of(s3)
                        } else {
                            &&& lf.0[j3] == UNREACHED
                            &&& pen[j3] == 0
                            &&& !ev[j3]
                        }
                    } by {
                        let j3 = pad_index(x3, y3, t3, nx, nt, mx, my);
                        lemma_pad_index(g, x3, y3, t3, c.0 as int, c.1 as int, t);
                        if 0 <= x3 < g.nx && 0 <= y3 < g.ny {
                            lemma_coords(s0, x3, y3, t3, nx, ny, nt);
                            let i3 = index_of(x3, y3, t3, nx, nt);
                            if i3 == idx {
                                assert(s0[i3].ix == x3 && s0[i3].iy == y3 && s0[i3].it == t3);
                            }
                        }
                    }
                }
                assert(gc.0[idx].total_cost < gp.0[idx].total_cost);
            } else {
                assert(gc.0 == gp.0);
            }
        } else {
            assert(gc.0 == gp.0);
        }
    }
}

/// An asynchronous round over in-grid columns through the fused arrays is the
/// asynchronous round of the states they hold: the same next frontier and
/// the same count of lowered headings.
pub proof fn lemma_fused_round(s0: Seq<State>, acts: Seq<Action>, g: Geom, cp: Seq<u64>, pen: Seq<u64>, ev: Seq<bool>,
    st: Seq<State>, cells: Seq<(u32, u32)>)
    requires
        follows(s0, acts, g, cp, pen, ev, st),
        forall|j: int| 0 <= j < cells.len() ==> (#[trigger] cells[j]).0 < g.nx && cells[j].1 < g.ny,
    ensures
        ({
            let fr = fused_round(cp, pen, ev, g.precomp@, cells, g.nx as int, g.ny as int, g.nt as int, g.mx as int, g.my as int);
            let gr = gs_round(st, acts, cells, g.nx as int, g.ny as int, g.nt as int);
            &&& follows(s0, acts, g, fr.0, pen, ev, gr.0)
            &&& fr.1 == gr.1
            &&& fr.2 == gr.2
        }),
    decreases cells.len(),
{
    if cells.len() > 0 {
        let pc = cells.drop_last();
        assert forall|j: int| 0 <= j < pc.len() implies (#[trigger] pc[j]).0 < g.nx && pc[j].1 < g.ny by {
            assert(pc[j] == cells[j]);
        }
        lemma_fused_round(s0, acts, g, cp, pen, ev, st, pc);
        let fp = fused_round(cp, pen, ev, g.precomp@, pc, g.nx as int, g.ny as int, g.nt as int, g.mx as int, g.my as int);
        let gp = gs_round(st, acts, pc, g.nx as int, g.ny as int, g.nt as int);
        let c = cells.last();
        assert(c == cells[cells.len() - 1]);
        lemma_fused_column(s0, acts, g, fp.0, pen, ev, gp.0, c, g.nt as int);
    }
}

/// The asynchronous rounds of `hist` over in-grid columns through the fused
/// arrays are those of the states they hold.
pub proof fn lemma_fused_rounds(s0: Seq<State>, acts: Seq<Action>, g: Geom, cp0: Seq<u64>, pen: Seq<u64>, ev: Seq<bool>,
    f: Seq<Seq<bool>>, hist: Seq<Seq<(u32, u32)>>)
    requires
        follows(s0, acts, g, cp0, pen, ev, s0),
        hist_in_grid(hist, g.nx as int, g.ny as int),
    ensures
        ({
            let fr = fused_rounds(cp0, pen, ev, g.precomp@, f, hist, g.nx as int, g.ny as int, g.nt as int, g.mx as int, g.my as int);
            let gr = gs_rounds(s0, acts, f, hist, g.nx as int, g.ny as int, g.nt as int);
            &&& follows(s0, acts, g, fr.0, pen, ev, gr.0)
            &&& fr.1 == gr.1
            &&& fr.2 == gr.2
        }),
    decreases hist.len(),
{
    if hist.len() > 0 {
        let ph = hist.drop_last();
        assert(hist_in_grid(ph, g.nx as int, g.ny as int)) by {
            assert forall|r: int, j: int| 0 <= r < ph.len() && 0 <= j < ph[r].len() implies (#[trigger] ph[r][j]).0 < g.nx && ph[r][j].1 < g.ny by {
                assert(ph[r] == hist[r]);
            }
        }
        lemma_fused_rounds(s0, acts, g, cp0, pen, ev, f, ph);
        let fp = fused_rounds(cp0, pen, ev, g.precomp@, f, ph, g.nx as int, g.ny as int, g.nt as int, g.mx as int, g.my as int);
        let gp = gs_rounds(s0, acts, f, ph, g.nx as int, g.ny as int, g.nt as int);
        let cells = hist.last();
        assert forall|j: int| 0 <= j < cells.len() implies (#[trigger] cells[j]).0 < g.nx && cells[j].1 < g.ny by {
            assert(cells[j] == hist[hist.len() - 1][j]);
        }
        lemma_fused_round(s0, acts, g, fp.0, pen, ev, gp.0, cells);
    }
}

/// The clamped best action is `None` exactly when no action costs less than `MAX_COST`.
pub proof fn lemma_best_none(v: Seq<State>, acts: Seq<Action>, x: State, nx: int, ny: int, nt: int)
    ensures
        clamped_best(v, acts, x, nx, ny, nt).0 <= MAX_COST,
        (clamped_best(v, acts, x, nx, ny, nt).1 is None) == (clamped_best(v, acts, x, nx, ny, nt).0 == MAX_COST),
    decreases acts.len(),
{
    if acts.len() > 0 {
        lemma_best_none(v, acts.drop_last(), x, nx, ny, nt);
    }
}

/// A converged run of the asynchronous fused solver from a start meeting
/// [`agree_ok`] holds the greatest state `r` below the start that the clamped
/// update cannot lower: every free cell reached in `r` has its cost, every
/// other cell `MAX_COST`, and every free cell outside the goal the clamped
/// best action under `r`.
pub proof fn lemma_fused_greatest(s0: Seq<State>, acts: Seq<Action>, nx: int, ny: int, nt: int, g: Geom, mt: int,
    cp0: Seq<u64>, pen: Seq<u64>, ev: Seq<bool>, hist: Seq<Seq<(u32, u32)>>, s2: Seq<State>, updates: u64) -> (r: Seq<State>)
    requires
        fused_async_result(s0, acts, nx, ny, nt, g, mt, cp0, pen, ev, hist, s2, updates, true),
        agree_ok(s0, acts, nt),
        states_ok(s0, nx, ny, nt),
        actions_ok(acts, nx, ny, nt),
    ensures
        greatest_settled(r, s0, acts, nx, ny, nt),
        s2.len() == s0.len(),
        forall|k: int| 0 <= k < s0.len() ==> (#[trigger] s2[k]).total_cost
            == (if s0[k].free && r[k].total_cost != MAX_COST { r[k].total_cost } else { MAX_COST }),
        forall|k: int| 0 <= k < s0.len() ==> (#[trigger] s2[k]).optimal_action
            == (if updatable(r, k) { clamped_best(r, acts, r[k], nx, ny, nt).1 } else { None }),
{
    let mx = g.mx as int;
    let my = g.my as int;
    let m = (mx, my, mt);
    let f0 = seed_view2(s0, nx, ny, nt);
    let precomp = g.precomp@;
    let q = fused_rounds(cp0, pen, ev, precomp, f0, hist, nx, ny, nt, mx, my);
    assert(below(s0, s0));
    assert(follows(s0, acts, g, cp0, pen, ev, s0));
    assert(hist_in_grid(hist, nx, ny)) by {
        assert forall|r: int, j: int| 0 <= r < hist.len() && 0 <= j < hist[r].len()
            implies (#[trigger] hist[r][j]).0 < nx && hist[r][j].1 < ny by {
            let p = fused_rounds(cp0, pen, ev, precomp, f0, hist.take(r), nx, ny, nt, mx, my);
            let h = hist[r];
            if r % 2 == 0 {
                lemma_listed_ok(h, dilate_grid(p.1, nx, ny, mx, my), nx, ny);
            } else {
                lemma_listed_ok(h.reverse(), dilate_grid(p.1, nx, ny, mx, my), nx, ny);
                assert(h.reverse()[h.len() - 1 - j] == h[j]);
            }
        }
    }
    lemma_fused_rounds(s0, acts, g, cp0, pen, ev, f0, hist);
    let gr = gs_rounds(s0, acts, f0, hist, nx, ny, nt);
    let res = gr.0;
    assert(gs_run2(s0, acts, f0, hist, nx, ny, nt, m)) by {
        assert forall|r: int| 0 <= r < hist.len() implies {
            let p = #[trigger] gs_rounds(s0, acts, f0, hist.take(r), nx, ny, nt);
            &&& set_cells2(p.1, nx, ny) != Set::<(int, int)>::empty()
            &&& lists_cells2(if r % 2 == 0 { hist[r] } else { hist[r].reverse() }, dilate_grid(p.1, nx, ny, m.0, m.1), nx, ny)
        } by {
            let ht = hist.take(r);
            assert(hist_in_grid(ht, nx, ny)) by {
                assert forall|r2: int, j: int| 0 <= r2 < ht.len() && 0 <= j < ht[r2].len() implies (#[trigger] ht[r2][j]).0 < nx && ht[r2][j].1 < ny by {
                    assert(ht[r2] == hist[r2]);
                }
            }
            lemma_fused_rounds(s0, acts, g, cp0, pen, ev, f0, ht);
            let p = fused_rounds(cp0, pen, ev, precomp, f0, ht, nx, ny, nt, mx, my);
        }
    }
    lemma_gs_run_covers(s0, acts, hist, nx, ny, nt, m);
    lemma_empty_settles(res, acts, gr.1, nx, ny, nt, m);
    lemma_gs_rounds_inv(s0, acts, f0, hist, nx, ny, nt);
    assert(greatest_settled(res, s0, acts, nx, ny, nt));
    lemma_no_clash(s0, acts, nt, res);
    let na = acts.len() as int;
    assert forall|k: int| 0 <= k < s0.len() implies {
        &&& (#[trigger] s2[k]).total_cost == (if s0[k].free && res[k].total_cost != MAX_COST { res[k].total_cost } else { MAX_COST })
        &&& s2[k].optimal_action == (if updatable(res, k) { clamped_best(res, acts, res[k], nx, ny, nt).1 } else { None })
    } by {
        let x = s0[k];
        assert(in_grid(x, nx, ny, nt));
        lemma_coords(s0, x.ix as int, x.iy as int, x.it as int, nx, ny, nt);
        assert(index_of(x.ix as int, x.iy as int, x.it as int, nx, nt) == k);
        assert(in_box(g, x.ix as int, x.iy as int, x.it as int));
        let j = pad_of(x, g);
        let y = res[k];
        assert(y == (State { total_cost: y.total_cost, ..x }));
        assert(q.0[j] == cp_of(y) && pen[j] == pen_of(y) && ev[j] == eval_of(y));
        assert(y.total_cost <= MAX_COST) by {
            assert(x.total_cost <= MAX_COST);
        }
        assert(y.penalty + y.local_penalty <= COST_ROOM);
        lemma_below_ok(s0, res, nx, ny, nt);
        lemma_fused_best(res, acts, g, q.0, pen, ev, k, na);
        assert(acts.take(na) =~= acts);
        lemma_best_none(res, acts, y, nx, ny, nt);
        assert(!improvable(res, acts, k, nx, ny, nt));
    }
    res
}

/// One heading `t` of an in-grid column read through fused arrays that follow
/// `st`: the index of its state, whether it takes part in the update, the
/// value it stands for, and its least cost through the layout, which is its
/// clamped best cost; lowering it to that cost in place follows lowering the state.
pub proof fn lemma_lower_follows(s0: Seq<State>, acts: Seq<Action>, g: Geom, cp: Seq<u64>, pen: Seq<u64>, ev: Seq<bool>,
    st: Seq<State>, c: (u32, u32), t: int)
    requires
        follows(s0, acts, g, cp, pen, ev, st),
        c.0 < g.nx,
        c.1 < g.ny,
        0 <= t < g.nt,
    ensures
        ({
            let col = pad_index(c.0 as int, c.1 as int, 0, g.nx as int, g.nt as int, g.mx as int, g.my as int);
            let j = col + t;
            let idx = index_of(c.0 as int, c.1 as int, t, g.nx as int, g.nt as int);
            let m = fused_best(cp, g.precomp@, t, col, g.precomp@.len() as int).0;
            let before = if cp[j] == UNREACHED { MAX_COST } else { u64_specs::wrapping_sub(cp[j], pen[j]) };
            &&& 0 <= idx < st.len()
            &&& ev[j] == updatable(st, idx)
            &&& (ev[j] ==> before == st[idx].total_cost)
            &&& m == clamped_best(st, acts, st[idx], g.nx as int, g.ny as int, g.nt as int).0
            &&& (ev[j] && m < before ==> follows(s0, acts, g, cp.update(j, u64_specs::wrapping_add(m, pen[j])), pen, ev,
                st.update(idx, State { total_cost: m, ..st[idx] })))
        }),
{
    let nx = g.nx as int;
    let ny = g.ny as int;
    let nt = g.nt as int;
    let mx = g.mx as int;
    let my = g.my as int;
    let col = pad_index(c.0 as int, c.1 as int, 0, nx, nt, mx, my);
    let j = col + t;
    let idx = index_of(c.0 as int, c.1 as int, t, nx, nt);
    assert(j == pad_index(c.0 as int, c.1 as int, t, nx, nt, mx, my));
    assert(in_box(g, c.0 as int, c.1 as int, t));
    lemma_pad_index(g, c.0 as int, c.1 as int, t, c.0 as int, c.1 as int, t);
    lemma_coords(s0, c.0 as int, c.1 as int, t, nx, ny, nt);
    lemma_below_ok(s0, st, nx, ny, nt);
    lemma_no_clash(s0, acts, nt, st);
    let x = st[idx];
    assert(x == (State { total_cost: x.total_cost, ..s0[idx] }));
    assert(cp[j] == cp_of(x) && pen[j] == pen_of(x) && ev[j] == eval_of(x));
    let na = g.precomp@.len() as int;
    lemma_fused_best(st, acts, g, cp, pen, ev, idx, na);
    assert(acts.take(na) =~= acts);
    let m = fused_best(cp, g.precomp@, t, col, na).0;
    if ev[j] {
        assert(x.total_cost <= MAX_COST) by {
            assert(s0[idx].total_cost <= MAX_COST);
        }
        let before = if cp[j] == UNREACHED { MAX_COST } else { u64_specs::wrapping_sub(cp[j], pen[j]) };
        assert(x.penalty + x.local_penalty <= COST_ROOM);
        assert(before == x.total_cost);
        if m < before {
            let x2 = State { total_cost: m, ..x };
            let st2 = st.update(idx, x2);
            let cp2 = cp.update(j, u64_specs::wrapping_add(m, pen[j]));
            assert(cp_of(x2) == u64_specs::wrapping_add(m, pen[j]));
            assert(below(s0, st2)) by {
                assert forall|i: int| 0 <= i < s0.len() implies #[trigger] st2[i] == (State { total_cost: st2[i].total_cost, ..s0[i] })
                    && st2[i].total_cost <= s0[i].total_cost by {
                    assert(st[i] == (State { total_cost: st[i].total_cost, ..s0[i] }));
                }
            }
            assert(fused_match(cp2, pen, ev, st2, g)) by {
                assert forall|x3: int, y3: int, t3: int| in_box(g, x3, y3, t3) implies {
                    let j3 = #[trigger] pad_index(x3, y3, t3, nx, nt, mx, my);
                    if 0 <= x3 < g.nx && 0 <= y3 < g.ny {
                        let s3 = st2[index_of(x3, y3, t3, nx, nt)];
                        &&& cp2[j3] == cp_of(s3)
                        &&& pen[j3] == pen_of(s3)
                        &&& ev[j3] == eval_of(s3)
                    } else {
                        &&& cp2[j3] == UNREACHED
                        &&& pen[j3] == 0
                        &&& !ev[j3]
                    }
                } by {
                    lemma_pad_index(g, x3, y3, t3, c.0 as int, c.1 as int, t);
                    if 0 <= x3 < g.nx && 0 <= y3 < g.ny {
                        lemma_coords(s0, x3, y3, t3, nx, ny, nt);
                        let i3 = index_of(x3, y3, t3, nx, nt);
                        if i3 == idx {
                            assert(s0[i3].ix == x3 && s0[i3].iy == y3 && s0[i3].it == t3);
                        }
                    }
                }
            }
        }
    }
}

} // verus!
