//! Convergence of one value band of the out-of-core solver in deterministic
//! Jacobi rounds: each round first builds the windows of every frontier
//! column, then computes the update of every non-final frontier column from
//! the same snapshot of the block store, and only then writes the lowered
//! values and the column ranges.  The next frontier is the dilation of the
//! columns whose least value lies in the band, without the final columns.
use vstd::prelude::*;
use crate::reference::params::MAX_COST;
use crate::reference::state::{Action, State};
use crate::reference::value_iterator::{states_ok, actions_ok};
use crate::reference::solvers::fused::{Geom, pad_index, in_box, CpCells};
use crate::reference::solvers::compact::{BlockStore, ColResult, window, window_ready, window_built, column_ok,
    compute_column_jacobi, jacobi_updates, jacobi_range, lemma_cell_readable, ensure_window, relaxed, relax_all, col_range,
    relax_column};
use crate::reference::solvers::frontier::{set_cell2, lists_cells2};
use crate::reference::solvers::block::sat_u64;
use crate::bitboard::{Bitboard2D, fits2, empty_grid};
use crate::bitboard::grid::shape2;
use crate::bitboard::ops::dilate_grid;
use crate::bitboard::enumerate::{set_cells2, cell_before};

verus! {

/// Padded index of heading 0 of column `c`.
pub open spec fn col_base(c: (u32, u32), g: Geom) -> int {
    pad_index(c.0 as int, c.1 as int, 0, g.nx as int, g.nt as int, g.mx as int, g.my as int)
}

/// Index of column `c` in the per-column arrays.
pub open spec fn col_idx(c: (u32, u32), nx: int) -> int {
    c.1 as int * nx + c.0 as int
}

/// The stores of `chain` build, one column of `f` after the other, the
/// windows of the columns of `f`.
pub open spec fn windows_chain(chain: Seq<BlockStore>, states: Seq<State>, f: Seq<(u32, u32)>) -> bool {
    &&& chain.len() == f.len() + 1
    &&& forall|i: int| 0 <= i < f.len() ==> #[trigger] window_built(chain[i], chain[i + 1], states, f[i].1 as int)
}

/// `b` is `s` after the windows of the columns of `f` were built in turn.
pub open spec fn windows_done(s: BlockStore, b: BlockStore, states: Seq<State>, f: Seq<(u32, u32)>) -> bool {
    exists|chain: Seq<BlockStore>| windows_chain(chain, states, f) && chain[0] == s && chain[f.len() as int] == b
}

/// The lowered values of a Jacobi round read from `b` over the non-final
/// columns of `f`, in order: padded index and new fused value.
pub open spec fn round_ups(b: BlockStore, g: Geom, f: Seq<(u32, u32)>, cf: Seq<bool>) -> Seq<(usize, u64)>
    decreases f.len(),
{
    if f.len() == 0 {
        Seq::empty()
    } else {
        let p = round_ups(b, g, f.drop_last(), cf);
        let c = f.last();
        if cf[col_idx(c, g.nx as int)] {
            p
        } else {
            p + jacobi_updates(b.cps(), b.pens(), b.evals(), g.precomp@, col_base(c, g), g.nt as int)
        }
    }
}

/// `cps` with the values of `ups` written in order.
pub open spec fn write_ups(cps: Seq<u64>, ups: Seq<(usize, u64)>) -> Seq<u64>
    decreases ups.len(),
{
    if ups.len() == 0 {
        cps
    } else {
        write_ups(cps, ups.drop_last()).update(ups.last().0 as int, ups.last().1)
    }
}

/// The Jacobi range, read from `b`, of each non-final column of `f` written
/// into the least and greatest values `cmin`, `cmax`.
pub open spec fn round_ranges(b: BlockStore, g: Geom, f: Seq<(u32, u32)>, cf: Seq<bool>, cmin: Seq<u64>, cmax: Seq<u64>)
    -> (Seq<u64>, Seq<u64>)
    decreases f.len(),
{
    if f.len() == 0 {
        (cmin, cmax)
    } else {
        let p = round_ranges(b, g, f.drop_last(), cf, cmin, cmax);
        let c = f.last();
        let i = col_idx(c, g.nx as int);
        if cf[i] {
            p
        } else {
            let rg = jacobi_range(b.cps(), b.pens(), b.evals(), g.precomp@, col_base(c, g), g.nt as int);
            (p.0.update(i, rg.0), p.1.update(i, rg.1))
        }
    }
}

/// The reached flags and the list of live columns after a round read from `b`:
/// a non-final column of `f` with a reached value becomes reached and, the first
/// time, is added to the live list.
pub open spec fn round_reach(b: BlockStore, g: Geom, f: Seq<(u32, u32)>, cf: Seq<bool>, rc: Seq<bool>, lv: Seq<usize>)
    -> (Seq<bool>, Seq<usize>)
    decreases f.len(),
{
    if f.len() == 0 {
        (rc, lv)
    } else {
        let p = round_reach(b, g, f.drop_last(), cf, rc, lv);
        let c = f.last();
        let i = col_idx(c, g.nx as int);
        let rg = jacobi_range(b.cps(), b.pens(), b.evals(), g.precomp@, col_base(c, g), g.nt as int);
        if !cf[i] && rg.0 != MAX_COST && !p.0[i] {
            (p.0.update(i, true), p.1.push(i as usize))
        } else {
            p
        }
    }
}

/// The columns of a round read from `b` whose least value is reached and below `t`.
pub open spec fn round_grid(b: BlockStore, g: Geom, f: Seq<(u32, u32)>, cf: Seq<bool>, t: u64) -> Seq<Seq<bool>>
    decreases f.len(),
{
    if f.len() == 0 {
        empty_grid(g.nx as int, g.ny as int)
    } else {
        let p = round_grid(b, g, f.drop_last(), cf, t);
        let c = f.last();
        let rg = jacobi_range(b.cps(), b.pens(), b.evals(), g.precomp@, col_base(c, g), g.nt as int);
        if !cf[col_idx(c, g.nx as int)] && rg.0 != MAX_COST && rg.0 < t {
            set_cell2(p, c)
        } else {
            p
        }
    }
}

/// `s2` is `b` with the fused values `cps` and nothing else changed.
pub open spec fn written(b: BlockStore, s2: BlockStore, cps: Seq<u64>) -> bool {
    &&& s2.wf()
    &&& s2.same_frame(b)
    &&& s2.n_final@ == b.n_final@
    &&& s2.cps() == cps
    &&& s2.pens() == b.pens()
    &&& s2.evals() == b.evals()
    &&& s2.fins() == b.fins()
}

/// No block of the window of a non-final column is freed.
pub open spec fn live_windows(s: BlockStore, cf: Seq<bool>, nx: int, ny: int) -> bool {
    forall|i: int, k: int| #![trigger cf[i], s.evicted@[k]]
        0 <= i < nx * ny && !cf[i] && window(s, i / nx).0 <= k <= window(s, i / nx).1 ==> !s.evicted@[k]
}

/// Every lowered value of a column lies in one of the column's own cells.
proof fn lemma_updates_own(cps: Seq<u64>, pens: Seq<u64>, evals: Seq<bool>, precomp: Seq<Vec<Vec<(i64, u64)>>>, col: int, k: int)
    requires
        0 <= col,
        col + k <= usize::MAX,
    ensures
        forall|e: int| #![trigger jacobi_updates(cps, pens, evals, precomp, col, k)[e]]
            0 <= e < jacobi_updates(cps, pens, evals, precomp, col, k).len() ==>
            col <= jacobi_updates(cps, pens, evals, precomp, col, k)[e].0 < col + k,
    decreases k,
{
    if k > 0 {
        lemma_updates_own(cps, pens, evals, precomp, col, k - 1);
        let p = jacobi_updates(cps, pens, evals, precomp, col, k - 1);
        let q = jacobi_updates(cps, pens, evals, precomp, col, k);
        assert forall|e: int| 0 <= e < q.len() implies col <= (#[trigger] q[e]).0 < col + k by {
            if e < p.len() {
                assert(q[e] == p[e]);
            } else {
                assert(q[e].0 == col + k - 1);
            }
        }
    }
}

/// Writing two lists in turn is writing their concatenation.
proof fn lemma_write_concat(cps: Seq<u64>, a: Seq<(usize, u64)>, b: Seq<(usize, u64)>)
    ensures
        write_ups(cps, a + b) == write_ups(write_ups(cps, a), b),
    decreases b.len(),
{
    if b.len() == 0 {
        assert(a + b =~= a);
    } else {
        lemma_write_concat(cps, a, b.drop_last());
        assert((a + b).drop_last() =~= a + b.drop_last());
        assert((a + b).last() == b.last());
    }
}

/// The count of lowered values of a round is at most one per heading of each column.
proof fn lemma_round_ups_len(b: BlockStore, g: Geom, f: Seq<(u32, u32)>, cf: Seq<bool>)
    requires
        0 <= g.nt,
    ensures
        round_ups(b, g, f, cf).len() <= f.len() * g.nt,
    decreases f.len(),
{
    if f.len() > 0 {
        lemma_round_ups_len(b, g, f.drop_last(), cf);
        lemma_updates_len(b.cps(), b.pens(), b.evals(), g.precomp@, col_base(f.last(), g), g.nt as int);
        assert((f.len() - 1) * g.nt + g.nt == f.len() * g.nt) by (nonlinear_arith);
    }
}

proof fn lemma_updates_len(cps: Seq<u64>, pens: Seq<u64>, evals: Seq<bool>, precomp: Seq<Vec<Vec<(i64, u64)>>>, col: int, k: int)
    requires
        0 <= k,
    ensures
        jacobi_updates(cps, pens, evals, precomp, col, k).len() <= k,
    decreases k,
{
    if k > 0 {
        lemma_updates_len(cps, pens, evals, precomp, col, k - 1);
    }
}

/// Column `c` of an `nx`-wide grid has index `c.1 * nx + c.0`, and row `c.1`.
proof fn lemma_col_idx(c: (u32, u32), nx: int, ny: int)
    requires
        c.0 < nx,
        c.1 < ny,
    ensures
        0 <= col_idx(c, nx) < nx * ny,
        col_idx(c, nx) / nx == c.1,
{
    assert(c.1 * nx + c.0 < nx * ny) by (nonlinear_arith) requires c.0 < nx, c.1 < ny, 0 <= c.0, 0 <= c.1;
    assert(0 <= c.1 * nx) by (nonlinear_arith) requires 0 <= c.1, 0 <= nx;
    vstd::arithmetic::div_mod::lemma_fundamental_div_mod_converse(c.1 * nx + c.0, nx, c.1 as int, c.0 as int);
}

/// One Jacobi round of the band over `frontier`: builds the windows of every
/// frontier column, computes the update of every non-final one from the store
/// as it then is, and writes the lowered values, the column ranges and the
/// reached and live columns.  Gives the columns whose least value is reached
/// and below `t`, and how many values fell.
pub fn band_round(store: &mut BlockStore, g: &Geom, states: &Vec<State>, t: u64, frontier: &Vec<(u32, u32)>,
    col_min: &mut Vec<u64>, col_max: &mut Vec<u64>, col_final: &Vec<bool>, reached: &mut Vec<bool>,
    live: &mut Vec<usize>) -> (r: (Bitboard2D, u64))
    requires
        old(store).wf(),
        old(store).laid_out(*g),
        exists|acts: Seq<Action>| g.wf(acts) && actions_ok(acts, g.nx as int, g.ny as int, g.nt as int),
        states_ok(states@, g.nx as int, g.ny as int, g.nt as int),
        fits2(g.nx as u32, g.ny as u32),
        forall|i: int| 0 <= i < frontier@.len() ==> (#[trigger] frontier@[i]).0 < g.nx && frontier@[i].1 < g.ny,
        frontier@.len() <= g.nx * g.ny,
        old(col_min)@.len() == g.nx * g.ny,
        old(col_max)@.len() == g.nx * g.ny,
        old(reached)@.len() == g.nx * g.ny,
        col_final@.len() == g.nx * g.ny,
        live_windows(*old(store), col_final@, g.nx as int, g.ny as int),
    ensures
        exists|b: BlockStore| #[trigger] windows_done(*old(store), b, states@, frontier@) && {
            let ups = round_ups(b, *g, frontier@, col_final@);
            &&& written(b, *final(store), write_ups(b.cps(), ups))
            &&& (final(col_min)@, final(col_max)@) == round_ranges(b, *g, frontier@, col_final@, old(col_min)@, old(col_max)@)
            &&& (final(reached)@, final(live)@) == round_reach(b, *g, frontier@, col_final@, old(reached)@, old(live)@)
            &&& r.0@ == round_grid(b, *g, frontier@, col_final@, t)
            &&& r.1 == ups.len()
        },
        final(store).wf(),
        final(store).laid_out(*g),
        final(store).evicted@ == old(store).evicted@,
        final(store).blocks@.len() == old(store).blocks@.len(),
        live_windows(*final(store), col_final@, g.nx as int, g.ny as int),
        final(col_min)@.len() == g.nx * g.ny,
        final(col_max)@.len() == g.nx * g.ny,
        final(reached)@.len() == g.nx * g.ny,
        r.0.wf(),
        r.0.width() == g.nx,
        r.0.height() == g.ny,
{
    let ghost s0 = *store;
    let ghost nx = g.nx as int;
    let ghost ny = g.ny as int;
    let ghost nt = g.nt as int;
    let ghost fv = frontier@;
    let ghost cf = col_final@;
    let ghost acts = choose|acts: Seq<Action>| g.wf(acts) && actions_ok(acts, g.nx as int, g.ny as int, g.nt as int);
    let ghost mut chain: Seq<BlockStore> = seq![s0];
    let n = frontier.len();
    let cf_len = col_final.len();
    proof {
        assert(fv.take(0) =~= Seq::<(u32, u32)>::empty());
        assert(nx * ny * nt <= s0.n_pad) by (nonlinear_arith)
            requires s0.n_pad == s0.row_stride * (s0.ny + 2 * s0.my), s0.row_stride == s0.nt * (s0.nx + 2 * s0.mx),
                nx == s0.nx, ny == s0.ny, nt == s0.nt, 0 <= nx, 0 <= ny, 1 <= nt, 1 <= s0.mx, 1 <= s0.my;
        assert(s0.n_pad <= 0x7fff_ffff * 0x7fff_ffff) by (nonlinear_arith)
            requires s0.n_pad == s0.row_stride * (s0.ny + 2 * s0.my), 0 <= s0.row_stride <= 0x7fff_ffff,
                0 <= s0.ny + 2 * s0.my <= 0x7fff_ffff;
        assert(n * nt <= nx * ny * nt) by (nonlinear_arith) requires n <= nx * ny, 0 <= nt;
    }
    let mut i: usize = 0;
    while i < n
        invariant
            0 <= i <= n,
            n == fv.len(),
            fv == frontier@,
            cf == col_final@,
            cf_len == cf.len(),
            nx == g.nx,
            ny == g.ny,
            nt == g.nt,
            forall|j: int| 0 <= j < fv.len() ==> (#[trigger] fv[j]).0 < nx && fv[j].1 < ny,
            cf.len() == nx * ny,
            states_ok(states@, nx, ny, nt),
            live_windows(s0, cf, nx, ny),
            windows_chain(chain, states@, fv.take(i as int)),
            chain[0] == s0,
            chain[i as int] == *store,
            store.wf(),
            store.laid_out(*g),
            store.evicted@ == s0.evicted@,
            store.blocks@.len() == s0.blocks@.len(),
            store.my == s0.my,
            forall|j: int| 0 <= j < i && !cf[col_idx(fv[j], nx)] ==> window_ready(*store, #[trigger] fv[j].1 as int),
        decreases n - i,
    {
        let c = frontier[i];
        let ghost prev = *store;
        ensure_window(store, c.0 as i32, c.1 as i32, states);
        proof {
            assert(window_built(prev, *store, states@, c.1 as int));
            assert forall|j: int| 0 <= j < i + 1 && !cf[col_idx(fv[j], nx)] implies window_ready(*store, #[trigger] fv[j].1 as int) by {
                let y = fv[j].1 as int;
                assert(window(*store, y) == window(prev, y));
                assert forall|k: int| window(*store, y).0 <= k <= window(*store, y).1 implies #[trigger] store.allocated(k) by {
                    assert(0 <= k < prev.blocks@.len()) by {
                        assert(0 <= y / 8);
                    }
                    if j < i {
                        assert(window_ready(prev, y));
                        assert(prev.allocated(k));
                    } else {
                        assert(fv[j] == c);
                        if !prev.allocated(k) {
                            lemma_col_idx(c, nx, ny);
                            let ci = col_idx(c, nx);
                            assert(window(s0, ci / nx) == window(prev, y));
                            assert(!s0.evicted@[k]);
                        }
                    }
                }
            }
            let c2 = chain.push(*store);
            assert(fv.take(i + 1).drop_last() =~= fv.take(i as int));
            assert forall|j: int| 0 <= j < i + 1 implies #[trigger] window_built(c2[j], c2[j + 1], states@, fv.take(i + 1)[j].1 as int) by {
                if j < i {
                    assert(window_built(chain[j], chain[j + 1], states@, fv.take(i as int)[j].1 as int));
                }
            }
            chain = c2;
        }
        i += 1;
    }
    let ghost b = *store;
    proof {
        assert(fv.take(n as int) =~= fv);
    }
    let mut results: Vec<Option<ColResult>> = Vec::new();
    let mut i: usize = 0;
    while i < n
        invariant
            0 <= i <= n,
            n == fv.len(),
            fv == frontier@,
            cf == col_final@,
            cf_len == cf.len(),
            nx == g.nx,
            ny == g.ny,
            nt == g.nt,
            *store == b,
            b.wf(),
            b.laid_out(*g),
            g.wf(acts),
            actions_ok(acts, nx, ny, nt),
            forall|j: int| 0 <= j < fv.len() ==> (#[trigger] fv[j]).0 < nx && fv[j].1 < ny,
            cf.len() == nx * ny,
            forall|j: int| 0 <= j < n && !cf[col_idx(fv[j], nx)] ==> window_ready(b, #[trigger] fv[j].1 as int),
            results@.len() == i,
            forall|j: int| 0 <= j < i ==> ((#[trigger] results@[j]) is None <==> cf[col_idx(fv[j], nx)]),
            forall|j: int| 0 <= j < i ==> ((#[trigger] results@[j]) matches Some(res) ==> ({
                let col = col_base(fv[j], *g);
                let rg = jacobi_range(b.cps(), b.pens(), b.evals(), g.precomp@, col, nt);
                &&& res.updates@ == jacobi_updates(b.cps(), b.pens(), b.evals(), g.precomp@, col, nt)
                &&& res.mn == rg.0
                &&& res.mx == rg.1
            })),
        decreases n - i,
    {
        let c = frontier[i];
        proof {
            lemma_col_idx(c, nx, ny);
            assert(fv[i as int] == c);
        }
        proof {
            assert((c.1 as int) * nx + (c.0 as int) < cf_len);
            assert(0 <= (c.1 as int) * nx) by (nonlinear_arith) requires 0 <= c.1, 0 <= nx;
        }
        let ci = (c.1 as usize) * (g.nx as usize) + c.0 as usize;
        if col_final[ci] {
            results.push(None);
        } else {
            proof {
                assert(column_ok(*store, *g, acts, c.0 as int, c.1 as int));
                assert(window_ready(b, fv[i as int].1 as int));
            }
            let res = compute_column_jacobi(store, g, c.0 as i32, c.1 as i32);
            results.push(Some(res));
        }
        proof {
            assert forall|j: int| 0 <= j < i + 1 implies ((#[trigger] results@[j]) is None <==> cf[col_idx(fv[j], nx)]) by {}
        }
        i += 1;
    }
    let mut grid = Bitboard2D::new(g.nx as u32, g.ny as u32);
    let mut count: u64 = 0;
    let ghost cmin0 = col_min@;
    let ghost cmax0 = col_max@;
    let ghost rc0 = reached@;
    let ghost lv0 = live@;
    let mut i: usize = 0;
    while i < n
        invariant
            0 <= i <= n,
            n == fv.len(),
            fv == frontier@,
            cf == col_final@,
            cf_len == cf.len(),
            nx == g.nx,
            ny == g.ny,
            nt == g.nt,
            1 <= nt,
            b.wf(),
            b.laid_out(*g),
            forall|j: int| 0 <= j < fv.len() ==> (#[trigger] fv[j]).0 < nx && fv[j].1 < ny,
            cf.len() == nx * ny,
            forall|j: int| 0 <= j < n && !cf[col_idx(fv[j], nx)] ==> window_ready(b, #[trigger] fv[j].1 as int),
            results@.len() == n,
            forall|j: int| 0 <= j < n ==> ((#[trigger] results@[j]) is None <==> cf[col_idx(fv[j], nx)]),
            forall|j: int| 0 <= j < n ==> ((#[trigger] results@[j]) matches Some(res) ==> ({
                let col = col_base(fv[j], *g);
                let rg = jacobi_range(b.cps(), b.pens(), b.evals(), g.precomp@, col, nt);
                &&& res.updates@ == jacobi_updates(b.cps(), b.pens(), b.evals(), g.precomp@, col, nt)
                &&& res.mn == rg.0
                &&& res.mx == rg.1
            })),
            written(b, *store, write_ups(b.cps(), round_ups(b, *g, fv.take(i as int), cf))),
            (col_min@, col_max@) == round_ranges(b, *g, fv.take(i as int), cf, cmin0, cmax0),
            (reached@, live@) == round_reach(b, *g, fv.take(i as int), cf, rc0, lv0),
            grid@ == round_grid(b, *g, fv.take(i as int), cf, t),
            grid.wf(),
            grid.width() == nx,
            grid.height() == ny,
            count == round_ups(b, *g, fv.take(i as int), cf).len(),
            col_min@.len() == nx * ny,
            col_max@.len() == nx * ny,
            reached@.len() == nx * ny,
            cmin0.len() == nx * ny,
            cmax0.len() == nx * ny,
            rc0.len() == nx * ny,
            n * nt <= 0x7fff_ffff * 0x7fff_ffff,
        decreases n - i,
    {
        let c = frontier[i];
        let ghost fi = fv.take(i as int);
        let ghost base = round_ups(b, *g, fi, cf);
        proof {
            lemma_col_idx(c, nx, ny);
            assert(fv[i as int] == c);
            assert(fv.take(i + 1).drop_last() =~= fi);
            assert(fv.take(i + 1).last() == c);
            lemma_round_ups_len(b, *g, fi, cf);
            lemma_round_ups_len(b, *g, fv.take(i + 1), cf);
            assert(fi.len() * nt <= n * nt) by (nonlinear_arith) requires fi.len() <= n, 0 <= nt;
            assert((i + 1) * nt <= n * nt) by (nonlinear_arith) requires i + 1 <= n, 0 <= nt;
        }
        proof {
            assert((c.1 as int) * nx + (c.0 as int) < cf_len);
            assert(0 <= (c.1 as int) * nx) by (nonlinear_arith) requires 0 <= c.1, 0 <= nx;
        }
        let ci = (c.1 as usize) * (g.nx as usize) + c.0 as usize;
        match &results[i] {
            None => {},
            Some(res) => {
                let ghost col = col_base(c, *g);
                let ghost ups_c = res.updates@;
                proof {
                    assert(results@[i as int] matches Some(r2) && r2.updates@ == ups_c);
                    assert(!cf[col_idx(c, nx)]);
                    assert(window_ready(b, c.1 as int));
                    lemma_pad_index_base(*g, c);
                    lemma_cell_readable(b, *g, c.1 as int, c.0 as int, c.1 as int, 0);
                    lemma_cell_readable(b, *g, c.1 as int, c.0 as int, c.1 as int, nt - 1);
                    assert(pad_index(c.0 as int, c.1 as int, nt - 1, nx, nt, g.mx as int, g.my as int) == col + nt - 1);
                    lemma_updates_own(b.cps(), b.pens(), b.evals(), g.precomp@, col, nt);
                    lemma_write_concat(b.cps(), base, ups_c);
                }
                col_min.set(ci, res.mn);
                col_max.set(ci, res.mx);
                if res.mn != MAX_COST && !reached[ci] {
                    reached.set(ci, true);
                    live.push(ci);
                }
                let mut k: usize = 0;
                while k < res.updates.len()
                    invariant
                        0 <= k <= ups_c.len(),
                        ups_c == res.updates@,
                        b.wf(),
                        b.laid_out(*g),
                        window_ready(b, c.1 as int),
                        c.0 < nx,
                        c.1 < ny,
                        nx == g.nx,
                        ny == g.ny,
                        nt == g.nt,
                        0 <= col,
                        col == pad_index(c.0 as int, c.1 as int, 0, nx, nt, g.mx as int, g.my as int),
                        forall|e: int| 0 <= e < ups_c.len() ==> col <= (#[trigger] ups_c[e]).0 < col + nt,
                        written(b, *store, write_ups(write_ups(b.cps(), base), ups_c.take(k as int))),
                        count == base.len() + k,
                        base.len() + ups_c.len() <= 0x7fff_ffff * 0x7fff_ffff,
                    decreases ups_c.len() - k,
                {
                    let (pi, v) = res.updates[k];
                    proof {
                        assert(ups_c[k as int] == (pi, v));
                        let tt = pi - col;
                        lemma_cell_readable(b, *g, c.1 as int, c.0 as int, c.1 as int, tt);
                        assert(pad_index(c.0 as int, c.1 as int, tt, nx, nt, g.mx as int, g.my as int) == pi);
                        assert(store.allocated(store.block_of(pi as int))) by {
                            let kb = b.block_of(pi as int);
                            assert(b.readable(pi as int));
                            assert(b.allocated(kb));
                            assert(pi < b.n_pad);
                            assert(b.n_pad <= b.blocks@.len() * b.chunk);
                            assert(b.chunk * b.blocks@.len() == b.blocks@.len() * b.chunk) by (nonlinear_arith);
                            assert(pi < b.chunk * b.blocks@.len());
                            vstd::arithmetic::div_mod::lemma_multiply_divide_lt(pi as int, b.chunk as int, b.blocks@.len() as int);
                            assert(0 <= kb < b.blocks@.len());
                            assert(store.block_of(pi as int) == kb);
                            assert(store.allocated(kb) == b.allocated(kb));
                        }
                        assert(ups_c.take(k + 1).drop_last() =~= ups_c.take(k as int));
                        assert(ups_c.take(k + 1).last() == (pi, v));
                    }
                    store.set_cp(pi, v);
                    count += 1;
                    k += 1;
                }
                proof {
                    assert(ups_c.take(ups_c.len() as int) =~= ups_c);
                }
                if res.mn != MAX_COST && res.mn < t {
                    grid.set(c.0, c.1);
                }
            },
        }
        proof {
            assert(fv.take(i + 1).drop_last() =~= fi);
        }
        i += 1;
    }
    proof {
        assert(fv.take(n as int) =~= fv);
        assert(windows_chain(chain, states@, fv) && chain[0] == s0 && chain[fv.len() as int] == b);
        assert(windows_done(s0, b, states@, fv));
        assert forall|i2: int, k: int| #![trigger cf[i2], store.evicted@[k]]
            0 <= i2 < nx * ny && !cf[i2] && window(*store, i2 / nx).0 <= k <= window(*store, i2 / nx).1 implies !store.evicted@[k] by {
            assert(window(*store, i2 / nx) == window(s0, i2 / nx));
            assert(!s0.evicted@[k]);
        }
    }
    (grid, count)
}

/// The padded index of heading 0 of an in-grid column is the column's base.
proof fn lemma_pad_index_base(g: Geom, c: (u32, u32))
    ensures
        col_base(c, g) == pad_index(c.0 as int, c.1 as int, 0, g.nx as int, g.nt as int, g.mx as int, g.my as int),
{
}

/// The grid `v` with the cells of final columns cleared.
pub open spec fn unfinal(v: Seq<Seq<bool>>, cf: Seq<bool>, nx: int, ny: int) -> Seq<Seq<bool>> {
    Seq::new(ny as nat, |y: int| Seq::new(nx as nat, |x: int| v[y][x] && !cf[y * nx + x]))
}

/// The per-column arrays of the band: least and greatest values, reached
/// flags, and the live columns.
pub type ColArrays = (Seq<u64>, Seq<u64>, Seq<bool>, Seq<usize>);

/// One round of the band from store `s` and arrays `a0` over frontier `f`
/// ended in store `s2` and arrays `a1`, with the in-band columns `grid` and
/// `cnt` lowered values; see [`band_round`].
pub open spec fn band_step(s: BlockStore, s2: BlockStore, states: Seq<State>, g: Geom, f: Seq<(u32, u32)>, cf: Seq<bool>,
    t: u64, a0: ColArrays, a1: ColArrays, grid: Seq<Seq<bool>>, cnt: nat) -> bool {
    exists|b: BlockStore| #[trigger] windows_done(s, b, states, f) && {
        let ups = round_ups(b, g, f, cf);
        &&& written(b, s2, write_ups(b.cps(), ups))
        &&& (a1.0, a1.1) == round_ranges(b, g, f, cf, a0.0, a0.1)
        &&& (a1.2, a1.3) == round_reach(b, g, f, cf, a0.2, a0.3)
        &&& grid == round_grid(b, g, f, cf, t)
        &&& cnt == ups.len()
    }
}

/// One column of an in-place round: a final column is skipped; any other has
/// its window built (`s` to some `s1`) and is relaxed in place, `cnt` values falling.
pub open spec fn serial_col(s: BlockStore, s2: BlockStore, cnt: nat, states: Seq<State>, g: Geom, c: (u32, u32), cf: Seq<bool>) -> bool {
    if cf[col_idx(c, g.nx as int)] {
        s2 == s && cnt == 0
    } else {
        exists|s1: BlockStore| #[trigger] window_built(s, s1, states, c.1 as int)
            && relaxed(s1, s2, g.precomp@, col_base(c, g), g.nt as int)
            && cnt == relax_all(s1.cps(), s1.pens(), s1.evals(), g.precomp@, col_base(c, g), g.nt as int).1
    }
}

/// The stores of `chain` relax the columns of `f` in place, one after the
/// other, `counts` values falling in each.
pub open spec fn serial_chain(chain: Seq<BlockStore>, counts: Seq<nat>, states: Seq<State>, g: Geom, f: Seq<(u32, u32)>,
    cf: Seq<bool>) -> bool {
    &&& chain.len() == f.len() + 1
    &&& counts.len() == f.len()
    &&& forall|i: int| 0 <= i < f.len() ==> #[trigger] serial_col(chain[i], chain[i + 1], counts[i], states, g, f[i], cf)
}

/// The bookkeeping of the first `k` columns of an in-place round: each
/// non-final column takes the range of its values right after its update.
pub open spec fn serial_marks(chain: Seq<BlockStore>, counts: Seq<nat>, g: Geom, f: Seq<(u32, u32)>, cf: Seq<bool>, t: u64,
    a0: ColArrays, k: int) -> (ColArrays, Seq<Seq<bool>>, nat)
    decreases k,
{
    if k <= 0 {
        (a0, empty_grid(g.nx as int, g.ny as int), 0)
    } else {
        let p = serial_marks(chain, counts, g, f, cf, t, a0, k - 1);
        let c = f[k - 1];
        let i = col_idx(c, g.nx as int);
        if cf[i] {
            p
        } else {
            let rg = col_range(chain[k].cps(), chain[k].pens(), col_base(c, g), g.nt as int);
            let a = p.0;
            let newly = rg.0 != MAX_COST && !a.2[i];
            ((a.0.update(i, rg.0), a.1.update(i, rg.1), if newly { a.2.update(i, true) } else { a.2 },
                if newly { a.3.push(i as usize) } else { a.3 }),
                if rg.0 != MAX_COST && rg.0 < t { set_cell2(p.1, c) } else { p.1 },
                p.2 + counts[k - 1])
        }
    }
}

/// One in-place (Gauss–Seidel) round of the band from store `s` and arrays
/// `a0` over frontier `f` ended in store `s2` and arrays `a1`, with the
/// in-band columns `grid` and `cnt` lowered values; see [`band_round_serial`].
pub open spec fn serial_step(s: BlockStore, s2: BlockStore, states: Seq<State>, g: Geom, f: Seq<(u32, u32)>, cf: Seq<bool>,
    t: u64, a0: ColArrays, a1: ColArrays, grid: Seq<Seq<bool>>, cnt: nat) -> bool {
    exists|chain: Seq<BlockStore>, counts: Seq<nat>| #[trigger] serial_chain(chain, counts, states, g, f, cf)
        && chain[0] == s && chain[f.len() as int] == s2
        && serial_marks(chain, counts, g, f, cf, t, a0, f.len() as int) == (a1, grid, cnt)
}

/// A round of the band: in place when `serial`, else in Jacobi form.
pub open spec fn run_step(serial: bool, s: BlockStore, s2: BlockStore, states: Seq<State>, g: Geom, f: Seq<(u32, u32)>,
    cf: Seq<bool>, t: u64, a0: ColArrays, a1: ColArrays, grid: Seq<Seq<bool>>, cnt: nat) -> bool {
    if serial {
        serial_step(s, s2, states, g, f, cf, t, a0, a1, grid, cnt)
    } else {
        band_step(s, s2, states, g, f, cf, t, a0, a1, grid, cnt)
    }
}

/// Lowered values over the rounds of `hist`.
pub open spec fn hist_count(hist: Seq<(Seq<(u32, u32)>, BlockStore, ColArrays, Seq<Seq<bool>>, nat)>) -> nat
    decreases hist.len(),
{
    if hist.len() == 0 {
        0
    } else {
        hist_count(hist.drop_last()) + hist.last().4
    }
}

/// `hist` is a run of the band from store `s0`, arrays `a0` and frontier `f0`:
/// each entry holds a round's frontier, the store and arrays after it, its
/// in-band columns and how many values fell; the first round takes `f0`, and
/// each later one the in-band columns of the round before dilated by
/// `(dx, dy)`, without the final columns, in storage order.  Rounds are in
/// place when `serial` and in Jacobi form otherwise.
#[verifier::opaque]
pub open spec fn band_run(s0: BlockStore, a0: ColArrays, f0: Seq<(u32, u32)>,
    hist: Seq<(Seq<(u32, u32)>, BlockStore, ColArrays, Seq<Seq<bool>>, nat)>, states: Seq<State>, g: Geom, cf: Seq<bool>,
    t: u64, dx: int, dy: int, serial: bool) -> bool {
    forall|r: int| 0 <= r < hist.len() ==> {
        let pre_s = if r == 0 { s0 } else { hist[r - 1].1 };
        let pre_a = if r == 0 { a0 } else { hist[r - 1].2 };
        &&& (if r == 0 { (#[trigger] hist[r]).0 == f0 } else {
            lists_cells2(hist[r].0, unfinal(dilate_grid(hist[r - 1].3, g.nx as int, g.ny as int, dx, dy), cf, g.nx as int, g.ny as int),
                g.nx as int, g.ny as int)
        })
        &&& run_step(serial, pre_s, hist[r].1, states, g, hist[r].0, cf, t, pre_a, hist[r].2, hist[r].3, hist[r].4)
    }
}

/// The listed cells of `v` that are not final, in the same order.
pub fn drop_final(cand: &Vec<(u32, u32)>, col_final: &Vec<bool>, nx: i32, ny: i32, Ghost(v): Ghost<Seq<Seq<bool>>>)
    -> (r: Vec<(u32, u32)>)
    requires
        lists_cells2(cand@, v, nx as int, ny as int),
        col_final@.len() == nx * ny,
        0 <= nx,
        0 <= ny,
    ensures
        lists_cells2(r@, unfinal(v, col_final@, nx as int, ny as int), nx as int, ny as int),
        r@.len() <= cand@.len(),
{
    let ghost cv = cand@;
    let ghost cf = col_final@;
    let ghost u = unfinal(v, cf, nx as int, ny as int);
    let cf_len = col_final.len();
    let mut out: Vec<(u32, u32)> = Vec::new();
    let ghost mut idx: Seq<int> = Seq::empty();
    let mut k: usize = 0;
    while k < cand.len()
        invariant
            0 <= k <= cv.len(),
            cv == cand@,
            cf == col_final@,
            cf.len() == nx * ny,
            cf_len == cf.len(),
            0 <= nx,
            0 <= ny,
            lists_cells2(cv, v, nx as int, ny as int),
            u == unfinal(v, cf, nx as int, ny as int),
            idx.len() == out@.len(),
            out@.len() <= k,
            forall|i: int| 0 <= i < idx.len() ==> 0 <= #[trigger] idx[i] < k && out@[i] == cv[idx[i]],
            forall|i: int, j: int| 0 <= i < j < idx.len() ==> #[trigger] idx[i] < #[trigger] idx[j],
            forall|i: int| 0 <= i < out@.len() ==> !cf[(#[trigger] out@[i]).1 * nx + out@[i].0],
            forall|j: int| 0 <= j < k && !cf[(#[trigger] cv[j]).1 * nx + cv[j].0] ==> exists|i: int| 0 <= i < out@.len() && out@[i] == cv[j],
        decreases cv.len() - k,
    {
        let c = cand[k];
        proof {
            assert(set_cells2(v, nx as int, ny as int).contains((cv[k as int].0 as int, cv[k as int].1 as int)));
            assert((c.1 as int) * nx + (c.0 as int) < nx * ny) by (nonlinear_arith)
                requires (c.0 as int) < nx, (c.1 as int) < ny, 0 <= c.0, 0 <= c.1;
            assert(0 <= (c.1 as int) * nx) by (nonlinear_arith) requires 0 <= c.1, 0 <= nx;
        }
        let ci = (c.1 as usize) * (nx as usize) + c.0 as usize;
        let ghost old_out = out@;
        if !col_final[ci] {
            out.push(c);
            proof {
                idx = idx.push(k as int);
                assert(out@.last() == cv[k as int]);
            }
        }
        proof {
            assert forall|j: int| 0 <= j < k + 1 && !cf[(#[trigger] cv[j]).1 * nx + cv[j].0]
                implies exists|i: int| 0 <= i < out@.len() && out@[i] == cv[j] by {
                if j < k {
                    let i = choose|i: int| 0 <= i < old_out.len() && old_out[i] == cv[j];
                    assert(out@[i] == old_out[i]);
                } else {
                    assert(cv[j] == c);
                    assert(out@[out@.len() - 1] == cv[j]);
                }
            }
        }
        k += 1;
    }
    proof {
        assert forall|i: int| 0 <= i < out@.len() implies set_cells2(u, nx as int, ny as int).contains((#[trigger] out@[i].0 as int, out@[i].1 as int)) by {
            let c = out@[i];
            assert(c == cv[idx[i]]);
            assert(set_cells2(v, nx as int, ny as int).contains((cv[idx[i]].0 as int, cv[idx[i]].1 as int)));
        }
        assert forall|i: int, j: int| 0 <= i < j < out@.len() implies cell_before((out@[i].0 as int, out@[i].1 as int), (out@[j].0 as int, out@[j].1 as int)) by {
            assert(idx[i] < idx[j]);
            assert(out@[i] == cv[idx[i]] && out@[j] == cv[idx[j]]);
        }
        assert forall|c: (int, int)| #[trigger] set_cells2(u, nx as int, ny as int).contains(c)
            implies exists|i: int| 0 <= i < out@.len() && (out@[i].0 as int, out@[i].1 as int) == c by {
            assert(set_cells2(v, nx as int, ny as int).contains(c));
            let j = choose|j: int| 0 <= j < cv.len() && (cv[j].0 as int, cv[j].1 as int) == c;
            assert(!cf[(cv[j]).1 * nx + cv[j].0]);
            let i = choose|i: int| 0 <= i < out@.len() && out@[i] == cv[j];
        }
    }
    out
}

/// A round that lowered a value had a column in its frontier.
proof fn lemma_step_nonempty(s: BlockStore, s2: BlockStore, states: Seq<State>, g: Geom, f: Seq<(u32, u32)>, cf: Seq<bool>,
    t: u64, a0: ColArrays, a1: ColArrays, grid: Seq<Seq<bool>>, cnt: nat)
    requires
        band_step(s, s2, states, g, f, cf, t, a0, a1, grid, cnt),
        cnt > 0,
    ensures
        f.len() > 0,
{
    let b = choose|b: BlockStore| #[trigger] windows_done(s, b, states, f) && {
        let ups = round_ups(b, g, f, cf);
        &&& written(b, s2, write_ups(b.cps(), ups))
        &&& (a1.0, a1.1) == round_ranges(b, g, f, cf, a0.0, a0.1)
        &&& (a1.2, a1.3) == round_reach(b, g, f, cf, a0.2, a0.3)
        &&& grid == round_grid(b, g, f, cf, t)
        &&& cnt == ups.len()
    };
    if f.len() == 0 {
        assert(round_ups(b, g, f, cf).len() == 0);
    }
}

/// An in-place round that lowered a value had a column in its frontier.
proof fn lemma_serial_nonempty(s: BlockStore, s2: BlockStore, states: Seq<State>, g: Geom, f: Seq<(u32, u32)>, cf: Seq<bool>,
    t: u64, a0: ColArrays, a1: ColArrays, grid: Seq<Seq<bool>>, cnt: nat)
    requires
        serial_step(s, s2, states, g, f, cf, t, a0, a1, grid, cnt),
        cnt > 0,
    ensures
        f.len() > 0,
{
    let (chain, counts) = choose|chain: Seq<BlockStore>, counts: Seq<nat>| #[trigger] serial_chain(chain, counts, states, g, f, cf)
        && chain[0] == s && chain[f.len() as int] == s2
        && serial_marks(chain, counts, g, f, cf, t, a0, f.len() as int) == (a1, grid, cnt);
    if f.len() == 0 {
        assert(serial_marks(chain, counts, g, f, cf, t, a0, 0).2 == 0);
    }
}

/// A run extended by one more round is a run.
proof fn lemma_run_push(s0: BlockStore, a0: ColArrays, f0: Seq<(u32, u32)>,
    hist: Seq<(Seq<(u32, u32)>, BlockStore, ColArrays, Seq<Seq<bool>>, nat)>,
    e: (Seq<(u32, u32)>, BlockStore, ColArrays, Seq<Seq<bool>>, nat), states: Seq<State>, g: Geom, cf: Seq<bool>,
    t: u64, dx: int, dy: int, serial: bool)
    requires
        band_run(s0, a0, f0, hist, states, g, cf, t, dx, dy, serial),
        run_step(serial, if hist.len() == 0 { s0 } else { hist.last().1 }, e.1, states, g, e.0, cf, t,
            if hist.len() == 0 { a0 } else { hist.last().2 }, e.2, e.3, e.4),
        if hist.len() == 0 { e.0 == f0 } else {
            lists_cells2(e.0, unfinal(dilate_grid(hist.last().3, g.nx as int, g.ny as int, dx, dy), cf, g.nx as int, g.ny as int),
                g.nx as int, g.ny as int)
        },
    ensures
        band_run(s0, a0, f0, hist.push(e), states, g, cf, t, dx, dy, serial),
        hist_count(hist.push(e)) == hist_count(hist) + e.4,
{
    reveal(band_run);
    let h2 = hist.push(e);
    assert(h2.drop_last() =~= hist);
    assert forall|r: int| 0 <= r < h2.len() implies {
        let ps = if r == 0 { s0 } else { h2[r - 1].1 };
        let pa = if r == 0 { a0 } else { h2[r - 1].2 };
        &&& (if r == 0 { (#[trigger] h2[r]).0 == f0 } else {
            lists_cells2(h2[r].0, unfinal(dilate_grid(h2[r - 1].3, g.nx as int, g.ny as int, dx, dy), cf,
                g.nx as int, g.ny as int), g.nx as int, g.ny as int)
        })
        &&& run_step(serial, ps, h2[r].1, states, g, h2[r].0, cf, t, pa, h2[r].2, h2[r].3, h2[r].4)
    } by {
        if r < hist.len() {
            assert(h2[r] == hist[r]);
            if r > 0 {
                assert(h2[r - 1] == hist[r - 1]);
            }
        } else {
            assert(h2[r] == e);
            if r > 0 {
                assert(h2[r - 1] == hist[r - 1]);
                assert(hist.last() == hist[r - 1]);
            }
        }
    }
}

/// Converges the band below `t` in deterministic Jacobi rounds, starting from
/// `frontier`: each round is [`band_round`]; the next frontier is the in-band
/// columns of the round dilated by `(dx, dy)`, without the final columns.
/// Each round counts one iteration; gives `false` once the iterations reach
/// `max_iter` and otherwise `true` after the first round that lowers nothing.
/// The lowered values add to `total_updates`, saturating at `u64::MAX`.
pub fn converge_band_jacobi(store: &mut BlockStore, g: &Geom, states: &Vec<State>, nx: i32, ny: i32, dx: u32, dy: u32,
    t: u64, max_iter: u32, frontier: &mut Vec<(u32, u32)>, col_min: &mut Vec<u64>, col_max: &mut Vec<u64>,
    col_final: &Vec<bool>, reached: &mut Vec<bool>, live: &mut Vec<usize>, iters: &mut u32, total_updates: &mut u64) -> (r: bool)
    requires
        old(store).wf(),
        old(store).laid_out(*g),
        exists|acts: Seq<Action>| g.wf(acts) && actions_ok(acts, g.nx as int, g.ny as int, g.nt as int),
        states_ok(states@, g.nx as int, g.ny as int, g.nt as int),
        nx == g.nx,
        ny == g.ny,
        fits2(nx as u32, ny as u32),
        dx < 64,
        forall|i: int| 0 <= i < old(frontier)@.len() ==> (#[trigger] old(frontier)@[i]).0 < nx && old(frontier)@[i].1 < ny,
        old(frontier)@.len() <= nx * ny,
        old(col_min)@.len() == nx * ny,
        old(col_max)@.len() == nx * ny,
        old(reached)@.len() == nx * ny,
        col_final@.len() == nx * ny,
        live_windows(*old(store), col_final@, nx as int, ny as int),
        *old(iters) < u32::MAX,
    ensures
        exists|hist: Seq<(Seq<(u32, u32)>, BlockStore, ColArrays, Seq<Seq<bool>>, nat)>| {
            &&& hist.len() >= 1
            &&& #[trigger] band_run(*old(store), (old(col_min)@, old(col_max)@, old(reached)@, old(live)@), old(frontier)@, hist,
                states@, *g, col_final@, t, dx as int, dy as int, false)
            &&& *final(store) == hist.last().1
            &&& (final(col_min)@, final(col_max)@, final(reached)@, final(live)@) == hist.last().2
            &&& final(frontier)@ == hist.last().0
            &&& *final(iters) == *old(iters) + hist.len()
            &&& *final(total_updates) == sat_u64((*old(total_updates) + hist_count(hist)) as nat)
            &&& forall|q: int| 0 <= q < hist.len() - 1 ==> (#[trigger] hist[q]).4 > 0 && *old(iters) + q + 1 < max_iter
            &&& if *old(iters) + hist.len() >= max_iter { !r } else { r && hist.last().4 == 0 }
        },
        final(store).wf(),
        final(store).laid_out(*g),
        final(store).evicted@ == old(store).evicted@,
        final(store).blocks@.len() == old(store).blocks@.len(),
        live_windows(*final(store), col_final@, nx as int, ny as int),
        final(col_min)@.len() == nx * ny,
        final(col_max)@.len() == nx * ny,
        final(reached)@.len() == nx * ny,
        *final(iters) > *old(iters),
        *final(iters) <= max_iter || *final(iters) == *old(iters) + 1,
        r ==> *final(iters) < max_iter,
        !r ==> *final(iters) >= max_iter,
{
    let ghost s0 = *store;
    let ghost a0: ColArrays = (col_min@, col_max@, reached@, live@);
    let ghost f0 = frontier@;
    let ghost it0 = *iters;
    let ghost tot0 = *total_updates;
    let ghost cf = col_final@;
    let ghost mut hist: Seq<(Seq<(u32, u32)>, BlockStore, ColArrays, Seq<Seq<bool>>, nat)> = Seq::empty();
    let mut running = true;
    let mut result = false;
    proof {
        reveal(band_run);
    }
    while running
        invariant
            nx == g.nx,
            ny == g.ny,
            fits2(nx as u32, ny as u32),
            dx < 64,
            cf == col_final@,
            cf.len() == nx * ny,
            exists|acts: Seq<Action>| g.wf(acts) && actions_ok(acts, g.nx as int, g.ny as int, g.nt as int),
            states_ok(states@, g.nx as int, g.ny as int, g.nt as int),
            store.wf(),
            store.laid_out(*g),
            store.evicted@ == s0.evicted@,
            live_windows(*store, cf, nx as int, ny as int),
            forall|i: int| 0 <= i < frontier@.len() ==> (#[trigger] frontier@[i]).0 < nx && frontier@[i].1 < ny,
            frontier@.len() <= nx * ny,
            col_min@.len() == nx * ny,
            col_max@.len() == nx * ny,
            reached@.len() == nx * ny,
            band_run(s0, a0, f0, hist, states@, *g, cf, t, dx as int, dy as int, false),
            hist.len() == 0 ==> *store == s0 && (col_min@, col_max@, reached@, live@) == a0 && frontier@ == f0 && running,
            hist.len() > 0 ==> *store == hist.last().1 && (col_min@, col_max@, reached@, live@) == hist.last().2,
            hist.len() > 0 && running ==> lists_cells2(frontier@, unfinal(dilate_grid(hist.last().3, nx as int, ny as int,
                dx as int, dy as int), cf, nx as int, ny as int), nx as int, ny as int),
            hist.len() > 0 && !running ==> frontier@ == hist.last().0,
            *iters == it0 + hist.len(),
            *total_updates == sat_u64((tot0 + hist_count(hist)) as nat),
            forall|q: int| 0 <= q < hist.len() - 1 ==> (#[trigger] hist[q]).4 > 0 && it0 + q + 1 < max_iter,
            running && hist.len() > 0 ==> hist.last().4 > 0 && it0 + hist.len() < max_iter,
            running ==> *iters < u32::MAX,
            !running ==> hist.len() >= 1 && (if it0 + hist.len() >= max_iter { !result } else { result && hist.last().4 == 0 }),
        decreases 2 * (u32::MAX - *iters) + (if running { 1int } else { 0int }),
    {
        let ghost pre_s = *store;
        let ghost pre_a: ColArrays = (col_min@, col_max@, reached@, live@);
        let ghost fcur = frontier@;
        let (grid, cnt) = band_round(store, g, states, t, frontier, col_min, col_max, col_final, reached, live);
        let ghost post_a: ColArrays = (col_min@, col_max@, reached@, live@);
        *total_updates = total_updates.saturating_add(cnt);
        *iters = *iters + 1;
        proof {
            let e = (fcur, *store, post_a, grid@, cnt as nat);
            assert(band_step(pre_s, *store, states@, *g, fcur, cf, t, pre_a, post_a, grid@, cnt as nat));
            lemma_run_push(s0, a0, f0, hist, e, states@, *g, cf, t, dx as int, dy as int, false);
            let h2 = hist.push(e);
            assert forall|q: int| 0 <= q < h2.len() - 1 implies (#[trigger] h2[q]).4 > 0 && it0 + q + 1 < max_iter by {
                assert(h2[q] == hist[q]);
            }
            hist = h2;
        }
        if *iters >= max_iter {
            result = false;
            running = false;
        } else if cnt == 0 {
            result = true;
            running = false;
        } else {
            proof {
                lemma_step_nonempty(pre_s, *store, states@, *g, fcur, cf, t, pre_a, post_a, grid@, cnt as nat);
                assert(fcur[0].0 < nx);
            }
            let dil = grid.dilate(dx, dy);
            let cand = dil.enumerate();
            let next = drop_final(&cand, col_final, nx, ny, Ghost(dilate_grid(grid@, nx as int, ny as int, dx as int, dy as int)));
            proof {
                let v = unfinal(dilate_grid(grid@, nx as int, ny as int, dx as int, dy as int), cf, nx as int, ny as int);
                crate::reference::solvers::frontier::lemma_cells2_len(next@, v, nx as int, ny as int);
                assert forall|i: int| 0 <= i < next@.len() implies (#[trigger] next@[i]).0 < nx && next@[i].1 < ny by {
                    assert(set_cells2(v, nx as int, ny as int).contains((next@[i].0 as int, next@[i].1 as int)));
                }
            }
            *frontier = next;
        }
    }
    proof {
        if hist.len() >= 2 {
            assert(hist[hist.len() - 2].4 > 0);
        }
    }
    result
}

proof fn lemma_relax_count(cps: Seq<u64>, pens: Seq<u64>, evals: Seq<bool>, precomp: Seq<Vec<Vec<(i64, u64)>>>, col: int, k: int)
    requires
        0 <= k,
    ensures
        relax_all(cps, pens, evals, precomp, col, k).1 <= k,
    decreases k,
{
    if k > 0 {
        lemma_relax_count(cps, pens, evals, precomp, col, k - 1);
    }
}

/// The bookkeeping of the first `k` columns reads only the stores and counts of those columns.
proof fn lemma_marks_prefix(c1: Seq<BlockStore>, k1: Seq<nat>, c2: Seq<BlockStore>, k2: Seq<nat>, g: Geom, f: Seq<(u32, u32)>,
    cf: Seq<bool>, t: u64, a0: ColArrays, k: int)
    requires
        forall|j: int| 0 < j <= k ==> c1[j] == c2[j],
        forall|j: int| 0 <= j < k ==> k1[j] == k2[j],
    ensures
        serial_marks(c1, k1, g, f, cf, t, a0, k) == serial_marks(c2, k2, g, f, cf, t, a0, k),
    decreases k,
{
    if k > 0 {
        lemma_marks_prefix(c1, k1, c2, k2, g, f, cf, t, a0, k - 1);
        assert(c1[k] == c2[k]);
        assert(k1[k - 1] == k2[k - 1]);
    }
}

/// One in-place (Gauss–Seidel) round of the band over `frontier`: each
/// non-final frontier column, in order, has its window built and its headings
/// relaxed in place, then takes the range of its values into the column
/// arrays and the reached and live columns.  Gives the columns whose least
/// value is reached and below `t`, and how many values fell.
pub fn band_round_serial(store: &mut BlockStore, g: &Geom, states: &Vec<State>, t: u64, frontier: &Vec<(u32, u32)>,
    col_min: &mut Vec<u64>, col_max: &mut Vec<u64>, col_final: &Vec<bool>, reached: &mut Vec<bool>,
    live: &mut Vec<usize>) -> (r: (Bitboard2D, u64))
    requires
        old(store).wf(),
        old(store).laid_out(*g),
        exists|acts: Seq<Action>| g.wf(acts) && actions_ok(acts, g.nx as int, g.ny as int, g.nt as int),
        states_ok(states@, g.nx as int, g.ny as int, g.nt as int),
        fits2(g.nx as u32, g.ny as u32),
        forall|i: int| 0 <= i < frontier@.len() ==> (#[trigger] frontier@[i]).0 < g.nx && frontier@[i].1 < g.ny,
        frontier@.len() <= g.nx * g.ny,
        old(col_min)@.len() == g.nx * g.ny,
        old(col_max)@.len() == g.nx * g.ny,
        old(reached)@.len() == g.nx * g.ny,
        col_final@.len() == g.nx * g.ny,
        live_windows(*old(store), col_final@, g.nx as int, g.ny as int),
    ensures
        serial_step(*old(store), *final(store), states@, *g, frontier@, col_final@, t,
            (old(col_min)@, old(col_max)@, old(reached)@, old(live)@), (final(col_min)@, final(col_max)@, final(reached)@, final(live)@),
            r.0@, r.1 as nat),
        final(store).wf(),
        final(store).laid_out(*g),
        final(store).evicted@ == old(store).evicted@,
        live_windows(*final(store), col_final@, g.nx as int, g.ny as int),
        final(col_min)@.len() == g.nx * g.ny,
        final(col_max)@.len() == g.nx * g.ny,
        final(reached)@.len() == g.nx * g.ny,
        r.0.wf(),
        r.0.width() == g.nx,
        r.0.height() == g.ny,
{
    let ghost s0 = *store;
    let ghost nx = g.nx as int;
    let ghost ny = g.ny as int;
    let ghost nt = g.nt as int;
    let ghost fv = frontier@;
    let ghost cf = col_final@;
    let ghost a0: ColArrays = (col_min@, col_max@, reached@, live@);
    let ghost acts = choose|acts: Seq<Action>| g.wf(acts) && actions_ok(acts, g.nx as int, g.ny as int, g.nt as int);
    let ghost mut chain: Seq<BlockStore> = seq![s0];
    let ghost mut counts: Seq<nat> = Seq::empty();
    let n = frontier.len();
    let cf_len = col_final.len();
    proof {
        assert(nx * ny * nt <= s0.n_pad) by (nonlinear_arith)
            requires s0.n_pad == s0.row_stride * (s0.ny + 2 * s0.my), s0.row_stride == s0.nt * (s0.nx + 2 * s0.mx),
                nx == s0.nx, ny == s0.ny, nt == s0.nt, 0 <= nx, 0 <= ny, 1 <= nt, 1 <= s0.mx, 1 <= s0.my;
        assert(s0.n_pad <= 0x7fff_ffff * 0x7fff_ffff) by (nonlinear_arith)
            requires s0.n_pad == s0.row_stride * (s0.ny + 2 * s0.my), 0 <= s0.row_stride <= 0x7fff_ffff,
                0 <= s0.ny + 2 * s0.my <= 0x7fff_ffff;
        assert(n * nt <= nx * ny * nt) by (nonlinear_arith) requires n <= nx * ny, 0 <= nt;
    }
    let mut grid = Bitboard2D::new(g.nx as u32, g.ny as u32);
    let mut count: u64 = 0;
    let mut i: usize = 0;
    while i < n
        invariant
            0 <= i <= n,
            n == fv.len(),
            fv == frontier@,
            cf == col_final@,
            cf_len == cf.len(),
            nx == g.nx,
            ny == g.ny,
            nt == g.nt,
            1 <= nt,
            g.wf(acts),
            actions_ok(acts, nx, ny, nt),
            forall|j: int| 0 <= j < fv.len() ==> (#[trigger] fv[j]).0 < nx && fv[j].1 < ny,
            cf.len() == nx * ny,
            states_ok(states@, nx, ny, nt),
            live_windows(s0, cf, nx, ny),
            store.wf(),
            store.laid_out(*g),
            store.evicted@ == s0.evicted@,
            store.blocks@.len() == s0.blocks@.len(),
            store.my == s0.my,
            serial_chain(chain, counts, states@, *g, fv.take(i as int), cf),
            chain[0] == s0,
            chain[i as int] == *store,
            serial_marks(chain, counts, *g, fv, cf, t, a0, i as int) == ((col_min@, col_max@, reached@, live@), grid@, count as nat),
            col_min@.len() == nx * ny,
            col_max@.len() == nx * ny,
            reached@.len() == nx * ny,
            count <= i * nt,
            n * nt <= 0x7fff_ffff * 0x7fff_ffff,
            grid.wf(),
            grid.width() == nx,
            grid.height() == ny,
        decreases n - i,
    {
        let c = frontier[i];
        let ghost prev = *store;
        proof {
            lemma_col_idx(c, nx, ny);
            assert(fv[i as int] == c);
            assert((c.1 as int) * nx + (c.0 as int) < cf_len);
            assert(0 <= (c.1 as int) * nx) by (nonlinear_arith) requires 0 <= c.1, 0 <= nx;
            assert(i * nt + nt == (i + 1) * nt) by (nonlinear_arith);
            assert((i + 1) * nt <= n * nt) by (nonlinear_arith) requires i + 1 <= n, 0 <= nt;
        }
        let ci = (c.1 as usize) * (g.nx as usize) + c.0 as usize;
        let ghost cnt_i: nat;
        if col_final[ci] {
            proof {
                cnt_i = 0;
            }
        } else {
            proof {
                assert(column_ok(*store, *g, acts, c.0 as int, c.1 as int));
                assert forall|b: int| window(*store, c.1 as int).0 <= b <= window(*store, c.1 as int).1
                    implies !(#[trigger] store.evicted@[b]) by {
                    let ci2 = col_idx(c, nx);
                    assert(window(s0, ci2 / nx) == window(*store, c.1 as int));
                    assert(!cf[ci2]);
                    assert(!s0.evicted@[b]);
                }
            }
            let (chg, mn, mx, ups) = relax_column(store, g, c.0 as i32, c.1 as i32, states);
            proof {
                let s1 = choose|s1: BlockStore| #[trigger] window_built(prev, s1, states@, c.1 as int) && {
                    let col = pad_index(c.0 as int, c.1 as int, 0, g.nx as int, g.nt as int, g.mx as int, g.my as int);
                    let res = relax_all(s1.cps(), s1.pens(), s1.evals(), g.precomp@, col, g.nt as int);
                    let rg = col_range(store.cps(), store.pens(), col, g.nt as int);
                    &&& relaxed(s1, *store, g.precomp@, col, g.nt as int)
                    &&& ups == res.1
                    &&& chg == (res.1 > 0)
                    &&& mn == rg.0
                    &&& mx == rg.1
                };
                assert(window_built(prev, s1, states@, c.1 as int));
                lemma_relax_count(s1.cps(), s1.pens(), s1.evals(), g.precomp@, col_base(c, *g), nt);
                cnt_i = ups as nat;
                assert(serial_col(prev, *store, cnt_i, states@, *g, c, cf));
            }
            col_min.set(ci, mn);
            col_max.set(ci, mx);
            if mn != MAX_COST && !reached[ci] {
                reached.set(ci, true);
                live.push(ci);
            }
            count = count + ups;
            if mn != MAX_COST && mn < t {
                grid.set(c.0, c.1);
            }
        }
        proof {
            let c2 = chain.push(*store);
            let k2 = counts.push(cnt_i);
            assert(fv.take(i + 1).drop_last() =~= fv.take(i as int));
            assert forall|j: int| 0 <= j < i + 1 implies #[trigger] serial_col(c2[j], c2[j + 1], k2[j], states@, *g, fv.take(i + 1)[j], cf) by {
                if j < i {
                    assert(serial_col(chain[j], chain[j + 1], counts[j], states@, *g, fv.take(i as int)[j], cf));
                } else {
                    if cf[col_idx(c, nx)] {
                        assert(*store == prev);
                    }
                }
            }
            lemma_marks_prefix(chain, counts, c2, k2, *g, fv, cf, t, a0, i as int);
            assert(c2[i + 1] == *store);
            assert(k2[i as int] == cnt_i);
            chain = c2;
            counts = k2;
        }
        i += 1;
    }
    proof {
        assert(fv.take(n as int) =~= fv);
    }
    (grid, count)
}

/// Converges the band below `t` in in-place (Gauss–Seidel) rounds, starting
/// from `frontier`: each round is [`band_round_serial`]; the next frontier is the in-band
/// columns of the round dilated by `(dx, dy)`, without the final columns.
/// Each round counts one iteration; gives `false` once the iterations reach
/// `max_iter` and otherwise `true` after the first round that lowers nothing.
/// The lowered values add to `total_updates`, saturating at `u64::MAX`.
pub fn converge_band_serial(store: &mut BlockStore, g: &Geom, states: &Vec<State>, nx: i32, ny: i32, dx: u32, dy: u32,
    t: u64, max_iter: u32, frontier: &mut Vec<(u32, u32)>, col_min: &mut Vec<u64>, col_max: &mut Vec<u64>,
    col_final: &Vec<bool>, reached: &mut Vec<bool>, live: &mut Vec<usize>, iters: &mut u32, total_updates: &mut u64) -> (r: bool)
    requires
        old(store).wf(),
        old(store).laid_out(*g),
        exists|acts: Seq<Action>| g.wf(acts) && actions_ok(acts, g.nx as int, g.ny as int, g.nt as int),
        states_ok(states@, g.nx as int, g.ny as int, g.nt as int),
        nx == g.nx,
        ny == g.ny,
        fits2(nx as u32, ny as u32),
        dx < 64,
        forall|i: int| 0 <= i < old(frontier)@.len() ==> (#[trigger] old(frontier)@[i]).0 < nx && old(frontier)@[i].1 < ny,
        old(frontier)@.len() <= nx * ny,
        old(col_min)@.len() == nx * ny,
        old(col_max)@.len() == nx * ny,
        old(reached)@.len() == nx * ny,
        col_final@.len() == nx * ny,
        live_windows(*old(store), col_final@, nx as int, ny as int),
        *old(iters) < u32::MAX,
    ensures
        exists|hist: Seq<(Seq<(u32, u32)>, BlockStore, ColArrays, Seq<Seq<bool>>, nat)>| {
            &&& hist.len() >= 1
            &&& #[trigger] band_run(*old(store), (old(col_min)@, old(col_max)@, old(reached)@, old(live)@), old(frontier)@, hist,
                states@, *g, col_final@, t, dx as int, dy as int, true)
            &&& *final(store) == hist.last().1
            &&& (final(col_min)@, final(col_max)@, final(reached)@, final(live)@) == hist.last().2
            &&& final(frontier)@ == hist.last().0
            &&& *final(iters) == *old(iters) + hist.len()
            &&& *final(total_updates) == sat_u64((*old(total_updates) + hist_count(hist)) as nat)
            &&& forall|q: int| 0 <= q < hist.len() - 1 ==> (#[trigger] hist[q]).4 > 0 && *old(iters) + q + 1 < max_iter
            &&& if *old(iters) + hist.len() >= max_iter { !r } else { r && hist.last().4 == 0 }
        },
        final(store).wf(),
        final(store).laid_out(*g),
        final(store).evicted@ == old(store).evicted@,
        final(store).blocks@.len() == old(store).blocks@.len(),
        live_windows(*final(store), col_final@, nx as int, ny as int),
        final(col_min)@.len() == nx * ny,
        final(col_max)@.len() == nx * ny,
        final(reached)@.len() == nx * ny,
        *final(iters) > *old(iters),
        *final(iters) <= max_iter || *final(iters) == *old(iters) + 1,
        r ==> *final(iters) < max_iter,
        !r ==> *final(iters) >= max_iter,
{
    let ghost s0 = *store;
    let ghost a0: ColArrays = (col_min@, col_max@, reached@, live@);
    let ghost f0 = frontier@;
    let ghost it0 = *iters;
    let ghost tot0 = *total_updates;
    let ghost cf = col_final@;
    let ghost mut hist: Seq<(Seq<(u32, u32)>, BlockStore, ColArrays, Seq<Seq<bool>>, nat)> = Seq::empty();
    let mut running = true;
    let mut result = false;
    proof {
        reveal(band_run);
    }
    while running
        invariant
            nx == g.nx,
            ny == g.ny,
            fits2(nx as u32, ny as u32),
            dx < 64,
            cf == col_final@,
            cf.len() == nx * ny,
            exists|acts: Seq<Action>| g.wf(acts) && actions_ok(acts, g.nx as int, g.ny as int, g.nt as int),
            states_ok(states@, g.nx as int, g.ny as int, g.nt as int),
            store.wf(),
            store.laid_out(*g),
            store.evicted@ == s0.evicted@,
            live_windows(*store, cf, nx as int, ny as int),
            forall|i: int| 0 <= i < frontier@.len() ==> (#[trigger] frontier@[i]).0 < nx && frontier@[i].1 < ny,
            frontier@.len() <= nx * ny,
            col_min@.len() == nx * ny,
            col_max@.len() == nx * ny,
            reached@.len() == nx * ny,
            band_run(s0, a0, f0, hist, states@, *g, cf, t, dx as int, dy as int, true),
            hist.len() == 0 ==> *store == s0 && (col_min@, col_max@, reached@, live@) == a0 && frontier@ == f0 && running,
            hist.len() > 0 ==> *store == hist.last().1 && (col_min@, col_max@, reached@, live@) == hist.last().2,
            hist.len() > 0 && running ==> lists_cells2(frontier@, unfinal(dilate_grid(hist.last().3, nx as int, ny as int,
                dx as int, dy as int), cf, nx as int, ny as int), nx as int, ny as int),
            hist.len() > 0 && !running ==> frontier@ == hist.last().0,
            *iters == it0 + hist.len(),
            *total_updates == sat_u64((tot0 + hist_count(hist)) as nat),
            forall|q: int| 0 <= q < hist.len() - 1 ==> (#[trigger] hist[q]).4 > 0 && it0 + q + 1 < max_iter,
            running && hist.len() > 0 ==> hist.last().4 > 0 && it0 + hist.len() < max_iter,
            running ==> *iters < u32::MAX,
            !running ==> hist.len() >= 1 && (if it0 + hist.len() >= max_iter { !result } else { result && hist.last().4 == 0 }),
        decreases 2 * (u32::MAX - *iters) + (if running { 1int } else { 0int }),
    {
        let ghost pre_s = *store;
        let ghost pre_a: ColArrays = (col_min@, col_max@, reached@, live@);
        let ghost fcur = frontier@;
        let (grid, cnt) = band_round_serial(store, g, states, t, frontier, col_min, col_max, col_final, reached, live);
        let ghost post_a: ColArrays = (col_min@, col_max@, reached@, live@);
        *total_updates = total_updates.saturating_add(cnt);
        *iters = *iters + 1;
        proof {
            let e = (fcur, *store, post_a, grid@, cnt as nat);
            assert(serial_step(pre_s, *store, states@, *g, fcur, cf, t, pre_a, post_a, grid@, cnt as nat));
            lemma_run_push(s0, a0, f0, hist, e, states@, *g, cf, t, dx as int, dy as int, true);
            let h2 = hist.push(e);
            assert forall|q: int| 0 <= q < h2.len() - 1 implies (#[trigger] h2[q]).4 > 0 && it0 + q + 1 < max_iter by {
                assert(h2[q] == hist[q]);
            }
            hist = h2;
        }
        if *iters >= max_iter {
            result = false;
            running = false;
        } else if cnt == 0 {
            result = true;
            running = false;
        } else {
            proof {
                lemma_serial_nonempty(pre_s, *store, states@, *g, fcur, cf, t, pre_a, post_a, grid@, cnt as nat);
                assert(fcur[0].0 < nx);
            }
            let dil = grid.dilate(dx, dy);
            let cand = dil.enumerate();
            let next = drop_final(&cand, col_final, nx, ny, Ghost(dilate_grid(grid@, nx as int, ny as int, dx as int, dy as int)));
            proof {
                let v = unfinal(dilate_grid(grid@, nx as int, ny as int, dx as int, dy as int), cf, nx as int, ny as int);
                crate::reference::solvers::frontier::lemma_cells2_len(next@, v, nx as int, ny as int);
                assert forall|i: int| 0 <= i < next@.len() implies (#[trigger] next@[i]).0 < nx && next@[i].1 < ny by {
                    assert(set_cells2(v, nx as int, ny as int).contains((next@[i].0 as int, next@[i].1 as int)));
                }
            }
            *frontier = next;
        }
    }
    proof {
        if hist.len() >= 2 {
            assert(hist[hist.len() - 2].4 > 0);
        }
    }
    result
}

} // verus!
