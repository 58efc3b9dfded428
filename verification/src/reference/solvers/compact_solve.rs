//! The out-of-core frontier solver: value bands converged one after the other
//! on the block store, with the columns whose values lie a band below the
//! current threshold finalized into a sink, and the blocks around finalized
//! columns freed once every cell of their neighbourhood is final.
use vstd::prelude::*;
use crate::reference::params::MAX_COST;
use crate::reference::state::{Action, State};
use crate::reference::value_iterator::{StateSpace, states_ok, actions_ok, in_grid, index_of};
use crate::reference::solvers::fused::{Geom, geom_fits};
use crate::reference::solvers::compact::{BlockStore, CompactSink, CompactStats, RamSink, BLOCK_ROWS, couple_margin,
    finalize_column, window, write_back_sink, sink_action, column_ok, store_geom_ok, built_count};
use crate::reference::solvers::band::{converge_band_jacobi, converge_band_serial, live_windows, drop_final, unfinal};
use crate::reference::solvers::frontier::{frontier_ok, is_displacement, abs_int, lemma_frontier_offsets, seed_frontier_2d,
    lists_cells2, lemma_cells2_len};
use crate::bitboard::{Bitboard2D, fits2};
use crate::bitboard::ops::dilate_grid;
use crate::bitboard::enumerate::set_cells2;

verus! {

/// Number of the states `0 .. k` of `s` that are free, outside the goal, and reached.
pub open spec fn reach_count(s: Seq<State>, k: int) -> nat
    decreases k,
{
    if k <= 0 {
        0
    } else {
        reach_count(s, k - 1) + if s[k - 1].free && !s[k - 1].final_state && s[k - 1].total_cost < MAX_COST { 1nat } else { 0nat }
    }
}

/// Number of the columns `0 .. k` whose greatest value is reached.
pub open spec fn reached_cols(col_max: Seq<u64>, k: int) -> nat
    decreases k,
{
    if k <= 0 { 0 } else { reached_cols(col_max, k - 1) + if col_max[k - 1] != MAX_COST { 1nat } else { 0nat } }
}

/// The padded row blocks of an `nx × ny × nt` grid with margins of up to 63
/// columns fit `usize`.
pub open spec fn blocks_fit(nx: int, nt: int) -> bool {
    BLOCK_ROWS * (nt * (nx + 126)) <= usize::MAX
}

/// No non-final column of an `nx`-wide grid reads block `b` of `store`.
pub open spec fn block_unread(store: BlockStore, cf: Seq<bool>, nx: int, b: int) -> bool {
    forall|i: int| 0 <= i < cf.len() && !cf[i] ==> !(window(store, i / nx).0 <= b <= window(store, i / nx).1)
}

/// Whether no non-final column reads block `b`.
fn block_unread_exec(store: &BlockStore, col_final: &Vec<bool>, nx: usize, b: usize) -> (r: bool)
    requires
        store.wf(),
        b < store.blocks@.len(),
        nx >= 1,
        nx == store.nx,
        col_final@.len() == store.nx * store.ny,
    ensures
        r ==> block_unread(*store, col_final@, nx as int, b as int),
{
    let nb = store.blocks.len();
    let my = store.my as usize;
    let n = col_final.len();
    let mut i: usize = 0;
    while i < n
        invariant
            0 <= i <= n,
            n == col_final@.len(),
            nb == store.blocks@.len(),
            b < nb,
            nx >= 1,
            nx == store.nx,
            n == store.nx * store.ny,
            my == store.my,
            store.wf(),
            forall|j: int| 0 <= j < i && !col_final@[j] ==> !(window(*store, j / nx as int).0 <= b <= window(*store, j / nx as int).1),
        decreases n - i,
    {
        if !col_final[i] {
            let iy = i / nx;
            proof {
                assert(iy < store.ny) by (nonlinear_arith)
                    requires iy == i / nx, i < nx * store.ny, nx >= 1;
            }
            let lo = iy / BLOCK_ROWS;
            let hi0 = (iy + 2 * my) / BLOCK_ROWS;
            let hi = if hi0 < nb - 1 { hi0 } else { nb - 1 };
            proof {
                assert(window(*store, i as int / nx as int) == (lo as int, hi as int));
            }
            if lo <= b && b <= hi {
                return false;
            }
        }
        i += 1;
    }
    true
}

/// Finalizes each listed column that is not final yet and whose greatest
/// value is at most `wm`, in list order, and marks it final; gives how many
/// cells were marked final and, per block, whether it holds a column finalized here.
fn finalize_wave<S: CompactSink>(store: &mut BlockStore, g: &Geom, states: &Vec<State>, sink: &mut S, live: &Vec<usize>,
    col_final: &mut Vec<bool>, col_max: &Vec<u64>, wm: u64, nx: usize, ncol: usize, Ghost(acts): Ghost<Seq<Action>>)
    -> (r: (u64, Vec<bool>))
    requires
        old(store).wf(),
        old(store).laid_out(*g),
        g.wf(acts),
        actions_ok(acts, g.nx as int, g.ny as int, g.nt as int),
        states_ok(states@, g.nx as int, g.ny as int, g.nt as int),
        g.precomp@.len() <= i32::MAX,
        g.nx * g.ny * g.nt <= old(sink).len_spec(),
        nx == g.nx,
        nx >= 1,
        ncol == g.nx * g.ny,
        old(col_final)@.len() == ncol,
        col_max@.len() == ncol,
        live_windows(*old(store), old(col_final)@, g.nx as int, g.ny as int),
    ensures
        final(store).wf(),
        final(store).laid_out(*g),
        final(store).blocks@.len() == old(store).blocks@.len(),
        final(store).evicted@ == old(store).evicted@,
        live_windows(*final(store), final(col_final)@, g.nx as int, g.ny as int),
        final(col_final)@.len() == ncol,
        forall|i: int| 0 <= i < ncol && old(col_final)@[i] ==> #[trigger] final(col_final)@[i],
        final(sink).len_spec() == old(sink).len_spec(),
        r.1@.len() == old(store).blocks@.len(),
{
    let nb = store.blocks.len();
    let mut touched: Vec<bool> = vec![false; nb];
    let mut fin: u64 = 0;
    let ghost cf0 = col_final@;
    let ghost s0 = *store;
    let mut e: usize = 0;
    while e < live.len()
        invariant
            0 <= e <= live@.len(),
            store.wf(),
            store.laid_out(*g),
            store.blocks@.len() == nb,
            nb == s0.blocks@.len(),
            store.evicted@ == s0.evicted@,
            g.wf(acts),
            actions_ok(acts, g.nx as int, g.ny as int, g.nt as int),
            states_ok(states@, g.nx as int, g.ny as int, g.nt as int),
            g.precomp@.len() <= i32::MAX,
            g.nx * g.ny * g.nt <= sink.len_spec(),
            sink.len_spec() == old(sink).len_spec(),
            nx == g.nx,
            nx >= 1,
            ncol == g.nx * g.ny,
            col_final@.len() == ncol,
            col_max@.len() == ncol,
            touched@.len() == nb,
            live_windows(*store, col_final@, g.nx as int, g.ny as int),
            forall|i: int| 0 <= i < ncol && cf0[i] ==> #[trigger] col_final@[i],
        decreases live@.len() - e,
    {
        let i = live[e];
        if i < ncol && !col_final[i] && col_max[i] <= wm {
            let ixu = i % nx;
            let iyu = i / nx;
            proof {
                assert(iyu < g.ny) by (nonlinear_arith) requires iyu == i / nx, i < nx * g.ny, nx >= 1;
                assert(ixu < nx) by (nonlinear_arith) requires ixu == i % nx, nx >= 1;
            }
            let ix = ixu as i32;
            let iy = iyu as i32;
            proof {
                assert(column_ok(*store, *g, acts, ix as int, iy as int));
                assert forall|b: int| window(*store, iy as int).0 <= b <= window(*store, iy as int).1
                    implies !(#[trigger] store.evicted@[b]) by {
                    assert(!col_final@[i as int]);
                    assert(i as int / g.nx as int == iy);
                }
            }
            let ghost cfp = col_final@;
            let ghost sp = *store;
            let c = finalize_column(store, g, ix, iy, states, sink);
            fin = fin.saturating_add(c);
            col_final.set(i, true);
            proof {
                assert(window(*store, iy as int) == window(sp, iy as int));
                assert forall|i2: int, k: int| #![trigger col_final@[i2], store.evicted@[k]]
                    0 <= i2 < g.nx * g.ny && !col_final@[i2] && window(*store, i2 / g.nx as int).0 <= k <= window(*store, i2 / g.nx as int).1
                    implies !store.evicted@[k] by {
                    assert(cfp[i2] == false);
                    assert(window(*store, i2 / g.nx as int) == window(sp, i2 / g.nx as int));
                }
            }
            let tb = ((iy + g.my) as usize) / BLOCK_ROWS;
            if tb < nb {
                touched.set(tb, true);
            }
        }
        e += 1;
    }
    (fin, touched)
}

/// The fields of `s2` that fix the layout are those of `s`, and it has as many blocks.
pub open spec fn same_layout(s: BlockStore, s2: BlockStore) -> bool {
    &&& s2.blocks@.len() == s.blocks@.len()
    &&& s2.chunk == s.chunk
    &&& s2.n_pad == s.n_pad
    &&& s2.row_stride == s.row_stride
    &&& s2.nt == s.nt
    &&& s2.nx == s.nx
    &&& s2.ny == s.ny
    &&& s2.mx == s.mx
    &&& s2.my == s.my
}

/// Whether every block from `lo` to `hi` has all its updatable cells final.
fn blocks_full(store: &BlockStore, lo: usize, hi: usize) -> (r: bool)
    requires
        store.wf(),
        lo <= hi,
        hi < store.blocks@.len(),
    ensures
        r == forall|k: int| lo <= k <= hi ==> store.n_final@[k] == store.n_eval@[k],
{
    let mut k = lo;
    while k <= hi
        invariant
            lo <= k,
            k <= hi + 1,
            hi < store.blocks@.len(),
            store.blocks@.len() == store.blocks.len(),
            store.wf(),
            forall|k2: int| lo <= k2 < k ==> store.n_final@[k2] == store.n_eval@[k2],
        decreases hi + 1 - k,
    {
        if !store.block_full(k) {
            return false;
        }
        k += 1;
    }
    true
}

/// Frees each built block within `halo` blocks of a touched block, when every
/// block within `halo` of it has all its updatable cells final and no column
/// that is not final reads it; gives how many blocks it freed.
fn evict_wave(store: &mut BlockStore, touched: &Vec<bool>, halo: usize, col_final: &Vec<bool>, nx: usize) -> (r: u64)
    requires
        old(store).wf(),
        touched@.len() == old(store).blocks@.len(),
        nx >= 1,
        nx == old(store).nx,
        col_final@.len() == old(store).nx * old(store).ny,
        live_windows(*old(store), col_final@, old(store).nx as int, old(store).ny as int),
    ensures
        final(store).wf(),
        same_layout(*old(store), *final(store)),
        live_windows(*final(store), col_final@, old(store).nx as int, old(store).ny as int),
        r <= old(store).blocks@.len(),
{
    let nb = store.blocks.len();
    let ghost s0 = *store;
    let mut cand: Vec<bool> = vec![false; nb];
    let mut tb: usize = 0;
    while tb < nb
        invariant
            0 <= tb <= nb,
            nb == touched@.len(),
            cand@.len() == nb,
        decreases nb - tb,
    {
        if touched[tb] {
            let lo = tb.saturating_sub(halo);
            let hi0 = tb.saturating_add(halo);
            let hi = if hi0 < nb - 1 { hi0 } else { nb - 1 };
            let mut b = lo;
            while b <= hi
                invariant
                    lo <= b,
                    b <= hi + 1,
                    hi < nb,
                    cand@.len() == nb,
                decreases hi + 1 - b,
            {
                cand.set(b, true);
                b += 1;
            }
        }
        tb += 1;
    }
    let mut freed: u64 = 0;
    let mut b: usize = 0;
    while b < nb
        invariant
            0 <= b <= nb,
            nb == s0.blocks@.len(),
            cand@.len() == nb,
            store.wf(),
            same_layout(s0, *store),
            nx >= 1,
            nx == s0.nx,
            col_final@.len() == s0.nx * s0.ny,
            live_windows(*store, col_final@, s0.nx as int, s0.ny as int),
            freed <= b,
        decreases nb - b,
    {
        if cand[b] && !store.evicted[b] && store.blocks[b].is_some() {
            let lo = b.saturating_sub(halo);
            let hi0 = b.saturating_add(halo);
            let hi = if hi0 < nb - 1 { hi0 } else { nb - 1 };
            if blocks_full(store, lo, hi) && block_unread_exec(store, col_final, nx, b) {
                let ghost sp = *store;
                store.evict_block(b);
                freed += 1;
                proof {
                    assert forall|i: int, k: int| #![trigger col_final@[i], store.evicted@[k]]
                        0 <= i < s0.nx * s0.ny && !col_final@[i] && window(*store, i / s0.nx as int).0 <= k <= window(*store, i / s0.nx as int).1
                        implies !store.evicted@[k] by {
                        assert(window(*store, i / s0.nx as int) == window(sp, i / s0.nx as int));
                        if k != b {
                            assert(store.evicted@[k] == sp.evicted@[k]);
                        }
                    }
                }
            }
        }
        b += 1;
    }
    freed
}

/// The per-column arrays at the start of a run: least and greatest reached
/// cost of each column, whether it is reached, the reached columns in order of
/// their first state, and whether the column holds neither a cell that takes
/// part in the update nor a reached cell (such a column never changes).
fn scan_columns(states: &Vec<State>, nx: usize, ncol: usize, Ghost(ny): Ghost<int>, Ghost(nt): Ghost<int>)
    -> (r: (Vec<u64>, Vec<u64>, Vec<bool>, Vec<usize>, Vec<bool>))
    requires
        states_ok(states@, nx as int, ny, nt),
        ncol == nx * ny,
    ensures
        r.0@.len() == ncol,
        r.1@.len() == ncol,
        r.2@.len() == ncol,
        r.4@.len() == ncol,
        forall|e: int| 0 <= e < r.3@.len() ==> #[trigger] r.3@[e] < ncol,
        r.3@.len() <= states@.len(),
{
    let mut col_min: Vec<u64> = vec![MAX_COST; ncol];
    let mut col_max: Vec<u64> = vec![MAX_COST; ncol];
    let mut reached: Vec<bool> = vec![false; ncol];
    let mut active: Vec<bool> = vec![false; ncol];
    let mut live: Vec<usize> = Vec::new();
    let n = states.len();
    let mut k: usize = 0;
    while k < n
        invariant
            0 <= k <= n,
            n == states@.len(),
            states_ok(states@, nx as int, ny, nt),
            ncol == nx * ny,
            col_min@.len() == ncol,
            col_max@.len() == ncol,
            reached@.len() == ncol,
            active@.len() == ncol,
            live@.len() <= k,
            forall|e: int| 0 <= e < live@.len() ==> #[trigger] live@[e] < ncol,
        decreases n - k,
    {
        let s = states[k];
        proof {
            assert(in_grid(states@[k as int], nx as int, ny, nt));
            assert(s.iy * nx + s.ix < ncol) by (nonlinear_arith)
                requires 0 <= s.ix < nx, 0 <= s.iy < ny, ncol == nx * ny;
            assert(0 <= s.iy * nx) by (nonlinear_arith) requires 0 <= s.iy, 0 <= nx;
        }
        let i = (s.iy as usize) * nx + s.ix as usize;
        if s.free && s.total_cost < MAX_COST {
            let v = s.total_cost;
            if !reached[i] {
                reached.set(i, true);
                live.push(i);
                col_min.set(i, v);
                col_max.set(i, v);
            } else {
                if v < col_min[i] {
                    col_min.set(i, v);
                }
                if v > col_max[i] {
                    col_max.set(i, v);
                }
            }
        }
        if s.free && (!s.final_state || s.total_cost != MAX_COST) {
            active.set(i, true);
        }
        k += 1;
    }
    let mut still: Vec<bool> = Vec::new();
    let mut j: usize = 0;
    while j < ncol
        invariant
            0 <= j <= ncol,
            active@.len() == ncol,
            still@.len() == j,
        decreases ncol - j,
    {
        still.push(!active[j]);
        j += 1;
    }
    (col_min, col_max, reached, live, still)
}

/// The live columns that are not final, in order.
fn keep_unfinal(live: &Vec<usize>, col_final: &Vec<bool>) -> (r: Vec<usize>)
    ensures
        r@.len() <= live@.len(),
{
    let mut out: Vec<usize> = Vec::new();
    let mut e: usize = 0;
    while e < live.len()
        invariant
            0 <= e <= live@.len(),
            out@.len() <= e,
        decreases live@.len() - e,
    {
        let i = live[e];
        if i >= col_final.len() || !col_final[i] {
            out.push(i);
        }
        e += 1;
    }
    out
}

/// The frontier of the next band: the live columns whose least value is below
/// `t`, dilated by `(dx, dy)`, without the final columns, in storage order.
fn reactivate(live: &Vec<usize>, col_min: &Vec<u64>, col_final: &Vec<bool>, t: u64, nx: i32, ny: i32, dx: u32, dy: u32)
    -> (r: Vec<(u32, u32)>)
    requires
        fits2(nx as u32, ny as u32),
        nx >= 1,
        0 <= ny,
        dx < 64,
        col_min@.len() == nx * ny,
        col_final@.len() == nx * ny,
    ensures
        forall|i: int| 0 <= i < r@.len() ==> (#[trigger] r@[i]).0 < nx && r@[i].1 < ny,
        r@.len() <= nx * ny,
{
    let ncol = col_min.len();
    let nxu = nx as usize;
    let mut react = Bitboard2D::new(nx as u32, ny as u32);
    let mut e: usize = 0;
    while e < live.len()
        invariant
            0 <= e <= live@.len(),
            react.wf(),
            react.width() == nx,
            react.height() == ny,
            ncol == nx * ny,
            nxu == nx,
            nx >= 1,
            col_min@.len() == ncol,
        decreases live@.len() - e,
    {
        let i = live[e];
        if i < ncol && col_min[i] < t {
            proof {
                assert(i / nxu < ny) by (nonlinear_arith) requires i < nxu * ny, nxu >= 1;
                assert(i % nxu < nxu) by (nonlinear_arith) requires nxu >= 1;
            }
            react.set((i % nxu) as u32, (i / nxu) as u32);
        }
        e += 1;
    }
    let dil = react.dilate(dx, dy);
    let cand = dil.enumerate();
    let ghost v = dilate_grid(react@, nx as int, ny as int, dx as int, dy as int);
    proof {
        assert(lists_cells2(cand@, v, nx as int, ny as int));
    }
    let next = drop_final(&cand, col_final, nx, ny, Ghost(v));
    proof {
        let u = unfinal(v, col_final@, nx as int, ny as int);
        lemma_cells2_len(next@, u, nx as int, ny as int);
        assert forall|i: int| 0 <= i < next@.len() implies (#[trigger] next@[i]).0 < nx && next@[i].1 < ny by {
            assert(set_cells2(u, nx as int, ny as int).contains((next@[i].0 as int, next@[i].1 as int)));
        }
    }
    next
}

/// Out-of-core solve of `vi` into `sink`.  Starting from the goal columns
/// dilated by the displacement, it converges the values below a threshold
/// `t` (one band width, `band_override` or [`couple_margin`] of the largest
/// penalty, above the last), in Jacobi rounds when `parallel` and in place
/// otherwise; then writes every live column whose greatest value is at most
/// `t` less a band into the sink and marks it final; frees each built block
/// near a finalized column once every block within the halo around it has all
/// its updatable cells final and no column that is not final reads it; stops
/// when no live column is left (converged) or the rounds reach `max_iter`;
/// otherwise raises `t` by a band and takes the live columns below it, dilated,
/// as the next frontier.  Columns that hold neither a cell that takes part in
/// the update nor a reached cell count as final from the start.  Finally every
/// state takes the value and action of its sink entry.
pub fn solve_compact_into<S: CompactSink>(vi: &mut StateSpace, max_iter: u32, band_override: Option<u64>, parallel: bool,
    sink: &mut S) -> (r: CompactStats)
    requires
        old(vi).wf(),
        frontier_ok(old(vi).actions@),
        1 <= old(vi).cell_num_t,
        old(vi).cell_num_x > 0 || old(vi).cell_num_y <= 1,
        fits2(old(vi).cell_num_x as u32, old(vi).cell_num_y as u32),
        forall|m: (int, int, int)| is_displacement(old(vi).actions@, old(vi).cell_num_t as int, m)
            ==> #[trigger] geom_fits(old(vi).cell_num_x as int, old(vi).cell_num_y as int, old(vi).cell_num_t as int, m.0, m.1),
        old(vi).actions@.len() <= i32::MAX,
        blocks_fit(old(vi).cell_num_x as int, old(vi).cell_num_t as int),
        old(sink).len_spec() == old(vi).states@.len(),
    ensures
        final(vi).actions@ == old(vi).actions@,
        final(vi).cell_num_x == old(vi).cell_num_x,
        final(vi).cell_num_y == old(vi).cell_num_y,
        final(vi).cell_num_t == old(vi).cell_num_t,
        final(sink).len_spec() == old(sink).len_spec(),
        final(vi).states@.len() == old(vi).states@.len(),
        forall|k: int| 0 <= k < old(vi).states@.len() ==> #[trigger] final(vi).states@[k] == (State {
            total_cost: final(sink).at(k).0,
            optimal_action: sink_action(final(sink).at(k).1),
            ..old(vi).states@[k]
        }),
        r.iters <= max_iter || r.iters == 1,
        !r.converged ==> r.iters >= max_iter,
        r.reachable == reach_count(final(vi).states@, final(vi).states@.len() as int),
        r.reachable_cols <= old(vi).cell_num_x * old(vi).cell_num_y,
        r.peak_resident_blocks <= r.total_blocks,
{
    let ghost s0 = vi.states@;
    let ghost acts = vi.actions@;
    let ghost nxi = vi.cell_num_x as int;
    let ghost nyi = vi.cell_num_y as int;
    let ghost nti = vi.cell_num_t as int;
    proof {
        lemma_frontier_offsets(acts, nxi, nyi, nti);
    }
    let g = Geom::build(vi);
    let ghost mt = choose|mt: int| is_displacement(acts, nti, (g.mx as int, g.my as int, mt));
    proof {
        if g.mx != 1 {
            let (a, t, k) = choose|a: int, t: int, k: int| 0 <= a < acts.len() && 0 <= t < acts[a].state_transitions@.len()
                && 0 <= k < acts[a].state_transitions@[t]@.len() && abs_int((#[trigger] acts[a].state_transitions@[t]@[k]).dix as int) == g.mx;
            assert(-63 <= acts[a].state_transitions@[t]@[k].dix <= 63);
        }
        assert(g.mx <= 63);
        assert(g.row_stride <= nti * (nxi + 126)) by (nonlinear_arith)
            requires g.row_stride == g.nt * (g.nx + 2 * g.mx), g.nt == nti, g.nx == nxi, 1 <= nti, g.mx <= 63;
        assert(store_geom_ok(g));
        assert(nxi * nyi <= nxi * nyi * nti) by (nonlinear_arith) requires 1 <= nti, 0 <= nxi * nyi;
        assert(0 <= nxi * nyi) by (nonlinear_arith) requires 0 <= nxi, 0 <= nyi;
    }
    let nx = g.nx;
    let ny = g.ny;
    let dx = g.mx as u32;
    let dy = g.my as u32;
    let nxu = nx as usize;
    let ncol = nxu * (ny as usize);
    let seed = seed_frontier_2d(vi);
    let dil = seed.dilate(dx, dy);
    let mut frontier = dil.enumerate();
    proof {
        let v = dilate_grid(seed@, nxi, nyi, dx as int, dy as int);
        assert(lists_cells2(frontier@, v, nxi, nyi));
        lemma_cells2_len(frontier@, v, nxi, nyi);
        assert forall|i: int| 0 <= i < frontier@.len() implies (#[trigger] frontier@[i]).0 < nx && frontier@[i].1 < ny by {
            assert(set_cells2(v, nxi, nyi).contains((frontier@[i].0 as int, frontier@[i].1 as int)));
        }
    }
    let mut store = BlockStore::new(&g, &vi.states);
    let band = match band_override {
        Some(b) => b,
        None => couple_margin(&g, store.max_pen),
    };
    let nb = store.nblocks();
    let halo = (g.my as usize + BLOCK_ROWS - 1) / BLOCK_ROWS;
    let mut iters: u32 = 0;
    let mut total_updates: u64 = 0;
    let mut finalized: u64 = 0;
    let mut peak_resident_cols: u64 = 0;
    let mut peak_resident_blocks: u64 = 0;
    let mut freed_blocks: u64 = 0;
    let mut converged = false;
    let mut reachable_cols: u64 = 0;
    if ncol == 0 {
        converged = true;
    } else {
        let (cmin, cmax, rch, lv, cfin) = scan_columns(&vi.states, nxu, ncol, Ghost(nyi), Ghost(nti));
        let mut col_min = cmin;
        let mut col_max = cmax;
        let mut reached = rch;
        let mut live = lv;
        let mut col_final = cfin;
        proof {
            assert forall|k: int| 0 <= k < store.blocks@.len() implies !store.evicted@[k] by {
                assert(!store.allocated(k));
            }
            assert forall|i: int, k: int| #![trigger col_final@[i], store.evicted@[k]]
                0 <= i < nxi * nyi && !col_final@[i] && window(store, i / nxi).0 <= k <= window(store, i / nxi).1
                implies !store.evicted@[k] by {
                assert(0 <= i / nxi) by (nonlinear_arith) requires 0 <= i, nxi >= 1;
            }
        }
        let mut t = band;
        let mut running = true;
        while running
            invariant
                vi.states@ == s0,
                vi.actions@ == acts,
                vi.wf(),
                vi.cell_num_x as int == nxi,
                vi.cell_num_y as int == nyi,
                vi.cell_num_t as int == nti,
                nx == g.nx,
                ny == g.ny,
                nxi == nx,
                nyi == ny,
                nti == g.nt,
                nxu == nx,
                nxu >= 1,
                ncol == nxi * nyi,
                g.wf(acts),
                actions_ok(acts, nxi, nyi, nti),
                acts.len() <= i32::MAX,
                fits2(nx as u32, ny as u32),
                dx == g.mx,
                dx < 64,
                s0.len() == nxi * nyi * nti,
                sink.len_spec() == s0.len(),
                store.wf(),
                store.laid_out(g),
                store.blocks@.len() == nb,
                col_min@.len() == ncol,
                col_max@.len() == ncol,
                reached@.len() == ncol,
                col_final@.len() == ncol,
                live_windows(store, col_final@, nxi, nyi),
                running ==> forall|i: int| 0 <= i < frontier@.len() ==> (#[trigger] frontier@[i]).0 < nx && frontier@[i].1 < ny,
                running ==> frontier@.len() <= nxi * nyi,
                running ==> iters == 0 || iters < max_iter,
                !running ==> (iters <= max_iter || iters == 1),
                !running && !converged ==> iters >= max_iter,
                peak_resident_blocks <= nb,
            decreases (u32::MAX - iters) * 2 + if running { 1int } else { 0int },
        {
            let ghost it0 = iters;
            let ok = if parallel {
                converge_band_jacobi(&mut store, &g, &vi.states, nx, ny, dx, dy, t, max_iter, &mut frontier, &mut col_min,
                    &mut col_max, &col_final, &mut reached, &mut live, &mut iters, &mut total_updates)
            } else {
                converge_band_serial(&mut store, &g, &vi.states, nx, ny, dx, dy, t, max_iter, &mut frontier, &mut col_min,
                    &mut col_max, &col_final, &mut reached, &mut live, &mut iters, &mut total_updates)
            };
            if !ok {
                converged = false;
                running = false;
            } else {
                let wm = t.saturating_sub(band);
                let (fin, touched) = finalize_wave(&mut store, &g, &vi.states, sink, &live, &mut col_final, &col_max, wm,
                    nxu, ncol, Ghost(acts));
                finalized = finalized.saturating_add(fin);
                live = keep_unfinal(&live, &col_final);
                let freed = evict_wave(&mut store, &touched, halo, &col_final, nxu);
                proof {
                    assert(store.laid_out(g));
                }
                freed_blocks = freed_blocks.saturating_add(freed);
                let res = store.resident_blocks() as u64;
                proof {
                    crate::reference::solvers::compact_solve::lemma_built_count(store.blocks@, nb as int);
                }
                if res > peak_resident_blocks {
                    peak_resident_blocks = res;
                }
                let lc = live.len() as u64;
                if lc > peak_resident_cols {
                    peak_resident_cols = lc;
                }
                if live.len() == 0 {
                    converged = true;
                    running = false;
                } else {
                    t = t.saturating_add(band);
                    frontier = reactivate(&live, &col_min, &col_final, t, nx, ny, dx, dy);
                }
            }
        }
        reachable_cols = count_reached_cols(&col_max);
    }
    let total_blocks = nb as u64;
    write_back_sink(vi, &g, sink);
    let reachable = count_reached(&vi.states);
    CompactStats {
        iters,
        updates: total_updates,
        converged,
        finalized,
        reachable,
        peak_resident_cols,
        reachable_cols,
        freed_blocks,
        peak_resident_blocks,
        total_blocks,
    }
}

/// At most every block is built.
pub proof fn lemma_built_count(blocks: Seq<Option<crate::reference::solvers::compact::Block>>, k: int)
    requires
        0 <= k <= blocks.len(),
    ensures
        built_count(blocks, k) <= k,
    decreases k,
{
    if k > 0 {
        lemma_built_count(blocks, k - 1);
    }
}

/// Number of the states that are free, outside the goal, and reached.
pub fn count_reached(states: &Vec<State>) -> (r: u64)
    ensures
        r == reach_count(states@, states@.len() as int),
{
    let mut c: u64 = 0;
    let mut k: usize = 0;
    while k < states.len()
        invariant
            0 <= k <= states@.len(),
            c == reach_count(states@, k as int),
            c <= k,
        decreases states@.len() - k,
    {
        let s = &states[k];
        if s.free && !s.final_state && s.total_cost < MAX_COST {
            c += 1;
        }
        k += 1;
    }
    c
}

/// Number of the columns whose greatest value is reached.
fn count_reached_cols(col_max: &Vec<u64>) -> (r: u64)
    ensures
        r == reached_cols(col_max@, col_max@.len() as int),
        r <= col_max@.len(),
{
    let mut c: u64 = 0;
    let mut k: usize = 0;
    while k < col_max.len()
        invariant
            0 <= k <= col_max@.len(),
            c == reached_cols(col_max@, k as int),
            c <= k,
        decreases col_max@.len() - k,
    {
        if col_max[k] != MAX_COST {
            c += 1;
        }
        k += 1;
    }
    c
}

/// [`solve_compact_into`] with the values and actions held in memory, the
/// bands converged in place.
pub fn solve_compact(vi: &mut StateSpace, max_iter: u32, band_override: Option<u64>) -> (r: CompactStats)
    requires
        old(vi).wf(),
        frontier_ok(old(vi).actions@),
        1 <= old(vi).cell_num_t,
        old(vi).cell_num_x > 0 || old(vi).cell_num_y <= 1,
        fits2(old(vi).cell_num_x as u32, old(vi).cell_num_y as u32),
        forall|m: (int, int, int)| is_displacement(old(vi).actions@, old(vi).cell_num_t as int, m)
            ==> #[trigger] geom_fits(old(vi).cell_num_x as int, old(vi).cell_num_y as int, old(vi).cell_num_t as int, m.0, m.1),
        old(vi).actions@.len() <= i32::MAX,
        blocks_fit(old(vi).cell_num_x as int, old(vi).cell_num_t as int),
    ensures
        final(vi).actions@ == old(vi).actions@,
        final(vi).cell_num_x == old(vi).cell_num_x,
        final(vi).cell_num_y == old(vi).cell_num_y,
        final(vi).cell_num_t == old(vi).cell_num_t,
        final(vi).states@.len() == old(vi).states@.len(),
        forall|k: int| 0 <= k < old(vi).states@.len() ==> #[trigger] final(vi).states@[k] == (State {
            total_cost: final(vi).states@[k].total_cost,
            optimal_action: final(vi).states@[k].optimal_action,
            ..old(vi).states@[k]
        }),
        r.iters <= max_iter || r.iters == 1,
        !r.converged ==> r.iters >= max_iter,
        r.reachable == reach_count(final(vi).states@, final(vi).states@.len() as int),
{
    let mut sink = RamSink::new(vi.states.len());
    solve_compact_into(vi, max_iter, band_override, false, &mut sink)
}

/// [`solve_compact`] with the band width of the coupling margin; gives
/// `(rounds, lowered values, converged)`.
pub fn frontier2d_sparse_compact_solve(vi: &mut StateSpace, max_iter: u32) -> (r: (u32, u64, bool))
    requires
        old(vi).wf(),
        frontier_ok(old(vi).actions@),
        1 <= old(vi).cell_num_t,
        old(vi).cell_num_x > 0 || old(vi).cell_num_y <= 1,
        fits2(old(vi).cell_num_x as u32, old(vi).cell_num_y as u32),
        forall|m: (int, int, int)| is_displacement(old(vi).actions@, old(vi).cell_num_t as int, m)
            ==> #[trigger] geom_fits(old(vi).cell_num_x as int, old(vi).cell_num_y as int, old(vi).cell_num_t as int, m.0, m.1),
        old(vi).actions@.len() <= i32::MAX,
        blocks_fit(old(vi).cell_num_x as int, old(vi).cell_num_t as int),
    ensures
        final(vi).actions@ == old(vi).actions@,
        final(vi).cell_num_x == old(vi).cell_num_x,
        final(vi).cell_num_y == old(vi).cell_num_y,
        final(vi).cell_num_t == old(vi).cell_num_t,
        final(vi).states@.len() == old(vi).states@.len(),
        r.0 <= max_iter || r.0 == 1,
        !r.2 ==> r.0 >= max_iter,
{
    let s = solve_compact(vi, max_iter, None);
    (s.iters, s.updates, s.converged)
}

} // verus!
