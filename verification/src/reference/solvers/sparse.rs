//! Heading-sparse evaluation of the fused frontier solver.  Each cell keeps the
//! mask of the headings whose cost fell in the last round; a candidate column
//! only re-evaluates the headings within the heading displacement of a change
//! in its window, found by OR-ing the masks of the window and dilating the
//! result around the heading circle.
use vstd::prelude::*;
use vstd::wrapping::u64_specs;
use crate::reference::params::MAX_COST;
use crate::reference::value_iterator::{StateSpace, actions_ok};
use crate::reference::solvers::fused::{Geom, Fused, UNREACHED, fused_best, pad_index, action_cost_fused, lemma_buckets,
    lemma_pad_index, in_box};
use crate::reference::state::{Action, State};
use crate::reference::value_iterator::states_ok;
use crate::reference::solvers::frontier::{set_cell2, lists_cells2, displacement, is_displacement, frontier_ok, abs_int,
    seed_frontier_2d, seed_view2, lemma_frontier_offsets, lemma_cells2_len};
use crate::reference::solvers::fused::{geom_fits, fused_match, value_of, pad_of, final_policy_fused, write_back_fused};
use crate::bitboard::{Bitboard2D, fits2, empty_grid};
use crate::bitboard::ops::dilate_grid;
use crate::bitboard::enumerate::set_cells2;
use crate::bitboard::bits::{bit, lemma_bit_or};
use crate::reference::value_iterator::{index_of, in_grid};
use crate::reference::solvers::fused_async::{follows, lemma_lower_follows, lemma_no_clash};
use crate::reference::solvers::greatest::{lowering_inv, lemma_lower_step, lemma_inv_start, costs_le, below, hist_in_grid,
    agree_ok, fixed_below, COST_ROOM, greatest_settled, settled_outcome};
use crate::reference::solvers::sparse_settle::lemma_sparse_greatest;
use crate::reference::solvers::settle::{lemma_coords, lemma_listed_ok};

verus! {

/// The low `nt` bits set.
pub open spec fn full_of(nt: u64) -> u64 {
    if nt >= 64 { 0xffff_ffff_ffff_ffff } else { !(0xffff_ffff_ffff_ffffu64 << nt) }
}

/// `x` has no bit at or above `nt` set.
pub open spec fn within(x: u64, nt: u64) -> bool {
    x & !full_of(nt) == 0
}

/// Rotation by one heading towards higher headings on a circle of `nt` headings.
pub open spec fn rotl(l: u64, nt: u64) -> u64 {
    ((l << 1u64) | (l >> ((nt - 1) as u64))) & full_of(nt)
}

/// Rotation by one heading towards lower headings on a circle of `nt` headings.
pub open spec fn rotr(r: u64, nt: u64) -> u64 {
    ((r >> 1u64) | (r << ((nt - 1) as u64))) & full_of(nt)
}

/// Heading `t` lies within `k` steps, around the circle of `nt` headings, of a
/// heading set in `m`.
pub open spec fn near_heading(m: u64, t: int, k: int, nt: int) -> bool {
    exists|d: int| -k <= d <= k && #[trigger] bit(m, (t - d) % nt)
}

proof fn lemma_rot_bits(l: u64, nt: u64, t: u64)
    requires
        1 <= nt <= 64,
        t < nt,
        within(l, nt),
    ensures
        within(rotl(l, nt), nt),
        within(rotr(l, nt), nt),
        bit(rotl(l, nt), t as int) == bit(l, if t == 0 { nt - 1 } else { t - 1 }),
        bit(rotr(l, nt), t as int) == bit(l, if t == nt - 1 { 0 } else { t + 1 }),
{
    let full = full_of(nt);
    assert(nt < 64 ==> full == !(0xffff_ffff_ffff_ffffu64 << nt));
    assert(((((l << 1u64) | (l >> ((nt - 1) as u64))) & full) & !full == 0)
        && ((((l >> 1u64) | (l << ((nt - 1) as u64))) & full) & !full == 0)) by (bit_vector);
    assert(rotl(l, nt) == (((l << 1u64) | (l >> ((nt - 1) as u64))) & full));
    assert(rotr(l, nt) == (((l >> 1u64) | (l << ((nt - 1) as u64))) & full));
    assert(
        ((((l << 1u64) | (l >> ((nt - 1) as u64))) & full) >> t) & 1 == (l >> (if t == 0 { (nt - 1) as u64 } else { (t - 1) as u64 })) & 1
    ) by (bit_vector)
        requires 1 <= nt <= 64, t < nt, l & !full == 0, nt < 64 ==> full == !(0xffff_ffff_ffff_ffffu64 << nt), nt >= 64 ==> full == 0xffff_ffff_ffff_ffffu64;
    assert(
        ((((l >> 1u64) | (l << ((nt - 1) as u64))) & full) >> t) & 1 == (l >> (if t == (nt - 1) as u64 { 0u64 } else { (t + 1) as u64 })) & 1
    ) by (bit_vector)
        requires 1 <= nt <= 64, t < nt, l & !full == 0, nt < 64 ==> full == !(0xffff_ffff_ffff_ffffu64 << nt), nt >= 64 ==> full == 0xffff_ffff_ffff_ffffu64;
}

/// One dilation step keeps the bit characterisation of the rotated masks and
/// of their union.
proof fn lemma_rot_step(m: u64, l: u64, rr: u64, acc: u64, i: int, n: int)
    requires
        1 <= n <= 64,
        0 <= i,
        within(l, n as u64),
        within(rr, n as u64),
        within(acc, n as u64),
        forall|t: int| 0 <= t < n ==> #[trigger] bit(l, t) == bit(m, (t - i) % n),
        forall|t: int| 0 <= t < n ==> #[trigger] bit(rr, t) == bit(m, (t + i) % n),
        forall|t: int| 0 <= t < n ==> (#[trigger] bit(acc, t) <==> near_heading(m, t, i, n)),
    ensures
        within(rotl(l, n as u64), n as u64),
        within(rotr(rr, n as u64), n as u64),
        within(acc | rotl(l, n as u64) | rotr(rr, n as u64), n as u64),
        forall|t: int| 0 <= t < n ==> #[trigger] bit(rotl(l, n as u64), t) == bit(m, (t - (i + 1)) % n),
        forall|t: int| 0 <= t < n ==> #[trigger] bit(rotr(rr, n as u64), t) == bit(m, (t + (i + 1)) % n),
        forall|t: int| 0 <= t < n ==> (#[trigger] bit(acc | rotl(l, n as u64) | rotr(rr, n as u64), t) <==> near_heading(m, t, i + 1, n)),
{
    let nt = n as u64;
    let nl = rotl(l, nt);
    let nr = rotr(rr, nt);
    let nacc = acc | nl | nr;
    lemma_rot_bits(l, nt, 0);
    lemma_rot_bits(rr, nt, 0);
    let full = full_of(nt);
    assert(nacc & !full == 0) by (bit_vector)
        requires acc & !full == 0, nl & !full == 0, nr & !full == 0, nacc == acc | nl | nr;
    assert forall|t: int| 0 <= t < n implies #[trigger] bit(nl, t) == bit(m, (t - (i + 1)) % n) by {
        lemma_rot_bits(l, nt, t as u64);
        if t == 0 {
            vstd::arithmetic::div_mod::lemma_mod_add_multiples_vanish(-1 - i, n);
            assert(bit(l, n - 1) == bit(m, (n - 1 - i) % n));
        } else {
            assert(bit(nl, t) == bit(l, t - 1));
        }
    }
    assert forall|t: int| 0 <= t < n implies #[trigger] bit(nr, t) == bit(m, (t + (i + 1)) % n) by {
        lemma_rot_bits(rr, nt, t as u64);
        if t == n - 1 {
            vstd::arithmetic::div_mod::lemma_mod_add_multiples_vanish(i, n);
            assert(bit(rr, 0) == bit(m, (0 + i) % n));
        } else {
            assert(bit(nr, t) == bit(rr, t + 1));
        }
    }
    assert forall|t: int| 0 <= t < n implies (#[trigger] bit(nacc, t) <==> near_heading(m, t, i + 1, n)) by {
        lemma_bit_or(acc, nl, t as int);
        lemma_bit_or(acc | nl, nr, t as int);
        assert(bit(nl, t) == bit(m, (t - (i + 1)) % n));
        assert(bit(nr, t) == bit(m, (t + (i + 1)) % n));
        if near_heading(m, t, i + 1, n) {
            let d = choose|d: int| -(i + 1) <= d <= i + 1 && #[trigger] bit(m, (t - d) % n);
            if d == i + 1 {
                assert(bit(nl, t));
            } else if d == -(i + 1) {
                assert(t - d == t + (i + 1));
                assert(bit(nr, t));
            } else {
                assert(near_heading(m, t, i, n));
                assert(bit(acc, t));
            }
        }
        if bit(nacc, t) {
            if bit(acc, t) {
                let d = choose|d: int| -i <= d <= i && #[trigger] bit(m, (t - d) % n);
                assert(-(i + 1) <= d <= i + 1 && bit(m, (t - d) % n));
            } else if bit(nl, t) {
                assert(bit(m, (t - (i + 1)) % n));
            } else {
                assert(bit(m, (t - (-(i + 1))) % n));
            }
        }
    }
}

/// Dilation of the heading mask `m` by `k` steps around the circle of `nt`
/// headings: heading `t` is set in the result exactly when some heading within
/// `k` steps of it, either way round, is set in `m`.
pub fn rot_dilate(m: u64, k: i32, nt: i32) -> (r: u64)
    requires
        1 <= nt <= 64,
        within(m, nt as u64),
    ensures
        within(r, nt as u64),
        forall|t: int| 0 <= t < nt ==> (#[trigger] bit(r, t) <==> near_heading(m, t, if k < 0 { 0 } else { k as int }, nt as int)),
{
    let ghost n = nt as int;
    let nt_u = nt as u32;
    let full: u64 = if nt >= 64 {
        u64::MAX
    } else {
        let one_sh = 1u64 << nt_u;
        proof {
            let ntu = nt_u as u64;
            assert(one_sh == 1u64 << ntu);
            assert((1u64 << ntu) >= 1u64 && (1u64 << ntu) - 1u64 == !(0xffff_ffff_ffff_ffffu64 << ntu)) by (bit_vector)
                requires ntu < 64;
        }
        one_sh - 1
    };
    proof {
        assert(full == full_of(nt as u64));
        assert forall|t: int| 0 <= t < n implies (#[trigger] bit(m, t) <==> near_heading(m, t, 0, n)) by {
            vstd::arithmetic::div_mod::lemma_small_mod(t as nat, n as nat);
            if near_heading(m, t, 0, n) {
                let d = choose|d: int| 0 <= d <= 0 && #[trigger] bit(m, (t - d) % n);
                assert(d == 0);
            } else {
                assert(bit(m, (t - 0) % n) ==> near_heading(m, t, 0, n));
            }
        }
        assert forall|t: int| 0 <= t < n implies #[trigger] bit(m, t) == bit(m, (t - 0) % n) by {
            vstd::arithmetic::div_mod::lemma_small_mod(t as nat, n as nat);
        }
    }
    let mut acc = m;
    let mut l = m;
    let mut rr = m;
    let mut i: i32 = 0;
    while i < k
        invariant
            1 <= n <= 64,
            n == nt,
            nt_u == nt,
            full == full_of(nt as u64),
            0 <= i,
            i <= k || i == 0,
            within(m, nt as u64),
            within(l, nt as u64),
            within(rr, nt as u64),
            within(acc, nt as u64),
            forall|t: int| 0 <= t < n ==> #[trigger] bit(l, t) == bit(m, (t - i) % n),
            forall|t: int| 0 <= t < n ==> #[trigger] bit(rr, t) == bit(m, (t + i) % n),
            forall|t: int| 0 <= t < n ==> (#[trigger] bit(acc, t) <==> near_heading(m, t, i as int, n)),
        decreases k - i,
    {
        proof {
            lemma_rot_step(m, l, rr, acc, i as int, n);
        }
        let nl = ((l << 1) | (l >> (nt_u - 1))) & full;
        let nr = ((rr >> 1) | (rr << (nt_u - 1))) & full;
        assert(nl == rotl(l, nt as u64));
        assert(nr == rotr(rr, nt as u64));
        l = nl;
        rr = nr;
        acc = acc | nl | nr;
        i += 1;
    }
    acc
}

/// Heading `t` of a candidate is re-evaluated: every heading in the first
/// round, afterwards those within `mt` steps of a heading set in the gathered
/// mask `acc`.
pub open spec fn sel_heading(first: bool, acc: u64, t: int, mt: int, nt: int) -> bool {
    first || near_heading(acc, t, mt, nt)
}

/// The updates of headings `0 .. t` of the column at padded base `col`, in
/// order, restricted to the selected headings of cells that take part in the
/// update: a heading takes the least cost through the fused layout when that
/// lowers its value.  Gives the fused values, the mask of lowered headings and
/// how many were lowered.
pub open spec fn relax_col(cp: Seq<u64>, pen: Seq<u64>, ev: Seq<bool>, precomp: Seq<Vec<Vec<(i64, u64)>>>, col: int,
    first: bool, acc: u64, mt: int, nt: int, t: int) -> (Seq<u64>, u64, nat)
    decreases t,
{
    if t <= 0 {
        (cp, 0, 0)
    } else {
        let p = relax_col(cp, pen, ev, precomp, col, first, acc, mt, nt, t - 1);
        let k = t - 1;
        let j = col + k;
        if sel_heading(first, acc, k, mt, nt) && ev[j] {
            let before = if p.0[j] == UNREACHED { MAX_COST } else { u64_specs::wrapping_sub(p.0[j], pen[j]) };
            let m = fused_best(p.0, precomp, k, col, precomp.len() as int).0;
            if m < before {
                (p.0.update(j, u64_specs::wrapping_add(m, pen[j])), p.1 | (1u64 << (k as u64)), p.2 + 1)
            } else {
                p
            }
        } else {
            p
        }
    }
}

/// Relaxes the selected headings of column `(ix, iy)` in place; gives the mask
/// of the headings whose value fell and how many fell.
fn relax_column_masked(f: &mut Fused, g: &Geom, vi: &StateSpace, ix: i32, iy: i32, emask: u64,
    Ghost(first): Ghost<bool>, Ghost(acc): Ghost<u64>, Ghost(mt): Ghost<int>) -> (r: (u64, u64))
    requires
        vi.wf(),
        g.wf(vi.actions@),
        g.nx == vi.cell_num_x,
        g.ny == vi.cell_num_y,
        g.nt == vi.cell_num_t,
        1 <= g.nt <= 64,
        old(f).cp@.len() == g.pad_len(),
        old(f).pen@.len() == g.pad_len(),
        old(f).eval_ok@.len() == g.pad_len(),
        0 <= ix < g.nx,
        0 <= iy < g.ny,
        forall|t: int| 0 <= t < g.nt ==> #[trigger] bit(emask, t) == sel_heading(first, acc, t, mt, g.nt as int),
    ensures
        final(f).pen@ == old(f).pen@,
        final(f).eval_ok@ == old(f).eval_ok@,
        ({
            let res = relax_col(old(f).cp@, old(f).pen@, old(f).eval_ok@, g.precomp@,
                pad_index(ix as int, iy as int, 0, g.nx as int, g.nt as int, g.mx as int, g.my as int),
                first, acc, mt, g.nt as int, g.nt as int);
            &&& final(f).cp@ == res.0
            &&& r.0 == res.1
            &&& r.1 == res.2
        }),
        r.1 <= g.nt,
{
    let ghost cp0 = f.cp@;
    let ghost nx = g.nx as int;
    let ghost ny = g.ny as int;
    let ghost nt = g.nt as int;
    let ghost acts = vi.actions@;
    proof {
        assert(g.pad_len() <= 0x7fff_ffff * 0x7fff_ffff) by (nonlinear_arith)
            requires 0 <= g.row_stride <= 0x7fff_ffff, 0 <= g.ny + 2 * g.my <= 0x7fff_ffff,
                g.pad_len() == g.row_stride * (g.ny + 2 * g.my);
        lemma_pad_index(*g, ix as int, iy as int, 0, ix as int, iy as int, 0);
    }
    let col = g.pad_col(ix, iy);
    let mut cmask: u64 = 0;
    let mut ups: u64 = 0;
    let mut it: i32 = 0;
    while it < g.nt
        invariant
            0 <= it <= nt,
            nx == g.nx,
            ny == g.ny,
            nt == g.nt,
            1 <= nt <= 64,
            acts == vi.actions@,
            vi.wf(),
            actions_ok(acts, nx, ny, nt),
            g.wf(acts),
            0 <= ix < nx,
            0 <= iy < ny,
            g.pad_len() <= 0x7fff_ffff * 0x7fff_ffff,
            f.cp@.len() == g.pad_len(),
            f.pen@ == old(f).pen@,
            f.eval_ok@ == old(f).eval_ok@,
            f.pen@.len() == g.pad_len(),
            f.eval_ok@.len() == g.pad_len(),
            cp0 == old(f).cp@,
            col == pad_index(ix as int, iy as int, 0, nx, nt, g.mx as int, g.my as int),
            forall|t: int| 0 <= t < nt ==> #[trigger] bit(emask, t) == sel_heading(first, acc, t, mt, nt),
            (f.cp@, cmask, ups as nat) == relax_col(cp0, f.pen@, f.eval_ok@, g.precomp@, col as int, first, acc, mt, nt, it as int),
            ups <= it,
        decreases nt - it,
    {
        proof {
            lemma_pad_index(*g, ix as int, iy as int, it as int, ix as int, iy as int, it as int);
            assert(col + it == pad_index(ix as int, iy as int, it as int, nx, nt, g.mx as int, g.my as int));
            assert(bit(emask, it as int) == ((emask >> (it as u64)) & 1 == 1));
        }
        let pad = (col + it as i64) as usize;
        if (emask >> (it as u64)) & 1 == 1 && f.eval_ok[pad] {
            let cp_self = f.cp[pad];
            let pen_self = f.pen[pad];
            let before = if cp_self == UNREACHED { MAX_COST } else { cp_self.wrapping_sub(pen_self) };
            let mut min_cost: u64 = MAX_COST;
            let mut ai: usize = 0;
            while ai < vi.actions.len()
                invariant
                    0 <= ai <= acts.len(),
                    acts == vi.actions@,
                    actions_ok(acts, nx, ny, nt),
                    g.wf(acts),
                    nx == g.nx,
                    ny == g.ny,
                    nt == g.nt,
                    0 <= ix < nx,
                    0 <= iy < ny,
                    0 <= it < nt,
                    f.cp@.len() == g.pad_len(),
                    g.pad_len() <= 0x7fff_ffff * 0x7fff_ffff,
                    col == pad_index(ix as int, iy as int, 0, nx, nt, g.mx as int, g.my as int),
                    min_cost == fused_best(f.cp@, g.precomp@, it as int, col as int, ai as int).0,
                decreases acts.len() - ai,
            {
                proof {
                    lemma_buckets(acts, *g, ix as int, iy as int, it as int, ai as int);
                }
                let c = action_cost_fused(&f.cp, &g.precomp[ai][it as usize], col);
                if c < min_cost {
                    min_cost = c;
                }
                ai += 1;
            }
            proof {
                assert(g.precomp@.len() == acts.len());
            }
            if min_cost < before {
                f.cp.set(pad, min_cost.wrapping_add(pen_self));
                ups += 1;
                cmask = cmask | (1u64 << (it as u64));
            }
        }
        it += 1;
    }
    (cmask, ups)
}

/// Bitwise or of the `len` masks from index `b` on.
pub open spec fn row_or(masks: Seq<u64>, b: int, len: int) -> u64
    decreases len,
{
    if len <= 0 { 0 } else { row_or(masks, b, len - 1) | masks[b + len - 1] }
}

/// Bitwise or of the masks of `rows` rows of `wlen` cells, row `r` starting at
/// `x + (y + r) * mw`.
pub open spec fn win_or(masks: Seq<u64>, x: int, y: int, wlen: int, mw: int, rows: int) -> u64
    decreases rows,
{
    if rows <= 0 { 0 } else { win_or(masks, x, y, wlen, mw, rows - 1) | row_or(masks, x + (y + rows - 1) * mw, wlen) }
}

/// Or of the change masks in the window of `2 mx + 1` by `2 my + 1` cells centred
/// on column `(ix, iy)` of the mask grid padded by `mx`, `my`.
fn gather(masks: &Vec<u64>, ix: i32, iy: i32, mx: i32, my: i32, nx: i32, ny: i32) -> (r: u64)
    requires
        0 <= ix < nx,
        0 <= iy < ny,
        1 <= mx,
        1 <= my,
        nx + 2 * mx <= i32::MAX,
        ny + 2 * my <= i32::MAX,
        masks@.len() == (nx + 2 * mx) * (ny + 2 * my),
    ensures
        r == win_or(masks@, ix as int, iy as int, 2 * mx + 1, (nx + 2 * mx) as int, 2 * my + 1),
{
    let ghost mw = (nx + 2 * mx) as int;
    let ghost h = (ny + 2 * my) as int;
    let mw_e = (nx + 2 * mx) as usize;
    let wlen = (2 * mx + 1) as usize;
    let rows = 2 * my + 1;
    let n_m = masks.len();
    let mut acc: u64 = 0;
    let mut r: i32 = 0;
    while r < rows
        invariant
            0 <= r <= rows,
            n_m == masks@.len(),
            rows == 2 * my + 1,
            0 <= ix < nx,
            0 <= iy < ny,
            mw == nx + 2 * mx,
            h == ny + 2 * my,
            mw_e == mw,
            wlen == 2 * mx + 1,
            nx + 2 * mx <= i32::MAX,
            ny + 2 * my <= i32::MAX,
            masks@.len() == mw * h,
            acc == win_or(masks@, ix as int, iy as int, wlen as int, mw, r as int),
        decreases rows - r,
    {
        proof {
            assert((iy + r) * mw + mw <= h * mw) by (nonlinear_arith) requires 0 <= iy + r < h, 0 <= mw;
            assert(0 <= (iy + r) * mw) by (nonlinear_arith) requires 0 <= iy + r, 0 <= mw;
            assert(h * mw == mw * h) by (nonlinear_arith);
            assert(ix + (iy + r) * mw + wlen <= n_m);
        }
        let base = ix as usize + (iy + r) as usize * mw_e;
        let mut racc: u64 = 0;
        let mut k: usize = 0;
        while k < wlen
            invariant
                0 <= k <= wlen,
                wlen == 2 * mx + 1,
                ix + wlen <= mw,
                base + wlen <= masks@.len(),
                n_m == masks@.len(),
                base == ix + (iy + r) * mw,
                racc == row_or(masks@, base as int, k as int),
            decreases wlen - k,
        {
            racc = racc | masks[base + k];
            k += 1;
        }
        acc = acc | racc;
        r += 1;
    }
    acc
}

/// The relaxed column keeps the array length, its change mask stays within the
/// headings, and at most `t` headings fall.
proof fn lemma_relax_col(cp: Seq<u64>, pen: Seq<u64>, ev: Seq<bool>, precomp: Seq<Vec<Vec<(i64, u64)>>>, col: int,
    first: bool, acc: u64, mt: int, nt: int, t: int)
    requires
        1 <= nt <= 64,
        0 <= t <= nt,
        0 <= col,
        col + nt <= cp.len(),
    ensures
        relax_col(cp, pen, ev, precomp, col, first, acc, mt, nt, t).0.len() == cp.len(),
        within(relax_col(cp, pen, ev, precomp, col, first, acc, mt, nt, t).1, nt as u64),
        relax_col(cp, pen, ev, precomp, col, first, acc, mt, nt, t).2 <= t,
        !first && acc == 0 ==> relax_col(cp, pen, ev, precomp, col, first, acc, mt, nt, t) == (cp, 0u64, 0nat),
    decreases t,
{
    let full0 = full_of(nt as u64);
    assert(0u64 & !full0 == 0) by (bit_vector);
    if t > 0 {
        lemma_relax_col(cp, pen, ev, precomp, col, first, acc, mt, nt, t - 1);
        let p = relax_col(cp, pen, ev, precomp, col, first, acc, mt, nt, t - 1);
        let k = (t - 1) as u64;
        let full = full_of(nt as u64);
        let ntu = nt as u64;
        let pm = p.1;
        assert(ntu < 64 ==> full == !(0xffff_ffff_ffff_ffffu64 << ntu));
        assert((pm | (1u64 << k)) & !full == 0) by (bit_vector)
            requires pm & !full == 0, k < ntu, 1 <= ntu <= 64, ntu < 64 ==> full == !(0xffff_ffff_ffff_ffffu64 << ntu),
                ntu >= 64 ==> full == 0xffff_ffff_ffff_ffffu64;
        if !first && acc == 0 {
            if near_heading(acc, t - 1, mt, nt) {
                let d = choose|d: int| -mt <= d <= mt && #[trigger] bit(acc, (t - 1 - d) % nt);
                let sh = ((t - 1 - d) % nt) as u64;
                assert((0u64 >> sh) & 1 == 0) by (bit_vector);
            }
        }
    }
}

/// Every heading below `nt` is set in the full mask.
proof fn lemma_full_bits(nt: u64)
    requires
        1 <= nt <= 64,
    ensures
        within(full_of(nt), nt),
        forall|t: int| 0 <= t < nt ==> #[trigger] bit(full_of(nt), t),
{
    let full = full_of(nt);
    assert(nt < 64 ==> full == !(0xffff_ffff_ffff_ffffu64 << nt));
    assert(full & !full == 0) by (bit_vector);
    assert forall|t: int| 0 <= t < nt implies #[trigger] bit(full, t) by {
        let tu = t as u64;
        assert((full >> tu) & 1 == 1) by (bit_vector)
            requires tu < nt, 1 <= nt <= 64, nt < 64 ==> full == !(0xffff_ffff_ffff_ffffu64 << nt),
                nt >= 64 ==> full == 0xffff_ffff_ffff_ffffu64;
    }
}

/// Masks within the headings stay so under bitwise or.
proof fn lemma_or_within(a: u64, b: u64, nt: u64)
    requires
        within(a, nt),
        within(b, nt),
    ensures
        within(a | b, nt),
{
    let full = full_of(nt);
    assert((a | b) & !full == 0) by (bit_vector) requires a & !full == 0, b & !full == 0;
}

/// Or of within-heading masks stays within the headings.
proof fn lemma_win_within(masks: Seq<u64>, x: int, y: int, wlen: int, mw: int, rows: int, nt: u64)
    requires
        forall|j: int| 0 <= j < masks.len() ==> within(#[trigger] masks[j], nt),
        0 <= x,
        0 <= y,
        x + wlen <= mw,
        (y + rows) * mw <= masks.len(),
        0 <= wlen,
    ensures
        within(win_or(masks, x, y, wlen, mw, rows), nt),
    decreases rows,
{
    assert(within(0u64, nt)) by {
        let full = full_of(nt);
        assert(0u64 & !full == 0) by (bit_vector);
    }
    if rows > 0 {
        assert((y + rows - 1) * mw + mw == (y + rows) * mw) by (nonlinear_arith);
        lemma_win_within(masks, x, y, wlen, mw, rows - 1, nt);
        lemma_row_within(masks, x + (y + rows - 1) * mw, wlen, nt);
        lemma_or_within(win_or(masks, x, y, wlen, mw, rows - 1), row_or(masks, x + (y + rows - 1) * mw, wlen), nt);
    }
}

/// Or of a row of within-heading masks stays within the headings.
proof fn lemma_row_within(masks: Seq<u64>, b: int, len: int, nt: u64)
    requires
        forall|j: int| 0 <= j < masks.len() ==> within(#[trigger] masks[j], nt),
        0 <= b,
        b + len <= masks.len(),
    ensures
        within(row_or(masks, b, len), nt),
    decreases len,
{
    assert(within(0u64, nt)) by {
        let full = full_of(nt);
        assert(0u64 & !full == 0) by (bit_vector);
    }
    if len > 0 {
        lemma_row_within(masks, b, len - 1, nt);
        lemma_or_within(row_or(masks, b, len - 1), masks[b + len - 1], nt);
    }
}

/// Index of column `(x, y)` in the mask grid padded by `mx`, `my`, `mw` wide.
pub open spec fn midx(x: int, y: int, mx: int, my: int, mw: int) -> int {
    (x + mx) + (y + my) * mw
}

/// Masks after clearing the entries of `cells`, in order.
pub open spec fn zero_cells(masks: Seq<u64>, cells: Seq<(u32, u32)>, mx: int, my: int, mw: int) -> Seq<u64>
    decreases cells.len(),
{
    if cells.len() == 0 {
        masks
    } else {
        let c = cells.last();
        zero_cells(masks, cells.drop_last(), mx, my, mw).update(midx(c.0 as int, c.1 as int, mx, my, mw), 0)
    }
}

/// Masks after storing the change mask of every entry of `ch`, in order.
pub open spec fn store_cells(masks: Seq<u64>, ch: Seq<(u32, u32, u64)>, mx: int, my: int, mw: int) -> Seq<u64>
    decreases ch.len(),
{
    if ch.len() == 0 {
        masks
    } else {
        let c = ch.last();
        store_cells(masks, ch.drop_last(), mx, my, mw).update(midx(c.0 as int, c.1 as int, mx, my, mw), c.2)
    }
}

/// The columns of the entries of `ch`.
pub open spec fn cells_of(ch: Seq<(u32, u32, u64)>) -> Seq<(u32, u32)> {
    Seq::new(ch.len(), |i: int| (ch[i].0, ch[i].1))
}

/// The grid `v` with the columns of the entries of `ch` set.
pub open spec fn mark_cells(v: Seq<Seq<bool>>, ch: Seq<(u32, u32, u64)>) -> Seq<Seq<bool>>
    decreases ch.len(),
{
    if ch.len() == 0 {
        v
    } else {
        set_cell2(mark_cells(v, ch.drop_last()), (ch.last().0, ch.last().1))
    }
}

/// One compute phase over the candidate columns `cands`, in order: each
/// gathers the change masks of its window and relaxes its selected headings.
/// Gives the fused values, the changed columns with their masks, and how many
/// headings fell.
pub open spec fn sparse_round(cp: Seq<u64>, pen: Seq<u64>, ev: Seq<bool>, precomp: Seq<Vec<Vec<(i64, u64)>>>, masks: Seq<u64>,
    cands: Seq<(u32, u32)>, first: bool, mt: int, nx: int, nt: int, mx: int, my: int) -> (Seq<u64>, Seq<(u32, u32, u64)>, nat)
    decreases cands.len(),
{
    if cands.len() == 0 {
        (cp, Seq::empty(), 0)
    } else {
        let p = sparse_round(cp, pen, ev, precomp, masks, cands.drop_last(), first, mt, nx, nt, mx, my);
        let c = cands.last();
        let acc = win_or(masks, c.0 as int, c.1 as int, 2 * mx + 1, nx + 2 * mx, 2 * my + 1);
        let col = pad_index(c.0 as int, c.1 as int, 0, nx, nt, mx, my);
        let rc = relax_col(p.0, pen, ev, precomp, col, first, acc, mt, nt, nt);
        (rc.0, if rc.1 != 0 { p.1.push((c.0, c.1, rc.1)) } else { p.1 }, p.2 + rc.2)
    }
}

/// The rounds over the candidate lists of `hist`, from fused values `cp0` and
/// clear masks: each round's compute phase, then the masks of the previous
/// round's changes are cleared and those of this round's changes stored.
/// Gives the fused values, the masks, the changed columns of the last round,
/// their changes, and how many headings fell in all.
pub open spec fn sparse_rounds(cp0: Seq<u64>, pen: Seq<u64>, ev: Seq<bool>, precomp: Seq<Vec<Vec<(i64, u64)>>>,
    hist: Seq<Seq<(u32, u32)>>, mt: int, nx: int, ny: int, nt: int, mx: int, my: int)
    -> (Seq<u64>, Seq<u64>, Seq<(u32, u32)>, Seq<(u32, u32, u64)>, nat)
    decreases hist.len(),
{
    let mw = nx + 2 * mx;
    if hist.len() == 0 {
        (cp0, Seq::new((mw * (ny + 2 * my)) as nat, |j: int| 0u64), Seq::empty(), Seq::empty(), 0)
    } else {
        let p = sparse_rounds(cp0, pen, ev, precomp, hist.drop_last(), mt, nx, ny, nt, mx, my);
        let rd = sparse_round(p.0, pen, ev, precomp, p.1, hist.last(), hist.len() == 1, mt, nx, nt, mx, my);
        let m2 = store_cells(zero_cells(p.1, p.2, mx, my, mw), rd.1, mx, my, mw);
        (rd.0, m2, cells_of(rd.1), rd.1, p.4 + rd.2)
    }
}

/// `hist` is a run of the sparse solver from the seed grid `seed`: the first
/// round takes the columns of the seed dilated by `(mx, my)` in storage order;
/// each later round follows a round that changed some column, within
/// `max_iter` rounds, and takes the changed columns dilated by `(mx, my)`, in
/// storage order on even rounds and in reverse on odd ones; the last round
/// changed nothing or used up the rounds.
pub open spec fn sparse_run(cp0: Seq<u64>, pen: Seq<u64>, ev: Seq<bool>, precomp: Seq<Vec<Vec<(i64, u64)>>>, seed: Seq<Seq<bool>>,
    hist: Seq<Seq<(u32, u32)>>, max_iter: int, mt: int, nx: int, ny: int, nt: int, mx: int, my: int) -> bool {
    &&& hist.len() >= 1
    &&& crate::reference::solvers::frontier::lists_cells2(hist[0],
        crate::bitboard::ops::dilate_grid(seed, nx, ny, mx, my), nx, ny)
    &&& forall|r: int| 1 <= r < hist.len() ==> {
        let q = #[trigger] sparse_rounds(cp0, pen, ev, precomp, hist.take(r), mt, nx, ny, nt, mx, my);
        &&& q.3.len() > 0
        &&& r < max_iter
        &&& crate::reference::solvers::frontier::lists_cells2(if r % 2 == 1 { hist[r].reverse() } else { hist[r] },
            crate::bitboard::ops::dilate_grid(mark_cells(empty_grid(nx, ny), q.3), nx, ny, mx, my), nx, ny)
    }
    &&& ({
        let q = sparse_rounds(cp0, pen, ev, precomp, hist, mt, nx, ny, nt, mx, my);
        q.3.len() == 0 || hist.len() >= max_iter
    })
}

/// Clearing the masks of in-grid columns.
fn zero_masks(masks: &mut Vec<u64>, cells: &Vec<(u32, u32)>, mx: i32, my: i32, nx: i32, ny: i32, Ghost(nt): Ghost<u64>)
    requires
        1 <= mx,
        1 <= my,
        0 <= nx,
        0 <= ny,
        nx + 2 * mx <= i32::MAX,
        ny + 2 * my <= i32::MAX,
        old(masks)@.len() == (nx + 2 * mx) * (ny + 2 * my),
        forall|k: int| 0 <= k < cells@.len() ==> (#[trigger] cells@[k]).0 < nx && cells@[k].1 < ny,
        forall|j: int| 0 <= j < old(masks)@.len() ==> within(#[trigger] old(masks)@[j], nt),
    ensures
        final(masks)@ == zero_cells(old(masks)@, cells@, mx as int, my as int, (nx + 2 * mx) as int),
        final(masks)@.len() == old(masks)@.len(),
        forall|j: int| 0 <= j < final(masks)@.len() ==> within(#[trigger] final(masks)@[j], nt),
{
    let ghost mw = (nx + 2 * mx) as int;
    let mw_e = (nx + 2 * mx) as usize;
    let n_m = masks.len();
    let mut k: usize = 0;
    while k < cells.len()
        invariant
            0 <= k <= cells@.len(),
            1 <= mx,
            1 <= my,
            mw == nx + 2 * mx,
            mw_e == mw,
            n_m == masks@.len(),
            masks@.len() == (nx + 2 * mx) * (ny + 2 * my),
            forall|k2: int| 0 <= k2 < cells@.len() ==> (#[trigger] cells@[k2]).0 < nx && cells@[k2].1 < ny,
            forall|j: int| 0 <= j < masks@.len() ==> within(#[trigger] masks@[j], nt),
            masks@ == zero_cells(old(masks)@, cells@.take(k as int), mx as int, my as int, mw),
        decreases cells@.len() - k,
    {
        let (x, y) = cells[k];
        proof {
            assert(cells@[k as int] == (x, y));
            assert((y + my) * mw + mw <= (ny + 2 * my) * mw) by (nonlinear_arith) requires 0 <= y + my < ny + 2 * my, 0 <= mw;
            assert(0 <= (y + my) * mw) by (nonlinear_arith) requires 0 <= y + my, 0 <= mw;
            assert((ny + 2 * my) * mw == (nx + 2 * mx) * (ny + 2 * my)) by (nonlinear_arith) requires mw == nx + 2 * mx;
            assert(cells@.take(k + 1).drop_last() =~= cells@.take(k as int));
            assert(0u64 & !full_of(nt) == 0) by (bit_vector);
        }
        let j = (x as usize + mx as usize) + (y as usize + my as usize) * mw_e;
        masks.set(j, 0);
        k += 1;
    }
    proof {
        assert(cells@.take(cells@.len() as int) =~= cells@);
    }
}

/// Storing the change masks of the changed columns; gives the grid of the
/// changed columns and the list of them.
fn store_masks(masks: &mut Vec<u64>, ch: &Vec<(u32, u32, u64)>, mx: i32, my: i32, nx: i32, ny: i32, Ghost(nt): Ghost<u64>)
    -> (r: (Bitboard2D, Vec<(u32, u32)>))
    requires
        1 <= mx,
        1 <= my,
        0 <= nx,
        0 <= ny,
        nx + 2 * mx <= i32::MAX,
        ny + 2 * my <= i32::MAX,
        fits2(nx as u32, ny as u32),
        old(masks)@.len() == (nx + 2 * mx) * (ny + 2 * my),
        forall|k: int| 0 <= k < ch@.len() ==> (#[trigger] ch@[k]).0 < nx && ch@[k].1 < ny && within(ch@[k].2, nt),
        forall|j: int| 0 <= j < old(masks)@.len() ==> within(#[trigger] old(masks)@[j], nt),
    ensures
        final(masks)@ == store_cells(old(masks)@, ch@, mx as int, my as int, (nx + 2 * mx) as int),
        final(masks)@.len() == old(masks)@.len(),
        forall|j: int| 0 <= j < final(masks)@.len() ==> within(#[trigger] final(masks)@[j], nt),
        r.0.wf(),
        r.0.width() == nx,
        r.0.height() == ny,
        r.0@ == mark_cells(empty_grid(nx as int, ny as int), ch@),
        r.1@ == cells_of(ch@),
{
    let ghost mw = (nx + 2 * mx) as int;
    let mw_e = (nx + 2 * mx) as usize;
    let n_m = masks.len();
    let mut nf = Bitboard2D::new(nx as u32, ny as u32);
    let mut prev: Vec<(u32, u32)> = Vec::new();
    let mut k: usize = 0;
    while k < ch.len()
        invariant
            0 <= k <= ch@.len(),
            1 <= mx,
            1 <= my,
            mw == nx + 2 * mx,
            mw_e == mw,
            n_m == masks@.len(),
            masks@.len() == (nx + 2 * mx) * (ny + 2 * my),
            forall|k2: int| 0 <= k2 < ch@.len() ==> (#[trigger] ch@[k2]).0 < nx && ch@[k2].1 < ny && within(ch@[k2].2, nt),
            forall|j: int| 0 <= j < masks@.len() ==> within(#[trigger] masks@[j], nt),
            masks@ == store_cells(old(masks)@, ch@.take(k as int), mx as int, my as int, mw),
            nf.wf(),
            nf.width() == nx,
            nf.height() == ny,
            nf@ == mark_cells(empty_grid(nx as int, ny as int), ch@.take(k as int)),
            prev@ == cells_of(ch@.take(k as int)),
        decreases ch@.len() - k,
    {
        let (x, y, cm) = ch[k];
        proof {
            assert(ch@[k as int] == (x, y, cm));
            assert((y + my) * mw + mw <= (ny + 2 * my) * mw) by (nonlinear_arith) requires 0 <= y + my < ny + 2 * my, 0 <= mw;
            assert(0 <= (y + my) * mw) by (nonlinear_arith) requires 0 <= y + my, 0 <= mw;
            assert((ny + 2 * my) * mw == (nx + 2 * mx) * (ny + 2 * my)) by (nonlinear_arith) requires mw == nx + 2 * mx;
            assert(ch@.take(k + 1).drop_last() =~= ch@.take(k as int));
            assert(ch@.take(k + 1).last() == (x, y, cm));
        }
        let j = (x as usize + mx as usize) + (y as usize + my as usize) * mw_e;
        masks.set(j, cm);
        nf.set(x, y);
        prev.push((x, y));
        proof {
            assert(prev@ =~= cells_of(ch@.take(k + 1)));
        }
        k += 1;
    }
    proof {
        assert(ch@.take(ch@.len() as int) =~= ch@);
    }
    (nf, prev)
}

/// `v` in reverse order.
fn reversed(v: &Vec<(u32, u32)>) -> (r: Vec<(u32, u32)>)
    ensures
        r@ == v@.reverse(),
{
    let mut out: Vec<(u32, u32)> = Vec::new();
    let n = v.len();
    let mut i: usize = 0;
    while i < n
        invariant
            0 <= i <= n,
            n == v@.len(),
            out@.len() == i,
            forall|k: int| 0 <= k < i ==> #[trigger] out@[k] == v@[n - 1 - k],
        decreases n - i,
    {
        out.push(v[n - 1 - i]);
        i += 1;
    }
    proof {
        assert(out@ =~= v@.reverse());
    }
    out
}

/// The best action of state `s` through the fused values `cp`: `None` outside
/// the update and, when `skip`, on an `UNREACHED` cell; otherwise the first
/// action of least cost through the layout.
pub open spec fn policy_of(cp: Seq<u64>, ev: Seq<bool>, g: Geom, s: State, skip: bool, na: int) -> Option<usize> {
    let j = pad_of(s, g);
    if !ev[j] || (skip && cp[j] == UNREACHED) {
        None
    } else {
        fused_best(cp, g.precomp@, s.it as int, pad_index(s.ix as int, s.iy as int, 0, g.nx as int, g.nt as int, g.mx as int, g.my as int), na).1
    }
}

/// A run of the sparse solver from `states` with geometry `g`, heading
/// displacement `mt`, fused arrays `(cp0, pen, ev)` and candidate lists `hist`
/// ended with `states2` after `iters` rounds and `updates` lowered headings:
/// each state takes the value of its padded cell and the best action through
/// the final fused values, unreached cells skipped when the run `converged`
/// (its last round changed nothing).
pub open spec fn sparse_result(states: Seq<State>, actions: Seq<Action>, nx: int, ny: int, nt: int, max_iter: int,
    g: Geom, mt: int, cp0: Seq<u64>, pen: Seq<u64>, ev: Seq<bool>, hist: Seq<Seq<(u32, u32)>>,
    states2: Seq<State>, iters: int, updates: int, converged: bool) -> bool {
    let q = sparse_rounds(cp0, pen, ev, g.precomp@, hist, mt, nx, ny, nt, g.mx as int, g.my as int);
    &&& g.wf(actions)
    &&& g.nx == nx
    &&& g.ny == ny
    &&& g.nt == nt
    &&& is_displacement(actions, nt, (g.mx as int, g.my as int, mt))
    &&& fused_match(cp0, pen, ev, states, g)
    &&& sparse_run(cp0, pen, ev, g.precomp@, seed_view2(states, nx, ny, nt), hist, max_iter, mt, nx, ny, nt, g.mx as int, g.my as int)
    &&& iters == hist.len()
    &&& updates == q.4
    &&& converged == (q.3.len() == 0)
    &&& states2.len() == states.len()
    &&& forall|k: int| 0 <= k < states.len() ==> #[trigger] states2[k] == (State {
        total_cost: value_of(q.0, pen, pad_of(states[k], g)),
        optimal_action: policy_of(q.0, ev, g, states[k], converged, actions.len() as int),
        ..states[k]
    })
}

/// Frontier solver over columns with heading-sparse evaluation on the fused
/// padded layout, run by one worker.  Each round relaxes, in candidate order,
/// the headings of each candidate column that lie within the heading
/// displacement of a heading changed last round in the column's window (every
/// heading in the first round); the next candidates are the changed columns
/// dilated by the displacement, in storage order, reversed every other round.
/// Stops after a round that changed nothing (converged) or after `max_iter`
/// rounds (at least one), then writes the values and the best actions back;
/// gives `(rounds, lowered headings, converged)`.
pub fn frontier2d_sparse_solve(vi: &mut StateSpace, max_iter: u32) -> (r: (u32, u64, bool))
    requires
        old(vi).wf(),
        frontier_ok(old(vi).actions@),
        1 <= old(vi).cell_num_t <= 64,
        old(vi).cell_num_x > 0 || old(vi).cell_num_y <= 1,
        fits2(old(vi).cell_num_x as u32, old(vi).cell_num_y as u32),
        forall|m: (int, int, int)| is_displacement(old(vi).actions@, old(vi).cell_num_t as int, m)
            ==> #[trigger] geom_fits(old(vi).cell_num_x as int, old(vi).cell_num_y as int, old(vi).cell_num_t as int, m.0, m.1),
    ensures
        final(vi).actions@ == old(vi).actions@,
        final(vi).cell_num_x == old(vi).cell_num_x,
        final(vi).cell_num_y == old(vi).cell_num_y,
        final(vi).cell_num_t == old(vi).cell_num_t,
        exists|g: Geom, mt: int, cp0: Seq<u64>, pen: Seq<u64>, ev: Seq<bool>, hist: Seq<Seq<(u32, u32)>>|
            #[trigger] sparse_result(old(vi).states@, old(vi).actions@, old(vi).cell_num_x as int, old(vi).cell_num_y as int,
                old(vi).cell_num_t as int, max_iter as int, g, mt, cp0, pen, ev, hist, final(vi).states@, r.0 as int, r.1 as int, r.2),
        agree_ok(old(vi).states@, old(vi).actions@, old(vi).cell_num_t as int) && r.2 ==> exists|gs: Seq<State>|
            #[trigger] greatest_settled(gs, old(vi).states@, old(vi).actions@, old(vi).cell_num_x as int,
                old(vi).cell_num_y as int, old(vi).cell_num_t as int)
            && settled_outcome(final(vi).states@, gs, old(vi).states@, old(vi).actions@, old(vi).cell_num_x as int,
                old(vi).cell_num_y as int, old(vi).cell_num_t as int),
{
    let ghost s0 = vi.states@;
    let ghost acts = vi.actions@;
    let ghost nx = vi.cell_num_x as int;
    let ghost ny = vi.cell_num_y as int;
    let ghost nt = vi.cell_num_t as int;
    let ghost big_n = nx * ny * nt;
    proof {
        lemma_frontier_offsets(acts, nx, ny, nt);
    }
    let (mx, my, mt) = displacement(&vi.actions, vi.cell_num_t);
    let ghost m = (mx as int, my as int, mt as int);
    proof {
        assert(geom_fits(nx, ny, nt, mx as int, my as int));
        if mx != 1 {
            let (a, t, k) = choose|a: int, t: int, k: int| 0 <= a < acts.len() && 0 <= t < acts[a].state_transitions@.len()
                && 0 <= k < acts[a].state_transitions@[t]@.len() && abs_int((#[trigger] acts[a].state_transitions@[t]@[k]).dix as int) == m.0;
            assert(-63 <= acts[a].state_transitions@[t]@[k].dix <= 63);
        }
    }
    let g = Geom::build_with(vi, mx, my, Ghost(mt as int));
    let mut f = Fused::build_direct(vi, &g);
    let ghost cp0 = f.cp@;
    let ghost pen = f.pen@;
    let ghost ev = f.eval_ok@;
    let ghost precomp = g.precomp@;
    let nx_e = vi.cell_num_x;
    let ny_e = vi.cell_num_y;
    let nt_e = vi.cell_num_t;
    let ghost mw = nx + 2 * mx;
    let ghost mh = ny + 2 * my;
    let full_mask: u64 = if nt_e >= 64 { u64::MAX } else {
        let one_sh = 1u64 << (nt_e as u32);
        proof {
            let ntu = nt_e as u64;
            assert(one_sh == 1u64 << ntu);
            assert((1u64 << ntu) >= 1u64 && (1u64 << ntu) - 1u64 == !(0xffff_ffff_ffff_ffffu64 << ntu)) by (bit_vector)
                requires ntu < 64;
        }
        one_sh - 1
    };
    proof {
        assert(full_mask == full_of(nt as u64));
        lemma_full_bits(nt as u64);
        assert(mw * mh <= nt * mw * mh) by (nonlinear_arith) requires 1 <= nt, 0 <= mw, 0 <= mh;
        assert(nt * mw * mh == nt * (nx + 2 * mx) * (ny + 2 * my));
        assert(0 <= mw * mh) by (nonlinear_arith) requires 0 <= mw, 0 <= mh;
    }
    let n_masks = ((nx_e + 2 * mx) as usize) * ((ny_e + 2 * my) as usize);
    let mut masks: Vec<u64> = Vec::new();
    let mut k0: usize = 0;
    while k0 < n_masks
        invariant
            0 <= k0 <= n_masks,
            masks@.len() == k0,
            forall|j: int| 0 <= j < k0 ==> #[trigger] masks@[j] == 0u64,
        decreases n_masks - k0,
    {
        masks.push(0);
        k0 += 1;
    }
    proof {
        assert(masks@ =~= Seq::new((mw * mh) as nat, |j: int| 0u64));
        let full = full_of(nt as u64);
        assert(0u64 & !full == 0) by (bit_vector);
    }
    let seed = seed_frontier_2d(vi);
    let ghost seed_v = seed@;
    let mut cand: Vec<(u32, u32)> = seed.dilate(mx as u32, my as u32).enumerate();
    proof {
        lemma_cells2_len(cand@, dilate_grid(seed_v, nx, ny, mx as int, my as int), nx, ny);
        assert forall|k: int| 0 <= k < cand@.len() implies (#[trigger] cand@[k]).0 < nx && cand@[k].1 < ny by {
            assert(set_cells2(dilate_grid(seed_v, nx, ny, mx as int, my as int), nx, ny).contains((cand@[k].0 as int, cand@[k].1 as int)));
        }
        assert(big_n <= i32::MAX);
    }
    let mut prev_cells: Vec<(u32, u32)> = Vec::new();
    let mut updates: u64 = 0;
    let mut iter_count: u32 = 0;
    let mut converged = false;
    let mut running = true;
    let ghost mut hist: Seq<Seq<(u32, u32)>> = Seq::empty();
    while running
        invariant
            vi.states@ == s0,
            vi.actions@ == acts,
            vi.wf(),
            vi.cell_num_x == nx_e,
            vi.cell_num_y == ny_e,
            vi.cell_num_t == nt_e,
            nx == nx_e,
            ny == ny_e,
            nt == nt_e,
            1 <= nt <= 64,
            nx > 0 || ny <= 1,
            fits2(nx_e as u32, ny_e as u32),
            big_n == nx * ny * nt,
            0 <= big_n <= i32::MAX,
            g.wf(acts),
            g.nx == nx_e,
            g.ny == ny_e,
            g.nt == nt_e,
            g.mx == mx,
            g.my == my,
            m == (mx as int, my as int, mt as int),
            is_displacement(acts, nt, m),
            mx < 64,
            mw == nx + 2 * mx,
            mh == ny + 2 * my,
            full_mask == full_of(nt as u64),
            forall|t: int| 0 <= t < nt ==> #[trigger] bit(full_mask, t),
            precomp == g.precomp@,
            fused_match(cp0, pen, ev, s0, g),
            f.pen@ == pen,
            f.eval_ok@ == ev,
            f.cp@.len() == g.pad_len(),
            seed_v == seed_view2(s0, nx, ny, nt),
            masks@.len() == mw * mh,
            forall|j: int| 0 <= j < masks@.len() ==> within(#[trigger] masks@[j], nt as u64),
            forall|k: int| 0 <= k < cand@.len() ==> (#[trigger] cand@[k]).0 < nx && cand@[k].1 < ny,
            forall|k: int| 0 <= k < prev_cells@.len() ==> (#[trigger] prev_cells@[k]).0 < nx && prev_cells@[k].1 < ny,
            cand@.len() <= nx * ny,
            hist.len() == iter_count,
            iter_count <= max_iter || iter_count == 1,
            updates <= iter_count * big_n,
            ({
                let q = sparse_rounds(cp0, pen, ev, precomp, hist, mt as int, nx, ny, nt, mx as int, my as int);
                &&& f.cp@ == q.0
                &&& masks@ == q.1
                &&& prev_cells@ == q.2
                &&& updates == q.4
                &&& running ==> (if hist.len() == 0 {
                        lists_cells2(cand@, dilate_grid(seed_v, nx, ny, mx as int, my as int), nx, ny)
                    } else {
                        &&& q.3.len() > 0
                        &&& hist.len() < max_iter
                        &&& lists_cells2(if hist.len() % 2 == 1 { cand@.reverse() } else { cand@ },
                            dilate_grid(mark_cells(empty_grid(nx, ny), q.3), nx, ny, mx as int, my as int), nx, ny)
                    })
                &&& !running ==> converged == (q.3.len() == 0) && (q.3.len() == 0 || hist.len() >= max_iter)
            }),
            !running ==> hist.len() >= 1,
            hist.len() >= 1 ==> lists_cells2(hist[0], dilate_grid(seed_v, nx, ny, mx as int, my as int), nx, ny),
            forall|r: int| 1 <= r < hist.len() ==> {
                let q = #[trigger] sparse_rounds(cp0, pen, ev, precomp, hist.take(r), mt as int, nx, ny, nt, mx as int, my as int);
                &&& q.3.len() > 0
                &&& r < max_iter
                &&& lists_cells2(if r % 2 == 1 { hist[r].reverse() } else { hist[r] },
                    dilate_grid(mark_cells(empty_grid(nx, ny), q.3), nx, ny, mx as int, my as int), nx, ny)
            },
        decreases (max_iter as int + 1 - iter_count) * 2 + (if running { 1int } else { 0int }),
    {
        let ghost q = sparse_rounds(cp0, pen, ev, precomp, hist, mt as int, nx, ny, nt, mx as int, my as int);
        let first = iter_count == 0;
        let mut changed: Vec<(u32, u32, u64)> = Vec::new();
        let ghost cp_start = f.cp@;
        let ghost cv = cand@;
        let ghost u0 = updates;
        proof {
            assert((iter_count as int) * big_n + big_n == (iter_count + 1) * big_n) by (nonlinear_arith);
            assert((iter_count + 1) * big_n <= 0x1_0000_0000 * 0x7fff_ffff) by (nonlinear_arith)
                requires iter_count + 1 <= 0x1_0000_0000, 0 <= big_n <= 0x7fff_ffff;
            assert(cv.len() * nt <= big_n) by (nonlinear_arith) requires cv.len() <= nx * ny, big_n == nx * ny * nt, 0 <= nt;
            lemma_pad_index(g, 0, 0, 0, 0, 0, 0);
        }
        let mut j: usize = 0;
        while j < cand.len()
            invariant
                vi.states@ == s0,
                vi.actions@ == acts,
                vi.wf(),
                nx == vi.cell_num_x,
                ny == vi.cell_num_y,
                nt == vi.cell_num_t,
                nx_e == nx,
                ny_e == ny,
                nt_e == nt,
                1 <= nt <= 64,
                g.wf(acts),
                g.nx == vi.cell_num_x,
                g.ny == vi.cell_num_y,
                g.nt == vi.cell_num_t,
                g.mx == mx,
                g.my == my,
                0 <= mt,
                nx + 2 * mx <= i32::MAX,
                ny + 2 * my <= i32::MAX,
                1 <= mx,
                1 <= my,
                mw == nx + 2 * mx,
                mh == ny + 2 * my,
                full_mask == full_of(nt as u64),
                forall|t: int| 0 <= t < nt ==> #[trigger] bit(full_mask, t),
                precomp == g.precomp@,
                f.pen@ == pen,
                f.eval_ok@ == ev,
                f.cp@.len() == g.pad_len(),
                pen.len() == g.pad_len(),
                ev.len() == g.pad_len(),
                masks@.len() == mw * mh,
                forall|j2: int| 0 <= j2 < masks@.len() ==> within(#[trigger] masks@[j2], nt as u64),
                cv == cand@,
                forall|k: int| 0 <= k < cv.len() ==> (#[trigger] cv[k]).0 < nx && cv[k].1 < ny,
                cv.len() * nt <= big_n,
                0 <= j <= cv.len(),
                first == (hist.len() == 0),
                ({
                    let rd = sparse_round(cp_start, pen, ev, precomp, masks@, cv.take(j as int), first, mt as int, nx, nt, mx as int, my as int);
                    &&& f.cp@ == rd.0
                    &&& changed@ == rd.1
                    &&& updates == u0 + rd.2
                    &&& rd.2 <= j * nt
                }),
                forall|k: int| 0 <= k < changed@.len() ==> (#[trigger] changed@[k]).0 < nx && changed@[k].1 < ny
                    && within(changed@[k].2, nt as u64),
                u0 + big_n <= 0x8000_0000_0000_0000,
            decreases cv.len() - j,
        {
            let (ixu, iyu) = cand[j];
            let ghost rd = sparse_round(cp_start, pen, ev, precomp, masks@, cv.take(j as int), first, mt as int, nx, nt, mx as int, my as int);
            let ghost accg = win_or(masks@, ixu as int, iyu as int, 2 * mx + 1, mw, 2 * my + 1);
            proof {
                assert(cv[j as int] == (ixu, iyu));
                assert(cv.take(j + 1).drop_last() =~= cv.take(j as int));
                assert(cv.take(j + 1).last() == (ixu, iyu));
                assert((j + 1) * nt <= cv.len() * nt) by (nonlinear_arith) requires j + 1 <= cv.len(), 0 <= nt;
                assert(j * nt + nt == (j + 1) * nt) by (nonlinear_arith);
                lemma_pad_index(g, ixu as int, iyu as int, 0, ixu as int, iyu as int, 0);
                lemma_pad_index(g, ixu as int, iyu as int, nt - 1, ixu as int, iyu as int, nt - 1);
                lemma_relax_col(rd.0, pen, ev, precomp, pad_index(ixu as int, iyu as int, 0, nx, nt, mx as int, my as int),
                    first, accg, mt as int, nt, nt);
            }
            let ix = ixu as i32;
            let iy = iyu as i32;
            assert(ix as int == ixu as int && iy as int == iyu as int);
            let mut skip = false;
            let mut emask: u64 = full_mask;
            if !first {
                proof {
                    assert((iy + 2 * my + 1) * mw <= mh * mw) by (nonlinear_arith) requires iy + 2 * my + 1 <= mh, 0 <= mw;
                    assert(mh * mw == mw * mh) by (nonlinear_arith);
                    lemma_win_within(masks@, ix as int, iy as int, 2 * mx + 1, mw, 2 * my + 1, nt as u64);
                }
                let acc = gather(&masks, ix, iy, mx, my, nx_e, ny_e);
                if acc == 0 {
                    skip = true;
                } else {
                    emask = rot_dilate(acc, mt, nt_e);
                }
            }
            if !skip {
                let (cm, u) = relax_column_masked(&mut f, &g, vi, ix, iy, emask, Ghost(first), Ghost(accg), Ghost(mt as int));
                updates += u;
                if cm != 0 {
                    changed.push((ixu, iyu, cm));
                }
            }
            proof {
                assert(changed@ =~= sparse_round(cp_start, pen, ev, precomp, masks@, cv.take(j + 1), first, mt as int, nx, nt, mx as int, my as int).1);
            }
            j += 1;
        }
        proof {
            assert(cv.take(cv.len() as int) =~= cv);
        }
        iter_count += 1;
        zero_masks(&mut masks, &prev_cells, mx, my, nx_e, ny_e, Ghost(nt as u64));
        let any = changed.len() > 0;
        let (nf, new_prev) = store_masks(&mut masks, &changed, mx, my, nx_e, ny_e, Ghost(nt as u64));
        prev_cells = new_prev;
        let ghost h2 = hist.push(cv);
        proof {
            assert(h2.drop_last() =~= hist);
            assert(h2.last() == cv);
            assert forall|k: int| 0 <= k < prev_cells@.len() implies (#[trigger] prev_cells@[k]).0 < nx && prev_cells@[k].1 < ny by {
                assert(prev_cells@[k] == (changed@[k].0, changed@[k].1));
            }
            assert forall|r: int| 1 <= r < h2.len() implies {
                let q2 = #[trigger] sparse_rounds(cp0, pen, ev, precomp, h2.take(r), mt as int, nx, ny, nt, mx as int, my as int);
                &&& q2.3.len() > 0
                &&& r < max_iter
                &&& lists_cells2(if r % 2 == 1 { h2[r].reverse() } else { h2[r] },
                    dilate_grid(mark_cells(empty_grid(nx, ny), q2.3), nx, ny, mx as int, my as int), nx, ny)
            } by {
                if r < hist.len() {
                    assert(h2.take(r) =~= hist.take(r));
                    assert(h2[r] == hist[r]);
                } else {
                    assert(h2.take(r) =~= hist);
                }
            }
            if hist.len() >= 1 {
                assert(h2[0] == hist[0]);
            }
            hist = h2;
        }
        if any && iter_count < max_iter {
            let next0 = nf.dilate(mx as u32, my as u32).enumerate();
            proof {
                lemma_cells2_len(next0@, dilate_grid(nf@, nx, ny, mx as int, my as int), nx, ny);
                assert forall|k: int| 0 <= k < next0@.len() implies (#[trigger] next0@[k]).0 < nx && next0@[k].1 < ny by {
                    assert(set_cells2(dilate_grid(nf@, nx, ny, mx as int, my as int), nx, ny).contains((next0@[k].0 as int, next0@[k].1 as int)));
                }
            }
            if iter_count % 2 == 1 {
                cand = reversed(&next0);
                proof {
                    assert(cand@.reverse() =~= next0@);
                    assert forall|k: int| 0 <= k < cand@.len() implies (#[trigger] cand@[k]).0 < nx && cand@[k].1 < ny by {
                        assert(cand@[k] == next0@[next0@.len() - 1 - k]);
                    }
                }
            } else {
                cand = next0;
            }
        } else {
            converged = !any;
            running = false;
        }
    }
    let opt = final_policy_fused(vi, &g, &f, converged);
    write_back_fused(vi, &g, &f, &opt);
    let r = (iter_count, updates, converged);
    proof {
        let q = sparse_rounds(cp0, pen, ev, precomp, hist, mt as int, nx, ny, nt, mx as int, my as int);
        assert(sparse_run(cp0, pen, ev, precomp, seed_view2(s0, nx, ny, nt), hist, max_iter as int, mt as int, nx, ny, nt, mx as int, my as int));
        assert(sparse_result(s0, acts, nx, ny, nt, max_iter as int, g, mt as int, cp0, pen, ev, hist, vi.states@,
            r.0 as int, r.1 as int, r.2));
        if agree_ok(s0, acts, nt) && r.2 {
            let gs = lemma_sparse_greatest(s0, acts, nx, ny, nt, max_iter as int, g, mt as int, cp0, pen, ev, hist, vi.states@,
                r.0 as int, r.1 as int);
            assert(settled_outcome(vi.states@, gs, s0, acts, nx, ny, nt));
        }
    }
    r
}

/// The fused arrays `cp` follow states `st` that a clamped lowering run keeps:
/// below the start, within the room of its costs, and above every state
/// below the start that the clamped update cannot lower.
pub open spec fn tracks(s0: Seq<State>, acts: Seq<Action>, g: Geom, cp: Seq<u64>, pen: Seq<u64>, ev: Seq<bool>, st: Seq<State>) -> bool {
    &&& follows(s0, acts, g, cp, pen, ev, st)
    &&& lowering_inv(st, s0, acts, g.nx as int, g.ny as int, g.nt as int)
}

/// The relaxation of the selected headings `0 .. t` of an in-grid column keeps
/// the fused arrays tracking lowered states.
pub proof fn lemma_relax_tracks(s0: Seq<State>, acts: Seq<Action>, g: Geom, cp: Seq<u64>, pen: Seq<u64>, ev: Seq<bool>,
    st: Seq<State>, c: (u32, u32), first: bool, acc: u64, mt: int, t: int) -> (st2: Seq<State>)
    requires
        tracks(s0, acts, g, cp, pen, ev, st),
        c.0 < g.nx,
        c.1 < g.ny,
        0 <= t <= g.nt,
    ensures
        tracks(s0, acts, g, relax_col(cp, pen, ev, g.precomp@, pad_index(c.0 as int, c.1 as int, 0, g.nx as int, g.nt as int,
            g.mx as int, g.my as int), first, acc, mt, g.nt as int, t).0, pen, ev, st2),
    decreases t,
{
    if t <= 0 {
        st
    } else {
        let col = pad_index(c.0 as int, c.1 as int, 0, g.nx as int, g.nt as int, g.mx as int, g.my as int);
        let sp = lemma_relax_tracks(s0, acts, g, cp, pen, ev, st, c, first, acc, mt, t - 1);
        let p = relax_col(cp, pen, ev, g.precomp@, col, first, acc, mt, g.nt as int, t - 1);
        let k = t - 1;
        let j = col + k;
        lemma_lower_follows(s0, acts, g, p.0, pen, ev, sp, c, k);
        let idx = index_of(c.0 as int, c.1 as int, k, g.nx as int, g.nt as int);
        let m = fused_best(p.0, g.precomp@, k, col, g.precomp@.len() as int).0;
        let before = if p.0[j] == UNREACHED { MAX_COST } else { u64_specs::wrapping_sub(p.0[j], pen[j]) };
        if sel_heading(first, acc, k, mt, g.nt as int) && ev[j] && m < before {
            assert(costs_le(sp, sp));
            lemma_lower_step(s0, acts, g.nx as int, g.ny as int, g.nt as int, sp, sp, idx);
            sp.update(idx, State { total_cost: m, ..sp[idx] })
        } else {
            sp
        }
    }
}

/// A compute phase over in-grid candidate columns keeps the fused arrays
/// tracking lowered states.
pub proof fn lemma_sparse_round_tracks(s0: Seq<State>, acts: Seq<Action>, g: Geom, cp: Seq<u64>, pen: Seq<u64>, ev: Seq<bool>,
    st: Seq<State>, masks: Seq<u64>, cands: Seq<(u32, u32)>, first: bool, mt: int) -> (st2: Seq<State>)
    requires
        tracks(s0, acts, g, cp, pen, ev, st),
        forall|j: int| 0 <= j < cands.len() ==> (#[trigger] cands[j]).0 < g.nx && cands[j].1 < g.ny,
    ensures
        tracks(s0, acts, g, sparse_round(cp, pen, ev, g.precomp@, masks, cands, first, mt, g.nx as int, g.nt as int,
            g.mx as int, g.my as int).0, pen, ev, st2),
    decreases cands.len(),
{
    if cands.len() == 0 {
        st
    } else {
        let pc = cands.drop_last();
        assert forall|j: int| 0 <= j < pc.len() implies (#[trigger] pc[j]).0 < g.nx && pc[j].1 < g.ny by {
            assert(pc[j] == cands[j]);
        }
        let sp = lemma_sparse_round_tracks(s0, acts, g, cp, pen, ev, st, masks, pc, first, mt);
        let p = sparse_round(cp, pen, ev, g.precomp@, masks, pc, first, mt, g.nx as int, g.nt as int, g.mx as int, g.my as int);
        let c = cands.last();
        assert(c == cands[cands.len() - 1]);
        let acc = win_or(masks, c.0 as int, c.1 as int, 2 * g.mx + 1, g.nx + 2 * g.mx, 2 * g.my + 1);
        lemma_relax_tracks(s0, acts, g, p.0, pen, ev, sp, c, first, acc, mt, g.nt as int)
    }
}

/// The rounds of `hist` over in-grid columns keep the fused arrays tracking lowered states.
pub proof fn lemma_sparse_rounds_tracks(s0: Seq<State>, acts: Seq<Action>, g: Geom, cp0: Seq<u64>, pen: Seq<u64>, ev: Seq<bool>,
    hist: Seq<Seq<(u32, u32)>>, mt: int) -> (st2: Seq<State>)
    requires
        tracks(s0, acts, g, cp0, pen, ev, s0),
        hist_in_grid(hist, g.nx as int, g.ny as int),
    ensures
        tracks(s0, acts, g, sparse_rounds(cp0, pen, ev, g.precomp@, hist, mt, g.nx as int, g.ny as int, g.nt as int,
            g.mx as int, g.my as int).0, pen, ev, st2),
    decreases hist.len(),
{
    if hist.len() == 0 {
        s0
    } else {
        let ph = hist.drop_last();
        assert(hist_in_grid(ph, g.nx as int, g.ny as int)) by {
            assert forall|r: int, j: int| 0 <= r < ph.len() && 0 <= j < ph[r].len() implies (#[trigger] ph[r][j]).0 < g.nx && ph[r][j].1 < g.ny by {
                assert(ph[r] == hist[r]);
            }
        }
        let sp = lemma_sparse_rounds_tracks(s0, acts, g, cp0, pen, ev, ph, mt);
        let p = sparse_rounds(cp0, pen, ev, g.precomp@, ph, mt, g.nx as int, g.ny as int, g.nt as int, g.mx as int, g.my as int);
        let cells = hist.last();
        assert forall|j: int| 0 <= j < cells.len() implies (#[trigger] cells[j]).0 < g.nx && cells[j].1 < g.ny by {
            assert(cells[j] == hist[hist.len() - 1][j]);
        }
        lemma_sparse_round_tracks(s0, acts, g, p.0, pen, ev, sp, p.1, cells, hist.len() == 1, mt)
    }
}

/// A run of the sparse solver, converged or not, from a start meeting
/// [`agree_ok`] never undercuts a settled state: for every state `f` below the
/// start that the clamped update cannot lower, every free cell ends with a
/// cost between its cost in `f` and its starting cost.
pub proof fn lemma_sparse_above_settled(s0: Seq<State>, acts: Seq<Action>, nx: int, ny: int, nt: int, max_iter: int,
    g: Geom, mt: int, cp0: Seq<u64>, pen: Seq<u64>, ev: Seq<bool>, hist: Seq<Seq<(u32, u32)>>,
    s2: Seq<State>, iters: int, updates: int, converged: bool, f: Seq<State>)
    requires
        sparse_result(s0, acts, nx, ny, nt, max_iter, g, mt, cp0, pen, ev, hist, s2, iters, updates, converged),
        agree_ok(s0, acts, nt),
        states_ok(s0, nx, ny, nt),
        actions_ok(acts, nx, ny, nt),
        fixed_below(f, s0, acts, nx, ny, nt),
    ensures
        s2.len() == s0.len(),
        forall|k: int| 0 <= k < s0.len() && s0[k].free ==> f[k].total_cost <= (#[trigger] s2[k]).total_cost <= s0[k].total_cost,
{
    let mx = g.mx as int;
    let my = g.my as int;
    let precomp = g.precomp@;
    assert(below(s0, s0));
    lemma_inv_start(s0, acts, nx, ny, nt);
    assert(tracks(s0, acts, g, cp0, pen, ev, s0));
    assert(hist_in_grid(hist, nx, ny)) by {
        assert forall|r: int, j: int| 0 <= r < hist.len() && 0 <= j < hist[r].len()
            implies (#[trigger] hist[r][j]).0 < nx && hist[r][j].1 < ny by {
            let h = hist[r];
            if r == 0 {
                lemma_listed_ok(h, dilate_grid(seed_view2(s0, nx, ny, nt), nx, ny, mx, my), nx, ny);
            } else {
                let q = sparse_rounds(cp0, pen, ev, precomp, hist.take(r), mt, nx, ny, nt, mx, my);
                let v = dilate_grid(mark_cells(empty_grid(nx, ny), q.3), nx, ny, mx, my);
                if r % 2 == 1 {
                    lemma_listed_ok(h.reverse(), v, nx, ny);
                    assert(h.reverse()[h.len() - 1 - j] == h[j]);
                } else {
                    lemma_listed_ok(h, v, nx, ny);
                }
            }
        }
    }
    let st = lemma_sparse_rounds_tracks(s0, acts, g, cp0, pen, ev, hist, mt);
    let q = sparse_rounds(cp0, pen, ev, precomp, hist, mt, nx, ny, nt, mx, my);
    lemma_no_clash(s0, acts, nt, st);
    assert(costs_le(f, st));
    assert forall|k: int| 0 <= k < s0.len() && s0[k].free implies f[k].total_cost <= (#[trigger] s2[k]).total_cost <= s0[k].total_cost by {
        let x = s0[k];
        assert(in_grid(x, nx, ny, nt));
        lemma_coords(s0, x.ix as int, x.iy as int, x.it as int, nx, ny, nt);
        assert(index_of(x.ix as int, x.iy as int, x.it as int, nx, nt) == k);
        assert(in_box(g, x.ix as int, x.iy as int, x.it as int));
        let y = st[k];
        assert(y == (State { total_cost: y.total_cost, ..x }));
        assert(f[k] == (State { total_cost: f[k].total_cost, ..x }));
        assert(x.total_cost <= MAX_COST);
        assert(y.penalty + y.local_penalty <= COST_ROOM);
        assert(f[k].total_cost <= y.total_cost);
    }
}

} // verus!
