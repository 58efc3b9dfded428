//! Dilation, complement and row shifts of bitboards.
//!
//! A row of `nw` words is read as one `64 * nw`-bit integer: position `p` is bit
//! `p % 64` of word `p / 64`.
use vstd::prelude::*;
use vstd::arithmetic::div_mod::{lemma_small_mod, lemma_mod_add_multiples_vanish, lemma_mod_pos_bound};
use crate::bitboard::bits::{bit, lemma_bit_or, lemma_bit_and, lemma_bit_shl, lemma_bit_shr, lemma_bit_full_empty};
use crate::bitboard::{and_slice, or_slice, row_mask, Bitboard2D, Bitboard3D, stack_view};
use crate::bitboard::grid::{wpr_of, word_at, grid_cell, grid_view, grid_masked, grid_fits, lemma_index, lemma_index_inj, lemma_wpr,
    lemma_grid_frame, lemma_layer_grid, lemma_layer_row};

verus! {

/// Position `p` of the row `ws` (clear outside `0 .. 64 * ws.len()`).
pub open spec fn row_bit(ws: Seq<u64>, p: int) -> bool {
    0 <= p < 64 * ws.len() && bit(ws[p / 64], p % 64)
}

/// Some position within distance `d` of `p` is set in `ws`.
pub open spec fn near_in_row(ws: Seq<u64>, p: int, d: int) -> bool {
    exists|q: int| p - d <= q <= p + d && #[trigger] row_bit(ws, q)
}

/// Some position at distance `1 ..= d` from `p` is set in `ws`.
pub open spec fn near_off_in_row(ws: Seq<u64>, p: int, d: int) -> bool {
    exists|q: int| p - d <= q <= p + d && q != p && #[trigger] row_bit(ws, q)
}

/// Big-integer shift of one row by `sx` positions (toward higher positions when
/// `sx > 0`), masked: position `p` of the result is position `p - sx` of `row`
/// when the mask allows `p`.
pub fn shift_row(out: &mut Vec<u64>, row: &Vec<u64>, sx: i32, rmask: &Vec<u64>)
    requires
        old(out)@.len() == row@.len(),
        rmask@.len() == row@.len(),
        -64 < sx < 64,
    ensures
        final(out)@.len() == row@.len(),
        forall|i: int, b: int| 0 <= i < row@.len() && 0 <= b < 64 ==> #[trigger] bit(final(out)@[i], b) == (
            bit(rmask@[i], b) && row_bit(row@, 64 * i + b - sx)),
{
    let nw = row.len();
    if sx == 0 {
        let mut i: usize = 0;
        while i < nw
            invariant
                nw == row@.len(),
                out@.len() == nw,
                rmask@.len() == nw,
                sx == 0,
                i <= nw,
                forall|j: int, b: int| 0 <= j < i && 0 <= b < 64 ==> #[trigger] bit(out@[j], b) == (bit(rmask@[j], b)
                    && row_bit(row@, 64 * j + b - sx)),
            decreases nw - i,
        {
            let x = row[i] & rmask[i];
            out.set(i, x);
            proof {
                assert forall|b: int| 0 <= b < 64 implies #[trigger] bit(out@[i as int], b) == (bit(rmask@[i as int], b)
                    && row_bit(row@, 64 * i + b - sx)) by {
                    lemma_bit_and(row@[i as int], rmask@[i as int], b);
                    assert((64 * i + b) / 64 == i);
                    assert((64 * i + b) % 64 == b);
                }
            }
            i = i + 1;
        }
        return;
    }
    if sx > 0 {
        let s = sx as u32;
        let mut i: usize = 0;
        while i < nw
            invariant
                nw == row@.len(),
                out@.len() == nw,
                rmask@.len() == nw,
                0 < sx < 64,
                s == sx,
                i <= nw,
                forall|j: int, b: int| 0 <= j < i && 0 <= b < 64 ==> #[trigger] bit(out@[j], b) == (bit(rmask@[j], b)
                    && row_bit(row@, 64 * j + b - sx)),
            decreases nw - i,
        {
            let mut w = row[i].wrapping_shl(s);
            let ghost lo = w;
            if i > 0 {
                w = w | row[i - 1].wrapping_shr(64 - s);
            }
            let x = w & rmask[i];
            out.set(i, x);
            proof {
                assert forall|b: int| 0 <= b < 64 implies #[trigger] bit(out@[i as int], b) == (bit(rmask@[i as int], b)
                    && row_bit(row@, 64 * i + b - sx)) by {
                    lemma_bit_and(w, rmask@[i as int], b);
                    lemma_bit_shl(row@[i as int], s as int, b);
                    if i > 0 {
                        lemma_bit_or(lo, row@[i - 1] >> ((64 - s) as u64), b);
                        lemma_bit_shr(row@[i - 1], 64 - s, b);
                    }
                    let p = 64 * i + b - sx;
                    if b >= s {
                        assert(p / 64 == i);
                        assert(p % 64 == b - s);
                    } else if i > 0 {
                        assert(p / 64 == i - 1);
                        assert(p % 64 == b + 64 - s);
                    }
                }
            }
            i = i + 1;
        }
    } else {
        let n = (0 - sx) as u32;
        let mut i: usize = 0;
        while i < nw
            invariant
                nw == row@.len(),
                out@.len() == nw,
                rmask@.len() == nw,
                -64 < sx < 0,
                n == -sx,
                i <= nw,
                forall|j: int, b: int| 0 <= j < i && 0 <= b < 64 ==> #[trigger] bit(out@[j], b) == (bit(rmask@[j], b)
                    && row_bit(row@, 64 * j + b - sx)),
            decreases nw - i,
        {
            let mut w = row[i].wrapping_shr(n);
            let ghost lo = w;
            if i + 1 < nw {
                w = w | row[i + 1].wrapping_shl(64 - n);
            }
            let x = w & rmask[i];
            out.set(i, x);
            proof {
                assert forall|b: int| 0 <= b < 64 implies #[trigger] bit(out@[i as int], b) == (bit(rmask@[i as int], b)
                    && row_bit(row@, 64 * i + b - sx)) by {
                    lemma_bit_and(w, rmask@[i as int], b);
                    lemma_bit_shr(row@[i as int], n as int, b);
                    if i + 1 < nw {
                        lemma_bit_or(lo, row@[i + 1] << ((64 - n) as u64), b);
                        lemma_bit_shl(row@[i + 1], 64 - n, b);
                    }
                    let p = 64 * i + b - sx;
                    if b + n < 64 {
                        assert(p / 64 == i);
                        assert(p % 64 == b + n);
                    } else {
                        assert(p / 64 == i + 1);
                        assert(p % 64 == b + n - 64);
                    }
                }
            }
            i = i + 1;
        }
    }
}

/// Horizontal box dilation of one row by `dx`, masked: position `p` of the result
/// is set when the mask allows `p` and some position within `dx` of `p` is set in `row`.
pub fn dilate_row(row: &Vec<u64>, dx: u32, rmask: &Vec<u64>, scratch: &mut Vec<u64>) -> (r: Vec<u64>)
    requires
        rmask@.len() == row@.len(),
        dx < 64,
    ensures
        r@.len() == row@.len(),
        forall|i: int, b: int| 0 <= i < row@.len() && 0 <= b < 64 ==> #[trigger] bit(r@[i], b) == (bit(rmask@[i], b)
            && near_in_row(row@, 64 * i + b, dx as int)),
{
    let nw = row.len();
    let mut acc = row.clone();
    proof {
        assert(acc@ =~= row@);
    }
    scratch.clear();
    let mut k: usize = 0;
    while k < nw
        invariant
            k <= nw,
            scratch@.len() == k,
        decreases nw - k,
    {
        scratch.push(0u64);
        k = k + 1;
    }
    let mut s: i32 = 1;
    while s <= dx as i32
        invariant
            nw == row@.len(),
            rmask@.len() == nw,
            acc@.len() == nw,
            scratch@.len() == nw,
            dx < 64,
            1 <= s <= dx + 1,
            forall|i: int, b: int| 0 <= i < nw && 0 <= b < 64 ==> #[trigger] bit(acc@[i], b) == (row_bit(row@, 64 * i + b)
                || (bit(rmask@[i], b) && near_off_in_row(row@, 64 * i + b, (s - 1) as int))),
        decreases dx + 1 - s,
    {
        let ghost a0 = acc@;
        shift_row(scratch, row, s, rmask);
        or_slice(&mut acc, scratch);
        let ghost a1 = acc@;
        let ghost sc1 = scratch@;
        shift_row(scratch, row, -s, rmask);
        or_slice(&mut acc, scratch);
        proof {
            assert forall|i: int, b: int| 0 <= i < nw && 0 <= b < 64 implies #[trigger] bit(acc@[i], b) == (row_bit(row@, 64 * i + b)
                || (bit(rmask@[i], b) && near_off_in_row(row@, 64 * i + b, s as int))) by {
                let p = 64 * i + b;
                assert(p / 64 == i);
                assert(p % 64 == b);
                lemma_bit_or(a0[i], sc1[i], b);
                lemma_bit_or(a1[i], scratch@[i], b);
                assert(bit(sc1[i], b) == (bit(rmask@[i], b) && row_bit(row@, p - s)));
                assert(bit(scratch@[i], b) == (bit(rmask@[i], b) && row_bit(row@, p + s)));
                if near_off_in_row(row@, p, s as int) {
                    let q = choose|q: int| p - s <= q <= p + s && q != p && #[trigger] row_bit(row@, q);
                    if q != p - s && q != p + s {
                        assert(near_off_in_row(row@, p, (s - 1) as int));
                    }
                }
                if near_off_in_row(row@, p, (s - 1) as int) {
                    let q = choose|q: int| p - (s - 1) <= q <= p + (s - 1) && q != p && #[trigger] row_bit(row@, q);
                    assert(near_off_in_row(row@, p, s as int));
                }
                if row_bit(row@, p - s) {
                    assert(near_off_in_row(row@, p, s as int));
                }
                if row_bit(row@, p + s) {
                    assert(near_off_in_row(row@, p, s as int));
                }
            }
        }
        s = s + 1;
    }
    let ghost a2 = acc@;
    and_slice(&mut acc, rmask);
    proof {
        assert forall|i: int, b: int| 0 <= i < nw && 0 <= b < 64 implies #[trigger] bit(acc@[i], b) == (bit(rmask@[i], b)
            && near_in_row(row@, 64 * i + b, dx as int)) by {
            let p = 64 * i + b;
            lemma_bit_and(a2[i], rmask@[i], b);
            if near_in_row(row@, p, dx as int) {
                let q = choose|q: int| p - dx <= q <= p + dx && #[trigger] row_bit(row@, q);
                if q != p {
                    assert(near_off_in_row(row@, p, dx as int));
                }
            }
            if row_bit(row@, p) {
                assert(near_in_row(row@, p, dx as int));
            }
            if near_off_in_row(row@, p, dx as int) {
                let q = choose|q: int| p - dx <= q <= p + dx && q != p && #[trigger] row_bit(row@, q);
                assert(near_in_row(row@, p, dx as int));
            }
        }
    }
    acc
}

/// Some set cell of `v` (a `w × h` grid) lies within `dx` columns and `dy` rows of `(x, y)`.
pub open spec fn dilate_cell(v: Seq<Seq<bool>>, w: int, h: int, dx: int, dy: int, x: int, y: int) -> bool {
    exists|x2: int, y2: int|
        0 <= x2 < w && 0 <= y2 < h && x - dx <= x2 <= x + dx && y - dy <= y2 <= y + dy && #[trigger] v[y2][x2]
}

/// L-infinity box dilation of a `w × h` grid by `(dx, dy)`.
pub open spec fn dilate_grid(v: Seq<Seq<bool>>, w: int, h: int, dx: int, dy: int) -> Seq<Seq<bool>> {
    Seq::new(h as nat, |y: int| Seq::new(w as nat, |x: int| dilate_cell(v, w, h, dx, dy, x, y)))
}

/// Some row within `dy` of `y` has bit `b` of its word `wi` set.
pub open spec fn near_in_column(src: Seq<u64>, off: int, wpr: int, map_y: int, dy: int, y: int, wi: int, b: int) -> bool {
    exists|y2: int| 0 <= y2 < map_y && y - dy <= y2 <= y + dy && #[trigger] bit(word_at(src, off, wpr, y2, wi), b)
}

/// Vertical box dilation by `dy` of the grid stored from `off`, written to the same
/// region of `dst` (everything else of `dst` is kept).
fn ydilate_into(dst: &mut Vec<u64>, src: &Vec<u64>, off: usize, map_y: usize, wpr: usize, dy: u32)
    requires
        old(dst)@.len() == src@.len(),
        off + map_y * wpr <= src.len(),
    ensures
        final(dst)@.len() == old(dst)@.len(),
        forall|i: int| 0 <= i < src@.len() && !(off <= i < off + map_y * wpr) ==> #[trigger] final(dst)@[i] == old(dst)@[i],
        forall|y: int, wi: int, b: int| 0 <= y < map_y && 0 <= wi < wpr && 0 <= b < 64 ==> #[trigger] bit(word_at(final(dst)@, off as int, wpr as int, y, wi), b)
            == near_in_column(src@, off as int, wpr as int, map_y as int, dy as int, y, wi, b),
{
    for y in 0..map_y
        invariant
            dst@.len() == src@.len(),
            off + map_y * wpr <= src.len(),
            forall|i: int| 0 <= i < src@.len() && !(off <= i < off + y * wpr) ==> #[trigger] dst@[i] == old(dst)@[i],
            forall|y1: int, wi: int, b: int| 0 <= y1 < y && 0 <= wi < wpr && 0 <= b < 64 ==> #[trigger] bit(word_at(dst@, off as int, wpr as int, y1, wi), b)
                == near_in_column(src@, off as int, wpr as int, map_y as int, dy as int, y1, wi, b),
    {
        for w in 0..wpr
            invariant
                0 <= y < map_y,
                dst@.len() == src@.len(),
                off + map_y * wpr <= src.len(),
                forall|i: int| 0 <= i < src@.len() && !(off <= i < off + y * wpr + w) ==> #[trigger] dst@[i] == old(dst)@[i],
                forall|y1: int, wi: int, b: int| 0 <= y1 < map_y && 0 <= wi < wpr && (y1 < y || (y1 == y && wi < w)) && 0 <= b < 64
                    ==> #[trigger] bit(word_at(dst@, off as int, wpr as int, y1, wi), b)
                    == near_in_column(src@, off as int, wpr as int, map_y as int, dy as int, y1, wi, b),
        {
            proof {
                lemma_index(y as int, w as int, wpr as int, map_y as int);
            }
            let mut acc = src[off + y * wpr + w];
            proof {
                assert forall|b: int| 0 <= b < 64 && bit(acc, b) implies near_in_column(src@, off as int, wpr as int, map_y as int, 0, y as int, w as int, b) by {
                    assert(bit(word_at(src@, off as int, wpr as int, y as int, w as int), b));
                }
            }
            let mut sy: u64 = 1;
            while sy <= dy as u64
                invariant
                    0 <= y < map_y,
                    0 <= w < wpr,
                    off + map_y * wpr <= src.len(),
                    1 <= sy,
                    sy <= dy + 1,
                    forall|b: int| 0 <= b < 64 ==> #[trigger] bit(acc, b)
                        == near_in_column(src@, off as int, wpr as int, map_y as int, (sy - 1) as int, y as int, w as int, b),
                decreases dy + 1 - sy,
            {
                let ghost a0 = acc;
                if sy < (map_y - y) as u64 {
                    proof {
                        lemma_index((y + sy) as int, w as int, wpr as int, map_y as int);
                    }
                    acc = acc | src[off + (y + sy as usize) * wpr + w];
                }
                let ghost a1 = acc;
                if y as u64 >= sy {
                    proof {
                        lemma_index((y - sy) as int, w as int, wpr as int, map_y as int);
                    }
                    acc = acc | src[off + (y - sy as usize) * wpr + w];
                }
                proof {
                    assert forall|b: int| 0 <= b < 64 implies #[trigger] bit(acc, b)
                        == near_in_column(src@, off as int, wpr as int, map_y as int, sy as int, y as int, w as int, b) by {
                        let up = y + sy;
                        let dn = y - sy;
                        if sy < (map_y - y) as u64 {
                            lemma_bit_or(a0, word_at(src@, off as int, wpr as int, up, w as int), b);
                        }
                        if y >= sy {
                            lemma_bit_or(a1, word_at(src@, off as int, wpr as int, dn, w as int), b);
                        }
                        if near_in_column(src@, off as int, wpr as int, map_y as int, sy as int, y as int, w as int, b) {
                            let y2 = choose|y2: int| 0 <= y2 < map_y && y - sy <= y2 <= y + sy && #[trigger] bit(word_at(src@, off as int, wpr as int, y2, w as int), b);
                            if y2 != up && y2 != dn {
                                assert(near_in_column(src@, off as int, wpr as int, map_y as int, (sy - 1) as int, y as int, w as int, b));
                            }
                        }
                        if near_in_column(src@, off as int, wpr as int, map_y as int, (sy - 1) as int, y as int, w as int, b) {
                            let y2 = choose|y2: int| 0 <= y2 < map_y && y - (sy - 1) <= y2 <= y + (sy - 1) && #[trigger] bit(word_at(src@, off as int, wpr as int, y2, w as int), b);
                            assert(near_in_column(src@, off as int, wpr as int, map_y as int, sy as int, y as int, w as int, b));
                        }
                        if sy < map_y - y && bit(word_at(src@, off as int, wpr as int, up, w as int), b) {
                            assert(near_in_column(src@, off as int, wpr as int, map_y as int, sy as int, y as int, w as int, b));
                        }
                        if y >= sy && bit(word_at(src@, off as int, wpr as int, dn, w as int), b) {
                            assert(near_in_column(src@, off as int, wpr as int, map_y as int, sy as int, y as int, w as int, b));
                        }
                    }
                }
                sy = sy + 1;
            }
            let k = off + y * wpr + w;
            let ghost before = dst@;
            dst.set(k, acc);
            proof {
                assert forall|y1: int, wi: int, b: int| 0 <= y1 < map_y && 0 <= wi < wpr && (y1 < y || (y1 == y && wi < w + 1)) && 0 <= b < 64
                    implies #[trigger] bit(word_at(dst@, off as int, wpr as int, y1, wi), b)
                    == near_in_column(src@, off as int, wpr as int, map_y as int, dy as int, y1, wi, b) by {
                    lemma_index(y1, wi, wpr as int, map_y as int);
                    if y1 * wpr + wi == y * wpr + w {
                        lemma_index_inj(y1, wi, y as int, w as int, wpr as int);
                    } else {
                        assert(word_at(dst@, off as int, wpr as int, y1, wi) == word_at(before, off as int, wpr as int, y1, wi));
                    }
                }
            }
        }
        proof {
            lemma_index(y as int, 0, wpr as int + 1, map_y as int);
            assert(y * wpr + wpr == (y + 1) * wpr) by (nonlinear_arith);
        }
    }
}

/// The `wpr` words of row `y` of the grid stored from `off`.
pub open spec fn row_words(d: Seq<u64>, off: int, wpr: int, y: int) -> Seq<u64> {
    d.subrange(off + y * wpr, off + y * wpr + wpr)
}

/// The column-dilated rows dilated along the row give the box dilation.
proof fn lemma_box_cell(src: Seq<u64>, d1: Seq<u64>, off: int, map_x: int, map_y: int, wpr: int, dx: int, dy: int, x: int, y: int)
    requires
        grid_fits(src, off, map_x, map_y, wpr),
        grid_masked(src, off, map_x, map_y, wpr),
        d1.len() == src.len(),
        0 <= dx,
        0 <= x < map_x,
        0 <= y < map_y,
        forall|y1: int, wi: int, b: int| 0 <= y1 < map_y && 0 <= wi < wpr && 0 <= b < 64 ==> #[trigger] bit(word_at(d1, off, wpr, y1, wi), b)
            == near_in_column(src, off, wpr, map_y, dy, y1, wi, b),
    ensures
        near_in_row(row_words(d1, off, wpr, y), x, dx) == dilate_cell(grid_view(src, off, map_x, map_y, wpr), map_x, map_y, dx, dy, x, y),
{
    lemma_wpr(map_x);
    lemma_index(y, 0, wpr, map_y);
    lemma_index(y, wpr - 1, wpr, map_y);
    let ws = row_words(d1, off, wpr, y);
    let v = grid_view(src, off, map_x, map_y, wpr);
    assert(ws.len() == wpr);
    if near_in_row(ws, x, dx) {
        let q = choose|q: int| x - dx <= q <= x + dx && #[trigger] row_bit(ws, q);
        assert(ws[q / 64] == word_at(d1, off, wpr, y, q / 64));
        assert(near_in_column(src, off, wpr, map_y, dy, y, q / 64, q % 64));
        let y2 = choose|y2: int| 0 <= y2 < map_y && y - dy <= y2 <= y + dy && #[trigger] bit(word_at(src, off, wpr, y2, q / 64), q % 64);
        if q >= map_x {
            assert(64 * (q / 64) + q % 64 >= map_x);
            assert(!bit(word_at(src, off, wpr, y2, q / 64), q % 64));
        }
        assert(v[y2][q]);
        assert(dilate_cell(v, map_x, map_y, dx, dy, x, y));
    }
    if dilate_cell(v, map_x, map_y, dx, dy, x, y) {
        let (x2, y2) = choose|x2: int, y2: int|
            0 <= x2 < map_x && 0 <= y2 < map_y && x - dx <= x2 <= x + dx && y - dy <= y2 <= y + dy && #[trigger] v[y2][x2];
        assert(bit(word_at(src, off, wpr, y2, x2 / 64), x2 % 64));
        assert(near_in_column(src, off, wpr, map_y, dy, y, x2 / 64, x2 % 64));
        assert(ws[x2 / 64] == word_at(d1, off, wpr, y, x2 / 64));
        assert(row_bit(ws, x2));
        assert(near_in_row(ws, x, dx));
    }
}

/// L-infinity box dilation by `(dx, dy)` of the grid stored from `off` in `src`,
/// written to the same region of `dst` (everything else of `dst` is kept).
/// `scratch_pos` and `scratch_neg` are reusable row buffers; `rmask` is the row mask.
pub(crate) fn dilate2d_into(
    dst: &mut Vec<u64>,
    src: &Vec<u64>,
    off: usize,
    map_y: usize,
    wpr: usize,
    dx: u32,
    dy: u32,
    scratch_pos: &mut Vec<u64>,
    scratch_neg: &mut Vec<u64>,
    rmask: &Vec<u64>,
    Ghost(map_x): Ghost<int>,
)
    requires
        dx < 64,
        old(dst)@.len() == src@.len(),
        off + map_y * wpr <= src.len(),
        grid_fits(src@, off as int, map_x, map_y as int, wpr as int),
        grid_masked(src@, off as int, map_x, map_y as int, wpr as int),
        rmask@.len() == wpr,
        forall|w: int, b: int| 0 <= w < wpr && 0 <= b < 64 ==> #[trigger] bit(rmask@[w], b) == (64 * w + b < map_x),
    ensures
        final(dst)@.len() == old(dst)@.len(),
        forall|i: int| 0 <= i < src@.len() && !(off <= i < off + map_y * wpr) ==> #[trigger] final(dst)@[i] == old(dst)@[i],
        grid_view(final(dst)@, off as int, map_x, map_y as int, wpr as int) == dilate_grid(
            grid_view(src@, off as int, map_x, map_y as int, wpr as int), map_x, map_y as int, dx as int, dy as int),
        grid_masked(final(dst)@, off as int, map_x, map_y as int, wpr as int),
{
    ydilate_into(dst, src, off, map_y, wpr, dy);
    let ghost d0 = old(dst)@;
    let ghost d1 = dst@;
    for y in 0..map_y
        invariant
            dx < 64,
            dst@.len() == src@.len(),
            d1.len() == src@.len(),
            off + map_y * wpr <= src.len(),
            grid_fits(src@, off as int, map_x, map_y as int, wpr as int),
            rmask@.len() == wpr,
            forall|w: int, b: int| 0 <= w < wpr && 0 <= b < 64 ==> #[trigger] bit(rmask@[w], b) == (64 * w + b < map_x),
            forall|i: int| 0 <= i < src@.len() && !(off <= i < off + map_y * wpr) ==> #[trigger] d1[i] == d0[i],
            forall|i: int| 0 <= i < src@.len() && !(off <= i < off + y * wpr) ==> #[trigger] dst@[i] == d1[i],
            forall|y1: int, wi: int, b: int| 0 <= y1 < y && 0 <= wi < wpr && 0 <= b < 64 ==> #[trigger] bit(word_at(dst@, off as int, wpr as int, y1, wi), b)
                == (64 * wi + b < map_x && near_in_row(row_words(d1, off as int, wpr as int, y1), 64 * wi + b, dx as int)),
    {
        proof {
            lemma_index(y as int, 0, wpr as int + 1, map_y as int);
            assert(y * wpr + wpr == (y + 1) * wpr) by (nonlinear_arith);
            assert((y + 1) * wpr <= map_y * wpr) by (nonlinear_arith) requires y + 1 <= map_y;
            assert(0 <= y * wpr) by (nonlinear_arith);
        }
        let base = off + y * wpr;
        scratch_pos.clear();
        for w in 0..wpr
            invariant
                base == off + y * wpr,
                base + wpr <= dst.len(),
                dst@.len() == src@.len(),
                forall|i: int| 0 <= i < src@.len() && !(off <= i < off + y * wpr) ==> #[trigger] dst@[i] == d1[i],
                scratch_pos@.len() == w,
                forall|j: int| 0 <= j < w ==> #[trigger] scratch_pos@[j] == d1[base + j],
        {
            scratch_pos.push(dst[base + w]);
        }
        proof {
            assert(scratch_pos@ =~= row_words(d1, off as int, wpr as int, y as int));
        }
        let r = dilate_row(scratch_pos, dx, rmask, scratch_neg);
        let ghost rowv = scratch_pos@;
        for w in 0..wpr
            invariant
                0 <= y < map_y,
                base == off + y * wpr,
                base + wpr <= dst.len(),
                off + y * wpr + wpr == off + (y + 1) * wpr,
                off + map_y * wpr <= src.len(),
                dst@.len() == src@.len(),
                d1.len() == src@.len(),
                r@.len() == wpr,
                rowv == row_words(d1, off as int, wpr as int, y as int),
                forall|i: int, b: int| 0 <= i < wpr && 0 <= b < 64 ==> #[trigger] bit(r@[i], b) == (bit(rmask@[i], b)
                    && near_in_row(rowv, 64 * i + b, dx as int)),
                forall|i: int| 0 <= i < src@.len() && !(off <= i < off + y * wpr) && !(base <= i < base + w) ==> #[trigger] dst@[i] == d1[i],
                forall|j: int| 0 <= j < w ==> #[trigger] dst@[base + j] == r@[j],
                forall|y1: int, wi: int, b: int| 0 <= y1 < y && 0 <= wi < wpr && 0 <= b < 64 ==> #[trigger] bit(word_at(dst@, off as int, wpr as int, y1, wi), b)
                    == (64 * wi + b < map_x && near_in_row(row_words(d1, off as int, wpr as int, y1), 64 * wi + b, dx as int)),
        {
            let ghost before = dst@;
            dst.set(base + w, r[w]);
            proof {
                assert forall|y1: int, wi: int, b: int| 0 <= y1 < y && 0 <= wi < wpr && 0 <= b < 64 implies #[trigger] bit(word_at(dst@, off as int, wpr as int, y1, wi), b)
                    == (64 * wi + b < map_x && near_in_row(row_words(d1, off as int, wpr as int, y1), 64 * wi + b, dx as int)) by {
                    lemma_index(y1, wi, wpr as int, y as int);
                    assert(word_at(dst@, off as int, wpr as int, y1, wi) == word_at(before, off as int, wpr as int, y1, wi));
                }
            }
        }
        proof {
            assert forall|y1: int, wi: int, b: int| 0 <= y1 < y + 1 && 0 <= wi < wpr && 0 <= b < 64 implies #[trigger] bit(word_at(dst@, off as int, wpr as int, y1, wi), b)
                == (64 * wi + b < map_x && near_in_row(row_words(d1, off as int, wpr as int, y1), 64 * wi + b, dx as int)) by {
                if y1 == y {
                    assert(word_at(dst@, off as int, wpr as int, y1, wi) == dst@[base + wi]);
                    assert(bit(rmask@[wi], b) == (64 * wi + b < map_x));
                }
            }
        }
    }
    proof {
        let v = grid_view(src@, off as int, map_x, map_y as int, wpr as int);
        let g = grid_view(dst@, off as int, map_x, map_y as int, wpr as int);
        let t = dilate_grid(v, map_x, map_y as int, dx as int, dy as int);
        lemma_wpr(map_x);
        assert forall|y: int| 0 <= y < map_y implies #[trigger] g[y] =~= t[y] by {
            assert forall|x: int| 0 <= x < map_x implies g[y][x] == t[y][x] by {
                assert(64 * (x / 64) + x % 64 == x);
                lemma_box_cell(src@, d1, off as int, map_x, map_y as int, wpr as int, dx as int, dy as int, x, y);
            }
        }
        assert(g =~= t);
    }
}

/// L-infinity box dilation of a 2-D board by `(dx, dy)`.
pub fn dilate2d(bb: &Bitboard2D, dx: u32, dy: u32) -> (r: Bitboard2D)
    requires
        bb.wf(),
        dx < 64,
    ensures
        r.wf(),
        r.width() == bb.width(),
        r.height() == bb.height(),
        r@ == dilate_grid(bb@, bb.width(), bb.height(), dx as int, dy as int),
{
    let map_x = bb.map_x;
    let map_y = bb.map_y as usize;
    let wpr = bb.words_per_row as usize;
    let rmask = row_mask(map_x);
    let src = &bb.data;
    let mut out_data = vec![0u64; map_y * wpr];
    let mut scratch_pos: Vec<u64> = Vec::new();
    let mut scratch_neg: Vec<u64> = Vec::new();
    dilate2d_into(&mut out_data, src, 0, map_y, wpr, dx, dy, &mut scratch_pos, &mut scratch_neg, &rmask, Ghost(map_x as int));
    Bitboard2D { data: out_data, map_x, map_y: bb.map_y, words_per_row: bb.words_per_row }
}

/// Word `w` of layer `t` of layers of `stride` words.
pub open spec fn layer_word(d: Seq<u64>, stride: int, t: int, w: int) -> u64 {
    d[t * stride + w]
}

/// Bit `b` of word `w` is set in layer `t + st` or layer `t - st` (cyclically).
pub open spec fn theta_bit(d: Seq<u64>, stride: int, nt: int, t: int, st: int, w: int, b: int) -> bool {
    bit(layer_word(d, stride, (t + st) % nt, w), b) || bit(layer_word(d, stride, (t + nt - st) % nt, w), b)
}

/// Cell `(x, y)` is set in layer `t + st` or layer `t - st` (cyclically) of `d`.
pub open spec fn theta_hit(d: Seq<Seq<Seq<bool>>>, nt: int, t: int, st: int, y: int, x: int) -> bool {
    d[(t + st) % nt][y][x] || d[(t + nt - st) % nt][y][x]
}

/// Some layer within cyclic distance `dt` of `t` has cell `(x, y)` set.
pub open spec fn near_layer(d: Seq<Seq<Seq<bool>>>, nt: int, dt: int, t: int, y: int, x: int) -> bool {
    exists|st: int| 0 <= st <= dt && #[trigger] theta_hit(d, nt, t, st, y, x)
}

/// 3-D box dilation of a stack of `nt` layers of `w × h` cells: `(dx, dy)` within a
/// layer, then cyclically by `dt` across layers.
pub open spec fn dilate_stack(v: Seq<Seq<Seq<bool>>>, w: int, h: int, nt: int, dx: int, dy: int, dt: int) -> Seq<Seq<Seq<bool>>> {
    let d = Seq::new(nt as nat, |t: int| dilate_grid(v[t], w, h, dx, dy));
    Seq::new(nt as nat, |t: int| Seq::new(h as nat, |y: int| Seq::new(w as nat, |x: int| near_layer(d, nt, dt, t, y, x))))
}

/// Cyclic theta dilation by `dt` of `nt` layers of `stride` words.
/// Cyclic theta dilation by `dt` of `nt` layers of `stride` words.
fn theta_dilate(temp: &Vec<u64>, nt: usize, stride: usize, dt: u32) -> (out: Vec<u64>)
    requires
        temp.len() == nt * stride,
        nt <= u32::MAX,
        nt == 0 || dt <= nt,
    ensures
        out@.len() == temp@.len(),
        forall|t: int, w: int, b: int| 0 <= t < nt && 0 <= w < stride && 0 <= b < 64 ==> #[trigger] bit(layer_word(out@, stride as int, t, w), b)
            == exists|st: int| 0 <= st <= dt && #[trigger] theta_bit(temp@, stride as int, nt as int, t, st, w, b),
{
    let mut out = temp.clone();
    proof {
        assert(out@ =~= temp@);
    }
    for t in 0..nt
        invariant
            temp.len() == nt * stride,
        nt <= u32::MAX,
            out@.len() == temp@.len(),
            nt == 0 || dt <= nt,
            forall|t1: int, w: int, b: int| 0 <= t1 < t && 0 <= w < stride && 0 <= b < 64 ==> #[trigger] bit(layer_word(out@, stride as int, t1, w), b)
                == exists|st: int| 0 <= st <= dt && #[trigger] theta_bit(temp@, stride as int, nt as int, t1, st, w, b),
            forall|t1: int, w: int| t <= t1 < nt && 0 <= w < stride ==> #[trigger] layer_word(out@, stride as int, t1, w) == layer_word(temp@, stride as int, t1, w),
    {
        for w in 0..stride
            invariant
                0 <= t < nt,
                dt <= nt,
                temp.len() == nt * stride,
        nt <= u32::MAX,
                out@.len() == temp@.len(),
                forall|t1: int, w1: int, b: int| 0 <= t1 < nt && 0 <= w1 < stride && 0 <= b < 64 && (t1 < t || (t1 == t && w1 < w))
                    ==> #[trigger] bit(layer_word(out@, stride as int, t1, w1), b)
                    == exists|st: int| 0 <= st <= dt && #[trigger] theta_bit(temp@, stride as int, nt as int, t1, st, w1, b),
                forall|t1: int, w1: int| 0 <= t1 < nt && 0 <= w1 < stride && (t1 > t || (t1 == t && w1 >= w))
                    ==> #[trigger] layer_word(out@, stride as int, t1, w1) == layer_word(temp@, stride as int, t1, w1),
        {
            proof {
                lemma_index(t as int, w as int, stride as int, nt as int);
            }
            let k = t * stride + w;
            let mut acc = temp[k];
            proof {
                assert forall|b: int| 0 <= b < 64 implies #[trigger] bit(acc, b)
                    == exists|st: int| 0 <= st <= 0 && #[trigger] theta_bit(temp@, stride as int, nt as int, t as int, st, w as int, b) by {
                    lemma_small_mod(t as nat, nt as nat);
                    lemma_mod_add_multiples_vanish(t as int, nt as int);
                    assert((t + 0) % (nt as int) == t);
                    assert((t + nt - 0) % (nt as int) == t);
                    if bit(acc, b) {
                        assert(theta_bit(temp@, stride as int, nt as int, t as int, 0, w as int, b));
                    }
                }
            }
            let mut st: u64 = 1;
            while st <= dt as u64
                invariant
                    0 <= t < nt,
                    0 <= w < stride,
                    dt <= nt,
                    1 <= st <= dt + 1,
                    temp.len() == nt * stride,
        nt <= u32::MAX,
                    forall|b: int| 0 <= b < 64 ==> #[trigger] bit(acc, b)
                        == exists|s: int| 0 <= s <= st - 1 && #[trigger] theta_bit(temp@, stride as int, nt as int, t as int, s, w as int, b),
                decreases dt + 1 - st,
            {
                let plus = ((t as u64 + st) % nt as u64) as usize;
                let minus = ((t as u64 + nt as u64 - st) % nt as u64) as usize;
                proof {
                    lemma_index(plus as int, w as int, stride as int, nt as int);
                    lemma_index(minus as int, w as int, stride as int, nt as int);
                }
                let ghost a0 = acc;
                let pv = temp[plus * stride + w];
                let mv = temp[minus * stride + w];
                acc = acc | (pv | mv);
                proof {
                    assert forall|b: int| 0 <= b < 64 implies #[trigger] bit(acc, b)
                        == exists|s: int| 0 <= s <= st && #[trigger] theta_bit(temp@, stride as int, nt as int, t as int, s, w as int, b) by {
                        lemma_bit_or(a0, pv | mv, b);
                        lemma_bit_or(pv, mv, b);
                        assert(pv == layer_word(temp@, stride as int, (t + st) % (nt as int), w as int));
                        assert(mv == layer_word(temp@, stride as int, (t + nt - st) % (nt as int), w as int));
                        if exists|s: int| 0 <= s <= st && #[trigger] theta_bit(temp@, stride as int, nt as int, t as int, s, w as int, b) {
                            let s = choose|s: int| 0 <= s <= st && #[trigger] theta_bit(temp@, stride as int, nt as int, t as int, s, w as int, b);
                            if s < st {
                                assert(exists|s2: int| 0 <= s2 <= st - 1 && #[trigger] theta_bit(temp@, stride as int, nt as int, t as int, s2, w as int, b));
                            }
                        }
                        if bit(a0, b) {
                            let s = choose|s: int| 0 <= s <= st - 1 && #[trigger] theta_bit(temp@, stride as int, nt as int, t as int, s, w as int, b);
                            assert(exists|s2: int| 0 <= s2 <= st && #[trigger] theta_bit(temp@, stride as int, nt as int, t as int, s2, w as int, b));
                        }
                        if bit(pv | mv, b) {
                            assert(theta_bit(temp@, stride as int, nt as int, t as int, st as int, w as int, b));
                        }
                    }
                }
                st = st + 1;
            }
            let ghost before = out@;
            out.set(k, acc);
            proof {
                assert forall|t1: int, w1: int| 0 <= t1 < nt && 0 <= w1 < stride implies (#[trigger] layer_word(out@, stride as int, t1, w1)
                    == if t1 == t && w1 == w { acc } else { layer_word(before, stride as int, t1, w1) }) by {
                    lemma_index(t1, w1, stride as int, nt as int);
                    if t1 * stride + w1 == k {
                        lemma_index_inj(t1, w1, t as int, w as int, stride as int);
                    }
                }
            }
        }
        proof {
            assert forall|t1: int, w1: int, b: int| 0 <= t1 < t + 1 && 0 <= w1 < stride && 0 <= b < 64 implies #[trigger] bit(layer_word(out@, stride as int, t1, w1), b)
                == exists|st: int| 0 <= st <= dt && #[trigger] theta_bit(temp@, stride as int, nt as int, t1, st, w1, b) by {
            }
        }
    }
    out
}

/// Layer `t` of the stack view of a flat grid is the grid stored from `t * stride`.
proof fn lemma_stack_layer(d: Seq<u64>, map_x: int, map_y: int, wpr: int, nt: int, t: int)
    requires
        grid_fits(d, 0, map_x, nt * map_y, wpr),
        0 <= map_y,
        0 <= t < nt,
        d.len() == nt * map_y * wpr,
    ensures
        grid_view(d, t * (map_y * wpr), map_x, map_y, wpr) == stack_view(grid_view(d, 0, map_x, nt * map_y, wpr), map_y, nt)[t],
{
    lemma_layer_grid(d, map_x, map_y, wpr, nt, t);
    let a = grid_view(d, t * (map_y * wpr), map_x, map_y, wpr);
    let b = stack_view(grid_view(d, 0, map_x, nt * map_y, wpr), map_y, nt)[t];
    assert forall|iy: int| 0 <= iy < map_y implies #[trigger] a[iy] == b[iy] by {
        assert(a[iy] == grid_view(d, 0, map_x, nt * map_y, wpr)[t * map_y + iy]);
    }
    assert(a =~= b);
}

/// The cyclic theta pass over per-layer dilations gives the stack dilation.
proof fn lemma_theta_cells(out: Seq<u64>, temp: Seq<u64>, v: Seq<Seq<Seq<bool>>>, map_x: int, map_y: int, wpr: int, nt: int, dx: int, dy: int, dt: int)
    requires
        grid_fits(temp, 0, map_x, nt * map_y, wpr),
        0 <= map_y,
        0 <= dt,
        nt == 0 || dt <= nt,
        temp.len() == nt * map_y * wpr,
        out.len() == temp.len(),
        forall|t: int| 0 <= t < nt ==> #[trigger] grid_view(temp, t * (map_y * wpr), map_x, map_y, wpr) == dilate_grid(v[t], map_x, map_y, dx, dy),
        forall|t: int| 0 <= t < nt ==> #[trigger] grid_masked(temp, t * (map_y * wpr), map_x, map_y, wpr),
        forall|t: int, w: int, b: int| 0 <= t < nt && 0 <= w < map_y * wpr && 0 <= b < 64 ==> #[trigger] bit(layer_word(out, map_y * wpr, t, w), b)
            == exists|st: int| 0 <= st <= dt && #[trigger] theta_bit(temp, map_y * wpr, nt, t, st, w, b),
    ensures
        stack_view(grid_view(out, 0, map_x, nt * map_y, wpr), map_y, nt) == dilate_stack(v, map_x, map_y, nt, dx, dy, dt),
        grid_masked(out, 0, map_x, nt * map_y, wpr),
{
    let stride = map_y * wpr;
    let d = Seq::new(nt as nat, |t: int| dilate_grid(v[t], map_x, map_y, dx, dy));
    let sv = stack_view(grid_view(out, 0, map_x, nt * map_y, wpr), map_y, nt);
    let target = dilate_stack(v, map_x, map_y, nt, dx, dy, dt);
    lemma_wpr(map_x);
    assert forall|t: int, y: int, wi: int, b: int| 0 <= t < nt && 0 <= y < map_y && 0 <= wi < wpr && 0 <= b < 64 implies
        #[trigger] bit(word_at(out, 0, wpr, t * map_y + y, wi), b) == exists|st: int| 0 <= st <= dt && #[trigger] theta_bit(temp, stride, nt, t, st, y * wpr + wi, b) by {
        lemma_layer_row(t, y, wi, map_y, wpr, nt);
        lemma_index(y, wi, wpr, map_y);
        assert(word_at(out, 0, wpr, t * map_y + y, wi) == layer_word(out, stride, t, y * wpr + wi));
    }
    assert forall|t: int, st: int, y: int, wi: int, b: int| 0 <= t < nt && 0 <= st <= dt && 0 <= y < map_y && 0 <= wi < wpr && 0 <= b < 64 implies
        #[trigger] theta_bit(temp, stride, nt, t, st, y * wpr + wi, b)
            == (bit(word_at(temp, ((t + st) % nt) * stride, wpr, y, wi), b) || bit(word_at(temp, ((t + nt - st) % nt) * stride, wpr, y, wi), b)) by {
        lemma_mod_pos_bound(t + st, nt);
        lemma_mod_pos_bound(t + nt - st, nt);
    }
    assert forall|t: int| 0 <= t < nt implies #[trigger] sv[t] =~= target[t] by {
        assert forall|y: int| 0 <= y < map_y implies #[trigger] sv[t][y] =~= target[t][y] by {
            lemma_layer_row(t, y, 0, map_y, 1, nt);
            assert forall|x: int| 0 <= x < map_x implies sv[t][y][x] == target[t][y][x] by {
                let wi = x / 64;
                let b = x % 64;
                assert(sv[t][y][x] == bit(word_at(out, 0, wpr, t * map_y + y, wi), b));
                if sv[t][y][x] {
                    let st = choose|st: int| 0 <= st <= dt && #[trigger] theta_bit(temp, stride, nt, t, st, y * wpr + wi, b);
                    let p = (t + st) % nt;
                    let m = (t + nt - st) % nt;
                    lemma_mod_pos_bound(t + st, nt);
                    lemma_mod_pos_bound(t + nt - st, nt);
                    assert(grid_view(temp, p * stride, map_x, map_y, wpr)[y][x] == d[p][y][x]);
                    assert(grid_view(temp, m * stride, map_x, map_y, wpr)[y][x] == d[m][y][x]);
                    assert(theta_hit(d, nt, t, st, y, x));
                }
                if near_layer(d, nt, dt, t, y, x) {
                    let st = choose|st: int| 0 <= st <= dt && #[trigger] theta_hit(d, nt, t, st, y, x);
                    let p = (t + st) % nt;
                    let m = (t + nt - st) % nt;
                    lemma_mod_pos_bound(t + st, nt);
                    lemma_mod_pos_bound(t + nt - st, nt);
                    assert(grid_view(temp, p * stride, map_x, map_y, wpr)[y][x] == d[p][y][x]);
                    assert(grid_view(temp, m * stride, map_x, map_y, wpr)[y][x] == d[m][y][x]);
                    assert(theta_bit(temp, stride, nt, t, st, y * wpr + wi, b));
                }
            }
        }
    }
    assert(sv =~= target);
    assert forall|iy: int, wi: int, b: int|
        0 <= iy < nt * map_y && 0 <= wi < wpr && 0 <= b < 64 && 64 * wi + b >= map_x implies !#[trigger] bit(word_at(out, 0, wpr, iy, wi), b) by {
        let t = iy / map_y;
        let y = iy % map_y;
        assert(0 < map_y);
        assert(iy == t * map_y + y) by (nonlinear_arith) requires t == iy / map_y, y == iy % map_y, 0 < map_y;
        assert(0 <= t < nt) by (nonlinear_arith) requires t == iy / map_y, 0 <= iy < nt * map_y, 0 < map_y;
        lemma_mod_pos_bound(iy, map_y);
        if bit(word_at(out, 0, wpr, iy, wi), b) {
            let st = choose|st: int| 0 <= st <= dt && #[trigger] theta_bit(temp, stride, nt, t, st, y * wpr + wi, b);
            let p = (t + st) % nt;
            let m = (t + nt - st) % nt;
            lemma_mod_pos_bound(t + st, nt);
            lemma_mod_pos_bound(t + nt - st, nt);
            assert(grid_masked(temp, p * stride, map_x, map_y, wpr));
            assert(grid_masked(temp, m * stride, map_x, map_y, wpr));
            assert(!bit(word_at(temp, p * stride, wpr, y, wi), b));
            assert(!bit(word_at(temp, m * stride, wpr, y, wi), b));
        }
    }
}

/// 3-D box dilation: `(dx, dy)` within each layer, then cyclically by `dt` across layers.
pub fn dilate3d(bb: &Bitboard3D, dx: u32, dy: u32, dt: u32) -> (r: Bitboard3D)
    requires
        bb.wf(),
        dx < 64,
        bb.layers() == 0 || dt <= bb.layers(),
    ensures
        r.wf(),
        r.width() == bb.width(),
        r.height() == bb.height(),
        r.layers() == bb.layers(),
        r@ == dilate_stack(bb@, bb.width(), bb.height(), bb.layers(), dx as int, dy as int, dt as int),
{
    let map_x = bb.map_x;
    let map_y = bb.map_y as usize;
    let n_theta = bb.n_theta as usize;
    let wpr = bb.words_per_row as usize;
    let layer_stride = bb.layer_stride();
    let rmask = row_mask(map_x);
    let ghost rows = n_theta * map_y;
    proof {
        bb.lemma_flat_len();
        assert(layer_stride == map_y * wpr);
    }
    let mut temp = vec![0u64; bb.data.len()];
    let mut scratch_pos: Vec<u64> = Vec::new();
    let mut scratch_neg: Vec<u64> = Vec::new();
    for it in 0..n_theta
        invariant
            bb.wf(),
            dx < 64,
            map_x == bb.map_x,
            map_y == bb.map_y,
            n_theta == bb.n_theta,
            wpr == bb.words_per_row,
            layer_stride == map_y * wpr,
            rows == n_theta * map_y,
            rmask@.len() == wpr,
            forall|w: int, b: int| 0 <= w < wpr && 0 <= b < 64 ==> #[trigger] bit(rmask@[w], b) == (64 * w + b < map_x),
            temp@.len() == bb.data@.len(),
            bb.data@.len() == n_theta * map_y * wpr,
            grid_fits(bb.data@, 0, map_x as int, rows, wpr as int),
            forall|t: int| 0 <= t < it ==> #[trigger] grid_view(temp@, t * (map_y * wpr), map_x as int, map_y as int, wpr as int)
                == dilate_grid(bb@[t], map_x as int, map_y as int, dx as int, dy as int),
            forall|t: int| 0 <= t < it ==> #[trigger] grid_masked(temp@, t * (map_y * wpr), map_x as int, map_y as int, wpr as int),
    {
        proof {
            lemma_layer_grid(bb.data@, map_x as int, map_y as int, wpr as int, n_theta as int, it as int);
            lemma_stack_layer(bb.data@, map_x as int, map_y as int, wpr as int, n_theta as int, it as int);
            assert(it * layer_stride <= n_theta * map_y * wpr) by (nonlinear_arith)
                requires it < n_theta, layer_stride == map_y * wpr, 0 <= map_y * wpr;
        }
        let layer_start = it * layer_stride;
        let ghost before = temp@;
        dilate2d_into(&mut temp, &bb.data, layer_start, map_y, wpr, dx, dy, &mut scratch_pos, &mut scratch_neg, &rmask, Ghost(map_x as int));
        proof {
            assert forall|t: int| #![trigger grid_view(temp@, t * (map_y * wpr), map_x as int, map_y as int, wpr as int)]
                #![trigger grid_masked(temp@, t * (map_y * wpr), map_x as int, map_y as int, wpr as int)]
                0 <= t < it implies grid_view(temp@, t * (map_y * wpr), map_x as int, map_y as int, wpr as int)
                == dilate_grid(bb@[t], map_x as int, map_y as int, dx as int, dy as int)
                && grid_masked(temp@, t * (map_y * wpr), map_x as int, map_y as int, wpr as int) by {
                lemma_layer_grid(before, map_x as int, map_y as int, wpr as int, n_theta as int, t);
                assert((t + 1) * (map_y * wpr) <= it * (map_y * wpr)) by (nonlinear_arith)
                    requires t + 1 <= it, 0 <= map_y * wpr;
                assert(t * (map_y * wpr) + map_y * wpr == (t + 1) * (map_y * wpr)) by (nonlinear_arith);
                lemma_grid_frame(temp@, before, t * (map_y * wpr), map_x as int, map_y as int, wpr as int);
                assert(grid_masked(before, t * (map_y * wpr), map_x as int, map_y as int, wpr as int));
            }
            assert(grid_masked(temp@, it * (map_y * wpr), map_x as int, map_y as int, wpr as int));
        }
    }
    if dt == 0 {
        let r = Bitboard3D { data: temp, map_x, map_y: bb.map_y, n_theta: bb.n_theta, words_per_row: bb.words_per_row };
        proof {
            assert forall|t: int, w: int, b: int| 0 <= t < n_theta && 0 <= w < map_y * wpr && 0 <= b < 64 implies #[trigger] bit(layer_word(temp@, (map_y * wpr) as int, t, w), b)
                == exists|st: int| 0 <= st <= 0 && #[trigger] theta_bit(temp@, (map_y * wpr) as int, n_theta as int, t, st, w, b) by {
                lemma_small_mod(t as nat, n_theta as nat);
                lemma_mod_add_multiples_vanish(t, n_theta as int);
                if bit(layer_word(temp@, (map_y * wpr) as int, t, w), b) {
                    assert(theta_bit(temp@, (map_y * wpr) as int, n_theta as int, t, 0, w, b));
                }
            }
            lemma_theta_cells(temp@, temp@, bb@, map_x as int, map_y as int, wpr as int, n_theta as int, dx as int, dy as int, 0);
        }
        return r;
    }
    proof {
        assert(n_theta * (map_y * wpr) == n_theta * map_y * wpr) by (nonlinear_arith);
    }
    let out = theta_dilate(&temp, n_theta, layer_stride, dt);
    proof {
        lemma_theta_cells(out@, temp@, bb@, map_x as int, map_y as int, wpr as int, n_theta as int, dx as int, dy as int, dt as int);
    }
    Bitboard3D { data: out, map_x, map_y: bb.map_y, n_theta: bb.n_theta, words_per_row: bb.words_per_row }
}

} // verus!
