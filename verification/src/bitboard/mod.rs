//! Word-packed 2-D and 3-D binary grids.
//!
//! Bits are packed 64 per word, least significant bit = lowest `x`.
//! 2-D word of `(ix, iy)`: `iy * words_per_row + ix / 64`; 3-D word of
//! `(ix, iy, it)`: `it * map_y * words_per_row + iy * words_per_row + ix / 64`.
//! Bits at or past `map_x` in a row are always clear.
pub mod bits;
pub mod grid;
pub mod ops;
pub mod enumerate;
pub mod conv;
pub mod laws;

use vstd::prelude::*;
use crate::bitboard::bits::{bit, count_true, count_ones, popcount_word, word_bits, words_sum,
    lemma_bit_or, lemma_bit_and, lemma_bit_test, lemma_shift_pos, lemma_bit_single, lemma_bit_full_empty, lemma_bit_low_mask,
    lemma_words_sum_concat};
use crate::bitboard::ops::{dilate2d, dilate3d, dilate_grid, dilate_stack};
use crate::bitboard::conv::{from_logical2d, to_logical2d, from_logical3d, to_logical3d, grid_of_cells2, cells_of_grid2,
    grid_of_cells3, cells_of_grid3};
use crate::bitboard::grid::{and_grid, or_grid, not_grid, grid_fits, lemma_grid_and_or, lemma_grid_not, wpr_of, word_at, grid_cell, grid_view, grid_masked, shape2, rows_count,
    lemma_index, lemma_index_inj, lemma_wpr, lemma_grid_count, lemma_rows_count_concat, lemma_layer_row};

verus! {

/// Number of 64-bit words needed to hold `map_x` bits.
pub fn words_per_row(map_x: u32) -> (r: u32)
    ensures
        r as int == wpr_of(map_x as int),
{
    map_x / 64 + if map_x % 64 != 0 { 1 } else { 0 }
}

/// Per-word validity mask of a row of `map_x` bits: bit `b` of word `w` is set
/// exactly when column `64 * w + b` lies inside the row.
pub fn row_mask(map_x: u32) -> (r: Vec<u64>)
    ensures
        r@.len() == wpr_of(map_x as int),
        forall|w: int, b: int| 0 <= w < r@.len() && 0 <= b < 64 ==> #[trigger] bit(r@[w], b) == (64 * w + b < map_x),
{
    let nw = words_per_row(map_x) as usize;
    let mut mask = vec![u64::MAX; nw];
    let rem = map_x % 64;
    proof {
        lemma_wpr(map_x as int);
    }
    if rem != 0 {
        proof {
            lemma_shift_pos(rem as int);
        }
        mask.set(nw - 1, (1u64 << rem) - 1);
    }
    proof {
        assert forall|w: int, b: int| 0 <= w < mask@.len() && 0 <= b < 64 implies #[trigger] bit(mask@[w], b) == (64 * w + b < map_x) by {
            lemma_bit_full_empty(b);
            if rem != 0 && w == nw - 1 {
                lemma_bit_low_mask(rem as int, b);
            }
        }
    }
    mask
}

/// Sum of the population counts of `data`.
pub fn popcount_slice(data: &Vec<u64>) -> (r: u64)
    requires
        data@.len() <= u32::MAX,
    ensures
        r == words_sum(data@),
{
    let mut total: u64 = 0;
    let mut i: usize = 0;
    while i < data.len()
        invariant
            i <= data@.len(),
            data@.len() <= u32::MAX,
            total == words_sum(data@.take(i as int)),
            words_sum(data@.take(i as int)) <= 64 * i,
        decreases data@.len() - i,
    {
        let c = count_ones(data[i]);
        proof {
            lemma_word_bits_le(data@[i as int], 64);
            assert(data@.take(i + 1).drop_last() =~= data@.take(i as int));
            assert(data@.take(i + 1).last() == data@[i as int]);
        }
        total = total + c as u64;
        i = i + 1;
    }
    proof {
        assert(data@.take(i as int) =~= data@);
    }
    total
}

/// A word has at most `n` set bits among its first `n` positions.
pub proof fn lemma_word_bits_le(w: u64, n: int)
    requires
        0 <= n,
    ensures
        word_bits(w, n) <= n,
    decreases n,
{
    if n > 0 {
        lemma_word_bits_le(w, n - 1);
    }
}

/// `a[i] &= b[i]` over the common prefix.
pub fn and_slice(a: &mut Vec<u64>, b: &Vec<u64>)
    ensures
        final(a)@.len() == old(a)@.len(),
        forall|i: int| 0 <= i < old(a)@.len() ==> #[trigger] final(a)@[i] == if i < b@.len() {
            old(a)@[i] & b@[i]
        } else {
            old(a)@[i]
        },
{
    let n = if a.len() < b.len() { a.len() } else { b.len() };
    let mut i: usize = 0;
    while i < n
        invariant
            n <= a@.len(),
            n <= b@.len(),
            n == old(a)@.len() || n == b@.len(),
            i <= n,
            a@.len() == old(a)@.len(),
            forall|j: int| 0 <= j < old(a)@.len() ==> #[trigger] a@[j] == if j < i {
                old(a)@[j] & b@[j]
            } else {
                old(a)@[j]
            },
        decreases n - i,
    {
        let x = a[i] & b[i];
        a.set(i, x);
        i = i + 1;
    }
}

/// `a[i] |= b[i]` over the common prefix.
pub fn or_slice(a: &mut Vec<u64>, b: &Vec<u64>)
    ensures
        final(a)@.len() == old(a)@.len(),
        forall|i: int| 0 <= i < old(a)@.len() ==> #[trigger] final(a)@[i] == if i < b@.len() {
            old(a)@[i] | b@[i]
        } else {
            old(a)@[i]
        },
{
    let n = if a.len() < b.len() { a.len() } else { b.len() };
    let mut i: usize = 0;
    while i < n
        invariant
            n <= a@.len(),
            n <= b@.len(),
            n == old(a)@.len() || n == b@.len(),
            i <= n,
            a@.len() == old(a)@.len(),
            forall|j: int| 0 <= j < old(a)@.len() ==> #[trigger] a@[j] == if j < i {
                old(a)@[j] | b@[j]
            } else {
                old(a)@[j]
            },
        decreases n - i,
    {
        let x = a[i] | b[i];
        a.set(i, x);
        i = i + 1;
    }
}

/// `map_y * words_per_row(map_x)` words fit the `u32` index space of a 2-D board.
pub open spec fn fits2(map_x: u32, map_y: u32) -> bool {
    map_y * wpr_of(map_x as int) <= u32::MAX
}

/// `n_theta * map_y * words_per_row(map_x)` words fit the `u32` index space of a 3-D board.
pub open spec fn fits3(map_x: u32, map_y: u32, n_theta: u32) -> bool {
    &&& n_theta * map_y <= u32::MAX
    &&& map_y * wpr_of(map_x as int) <= u32::MAX
    &&& n_theta * map_y * wpr_of(map_x as int) <= u32::MAX
}

/// A `w × h` grid with every cell clear.
pub open spec fn empty_grid(w: int, h: int) -> Seq<Seq<bool>> {
    Seq::new(h as nat, |iy: int| Seq::new(w as nat, |ix: int| false))
}

/// Flat-packed 2-D bitboard (row-major, 64 bits per word).
#[derive(Clone, Debug, PartialEq)]
pub struct Bitboard2D {
    data: Vec<u64>,
    map_x: u32,
    map_y: u32,
    words_per_row: u32,
}

impl View for Bitboard2D {
    type V = Seq<Seq<bool>>;

    /// The cells as rows: `self@[iy][ix]`.
    closed spec fn view(&self) -> Seq<Seq<bool>> {
        grid_view(self.data@, 0, self.map_x as int, self.map_y as int, self.words_per_row as int)
    }
}

impl Bitboard2D {
    /// The layout invariant: row width in words, data length, and clear bits past `map_x`.
    pub closed spec fn wf(&self) -> bool {
        &&& self.words_per_row as int == wpr_of(self.map_x as int)
        &&& self.map_y * self.words_per_row <= u32::MAX
        &&& self.data@.len() == self.map_y * self.words_per_row
        &&& grid_masked(self.data@, 0, self.map_x as int, self.map_y as int, self.words_per_row as int)
    }

    /// Width in cells.
    pub closed spec fn width(&self) -> int {
        self.map_x as int
    }

    /// Height in cells.
    pub closed spec fn height(&self) -> int {
        self.map_y as int
    }

    /// The words backing the board.
    pub closed spec fn words(&self) -> Seq<u64> {
        self.data@
    }

    /// A well-formed board's view has `height` rows of `width` cells.
    pub proof fn lemma_shape(&self)
        requires
            self.wf(),
        ensures
            shape2(self@, self.width(), self.height()),
            0 <= self.width() <= u32::MAX,
            0 <= self.height() <= u32::MAX,
            fits2(self.width() as u32, self.height() as u32),
    {
    }

    /// Allocate an all-clear board of size `map_x × map_y`.
    pub fn new(map_x: u32, map_y: u32) -> (r: Self)
        requires
            fits2(map_x, map_y),
        ensures
            r.wf(),
            r.width() == map_x,
            r.height() == map_y,
            r@ == empty_grid(map_x as int, map_y as int),
    {
        let wpr = words_per_row(map_x);
        let r = Self { data: vec![0u64; (map_y * wpr) as usize], map_x, map_y, words_per_row: wpr };
        proof {
            assert forall|iy: int, wi: int, b: int|
                0 <= iy < map_y && 0 <= wi < wpr && 0 <= b < 64 && 64 * wi + b >= map_x implies !#[trigger] bit(
                word_at(r.data@, 0, wpr as int, iy, wi),
                b,
            ) by {
                lemma_index(iy, wi, wpr as int, map_y as int);
                lemma_bit_full_empty(b);
            }
            assert(r@ =~= empty_grid(map_x as int, map_y as int)) by {
                lemma_wpr(map_x as int);
                assert forall|iy: int| 0 <= iy < map_y implies r@[iy] =~= empty_grid(map_x as int, map_y as int)[iy] by {
                    assert forall|ix: int| 0 <= ix < map_x implies !r@[iy][ix] by {
                        lemma_index(iy, ix / 64, wpr as int, map_y as int);
                        lemma_bit_full_empty(ix % 64);
                    }
                }
            }
        }
        r
    }

    /// Width in cells.
    pub fn map_x(&self) -> (r: u32)
        ensures
            r == self.width(),
    {
        self.map_x
    }

    /// Height in cells.
    pub fn map_y(&self) -> (r: u32)
        ensures
            r == self.height(),
    {
        self.map_y
    }

    /// Words per row (`ceil(map_x / 64)`).
    pub fn words_per_row(&self) -> (r: u32)
        requires
            self.wf(),
        ensures
            r == wpr_of(self.width()),
    {
        self.words_per_row
    }

    /// Set the cell `(ix, iy)`.
    pub fn set(&mut self, ix: u32, iy: u32)
        requires
            old(self).wf(),
            ix < old(self).width(),
            iy < old(self).height(),
        ensures
            final(self).wf(),
            final(self).width() == old(self).width(),
            final(self).height() == old(self).height(),
            final(self)@ == old(self)@.update(iy as int, old(self)@[iy as int].update(ix as int, true)),
    {
        let wi = ix / 64;
        let bi = ix % 64;
        let wpr = self.words_per_row;
        proof {
            lemma_wpr(self.map_x as int);
            lemma_index(iy as int, wi as int, wpr as int, self.map_y as int);
        }
        let idx = (iy * wpr + wi) as usize;
        let ghost old_data = self.data@;
        let w = self.data[idx] | (1u64 << bi);
        self.data.set(idx, w);
        proof {
            let map_x = self.map_x as int;
            let map_y = self.map_y as int;
            assert forall|y: int, wj: int, b: int|
                0 <= y < map_y && 0 <= wj < wpr && 0 <= b < 64 && 64 * wj + b >= map_x implies !#[trigger] bit(
                word_at(self.data@, 0, wpr as int, y, wj),
                b,
            ) by {
                lemma_index(y, wj, wpr as int, map_y);
                if y * wpr + wj == idx {
                    lemma_index_inj(y, wj, iy as int, wi as int, wpr as int);
                    lemma_bit_or(old_data[idx as int], 1u64 << bi, b);
                    lemma_bit_single(bi as int, b);
                    assert(!bit(word_at(old_data, 0, wpr as int, y, wj), b));
                } else {
                    assert(!bit(word_at(old_data, 0, wpr as int, y, wj), b));
                }
            }
            let nv = old(self)@.update(iy as int, old(self)@[iy as int].update(ix as int, true));
            assert forall|y: int| 0 <= y < map_y implies #[trigger] self@[y] =~= nv[y] by {
                assert forall|x: int| 0 <= x < map_x implies self@[y][x] == nv[y][x] by {
                    lemma_index(y, x / 64, wpr as int, map_y);
                    if y * wpr + x / 64 == idx {
                        lemma_index_inj(y, x / 64, iy as int, wi as int, wpr as int);
                        lemma_bit_or(old_data[idx as int], 1u64 << bi, x % 64);
                        lemma_bit_single(bi as int, x % 64);
                    }
                }
            }
            assert(self@ =~= nv);
        }
    }

    /// Number of set cells.
    pub fn popcount(&self) -> (r: u64)
        requires
            self.wf(),
        ensures
            r == rows_count(self@),
    {
        let r = popcount_slice(&self.data);
        proof {
            lemma_grid_count(self.data@, 0, self.map_x as int, self.map_y as int, self.words_per_row as int, self.map_y as int);
            assert(self@.take(self.map_y as int) =~= self@);
            assert(self.data@.subrange(0, self.map_y * self.words_per_row) =~= self.data@);
        }
        r
    }

    /// In-place cell-wise AND with a board of the same size.
    pub fn and_inplace(&mut self, other: &Self)
        requires
            old(self).wf(),
            other.wf(),
            other.width() == old(self).width(),
            other.height() == old(self).height(),
        ensures
            final(self).wf(),
            final(self).width() == old(self).width(),
            final(self).height() == old(self).height(),
            final(self)@ == and_grid(old(self)@, other@),
    {
        let ghost d = self.data@;
        and_slice(&mut self.data, &other.data);
        proof {
            lemma_grid_and_or(self.data@, d, other.data@, 0, self.map_x as int, self.map_y as int, self.words_per_row as int, true);
        }
    }

    /// In-place cell-wise OR with a board of the same size.
    pub fn or_inplace(&mut self, other: &Self)
        requires
            old(self).wf(),
            other.wf(),
            other.width() == old(self).width(),
            other.height() == old(self).height(),
        ensures
            final(self).wf(),
            final(self).width() == old(self).width(),
            final(self).height() == old(self).height(),
            final(self)@ == or_grid(old(self)@, other@),
    {
        let ghost d = self.data@;
        or_slice(&mut self.data, &other.data);
        proof {
            lemma_grid_and_or(self.data@, d, other.data@, 0, self.map_x as int, self.map_y as int, self.words_per_row as int, false);
        }
    }

    /// Cell-wise complement (cells past the board stay clear).
    pub fn complement(&self) -> (r: Self)
        requires
            self.wf(),
        ensures
            r.wf(),
            r.width() == self.width(),
            r.height() == self.height(),
            r@ == not_grid(self@),
    {
        let map_y = self.map_y as usize;
        let wpr = self.words_per_row as usize;
        let rmask = row_mask(self.map_x);
        let mut data = self.data.clone();
        let ghost d = self.data@;
        for iy in 0..map_y
            invariant
                self.wf(),
                map_y == self.map_y,
                wpr == self.words_per_row,
                rmask@.len() == wpr,
                data@.len() == d.len(),
                d == self.data@,
                forall|y: int, wi: int| 0 <= y < map_y && 0 <= wi < wpr ==> #[trigger] word_at(data@, 0, wpr as int, y, wi)
                    == if y < iy { (!word_at(d, 0, wpr as int, y, wi)) & rmask@[wi] } else { word_at(d, 0, wpr as int, y, wi) },
        {
            for w in 0..wpr
                invariant
                    self.wf(),
                    0 <= iy < map_y,
                    map_y == self.map_y,
                    wpr == self.words_per_row,
                    rmask@.len() == wpr,
                    data@.len() == d.len(),
                    d == self.data@,
                    forall|y: int, wi: int| 0 <= y < map_y && 0 <= wi < wpr ==> #[trigger] word_at(data@, 0, wpr as int, y, wi)
                        == if y < iy || (y == iy && wi < w) { (!word_at(d, 0, wpr as int, y, wi)) & rmask@[wi] } else { word_at(d, 0, wpr as int, y, wi) },
            {
                proof {
                    lemma_index(iy as int, w as int, wpr as int, map_y as int);
                }
                let k = iy * wpr + w;
                let ghost before = data@;
                proof {
                    assert(word_at(before, 0, wpr as int, iy as int, w as int) == word_at(d, 0, wpr as int, iy as int, w as int));
                }
                let x = (!data[k]) & rmask[w];
                data.set(k, x);
                proof {
                    assert forall|y: int, wi: int| 0 <= y < map_y && 0 <= wi < wpr implies #[trigger] word_at(data@, 0, wpr as int, y, wi)
                        == if y < iy || (y == iy && wi < w + 1) { (!word_at(d, 0, wpr as int, y, wi)) & rmask@[wi] } else { word_at(d, 0, wpr as int, y, wi) } by {
                        lemma_index(y, wi, wpr as int, map_y as int);
                        assert(word_at(before, 0, wpr as int, y, wi) == if y < iy || (y == iy && wi < w) { (!word_at(d, 0, wpr as int, y, wi)) & rmask@[wi] } else { word_at(d, 0, wpr as int, y, wi) });
                        if y * wpr + wi == k {
                            lemma_index_inj(y, wi, iy as int, w as int, wpr as int);
                        }
                    }
                }
            }
        }
        proof {
            lemma_grid_not(data@, d, rmask@, 0, self.map_x as int, self.map_y as int, wpr as int);
        }
        Bitboard2D { data, map_x: self.map_x, map_y: self.map_y, words_per_row: self.words_per_row }
    }

    /// L-infinity box dilation by `(dx, dy)`; `dx` must be below 64.
    pub fn dilate(&self, dx: u32, dy: u32) -> (r: Self)
        requires
            self.wf(),
            dx < 64,
        ensures
            r.wf(),
            r.width() == self.width(),
            r.height() == self.height(),
            r@ == dilate_grid(self@, self.width(), self.height(), dx as int, dy as int),
    {
        dilate2d(self, dx, dy)
    }

    /// Board from a row-major `map_y × map_x` cell array.
    pub fn from_logical(mask: &Vec<bool>, map_x: u32, map_y: u32) -> (r: Self)
        requires
            mask@.len() == map_x * map_y,
            fits2(map_x, map_y),
        ensures
            r.wf(),
            r.width() == map_x,
            r.height() == map_y,
            r@ == grid_of_cells2(mask@, map_x as int, map_y as int),
    {
        from_logical2d(mask, map_x, map_y)
    }

    /// Row-major `map_y × map_x` cell array of the board.
    pub fn to_logical(&self) -> (r: Vec<bool>)
        requires
            self.wf(),
        ensures
            r@ == cells_of_grid2(self@, self.width(), self.height()),
    {
        to_logical2d(self)
    }

    /// The words backing the board, row after row.
    pub fn data(&self) -> (r: &Vec<u64>)
        ensures
            r@ == self.words(),
    {
        &self.data
    }

    /// Whether the cell `(ix, iy)` is set.
    pub fn test(&self, ix: u32, iy: u32) -> (r: bool)
        requires
            self.wf(),
            ix < self.width(),
            iy < self.height(),
        ensures
            r == self@[iy as int][ix as int],
    {
        let wi = ix / 64;
        let bi = ix % 64;
        proof {
            lemma_wpr(self.map_x as int);
            lemma_index(iy as int, wi as int, self.words_per_row as int, self.map_y as int);
        }
        let idx = (iy * self.words_per_row + wi) as usize;
        proof {
            lemma_bit_test(self.data@[idx as int], bi as int);
        }
        self.data[idx] & (1u64 << bi) != 0
    }
}

/// The cells of a stack of `n_theta` layers of `map_y` rows, read from the flat
/// row-major grid whose row `it * map_y + iy` is row `iy` of layer `it`.
pub open spec fn stack_view(flat: Seq<Seq<bool>>, map_y: int, n_theta: int) -> Seq<Seq<Seq<bool>>> {
    Seq::new(n_theta as nat, |it: int| Seq::new(map_y as nat, |iy: int| flat[it * map_y + iy]))
}

/// Number of set cells over all layers.
pub open spec fn layers_count(v: Seq<Seq<Seq<bool>>>) -> nat
    decreases v.len(),
{
    if v.len() == 0 {
        0
    } else {
        layers_count(v.drop_last()) + rows_count(v.last())
    }
}

/// `v` has `n` layers of `h` rows of `w` cells.
pub open spec fn shape3(v: Seq<Seq<Seq<bool>>>, w: int, h: int, n: int) -> bool {
    v.len() == n && forall|it: int| 0 <= it < n ==> #[trigger] shape2(v[it], w, h)
}

/// A `w × h × n` stack with every cell clear.
pub open spec fn empty_stack(w: int, h: int, n: int) -> Seq<Seq<Seq<bool>>> {
    Seq::new(n as nat, |it: int| empty_grid(w, h))
}

/// Layer-wise AND of two stacks.
pub open spec fn and_stack(a: Seq<Seq<Seq<bool>>>, b: Seq<Seq<Seq<bool>>>) -> Seq<Seq<Seq<bool>>> {
    Seq::new(a.len(), |it: int| and_grid(a[it], b[it]))
}

/// Layer-wise OR of two stacks.
pub open spec fn or_stack(a: Seq<Seq<Seq<bool>>>, b: Seq<Seq<Seq<bool>>>) -> Seq<Seq<Seq<bool>>> {
    Seq::new(a.len(), |it: int| or_grid(a[it], b[it]))
}

/// Layer-wise complement of a stack.
pub open spec fn not_stack(a: Seq<Seq<Seq<bool>>>) -> Seq<Seq<Seq<bool>>> {
    Seq::new(a.len(), |it: int| not_grid(a[it]))
}

/// Counting the set cells of a stack is counting the rows of its flat grid.
pub proof fn lemma_stack_count(flat: Seq<Seq<bool>>, map_y: int, n_theta: int, k: int)
    requires
        0 <= map_y,
        0 <= k <= n_theta,
        flat.len() == n_theta * map_y,
    ensures
        layers_count(stack_view(flat, map_y, n_theta).take(k)) == rows_count(flat.take(k * map_y)),
    decreases k,
{
    let v = stack_view(flat, map_y, n_theta);
    if k == 0 {
        assert(v.take(0) =~= Seq::<Seq<Seq<bool>>>::empty());
        assert(k * map_y == 0) by (nonlinear_arith) requires k == 0;
        assert(flat.take(0) =~= Seq::<Seq<bool>>::empty());
    } else {
        lemma_stack_count(flat, map_y, n_theta, k - 1);
        assert(v.take(k).drop_last() =~= v.take(k - 1));
        assert((k - 1) * map_y + map_y == k * map_y) by (nonlinear_arith);
        assert(k * map_y <= n_theta * map_y) by (nonlinear_arith) requires k <= n_theta, 0 <= map_y;
        assert(0 <= (k - 1) * map_y) by (nonlinear_arith) requires 1 <= k, 0 <= map_y;
        assert(v.take(k).last() =~= flat.subrange((k - 1) * map_y, k * map_y));
        assert(flat.take(k * map_y) =~= flat.take((k - 1) * map_y) + flat.subrange((k - 1) * map_y, k * map_y));
        lemma_rows_count_concat(flat.take((k - 1) * map_y), flat.subrange((k - 1) * map_y, k * map_y));
    }
}

/// Flat-packed 3-D bitboard (theta-major, then row-major, 64 bits per word).
#[derive(Clone, Debug, PartialEq)]
pub struct Bitboard3D {
    data: Vec<u64>,
    map_x: u32,
    map_y: u32,
    n_theta: u32,
    words_per_row: u32,
}

impl View for Bitboard3D {
    type V = Seq<Seq<Seq<bool>>>;

    /// The cells as layers of rows: `self@[it][iy][ix]`.
    closed spec fn view(&self) -> Seq<Seq<Seq<bool>>> {
        stack_view(self.flat(), self.map_y as int, self.n_theta as int)
    }
}

impl Bitboard3D {
    /// All `n_theta * map_y` rows in storage order.
    pub closed spec fn flat(&self) -> Seq<Seq<bool>> {
        grid_view(self.data@, 0, self.map_x as int, self.n_theta * self.map_y, self.words_per_row as int)
    }

    /// The layout invariant: row width in words, data length, and clear bits past `map_x`.
    pub closed spec fn wf(&self) -> bool {
        &&& self.words_per_row as int == wpr_of(self.map_x as int)
        &&& fits3(self.map_x, self.map_y, self.n_theta)
        &&& self.data@.len() == self.n_theta * self.map_y * self.words_per_row
        &&& grid_masked(self.data@, 0, self.map_x as int, self.n_theta * self.map_y, self.words_per_row as int)
    }

    /// Width in cells.
    pub closed spec fn width(&self) -> int {
        self.map_x as int
    }

    /// Height in cells.
    pub closed spec fn height(&self) -> int {
        self.map_y as int
    }

    /// Number of theta layers.
    pub closed spec fn layers(&self) -> int {
        self.n_theta as int
    }

    /// The words backing the board.
    pub closed spec fn words(&self) -> Seq<u64> {
        self.data@
    }

    /// A well-formed board's view has `layers` layers of `height` rows of `width` cells.
    pub proof fn lemma_shape(&self)
        requires
            self.wf(),
        ensures
            shape3(self@, self.width(), self.height(), self.layers()),
            0 <= self.width() <= u32::MAX,
            0 <= self.height() <= u32::MAX,
            0 <= self.layers() <= u32::MAX,
            fits3(self.width() as u32, self.height() as u32, self.layers() as u32),
    {
        assert forall|it: int| 0 <= it < self.n_theta implies #[trigger] shape2(self@[it], self.width(), self.height()) by {
            assert forall|iy: int| 0 <= iy < self.map_y implies #[trigger] self@[it][iy].len() == self.width() by {
                lemma_layer_row(it, iy, 0, self.map_y as int, 1, self.n_theta as int);
            }
        }
    }

    proof fn lemma_flat_len(&self)
        requires
            self.wf(),
        ensures
            self.n_theta * self.map_y * self.words_per_row == self.data@.len(),
            self.flat().len() == self.n_theta * self.map_y,
            grid_fits(self.data@, 0, self.map_x as int, self.n_theta * self.map_y, self.words_per_row as int),
    {
        assert(0 <= self.n_theta * self.map_y) by (nonlinear_arith);
    }

    /// Allocate an all-clear board of size `map_x × map_y × n_theta`.
    pub fn new(map_x: u32, map_y: u32, n_theta: u32) -> (r: Self)
        requires
            fits3(map_x, map_y, n_theta),
        ensures
            r.wf(),
            r.width() == map_x,
            r.height() == map_y,
            r.layers() == n_theta,
            r@ == empty_stack(map_x as int, map_y as int, n_theta as int),
    {
        let wpr = words_per_row(map_x);
        let n = n_theta * map_y * wpr;
        let r = Self { data: vec![0u64; n as usize], map_x, map_y, n_theta, words_per_row: wpr };
        proof {
            let rows = n_theta * map_y;
            assert(rows * wpr == n) by (nonlinear_arith) requires rows == n_theta * map_y, n == n_theta * map_y * wpr;
            assert forall|iy: int, wi: int, b: int|
                0 <= iy < rows && 0 <= wi < wpr && 0 <= b < 64 && 64 * wi + b >= map_x implies !#[trigger] bit(
                word_at(r.data@, 0, wpr as int, iy, wi),
                b,
            ) by {
                lemma_index(iy, wi, wpr as int, rows);
                lemma_bit_full_empty(b);
            }
            lemma_wpr(map_x as int);
            assert forall|it: int| 0 <= it < n_theta implies #[trigger] r@[it] =~= empty_grid(map_x as int, map_y as int) by {
                assert forall|iy: int| 0 <= iy < map_y implies r@[it][iy] =~= empty_grid(map_x as int, map_y as int)[iy] by {
                    lemma_layer_row(it, iy, 0, map_y as int, 1, n_theta as int);
                    assert forall|ix: int| 0 <= ix < map_x implies !r@[it][iy][ix] by {
                        lemma_layer_row(it, iy, ix / 64, map_y as int, wpr as int, n_theta as int);
                        lemma_index(it * map_y + iy, ix / 64, wpr as int, rows);
                        lemma_bit_full_empty(ix % 64);
                    }
                }
            }
            assert(r@ =~= empty_stack(map_x as int, map_y as int, n_theta as int));
        }
        r
    }

    /// Width in cells.
    pub fn map_x(&self) -> (r: u32)
        ensures
            r == self.width(),
    {
        self.map_x
    }

    /// Height in cells.
    pub fn map_y(&self) -> (r: u32)
        ensures
            r == self.height(),
    {
        self.map_y
    }

    /// Number of theta layers.
    pub fn n_theta(&self) -> (r: u32)
        ensures
            r == self.layers(),
    {
        self.n_theta
    }

    /// Words per row (`ceil(map_x / 64)`).
    pub fn words_per_row(&self) -> (r: u32)
        requires
            self.wf(),
        ensures
            r == wpr_of(self.width()),
    {
        self.words_per_row
    }

    /// Words between consecutive theta layers.
    pub fn layer_stride(&self) -> (r: usize)
        requires
            self.wf(),
        ensures
            r == self.height() * wpr_of(self.width()),
    {
        (self.map_y * self.words_per_row) as usize
    }

    /// Flat word index of `(wi, iy, it)`.
    fn word_index(&self, wi: u32, iy: u32, it: u32) -> (r: usize)
        requires
            self.wf(),
            wi < self.words_per_row,
            iy < self.map_y,
            it < self.n_theta,
        ensures
            r == (it * self.map_y + iy) * self.words_per_row + wi,
            r < self.data@.len(),
    {
        proof {
            lemma_layer_row(it as int, iy as int, wi as int, self.map_y as int, self.words_per_row as int, self.n_theta as int);
            lemma_index(iy as int, wi as int, self.words_per_row as int, self.map_y as int);
            assert(it * self.map_y <= self.n_theta * self.map_y) by (nonlinear_arith)
                requires it < self.n_theta;
            assert(it * self.map_y * self.words_per_row <= self.n_theta * self.map_y * self.words_per_row) by (nonlinear_arith)
                requires it * self.map_y <= self.n_theta * self.map_y;
        }
        (it * self.map_y * self.words_per_row + iy * self.words_per_row + wi) as usize
    }

    /// Set the cell `(ix, iy, it)`.
    pub fn set(&mut self, ix: u32, iy: u32, it: u32)
        requires
            old(self).wf(),
            ix < old(self).width(),
            iy < old(self).height(),
            it < old(self).layers(),
        ensures
            final(self).wf(),
            final(self).width() == old(self).width(),
            final(self).height() == old(self).height(),
            final(self).layers() == old(self).layers(),
            final(self)@ == old(self)@.update(it as int, old(self)@[it as int].update(iy as int, old(self)@[it as int][iy as int].update(ix as int, true))),
    {
        let wi = ix / 64;
        let bi = ix % 64;
        proof {
            lemma_wpr(self.map_x as int);
            self.lemma_flat_len();
        }
        let idx = self.word_index(wi, iy, it);
        let ghost old_data = self.data@;
        let ghost wpr = self.words_per_row as int;
        let ghost rows = self.n_theta * self.map_y;
        let ghost fy = it * self.map_y + iy;
        let w = self.data[idx] | (1u64 << bi);
        self.data.set(idx, w);
        proof {
            let map_x = self.map_x as int;
            let map_y = self.map_y as int;
            lemma_layer_row(it as int, iy as int, wi as int, map_y, wpr, self.n_theta as int);
            assert forall|y: int, wj: int, b: int|
                0 <= y < rows && 0 <= wj < wpr && 0 <= b < 64 && 64 * wj + b >= map_x implies !#[trigger] bit(
                word_at(self.data@, 0, wpr, y, wj),
                b,
            ) by {
                lemma_index(y, wj, wpr, rows);
                if y * wpr + wj == idx {
                    lemma_index_inj(y, wj, fy, wi as int, wpr);
                    lemma_bit_or(old_data[idx as int], 1u64 << bi, b);
                    lemma_bit_single(bi as int, b);
                    assert(!bit(word_at(old_data, 0, wpr, y, wj), b));
                } else {
                    assert(!bit(word_at(old_data, 0, wpr, y, wj), b));
                }
            }
            let ov = old(self)@;
            let nv = ov.update(it as int, ov[it as int].update(iy as int, ov[it as int][iy as int].update(ix as int, true)));
            assert forall|t: int| 0 <= t < self.n_theta implies #[trigger] self@[t] =~= nv[t] by {
                assert forall|y: int| 0 <= y < map_y implies #[trigger] self@[t][y] =~= nv[t][y] by {
                    lemma_layer_row(t, y, 0, map_y, 1, self.n_theta as int);
                    assert forall|x: int| 0 <= x < map_x implies self@[t][y][x] == nv[t][y][x] by {
                        lemma_layer_row(t, y, x / 64, map_y, wpr, self.n_theta as int);
                        lemma_index(t * map_y + y, x / 64, wpr, rows);
                        if (t * map_y + y) * wpr + x / 64 == idx {
                            lemma_index_inj(t * map_y + y, x / 64, fy, wi as int, wpr);
                            lemma_index_inj(t, y, it as int, iy as int, map_y);
                            lemma_bit_or(old_data[idx as int], 1u64 << bi, x % 64);
                            lemma_bit_single(bi as int, x % 64);
                        } else {
                            if t == it && y == iy && x == ix {
                                assert(false);
                            }
                        }
                    }
                }
            }
            assert(self@ =~= nv);
        }
    }

    /// Whether the cell `(ix, iy, it)` is set.
    pub fn test(&self, ix: u32, iy: u32, it: u32) -> (r: bool)
        requires
            self.wf(),
            ix < self.width(),
            iy < self.height(),
            it < self.layers(),
        ensures
            r == self@[it as int][iy as int][ix as int],
    {
        let wi = ix / 64;
        let bi = ix % 64;
        proof {
            lemma_wpr(self.map_x as int);
            self.lemma_flat_len();
            lemma_layer_row(it as int, iy as int, 0, self.map_y as int, 1, self.n_theta as int);
        }
        let idx = self.word_index(wi, iy, it);
        proof {
            lemma_bit_test(self.data@[idx as int], bi as int);
        }
        self.data[idx] & (1u64 << bi) != 0
    }

    /// Number of set cells.
    pub fn popcount(&self) -> (r: u64)
        requires
            self.wf(),
        ensures
            r == layers_count(self@),
    {
        let r = popcount_slice(&self.data);
        proof {
            self.lemma_flat_len();
            let rows = self.n_theta * self.map_y;
            lemma_grid_count(self.data@, 0, self.map_x as int, rows, self.words_per_row as int, rows);
            assert(self.flat().take(rows) =~= self.flat());
            assert(self.data@.subrange(0, rows * self.words_per_row) =~= self.data@);
            lemma_stack_count(self.flat(), self.map_y as int, self.n_theta as int, self.n_theta as int);
            assert(self@.take(self.n_theta as int) =~= self@);
            assert(self.flat().take(self.n_theta * self.map_y) =~= self.flat());
        }
        r
    }

    proof fn lemma_stack_of_flat(&self, other: &Self, f: Seq<Seq<bool>>)
        requires
            self.wf(),
            other.wf(),
            other.map_x == self.map_x,
            other.map_y == self.map_y,
            other.n_theta == self.n_theta,
            f.len() == self.flat().len(),
            forall|y: int| 0 <= y < f.len() ==> #[trigger] f[y].len() == self.map_x,
        ensures
            stack_view(f, self.map_y as int, self.n_theta as int).len() == self.n_theta,
    {
    }

    /// In-place cell-wise AND with a board of the same size.
    pub fn and_inplace(&mut self, other: &Self)
        requires
            old(self).wf(),
            other.wf(),
            other.width() == old(self).width(),
            other.height() == old(self).height(),
            other.layers() == old(self).layers(),
        ensures
            final(self).wf(),
            final(self).width() == old(self).width(),
            final(self).height() == old(self).height(),
            final(self).layers() == old(self).layers(),
            final(self)@ == and_stack(old(self)@, other@),
    {
        let ghost d = self.data@;
        let ghost ov = self@;
        proof {
            self.lemma_flat_len();
        }
        and_slice(&mut self.data, &other.data);
        proof {
            let rows = self.n_theta * self.map_y;
            lemma_grid_and_or(self.data@, d, other.data@, 0, self.map_x as int, rows, self.words_per_row as int, true);
            lemma_stack_pointwise(self.flat(), old(self).flat(), other.flat(), self.map_x as int, self.map_y as int, self.n_theta as int, 0);
        }
    }

    /// In-place cell-wise OR with a board of the same size.
    pub fn or_inplace(&mut self, other: &Self)
        requires
            old(self).wf(),
            other.wf(),
            other.width() == old(self).width(),
            other.height() == old(self).height(),
            other.layers() == old(self).layers(),
        ensures
            final(self).wf(),
            final(self).width() == old(self).width(),
            final(self).height() == old(self).height(),
            final(self).layers() == old(self).layers(),
            final(self)@ == or_stack(old(self)@, other@),
    {
        let ghost d = self.data@;
        proof {
            self.lemma_flat_len();
        }
        or_slice(&mut self.data, &other.data);
        proof {
            let rows = self.n_theta * self.map_y;
            lemma_grid_and_or(self.data@, d, other.data@, 0, self.map_x as int, rows, self.words_per_row as int, false);
            lemma_stack_pointwise(self.flat(), old(self).flat(), other.flat(), self.map_x as int, self.map_y as int, self.n_theta as int, 1);
        }
    }

    /// 3-D box dilation: `(dx, dy)` within each layer, then cyclically by `dt`
    /// across layers; `dx` must be below 64 and `dt` at most the number of
    /// layers, so that the layer `it + n_theta - st` taken for each step
    /// `st <= dt` is never below zero.
    pub fn dilate(&self, dx: u32, dy: u32, dt: u32) -> (r: Self)
        requires
            self.wf(),
            dx < 64,
            self.layers() == 0 || dt <= self.layers(),
        ensures
            r.wf(),
            r.width() == self.width(),
            r.height() == self.height(),
            r.layers() == self.layers(),
            r@ == dilate_stack(self@, self.width(), self.height(), self.layers(), dx as int, dy as int, dt as int),
    {
        dilate3d(self, dx, dy, dt)
    }

    /// Stack from a `map_y × map_x × n_theta` cell array in `[y][x][t]` order.
    pub fn from_logical(mask: &Vec<bool>, map_x: u32, map_y: u32, n_theta: u32) -> (r: Self)
        requires
            mask@.len() == map_y * map_x * n_theta,
            fits3(map_x, map_y, n_theta),
        ensures
            r.wf(),
            r.width() == map_x,
            r.height() == map_y,
            r.layers() == n_theta,
            r@ == grid_of_cells3(mask@, map_x as int, map_y as int, n_theta as int),
    {
        from_logical3d(mask, map_x, map_y, n_theta)
    }

    /// The `map_y × map_x × n_theta` cell array, in `[y][x][t]` order, of the stack.
    pub fn to_logical(&self) -> (r: Vec<bool>)
        requires
            self.wf(),
        ensures
            r@ == cells_of_grid3(self@, self.width(), self.height(), self.layers()),
    {
        to_logical3d(self)
    }

    /// The words backing the board, layer after layer, row after row.
    pub fn data(&self) -> (r: &Vec<u64>)
        ensures
            r@ == self.words(),
    {
        &self.data
    }

    /// Cell-wise complement (cells past the board stay clear).
    pub fn complement(&self) -> (r: Self)
        requires
            self.wf(),
        ensures
            r.wf(),
            r.width() == self.width(),
            r.height() == self.height(),
            r.layers() == self.layers(),
            r@ == not_stack(self@),
    {
        let wpr = self.words_per_row as usize;
        proof {
            self.lemma_flat_len();
        }
        let total_rows = (self.n_theta * self.map_y) as usize;
        let rmask = row_mask(self.map_x);
        let mut data = self.data.clone();
        let ghost d = self.data@;
        for row in 0..total_rows
            invariant
                self.wf(),
                total_rows == self.n_theta * self.map_y,
                total_rows * wpr == d.len(),
                wpr == self.words_per_row,
                rmask@.len() == wpr,
                data@.len() == d.len(),
                d == self.data@,
                forall|y: int, wi: int| 0 <= y < total_rows && 0 <= wi < wpr ==> #[trigger] word_at(data@, 0, wpr as int, y, wi)
                    == if y < row { (!word_at(d, 0, wpr as int, y, wi)) & rmask@[wi] } else { word_at(d, 0, wpr as int, y, wi) },
        {
            for w in 0..wpr
                invariant
                    self.wf(),
                    0 <= row < total_rows,
                    total_rows == self.n_theta * self.map_y,
                    total_rows * wpr == d.len(),
                    wpr == self.words_per_row,
                    rmask@.len() == wpr,
                    data@.len() == d.len(),
                    d == self.data@,
                    forall|y: int, wi: int| 0 <= y < total_rows && 0 <= wi < wpr ==> #[trigger] word_at(data@, 0, wpr as int, y, wi)
                        == if y < row || (y == row && wi < w) { (!word_at(d, 0, wpr as int, y, wi)) & rmask@[wi] } else { word_at(d, 0, wpr as int, y, wi) },
            {
                proof {
                    lemma_index(row as int, w as int, wpr as int, total_rows as int);
                }
                let k = row * wpr + w;
                let ghost before = data@;
                proof {
                    assert(word_at(before, 0, wpr as int, row as int, w as int) == word_at(d, 0, wpr as int, row as int, w as int));
                }
                let x = (!data[k]) & rmask[w];
                data.set(k, x);
                proof {
                    assert forall|y: int, wi: int| 0 <= y < total_rows && 0 <= wi < wpr implies #[trigger] word_at(data@, 0, wpr as int, y, wi)
                        == if y < row || (y == row && wi < w + 1) { (!word_at(d, 0, wpr as int, y, wi)) & rmask@[wi] } else { word_at(d, 0, wpr as int, y, wi) } by {
                        lemma_index(y, wi, wpr as int, total_rows as int);
                        assert(word_at(before, 0, wpr as int, y, wi) == if y < row || (y == row && wi < w) { (!word_at(d, 0, wpr as int, y, wi)) & rmask@[wi] } else { word_at(d, 0, wpr as int, y, wi) });
                        if y * wpr + wi == k {
                            lemma_index_inj(y, wi, row as int, w as int, wpr as int);
                        }
                    }
                }
            }
        }
        let r = Bitboard3D { data, map_x: self.map_x, map_y: self.map_y, n_theta: self.n_theta, words_per_row: self.words_per_row };
        proof {
            lemma_grid_not(r.data@, d, rmask@, 0, self.map_x as int, total_rows as int, wpr as int);
            lemma_stack_pointwise(r.flat(), self.flat(), self.flat(), self.map_x as int, self.map_y as int, self.n_theta as int, 2);
        }
        r
    }
}

/// Reshaping a flat grid into a stack commutes with the cell-wise operations
/// (`op` 0 = AND, 1 = OR, 2 = NOT of `a`).
pub proof fn lemma_stack_pointwise(r: Seq<Seq<bool>>, a: Seq<Seq<bool>>, b: Seq<Seq<bool>>, map_x: int, map_y: int, n_theta: int, op: int)
    requires
        0 <= map_y,
        0 <= n_theta,
        a.len() == n_theta * map_y,
        b.len() == a.len(),
        forall|y: int| 0 <= y < a.len() ==> #[trigger] a[y].len() == map_x,
        forall|y: int| 0 <= y < a.len() ==> #[trigger] b[y].len() == map_x,
        op == 0 ==> r == and_grid(a, b),
        op == 1 ==> r == or_grid(a, b),
        op == 2 ==> r == not_grid(a),
    ensures
        op == 0 ==> stack_view(r, map_y, n_theta) == and_stack(stack_view(a, map_y, n_theta), stack_view(b, map_y, n_theta)),
        op == 1 ==> stack_view(r, map_y, n_theta) == or_stack(stack_view(a, map_y, n_theta), stack_view(b, map_y, n_theta)),
        op == 2 ==> stack_view(r, map_y, n_theta) == not_stack(stack_view(a, map_y, n_theta)),
{
    let sr = stack_view(r, map_y, n_theta);
    let sa = stack_view(a, map_y, n_theta);
    let sb = stack_view(b, map_y, n_theta);
    let target = if op == 0 { and_stack(sa, sb) } else if op == 1 { or_stack(sa, sb) } else { not_stack(sa) };
    if 0 <= op <= 2 {
        assert forall|it: int| 0 <= it < n_theta implies #[trigger] sr[it] =~= target[it] by {
            assert forall|iy: int| 0 <= iy < map_y implies #[trigger] sr[it][iy] =~= target[it][iy] by {
                lemma_layer_row(it, iy, 0, map_y, 1, n_theta);
            }
        }
        assert(sr =~= target);
    }
}

} // verus!
