//! The row-major word layout shared by 2-D boards and the theta layers of 3-D boards.
//!
//! A grid of `map_x × map_y` cells stored from word `off` keeps row `iy` in the
//! `wpr` words `off + iy * wpr ..`; cell `ix` of the row is bit `ix % 64` of the
//! row's word `ix / 64`.
use vstd::prelude::*;
use crate::bitboard::bits::{bit, lemma_bit_and, lemma_bit_or, lemma_bit_not, count_true, popcount_word, word_bits, words_sum, lemma_count_true_concat,
    lemma_words_sum_concat, lemma_word_bits_upper_clear};

verus! {

/// Words needed for a row of `map_x` bits.
pub open spec fn wpr_of(map_x: int) -> int {
    (map_x + 63) / 64
}

/// Word `wi` of row `iy` of the grid stored from word `off`.
pub open spec fn word_at(data: Seq<u64>, off: int, wpr: int, iy: int, wi: int) -> u64 {
    data[off + iy * wpr + wi]
}

/// Cell `(ix, iy)` of the grid stored from word `off`.
pub open spec fn grid_cell(data: Seq<u64>, off: int, wpr: int, ix: int, iy: int) -> bool {
    bit(word_at(data, off, wpr, iy, ix / 64), ix % 64)
}

/// The cells of the grid as rows: `grid_view(..)[iy][ix]`.
pub open spec fn grid_view(data: Seq<u64>, off: int, map_x: int, map_y: int, wpr: int) -> Seq<Seq<bool>> {
    Seq::new(map_y as nat, |iy: int| Seq::new(map_x as nat, |ix: int| grid_cell(data, off, wpr, ix, iy)))
}

/// No bit at or past column `map_x` of any row is set.
pub open spec fn grid_masked(data: Seq<u64>, off: int, map_x: int, map_y: int, wpr: int) -> bool {
    forall|iy: int, wi: int, b: int|
        0 <= iy < map_y && 0 <= wi < wpr && 0 <= b < 64 && 64 * wi + b >= map_x ==> !#[trigger] bit(
            word_at(data, off, wpr, iy, wi),
            b,
        )
}

/// `v` has `h` rows of `w` cells.
pub open spec fn shape2(v: Seq<Seq<bool>>, w: int, h: int) -> bool {
    v.len() == h && forall|iy: int| 0 <= iy < h ==> #[trigger] v[iy].len() == w
}

/// Number of set cells over all rows.
pub open spec fn rows_count(v: Seq<Seq<bool>>) -> nat
    decreases v.len(),
{
    if v.len() == 0 {
        0
    } else {
        rows_count(v.drop_last()) + count_true(v.last())
    }
}

/// Index arithmetic of the row-major layout: `iy * wpr + wi` lies in the grid and
/// determines `(iy, wi)`.
pub proof fn lemma_index(iy: int, wi: int, wpr: int, map_y: int)
    requires
        0 <= iy < map_y,
        0 <= wi < wpr,
    ensures
        0 <= iy * wpr + wi < map_y * wpr,
        iy * wpr <= iy * wpr + wi,
        (iy + 1) * wpr == iy * wpr + wpr,
{
    assert(0 <= iy * wpr + wi < map_y * wpr) by (nonlinear_arith)
        requires
            0 <= iy < map_y,
            0 <= wi < wpr,
    ;
    assert((iy + 1) * wpr == iy * wpr + wpr) by (nonlinear_arith);
}

/// Distinct `(iy, wi)` pairs address distinct words.
pub proof fn lemma_index_inj(iy: int, wi: int, iy2: int, wi2: int, wpr: int)
    requires
        0 <= iy,
        0 <= iy2,
        0 <= wi < wpr,
        0 <= wi2 < wpr,
        iy * wpr + wi == iy2 * wpr + wi2,
    ensures
        iy == iy2,
        wi == wi2,
{
    if iy < iy2 {
        assert(iy * wpr + wi < iy2 * wpr + wi2) by (nonlinear_arith)
            requires
                0 <= iy < iy2,
                0 <= wi < wpr,
                0 <= wi2,
        ;
    } else if iy2 < iy {
        assert(iy2 * wpr + wi2 < iy * wpr + wi) by (nonlinear_arith)
            requires
                0 <= iy2 < iy,
                0 <= wi2 < wpr,
                0 <= wi,
        ;
    }
}

/// Words `wpr_of(map_x)` cover exactly the columns `0 .. 64 * wpr`, the last word
/// holding column `map_x - 1`.
pub proof fn lemma_wpr(map_x: int)
    requires
        0 <= map_x,
    ensures
        64 * wpr_of(map_x) >= map_x,
        map_x > 0 ==> 64 * (wpr_of(map_x) - 1) < map_x,
        map_x == 0 ==> wpr_of(map_x) == 0,
        forall|ix: int| 0 <= ix < map_x ==> 0 <= #[trigger] (ix / 64) < wpr_of(map_x),
{
}

/// Bits of a word sequence counted by global position `64 * word + bit` below `n`.
pub open spec fn prefix_bits(ws: Seq<u64>, n: int) -> nat
    decreases n,
{
    if n <= 0 {
        0
    } else {
        prefix_bits(ws, n - 1) + if bit(ws[(n - 1) / 64], (n - 1) % 64) { 1nat } else { 0nat }
    }
}

proof fn lemma_prefix_bits_words(ws: Seq<u64>, k: int, c: int)
    requires
        0 <= k < ws.len(),
        0 <= c <= 64,
    ensures
        prefix_bits(ws, 64 * k + c) == words_sum(ws.take(k)) + word_bits(ws[k], c),
    decreases k, c,
{
    if c == 0 {
        if k == 0 {
            assert(ws.take(0) =~= Seq::<u64>::empty());
        } else {
            lemma_prefix_bits_words(ws, k - 1, 64);
            assert(ws.take(k).drop_last() =~= ws.take(k - 1));
            assert(ws.take(k).last() == ws[k - 1]);
        }
    } else {
        lemma_prefix_bits_words(ws, k, c - 1);
        assert((64 * k + c - 1) / 64 == k);
        assert((64 * k + c - 1) % 64 == c - 1);
    }
}

/// Counting all bits of the word sequence.
proof fn lemma_prefix_bits_all(ws: Seq<u64>)
    ensures
        prefix_bits(ws, 64 * ws.len() as int) == words_sum(ws),
{
    if ws.len() > 0 {
        let k = ws.len() - 1;
        lemma_prefix_bits_words(ws, k, 64);
        assert(ws.take(k) =~= ws.drop_last());
    }
}

/// Positions past `n` hold no set bit, so counting up to `n` counts everything.
proof fn lemma_prefix_bits_masked(ws: Seq<u64>, n: int, m: int)
    requires
        0 <= n <= m <= 64 * ws.len(),
        forall|p: int| n <= p < 64 * ws.len() ==> !#[trigger] bit(ws[p / 64], p % 64),
    ensures
        prefix_bits(ws, m) == prefix_bits(ws, n),
    decreases m - n,
{
    if m > n {
        lemma_prefix_bits_masked(ws, n, m - 1);
        assert(!bit(ws[(m - 1) / 64], (m - 1) % 64));
    }
}

/// The cells of one row counted as bits.
proof fn lemma_row_count(ws: Seq<u64>, map_x: int, n: int)
    requires
        0 <= n <= map_x,
    ensures
        count_true(Seq::new(n as nat, |ix: int| bit(ws[ix / 64], ix % 64))) == prefix_bits(ws, n),
    decreases n,
{
    if n > 0 {
        lemma_row_count(ws, map_x, n - 1);
        assert(Seq::new(n as nat, |ix: int| bit(ws[ix / 64], ix % 64)).drop_last() =~= Seq::new(
            (n - 1) as nat,
            |ix: int| bit(ws[ix / 64], ix % 64),
        ));
    }
}

/// One masked row: its set cells are exactly the bits of its words.
proof fn lemma_row_words(data: Seq<u64>, off: int, map_x: int, map_y: int, wpr: int, iy: int)
    requires
        0 <= map_x,
        wpr == wpr_of(map_x),
        0 <= iy < map_y,
        0 <= off,
        off + map_y * wpr <= data.len(),
        grid_masked(data, off, map_x, map_y, wpr),
    ensures
        count_true(grid_view(data, off, map_x, map_y, wpr)[iy]) == words_sum(
            data.subrange(off + iy * wpr, off + iy * wpr + wpr),
        ),
{
    lemma_wpr(map_x);
    let ws = data.subrange(off + iy * wpr, off + iy * wpr + wpr);
    if wpr > 0 {
        lemma_index(iy, wpr - 1, wpr, map_y);
    } else {
        assert(0 <= iy * wpr) by (nonlinear_arith)
            requires
                0 <= iy,
                0 <= wpr,
        ;
        assert(iy * wpr <= map_y * wpr) by (nonlinear_arith)
            requires
                0 <= iy < map_y,
                0 <= wpr,
        ;
    }
    assert(grid_view(data, off, map_x, map_y, wpr)[iy] =~= Seq::new(
        map_x as nat,
        |ix: int| bit(ws[ix / 64], ix % 64),
    )) by {
        assert forall|ix: int| 0 <= ix < map_x implies grid_view(data, off, map_x, map_y, wpr)[iy][ix] == bit(
            ws[ix / 64],
            ix % 64,
        ) by {
            assert(ws[ix / 64] == word_at(data, off, wpr, iy, ix / 64));
        }
    }
    lemma_row_count(ws, map_x, map_x);
    assert forall|p: int| map_x <= p < 64 * ws.len() implies !#[trigger] bit(ws[p / 64], p % 64) by {
        assert(ws[p / 64] == word_at(data, off, wpr, iy, p / 64));
        assert(!bit(word_at(data, off, wpr, iy, p / 64), p % 64));
    }
    lemma_prefix_bits_masked(ws, map_x, 64 * ws.len() as int);
    lemma_prefix_bits_all(ws);
}

/// The set cells of a masked grid are exactly the set bits of its words.
pub proof fn lemma_grid_count(data: Seq<u64>, off: int, map_x: int, map_y: int, wpr: int, rows: int)
    requires
        0 <= map_x,
        wpr == wpr_of(map_x),
        0 <= rows <= map_y,
        0 <= off,
        off + map_y * wpr <= data.len(),
        grid_masked(data, off, map_x, map_y, wpr),
    ensures
        rows_count(grid_view(data, off, map_x, map_y, wpr).take(rows)) == words_sum(
            data.subrange(off, off + rows * wpr),
        ),
    decreases rows,
{
    let v = grid_view(data, off, map_x, map_y, wpr);
    if rows == 0 {
        assert(v.take(0) =~= Seq::<Seq<bool>>::empty());
        assert(rows * wpr == 0) by (nonlinear_arith) requires rows == 0;
        assert(data.subrange(off, off) =~= Seq::<u64>::empty());
    } else {
        let iy = rows - 1;
        lemma_grid_count(data, off, map_x, map_y, wpr, rows - 1);
        lemma_row_words(data, off, map_x, map_y, wpr, iy);
        assert(v.take(rows).drop_last() =~= v.take(rows - 1));
        assert(v.take(rows).last() == v[iy]);
        assert(iy * wpr + wpr == rows * wpr) by (nonlinear_arith)
            requires
                iy == rows - 1,
        ;
        assert(0 <= iy * wpr) by (nonlinear_arith)
            requires
                0 <= iy,
                0 <= wpr,
        ;
        assert(rows * wpr <= map_y * wpr) by (nonlinear_arith)
            requires
                0 <= rows <= map_y,
                0 <= wpr,
        ;
        assert(data.subrange(off, off + rows * wpr) =~= data.subrange(off, off + iy * wpr) + data.subrange(
            off + iy * wpr,
            off + iy * wpr + wpr,
        ));
        lemma_words_sum_concat(data.subrange(off, off + iy * wpr), data.subrange(off + iy * wpr, off + iy * wpr + wpr));
    }
}

/// Cell-wise conjunction of two grids of the same shape as `a`.
pub open spec fn and_grid(a: Seq<Seq<bool>>, b: Seq<Seq<bool>>) -> Seq<Seq<bool>> {
    Seq::new(a.len(), |iy: int| Seq::new(a[iy].len(), |ix: int| a[iy][ix] && b[iy][ix]))
}

/// Cell-wise disjunction of two grids of the same shape as `a`.
pub open spec fn or_grid(a: Seq<Seq<bool>>, b: Seq<Seq<bool>>) -> Seq<Seq<bool>> {
    Seq::new(a.len(), |iy: int| Seq::new(a[iy].len(), |ix: int| a[iy][ix] || b[iy][ix]))
}

/// Cell-wise negation of a grid.
pub open spec fn not_grid(a: Seq<Seq<bool>>) -> Seq<Seq<bool>> {
    Seq::new(a.len(), |iy: int| Seq::new(a[iy].len(), |ix: int| !a[iy][ix]))
}

/// The grid region `[off, off + map_y * wpr)` lies inside `data`.
pub open spec fn grid_fits(data: Seq<u64>, off: int, map_x: int, map_y: int, wpr: int) -> bool {
    &&& 0 <= map_x
    &&& 0 <= map_y
    &&& wpr == wpr_of(map_x)
    &&& 0 <= off
    &&& off + map_y * wpr <= data.len()
}

/// Word-wise AND / OR of two grids gives the cell-wise AND / OR, keeping the mask.
pub proof fn lemma_grid_and_or(d2: Seq<u64>, d: Seq<u64>, o: Seq<u64>, off: int, map_x: int, map_y: int, wpr: int, is_and: bool)
    requires
        grid_fits(d, off, map_x, map_y, wpr),
        d2.len() == d.len(),
        o.len() == d.len(),
        forall|i: int| off <= i < off + map_y * wpr ==> #[trigger] d2[i] == if is_and { d[i] & o[i] } else { d[i] | o[i] },
        grid_masked(d, off, map_x, map_y, wpr),
        grid_masked(o, off, map_x, map_y, wpr),
    ensures
        grid_view(d2, off, map_x, map_y, wpr) == if is_and {
            and_grid(grid_view(d, off, map_x, map_y, wpr), grid_view(o, off, map_x, map_y, wpr))
        } else {
            or_grid(grid_view(d, off, map_x, map_y, wpr), grid_view(o, off, map_x, map_y, wpr))
        },
        grid_masked(d2, off, map_x, map_y, wpr),
{
    lemma_wpr(map_x);
    assert forall|iy: int, wi: int, b: int|
        0 <= iy < map_y && 0 <= wi < wpr && 0 <= b < 64 && 64 * wi + b >= map_x implies !#[trigger] bit(
        word_at(d2, off, wpr, iy, wi),
        b,
    ) by {
        lemma_index(iy, wi, wpr, map_y);
        lemma_bit_and(word_at(d, off, wpr, iy, wi), word_at(o, off, wpr, iy, wi), b);
        lemma_bit_or(word_at(d, off, wpr, iy, wi), word_at(o, off, wpr, iy, wi), b);
        assert(!bit(word_at(d, off, wpr, iy, wi), b));
        assert(!bit(word_at(o, off, wpr, iy, wi), b));
    }
    let v2 = grid_view(d2, off, map_x, map_y, wpr);
    let v = grid_view(d, off, map_x, map_y, wpr);
    let vo = grid_view(o, off, map_x, map_y, wpr);
    let r = if is_and { and_grid(v, vo) } else { or_grid(v, vo) };
    assert forall|iy: int| 0 <= iy < map_y implies #[trigger] v2[iy] =~= r[iy] by {
        assert forall|ix: int| 0 <= ix < map_x implies v2[iy][ix] == r[iy][ix] by {
            lemma_index(iy, ix / 64, wpr, map_y);
            lemma_bit_and(word_at(d, off, wpr, iy, ix / 64), word_at(o, off, wpr, iy, ix / 64), ix % 64);
            lemma_bit_or(word_at(d, off, wpr, iy, ix / 64), word_at(o, off, wpr, iy, ix / 64), ix % 64);
        }
    }
    assert(v2 =~= r);
}

/// Complementing each word under the row mask negates every cell and keeps the mask.
pub proof fn lemma_grid_not(d2: Seq<u64>, d: Seq<u64>, rmask: Seq<u64>, off: int, map_x: int, map_y: int, wpr: int)
    requires
        grid_fits(d, off, map_x, map_y, wpr),
        d2.len() == d.len(),
        rmask.len() == wpr,
        forall|w: int, b: int| 0 <= w < wpr && 0 <= b < 64 ==> #[trigger] bit(rmask[w], b) == (64 * w + b < map_x),
        forall|iy: int, wi: int| 0 <= iy < map_y && 0 <= wi < wpr ==> #[trigger] word_at(d2, off, wpr, iy, wi) == (!word_at(d, off, wpr, iy, wi)) & rmask[wi],
    ensures
        grid_view(d2, off, map_x, map_y, wpr) == not_grid(grid_view(d, off, map_x, map_y, wpr)),
        grid_masked(d2, off, map_x, map_y, wpr),
{
    lemma_wpr(map_x);
    assert forall|iy: int, wi: int, b: int|
        0 <= iy < map_y && 0 <= wi < wpr && 0 <= b < 64 && 64 * wi + b >= map_x implies !#[trigger] bit(
        word_at(d2, off, wpr, iy, wi),
        b,
    ) by {
        lemma_bit_and(!word_at(d, off, wpr, iy, wi), rmask[wi], b);
        assert(!bit(rmask[wi], b));
    }
    let v2 = grid_view(d2, off, map_x, map_y, wpr);
    let r = not_grid(grid_view(d, off, map_x, map_y, wpr));
    assert forall|iy: int| 0 <= iy < map_y implies #[trigger] v2[iy] =~= r[iy] by {
        assert forall|ix: int| 0 <= ix < map_x implies v2[iy][ix] == r[iy][ix] by {
            let wi = ix / 64;
            assert(word_at(d2, off, wpr, iy, wi) == (!word_at(d, off, wpr, iy, wi)) & rmask[wi]);
            lemma_bit_and(!word_at(d, off, wpr, iy, wi), rmask[wi], ix % 64);
            lemma_bit_not(word_at(d, off, wpr, iy, wi), ix % 64);
            assert(bit(rmask[wi], ix % 64));
        }
    }
    assert(v2 =~= r);
}

/// `rows_count` distributes over concatenation.
pub proof fn lemma_rows_count_concat(a: Seq<Seq<bool>>, b: Seq<Seq<bool>>)
    ensures
        rows_count(a + b) == rows_count(a) + rows_count(b),
    decreases b.len(),
{
    if b.len() == 0 {
        assert(a + b =~= a);
    } else {
        lemma_rows_count_concat(a, b.drop_last());
        assert((a + b).drop_last() =~= a + b.drop_last());
    }
}

/// Row `iy` of layer `it` of a stack of `map_y`-row layers is flat row `it * map_y + iy`,
/// whose word `wi` sits at `(it * map_y + iy) * wpr + wi == it * (map_y * wpr) + iy * wpr + wi`.
pub proof fn lemma_layer_row(it: int, iy: int, wi: int, map_y: int, wpr: int, n_theta: int)
    requires
        0 <= it < n_theta,
        0 <= iy < map_y,
        0 <= wi < wpr,
    ensures
        0 <= it * map_y + iy < n_theta * map_y,
        (it * map_y + iy) * wpr + wi == it * (map_y * wpr) + iy * wpr + wi,
        it * map_y * wpr == it * (map_y * wpr),
        (it * map_y + iy) * wpr + wi < n_theta * (map_y * wpr),
        (it * map_y + iy) * wpr + wi < n_theta * map_y * wpr,
        n_theta * map_y * wpr == n_theta * (map_y * wpr),
        0 <= it * (map_y * wpr),
        it * map_y * wpr + iy * wpr + wi == (it * map_y + iy) * wpr + wi,
{
    assert(0 <= it * map_y + iy < n_theta * map_y) by (nonlinear_arith)
        requires
            0 <= it < n_theta,
            0 <= iy < map_y,
    ;
    assert((it * map_y + iy) * wpr == it * (map_y * wpr) + iy * wpr) by (nonlinear_arith);
    assert(it * map_y * wpr == it * (map_y * wpr)) by (nonlinear_arith);
    assert((it * map_y + iy) * wpr == it * map_y * wpr + iy * wpr) by (nonlinear_arith);
    lemma_index(it * map_y + iy, wi, wpr, n_theta * map_y);
    assert(n_theta * map_y * wpr == n_theta * (map_y * wpr)) by (nonlinear_arith);
    assert(0 <= it * (map_y * wpr)) by (nonlinear_arith)
        requires
            0 <= it,
            0 <= map_y,
            0 <= wpr,
    ;
}

/// A grid's cells and mask depend only on the words of its region.
pub proof fn lemma_grid_frame(d2: Seq<u64>, d: Seq<u64>, off: int, map_x: int, map_y: int, wpr: int)
    requires
        grid_fits(d, off, map_x, map_y, wpr),
        d2.len() == d.len(),
        forall|i: int| off <= i < off + map_y * wpr ==> #[trigger] d2[i] == d[i],
    ensures
        grid_view(d2, off, map_x, map_y, wpr) == grid_view(d, off, map_x, map_y, wpr),
        grid_masked(d2, off, map_x, map_y, wpr) == grid_masked(d, off, map_x, map_y, wpr),
{
    lemma_wpr(map_x);
    assert forall|iy: int, wi: int| 0 <= iy < map_y && 0 <= wi < wpr implies #[trigger] word_at(d2, off, wpr, iy, wi) == word_at(d, off, wpr, iy, wi) by {
        lemma_index(iy, wi, wpr, map_y);
    }
    let v2 = grid_view(d2, off, map_x, map_y, wpr);
    let v = grid_view(d, off, map_x, map_y, wpr);
    assert forall|iy: int| 0 <= iy < map_y implies #[trigger] v2[iy] =~= v[iy] by {
        assert forall|ix: int| 0 <= ix < map_x implies v2[iy][ix] == v[iy][ix] by {
            assert(word_at(d2, off, wpr, iy, ix / 64) == word_at(d, off, wpr, iy, ix / 64));
        }
    }
    assert(v2 =~= v);
    if grid_masked(d, off, map_x, map_y, wpr) {
        assert forall|iy: int, wi: int, b: int|
            0 <= iy < map_y && 0 <= wi < wpr && 0 <= b < 64 && 64 * wi + b >= map_x implies !#[trigger] bit(word_at(d2, off, wpr, iy, wi), b) by {
            assert(word_at(d2, off, wpr, iy, wi) == word_at(d, off, wpr, iy, wi));
        }
    }
    if grid_masked(d2, off, map_x, map_y, wpr) {
        assert forall|iy: int, wi: int, b: int|
            0 <= iy < map_y && 0 <= wi < wpr && 0 <= b < 64 && 64 * wi + b >= map_x implies !#[trigger] bit(word_at(d, off, wpr, iy, wi), b) by {
            assert(word_at(d2, off, wpr, iy, wi) == word_at(d, off, wpr, iy, wi));
        }
    }
}

/// Layer `it` of a stack stored as `n_theta * map_y` flat rows is the grid stored
/// from word `it * map_y * wpr`.
pub proof fn lemma_layer_grid(d: Seq<u64>, map_x: int, map_y: int, wpr: int, n_theta: int, it: int)
    requires
        grid_fits(d, 0, map_x, n_theta * map_y, wpr),
        0 <= map_y,
        0 <= it < n_theta,
        d.len() == n_theta * map_y * wpr,
    ensures
        grid_fits(d, it * (map_y * wpr), map_x, map_y, wpr),
        grid_masked(d, 0, map_x, n_theta * map_y, wpr) ==> grid_masked(d, it * (map_y * wpr), map_x, map_y, wpr),
        forall|iy: int| 0 <= iy < map_y ==> #[trigger] grid_view(d, it * (map_y * wpr), map_x, map_y, wpr)[iy]
            == grid_view(d, 0, map_x, n_theta * map_y, wpr)[it * map_y + iy],
        it * (map_y * wpr) + map_y * wpr <= d.len(),
{
    lemma_wpr(map_x);
    let off = it * (map_y * wpr);
    assert(off + map_y * wpr <= d.len()) by (nonlinear_arith)
        requires
            0 <= it < n_theta,
            0 <= map_y,
            0 <= wpr,
            off == it * (map_y * wpr),
            d.len() == n_theta * map_y * wpr,
    ;
    assert(0 <= off) by (nonlinear_arith)
        requires
            0 <= it,
            0 <= map_y,
            0 <= wpr,
            off == it * (map_y * wpr),
    ;
    assert forall|iy: int, wi: int| 0 <= iy < map_y && 0 <= wi < wpr implies #[trigger] word_at(d, off, wpr, iy, wi) == word_at(d, 0, wpr, it * map_y + iy, wi) by {
        lemma_layer_row(it, iy, wi, map_y, wpr, n_theta);
    }
    if grid_masked(d, 0, map_x, n_theta * map_y, wpr) {
        assert forall|iy: int, wi: int, b: int|
            0 <= iy < map_y && 0 <= wi < wpr && 0 <= b < 64 && 64 * wi + b >= map_x implies !#[trigger] bit(word_at(d, off, wpr, iy, wi), b) by {
            lemma_layer_row(it, iy, wi, map_y, wpr, n_theta);
            assert(word_at(d, off, wpr, iy, wi) == word_at(d, 0, wpr, it * map_y + iy, wi));
        }
    }
    assert forall|iy: int| 0 <= iy < map_y implies #[trigger] grid_view(d, off, map_x, map_y, wpr)[iy]
        == grid_view(d, 0, map_x, n_theta * map_y, wpr)[it * map_y + iy] by {
        lemma_layer_row(it, iy, 0, map_y, 1, n_theta);
        assert forall|ix: int| 0 <= ix < map_x implies grid_view(d, off, map_x, map_y, wpr)[iy][ix]
            == grid_view(d, 0, map_x, n_theta * map_y, wpr)[it * map_y + iy][ix] by {
            assert(word_at(d, off, wpr, iy, ix / 64) == word_at(d, 0, wpr, it * map_y + iy, ix / 64));
        }
        assert(grid_view(d, off, map_x, map_y, wpr)[iy] =~= grid_view(d, 0, map_x, n_theta * map_y, wpr)[it * map_y + iy]);
    }
}

} // verus!
