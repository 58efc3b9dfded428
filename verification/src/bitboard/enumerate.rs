//! Enumeration of the set cells of a board, in storage order.
//!
//! A scan walks the words of the board row after row; inside a word it takes
//! the lowest set bit (`trailing_zeros`) and clears it (`w & (w - 1)`), and it
//! skips words that are zero.
use vstd::prelude::*;
use crate::bitboard::bits::{bit, count_true, lemma_clear_lowest, lemma_bit_full_empty};
use crate::bitboard::grid::{wpr_of, word_at, grid_masked, rows_count, shape2, lemma_index, lemma_index_inj, lemma_wpr, lemma_layer_row};
use crate::bitboard::{Bitboard2D, Bitboard3D, layers_count, shape3};

verus! {

/// Storage order of cells `(x, row)`: by row, then by column.
pub open spec fn cell_before(a: (int, int), b: (int, int)) -> bool {
    a.1 < b.1 || (a.1 == b.1 && a.0 < b.0)
}

/// Storage order of cells `(x, y, t)`: by layer, then row, then column.
pub open spec fn cell3_before(a: (int, int, int), b: (int, int, int)) -> bool {
    a.2 < b.2 || (a.2 == b.2 && (a.1 < b.1 || (a.1 == b.1 && a.0 < b.0)))
}

/// The set cells `(x, y)` of a `w × h` grid.
pub open spec fn set_cells2(v: Seq<Seq<bool>>, w: int, h: int) -> Set<(int, int)> {
    Set::new(|c: (int, int)| 0 <= c.1 < h && 0 <= c.0 < w && v[c.1][c.0])
}

/// The set cells `(x, y, t)` of a stack of `n` layers of `w × h` cells.
pub open spec fn set_cells3(v: Seq<Seq<Seq<bool>>>, w: int, h: int, n: int) -> Set<(int, int, int)> {
    Set::new(|c: (int, int, int)| 0 <= c.2 < n && 0 <= c.1 < h && 0 <= c.0 < w && v[c.2][c.1][c.0])
}

/// A sequence counts no `true` entry exactly when it has none.
pub proof fn lemma_count_true_zero(s: Seq<bool>)
    ensures
        (count_true(s) == 0) == (forall|i: int| 0 <= i < s.len() ==> !#[trigger] s[i]),
    decreases s.len(),
{
    if s.len() > 0 {
        let d = s.drop_last();
        lemma_count_true_zero(d);
        if count_true(s) == 0 {
            assert forall|i: int| 0 <= i < s.len() implies !#[trigger] s[i] by {
                if i < s.len() - 1 {
                    assert(d[i] == s[i]);
                }
            }
        } else if !s.last() {
            let i = choose|i: int| 0 <= i < d.len() && d[i];
            assert(s[i]);
        }
    }
}

/// Rows count no set cell exactly when no row has one.
pub proof fn lemma_rows_count_zero(v: Seq<Seq<bool>>)
    ensures
        (rows_count(v) == 0) == (forall|y: int, x: int| 0 <= y < v.len() && 0 <= x < v[y].len() ==> !#[trigger] v[y][x]),
    decreases v.len(),
{
    if v.len() > 0 {
        lemma_rows_count_zero(v.drop_last());
        lemma_count_true_zero(v.last());
        assert forall|y: int| 0 <= y < v.len() - 1 implies #[trigger] v.drop_last()[y] == v[y] by {}
        if rows_count(v) == 0 {
            assert forall|y: int, x: int| 0 <= y < v.len() && 0 <= x < v[y].len() implies !#[trigger] v[y][x] by {
                if y < v.len() - 1 {
                    assert(v.drop_last()[y] == v[y]);
                }
            }
        } else {
            if count_true(v.last()) != 0 {
                let x = choose|x: int| 0 <= x < v.last().len() && v.last()[x];
                assert(v[v.len() - 1][x]);
            } else {
                let (y, x) = choose|y: int, x: int| 0 <= y < v.drop_last().len() && 0 <= x < v.drop_last()[y].len() && v.drop_last()[y][x];
                assert(v[y][x]);
            }
        }
    }
}

/// Layers count no set cell exactly when no layer has one.
pub proof fn lemma_layers_count_zero(v: Seq<Seq<Seq<bool>>>)
    ensures
        (layers_count(v) == 0) == (forall|t: int, y: int, x: int| 0 <= t < v.len() && 0 <= y < v[t].len() && 0 <= x < v[t][y].len()
            ==> !#[trigger] v[t][y][x]),
    decreases v.len(),
{
    if v.len() > 0 {
        lemma_layers_count_zero(v.drop_last());
        lemma_rows_count_zero(v.last());
        assert forall|t: int| 0 <= t < v.len() - 1 implies #[trigger] v.drop_last()[t] == v[t] by {}
        if layers_count(v) == 0 {
            assert forall|t: int, y: int, x: int| 0 <= t < v.len() && 0 <= y < v[t].len() && 0 <= x < v[t][y].len() implies !#[trigger] v[t][y][x] by {
                if t < v.len() - 1 {
                    assert(v.drop_last()[t] == v[t]);
                }
            }
        } else {
            if rows_count(v.last()) != 0 {
                let (y, x) = choose|y: int, x: int| 0 <= y < v.last().len() && 0 <= x < v.last()[y].len() && v.last()[y][x];
                assert(v[v.len() - 1][y][x]);
            } else {
                let (t, y, x) = choose|t: int, y: int, x: int| 0 <= t < v.drop_last().len() && 0 <= y < v.drop_last()[t].len()
                    && 0 <= x < v.drop_last()[t][y].len() && v.drop_last()[t][y][x];
                assert(v[t][y][x]);
            }
        }
    }
}

/// A board counts no set cell exactly when its set cells are none.
pub proof fn lemma_count_empty2(v: Seq<Seq<bool>>, w: int, h: int)
    requires
        shape2(v, w, h),
    ensures
        (rows_count(v) == 0) == (set_cells2(v, w, h) == Set::<(int, int)>::empty()),
{
    lemma_rows_count_zero(v);
    if rows_count(v) == 0 {
        assert(set_cells2(v, w, h) =~= Set::<(int, int)>::empty());
    } else {
        let (y, x) = choose|y: int, x: int| 0 <= y < v.len() && 0 <= x < v[y].len() && v[y][x];
        assert(set_cells2(v, w, h).contains((x, y)));
    }
}

/// A stack counts no set cell exactly when its set cells are none.
pub proof fn lemma_count_empty3(v: Seq<Seq<Seq<bool>>>, w: int, h: int, n: int)
    requires
        shape3(v, w, h, n),
    ensures
        (layers_count(v) == 0) == (set_cells3(v, w, h, n) == Set::<(int, int, int)>::empty()),
{
    lemma_layers_count_zero(v);
    if layers_count(v) == 0 {
        assert forall|c: (int, int, int)| !set_cells3(v, w, h, n).contains(c) by {
            if 0 <= c.2 < n && 0 <= c.1 < h && 0 <= c.0 < w {
                assert(shape2(v[c.2], w, h));
            }
        }
        assert(set_cells3(v, w, h, n) =~= Set::<(int, int, int)>::empty());
    } else {
        let (t, y, x) = choose|t: int, y: int, x: int| 0 <= t < v.len() && 0 <= y < v[t].len() && 0 <= x < v[t][y].len() && v[t][y][x];
        assert(shape2(v[t], w, h));
        assert(set_cells3(v, w, h, n).contains((x, y, t)));
    }
}

/// Set cells `(x, r)` of a grid of `rows` rows that a scan standing at word `wi`
/// of row `row`, with bits `word` of that word left, has still to yield.
pub open spec fn scan_pending(data: Seq<u64>, map_x: int, rows: int, wpr: int, row: int, wi: int, word: u64) -> Set<(int, int)> {
    Set::new(|c: (int, int)| {
        &&& 0 <= c.1 < rows
        &&& 0 <= c.0 < map_x
        &&& bit(word_at(data, 0, wpr, c.1, c.0 / 64), c.0 % 64)
        &&& (c.1 * wpr + c.0 / 64 > row * wpr + wi || (c.1 == row && c.0 / 64 == wi && bit(word, c.0 % 64)))
    })
}

/// Consistency of a scan position with the grid it walks.
pub open spec fn scan_inv(data: Seq<u64>, map_x: int, rows: int, wpr: int, row: int, wi: int, word: u64) -> bool {
    &&& 0 <= map_x
    &&& wpr == wpr_of(map_x)
    &&& 0 <= rows
    &&& data.len() == rows * wpr
    &&& grid_masked(data, 0, map_x, rows, wpr)
    &&& 0 <= row <= rows
    &&& 0 <= wi
    &&& row < rows ==> (wi < wpr || (wpr == 0 && wi == 0 && word == 0))
    &&& row == rows ==> wi == 0 && word == 0
    &&& (row < rows && wi < wpr) ==> forall|b: int| 0 <= b < 64 && #[trigger] bit(word, b) ==> bit(word_at(data, 0, wpr, row, wi), b)
}

/// Progress measure of a scan: words left, then the bits left in the current word.
pub open spec fn scan_measure(rows: int, wpr: int, row: int, wi: int, word: u64) -> int {
    (rows * wpr - (row * wpr + wi)) * 0x1_0000_0000_0000_0000 + word
}

/// The position of a consistent scan lies within the grid's words.
proof fn lemma_scan_bounds(data: Seq<u64>, map_x: int, rows: int, wpr: int, row: int, wi: int, word: u64)
    requires
        scan_inv(data, map_x, rows, wpr, row, wi, word),
    ensures
        0 <= row * wpr + wi <= rows * wpr,
        0 <= scan_measure(rows, wpr, row, wi, word),
{
    if row < rows && wi < wpr {
        lemma_index(row, wi, wpr, rows);
    } else if row < rows {
        assert(row * wpr == 0) by (nonlinear_arith) requires wpr == 0;
    }
    assert(0 <= row * wpr) by (nonlinear_arith) requires 0 <= row, 0 <= wpr;
}

/// Cells of the grid have word keys below `rows * wpr`, and keys order cells by
/// storage order.
proof fn lemma_key_order(r1: int, x1: int, r2: int, x2: int, wpr: int)
    requires
        0 <= r1,
        0 <= r2,
        0 <= x1,
        0 <= x2,
        x1 / 64 < wpr,
        x2 / 64 < wpr,
        r1 * wpr + x1 / 64 < r2 * wpr + x2 / 64,
    ensures
        cell_before((x1, r1), (x2, r2)),
{
    let w1 = x1 / 64;
    let w2 = x2 / 64;
    if r2 < r1 {
        assert(r2 * wpr + w2 < r1 * wpr + w1) by (nonlinear_arith)
            requires 0 <= r2 < r1, 0 <= w2 < wpr, 0 <= w1;
    } else if r2 == r1 {
        assert(x1 < x2);
    }
}

/// A scan with nothing left in the grid has nothing pending.
proof fn lemma_scan_empty(data: Seq<u64>, map_x: int, rows: int, wpr: int, row: int, wi: int, word: u64)
    requires
        scan_inv(data, map_x, rows, wpr, row, wi, word),
        row == rows || wpr == 0,
    ensures
        scan_pending(data, map_x, rows, wpr, row, wi, word) == Set::<(int, int)>::empty(),
{
    lemma_wpr(map_x);
    assert forall|c: (int, int)| !scan_pending(data, map_x, rows, wpr, row, wi, word).contains(c) by {
        if 0 <= c.1 < rows && 0 <= c.0 < map_x {
            lemma_index(c.1, c.0 / 64, wpr, rows);
        }
    }
    assert(scan_pending(data, map_x, rows, wpr, row, wi, word) =~= Set::<(int, int)>::empty());
}

/// Moving a scan past a zero word onto the next word keeps what is pending and
/// lowers the measure.
proof fn lemma_scan_step(data: Seq<u64>, map_x: int, rows: int, wpr: int, row: int, wi: int, row2: int, wi2: int, word2: u64)
    requires
        scan_inv(data, map_x, rows, wpr, row, wi, 0),
        row < rows,
        wpr > 0,
        (wi + 1 < wpr && row2 == row && wi2 == wi + 1) || (wi + 1 >= wpr && row2 == row + 1 && wi2 == 0),
        row2 < rows ==> word2 == word_at(data, 0, wpr, row2, wi2),
        row2 == rows ==> word2 == 0,
    ensures
        scan_inv(data, map_x, rows, wpr, row2, wi2, word2),
        scan_pending(data, map_x, rows, wpr, row2, wi2, word2) == scan_pending(data, map_x, rows, wpr, row, wi, 0),
        scan_measure(rows, wpr, row2, wi2, word2) < scan_measure(rows, wpr, row, wi, 0),
{
    lemma_wpr(map_x);
    lemma_index(row, wi, wpr, rows);
    assert(row2 * wpr + wi2 == row * wpr + wi + 1);
    let p1 = scan_pending(data, map_x, rows, wpr, row, wi, 0);
    let p2 = scan_pending(data, map_x, rows, wpr, row2, wi2, word2);
    assert forall|c: (int, int)| p1.contains(c) == p2.contains(c) by {
        lemma_bit_full_empty(c.0 % 64);
        if 0 <= c.1 < rows && 0 <= c.0 < map_x {
            lemma_index(c.1, c.0 / 64, wpr, rows);
            if c.1 * wpr + c.0 / 64 == row2 * wpr + wi2 {
                if row2 < rows {
                    lemma_index_inj(c.1, c.0 / 64, row2, wi2, wpr);
                } else {
                    assert(row2 * wpr == rows * wpr);
                }
            }
        }
    }
    assert(p1 =~= p2);
}

/// Taking the lowest bit of a non-zero current word yields the first pending cell
/// in storage order and removes exactly that cell.
proof fn lemma_scan_emit(data: Seq<u64>, map_x: int, rows: int, wpr: int, row: int, wi: int, word: u64)
    requires
        scan_inv(data, map_x, rows, wpr, row, wi, word),
        word != 0,
    ensures
        row < rows,
        wi < wpr,
        0 <= word.trailing_zeros() < 64,
        64 * wi + word.trailing_zeros() < map_x,
        ({
            let c = (64 * wi + word.trailing_zeros(), row);
            let p = scan_pending(data, map_x, rows, wpr, row, wi, word);
            &&& p.contains(c)
            &&& forall|c2: (int, int)| #[trigger] p.contains(c2) && c2 != c ==> cell_before(c, c2)
            &&& scan_pending(data, map_x, rows, wpr, row, wi, word & ((word - 1) as u64)) == p.remove(c)
        }),
        scan_inv(data, map_x, rows, wpr, row, wi, word & ((word - 1) as u64)),
        scan_measure(rows, wpr, row, wi, word & ((word - 1) as u64)) < scan_measure(rows, wpr, row, wi, word),
{
    lemma_wpr(map_x);
    let t = word.trailing_zeros() as int;
    let w2 = word & ((word - 1) as u64);
    lemma_clear_lowest(word, 0);
    assert forall|b: int| 0 <= b < 64 implies #[trigger] bit(w2, b) == (bit(word, b) && b != t) by {
        lemma_clear_lowest(word, b);
    }
    if row == rows || (wpr == 0) {
        assert(false);
    }
    assert(bit(word_at(data, 0, wpr, row, wi), t));
    assert(64 * wi + t < map_x);
    let x = 64 * wi + t;
    assert(x / 64 == wi && x % 64 == t) by (nonlinear_arith) requires x == 64 * wi + t, 0 <= t < 64, 0 <= wi;
    let c = (x, row);
    let p = scan_pending(data, map_x, rows, wpr, row, wi, word);
    let p2 = scan_pending(data, map_x, rows, wpr, row, wi, w2);
    assert(p.contains(c));
    assert forall|c2: (int, int)| #[trigger] p.contains(c2) && c2 != c implies cell_before(c, c2) by {
        lemma_index(c2.1, c2.0 / 64, wpr, rows);
        if c2.1 * wpr + c2.0 / 64 > row * wpr + wi {
            lemma_key_order(row, x, c2.1, c2.0, wpr);
        } else {
            assert(c2.1 == row && c2.0 / 64 == wi);
            if c2.0 % 64 < t {
                assert(!bit(word, c2.0 % 64));
            }
            if c2.0 % 64 == t {
                assert(c2.0 == x);
            }
        }
    }
    assert forall|c2: (int, int)| p2.contains(c2) == p.remove(c).contains(c2) by {
        if 0 <= c2.0 < map_x && c2.1 == row && c2.0 / 64 == wi && c2.0 % 64 == t {
            assert(c2.0 == x);
        }
    }
    assert(p2 =~= p.remove(c));
    assert(w2 < word) by (bit_vector) requires word != 0, w2 == word & ((word - 1) as u64);
}

/// Lazy enumeration of the set cells `(ix, iy)` of a [`Bitboard2D`] in storage order.
pub struct Bitboard2DIter<'a> {
    bb: &'a Bitboard2D,
    iy: u32,
    wi: u32,
    word: u64,
}

/// Boards whose enumeration never reads past their words: with no words per row
/// at most one row can be walked.
pub open spec fn enumerable2(bb: &Bitboard2D) -> bool {
    bb.width() > 0 || bb.height() <= 1
}

impl<'a> Bitboard2DIter<'a> {
    /// The board being enumerated.
    pub closed spec fn board(&self) -> Bitboard2D {
        *self.bb
    }

    /// Consistency of the position with the board.
    pub closed spec fn inv(&self) -> bool {
        &&& self.bb.wf()
        &&& enumerable2(self.bb)
        &&& scan_inv(self.bb.data@, self.bb.map_x as int, self.bb.map_y as int, self.bb.words_per_row as int,
            self.iy as int, self.wi as int, self.word)
    }

    /// The cells not yet yielded.
    pub closed spec fn pending(&self) -> Set<(int, int)> {
        scan_pending(self.bb.data@, self.bb.map_x as int, self.bb.map_y as int, self.bb.words_per_row as int,
            self.iy as int, self.wi as int, self.word)
    }

    /// Progress measure: falls with every yielded cell.
    pub closed spec fn measure(&self) -> int {
        scan_measure(self.bb.map_y as int, self.bb.words_per_row as int, self.iy as int, self.wi as int, self.word)
    }

    /// Pending cells are set cells of the board, and the measure is non-negative.
    pub proof fn lemma_pending(&self)
        requires
            self.inv(),
        ensures
            self.pending().subset_of(set_cells2(self.board()@, self.board().width(), self.board().height())),
            0 <= self.measure(),
    {
        lemma_scan_bounds(self.bb.data@, self.bb.map_x as int, self.bb.map_y as int, self.bb.words_per_row as int,
            self.iy as int, self.wi as int, self.word);
    }

    /// Start at the first word of the board.
    pub fn new(bb: &'a Bitboard2D) -> (r: Self)
        requires
            bb.wf(),
            enumerable2(bb),
        ensures
            r.inv(),
            r.board() == *bb,
            r.pending() == set_cells2(bb@, bb.width(), bb.height()),
    {
        proof {
            if bb.map_y > 0 && bb.words_per_row > 0 {
                lemma_index(0, 0, bb.words_per_row as int, bb.map_y as int);
            }
        }
        let word = if bb.map_y > 0 && bb.words_per_row > 0 {
            bb.data[0]
        } else {
            0
        };
        let r = Self { bb, iy: 0, wi: 0, word };
        proof {
            let wpr = bb.words_per_row as int;
            lemma_wpr(bb.map_x as int);
            if bb.map_y > 0 && wpr > 0 {
                lemma_index(0, 0, wpr, bb.map_y as int);
                assert(scan_inv(bb.data@, bb.map_x as int, bb.map_y as int, wpr, 0, 0, word));
                assert forall|c: (int, int)| r.pending().contains(c) == set_cells2(bb@, bb.width(), bb.height()).contains(c) by {
                    if 0 <= c.1 < bb.map_y && 0 <= c.0 < bb.map_x {
                        lemma_index(c.1, c.0 / 64, wpr, bb.map_y as int);
                        if c.1 * wpr + c.0 / 64 == 0 {
                            lemma_index_inj(c.1, c.0 / 64, 0, 0, wpr);
                        }
                    }
                }
                assert(r.pending() =~= set_cells2(bb@, bb.width(), bb.height()));
            } else {
                lemma_scan_empty(bb.data@, bb.map_x as int, bb.map_y as int, wpr, 0, 0, word);
                assert(set_cells2(bb@, bb.width(), bb.height()) =~= Set::<(int, int)>::empty());
            }
        }
        r
    }

    /// Move to the next non-zero word, or past the last row.
    fn advance(&mut self)
        requires
            old(self).inv(),
            old(self).word == 0,
            old(self).iy < old(self).bb.map_y,
        ensures
            final(self).inv(),
            final(self).bb == old(self).bb,
            final(self).pending() == old(self).pending(),
            final(self).measure() <= old(self).measure(),
            final(self).iy >= final(self).bb.map_y || final(self).word != 0,
    {
        let wpr = self.bb.words_per_row();
        let map_y = self.bb.map_y();
        loop
            invariant
                self.inv(),
                self.bb == old(self).bb,
                wpr == self.bb.words_per_row,
                map_y == self.bb.map_y,
                self.word == 0,
                self.iy < map_y,
                self.pending() == old(self).pending(),
                self.measure() <= old(self).measure(),
            decreases map_y - self.iy, wpr - self.wi,
        {
            let ghost row = self.iy as int;
            let ghost wi0 = self.wi as int;
            proof {
                lemma_wpr(self.bb.map_x as int);
            }
            self.wi += 1;
            if self.wi >= wpr {
                self.wi = 0;
                self.iy += 1;
                if self.iy >= map_y {
                    self.word = 0;
                    proof {
                        if wpr > 0 {
                            lemma_scan_step(self.bb.data@, self.bb.map_x as int, map_y as int, wpr as int, row, wi0, self.iy as int, 0, 0);
                        } else {
                            lemma_scan_empty(self.bb.data@, self.bb.map_x as int, map_y as int, wpr as int, row, wi0, 0);
                            lemma_scan_empty(self.bb.data@, self.bb.map_x as int, map_y as int, wpr as int, self.iy as int, 0, 0);
                            let my = map_y as int;
                            let iy2 = self.iy as int;
                            assert(scan_measure(my, 0, row, 0, 0) == 0) by (nonlinear_arith);
                            assert(scan_measure(my, 0, iy2, 0, 0) == 0) by (nonlinear_arith);
                        }
                    }
                    return;
                }
            }
            proof {
                lemma_index(self.iy as int, self.wi as int, wpr as int, map_y as int);
            }
            let idx = (self.iy * wpr + self.wi) as usize;
            self.word = self.bb.data[idx];
            proof {
                lemma_scan_step(self.bb.data@, self.bb.map_x as int, map_y as int, wpr as int, row, wi0, self.iy as int, self.wi as int, self.word);
            }
            if self.word != 0 {
                return;
            }
        }
    }

    /// The next set cell in storage order, or `None` once every set cell was yielded.
    pub fn next(&mut self) -> (r: Option<(u32, u32)>)
        requires
            old(self).inv(),
        ensures
            final(self).inv(),
            final(self).board() == old(self).board(),
            match r {
                Some(c) => {
                    &&& old(self).pending().contains((c.0 as int, c.1 as int))
                    &&& forall|c2: (int, int)| #[trigger] old(self).pending().contains(c2) && c2 != (c.0 as int, c.1 as int)
                        ==> cell_before((c.0 as int, c.1 as int), c2)
                    &&& final(self).pending() == old(self).pending().remove((c.0 as int, c.1 as int))
                    &&& final(self).measure() < old(self).measure()
                },
                None => old(self).pending() == Set::<(int, int)>::empty() && final(self).pending() == Set::<(int, int)>::empty(),
            },
    {
        let map_y = self.bb.map_y();
        let map_x = self.bb.map_x();
        loop
            invariant
                self.inv(),
                self.bb == old(self).bb,
                map_y == self.bb.map_y,
                map_x == self.bb.map_x,
                self.pending() == old(self).pending(),
                self.measure() <= old(self).measure(),
            decreases self.measure(),
        {
            proof {
                self.lemma_pending();
            }
            while self.word == 0
                invariant
                    self.inv(),
                    self.bb == old(self).bb,
                    map_y == self.bb.map_y,
                    map_x == self.bb.map_x,
                    self.pending() == old(self).pending(),
                    self.measure() <= old(self).measure(),
                decreases if self.word == 0 { 1int } else { 0int },
            {
                if self.iy >= map_y {
                    proof {
                        lemma_scan_empty(self.bb.data@, map_x as int, map_y as int, self.bb.words_per_row as int, self.iy as int, self.wi as int, self.word);
                    }
                    return None;
                }
                self.advance();
                if self.iy >= map_y {
                    proof {
                        lemma_scan_empty(self.bb.data@, map_x as int, map_y as int, self.bb.words_per_row as int, self.iy as int, self.wi as int, self.word);
                    }
                    return None;
                }
            }
            let ghost w0 = self.word;
            proof {
                lemma_scan_emit(self.bb.data@, map_x as int, map_y as int, self.bb.words_per_row as int, self.iy as int, self.wi as int, self.word);
            }
            let b = self.word.trailing_zeros();
            let ix = self.wi * 64 + b;
            self.word = self.word & (self.word - 1);
            if ix < map_x {
                return Some((ix, self.iy));
            }
        }
    }
}

impl Bitboard2D {
    /// Iterator over the set cells in storage order.
    pub fn iter_cells(&self) -> (r: Bitboard2DIter<'_>)
        requires
            self.wf(),
            enumerable2(self),
        ensures
            r.inv(),
            r.board() == *self,
            r.pending() == set_cells2(self@, self.width(), self.height()),
    {
        Bitboard2DIter::new(self)
    }

    /// Every set cell `(ix, iy)`, in storage order (row by row, then by column).
    pub fn enumerate(&self) -> (r: Vec<(u32, u32)>)
        requires
            self.wf(),
            enumerable2(self),
        ensures
            forall|i: int| 0 <= i < r.len() ==> set_cells2(self@, self.width(), self.height()).contains(
                (#[trigger] r@[i].0 as int, r@[i].1 as int)),
            forall|i: int, j: int| 0 <= i < j < r.len() ==> cell_before((r@[i].0 as int, r@[i].1 as int), (r@[j].0 as int, r@[j].1 as int)),
            forall|c: (int, int)| #[trigger] set_cells2(self@, self.width(), self.height()).contains(c)
                ==> exists|i: int| 0 <= i < r.len() && (r@[i].0 as int, r@[i].1 as int) == c,
    {
        let ghost cells = set_cells2(self@, self.width(), self.height());
        let mut it = Bitboard2DIter::new(self);
        let mut out: Vec<(u32, u32)> = Vec::new();
        loop
            invariant
                it.inv(),
                it.board() == *self,
                it.pending().subset_of(cells),
                cells == set_cells2(self@, self.width(), self.height()),
                forall|i: int| 0 <= i < out.len() ==> cells.contains((#[trigger] out@[i].0 as int, out@[i].1 as int)),
                forall|i: int, j: int| 0 <= i < j < out.len() ==> cell_before((out@[i].0 as int, out@[i].1 as int), (out@[j].0 as int, out@[j].1 as int)),
                forall|i: int, c: (int, int)| #![trigger out@[i], it.pending().contains(c)] 0 <= i < out.len() && it.pending().contains(c) ==> cell_before((out@[i].0 as int, out@[i].1 as int), c),
                forall|c: (int, int)| #[trigger] cells.contains(c) ==> it.pending().contains(c)
                    || exists|i: int| 0 <= i < out.len() && (out@[i].0 as int, out@[i].1 as int) == c,
            ensures
                forall|i: int| 0 <= i < out.len() ==> cells.contains((#[trigger] out@[i].0 as int, out@[i].1 as int)),
                forall|i: int, j: int| 0 <= i < j < out.len() ==> cell_before((out@[i].0 as int, out@[i].1 as int), (out@[j].0 as int, out@[j].1 as int)),
                forall|c: (int, int)| #[trigger] cells.contains(c) ==> exists|i: int| 0 <= i < out.len() && (out@[i].0 as int, out@[i].1 as int) == c,
            decreases it.measure(),
        {
            proof {
                it.lemma_pending();
            }
            let ghost before = it;
            let ghost out0 = out@;
            match it.next() {
                Some(c) => {
                    out.push(c);
                    proof {
                        it.lemma_pending();
                        let cc = (c.0 as int, c.1 as int);
                        assert(out@[out0.len() as int] == c);
                        assert forall|i: int| 0 <= i < out.len() implies cells.contains((#[trigger] out@[i].0 as int, out@[i].1 as int)) by {
                            if i < out0.len() {
                                assert(out@[i] == out0[i]);
                            }
                        }
                        assert forall|i: int, j: int| 0 <= i < j < out.len() implies cell_before((out@[i].0 as int, out@[i].1 as int), (out@[j].0 as int, out@[j].1 as int)) by {
                            assert(out@[i] == out0[i]);
                            if j < out0.len() {
                                assert(out@[j] == out0[j]);
                            } else {
                                assert(before.pending().contains(cc));
                            }
                        }
                        assert forall|i: int, c2: (int, int)| #![trigger out@[i], it.pending().contains(c2)] 0 <= i < out.len() && it.pending().contains(c2) implies cell_before((out@[i].0 as int, out@[i].1 as int), c2) by {
                            assert(before.pending().contains(c2));
                            if i < out0.len() {
                                assert(out@[i] == out0[i]);
                            }
                        }
                        assert forall|c2: (int, int)| #[trigger] cells.contains(c2) implies it.pending().contains(c2)
                            || exists|i: int| 0 <= i < out.len() && (out@[i].0 as int, out@[i].1 as int) == c2 by {
                            if c2 == cc {
                                assert((out@[out0.len() as int].0 as int, out@[out0.len() as int].1 as int) == c2);
                            } else if !before.pending().contains(c2) {
                                let i = choose|i: int| 0 <= i < out0.len() && (out0[i].0 as int, out0[i].1 as int) == c2;
                                assert(out@[i] == out0[i]);
                            }
                        }
                    }
                },
                None => {
                    break;
                },
            }
        }
        out
    }
}

/// Rows `t * map_y + y` of a stack order cells by layer, then by row.
proof fn lemma_row_split(t: int, y: int, t2: int, y2: int, map_y: int)
    requires
        0 <= t,
        0 <= t2,
        0 <= y < map_y,
        0 <= y2 < map_y,
    ensures
        (t * map_y + y < t2 * map_y + y2) == (t < t2 || (t == t2 && y < y2)),
        (t * map_y + y == t2 * map_y + y2) == (t == t2 && y == y2),
{
    if t < t2 {
        assert(t * map_y + y < t2 * map_y + y2) by (nonlinear_arith)
            requires 0 <= t < t2, 0 <= y < map_y, 0 <= y2;
    } else if t2 < t {
        assert(t2 * map_y + y2 < t * map_y + y) by (nonlinear_arith)
            requires 0 <= t2 < t, 0 <= y2 < map_y, 0 <= y;
    }
}

/// Lazy enumeration of the set cells `(ix, iy, it)` of a [`Bitboard3D`] in storage order.
pub struct Bitboard3DIter<'a> {
    bb: &'a Bitboard3D,
    it: u32,
    iy: u32,
    wi: u32,
    word: u64,
}

/// Boards whose enumeration never reads past their words: a board without words
/// can only be walked when it has at most one layer of at most one row.
pub open spec fn enumerable3(bb: &Bitboard3D) -> bool {
    bb.layers() == 0 || (bb.height() > 0 && bb.width() > 0) || (bb.layers() == 1 && bb.height() <= 1 && bb.width() <= 64)
}

impl<'a> Bitboard3DIter<'a> {
    /// The board being enumerated.
    pub closed spec fn board(&self) -> Bitboard3D {
        *self.bb
    }

    spec fn row(&self) -> int {
        self.it * self.bb.map_y + self.iy
    }

    spec fn rows(&self) -> int {
        self.bb.n_theta * self.bb.map_y
    }

    spec fn flat_pending(&self) -> Set<(int, int)> {
        scan_pending(self.bb.data@, self.bb.map_x as int, self.rows(), self.bb.words_per_row as int, self.row(), self.wi as int, self.word)
    }

    /// Consistency of the position with the board.
    pub closed spec fn inv(&self) -> bool {
        &&& self.bb.wf()
        &&& enumerable3(self.bb)
        &&& self.it <= self.bb.n_theta
        &&& self.it < self.bb.n_theta ==> (self.iy < self.bb.map_y || (self.bb.map_y == 0 && self.iy == 0))
        &&& self.it == self.bb.n_theta ==> self.iy == 0 && self.wi == 0 && self.word == 0
        &&& !(self.bb.map_y > 0 && self.bb.words_per_row > 0) ==> (self.it == self.bb.n_theta
            || (self.it == 0 && self.iy == 0 && self.wi == 0 && self.word == 0))
        &&& scan_inv(self.bb.data@, self.bb.map_x as int, self.rows(), self.bb.words_per_row as int, self.row(), self.wi as int, self.word)
    }

    /// The cells not yet yielded.
    pub closed spec fn pending(&self) -> Set<(int, int, int)> {
        Set::new(|c: (int, int, int)| 0 <= c.2 < self.bb.n_theta && 0 <= c.1 < self.bb.map_y
            && self.flat_pending().contains((c.0, c.2 * self.bb.map_y + c.1)))
    }

    /// Progress measure: falls with every yielded cell.
    pub closed spec fn measure(&self) -> int {
        scan_measure(self.rows(), self.bb.words_per_row as int, self.row(), self.wi as int, self.word)
    }

    /// Pending cells are set cells of the board, and the measure is non-negative.
    pub proof fn lemma_pending(&self)
        requires
            self.inv(),
        ensures
            self.pending().subset_of(set_cells3(self.board()@, self.board().width(), self.board().height(), self.board().layers())),
            0 <= self.measure(),
    {
        lemma_scan_bounds(self.bb.data@, self.bb.map_x as int, self.rows(), self.bb.words_per_row as int, self.row(), self.wi as int, self.word);
        assert forall|c: (int, int, int)| #[trigger] self.pending().contains(c) implies
            set_cells3(self.board()@, self.board().width(), self.board().height(), self.board().layers()).contains(c) by {
            lemma_layer_row(c.2, c.1, 0, self.bb.map_y as int, 1, self.bb.n_theta as int);
        }
    }

    /// With every layer walked, nothing is pending.
    proof fn lemma_done(&self)
        requires
            self.inv(),
            self.it >= self.bb.n_theta || !(self.bb.map_y > 0 && self.bb.words_per_row > 0),
        ensures
            self.pending() == Set::<(int, int, int)>::empty(),
    {
        if self.it == self.bb.n_theta {
            assert(self.row() == self.rows());
        } else if self.bb.map_y == 0 {
            assert(self.rows() == 0) by (nonlinear_arith) requires self.rows() == self.bb.n_theta * self.bb.map_y, self.bb.map_y == 0;
            assert(self.row() == 0);
        }
        lemma_scan_empty(self.bb.data@, self.bb.map_x as int, self.rows(), self.bb.words_per_row as int, self.row(), self.wi as int, self.word);
        assert(self.pending() =~= Set::<(int, int, int)>::empty());
    }

    /// Start at the first word of the board.
    pub fn new(bb: &'a Bitboard3D) -> (r: Self)
        requires
            bb.wf(),
            enumerable3(bb),
        ensures
            r.inv(),
            r.board() == *bb,
            r.pending() == set_cells3(bb@, bb.width(), bb.height(), bb.layers()),
    {
        proof {
            if bb.n_theta > 0 && bb.map_y > 0 && bb.words_per_row > 0 {
                lemma_layer_row(0, 0, 0, bb.map_y as int, bb.words_per_row as int, bb.n_theta as int);
            }
        }
        let word = if bb.n_theta > 0 && bb.map_y > 0 && bb.words_per_row > 0 {
            bb.data[0]
        } else {
            0
        };
        let r = Self { bb, it: 0, iy: 0, wi: 0, word };
        proof {
            let wpr = bb.words_per_row as int;
            let rows = bb.n_theta * bb.map_y;
            lemma_wpr(bb.map_x as int);
            assert(0 <= rows) by (nonlinear_arith) requires rows == bb.n_theta * bb.map_y;
            assert(r.row() == 0);
            if bb.n_theta > 0 && bb.map_y > 0 && wpr > 0 {
                assert(0 < rows) by (nonlinear_arith) requires rows == bb.n_theta * bb.map_y, bb.n_theta > 0, bb.map_y > 0;
                lemma_index(0, 0, wpr, rows);
                assert(r.inv());
                assert forall|c: (int, int, int)| r.pending().contains(c) == set_cells3(bb@, bb.width(), bb.height(), bb.layers()).contains(c) by {
                    if 0 <= c.2 < bb.n_theta && 0 <= c.1 < bb.map_y && 0 <= c.0 < bb.map_x {
                        lemma_layer_row(c.2, c.1, 0, bb.map_y as int, 1, bb.n_theta as int);
                        let rr = c.2 * bb.map_y + c.1;
                        lemma_index(rr, c.0 / 64, wpr, rows);
                        if rr * wpr + c.0 / 64 == 0 {
                            lemma_index_inj(rr, c.0 / 64, 0, 0, wpr);
                        }
                    }
                }
                assert(r.pending() =~= set_cells3(bb@, bb.width(), bb.height(), bb.layers()));
            } else {
                if bb.n_theta == 0 {
                    assert(rows == 0);
                } else if bb.map_y == 0 {
                    assert(rows == 0) by (nonlinear_arith) requires rows == bb.n_theta * bb.map_y, bb.map_y == 0;
                }
                assert(r.inv());
                r.lemma_done();
                assert forall|c: (int, int, int)| !set_cells3(bb@, bb.width(), bb.height(), bb.layers()).contains(c) by {
                    if 0 <= c.2 < bb.n_theta && 0 <= c.1 < bb.map_y && 0 <= c.0 < bb.map_x {
                        lemma_layer_row(c.2, c.1, 0, bb.map_y as int, 1, bb.n_theta as int);
                    }
                }
                assert(set_cells3(bb@, bb.width(), bb.height(), bb.layers()) =~= Set::<(int, int, int)>::empty());
            }
        }
        r
    }

    /// Move to the next non-zero word, or past the last layer.
    fn advance(&mut self)
        requires
            old(self).inv(),
            old(self).word == 0,
            old(self).it < old(self).bb.n_theta,
        ensures
            final(self).inv(),
            final(self).bb == old(self).bb,
            final(self).pending() == old(self).pending(),
            final(self).measure() <= old(self).measure(),
            final(self).it >= final(self).bb.n_theta || final(self).word != 0,
    {
        let wpr = self.bb.words_per_row();
        let map_y = self.bb.map_y();
        let n_theta = self.bb.n_theta();
        loop
            invariant
                self.inv(),
                self.bb == old(self).bb,
                wpr == self.bb.words_per_row,
                map_y == self.bb.map_y,
                n_theta == self.bb.n_theta,
                self.word == 0,
                self.it < n_theta,
                self.pending() == old(self).pending(),
                self.measure() <= old(self).measure(),
            decreases n_theta - self.it, map_y - self.iy, wpr - self.wi,
        {
            let ghost s0 = *self;
            proof {
                lemma_wpr(self.bb.map_x as int);
            }
            self.wi += 1;
            if self.wi >= wpr {
                self.wi = 0;
                self.iy += 1;
                if self.iy >= map_y {
                    self.iy = 0;
                    self.it += 1;
                    if self.it >= n_theta {
                        self.word = 0;
                        proof {
                            let rows = s0.rows();
                            if map_y > 0 && wpr > 0 {
                                lemma_layer_row(s0.it as int, s0.iy as int, 0, map_y as int, 1, n_theta as int);
                                assert(self.row() == rows);
                                assert(s0.row() + 1 == rows) by (nonlinear_arith)
                                    requires s0.row() == s0.it * map_y + s0.iy, s0.iy + 1 == map_y, s0.it + 1 == n_theta, rows == n_theta * map_y;
                                lemma_scan_step(self.bb.data@, self.bb.map_x as int, rows, wpr as int, s0.row(), s0.wi as int, rows, 0, 0);
                                assert(self.pending() =~= s0.pending());
                            } else {
                                s0.lemma_done();
                                assert(self.row() == rows);
                                self.lemma_done();
                                assert(rows * wpr == 0 && s0.row() * wpr == 0) by (nonlinear_arith)
                                    requires map_y == 0 || wpr == 0, rows == n_theta * map_y, s0.row() == s0.it * map_y + s0.iy, s0.iy == 0;
                            }
                        }
                        return;
                    }
                }
            }
            proof {
                lemma_layer_row(self.it as int, self.iy as int, self.wi as int, map_y as int, wpr as int, n_theta as int);
                lemma_layer_row(s0.it as int, s0.iy as int, s0.wi as int, map_y as int, wpr as int, n_theta as int);
            }
            let idx = self.bb.word_index(self.wi, self.iy, self.it);
            self.word = self.bb.data[idx];
            proof {
                let rows = s0.rows();
                if self.it != s0.it {
                    assert(self.row() == s0.row() + 1) by (nonlinear_arith)
                        requires self.row() == self.it * map_y + self.iy, s0.row() == s0.it * map_y + s0.iy,
                            self.it == s0.it + 1, self.iy == 0, s0.iy + 1 == map_y;
                }
                assert(self.row() < rows);
                lemma_scan_step(self.bb.data@, self.bb.map_x as int, rows, wpr as int, s0.row(), s0.wi as int, self.row(), self.wi as int, self.word);
                assert forall|c: (int, int, int)| self.pending().contains(c) == s0.pending().contains(c) by {}
                assert(self.pending() =~= s0.pending());
            }
            if self.word != 0 {
                return;
            }
        }
    }

    /// The next set cell in storage order, or `None` once every set cell was yielded.
    pub fn next(&mut self) -> (r: Option<(u32, u32, u32)>)
        requires
            old(self).inv(),
        ensures
            final(self).inv(),
            final(self).board() == old(self).board(),
            match r {
                Some(c) => {
                    &&& old(self).pending().contains((c.0 as int, c.1 as int, c.2 as int))
                    &&& forall|c2: (int, int, int)| #[trigger] old(self).pending().contains(c2) && c2 != (c.0 as int, c.1 as int, c.2 as int)
                        ==> cell3_before((c.0 as int, c.1 as int, c.2 as int), c2)
                    &&& final(self).pending() == old(self).pending().remove((c.0 as int, c.1 as int, c.2 as int))
                    &&& final(self).measure() < old(self).measure()
                },
                None => old(self).pending() == Set::<(int, int, int)>::empty() && final(self).pending() == Set::<(int, int, int)>::empty(),
            },
    {
        let n_theta = self.bb.n_theta();
        let map_x = self.bb.map_x();
        loop
            invariant
                self.inv(),
                self.bb == old(self).bb,
                n_theta == self.bb.n_theta,
                map_x == self.bb.map_x,
                self.pending() == old(self).pending(),
                self.measure() <= old(self).measure(),
            decreases self.measure(),
        {
            proof {
                self.lemma_pending();
            }
            while self.word == 0
                invariant
                    self.inv(),
                    self.bb == old(self).bb,
                    n_theta == self.bb.n_theta,
                    map_x == self.bb.map_x,
                    self.pending() == old(self).pending(),
                    self.measure() <= old(self).measure(),
                decreases if self.word == 0 { 1int } else { 0int },
            {
                if self.it >= n_theta {
                    proof {
                        self.lemma_done();
                    }
                    return None;
                }
                self.advance();
                if self.it >= n_theta {
                    proof {
                        self.lemma_done();
                    }
                    return None;
                }
            }
            let ghost s0 = *self;
            proof {
                lemma_scan_emit(self.bb.data@, map_x as int, self.rows(), self.bb.words_per_row as int, self.row(), self.wi as int, self.word);
                if !(self.bb.map_y > 0 && self.bb.words_per_row > 0) {
                    assert(false);
                }
            }
            let b = self.word.trailing_zeros();
            let ix = self.wi * 64 + b;
            self.word = self.word & (self.word - 1);
            if ix < map_x {
                proof {
                    let my = self.bb.map_y as int;
                    let c = (ix as int, self.iy as int, self.it as int);
                    let cf = (ix as int, s0.row());
                    assert(s0.pending().contains(c));
                    assert forall|c2: (int, int, int)| #[trigger] s0.pending().contains(c2) && c2 != c implies cell3_before(c, c2) by {
                        lemma_row_split(c.2, c.1, c2.2, c2.1, my);
                        assert(s0.flat_pending().contains((c2.0, c2.2 * my + c2.1)));
                    }
                    assert forall|c2: (int, int, int)| self.pending().contains(c2) == s0.pending().remove(c).contains(c2) by {
                        if 0 <= c2.2 < n_theta && 0 <= c2.1 < my {
                            lemma_row_split(c.2, c.1, c2.2, c2.1, my);
                        }
                    }
                    assert(self.pending() =~= s0.pending().remove(c));
                }
                return Some((ix, self.iy, self.it));
            }
        }
    }
}

impl Bitboard3D {
    /// Iterator over the set cells in storage order.
    pub fn iter_cells(&self) -> (r: Bitboard3DIter<'_>)
        requires
            self.wf(),
            enumerable3(self),
        ensures
            r.inv(),
            r.board() == *self,
            r.pending() == set_cells3(self@, self.width(), self.height(), self.layers()),
    {
        Bitboard3DIter::new(self)
    }

    /// Every set cell `(ix, iy, it)`, in storage order (layer by layer, row by row,
    /// then by column).
    pub fn enumerate(&self) -> (r: Vec<(u32, u32, u32)>)
        requires
            self.wf(),
            enumerable3(self),
        ensures
            forall|i: int| 0 <= i < r.len() ==> set_cells3(self@, self.width(), self.height(), self.layers()).contains(
                (#[trigger] r@[i].0 as int, r@[i].1 as int, r@[i].2 as int)),
            forall|i: int, j: int| 0 <= i < j < r.len() ==> cell3_before((r@[i].0 as int, r@[i].1 as int, r@[i].2 as int),
                (r@[j].0 as int, r@[j].1 as int, r@[j].2 as int)),
            forall|c: (int, int, int)| #[trigger] set_cells3(self@, self.width(), self.height(), self.layers()).contains(c)
                ==> exists|i: int| 0 <= i < r.len() && (r@[i].0 as int, r@[i].1 as int, r@[i].2 as int) == c,
    {
        let ghost cells = set_cells3(self@, self.width(), self.height(), self.layers());
        let mut it = Bitboard3DIter::new(self);
        let mut out: Vec<(u32, u32, u32)> = Vec::new();
        loop
            invariant
                it.inv(),
                it.board() == *self,
                it.pending().subset_of(cells),
                cells == set_cells3(self@, self.width(), self.height(), self.layers()),
                forall|i: int| 0 <= i < out.len() ==> cells.contains((#[trigger] out@[i].0 as int, out@[i].1 as int, out@[i].2 as int)),
                forall|i: int, j: int| 0 <= i < j < out.len() ==> cell3_before((out@[i].0 as int, out@[i].1 as int, out@[i].2 as int),
                    (out@[j].0 as int, out@[j].1 as int, out@[j].2 as int)),
                forall|i: int, c: (int, int, int)| #![trigger out@[i], it.pending().contains(c)] 0 <= i < out.len() && it.pending().contains(c)
                    ==> cell3_before((out@[i].0 as int, out@[i].1 as int, out@[i].2 as int), c),
                forall|c: (int, int, int)| #[trigger] cells.contains(c) ==> it.pending().contains(c)
                    || exists|i: int| 0 <= i < out.len() && (out@[i].0 as int, out@[i].1 as int, out@[i].2 as int) == c,
            ensures
                forall|i: int| 0 <= i < out.len() ==> cells.contains((#[trigger] out@[i].0 as int, out@[i].1 as int, out@[i].2 as int)),
                forall|i: int, j: int| 0 <= i < j < out.len() ==> cell3_before((out@[i].0 as int, out@[i].1 as int, out@[i].2 as int),
                    (out@[j].0 as int, out@[j].1 as int, out@[j].2 as int)),
                forall|c: (int, int, int)| #[trigger] cells.contains(c) ==> exists|i: int| 0 <= i < out.len()
                    && (out@[i].0 as int, out@[i].1 as int, out@[i].2 as int) == c,
            decreases it.measure(),
        {
            proof {
                it.lemma_pending();
            }
            let ghost before = it;
            let ghost out0 = out@;
            match it.next() {
                Some(c) => {
                    out.push(c);
                    proof {
                        it.lemma_pending();
                        let cc = (c.0 as int, c.1 as int, c.2 as int);
                        assert(out@[out0.len() as int] == c);
                        assert forall|i: int| 0 <= i < out.len() implies cells.contains((#[trigger] out@[i].0 as int, out@[i].1 as int, out@[i].2 as int)) by {
                            if i < out0.len() {
                                assert(out@[i] == out0[i]);
                            }
                        }
                        assert forall|i: int, j: int| 0 <= i < j < out.len() implies cell3_before((out@[i].0 as int, out@[i].1 as int, out@[i].2 as int),
                            (out@[j].0 as int, out@[j].1 as int, out@[j].2 as int)) by {
                            assert(out@[i] == out0[i]);
                            if j < out0.len() {
                                assert(out@[j] == out0[j]);
                            } else {
                                assert(before.pending().contains(cc));
                            }
                        }
                        assert forall|i: int, c2: (int, int, int)| #![trigger out@[i], it.pending().contains(c2)] 0 <= i < out.len() && it.pending().contains(c2)
                            implies cell3_before((out@[i].0 as int, out@[i].1 as int, out@[i].2 as int), c2) by {
                            assert(before.pending().contains(c2));
                            if i < out0.len() {
                                assert(out@[i] == out0[i]);
                            }
                        }
                        assert forall|c2: (int, int, int)| #[trigger] cells.contains(c2) implies it.pending().contains(c2)
                            || exists|i: int| 0 <= i < out.len() && (out@[i].0 as int, out@[i].1 as int, out@[i].2 as int) == c2 by {
                            if c2 == cc {
                                assert((out@[out0.len() as int].0 as int, out@[out0.len() as int].1 as int, out@[out0.len() as int].2 as int) == c2);
                            } else if !before.pending().contains(c2) {
                                let i = choose|i: int| 0 <= i < out0.len() && (out0[i].0 as int, out0[i].1 as int, out0[i].2 as int) == c2;
                                assert(out@[i] == out0[i]);
                            }
                        }
                    }
                },
                None => {
                    break;
                },
            }
        }
        out
    }
}

} // verus!
