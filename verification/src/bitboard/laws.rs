//! Properties that the board operations keep together.
use vstd::prelude::*;
use crate::bitboard::bits::{count_true, lemma_count_true_concat};
use crate::bitboard::grid::{and_grid, or_grid, not_grid, rows_count, shape2};
use crate::bitboard::{shape3, layers_count, not_stack, stack_view, lemma_stack_count};
use crate::bitboard::enumerate::{set_cells3, cell3_before};
use crate::bitboard::ops::dilate_grid;
use crate::bitboard::enumerate::{set_cells2, cell_before, lemma_rows_count_zero};
use crate::bitboard::conv::{cells_of_grid2, lemma_row_major};

verus! {

/// Setting cell `(x, y)` makes it set and leaves every other cell as it was.
pub proof fn lemma_set_then_test(v: Seq<Seq<bool>>, w: int, h: int, x: int, y: int)
    requires
        shape2(v, w, h),
        0 <= x < w,
        0 <= y < h,
    ensures
        v.update(y, v[y].update(x, true))[y][x],
        forall|y2: int, x2: int| 0 <= y2 < h && 0 <= x2 < w && (y2 != y || x2 != x)
            ==> #[trigger] v.update(y, v[y].update(x, true))[y2][x2] == v[y2][x2],
{
}

/// A sequence whose `true` entries are all `true` in another of the same length counts no more.
pub proof fn lemma_count_true_mono(a: Seq<bool>, b: Seq<bool>)
    requires
        a.len() == b.len(),
        forall|i: int| 0 <= i < a.len() && #[trigger] a[i] ==> b[i],
    ensures
        count_true(a) <= count_true(b),
    decreases a.len(),
{
    if a.len() > 0 {
        assert forall|i: int| 0 <= i < a.len() - 1 && #[trigger] a.drop_last()[i] implies b.drop_last()[i] by {
            assert(a[i]);
        }
        lemma_count_true_mono(a.drop_last(), b.drop_last());
    }
}

/// A grid whose set cells are all set in another of the same shape counts no more.
pub proof fn lemma_rows_count_mono(a: Seq<Seq<bool>>, b: Seq<Seq<bool>>)
    requires
        a.len() == b.len(),
        forall|y: int| 0 <= y < a.len() ==> #[trigger] a[y].len() == b[y].len(),
        forall|y: int, x: int| 0 <= y < a.len() && 0 <= x < a[y].len() && #[trigger] a[y][x] ==> b[y][x],
    ensures
        rows_count(a) <= rows_count(b),
    decreases a.len(),
{
    if a.len() > 0 {
        let a2 = a.drop_last();
        let b2 = b.drop_last();
        assert forall|y: int| 0 <= y < a2.len() implies #[trigger] a2[y].len() == b2[y].len() by {
            assert(a[y].len() == b[y].len());
        }
        assert forall|y: int, x: int| 0 <= y < a2.len() && 0 <= x < a2[y].len() && #[trigger] a2[y][x] implies b2[y][x] by {
            assert(a[y][x]);
        }
        lemma_rows_count_mono(a2, b2);
        assert(a.last().len() == b.last().len());
        assert forall|x: int| 0 <= x < a.last().len() && #[trigger] a.last()[x] implies b.last()[x] by {
            assert(a[a.len() - 1][x]);
        }
        lemma_count_true_mono(a.last(), b.last());
    }
}

/// Or-ing in another board never lowers the population count.
pub proof fn lemma_or_count(a: Seq<Seq<bool>>, b: Seq<Seq<bool>>, w: int, h: int)
    requires
        shape2(a, w, h),
        shape2(b, w, h),
    ensures
        rows_count(or_grid(a, b)) >= rows_count(a),
        rows_count(or_grid(a, b)) >= rows_count(b),
{
    let o = or_grid(a, b);
    assert forall|y: int| 0 <= y < a.len() implies #[trigger] a[y].len() == o[y].len() by {}
    assert forall|y: int| 0 <= y < b.len() implies #[trigger] b[y].len() == o[y].len() by {
        assert(a[y].len() == w);
    }
    lemma_rows_count_mono(a, o);
    assert forall|y: int, x: int| 0 <= y < b.len() && 0 <= x < b[y].len() && #[trigger] b[y][x] implies o[y][x] by {
        assert(a[y].len() == w);
    }
    lemma_rows_count_mono(b, o);
}

/// And-ing two boards with no common cell counts nothing.
pub proof fn lemma_and_disjoint(a: Seq<Seq<bool>>, b: Seq<Seq<bool>>, w: int, h: int)
    requires
        shape2(a, w, h),
        shape2(b, w, h),
        forall|y: int, x: int| 0 <= y < h && 0 <= x < w ==> !(#[trigger] a[y][x] && b[y][x]),
    ensures
        rows_count(and_grid(a, b)) == 0,
{
    let g = and_grid(a, b);
    lemma_rows_count_zero(g);
    assert forall|y: int, x: int| 0 <= y < g.len() && 0 <= x < g[y].len() implies !#[trigger] g[y][x] by {
        assert(a[y].len() == w);
        assert(!(a[y][x] && b[y][x]));
    }
}

/// Dilation keeps every set cell and so never lowers the population count.
pub proof fn lemma_dilate_extensive(v: Seq<Seq<bool>>, w: int, h: int, dx: int, dy: int)
    requires
        shape2(v, w, h),
        0 <= dx,
        0 <= dy,
    ensures
        forall|y: int, x: int| 0 <= y < h && 0 <= x < w && #[trigger] v[y][x] ==> dilate_grid(v, w, h, dx, dy)[y][x],
        rows_count(dilate_grid(v, w, h, dx, dy)) >= rows_count(v),
{
    let d = dilate_grid(v, w, h, dx, dy);
    assert forall|y: int, x: int| 0 <= y < h && 0 <= x < w && #[trigger] v[y][x] implies d[y][x] by {
        assert(v[y][x]);
    }
    assert forall|y: int| 0 <= y < v.len() implies #[trigger] v[y].len() == d[y].len() by {}
    assert forall|y: int, x: int| 0 <= y < v.len() && 0 <= x < v[y].len() && #[trigger] v[y][x] implies d[y][x] by {
        assert(v[y][x]);
    }
    lemma_rows_count_mono(v, d);
}

/// A strictly increasing list of exactly the `true` positions of `f` has
/// `count_true(f)` entries.
pub proof fn lemma_positions_len(f: Seq<bool>, l: Seq<int>)
    requires
        forall|i: int| 0 <= i < l.len() ==> 0 <= #[trigger] l[i] < f.len() && f[l[i]],
        forall|i: int, j: int| 0 <= i < j < l.len() ==> #[trigger] l[i] < #[trigger] l[j],
        forall|k: int| 0 <= k < f.len() && #[trigger] f[k] ==> exists|i: int| 0 <= i < l.len() && l[i] == k,
    ensures
        l.len() == count_true(f),
    decreases f.len(),
{
    if f.len() == 0 {
        if l.len() > 0 {
            assert(0 <= l[0] < f.len());
        }
    } else {
        let last = f.len() - 1;
        let g = f.drop_last();
        if f[last] {
            let i = choose|i: int| 0 <= i < l.len() && l[i] == last;
            if i < l.len() - 1 {
                assert(l[i] < l[l.len() - 1]);
                assert(l[l.len() - 1] < f.len());
            }
            let l2 = l.drop_last();
            assert forall|j: int| 0 <= j < l2.len() implies 0 <= #[trigger] l2[j] < g.len() && g[l2[j]] by {
                assert(l[j] < l[l.len() - 1]);
            }
            assert forall|j: int, k: int| 0 <= j < k < l2.len() implies #[trigger] l2[j] < #[trigger] l2[k] by {
                assert(l[j] < l[k]);
            }
            assert forall|k: int| 0 <= k < g.len() && #[trigger] g[k] implies exists|j: int| 0 <= j < l2.len() && l2[j] == k by {
                assert(f[k]);
                let j = choose|j: int| 0 <= j < l.len() && l[j] == k;
                assert(j != l.len() - 1);
                assert(l2[j] == k);
            }
            lemma_positions_len(g, l2);
        } else {
            assert forall|j: int| 0 <= j < l.len() implies 0 <= #[trigger] l[j] < g.len() && g[l[j]] by {
                assert(f[l[j]]);
            }
            assert forall|k: int| 0 <= k < g.len() && #[trigger] g[k] implies exists|j: int| 0 <= j < l.len() && l[j] == k by {
                assert(f[k]);
            }
            lemma_positions_len(g, l);
        }
    }
}

/// The population of a grid is the population of its row-major array.
pub proof fn lemma_rows_count_flat(v: Seq<Seq<bool>>, w: int, h: int)
    requires
        shape2(v, w, h),
        0 < w,
    ensures
        rows_count(v) == count_true(cells_of_grid2(v, w, h)),
    decreases h,
{
    if h > 0 {
        let v2 = v.drop_last();
        assert(shape2(v2, w, h - 1)) by {
            assert forall|y: int| 0 <= y < h - 1 implies #[trigger] v2[y].len() == w by {
                assert(v[y].len() == w);
            }
        }
        lemma_rows_count_flat(v2, w, h - 1);
        let c = cells_of_grid2(v, w, h);
        let c2 = cells_of_grid2(v2, w, h - 1);
        let row = v.last();
        assert(row.len() == w);
        assert((h - 1) * w + w == h * w) by (nonlinear_arith);
        assert(c =~= c2 + row) by {
            assert forall|k: int| 0 <= k < c.len() implies #[trigger] c[k] == (c2 + row)[k] by {
                let y = k / w;
                let x = k % w;
                assert(k == y * w + x) by (nonlinear_arith) requires y == k / w, x == k % w, w > 0;
                assert(0 <= x < w);
                if k < (h - 1) * w {
                    assert(y < h - 1) by (nonlinear_arith) requires k == y * w + x, k < (h - 1) * w, 0 <= x, w > 0;
                    assert(0 <= y) by (nonlinear_arith) requires k == y * w + x, 0 <= k, x < w, w > 0;
                    assert(c2[k] == v2[y][x]);
                } else {
                    assert(y == h - 1) by (nonlinear_arith) requires k == y * w + x, (h - 1) * w <= k < h * w, 0 <= x < w, w > 0;
                    lemma_row_major(h - 1, k - (h - 1) * w, w);
                }
            }
        }
        lemma_count_true_concat(c2, row);
    } else {
        assert(cells_of_grid2(v, w, h).len() == 0) by (nonlinear_arith) requires h == 0;
    }
}

/// Enumerating a board yields as many cells as its population count.
pub proof fn lemma_enumerate_count(l: Seq<(u32, u32)>, v: Seq<Seq<bool>>, w: int, h: int)
    requires
        shape2(v, w, h),
        0 < w,
        0 <= h,
        forall|i: int| 0 <= i < l.len() ==> set_cells2(v, w, h).contains((#[trigger] l[i].0 as int, l[i].1 as int)),
        forall|i: int, j: int| 0 <= i < j < l.len() ==> cell_before((l[i].0 as int, l[i].1 as int), (l[j].0 as int, l[j].1 as int)),
        forall|c: (int, int)| #[trigger] set_cells2(v, w, h).contains(c)
            ==> exists|i: int| 0 <= i < l.len() && (l[i].0 as int, l[i].1 as int) == c,
    ensures
        l.len() == rows_count(v),
{
    let f = cells_of_grid2(v, w, h);
    let p = Seq::new(l.len(), |i: int| l[i].1 as int * w + l[i].0 as int);
    assert forall|i: int| 0 <= i < p.len() implies 0 <= #[trigger] p[i] < f.len() && f[p[i]] by {
        assert(set_cells2(v, w, h).contains((l[i].0 as int, l[i].1 as int)));
        crate::bitboard::grid::lemma_index(l[i].1 as int, l[i].0 as int, w, h);
        lemma_row_major(l[i].1 as int, l[i].0 as int, w);
        assert(h * w == w * h) by (nonlinear_arith);
    }
    assert forall|i: int, j: int| 0 <= i < j < p.len() implies #[trigger] p[i] < #[trigger] p[j] by {
        let a = l[i];
        let b = l[j];
        assert(set_cells2(v, w, h).contains((a.0 as int, a.1 as int)));
        assert(cell_before((a.0 as int, a.1 as int), (b.0 as int, b.1 as int)));
        if (a.1 as int) < (b.1 as int) {
            assert(a.1 * w + a.0 < b.1 * w + b.0) by (nonlinear_arith) requires (a.1 as int) < (b.1 as int), 0 <= a.0 < w, 0 <= b.0;
        }
    }
    assert forall|k: int| 0 <= k < f.len() && #[trigger] f[k] implies exists|i: int| 0 <= i < p.len() && p[i] == k by {
        let y = k / w;
        let x = k % w;
        assert(k == y * w + x) by (nonlinear_arith) requires y == k / w, x == k % w, w > 0;
        assert(0 <= y < h) by (nonlinear_arith) requires y == k / w, 0 <= k < w * h, w > 0;
        assert(set_cells2(v, w, h).contains((x, y)));
        let i = choose|i: int| 0 <= i < l.len() && (l[i].0 as int, l[i].1 as int) == (x, y);
        assert(p[i] == k);
    }
    lemma_positions_len(f, p);
    lemma_rows_count_flat(v, w, h);
}

/// A sequence and its negation together hold one `true` per entry.
proof fn lemma_count_not(s: Seq<bool>)
    ensures
        count_true(Seq::new(s.len(), |i: int| !s[i])) + count_true(s) == s.len(),
    decreases s.len(),
{
    if s.len() > 0 {
        let n = Seq::new(s.len(), |i: int| !s[i]);
        let s2 = s.drop_last();
        assert(n.drop_last() =~= Seq::new(s2.len(), |i: int| !s2[i]));
        lemma_count_not(s2);
    }
}

/// Complementing a `w × h` grid sets exactly the clear cells: the two
/// populations add up to `w * h`, and complementing twice gives the grid back.
pub proof fn lemma_complement(v: Seq<Seq<bool>>, w: int, h: int)
    requires
        shape2(v, w, h),
        0 <= w,
    ensures
        shape2(not_grid(v), w, h),
        rows_count(not_grid(v)) + rows_count(v) == w * h,
        not_grid(not_grid(v)) == v,
    decreases h,
{
    let c = not_grid(v);
    if h > 0 {
        let v2 = v.drop_last();
        assert(shape2(v2, w, h - 1)) by {
            assert forall|y: int| 0 <= y < h - 1 implies #[trigger] v2[y].len() == w by {
                assert(v[y].len() == w);
            }
        }
        lemma_complement(v2, w, h - 1);
        assert(c.drop_last() =~= not_grid(v2));
        lemma_count_not(v.last());
        assert(c.last() =~= Seq::new(v.last().len(), |i: int| !v.last()[i]));
        assert(v.last().len() == w);
        assert((h - 1) * w + w == h * w) by (nonlinear_arith);
    } else {
        assert(h * w == 0) by (nonlinear_arith) requires h == 0;
        assert(h == 0 ==> w * h == 0) by (nonlinear_arith);
    }
    assert forall|y: int| 0 <= y < h implies #[trigger] not_grid(c)[y] =~= v[y] by {}
    assert(not_grid(c) =~= v);
}

/// Complementing a `w × h × n` stack sets exactly the clear cells: the two
/// populations add up to `w * h * n`, and complementing twice gives the stack back.
pub proof fn lemma_complement3(v: Seq<Seq<Seq<bool>>>, w: int, h: int, n: int)
    requires
        shape3(v, w, h, n),
        0 <= w,
        0 <= h,
    ensures
        shape3(not_stack(v), w, h, n),
        layers_count(not_stack(v)) + layers_count(v) == w * h * n,
        not_stack(not_stack(v)) == v,
    decreases n,
{
    let c = not_stack(v);
    if n > 0 {
        let v2 = v.drop_last();
        assert(shape3(v2, w, h, n - 1)) by {
            assert forall|t: int| 0 <= t < n - 1 implies #[trigger] shape2(v2[t], w, h) by {
                assert(shape2(v[t], w, h));
            }
        }
        lemma_complement3(v2, w, h, n - 1);
        assert(c.drop_last() =~= not_stack(v2));
        assert(shape2(v[n - 1], w, h));
        lemma_complement(v.last(), w, h);
        assert(w * h * (n - 1) + w * h == w * h * n) by (nonlinear_arith);
    } else {
        assert(w * h * n == 0) by (nonlinear_arith) requires n == 0;
    }
    assert forall|t: int| 0 <= t < n implies #[trigger] shape2(c[t], w, h) by {
        assert(shape2(v[t], w, h));
        lemma_complement(v[t], w, h);
    }
    assert forall|t: int| 0 <= t < n implies #[trigger] not_stack(c)[t] == v[t] by {
        assert(shape2(v[t], w, h));
        lemma_complement(v[t], w, h);
    }
    assert(not_stack(c) =~= v);
}

/// Enumerating a stack yields as many cells as its population count.
pub proof fn lemma_enumerate_count3(l: Seq<(u32, u32, u32)>, v: Seq<Seq<Seq<bool>>>, w: int, h: int, n: int)
    requires
        shape3(v, w, h, n),
        0 < w,
        0 <= h,
        0 <= n,
        n * h <= u32::MAX,
        forall|i: int| 0 <= i < l.len() ==> set_cells3(v, w, h, n).contains((#[trigger] l[i].0 as int, l[i].1 as int, l[i].2 as int)),
        forall|i: int, j: int| 0 <= i < j < l.len() ==>
            cell3_before((l[i].0 as int, l[i].1 as int, l[i].2 as int), (l[j].0 as int, l[j].1 as int, l[j].2 as int)),
        forall|c: (int, int, int)| #[trigger] set_cells3(v, w, h, n).contains(c)
            ==> exists|i: int| 0 <= i < l.len() && (l[i].0 as int, l[i].1 as int, l[i].2 as int) == c,
    ensures
        l.len() == layers_count(v),
{
    let flat = Seq::new((n * h) as nat, |r: int| v[r / h][r % h]);
    assert(0 <= n * h) by (nonlinear_arith) requires 0 <= n, 0 <= h;
    assert(stack_view(flat, h, n) =~= v) by {
        assert forall|t: int| 0 <= t < n implies #[trigger] stack_view(flat, h, n)[t] =~= v[t] by {
            assert(shape2(v[t], w, h));
            assert forall|y: int| 0 <= y < h implies stack_view(flat, h, n)[t][y] == v[t][y] by {
                assert(0 <= t * h + y < n * h) by (nonlinear_arith) requires 0 <= t < n, 0 <= y < h;
                lemma_row_major(t, y, h);
            }
        }
    }
    lemma_stack_count(flat, h, n, n);
    assert(flat.take(n * h) =~= flat);
    assert(shape2(flat, w, n * h)) by {
        assert forall|r: int| 0 <= r < n * h implies #[trigger] flat[r].len() == w by {
            assert(0 <= r / h < n && 0 <= r % h < h) by (nonlinear_arith) requires 0 <= r < n * h, h > 0;
            assert(shape2(v[r / h], w, h));
        }
    }
    let l2 = Seq::new(l.len(), |i: int| (l[i].0, (l[i].2 * h + l[i].1) as u32));
    assert forall|i: int| 0 <= i < l2.len() implies
        set_cells2(flat, w, n * h).contains((#[trigger] l2[i].0 as int, l2[i].1 as int))
        && l2[i].1 as int == l[i].2 * h + l[i].1 by {
        let c = l[i];
        assert(set_cells3(v, w, h, n).contains((c.0 as int, c.1 as int, c.2 as int)));
        assert(0 <= c.2 * h + c.1 < n * h) by (nonlinear_arith) requires 0 <= c.2 < n, 0 <= c.1 < h;
        lemma_row_major(c.2 as int, c.1 as int, h);
    }
    assert forall|i: int, j: int| 0 <= i < j < l2.len() implies
        cell_before((l2[i].0 as int, l2[i].1 as int), (l2[j].0 as int, l2[j].1 as int)) by {
        let a = l[i];
        let b = l[j];
        assert(l2[i].1 as int == a.2 * h + a.1);
        assert(l2[j].1 as int == b.2 * h + b.1);
        assert(set_cells3(v, w, h, n).contains((a.0 as int, a.1 as int, a.2 as int)));
        assert(set_cells3(v, w, h, n).contains((b.0 as int, b.1 as int, b.2 as int)));
        assert(cell3_before((a.0 as int, a.1 as int, a.2 as int), (b.0 as int, b.1 as int, b.2 as int)));
        if (a.2 as int) < (b.2 as int) {
            assert(a.2 * h + a.1 < b.2 * h + b.1) by (nonlinear_arith) requires (a.2 as int) < (b.2 as int), 0 <= a.1 < h, 0 <= b.1;
        }
    }
    assert forall|c: (int, int)| #[trigger] set_cells2(flat, w, n * h).contains(c)
        implies exists|i: int| 0 <= i < l2.len() && (l2[i].0 as int, l2[i].1 as int) == c by {
        let t = c.1 / h;
        let y = c.1 % h;
        assert(0 <= t < n && 0 <= y < h) by (nonlinear_arith) requires 0 <= c.1 < n * h, h > 0, t == c.1 / h, y == c.1 % h;
        assert(c.1 == t * h + y) by (nonlinear_arith) requires h > 0, t == c.1 / h, y == c.1 % h;
        assert(set_cells3(v, w, h, n).contains((c.0, y, t)));
        let i = choose|i: int| 0 <= i < l.len() && (l[i].0 as int, l[i].1 as int, l[i].2 as int) == (c.0, y, t);
        assert(l2[i].1 as int == l[i].2 * h + l[i].1);
    }
    lemma_enumerate_count(l2, flat, w, n * h);
    assert(stack_view(flat, h, n).take(n) =~= v);
    assert(layers_count(v) == rows_count(flat));
}

} // verus!
