//! Conversions between boards and row-major boolean cell arrays.
//!
//! A 2-D array holds cell `(ix, iy)` at `iy * map_x + ix`; a 3-D array holds
//! cell `(ix, iy, it)` at `(iy * map_x + ix) * n_theta + it`.
use vstd::prelude::*;
use vstd::arithmetic::div_mod::lemma_fundamental_div_mod_converse;
use crate::bitboard::{Bitboard2D, Bitboard3D, fits2, fits3, shape3};
use crate::bitboard::grid::{shape2, lemma_index};

verus! {

/// The `w × h` grid a row-major array describes.
pub open spec fn grid_of_cells2(m: Seq<bool>, w: int, h: int) -> Seq<Seq<bool>> {
    Seq::new(h as nat, |y: int| Seq::new(w as nat, |x: int| m[y * w + x]))
}

/// The row-major array of a `w × h` grid.
pub open spec fn cells_of_grid2(v: Seq<Seq<bool>>, w: int, h: int) -> Seq<bool> {
    Seq::new((w * h) as nat, |k: int| v[k / w][k % w])
}

/// The `w × h × n` stack a `[y][x][t]` array describes.
pub open spec fn grid_of_cells3(m: Seq<bool>, w: int, h: int, n: int) -> Seq<Seq<Seq<bool>>> {
    Seq::new(n as nat, |t: int| Seq::new(h as nat, |y: int| Seq::new(w as nat, |x: int| m[(y * w + x) * n + t])))
}

/// The `[y][x][t]` array of a `w × h × n` stack.
pub open spec fn cells_of_grid3(v: Seq<Seq<Seq<bool>>>, w: int, h: int, n: int) -> Seq<bool> {
    Seq::new((h * w * n) as nat, |k: int| v[k % n][k / n / w][k / n % w])
}

/// Row-major position arithmetic: `y * w + x` splits back into `y` and `x`.
pub proof fn lemma_row_major(y: int, x: int, w: int)
    requires
        0 <= x < w,
    ensures
        (y * w + x) / w == y,
        (y * w + x) % w == x,
{
    lemma_fundamental_div_mod_converse(y * w + x, w, y, x);
}

/// Board from a row-major `map_y × map_x` array.
pub fn from_logical2d(mask: &Vec<bool>, map_x: u32, map_y: u32) -> (r: Bitboard2D)
    requires
        mask@.len() == map_x * map_y,
        fits2(map_x, map_y),
    ensures
        r.wf(),
        r.width() == map_x,
        r.height() == map_y,
        r@ == grid_of_cells2(mask@, map_x as int, map_y as int),
{
    let mut bb = Bitboard2D::new(map_x, map_y);
    let w = map_x as usize;
    let n = mask.len();
    proof {
        assert(map_y * map_x == map_x * map_y) by (nonlinear_arith);
    }
    let mut iy: u32 = 0;
    while iy < map_y
        invariant
            bb.wf(),
            bb.width() == map_x,
            bb.height() == map_y,
            mask@.len() == map_x * map_y,
            n == mask@.len(),
            map_y * map_x == map_x * map_y,
            w == map_x,
            0 <= iy <= map_y,
            forall|y: int, x: int| 0 <= y < map_y && 0 <= x < map_x ==> #[trigger] bb@[y][x] == (y < iy && mask@[y * map_x + x]),
        decreases map_y - iy,
    {
        let mut ix: u32 = 0;
        while ix < map_x
            invariant
                bb.wf(),
                bb.width() == map_x,
                bb.height() == map_y,
                mask@.len() == map_x * map_y,
                n == mask@.len(),
                map_y * map_x == map_x * map_y,
                w == map_x,
                0 <= iy < map_y,
                0 <= ix <= map_x,
                forall|y: int, x: int| 0 <= y < map_y && 0 <= x < map_x ==> #[trigger] bb@[y][x]
                    == ((y < iy || (y == iy && x < ix)) && mask@[y * map_x + x]),
            decreases map_x - ix,
        {
            proof {
                lemma_index(iy as int, ix as int, map_x as int, map_y as int);
                bb.lemma_shape();
            }
            let ghost b0 = bb@;
            if mask[iy as usize * w + ix as usize] {
                bb.set(ix, iy);
            }
            proof {
                bb.lemma_shape();
                assert forall|y: int, x: int| 0 <= y < map_y && 0 <= x < map_x implies #[trigger] bb@[y][x]
                    == ((y < iy || (y == iy && x < ix + 1)) && mask@[y * map_x + x]) by {
                    lemma_index(y, x, map_x as int, map_y as int);
                    assert(b0[y][x] == ((y < iy || (y == iy && x < ix)) && mask@[y * map_x + x]));
                }
            }
            ix += 1;
        }
        iy += 1;
    }
    proof {
        bb.lemma_shape();
        let g = grid_of_cells2(mask@, map_x as int, map_y as int);
        assert forall|y: int| 0 <= y < map_y implies #[trigger] bb@[y] =~= g[y] by {
            assert forall|x: int| 0 <= x < map_x implies bb@[y][x] == g[y][x] by {}
        }
        assert(bb@ =~= g);
    }
    bb
}

/// Row-major `map_y × map_x` array of a board.
pub fn to_logical2d(bb: &Bitboard2D) -> (r: Vec<bool>)
    requires
        bb.wf(),
    ensures
        r@ == cells_of_grid2(bb@, bb.width(), bb.height()),
{
    let map_x = bb.map_x();
    let map_y = bb.map_y();
    let mut out: Vec<bool> = Vec::new();
    let ghost w = map_x as int;
    let mut iy: u32 = 0;
    while iy < map_y
        invariant
            bb.wf(),
            map_x == bb.width(),
            map_y == bb.height(),
            w == map_x,
            0 <= iy <= map_y,
            out@.len() == iy * w,
            forall|k: int| 0 <= k < out@.len() ==> #[trigger] out@[k] == bb@[k / w][k % w],
        decreases map_y - iy,
    {
        let mut ix: u32 = 0;
        while ix < map_x
            invariant
                bb.wf(),
                map_x == bb.width(),
                map_y == bb.height(),
                w == map_x,
                0 <= iy < map_y,
                0 <= ix <= map_x,
                out@.len() == iy * w + ix,
                forall|k: int| 0 <= k < out@.len() ==> #[trigger] out@[k] == bb@[k / w][k % w],
            decreases map_x - ix,
        {
            let c = bb.test(ix, iy);
            proof {
                lemma_row_major(iy as int, ix as int, w);
            }
            out.push(c);
            ix += 1;
        }
        proof {
            assert(iy * w + w == (iy + 1) * w) by (nonlinear_arith);
        }
        iy += 1;
    }
    proof {
        assert(map_y * w == w * map_y) by (nonlinear_arith);
        assert(out@ =~= cells_of_grid2(bb@, bb.width(), bb.height()));
    }
    out
}

/// Converting a board to its array and back gives the same cells.
pub proof fn lemma_logical_roundtrip2(v: Seq<Seq<bool>>, w: int, h: int)
    requires
        shape2(v, w, h),
        0 <= w,
        0 <= h,
    ensures
        grid_of_cells2(cells_of_grid2(v, w, h), w, h) == v,
{
    let g = grid_of_cells2(cells_of_grid2(v, w, h), w, h);
    assert forall|y: int| 0 <= y < h implies #[trigger] g[y] =~= v[y] by {
        assert forall|x: int| 0 <= x < w implies g[y][x] == v[y][x] by {
            lemma_row_major(y, x, w);
            lemma_index(y, x, w, h);
            assert(h * w == w * h) by (nonlinear_arith);
        }
    }
    assert(g =~= v);
}

/// Converting an array to a board and back gives the same array.
pub proof fn lemma_cells_roundtrip2(m: Seq<bool>, w: int, h: int)
    requires
        m.len() == w * h,
        0 < w,
        0 <= h,
    ensures
        cells_of_grid2(grid_of_cells2(m, w, h), w, h) == m,
{
    let c = cells_of_grid2(grid_of_cells2(m, w, h), w, h);
    assert forall|k: int| 0 <= k < m.len() implies #[trigger] c[k] == m[k] by {
        let y = k / w;
        let x = k % w;
        assert(k == y * w + x) by (nonlinear_arith) requires y == k / w, x == k % w, w > 0;
        assert(0 <= x < w);
        assert(0 <= y < h) by (nonlinear_arith) requires y == k / w, 0 <= k < w * h, w > 0;
    }
    assert(c =~= m);
}

/// Position of cell `(x, y, t)` in a `[y][x][t]` array lies below `h * w * n`.
proof fn lemma_pos3(x: int, y: int, t: int, w: int, h: int, n: int)
    requires
        0 <= x < w,
        0 <= y < h,
        0 <= t < n,
    ensures
        0 <= y * w <= y * w + x < h * w,
        0 <= (y * w + x) * n <= (y * w + x) * n + t,
        0 <= (y * w + x) * n + t < h * w * n,
        ((y * w + x) * n + t) % n == t,
        ((y * w + x) * n + t) / n / w == y,
        ((y * w + x) * n + t) / n % w == x,
{
    lemma_index(y, x, w, h);
    assert(0 <= y * w) by (nonlinear_arith) requires 0 <= y, 0 <= w;
    lemma_index(y * w + x, t, n, h * w);
    lemma_row_major(y * w + x, t, n);
    lemma_row_major(y, x, w);
}

/// Stack from a `map_y × map_x × n_theta` array in `[y][x][t]` order.
pub fn from_logical3d(mask: &Vec<bool>, map_x: u32, map_y: u32, n_theta: u32) -> (r: Bitboard3D)
    requires
        mask@.len() == map_y * map_x * n_theta,
        fits3(map_x, map_y, n_theta),
    ensures
        r.wf(),
        r.width() == map_x,
        r.height() == map_y,
        r.layers() == n_theta,
        r@ == grid_of_cells3(mask@, map_x as int, map_y as int, n_theta as int),
{
    let mut bb = Bitboard3D::new(map_x, map_y, n_theta);
    let w = map_x as usize;
    let nt = n_theta as usize;
    let len = mask.len();
    let ghost mx = map_x as int;
    let ghost my = map_y as int;
    let ghost nn = n_theta as int;
    let mut it: u32 = 0;
    while it < n_theta
        invariant
            bb.wf(),
            bb.width() == mx,
            bb.height() == my,
            bb.layers() == nn,
            mx == map_x,
            my == map_y,
            nn == n_theta,
            w == map_x,
            nt == n_theta,
            len == mask@.len(),
            mask@.len() == my * mx * nn,
            0 <= it <= n_theta,
            forall|t: int, y: int, x: int| 0 <= t < nn && 0 <= y < my && 0 <= x < mx ==> #[trigger] bb@[t][y][x]
                == (t < it && mask@[(y * mx + x) * nn + t]),
        decreases n_theta - it,
    {
        let mut iy: u32 = 0;
        while iy < map_y
            invariant
                bb.wf(),
                bb.width() == mx,
                bb.height() == my,
                bb.layers() == nn,
                mx == map_x,
                my == map_y,
                nn == n_theta,
                w == map_x,
                nt == n_theta,
                len == mask@.len(),
                mask@.len() == my * mx * nn,
                0 <= it < n_theta,
                0 <= iy <= map_y,
                forall|t: int, y: int, x: int| 0 <= t < nn && 0 <= y < my && 0 <= x < mx ==> #[trigger] bb@[t][y][x]
                    == ((t < it || (t == it && y < iy)) && mask@[(y * mx + x) * nn + t]),
            decreases map_y - iy,
        {
            let mut ix: u32 = 0;
            while ix < map_x
                invariant
                    bb.wf(),
                    bb.width() == mx,
                    bb.height() == my,
                    bb.layers() == nn,
                    mx == map_x,
                    my == map_y,
                    nn == n_theta,
                    w == map_x,
                    nt == n_theta,
                    len == mask@.len(),
                    mask@.len() == my * mx * nn,
                    0 <= it < n_theta,
                    0 <= iy < map_y,
                    0 <= ix <= map_x,
                    forall|t: int, y: int, x: int| 0 <= t < nn && 0 <= y < my && 0 <= x < mx ==> #[trigger] bb@[t][y][x]
                        == ((t < it || (t == it && (y < iy || (y == iy && x < ix)))) && mask@[(y * mx + x) * nn + t]),
                decreases map_x - ix,
            {
                proof {
                    lemma_pos3(ix as int, iy as int, it as int, mx, my, nn);
                    assert(my * mx <= my * mx * nn) by (nonlinear_arith) requires nn >= 1, 0 <= my * mx;
                    bb.lemma_shape();
                }
                let ghost b0 = bb@;
                if mask[(iy as usize * w + ix as usize) * nt + it as usize] {
                    bb.set(ix, iy, it);
                }
                proof {
                    bb.lemma_shape();
                    assert forall|t: int, y: int, x: int| 0 <= t < nn && 0 <= y < my && 0 <= x < mx implies #[trigger] bb@[t][y][x]
                        == ((t < it || (t == it && (y < iy || (y == iy && x < ix + 1)))) && mask@[(y * mx + x) * nn + t]) by {
                        lemma_pos3(x, y, t, mx, my, nn);
                        assert(shape2(b0[t], mx, my));
                        assert(shape2(b0[it as int], mx, my));
                        assert(b0[t][y][x] == ((t < it || (t == it && (y < iy || (y == iy && x < ix)))) && mask@[(y * mx + x) * nn + t]));
                    }
                }
                ix += 1;
            }
            iy += 1;
        }
        it += 1;
    }
    proof {
        bb.lemma_shape();
        let g = grid_of_cells3(mask@, mx, my, nn);
        assert forall|t: int| 0 <= t < nn implies #[trigger] bb@[t] =~= g[t] by {
            assert(shape2(bb@[t], mx, my));
            assert forall|y: int| 0 <= y < my implies #[trigger] bb@[t][y] =~= g[t][y] by {}
        }
        assert(bb@ =~= g);
    }
    bb
}

/// The `map_y × map_x × n_theta` array, in `[y][x][t]` order, of a stack.
pub fn to_logical3d(bb: &Bitboard3D) -> (r: Vec<bool>)
    requires
        bb.wf(),
    ensures
        r@ == cells_of_grid3(bb@, bb.width(), bb.height(), bb.layers()),
{
    let map_x = bb.map_x();
    let map_y = bb.map_y();
    let n_theta = bb.n_theta();
    let ghost w = map_x as int;
    let ghost h = map_y as int;
    let ghost n = n_theta as int;
    let mut out: Vec<bool> = Vec::new();
    let mut iy: u32 = 0;
    proof {
        assert((iy * w) * n == 0) by (nonlinear_arith) requires iy == 0;
    }
    while iy < map_y
        invariant
            bb.wf(),
            map_x == bb.width(),
            map_y == bb.height(),
            n_theta == bb.layers(),
            w == map_x,
            h == map_y,
            n == n_theta,
            0 <= iy <= map_y,
            out@.len() == (iy * w) * n,
            forall|k: int| 0 <= k < out@.len() ==> #[trigger] out@[k] == bb@[k % n][k / n / w][k / n % w],
        decreases map_y - iy,
    {
        let mut ix: u32 = 0;
        while ix < map_x
            invariant
                bb.wf(),
                map_x == bb.width(),
                map_y == bb.height(),
                n_theta == bb.layers(),
                w == map_x,
                h == map_y,
                n == n_theta,
                0 <= iy < map_y,
                0 <= ix <= map_x,
                out@.len() == (iy * w + ix) * n,
                forall|k: int| 0 <= k < out@.len() ==> #[trigger] out@[k] == bb@[k % n][k / n / w][k / n % w],
            decreases map_x - ix,
        {
            let mut it: u32 = 0;
            while it < n_theta
                invariant
                    bb.wf(),
                    map_x == bb.width(),
                    map_y == bb.height(),
                    n_theta == bb.layers(),
                    w == map_x,
                    h == map_y,
                    n == n_theta,
                    0 <= iy < map_y,
                    0 <= ix < map_x,
                    0 <= it <= n_theta,
                    out@.len() == (iy * w + ix) * n + it,
                    forall|k: int| 0 <= k < out@.len() ==> #[trigger] out@[k] == bb@[k % n][k / n / w][k / n % w],
                decreases n_theta - it,
            {
                let c = bb.test(ix, iy, it);
                proof {
                    lemma_pos3(ix as int, iy as int, it as int, w, h, n);
                }
                out.push(c);
                it += 1;
            }
            proof {
                assert((iy * w + ix) * n + n == (iy * w + ix + 1) * n) by (nonlinear_arith);
            }
            ix += 1;
        }
        proof {
            assert((iy * w + w) * n == ((iy + 1) * w) * n) by (nonlinear_arith);
        }
        iy += 1;
    }
    proof {
        assert(h * w * n == (h * w) * n) by (nonlinear_arith);
        assert(out@ =~= cells_of_grid3(bb@, bb.width(), bb.height(), bb.layers()));
    }
    out
}

/// Converting a stack to its array and back gives the same cells.
pub proof fn lemma_logical_roundtrip3(v: Seq<Seq<Seq<bool>>>, w: int, h: int, n: int)
    requires
        shape3(v, w, h, n),
        0 <= w,
        0 <= h,
        0 <= n,
    ensures
        grid_of_cells3(cells_of_grid3(v, w, h, n), w, h, n) == v,
{
    let g = grid_of_cells3(cells_of_grid3(v, w, h, n), w, h, n);
    assert forall|t: int| 0 <= t < n implies #[trigger] g[t] =~= v[t] by {
        assert(shape2(v[t], w, h));
        assert forall|y: int| 0 <= y < h implies #[trigger] g[t][y] =~= v[t][y] by {
            assert forall|x: int| 0 <= x < w implies g[t][y][x] == v[t][y][x] by {
                lemma_pos3(x, y, t, w, h, n);
            }
        }
    }
    assert(g =~= v);
}

} // verus!
