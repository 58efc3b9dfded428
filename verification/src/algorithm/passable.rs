//! The passable mask of the 3-D frontier: one 2-D mask repeated on every heading.
use vstd::prelude::*;
use crate::bitboard::{Bitboard2D, Bitboard3D, fits3, shape3};
use crate::bitboard::grid::shape2;

verus! {

/// The `n` layers of a stack that repeats the grid `v` on every layer.
pub open spec fn repeat_layers(v: Seq<Seq<bool>>, n: int) -> Seq<Seq<Seq<bool>>> {
    Seq::new(n as nat, |it: int| v)
}

/// A 3-D mask with the 2-D mask `passable_2d` on each of the `n_theta` layers.
pub fn build_passable_bb_3d(passable_2d: &Bitboard2D, n_theta: u32) -> (r: Bitboard3D)
    requires
        passable_2d.wf(),
        fits3(passable_2d.width() as u32, passable_2d.height() as u32, n_theta),
    ensures
        r.wf(),
        r.width() == passable_2d.width(),
        r.height() == passable_2d.height(),
        r.layers() == n_theta,
        r@ == repeat_layers(passable_2d@, n_theta as int),
{
    let map_x = passable_2d.map_x();
    let map_y = passable_2d.map_y();
    let ghost p = passable_2d@;
    let ghost w = map_x as int;
    let ghost h = map_y as int;
    let ghost n = n_theta as int;
    proof {
        passable_2d.lemma_shape();
    }
    let mut bb = Bitboard3D::new(map_x, map_y, n_theta);
    let mut it: u32 = 0;
    while it < n_theta
        invariant
            0 <= it <= n,
            n == n_theta,
            w == map_x,
            h == map_y,
            bb.wf(),
            bb.width() == w,
            bb.height() == h,
            bb.layers() == n,
            shape2(p, w, h),
            passable_2d.wf(),
            p == passable_2d@,
            passable_2d.width() == w,
            passable_2d.height() == h,
            shape3(bb@, w, h, n),
            forall|t: int, y: int, x: int| 0 <= t < n && 0 <= y < h && 0 <= x < w ==>
                #[trigger] bb@[t][y][x] == (t < it && p[y][x]),
        decreases n - it,
    {
        let mut iy: u32 = 0;
        while iy < map_y
            invariant
                0 <= it < n,
                0 <= iy <= h,
                n == n_theta,
                w == map_x,
                h == map_y,
                bb.wf(),
                bb.width() == w,
                bb.height() == h,
                bb.layers() == n,
                shape2(p, w, h),
                passable_2d.wf(),
                p == passable_2d@,
                passable_2d.width() == w,
                passable_2d.height() == h,
            passable_2d.wf(),
            p == passable_2d@,
            passable_2d.width() == w,
            passable_2d.height() == h,
                shape3(bb@, w, h, n),
                forall|t: int, y: int, x: int| 0 <= t < n && 0 <= y < h && 0 <= x < w ==>
                    #[trigger] bb@[t][y][x] == ((t < it || (t == it && y < iy)) && p[y][x]),
            decreases h - iy,
        {
            let mut ix: u32 = 0;
            while ix < map_x
                invariant
                    0 <= it < n,
                    0 <= iy < h,
                    0 <= ix <= w,
                    n == n_theta,
                    w == map_x,
                    h == map_y,
                    bb.wf(),
                    bb.width() == w,
                    bb.height() == h,
                    bb.layers() == n,
                    shape2(p, w, h),
                    passable_2d.wf(),
                    p == passable_2d@,
                    passable_2d.width() == w,
                    passable_2d.height() == h,
                passable_2d.wf(),
                p == passable_2d@,
                passable_2d.width() == w,
                passable_2d.height() == h,
            passable_2d.wf(),
            p == passable_2d@,
            passable_2d.width() == w,
            passable_2d.height() == h,
                    shape3(bb@, w, h, n),
                    forall|t: int, y: int, x: int| 0 <= t < n && 0 <= y < h && 0 <= x < w ==>
                        #[trigger] bb@[t][y][x] == ((t < it || (t == it && (y < iy || (y == iy && x < ix)))) && p[y][x]),
                decreases w - ix,
            {
                let ghost old_v = bb@;
                if passable_2d.test(ix, iy) {
                    bb.set(ix, iy, it);
                }
                proof {
                    bb.lemma_shape();
                    assert forall|t: int, y: int, x: int| 0 <= t < n && 0 <= y < h && 0 <= x < w implies
                        #[trigger] bb@[t][y][x] == ((t < it || (t == it && (y < iy || (y == iy && x < ix + 1)))) && p[y][x]) by {
                        assert(shape2(old_v[t], w, h));
                        assert(shape2(old_v[it as int], w, h));
                        if !(t == it && y == iy && x == ix) {
                            assert(bb@[t][y][x] == old_v[t][y][x]);
                        }
                    }
                }
                ix += 1;
            }
            iy += 1;
        }
        it += 1;
    }
    proof {
        assert forall|t: int| 0 <= t < n implies #[trigger] bb@[t] =~= p by {
            assert(shape2(bb@[t], w, h));
            assert forall|y: int| 0 <= y < h implies bb@[t][y] =~= p[y] by {
                assert(bb@[t][y].len() == w && p[y].len() == w);
            }
        }
        assert(bb@ =~= repeat_layers(p, n));
    }
    bb
}

} // verus!
