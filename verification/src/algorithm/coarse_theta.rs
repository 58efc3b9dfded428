//! Coarse heading layers: every `step`-th heading stands for its neighbours.
use vstd::prelude::*;
use crate::params::N_THETA;

verus! {

/// The coarse layer nearest to heading `it`: `it` rounded to the nearest
/// multiple of `step` (halves round up), wrapped into `0 .. N_THETA`.
pub open spec fn coarse_of(it: int, step: int) -> int {
    ((it + step / 2) / step * step) % (N_THETA as int)
}

/// With a step of one every heading is its own coarse layer.
pub proof fn lemma_step_one_identity(it: int)
    requires
        0 <= it < N_THETA,
    ensures
        coarse_of(it, 1) == it,
{
    assert((it + 1int / 2) / 1 * 1 == it);
    vstd::arithmetic::div_mod::lemma_small_mod(it as nat, N_THETA as nat);
}

/// Snap heading `it` to the nearest coarse heading layer.
pub fn nearest_coarse_theta(it: usize, step: usize) -> (r: usize)
    requires
        step > 0,
        it + step / 2 <= usize::MAX,
    ensures
        r == coarse_of(it as int, step as int),
{
    let q = (it + step / 2) / step;
    proof {
        assert(q * step <= it + step / 2) by (nonlinear_arith) requires q as int == (it as int + step as int / 2) / (step as int), step > 0;
        assert(0 <= q * step) by (nonlinear_arith) requires q >= 0, step > 0;
    }
    let mut cit = q * step;
    let ghost c0 = cit as int;
    assert(c0 == (it as int + step as int / 2) / (step as int) * (step as int));
    while cit >= N_THETA
        invariant
            (cit as int) % (N_THETA as int) == c0 % (N_THETA as int),
        decreases cit,
    {
        proof {
            vstd::arithmetic::div_mod::lemma_mod_sub_multiples_vanish(cit as int, N_THETA as int);
        }
        cit -= N_THETA;
    }
    proof {
        vstd::arithmetic::div_mod::lemma_small_mod(cit as nat, N_THETA as nat);
    }
    cit
}

/// Parameters of the 16-bit frontier variant that first converges on the
/// coarse heading layers, then refines on all headings (see
/// [`nearest_coarse_theta`], [`upsample_coarse_theta`]): the layer step, the
/// refinement budget and the variant's name.
pub struct Frontier3DCoarseTheta {
    pub coarse_step: u32,
    pub refine_iters: u32,
}

impl Frontier3DCoarseTheta {
    /// Name of the solver.
    pub fn name(&self) -> (r: &'static str)
        ensures
            r@ == "frontier_3d_coarse_theta"@,
    {
        "frontier_3d_coarse_theta"
    }
}

/// Flat index of heading `it` of cell `(ix, iy)` in a `my × mx × N_THETA` table.
pub open spec fn vidx(iy: int, ix: int, it: int, mx: int) -> int {
    (iy * mx + ix) * (N_THETA as int) + it
}

/// The table after copying, for headings `0 .. it` in order, the nearest
/// coarse layer onto every layer that is not its own coarse layer.
pub open spec fn upsample_upto(v: Seq<u16>, my: int, mx: int, step: int, it: int) -> Seq<u16>
    decreases it,
{
    if it <= 0 {
        v
    } else {
        let p = upsample_upto(v, my, mx, step, it - 1);
        let t = it - 1;
        let c = coarse_of(t, step);
        if c != t {
            Seq::new(p.len(), |j: int| if j % (N_THETA as int) == t { p[j - t + c] } else { p[j] })
        } else {
            p
        }
    }
}

/// Copies each coarse heading layer onto its non-coarse neighbours, layer by
/// layer in heading order, in a `my × mx × N_THETA` table stored heading fastest.
pub fn upsample_coarse_theta(value: &mut Vec<u16>, my: usize, mx: usize, step: usize)
    requires
        step > 0,
        old(value)@.len() == my * mx * N_THETA,
    ensures
        final(value)@ == upsample_upto(old(value)@, my as int, mx as int, step as int, N_THETA as int),
{
    let ghost v0 = value@;
    let ghost n = v0.len();
    let vlen = value.len();
    let mut it: usize = 0;
    while it < N_THETA
        invariant
            0 <= it <= N_THETA,
            vlen == n,
            step > 0,
            value@.len() == n,
            n == my * mx * N_THETA,
            value@ == upsample_upto(v0, my as int, mx as int, step as int, it as int),
        decreases N_THETA - it,
    {
        assert(it + step / 2 <= usize::MAX) by {
            assert(step / 2 <= usize::MAX / 2);
        }
        let cit = nearest_coarse_theta(it, step);
        let ghost p = value@;
        let ghost t = it as int;
        let ghost c = cit as int;
        proof {
            vstd::arithmetic::div_mod::lemma_mod_pos_bound(
                (it as int + step as int / 2) / (step as int) * (step as int), N_THETA as int);
        }
        if cit != it {
            let mut cell: usize = 0;
            proof {
                assert(my * mx <= my * mx * N_THETA) by (nonlinear_arith);
            }
            let n_cells = my * mx;
            proof {
                assert(n_cells * N_THETA == n) by (nonlinear_arith) requires n_cells == my * mx, n == my * mx * N_THETA;
            }
            while cell < n_cells
                invariant
                    0 <= cell <= n_cells,
                    n_cells * N_THETA == n,
                    vlen == n,
                    value@.len() == n,
                    0 <= t < N_THETA,
                    0 <= c < N_THETA,
                    t == it,
                    c == cit,
                    c != t,
                    p.len() == n,
                    forall|j: int| 0 <= j < n ==> #[trigger] value@[j] ==
                        if j % (N_THETA as int) == t && j / (N_THETA as int) < cell { p[j - t + c] } else { p[j] },
                decreases n_cells - cell,
            {
                proof {
                    assert(cell * N_THETA + N_THETA <= n_cells * N_THETA) by (nonlinear_arith) requires cell < n_cells;
                }
                let base = cell * N_THETA;
                let v = value[base + cit];
                value.set(base + it, v);
                proof {
                    assert forall|j: int| 0 <= j < n implies #[trigger] value@[j] ==
                        if j % (N_THETA as int) == t && j / (N_THETA as int) < cell + 1 { p[j - t + c] } else { p[j] } by {
                        vstd::arithmetic::div_mod::lemma_fundamental_div_mod(j, N_THETA as int);
                        vstd::arithmetic::div_mod::lemma_mod_pos_bound(j, N_THETA as int);
                        if j == base + t {
                            vstd::arithmetic::div_mod::lemma_fundamental_div_mod_converse(j, N_THETA as int, cell as int, t);
                            assert(base + c == j - t + c);
                            vstd::arithmetic::div_mod::lemma_fundamental_div_mod_converse(base + c, N_THETA as int, cell as int, c);
                        } else if j % (N_THETA as int) == t && j / (N_THETA as int) == cell {
                            assert(j == base + t);
                        }
                    }
                }
                cell += 1;
            }
            proof {
                assert forall|j: int| 0 <= j < n implies #[trigger] value@[j] ==
                    (if j % (N_THETA as int) == t { p[j - t + c] } else { p[j] }) by {
                    vstd::arithmetic::div_mod::lemma_fundamental_div_mod(j, N_THETA as int);
                    vstd::arithmetic::div_mod::lemma_mod_pos_bound(j, N_THETA as int);
                    assert(j / (N_THETA as int) < n_cells) by (nonlinear_arith)
                        requires j == (N_THETA as int) * (j / (N_THETA as int)) + j % (N_THETA as int), 0 <= j % (N_THETA as int),
                            j < n_cells * (N_THETA as int);
                }
                assert(value@ =~= upsample_upto(v0, my as int, mx as int, step as int, it + 1));
            }
        }
        it += 1;
    }
}

} // verus!
