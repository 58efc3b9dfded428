//! The padded, penalty-fused layout of the frontier solvers.  The grid is
//! padded by the transition displacement on every side, so that every outcome
//! of every in-grid cell lands inside the array, and each cell stores
//! `cp = total_cost + penalty + local_penalty` (wrapping), or `UNREACHED` when
//! the cell is not free, not yet reached, or padding.  One load per outcome then
//! gives the clamped expected cost of an action.
use vstd::prelude::*;
use vstd::wrapping::u64_specs;
use crate::reference::params::{MAX_COST, PROB_BASE_BIT};
use crate::reference::state::{Action, State, StateTransition};
use crate::reference::value_iterator::{StateSpace, index_of, states_ok, actions_ok, action_ok, transition_ok, in_grid,
    outcomes, outcome_cell, outcome_blocked, outcomes_sum, outcome_cost, lemma_index_bound, updatable, cost_of, best_of,
    update_at};
use crate::reference::solvers::frontier::{displacement, is_displacement, offsets_ok, covers, abs_int};

verus! {

/// Marks a cell that is not free, not yet reached, or padding.
pub const UNREACHED: u64 = 0xffff_ffff_ffff_ffff;

/// The padded grid of an `nx × ny × nt` grid with margins `mx`, `my` fits the
/// integer types that index it.
pub open spec fn geom_fits(nx: int, ny: int, nt: int, mx: int, my: int) -> bool {
    &&& nx + 2 * mx <= i32::MAX
    &&& ny + 2 * my <= i32::MAX
    &&& nt * (nx + 2 * mx) <= i32::MAX
    &&& nt * (nx + 2 * mx) * (ny + 2 * my) <= usize::MAX
}

/// Flat index of cell `(ix, iy, it)` in the grid padded by `mx`, `my`.
pub open spec fn pad_index(ix: int, iy: int, it: int, nx: int, nt: int, mx: int, my: int) -> int {
    index_of(ix + mx, iy + my, it, nx + 2 * mx, nt)
}

/// The padded offset and the weight of an outcome.
pub open spec fn bucket_of(tr: StateTransition, nt: int, row_stride: int) -> (i64, u64) {
    ((tr.dix * nt + tr.diy * row_stride + (tr.dit + nt) % nt) as i64, tr.prob as u64)
}

/// `precomp[a][t]` lists the buckets of the outcomes of action `a` from heading `t`.
pub open spec fn precomp_ok(precomp: Seq<Vec<Vec<(i64, u64)>>>, actions: Seq<Action>, nt: int, row_stride: int) -> bool {
    &&& precomp.len() == actions.len()
    &&& forall|a: int| 0 <= a < actions.len() ==> (#[trigger] precomp[a])@.len() == nt
    &&& forall|a: int, t: int| 0 <= a < actions.len() && 0 <= t < nt ==>
        (#[trigger] precomp[a]@[t])@.len() == actions[a].state_transitions@[t]@.len()
    &&& forall|a: int, t: int, k: int| 0 <= a < actions.len() && 0 <= t < nt && 0 <= k < actions[a].state_transitions@[t]@.len() ==>
        #[trigger] precomp[a]@[t]@[k] == bucket_of(actions[a].state_transitions@[t]@[k], nt, row_stride)
}

/// Geometry of the padded layout and the buckets of every action.
pub struct Geom {
    pub precomp: Vec<Vec<Vec<(i64, u64)>>>,
    pub nx: i32,
    pub ny: i32,
    pub nt: i32,
    pub mx: i32,
    pub my: i32,
    pub row_stride: i64,
}

impl Geom {
    /// The geometry describes the grid of `actions` padded by margins that
    /// cover every outcome.
    pub open spec fn wf(&self, actions: Seq<Action>) -> bool {
        &&& 0 <= self.nx
        &&& 0 <= self.ny
        &&& 0 <= self.nt
        &&& 1 <= self.mx
        &&& 1 <= self.my
        &&& geom_fits(self.nx as int, self.ny as int, self.nt as int, self.mx as int, self.my as int)
        &&& self.row_stride == self.nt * (self.nx + 2 * self.mx)
        &&& forall|a: int, t: int, k: int| 0 <= a < actions.len() && 0 <= t < actions[a].state_transitions@.len()
            && 0 <= k < actions[a].state_transitions@[t]@.len() ==>
            abs_int((#[trigger] actions[a].state_transitions@[t]@[k]).dix as int) <= self.mx
            && abs_int(actions[a].state_transitions@[t]@[k].diy as int) <= self.my
        &&& precomp_ok(self.precomp@, actions, self.nt as int, self.row_stride as int)
    }

    /// Number of cells of the padded grid.
    pub open spec fn pad_len(&self) -> int {
        self.row_stride * (self.ny + 2 * self.my)
    }

    /// Flat padded index of heading 0 of column `(ix, iy)`.
    pub fn pad_col(&self, ix: i32, iy: i32) -> (r: i64)
        requires
            -self.mx <= ix < self.nx + self.mx,
            -self.my <= iy < self.ny + self.my,
            0 <= self.nt,
            geom_fits(self.nx as int, self.ny as int, self.nt as int, self.mx as int, self.my as int),
            self.row_stride == self.nt * (self.nx + 2 * self.mx),
        ensures
            r == pad_index(ix as int, iy as int, 0, self.nx as int, self.nt as int, self.mx as int, self.my as int),
    {
        let ghost w = self.nx + 2 * self.mx;
        proof {
            assert(0 <= self.row_stride) by (nonlinear_arith)
                requires self.row_stride == self.nt * w, 0 <= self.nt, 0 < w;
            assert(self.row_stride <= 0x7fff_ffff);
            assert(0 <= self.ny + 2 * self.my <= 0x7fff_ffff);
            assert(0 <= (ix + self.mx) * self.nt <= self.nt * w) by (nonlinear_arith)
                requires 0 <= ix + self.mx < w, 0 <= self.nt;
            assert(0 <= (iy + self.my) * self.row_stride <= (self.ny + 2 * self.my) * self.row_stride) by (nonlinear_arith)
                requires 0 <= iy + self.my < self.ny + 2 * self.my, 0 <= self.row_stride;
            assert((self.ny + 2 * self.my) * self.row_stride <= 0x7fff_ffff * 0x7fff_ffff) by (nonlinear_arith)
                requires 0 <= self.ny + 2 * self.my <= 0x7fff_ffff, 0 <= self.row_stride <= 0x7fff_ffff;
        }
        (ix + self.mx) as i64 * self.nt as i64 + (iy + self.my) as i64 * self.row_stride
    }

    /// Number of cells of the padded grid.
    pub fn n_pad(&self) -> (r: usize)
        requires
            0 <= self.nt,
            0 <= self.nx,
            0 <= self.ny,
            1 <= self.mx,
            1 <= self.my,
            geom_fits(self.nx as int, self.ny as int, self.nt as int, self.mx as int, self.my as int),
            self.row_stride == self.nt * (self.nx + 2 * self.mx),
        ensures
            r == self.pad_len(),
    {
        proof {
            assert(0 <= self.row_stride) by (nonlinear_arith)
                requires self.row_stride == self.nt * (self.nx + 2 * self.mx), 0 <= self.nt, 0 < self.nx + 2 * self.mx;
            assert(0 <= self.row_stride * (self.ny + 2 * self.my) <= 0x7fff_ffff * 0x7fff_ffff) by (nonlinear_arith)
                requires 0 <= self.ny + 2 * self.my <= 0x7fff_ffff, 0 <= self.row_stride <= 0x7fff_ffff;
            assert(self.row_stride * (self.ny + 2 * self.my) == self.nt * (self.nx + 2 * self.mx) * (self.ny + 2 * self.my));
        }
        (self.row_stride * (self.ny + 2 * self.my) as i64) as usize
    }
}

impl Geom {
    /// The padded geometry of `vi` with the margins of the displacement `(mx, my, mt)`.
    pub fn build_with(vi: &StateSpace, mx: i32, my: i32, Ghost(mt): Ghost<int>) -> (g: Geom)
        requires
            vi.wf(),
            offsets_ok(vi.actions@, vi.cell_num_t as int),
            is_displacement(vi.actions@, vi.cell_num_t as int, (mx as int, my as int, mt)),
            geom_fits(vi.cell_num_x as int, vi.cell_num_y as int, vi.cell_num_t as int, mx as int, my as int),
        ensures
            g.wf(vi.actions@),
            g.nx == vi.cell_num_x,
            g.ny == vi.cell_num_y,
            g.nt == vi.cell_num_t,
            g.mx == mx,
            g.my == my,
    {
        let ghost acts = vi.actions@;
        let ghost nx = vi.cell_num_x as int;
        let ghost ny = vi.cell_num_y as int;
        let ghost nt = vi.cell_num_t as int;
        let nx_pad = vi.cell_num_x + 2 * mx;
        let row_stride = (vi.cell_num_t * nx_pad) as i64;
        proof {
            assert(0 <= nt * (nx + 2 * mx)) by (nonlinear_arith) requires 0 <= nt, 0 <= nx + 2 * mx;
            assert forall|a: int, t: int, k: int| 0 <= a < acts.len() && 0 <= t < nt && 0 <= k < acts[a].state_transitions@[t]@.len() implies {
                let tr = #[trigger] acts[a].state_transitions@[t]@[k];
                &&& abs_int(tr.dix as int) * nt <= i32::MAX
                &&& abs_int(tr.diy as int) <= i32::MAX
                &&& -nt <= tr.dit
                &&& tr.dit + nt <= i32::MAX
            } by {
                let tr = acts[a].state_transitions@[t]@[k];
                assert(action_ok(acts[a], nx, ny, nt));
                assert(covers(tr, t, nt, (mx as int, my as int, mt)));
                assert(transition_ok(tr, nx, ny, nt));
                assert(abs_int(tr.dix as int) * nt <= nt * (nx + 2 * mx)) by (nonlinear_arith)
                    requires abs_int(tr.dix as int) <= mx, 0 <= nt, 0 <= nx;
            }
            assert forall|a: int| 0 <= a < acts.len() implies (#[trigger] acts[a]).state_transitions@.len() == nt by {
                assert(action_ok(acts[a], nx, ny, nt));
            }
        }
        let precomp = build_precomp(&vi.actions, vi.cell_num_t, row_stride);
        let g = Geom { precomp, nx: vi.cell_num_x, ny: vi.cell_num_y, nt: vi.cell_num_t, mx, my, row_stride };
        proof {
            assert forall|a: int, t: int, k: int| 0 <= a < acts.len() && 0 <= t < acts[a].state_transitions@.len()
                && 0 <= k < acts[a].state_transitions@[t]@.len() implies
                abs_int((#[trigger] acts[a].state_transitions@[t]@[k]).dix as int) <= g.mx
                && abs_int(acts[a].state_transitions@[t]@[k].diy as int) <= g.my by {
                assert(covers(acts[a].state_transitions@[t]@[k], t, nt, (mx as int, my as int, mt)));
            }
        }
        g
    }

    /// The padded geometry of `vi`: margins of the transition displacement and
    /// the buckets of every action.
    pub fn build(vi: &StateSpace) -> (g: Geom)
        requires
            vi.wf(),
            offsets_ok(vi.actions@, vi.cell_num_t as int),
            forall|m: (int, int, int)| is_displacement(vi.actions@, vi.cell_num_t as int, m)
                ==> #[trigger] geom_fits(vi.cell_num_x as int, vi.cell_num_y as int, vi.cell_num_t as int, m.0, m.1),
        ensures
            g.wf(vi.actions@),
            g.nx == vi.cell_num_x,
            g.ny == vi.cell_num_y,
            g.nt == vi.cell_num_t,
            exists|mt: int| is_displacement(vi.actions@, vi.cell_num_t as int, (g.mx as int, g.my as int, mt)),
    {
        let ghost acts = vi.actions@;
        let ghost nx = vi.cell_num_x as int;
        let ghost ny = vi.cell_num_y as int;
        let ghost nt = vi.cell_num_t as int;
        proof {
            assert forall|a: int| 0 <= a < acts.len() implies (#[trigger] acts[a]).state_transitions@.len() == nt by {
                assert(action_ok(acts[a], nx, ny, nt));
            }
        }
        let (mx, my, mt) = displacement(&vi.actions, vi.cell_num_t);
        proof {
            assert(geom_fits(nx, ny, nt, mx as int, my as int));
        }
        Geom::build_with(vi, mx, my, Ghost(mt as int))
    }
}

/// Sum of the penalties of `s`, wrapping.
pub open spec fn pen_of(s: State) -> u64 {
    vstd::wrapping::u64_specs::wrapping_add(s.penalty, s.local_penalty)
}

/// Fused value of `s`: cost plus penalties for a free reached cell, else `UNREACHED`.
pub open spec fn cp_of(s: State) -> u64 {
    if s.free && s.total_cost != MAX_COST {
        vstd::wrapping::u64_specs::wrapping_add(s.total_cost, pen_of(s))
    } else {
        UNREACHED
    }
}

/// The cell takes part in the update: free and outside the goal.
pub open spec fn eval_of(s: State) -> bool {
    s.free && !s.final_state
}

/// Padded cells `(x, y, t)` of the grid of `g`.
pub open spec fn in_box(g: Geom, x: int, y: int, t: int) -> bool {
    -g.mx <= x < g.nx + g.mx && -g.my <= y < g.ny + g.my && 0 <= t < g.nt
}

/// Penalty-fused arrays over the padded grid.
pub struct Fused {
    pub cp: Vec<u64>,
    pub pen: Vec<u64>,
    pub eval_ok: Vec<bool>,
}

/// The arrays hold the fused values of `states` at the padded index of each
/// cell, and `UNREACHED`, zero and `false` on the padding.
pub open spec fn fused_match(cp: Seq<u64>, pen: Seq<u64>, ev: Seq<bool>, states: Seq<State>, g: Geom) -> bool {
    &&& cp.len() == g.pad_len()
    &&& pen.len() == g.pad_len()
    &&& ev.len() == g.pad_len()
    &&& forall|x: int, y: int, t: int| in_box(g, x, y, t) ==> {
        let j = #[trigger] pad_index(x, y, t, g.nx as int, g.nt as int, g.mx as int, g.my as int);
        if 0 <= x < g.nx && 0 <= y < g.ny {
            let s = states[index_of(x, y, t, g.nx as int, g.nt as int)];
            &&& cp[j] == cp_of(s)
            &&& pen[j] == pen_of(s)
            &&& ev[j] == eval_of(s)
        } else {
            &&& cp[j] == UNREACHED
            &&& pen[j] == 0
            &&& !ev[j]
        }
    }
}

impl Fused {
    /// The arrays hold the fused values of `states`; see [`fused_match`].
    pub open spec fn matches(&self, states: Seq<State>, g: Geom) -> bool {
        fused_match(self.cp@, self.pen@, self.eval_ok@, states, g)
    }
}

/// Padded indices lie in the padded array, and distinct padded cells have
/// distinct indices.
pub proof fn lemma_pad_index(g: Geom, x: int, y: int, t: int, x2: int, y2: int, t2: int)
    requires
        0 <= g.nx,
        0 <= g.ny,
        1 <= g.mx,
        1 <= g.my,
        g.row_stride == g.nt * (g.nx + 2 * g.mx),
        in_box(g, x, y, t),
        in_box(g, x2, y2, t2),
    ensures
        0 <= pad_index(x, y, t, g.nx as int, g.nt as int, g.mx as int, g.my as int) < g.pad_len(),
        pad_index(x, y, t, g.nx as int, g.nt as int, g.mx as int, g.my as int)
            == pad_index(x2, y2, t2, g.nx as int, g.nt as int, g.mx as int, g.my as int) ==> x == x2 && y == y2 && t == t2,
{
    let w = g.nx + 2 * g.mx;
    let h = g.ny + 2 * g.my;
    lemma_index_bound(x + g.mx, y + g.my, t, w, h, g.nt as int);
    assert(w * h * g.nt == g.row_stride * h) by (nonlinear_arith) requires g.row_stride == g.nt * w;
    if pad_index(x, y, t, g.nx as int, g.nt as int, g.mx as int, g.my as int)
        == pad_index(x2, y2, t2, g.nx as int, g.nt as int, g.mx as int, g.my as int) {
        crate::reference::value_iterator::lemma_index_inj(x + g.mx, y + g.my, t, x2 + g.mx, y2 + g.my, t2, w, g.nt as int);
    }
}

impl Fused {
    /// The fused arrays of the states of `vi` over the padded grid of `g`.
    pub fn build_direct(vi: &StateSpace, g: &Geom) -> (f: Fused)
        requires
            vi.wf(),
            g.wf(vi.actions@),
            g.nx == vi.cell_num_x,
            g.ny == vi.cell_num_y,
            g.nt == vi.cell_num_t,
        ensures
            f.matches(vi.states@, *g),
    {
        let ghost st = vi.states@;
        let ghost nx = g.nx as int;
        let ghost ny = g.ny as int;
        let ghost nt = g.nt as int;
        let n_pad = g.n_pad();
        let mut cp: Vec<u64> = Vec::new();
        let mut pen: Vec<u64> = Vec::new();
        let mut eval_ok: Vec<bool> = Vec::new();
        let mut k: usize = 0;
        while k < n_pad
            invariant
                0 <= k <= n_pad,
                cp@.len() == k,
                pen@.len() == k,
                eval_ok@.len() == k,
                forall|j: int| 0 <= j < k ==> #[trigger] cp@[j] == UNREACHED,
                forall|j: int| 0 <= j < k ==> #[trigger] pen@[j] == 0,
                forall|j: int| 0 <= j < k ==> !(#[trigger] eval_ok@[j]),
            decreases n_pad - k,
        {
            cp.push(UNREACHED);
            pen.push(0);
            eval_ok.push(false);
            k += 1;
        }
        proof {
            assert forall|x: int, y: int, t: int| in_box(*g, x, y, t) implies
                0 <= #[trigger] pad_index(x, y, t, nx, nt, g.mx as int, g.my as int) < n_pad by {
                lemma_pad_index(*g, x, y, t, x, y, t);
            }
        }
        let mut i: usize = 0;
        while i < vi.states.len()
            invariant
                0 <= i <= st.len(),
                st == vi.states@,
                states_ok(st, nx, ny, nt),
                g.wf(vi.actions@),
                g.nx == nx,
                g.ny == ny,
                g.nt == nt,
                n_pad == g.pad_len(),
                cp@.len() == n_pad,
                pen@.len() == n_pad,
                eval_ok@.len() == n_pad,
                forall|x: int, y: int, t: int| in_box(*g, x, y, t) ==> {
                    let j = #[trigger] pad_index(x, y, t, nx, nt, g.mx as int, g.my as int);
                    if 0 <= x < nx && 0 <= y < ny && index_of(x, y, t, nx, nt) < i {
                        let s = st[index_of(x, y, t, nx, nt)];
                        &&& cp@[j] == cp_of(s)
                        &&& pen@[j] == pen_of(s)
                        &&& eval_ok@[j] == eval_of(s)
                    } else {
                        &&& cp@[j] == UNREACHED
                        &&& pen@[j] == 0
                        &&& !eval_ok@[j]
                    }
                },
            decreases st.len() - i,
        {
            let s = vi.states[i];
            proof {
                assert(st[i as int] == s);
                lemma_pad_index(*g, s.ix as int, s.iy as int, s.it as int, s.ix as int, s.iy as int, s.it as int);
            }
            let col = g.pad_col(s.ix, s.iy);
            proof {
                assert(g.pad_len() <= 0x7fff_ffff * 0x7fff_ffff) by (nonlinear_arith)
                    requires 0 <= g.row_stride <= 0x7fff_ffff, 0 <= g.ny + 2 * g.my <= 0x7fff_ffff,
                        g.pad_len() == g.row_stride * (g.ny + 2 * g.my);
                assert(s.it + col == pad_index(s.ix as int, s.iy as int, s.it as int, nx, nt, g.mx as int, g.my as int));
            }
            let j = (s.it as i64 + col) as usize;
            let p = s.penalty.wrapping_add(s.local_penalty);
            let ghost old_cp = cp@;
            let ghost old_pen = pen@;
            let ghost old_ev = eval_ok@;
            pen.set(j, p);
            if s.free && s.total_cost != MAX_COST {
                cp.set(j, s.total_cost.wrapping_add(p));
            }
            eval_ok.set(j, s.free && !s.final_state);
            proof {
                assert forall|x: int, y: int, t: int| in_box(*g, x, y, t) implies {
                    let j2 = #[trigger] pad_index(x, y, t, nx, nt, g.mx as int, g.my as int);
                    if 0 <= x < nx && 0 <= y < ny && index_of(x, y, t, nx, nt) < i + 1 {
                        let s2 = st[index_of(x, y, t, nx, nt)];
                        &&& cp@[j2] == cp_of(s2)
                        &&& pen@[j2] == pen_of(s2)
                        &&& eval_ok@[j2] == eval_of(s2)
                    } else {
                        &&& cp@[j2] == UNREACHED
                        &&& pen@[j2] == 0
                        &&& !eval_ok@[j2]
                    }
                } by {
                    let j2 = pad_index(x, y, t, nx, nt, g.mx as int, g.my as int);
                    lemma_pad_index(*g, x, y, t, s.ix as int, s.iy as int, s.it as int);
                    if j2 == j as int {
                        assert(x == s.ix && y == s.iy && t == s.it);
                    } else {
                        assert(cp@[j2] == old_cp[j2]);
                        assert(pen@[j2] == old_pen[j2]);
                        assert(eval_ok@[j2] == old_ev[j2]);
                        if 0 <= x < nx && 0 <= y < ny && index_of(x, y, t, nx, nt) == i {
                            crate::reference::value_iterator::lemma_index_inj(x, y, t, s.ix as int, s.iy as int, s.it as int, nx, nt);
                            assert(j2 == j as int);
                        }
                    }
                }
            }
            i += 1;
        }
        let f = Fused { cp, pen, eval_ok };
        proof {
            assert forall|x: int, y: int, t: int| in_box(*g, x, y, t) && 0 <= x < nx && 0 <= y < ny implies
                index_of(x, y, t, nx, nt) < st.len() by {
                lemma_index_bound(x, y, t, nx, ny, nt);
            }
        }
        f
    }
}

/// Wrapping weighted sum of the fused values the buckets `b` read from column base `col`.
pub open spec fn fused_sum(cp: Seq<u64>, b: Seq<(i64, u64)>, col: int) -> u64
    decreases b.len(),
{
    if b.len() == 0 {
        0
    } else {
        u64_specs::wrapping_add(fused_sum(cp, b.drop_last(), col), u64_specs::wrapping_mul(cp[col + b.last().0], b.last().1))
    }
}

/// Some bucket of `b` reads an `UNREACHED` cell.
pub open spec fn fused_blocked(cp: Seq<u64>, b: Seq<(i64, u64)>, col: int) -> bool {
    exists|k: int| 0 <= k < b.len() && cp[col + (#[trigger] b[k]).0] == UNREACHED
}

/// Expected cost read through the buckets `b`: `MAX_COST` when one of them reads
/// an `UNREACHED` cell, else the weighted sum without its fixed-point bits.
pub open spec fn fused_cost(cp: Seq<u64>, b: Seq<(i64, u64)>, col: int) -> u64 {
    if fused_blocked(cp, b, col) {
        MAX_COST
    } else {
        fused_sum(cp, b, col) >> (PROB_BASE_BIT as u64)
    }
}

/// Read access to fused values by padded index.
pub trait CpCells {
    /// The fused values, by padded index.
    spec fn cells(&self) -> Seq<u64>;

    /// Padded index `i` can be read.
    spec fn readable(&self, i: int) -> bool;

    /// The fused value at padded index `i`.
    fn get(&self, i: usize) -> (r: u64)
        requires
            self.readable(i as int),
        ensures
            r == self.cells()[i as int];
}

impl CpCells for Vec<u64> {
    open spec fn cells(&self) -> Seq<u64> {
        self@
    }

    open spec fn readable(&self, i: int) -> bool {
        0 <= i < self@.len()
    }

    fn get(&self, i: usize) -> (r: u64) {
        self[i]
    }
}

/// Expected cost of an action through the fused layout; see [`fused_cost`].
pub fn action_cost_fused<C: CpCells>(cp: &C, buckets: &Vec<(i64, u64)>, col_base: i64) -> (r: u64)
    requires
        forall|k: int| 0 <= k < buckets@.len() ==> 0 <= col_base + (#[trigger] buckets@[k]).0 <= i64::MAX
            && col_base + buckets@[k].0 <= usize::MAX && cp.readable(col_base + buckets@[k].0),
    ensures
        r == fused_cost(cp.cells(), buckets@, col_base as int),
{
    let mut cost: u64 = 0;
    let mut k: usize = 0;
    while k < buckets.len()
        invariant
            0 <= k <= buckets@.len(),
            forall|k2: int| 0 <= k2 < buckets@.len() ==> 0 <= col_base + (#[trigger] buckets@[k2]).0 <= i64::MAX
                && col_base + buckets@[k2].0 <= usize::MAX && cp.readable(col_base + buckets@[k2].0),
            forall|k2: int| 0 <= k2 < k ==> cp.cells()[col_base + (#[trigger] buckets@[k2]).0] != UNREACHED,
            cost == fused_sum(cp.cells(), buckets@.take(k as int), col_base as int),
        decreases buckets@.len() - k,
    {
        let (off, prob) = buckets[k];
        assert(buckets@[k as int] == (off, prob));
        let idx = (col_base + off) as usize;
        assert(idx as int == col_base + off);
        let v = cp.get(idx);
        if v == UNREACHED {
            proof {
                assert(cp.cells()[col_base + buckets@[k as int].0] == UNREACHED);
                assert(fused_blocked(cp.cells(), buckets@, col_base as int));
            }
            return MAX_COST;
        }
        proof {
            assert(buckets@.take(k + 1).drop_last() =~= buckets@.take(k as int));
        }
        cost = cost.wrapping_add(v.wrapping_mul(prob));
        k += 1;
    }
    proof {
        assert(buckets@.take(buckets@.len() as int) =~= buckets@);
    }
    cost >> PROB_BASE_BIT
}

/// The outcome leaves the map, lands on a cell that is not free, or lands on a
/// cell that was not reached yet.
pub open spec fn outcome_unreached(states: Seq<State>, s: State, tr: StateTransition, nx: int, ny: int, nt: int) -> bool {
    let c = outcome_cell(s, tr, nt);
    outcome_blocked(states, s, tr, nx, ny, nt) || states[index_of(c.0, c.1, c.2, nx, nt)].total_cost == MAX_COST
}

/// Expected cost of an action with outcomes `trs` from `s` when unreached cells
/// count as blocked: `MAX_COST` when some outcome is unreached, else the
/// weighted sum without its fixed-point bits.
pub open spec fn clamped_cost(states: Seq<State>, trs: Seq<StateTransition>, s: State, nx: int, ny: int, nt: int) -> u64 {
    if exists|k: int| 0 <= k < trs.len() && #[trigger] outcome_unreached(states, s, trs[k], nx, ny, nt) {
        MAX_COST
    } else {
        outcomes_sum(states, s, trs, nx, nt) >> (PROB_BASE_BIT as u64)
    }
}

/// No free reached cell has a fused value equal to the `UNREACHED` marker.
pub open spec fn no_marker_clash(states: Seq<State>) -> bool {
    forall|i: int| 0 <= i < states.len() && (#[trigger] states[i]).free && states[i].total_cost != MAX_COST
        ==> u64_specs::wrapping_add(states[i].total_cost, pen_of(states[i])) != UNREACHED
}

/// Equal terms give equal wrapping sums.
proof fn lemma_sum_match(cp: Seq<u64>, b: Seq<(i64, u64)>, col: int, states: Seq<State>, s: State, trs: Seq<StateTransition>, nx: int, nt: int)
    requires
        b.len() == trs.len(),
        forall|k: int| 0 <= k < b.len() ==> u64_specs::wrapping_mul(cp[col + (#[trigger] b[k]).0], b[k].1)
            == outcome_cost(states, s, trs[k], nx, nt),
    ensures
        fused_sum(cp, b, col) == outcomes_sum(states, s, trs, nx, nt),
    decreases b.len(),
{
    if b.len() > 0 {
        let b2 = b.drop_last();
        let t2 = trs.drop_last();
        assert forall|k: int| 0 <= k < b2.len() implies u64_specs::wrapping_mul(cp[col + (#[trigger] b2[k]).0], b2[k].1)
            == outcome_cost(states, s, t2[k], nx, nt) by {
            assert(b2[k] == b[k] && t2[k] == trs[k]);
        }
        lemma_sum_match(cp, b2, col, states, s, t2, nx, nt);
        assert(b.last() == b[b.len() - 1]);
        assert(trs.last() == trs[trs.len() - 1]);
    }
}

/// The buckets of action `a` from in-grid cell `(x, y, t)` read the padded
/// cells its outcomes lead to, all inside the padded array.
pub proof fn lemma_buckets(actions: Seq<Action>, g: Geom, x: int, y: int, t: int, a: int)
    requires
        actions_ok(actions, g.nx as int, g.ny as int, g.nt as int),
        g.wf(actions),
        0 <= x < g.nx,
        0 <= y < g.ny,
        0 <= t < g.nt,
        0 <= a < actions.len(),
    ensures
        g.precomp@[a]@[t]@.len() == actions[a].state_transitions@[t]@.len(),
        forall|k: int| 0 <= k < g.precomp@[a]@[t]@.len() ==> {
            let tr = actions[a].state_transitions@[t]@[k];
            let c = (x + tr.dix, y + tr.diy, (tr.dit + g.nt) % (g.nt as int));
            let col = pad_index(x, y, 0, g.nx as int, g.nt as int, g.mx as int, g.my as int);
            &&& col + (#[trigger] g.precomp@[a]@[t]@[k]).0 == pad_index(c.0, c.1, c.2, g.nx as int, g.nt as int, g.mx as int, g.my as int)
            &&& in_box(g, c.0, c.1, c.2)
            &&& 0 <= col + g.precomp@[a]@[t]@[k].0 < g.pad_len()
        },
{
    let nx = g.nx as int;
    let ny = g.ny as int;
    let nt = g.nt as int;
    let mx = g.mx as int;
    let my = g.my as int;
    let rs = g.row_stride as int;
    let w = nx + 2 * mx;
    let b = g.precomp@[a]@[t]@;
    let col = pad_index(x, y, 0, nx, nt, mx, my);
    assert(crate::reference::value_iterator::action_ok(actions[a], nx, ny, nt));
    assert(0 <= rs <= i32::MAX) by (nonlinear_arith) requires rs == nt * w, 0 <= nt, 0 < w, nt * w <= i32::MAX;
    assert forall|k: int| 0 <= k < b.len() implies {
        let tr = actions[a].state_transitions@[t]@[k];
        let c = (x + tr.dix, y + tr.diy, (tr.dit + nt) % nt);
        &&& col + (#[trigger] b[k]).0 == pad_index(c.0, c.1, c.2, nx, nt, mx, my)
        &&& in_box(g, c.0, c.1, c.2)
        &&& 0 <= col + b[k].0 < g.pad_len()
    } by {
        let tr = actions[a].state_transitions@[t]@[k];
        let c = (x + tr.dix, y + tr.diy, (tr.dit + nt) % nt);
        let dx = tr.dix as int;
        let dy = tr.diy as int;
        assert(b[k] == bucket_of(tr, nt, rs));
        assert(abs_int(dx) <= mx && abs_int(dy) <= my);
        assert(transition_ok(tr, nx, ny, nt));
        assert(0 <= (tr.dit + nt) % nt < nt);
        assert(mx * nt <= nt * w) by (nonlinear_arith) requires 0 < mx <= w, 0 <= nt;
        assert(-0x7fff_ffff <= dx * nt <= 0x7fff_ffff) by (nonlinear_arith)
            requires -mx <= dx <= mx, 0 <= nt, mx * nt <= nt * w, nt * w <= 0x7fff_ffff, 0 < mx;
        assert(-0x3fff_ffff_0000_0001 <= dy * rs <= 0x3fff_ffff_0000_0001) by (nonlinear_arith)
            requires -0x7fff_ffff <= dy <= 0x7fff_ffff, 0 <= rs <= 0x7fff_ffff;
        assert(col + b[k].0 == pad_index(c.0, c.1, c.2, nx, nt, mx, my)) by (nonlinear_arith)
            requires
                col == pad_index(x, y, 0, nx, nt, mx, my),
                b[k].0 == dx * nt + dy * rs + c.2,
                c.0 == x + dx,
                c.1 == y + dy,
                rs == nt * w,
                w == nx + 2 * mx;
        lemma_pad_index(g, c.0, c.1, c.2, c.0, c.1, c.2);
    }
}

/// The fused layout computes the clamped expected cost of every action from
/// every cell: reading the buckets of action `a` from the column of state `i`
/// gives [`clamped_cost`] over the states.
pub proof fn lemma_fused_cost(states: Seq<State>, actions: Seq<Action>, g: Geom, cp: Seq<u64>, pen: Seq<u64>, ev: Seq<bool>,
    i: int, a: int)
    requires
        states_ok(states, g.nx as int, g.ny as int, g.nt as int),
        actions_ok(actions, g.nx as int, g.ny as int, g.nt as int),
        no_marker_clash(states),
        g.wf(actions),
        fused_match(cp, pen, ev, states, g),
        0 <= i < states.len(),
        0 <= a < actions.len(),
    ensures
        fused_cost(cp, g.precomp@[a]@[states[i].it as int]@,
            pad_index(states[i].ix as int, states[i].iy as int, 0, g.nx as int, g.nt as int, g.mx as int, g.my as int))
            == clamped_cost(states, outcomes(actions[a], states[i]), states[i], g.nx as int, g.ny as int, g.nt as int),
{
    let nx = g.nx as int;
    let ny = g.ny as int;
    let nt = g.nt as int;
    let rs = g.row_stride as int;
    let s = states[i];
    let t = s.it as int;
    let trs = outcomes(actions[a], s);
    let b = g.precomp@[a]@[t]@;
    let col = pad_index(s.ix as int, s.iy as int, 0, nx, nt, g.mx as int, g.my as int);
    lemma_buckets(actions, g, s.ix as int, s.iy as int, t, a);
    assert forall|k: int| 0 <= k < b.len() implies
        (cp[col + (#[trigger] b[k]).0] == UNREACHED) == outcome_unreached(states, s, trs[k], nx, ny, nt) by {
        let c = outcome_cell(s, trs[k], nt);
        if 0 <= c.0 < nx && 0 <= c.1 < ny {
            lemma_index_bound(c.0, c.1, c.2, nx, ny, nt);
            let n = index_of(c.0, c.1, c.2, nx, nt);
            assert(states[n].free && states[n].total_cost != MAX_COST ==>
                u64_specs::wrapping_add(states[n].total_cost, pen_of(states[n])) != UNREACHED);
        }
    }
    if exists|k: int| 0 <= k < trs.len() && #[trigger] outcome_unreached(states, s, trs[k], nx, ny, nt) {
        let k = choose|k: int| 0 <= k < trs.len() && #[trigger] outcome_unreached(states, s, trs[k], nx, ny, nt);
        assert(cp[col + b[k].0] == UNREACHED);
    } else {
        assert(!fused_blocked(cp, b, col));
        assert forall|k: int| 0 <= k < b.len() implies u64_specs::wrapping_mul(cp[col + (#[trigger] b[k]).0], b[k].1)
            == outcome_cost(states, s, trs[k], nx, nt) by {
            let c = outcome_cell(s, trs[k], nt);
            assert(!outcome_unreached(states, s, trs[k], nx, ny, nt));
            let n = index_of(c.0, c.1, c.2, nx, nt);
            let st = states[n];
            assert(b[k] == bucket_of(trs[k], nt, rs));
            assert(u64_specs::wrapping_add(st.total_cost, u64_specs::wrapping_add(st.penalty, st.local_penalty))
                == u64_specs::wrapping_add(u64_specs::wrapping_add(st.total_cost, st.penalty), st.local_penalty));
        }
        lemma_sum_match(cp, b, col, states, s, trs, nx, nt);
    }
}

/// The best action from `s` under [`clamped_cost`], scanning the actions in
/// order and keeping the first strictly cheaper one, from `(MAX_COST, None)`.
pub open spec fn clamped_best(states: Seq<State>, actions: Seq<Action>, s: State, nx: int, ny: int, nt: int) -> (u64, Option<usize>)
    decreases actions.len(),
{
    if actions.len() == 0 {
        (MAX_COST, None)
    } else {
        let prev = clamped_best(states, actions.drop_last(), s, nx, ny, nt);
        let c = clamped_cost(states, outcomes(actions.last(), s), s, nx, ny, nt);
        if c < prev.0 {
            (c, Some((actions.len() - 1) as usize))
        } else {
            prev
        }
    }
}

/// The per-state update of `states[idx]` with unreached outcomes counted as
/// blocked: a free cell outside the goal takes the cost and the action of
/// [`clamped_best`]; other cells stay as they are.
pub open spec fn clamped_update_at(states: Seq<State>, actions: Seq<Action>, idx: int, nx: int, ny: int, nt: int) -> Seq<State> {
    if updatable(states, idx) {
        let b = clamped_best(states, actions, states[idx], nx, ny, nt);
        states.update(idx, State { total_cost: b.0, optimal_action: b.1, ..states[idx] })
    } else {
        states
    }
}

/// No outcome of an action from `s` lands on a free cell that was not reached yet.
pub open spec fn outcomes_settled(states: Seq<State>, actions: Seq<Action>, s: State, nx: int, ny: int, nt: int) -> bool {
    forall|a: int, k: int| 0 <= a < actions.len() && 0 <= k < outcomes(actions[a], s).len() ==>
        (#[trigger] outcome_unreached(states, s, outcomes(actions[a], s)[k], nx, ny, nt))
        ==> outcome_blocked(states, s, outcomes(actions[a], s)[k], nx, ny, nt)
}

/// Counting unreached outcomes as blocked changes nothing where every outcome
/// of every action lands on a reached cell or is blocked anyway: the clamped
/// best action is the reference best action.
pub proof fn lemma_clamped_best_is_reference(states: Seq<State>, actions: Seq<Action>, s: State, nx: int, ny: int, nt: int)
    requires
        outcomes_settled(states, actions, s, nx, ny, nt),
    ensures
        clamped_best(states, actions, s, nx, ny, nt) == best_of(states, actions, s, nx, ny, nt),
    decreases actions.len(),
{
    if actions.len() > 0 {
        let pa = actions.drop_last();
        assert forall|a: int, k: int| 0 <= a < pa.len() && 0 <= k < outcomes(pa[a], s).len() implies
            (#[trigger] outcome_unreached(states, s, outcomes(pa[a], s)[k], nx, ny, nt))
            ==> outcome_blocked(states, s, outcomes(pa[a], s)[k], nx, ny, nt) by {
            assert(pa[a] == actions[a]);
        }
        lemma_clamped_best_is_reference(states, pa, s, nx, ny, nt);
        let last = (actions.len() - 1) as int;
        let trs = outcomes(actions.last(), s);
        assert(actions.last() == actions[last]);
        assert forall|k: int| 0 <= k < trs.len() implies
            #[trigger] outcome_unreached(states, s, trs[k], nx, ny, nt) == outcome_blocked(states, s, trs[k], nx, ny, nt) by {
            assert(outcome_unreached(states, s, outcomes(actions[last], s)[k], nx, ny, nt)
                ==> outcome_blocked(states, s, outcomes(actions[last], s)[k], nx, ny, nt));
        }
        if exists|k: int| 0 <= k < trs.len() && #[trigger] outcome_unreached(states, s, trs[k], nx, ny, nt) {
            let k = choose|k: int| 0 <= k < trs.len() && #[trigger] outcome_unreached(states, s, trs[k], nx, ny, nt);
            assert(outcome_blocked(states, s, trs[k], nx, ny, nt));
        } else {
            assert forall|k: int| 0 <= k < trs.len() implies !#[trigger] outcome_blocked(states, s, trs[k], nx, ny, nt) by {
                assert(!outcome_unreached(states, s, trs[k], nx, ny, nt));
            }
        }
        assert(clamped_cost(states, trs, s, nx, ny, nt) == cost_of(states, trs, s, nx, ny, nt));
    }
}

/// The clamped per-state update is the reference update wherever the outcomes
/// of the updated state are settled; see [`outcomes_settled`].
pub proof fn lemma_clamped_update_is_reference(states: Seq<State>, actions: Seq<Action>, idx: int, nx: int, ny: int, nt: int)
    requires
        0 <= idx < states.len(),
        outcomes_settled(states, actions, states[idx], nx, ny, nt),
    ensures
        clamped_update_at(states, actions, idx, nx, ny, nt) == update_at(states, actions, idx, nx, ny, nt),
{
    lemma_clamped_best_is_reference(states, actions, states[idx], nx, ny, nt);
}

/// The value a padded cell stands for: `MAX_COST` for `UNREACHED`, else the
/// fused value less the penalties.
pub open spec fn fused_value(f: Fused, j: int) -> u64 {
    value_of(f.cp@, f.pen@, j)
}

/// The value padded cell `j` stands for: `MAX_COST` for `UNREACHED`, else the
/// fused value less the penalties.
pub open spec fn value_of(cp: Seq<u64>, pen: Seq<u64>, j: int) -> u64 {
    if cp[j] == UNREACHED { MAX_COST } else { u64_specs::wrapping_sub(cp[j], pen[j]) }
}

/// The padded index of state `s`.
pub open spec fn pad_of(s: State, g: Geom) -> int {
    pad_index(s.ix as int, s.iy as int, s.it as int, g.nx as int, g.nt as int, g.mx as int, g.my as int)
}

/// Writing the fused layout back gives every free reached cell its own cost and
/// every other cell `MAX_COST`.
pub proof fn lemma_fused_value(states: Seq<State>, g: Geom, f: Fused, k: int)
    requires
        states_ok(states, g.nx as int, g.ny as int, g.nt as int),
        no_marker_clash(states),
        0 <= g.nx,
        0 <= g.ny,
        1 <= g.mx,
        1 <= g.my,
        g.row_stride == g.nt * (g.nx + 2 * g.mx),
        f.matches(states, g),
        0 <= k < states.len(),
    ensures
        0 <= pad_of(states[k], g) < g.pad_len(),
        fused_value(f, pad_of(states[k], g)) == (if states[k].free && states[k].total_cost != MAX_COST { states[k].total_cost } else { MAX_COST }),
        f.eval_ok@[pad_of(states[k], g)] == eval_of(states[k]),
        f.cp@[pad_of(states[k], g)] == cp_of(states[k]),
{
    let s = states[k];
    assert(in_box(g, s.ix as int, s.iy as int, s.it as int));
    lemma_pad_index(g, s.ix as int, s.iy as int, s.it as int, s.ix as int, s.iy as int, s.it as int);
    assert(states[index_of(s.ix as int, s.iy as int, s.it as int, g.nx as int, g.nt as int)] == s);
}

/// The best action read through the fused layout from column base `col` at
/// heading `t`, over actions `0 .. na` in order, keeping the first strictly
/// cheaper one from `(MAX_COST, None)`.
pub open spec fn fused_best(cp: Seq<u64>, precomp: Seq<Vec<Vec<(i64, u64)>>>, t: int, col: int, na: int) -> (u64, Option<usize>)
    decreases na,
{
    if na <= 0 {
        (MAX_COST, None)
    } else {
        let prev = fused_best(cp, precomp, t, col, na - 1);
        let c = fused_cost(cp, precomp[na - 1]@[t]@, col);
        if c < prev.0 {
            (c, Some((na - 1) as usize))
        } else {
            prev
        }
    }
}

/// On arrays fused from the states, the best action through the layout is the
/// best action under [`clamped_cost`].
pub proof fn lemma_fused_best(states: Seq<State>, actions: Seq<Action>, g: Geom, cp: Seq<u64>, pen: Seq<u64>, ev: Seq<bool>,
    i: int, na: int)
    requires
        states_ok(states, g.nx as int, g.ny as int, g.nt as int),
        actions_ok(actions, g.nx as int, g.ny as int, g.nt as int),
        no_marker_clash(states),
        g.wf(actions),
        fused_match(cp, pen, ev, states, g),
        0 <= i < states.len(),
        0 <= na <= actions.len(),
    ensures
        fused_best(cp, g.precomp@, states[i].it as int,
            pad_index(states[i].ix as int, states[i].iy as int, 0, g.nx as int, g.nt as int, g.mx as int, g.my as int), na)
            == clamped_best(states, actions.take(na), states[i], g.nx as int, g.ny as int, g.nt as int),
    decreases na,
{
    if na > 0 {
        lemma_fused_best(states, actions, g, cp, pen, ev, i, na - 1);
        lemma_fused_cost(states, actions, g, cp, pen, ev, i, na - 1);
        assert(actions.take(na).drop_last() =~= actions.take(na - 1));
        assert(actions.take(na).last() == actions[na - 1]);
    }
}

/// The best action of every state through the fused layout, in storage order:
/// `None` for a cell outside the update and, when `skip_unreached`, for an
/// `UNREACHED` cell; otherwise [`fused_best`] over all actions.
pub fn final_policy_fused(vi: &StateSpace, g: &Geom, f: &Fused, skip_unreached: bool) -> (r: Vec<Option<usize>>)
    requires
        vi.wf(),
        g.wf(vi.actions@),
        g.nx == vi.cell_num_x,
        g.ny == vi.cell_num_y,
        g.nt == vi.cell_num_t,
        f.cp@.len() == g.pad_len(),
        f.eval_ok@.len() == g.pad_len(),
    ensures
        r@.len() == vi.states@.len(),
        forall|k: int| 0 <= k < vi.states@.len() ==> #[trigger] r@[k] == {
            let s = vi.states@[k];
            let j = pad_of(s, *g);
            if !f.eval_ok@[j] || (skip_unreached && f.cp@[j] == UNREACHED) {
                None
            } else {
                fused_best(f.cp@, g.precomp@, s.it as int,
                    pad_index(s.ix as int, s.iy as int, 0, g.nx as int, g.nt as int, g.mx as int, g.my as int),
                    vi.actions@.len() as int).1
            }
        },
{
    let ghost st = vi.states@;
    let ghost acts = vi.actions@;
    let ghost nx = g.nx as int;
    let ghost ny = g.ny as int;
    let ghost nt = g.nt as int;
    let mut opt: Vec<Option<usize>> = Vec::new();
    proof {
        assert(g.pad_len() <= 0x7fff_ffff * 0x7fff_ffff) by (nonlinear_arith)
            requires 0 <= g.row_stride <= 0x7fff_ffff, 0 <= g.ny + 2 * g.my <= 0x7fff_ffff,
                g.pad_len() == g.row_stride * (g.ny + 2 * g.my);
    }
    let mut k: usize = 0;
    while k < vi.states.len()
        invariant
            0 <= k <= st.len(),
            st == vi.states@,
            acts == vi.actions@,
            vi.wf(),
            g.wf(acts),
            g.nx == vi.cell_num_x,
            g.ny == vi.cell_num_y,
            g.nt == vi.cell_num_t,
            nx == g.nx,
            ny == g.ny,
            nt == g.nt,
            f.cp@.len() == g.pad_len(),
            f.eval_ok@.len() == g.pad_len(),
            g.pad_len() <= 0x7fff_ffff * 0x7fff_ffff,
            opt@.len() == k,
            forall|k2: int| 0 <= k2 < k ==> #[trigger] opt@[k2] == {
                let s = st[k2];
                let j = pad_of(s, *g);
                if !f.eval_ok@[j] || (skip_unreached && f.cp@[j] == UNREACHED) {
                    None
                } else {
                    fused_best(f.cp@, g.precomp@, s.it as int,
                        pad_index(s.ix as int, s.iy as int, 0, nx, nt, g.mx as int, g.my as int), acts.len() as int).1
                }
            },
        decreases st.len() - k,
    {
        let s = vi.states[k];
        proof {
            assert(st[k as int] == s);
            assert(in_grid(s, nx, ny, nt));
            lemma_pad_index(*g, s.ix as int, s.iy as int, s.it as int, s.ix as int, s.iy as int, s.it as int);
        }
        let col = g.pad_col(s.ix, s.iy);
        proof {
            assert(s.it + col == pad_of(s, *g));
        }
        let pad = (s.it as i64 + col) as usize;
        if !f.eval_ok[pad] || (skip_unreached && f.cp[pad] == UNREACHED) {
            opt.push(None);
        } else {
            let mut min_cost: u64 = MAX_COST;
            let mut min_action: Option<usize> = None;
            let mut ai: usize = 0;
            while ai < vi.actions.len()
                invariant
                    0 <= ai <= acts.len(),
                    st == vi.states@,
                    acts == vi.actions@,
                    0 <= k < st.len(),
                    s == st[k as int],
                    in_grid(s, nx, ny, nt),
                    actions_ok(acts, nx, ny, nt),
                    g.wf(acts),
                    nx == g.nx,
                    ny == g.ny,
                    nt == g.nt,
                    f.cp@.len() == g.pad_len(),
                    g.pad_len() <= 0x7fff_ffff * 0x7fff_ffff,
                    col == pad_index(s.ix as int, s.iy as int, 0, nx, nt, g.mx as int, g.my as int),
                    (min_cost, min_action) == fused_best(f.cp@, g.precomp@, s.it as int, col as int, ai as int),
                decreases acts.len() - ai,
            {
                proof {
                    lemma_buckets(acts, *g, s.ix as int, s.iy as int, s.it as int, ai as int);
                }
                let c = action_cost_fused(&f.cp, &g.precomp[ai][s.it as usize], col);
                if c < min_cost {
                    min_cost = c;
                    min_action = Some(ai);
                }
                ai += 1;
            }
            opt.push(min_action);
        }
        k += 1;
    }
    opt
}

/// Writes the fused layout back to the states: each state takes the value of
/// its padded cell and the action `opt` gives for it.
pub fn write_back_fused(vi: &mut StateSpace, g: &Geom, f: &Fused, opt: &Vec<Option<usize>>)
    requires
        states_ok(old(vi).states@, g.nx as int, g.ny as int, g.nt as int),
        0 <= g.nx,
        0 <= g.ny,
        1 <= g.mx,
        1 <= g.my,
        geom_fits(g.nx as int, g.ny as int, g.nt as int, g.mx as int, g.my as int),
        g.row_stride == g.nt * (g.nx + 2 * g.mx),
        f.cp@.len() == g.pad_len(),
        f.pen@.len() == g.pad_len(),
        opt@.len() == old(vi).states@.len(),
    ensures
        final(vi).actions@ == old(vi).actions@,
        final(vi).cell_num_x == old(vi).cell_num_x,
        final(vi).cell_num_y == old(vi).cell_num_y,
        final(vi).cell_num_t == old(vi).cell_num_t,
        final(vi).states@.len() == old(vi).states@.len(),
        forall|k: int| 0 <= k < old(vi).states@.len() ==> #[trigger] final(vi).states@[k] == (State {
            total_cost: fused_value(*f, pad_of(old(vi).states@[k], *g)),
            optimal_action: opt@[k],
            ..old(vi).states@[k]
        }),
{
    let ghost st = vi.states@;
    let ghost nx = g.nx as int;
    let ghost ny = g.ny as int;
    let ghost nt = g.nt as int;
    proof {
        assert(0 <= g.row_stride) by (nonlinear_arith)
            requires g.row_stride == g.nt * (g.nx + 2 * g.mx), 0 <= g.nt, 0 < g.nx + 2 * g.mx;
        assert(g.pad_len() <= 0x7fff_ffff * 0x7fff_ffff) by (nonlinear_arith)
            requires 0 <= g.row_stride <= 0x7fff_ffff, 0 <= g.ny + 2 * g.my <= 0x7fff_ffff,
                g.pad_len() == g.row_stride * (g.ny + 2 * g.my);
    }
    let n = vi.states.len();
    let mut k: usize = 0;
    while k < n
        invariant
            0 <= k <= n,
            n == st.len(),
            vi.states@.len() == n,
            vi.actions@ == old(vi).actions@,
            vi.cell_num_x == old(vi).cell_num_x,
            vi.cell_num_y == old(vi).cell_num_y,
            vi.cell_num_t == old(vi).cell_num_t,
            st == old(vi).states@,
            states_ok(st, nx, ny, nt),
            nx == g.nx,
            ny == g.ny,
            nt == g.nt,
            0 <= g.nx,
            0 <= g.ny,
            1 <= g.mx,
            1 <= g.my,
            geom_fits(nx, ny, nt, g.mx as int, g.my as int),
            g.row_stride == g.nt * (g.nx + 2 * g.mx),
            g.pad_len() <= 0x7fff_ffff * 0x7fff_ffff,
            f.cp@.len() == g.pad_len(),
            f.pen@.len() == g.pad_len(),
            opt@.len() == n,
            forall|k2: int| 0 <= k2 < k ==> #[trigger] vi.states@[k2] == (State {
                total_cost: fused_value(*f, pad_of(st[k2], *g)),
                optimal_action: opt@[k2],
                ..st[k2]
            }),
            forall|k2: int| k <= k2 < n ==> #[trigger] vi.states@[k2] == st[k2],
        decreases n - k,
    {
        let mut s = vi.states[k];
        proof {
            assert(vi.states@[k as int] == st[k as int]);
            assert(in_grid(st[k as int], nx, ny, nt));
            assert(in_box(*g, s.ix as int, s.iy as int, s.it as int));
            lemma_pad_index(*g, s.ix as int, s.iy as int, s.it as int, s.ix as int, s.iy as int, s.it as int);
        }
        let col = g.pad_col(s.ix, s.iy);
        proof {
            assert(s.it + col == pad_of(s, *g));
        }
        let pad = (s.it as i64 + col) as usize;
        s.total_cost = if f.cp[pad] == UNREACHED { MAX_COST } else { f.cp[pad].wrapping_sub(f.pen[pad]) };
        s.optimal_action = opt[k];
        vi.states.set(k, s);
        k += 1;
    }
}

/// The buckets of every action and heading: padded offset and weight of each outcome.
pub fn build_precomp(actions: &Vec<Action>, nt: i32, row_stride: i64) -> (r: Vec<Vec<Vec<(i64, u64)>>>)
    requires
        0 <= nt,
        0 <= row_stride <= i32::MAX,
        forall|a: int| 0 <= a < actions@.len() ==> (#[trigger] actions@[a]).state_transitions@.len() == nt,
        forall|a: int, t: int, k: int| 0 <= a < actions@.len() && 0 <= t < nt && 0 <= k < actions@[a].state_transitions@[t]@.len() ==> {
            let tr = #[trigger] actions@[a].state_transitions@[t]@[k];
            &&& abs_int(tr.dix as int) * nt <= i32::MAX
            &&& abs_int(tr.diy as int) <= i32::MAX
            &&& -nt <= tr.dit
            &&& tr.dit + nt <= i32::MAX
        },
    ensures
        precomp_ok(r@, actions@, nt as int, row_stride as int),
{
    let mut out: Vec<Vec<Vec<(i64, u64)>>> = Vec::new();
    let mut ai: usize = 0;
    while ai < actions.len()
        invariant
            0 <= ai <= actions@.len(),
            0 <= nt,
            0 <= row_stride <= i32::MAX,
            forall|a: int| 0 <= a < actions@.len() ==> (#[trigger] actions@[a]).state_transitions@.len() == nt,
            forall|a: int, t: int, k: int| 0 <= a < actions@.len() && 0 <= t < nt && 0 <= k < actions@[a].state_transitions@[t]@.len() ==> {
                let tr = #[trigger] actions@[a].state_transitions@[t]@[k];
                &&& abs_int(tr.dix as int) * nt <= i32::MAX
                &&& abs_int(tr.diy as int) <= i32::MAX
                &&& -nt <= tr.dit
                &&& tr.dit + nt <= i32::MAX
            },
            out@.len() == ai,
            forall|a: int| 0 <= a < ai ==> (#[trigger] out@[a])@.len() == nt,
            forall|a: int, t: int| 0 <= a < ai && 0 <= t < nt ==>
                (#[trigger] out@[a]@[t])@.len() == actions@[a].state_transitions@[t]@.len(),
            forall|a: int, t: int, k: int| 0 <= a < ai && 0 <= t < nt && 0 <= k < actions@[a].state_transitions@[t]@.len() ==>
                #[trigger] out@[a]@[t]@[k] == bucket_of(actions@[a].state_transitions@[t]@[k], nt as int, row_stride as int),
        decreases actions@.len() - ai,
    {
        let a = &actions[ai];
        let mut per_theta: Vec<Vec<(i64, u64)>> = Vec::new();
        let mut t: usize = 0;
        while t < nt as usize
            invariant
                0 <= ai < actions@.len(),
                *a == actions@[ai as int],
                0 <= t <= nt,
                0 <= nt,
                0 <= row_stride <= i32::MAX,
                a.state_transitions@.len() == nt,
                forall|t2: int, k: int| 0 <= t2 < nt && 0 <= k < a.state_transitions@[t2]@.len() ==> {
                    let tr = #[trigger] a.state_transitions@[t2]@[k];
                    &&& abs_int(tr.dix as int) * nt <= i32::MAX
                    &&& abs_int(tr.diy as int) <= i32::MAX
                    &&& -nt <= tr.dit
                    &&& tr.dit + nt <= i32::MAX
                },
                per_theta@.len() == t,
                forall|t2: int| 0 <= t2 < t ==> (#[trigger] per_theta@[t2])@.len() == a.state_transitions@[t2]@.len(),
                forall|t2: int, k: int| 0 <= t2 < t && 0 <= k < a.state_transitions@[t2]@.len() ==>
                    #[trigger] per_theta@[t2]@[k] == bucket_of(a.state_transitions@[t2]@[k], nt as int, row_stride as int),
            decreases nt - t,
        {
            let trs = &a.state_transitions[t];
            let mut buckets: Vec<(i64, u64)> = Vec::new();
            let mut k: usize = 0;
            while k < trs.len()
                invariant
                    0 <= t < nt,
                    *trs == a.state_transitions@[t as int],
                    0 <= k <= trs@.len(),
                    0 <= row_stride <= i32::MAX,
                    forall|k2: int| 0 <= k2 < trs@.len() ==> {
                        let tr = #[trigger] trs@[k2];
                        &&& abs_int(tr.dix as int) * nt <= i32::MAX
                        &&& abs_int(tr.diy as int) <= i32::MAX
                        &&& -nt <= tr.dit
                        &&& tr.dit + nt <= i32::MAX
                    },
                    buckets@.len() == k,
                    forall|k2: int| 0 <= k2 < k ==> #[trigger] buckets@[k2] == bucket_of(trs@[k2], nt as int, row_stride as int),
                decreases trs@.len() - k,
            {
                let tr = trs[k];
                assert(trs@[k as int] == tr);
                let nit = (tr.dit + nt) % nt;
                proof {
                    let dx = tr.dix as int;
                    let dy = tr.diy as int;
                    assert(-0x7fff_ffff <= dx * nt <= 0x7fff_ffff) by (nonlinear_arith)
                        requires abs_int(dx) * nt <= 0x7fff_ffff, 0 <= nt, abs_int(dx) == (if dx < 0 { -dx } else { dx });
                    assert(-0x3fff_ffff_0000_0001 <= dy * row_stride <= 0x3fff_ffff_0000_0001) by (nonlinear_arith)
                        requires abs_int(dy) <= 0x7fff_ffff, 0 <= row_stride <= 0x7fff_ffff, abs_int(dy) == (if dy < 0 { -dy } else { dy });
                }
                let off: i64 = tr.dix as i64 * nt as i64 + tr.diy as i64 * row_stride + nit as i64;
                buckets.push((off, tr.prob as u64));
                k += 1;
            }
            per_theta.push(buckets);
            t += 1;
        }
        out.push(per_theta);
        ai += 1;
    }
    out
}

} // verus!
