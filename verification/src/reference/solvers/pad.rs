//! The padded 2-D frontier solver.  The grid is padded by the transition
//! displacement with cells that are not free, so every outcome of an in-grid
//! cell reads a valid entry, and each action's outcomes are read through
//! precomputed `(offset, weight)` buckets.  An outcome on a cell that was not
//! reached yet counts as blocked, so only real costs are ever written.
use vstd::prelude::*;
use vstd::wrapping::u64_specs;
use crate::reference::params::{MAX_COST, PROB_BASE_BIT};
use crate::reference::state::{Action, State, StateTransition};
use crate::reference::value_iterator::{StateSpace, index_of, states_ok, actions_ok, outcomes, outcome_cell,
    outcomes_sum, outcome_cost, lemma_index_bound, lemma_index_inj, in_grid};
use crate::reference::solvers::fused::{Geom, geom_fits, pad_index, in_box, pen_of, pad_of, lemma_pad_index, lemma_buckets,
    clamped_cost, clamped_best, outcome_unreached, bucket_of};
use crate::reference::solvers::frontier::{offsets_ok, is_displacement, abs_int, frontier_ok, lemma_frontier_offsets,
    seed_frontier_2d, seed_view2, lists_cells2, lemma_cells2_len, column2, round2, rounds2, frontier_run2, frontier2d_result};
use crate::bitboard::{Bitboard2D, fits2};
use crate::reference::solvers::greatest::{agree_ok, greatest_settled};
use crate::reference::solvers::pad_settle::{above_best, lemma_pad_greatest};
use crate::bitboard::ops::dilate_grid;
use crate::bitboard::enumerate::{set_cells2, lemma_count_empty2};

verus! {

/// Padded arrays of the 2-D frontier solver: per cell the cost and the summed
/// penalties, whether it is free, and whether it is a goal cell.
pub struct Padded {
    pub hot: Vec<(u64, u64)>,
    pub free: Vec<bool>,
    pub finals: Vec<bool>,
    pub g: Geom,
}

/// The arrays hold `(total_cost, penalties)`, `free` and `final_state` of each
/// state at its padded index, and `(MAX_COST, 0)`, `false`, `false` on the padding.
pub open spec fn pad_match(hot: Seq<(u64, u64)>, free: Seq<bool>, finals: Seq<bool>, states: Seq<State>, g: Geom) -> bool {
    &&& hot.len() == g.pad_len()
    &&& free.len() == g.pad_len()
    &&& finals.len() == g.pad_len()
    &&& forall|x: int, y: int, t: int| in_box(g, x, y, t) ==> {
        let j = #[trigger] pad_index(x, y, t, g.nx as int, g.nt as int, g.mx as int, g.my as int);
        if 0 <= x < g.nx && 0 <= y < g.ny {
            let s = states[index_of(x, y, t, g.nx as int, g.nt as int)];
            &&& hot[j] == (s.total_cost, pen_of(s))
            &&& free[j] == s.free
            &&& finals[j] == s.final_state
        } else {
            &&& hot[j] == (MAX_COST, 0u64)
            &&& !free[j]
            &&& !finals[j]
        }
    }
}

impl Padded {
    /// The arrays hold the states over the padded grid; see [`pad_match`].
    pub open spec fn matches(&self, states: Seq<State>) -> bool {
        pad_match(self.hot@, self.free@, self.finals@, states, self.g)
    }

    /// The padded arrays of the states of `vi`, with the geometry of its
    /// transition displacement.
    pub fn build(vi: &StateSpace) -> (m: Padded)
        requires
            vi.wf(),
            offsets_ok(vi.actions@, vi.cell_num_t as int),
            forall|d: (int, int, int)| is_displacement(vi.actions@, vi.cell_num_t as int, d)
                ==> #[trigger] geom_fits(vi.cell_num_x as int, vi.cell_num_y as int, vi.cell_num_t as int, d.0, d.1),
        ensures
            m.g.wf(vi.actions@),
            m.g.nx == vi.cell_num_x,
            m.g.ny == vi.cell_num_y,
            m.g.nt == vi.cell_num_t,
            exists|mt: int| is_displacement(vi.actions@, vi.cell_num_t as int, (m.g.mx as int, m.g.my as int, mt)),
            m.matches(vi.states@),
    {
        let g = Geom::build(vi);
        let ghost st = vi.states@;
        let ghost nx = g.nx as int;
        let ghost ny = g.ny as int;
        let ghost nt = g.nt as int;
        let n_pad = g.n_pad();
        let mut hot: Vec<(u64, u64)> = Vec::new();
        let mut free: Vec<bool> = Vec::new();
        let mut finals: Vec<bool> = Vec::new();
        let mut k: usize = 0;
        while k < n_pad
            invariant
                0 <= k <= n_pad,
                hot@.len() == k,
                free@.len() == k,
                finals@.len() == k,
                forall|j: int| 0 <= j < k ==> #[trigger] hot@[j] == (MAX_COST, 0u64),
                forall|j: int| 0 <= j < k ==> !(#[trigger] free@[j]),
                forall|j: int| 0 <= j < k ==> !(#[trigger] finals@[j]),
            decreases n_pad - k,
        {
            hot.push((MAX_COST, 0));
            free.push(false);
            finals.push(false);
            k += 1;
        }
        proof {
            assert forall|x: int, y: int, t: int| in_box(g, x, y, t) implies
                0 <= #[trigger] pad_index(x, y, t, nx, nt, g.mx as int, g.my as int) < n_pad by {
                lemma_pad_index(g, x, y, t, x, y, t);
            }
        }
        let mut i: usize = 0;
        while i < vi.states.len()
            invariant
                0 <= i <= st.len(),
                st == vi.states@,
                states_ok(st, nx, ny, nt),
                g.wf(vi.actions@),
                g.nx == nx,
                g.ny == ny,
                g.nt == nt,
                n_pad == g.pad_len(),
                hot@.len() == n_pad,
                free@.len() == n_pad,
                finals@.len() == n_pad,
                forall|x: int, y: int, t: int| in_box(g, x, y, t) ==> {
                    let j = #[trigger] pad_index(x, y, t, nx, nt, g.mx as int, g.my as int);
                    if 0 <= x < nx && 0 <= y < ny && index_of(x, y, t, nx, nt) < i {
                        let s = st[index_of(x, y, t, nx, nt)];
                        &&& hot@[j] == (s.total_cost, pen_of(s))
                        &&& free@[j] == s.free
                        &&& finals@[j] == s.final_state
                    } else {
                        &&& hot@[j] == (MAX_COST, 0u64)
                        &&& !free@[j]
                        &&& !finals@[j]
                    }
                },
            decreases st.len() - i,
        {
            let s = vi.states[i];
            proof {
                assert(st[i as int] == s);
                lemma_pad_index(g, s.ix as int, s.iy as int, s.it as int, s.ix as int, s.iy as int, s.it as int);
            }
            let col = g.pad_col(s.ix, s.iy);
            proof {
                assert(g.pad_len() <= 0x7fff_ffff * 0x7fff_ffff) by (nonlinear_arith)
                    requires 0 <= g.row_stride <= 0x7fff_ffff, 0 <= g.ny + 2 * g.my <= 0x7fff_ffff,
                        g.pad_len() == g.row_stride * (g.ny + 2 * g.my);
                assert(s.it + col == pad_index(s.ix as int, s.iy as int, s.it as int, nx, nt, g.mx as int, g.my as int));
            }
            let j = (s.it as i64 + col) as usize;
            let ghost old_hot = hot@;
            let ghost old_free = free@;
            let ghost old_fin = finals@;
            hot.set(j, (s.total_cost, s.penalty.wrapping_add(s.local_penalty)));
            free.set(j, s.free);
            finals.set(j, s.final_state);
            proof {
                assert forall|x: int, y: int, t: int| in_box(g, x, y, t) implies {
                    let j2 = #[trigger] pad_index(x, y, t, nx, nt, g.mx as int, g.my as int);
                    if 0 <= x < nx && 0 <= y < ny && index_of(x, y, t, nx, nt) < i + 1 {
                        let s2 = st[index_of(x, y, t, nx, nt)];
                        &&& hot@[j2] == (s2.total_cost, pen_of(s2))
                        &&& free@[j2] == s2.free
                        &&& finals@[j2] == s2.final_state
                    } else {
                        &&& hot@[j2] == (MAX_COST, 0u64)
                        &&& !free@[j2]
                        &&& !finals@[j2]
                    }
                } by {
                    let j2 = pad_index(x, y, t, nx, nt, g.mx as int, g.my as int);
                    lemma_pad_index(g, x, y, t, s.ix as int, s.iy as int, s.it as int);
                    if j2 == j as int {
                        assert(x == s.ix && y == s.iy && t == s.it);
                    } else {
                        assert(hot@[j2] == old_hot[j2]);
                        assert(free@[j2] == old_free[j2]);
                        assert(finals@[j2] == old_fin[j2]);
                        if 0 <= x < nx && 0 <= y < ny && index_of(x, y, t, nx, nt) == i {
                            lemma_index_inj(x, y, t, s.ix as int, s.iy as int, s.it as int, nx, nt);
                            assert(j2 == j as int);
                        }
                    }
                }
            }
            i += 1;
        }
        let m = Padded { hot, free, finals, g };
        proof {
            assert forall|x: int, y: int, t: int| in_box(g, x, y, t) && 0 <= x < nx && 0 <= y < ny implies
                index_of(x, y, t, nx, nt) < st.len() by {
                lemma_index_bound(x, y, t, nx, ny, nt);
            }
        }
        m
    }

    /// Flat padded index of heading 0 of column `(ix, iy)`.
    pub fn pad_col(&self, ix: i32, iy: i32) -> (r: i64)
        requires
            -self.g.mx <= ix < self.g.nx + self.g.mx,
            -self.g.my <= iy < self.g.ny + self.g.my,
            0 <= self.g.nt,
            geom_fits(self.g.nx as int, self.g.ny as int, self.g.nt as int, self.g.mx as int, self.g.my as int),
            self.g.row_stride == self.g.nt * (self.g.nx + 2 * self.g.mx),
        ensures
            r == pad_index(ix as int, iy as int, 0, self.g.nx as int, self.g.nt as int, self.g.mx as int, self.g.my as int),
    {
        self.g.pad_col(ix, iy)
    }

    /// Writes the padded costs back to the states, and, when `opt` is given,
    /// the action it holds for each state.
    pub fn write_back(&self, vi: &mut StateSpace, opt: Option<&Vec<Option<usize>>>)
        requires
            states_ok(old(vi).states@, self.g.nx as int, self.g.ny as int, self.g.nt as int),
            0 <= self.g.nx,
            0 <= self.g.ny,
            1 <= self.g.mx,
            1 <= self.g.my,
            geom_fits(self.g.nx as int, self.g.ny as int, self.g.nt as int, self.g.mx as int, self.g.my as int),
            self.g.row_stride == self.g.nt * (self.g.nx + 2 * self.g.mx),
            self.hot@.len() == self.g.pad_len(),
            opt matches Some(o) ==> o@.len() == old(vi).states@.len(),
        ensures
            final(vi).actions@ == old(vi).actions@,
            final(vi).cell_num_x == old(vi).cell_num_x,
            final(vi).cell_num_y == old(vi).cell_num_y,
            final(vi).cell_num_t == old(vi).cell_num_t,
            final(vi).states@.len() == old(vi).states@.len(),
            forall|k: int| 0 <= k < old(vi).states@.len() ==> #[trigger] final(vi).states@[k] == (State {
                total_cost: self.hot@[pad_of(old(vi).states@[k], self.g)].0,
                optimal_action: match opt { Some(o) => o@[k], None => old(vi).states@[k].optimal_action },
                ..old(vi).states@[k]
            }),
    {
        let ghost st = vi.states@;
        let ghost nx = self.g.nx as int;
        let ghost ny = self.g.ny as int;
        let ghost nt = self.g.nt as int;
        proof {
            assert(0 <= self.g.row_stride) by (nonlinear_arith)
                requires self.g.row_stride == self.g.nt * (self.g.nx + 2 * self.g.mx), 0 <= self.g.nt, 0 < self.g.nx + 2 * self.g.mx;
            assert(self.g.pad_len() <= 0x7fff_ffff * 0x7fff_ffff) by (nonlinear_arith)
                requires 0 <= self.g.row_stride <= 0x7fff_ffff, 0 <= self.g.ny + 2 * self.g.my <= 0x7fff_ffff,
                    self.g.pad_len() == self.g.row_stride * (self.g.ny + 2 * self.g.my);
        }
        let n = vi.states.len();
        let mut k: usize = 0;
        while k < n
            invariant
                0 <= k <= n,
                n == st.len(),
                vi.states@.len() == n,
                vi.actions@ == old(vi).actions@,
                vi.cell_num_x == old(vi).cell_num_x,
                vi.cell_num_y == old(vi).cell_num_y,
                vi.cell_num_t == old(vi).cell_num_t,
                st == old(vi).states@,
                states_ok(st, nx, ny, nt),
                nx == self.g.nx,
                ny == self.g.ny,
                nt == self.g.nt,
                0 <= self.g.nx,
                0 <= self.g.ny,
                1 <= self.g.mx,
                1 <= self.g.my,
                geom_fits(nx, ny, nt, self.g.mx as int, self.g.my as int),
                self.g.row_stride == self.g.nt * (self.g.nx + 2 * self.g.mx),
                self.g.pad_len() <= 0x7fff_ffff * 0x7fff_ffff,
                self.hot@.len() == self.g.pad_len(),
                opt matches Some(o) ==> o@.len() == n,
                forall|k2: int| 0 <= k2 < k ==> #[trigger] vi.states@[k2] == (State {
                    total_cost: self.hot@[pad_of(st[k2], self.g)].0,
                    optimal_action: match opt { Some(o) => o@[k2], None => st[k2].optimal_action },
                    ..st[k2]
                }),
                forall|k2: int| k <= k2 < n ==> #[trigger] vi.states@[k2] == st[k2],
            decreases n - k,
        {
            let mut s = vi.states[k];
            proof {
                assert(vi.states@[k as int] == st[k as int]);
                assert(in_grid(st[k as int], nx, ny, nt));
                assert(in_box(self.g, s.ix as int, s.iy as int, s.it as int));
                lemma_pad_index(self.g, s.ix as int, s.iy as int, s.it as int, s.ix as int, s.iy as int, s.it as int);
            }
            let col = self.g.pad_col(s.ix, s.iy);
            proof {
                assert(s.it + col == pad_of(s, self.g));
            }
            let pad = (s.it as i64 + col) as usize;
            s.total_cost = self.hot[pad].0;
            match opt {
                Some(o) => {
                    s.optimal_action = o[k];
                },
                None => {},
            }
            vi.states.set(k, s);
            k += 1;
        }
    }
}

/// Wrapping weighted sum of `cost + penalties` over the cells the buckets `b`
/// read from column base `col`.
pub open spec fn pad_sum(hot: Seq<(u64, u64)>, b: Seq<(i64, u64)>, col: int) -> u64
    decreases b.len(),
{
    if b.len() == 0 {
        0
    } else {
        let h = hot[col + b.last().0];
        u64_specs::wrapping_add(pad_sum(hot, b.drop_last(), col), u64_specs::wrapping_mul(u64_specs::wrapping_add(h.0, h.1), b.last().1))
    }
}

/// Some bucket of `b` reads a cell that is not free or not reached yet.
pub open spec fn pad_blocked(hot: Seq<(u64, u64)>, free: Seq<bool>, b: Seq<(i64, u64)>, col: int) -> bool {
    exists|k: int| 0 <= k < b.len() && (!free[col + (#[trigger] b[k]).0] || hot[col + b[k].0].0 == MAX_COST)
}

/// Expected cost read through the buckets `b`: `MAX_COST` when one of them
/// reads a cell that is not free or not reached yet, else the weighted sum
/// without its fixed-point bits.
pub open spec fn pad_cost(hot: Seq<(u64, u64)>, free: Seq<bool>, b: Seq<(i64, u64)>, col: int) -> u64 {
    if pad_blocked(hot, free, b, col) {
        MAX_COST
    } else {
        pad_sum(hot, b, col) >> (PROB_BASE_BIT as u64)
    }
}

/// Expected cost of an action through the padded arrays; see [`pad_cost`].
pub fn action_cost_pad(hot: &Vec<(u64, u64)>, free: &Vec<bool>, buckets: &Vec<(i64, u64)>, col_base: i64) -> (r: u64)
    requires
        hot@.len() <= i64::MAX,
        free@.len() == hot@.len(),
        forall|k: int| 0 <= k < buckets@.len() ==> 0 <= col_base + (#[trigger] buckets@[k]).0 < hot@.len(),
    ensures
        r == pad_cost(hot@, free@, buckets@, col_base as int),
{
    let mut cost: u64 = 0;
    let mut k: usize = 0;
    while k < buckets.len()
        invariant
            0 <= k <= buckets@.len(),
            hot@.len() <= i64::MAX,
            free@.len() == hot@.len(),
            forall|k2: int| 0 <= k2 < buckets@.len() ==> 0 <= col_base + (#[trigger] buckets@[k2]).0 < hot@.len(),
            forall|k2: int| 0 <= k2 < k ==> free@[col_base + (#[trigger] buckets@[k2]).0]
                && hot@[col_base + buckets@[k2].0].0 != MAX_COST,
            cost == pad_sum(hot@, buckets@.take(k as int), col_base as int),
        decreases buckets@.len() - k,
    {
        let (off, prob) = buckets[k];
        assert(buckets@[k as int] == (off, prob));
        let n_hot = hot.len();
        assert(0 <= col_base + off < n_hot);
        let n = (col_base + off) as usize;
        if !free[n] {
            proof {
                assert(pad_blocked(hot@, free@, buckets@, col_base as int));
            }
            return MAX_COST;
        }
        let h = hot[n];
        if h.0 == MAX_COST {
            proof {
                assert(pad_blocked(hot@, free@, buckets@, col_base as int));
            }
            return MAX_COST;
        }
        proof {
            assert(buckets@.take(k + 1).drop_last() =~= buckets@.take(k as int));
        }
        cost = cost.wrapping_add(h.0.wrapping_add(h.1).wrapping_mul(prob));
        k += 1;
    }
    proof {
        assert(buckets@.take(buckets@.len() as int) =~= buckets@);
    }
    cost >> PROB_BASE_BIT
}

/// Equal terms give equal wrapping sums.
proof fn lemma_pad_sum(hot: Seq<(u64, u64)>, b: Seq<(i64, u64)>, col: int, states: Seq<State>, s: State, trs: Seq<StateTransition>, nx: int, nt: int)
    requires
        b.len() == trs.len(),
        forall|k: int| 0 <= k < b.len() ==> u64_specs::wrapping_mul(
            u64_specs::wrapping_add(hot[col + (#[trigger] b[k]).0].0, hot[col + b[k].0].1), b[k].1)
            == outcome_cost(states, s, trs[k], nx, nt),
    ensures
        pad_sum(hot, b, col) == outcomes_sum(states, s, trs, nx, nt),
    decreases b.len(),
{
    if b.len() > 0 {
        let b2 = b.drop_last();
        let t2 = trs.drop_last();
        assert forall|k: int| 0 <= k < b2.len() implies u64_specs::wrapping_mul(
            u64_specs::wrapping_add(hot[col + (#[trigger] b2[k]).0].0, hot[col + b2[k].0].1), b2[k].1)
            == outcome_cost(states, s, t2[k], nx, nt) by {
            assert(b2[k] == b[k] && t2[k] == trs[k]);
        }
        lemma_pad_sum(hot, b2, col, states, s, t2, nx, nt);
        assert(b.last() == b[b.len() - 1]);
        assert(trs.last() == trs[trs.len() - 1]);
    }
}

/// The padded arrays compute the clamped expected cost of every action from
/// every cell: reading the buckets of action `a` from the column of state `i`
/// gives [`clamped_cost`] over the states.
pub proof fn lemma_pad_cost(states: Seq<State>, actions: Seq<Action>, m: Padded, i: int, a: int)
    requires
        states_ok(states, m.g.nx as int, m.g.ny as int, m.g.nt as int),
        actions_ok(actions, m.g.nx as int, m.g.ny as int, m.g.nt as int),
        m.g.wf(actions),
        m.matches(states),
        0 <= i < states.len(),
        0 <= a < actions.len(),
    ensures
        pad_cost(m.hot@, m.free@, m.g.precomp@[a]@[states[i].it as int]@,
            pad_index(states[i].ix as int, states[i].iy as int, 0, m.g.nx as int, m.g.nt as int, m.g.mx as int, m.g.my as int))
            == clamped_cost(states, outcomes(actions[a], states[i]), states[i], m.g.nx as int, m.g.ny as int, m.g.nt as int),
{
    let g = m.g;
    let nx = g.nx as int;
    let ny = g.ny as int;
    let nt = g.nt as int;
    let rs = g.row_stride as int;
    let s = states[i];
    let t = s.it as int;
    let trs = outcomes(actions[a], s);
    let b = g.precomp@[a]@[t]@;
    let col = pad_index(s.ix as int, s.iy as int, 0, nx, nt, g.mx as int, g.my as int);
    lemma_buckets(actions, g, s.ix as int, s.iy as int, t, a);
    assert forall|k: int| 0 <= k < b.len() implies
        (!m.free@[col + (#[trigger] b[k]).0] || m.hot@[col + b[k].0].0 == MAX_COST) == outcome_unreached(states, s, trs[k], nx, ny, nt) by {
        let c = outcome_cell(s, trs[k], nt);
        if 0 <= c.0 < nx && 0 <= c.1 < ny {
            lemma_index_bound(c.0, c.1, c.2, nx, ny, nt);
        }
    }
    if exists|k: int| 0 <= k < trs.len() && #[trigger] outcome_unreached(states, s, trs[k], nx, ny, nt) {
        let k = choose|k: int| 0 <= k < trs.len() && #[trigger] outcome_unreached(states, s, trs[k], nx, ny, nt);
        assert(!m.free@[col + b[k].0] || m.hot@[col + b[k].0].0 == MAX_COST);
    } else {
        assert(!pad_blocked(m.hot@, m.free@, b, col));
        assert forall|k: int| 0 <= k < b.len() implies u64_specs::wrapping_mul(
            u64_specs::wrapping_add(m.hot@[col + (#[trigger] b[k]).0].0, m.hot@[col + b[k].0].1), b[k].1)
            == outcome_cost(states, s, trs[k], nx, nt) by {
            let c = outcome_cell(s, trs[k], nt);
            assert(!outcome_unreached(states, s, trs[k], nx, ny, nt));
            let n = index_of(c.0, c.1, c.2, nx, nt);
            let st = states[n];
            assert(b[k] == bucket_of(trs[k], nt, rs));
            assert(u64_specs::wrapping_add(st.total_cost, u64_specs::wrapping_add(st.penalty, st.local_penalty))
                == u64_specs::wrapping_add(u64_specs::wrapping_add(st.total_cost, st.penalty), st.local_penalty));
        }
        lemma_pad_sum(m.hot@, b, col, states, s, trs, nx, nt);
    }
}

/// The best action read through the padded arrays from column base `col` at
/// heading `t`, over actions `0 .. na` in order, keeping the first strictly
/// cheaper one from `(MAX_COST, None)`.
pub open spec fn pad_best(hot: Seq<(u64, u64)>, free: Seq<bool>, precomp: Seq<Vec<Vec<(i64, u64)>>>, t: int, col: int, na: int)
    -> (u64, Option<usize>)
    decreases na,
{
    if na <= 0 {
        (MAX_COST, None)
    } else {
        let prev = pad_best(hot, free, precomp, t, col, na - 1);
        let c = pad_cost(hot, free, precomp[na - 1]@[t]@, col);
        if c < prev.0 {
            (c, Some((na - 1) as usize))
        } else {
            prev
        }
    }
}

/// On arrays padded from the states, the best action through the arrays is the
/// best action under [`clamped_cost`].
pub proof fn lemma_pad_best(states: Seq<State>, actions: Seq<Action>, m: Padded, i: int, na: int)
    requires
        states_ok(states, m.g.nx as int, m.g.ny as int, m.g.nt as int),
        actions_ok(actions, m.g.nx as int, m.g.ny as int, m.g.nt as int),
        m.g.wf(actions),
        m.matches(states),
        0 <= i < states.len(),
        0 <= na <= actions.len(),
    ensures
        pad_best(m.hot@, m.free@, m.g.precomp@, states[i].it as int,
            pad_index(states[i].ix as int, states[i].iy as int, 0, m.g.nx as int, m.g.nt as int, m.g.mx as int, m.g.my as int), na)
            == clamped_best(states, actions.take(na), states[i], m.g.nx as int, m.g.ny as int, m.g.nt as int),
    decreases na,
{
    if na > 0 {
        lemma_pad_best(states, actions, m, i, na - 1);
        lemma_pad_cost(states, actions, m, i, na - 1);
        assert(actions.take(na).drop_last() =~= actions.take(na - 1));
        assert(actions.take(na).last() == actions[na - 1]);
    }
}

/// The clamped best cost never exceeds `MAX_COST`.
pub proof fn lemma_clamped_best_le(states: Seq<State>, actions: Seq<Action>, s: State, nx: int, ny: int, nt: int)
    ensures
        clamped_best(states, actions, s, nx, ny, nt).0 <= MAX_COST,
    decreases actions.len(),
{
    if actions.len() > 0 {
        lemma_clamped_best_le(states, actions.drop_last(), s, nx, ny, nt);
    }
}

/// Writing `(v, pen_of(states[idx]))` at the padded index of `states[idx]`
/// keeps the arrays matched to the states with the cost of `idx` set to `v`.
pub proof fn lemma_match_set(hot: Seq<(u64, u64)>, free: Seq<bool>, finals: Seq<bool>, states: Seq<State>, g: Geom, idx: int, v: u64, o: Option<usize>)
    requires
        pad_match(hot, free, finals, states, g),
        states_ok(states, g.nx as int, g.ny as int, g.nt as int),
        0 <= g.nx,
        0 <= g.ny,
        1 <= g.mx,
        1 <= g.my,
        g.row_stride == g.nt * (g.nx + 2 * g.mx),
        0 <= idx < states.len(),
    ensures
        0 <= pad_of(states[idx], g) < g.pad_len(),
        pad_match(hot.update(pad_of(states[idx], g), (v, pen_of(states[idx]))), free, finals,
            states.update(idx, State { total_cost: v, optimal_action: o, ..states[idx] }), g),
{
    let nx = g.nx as int;
    let ny = g.ny as int;
    let nt = g.nt as int;
    let s = states[idx];
    let j = pad_of(s, g);
    let s2 = states.update(idx, State { total_cost: v, optimal_action: o, ..states[idx] });
    let h2 = hot.update(j, (v, pen_of(s)));
    assert(in_grid(s, nx, ny, nt));
    lemma_pad_index(g, s.ix as int, s.iy as int, s.it as int, s.ix as int, s.iy as int, s.it as int);
    assert forall|x: int, y: int, t: int| in_box(g, x, y, t) implies {
        let j2 = #[trigger] pad_index(x, y, t, g.nx as int, g.nt as int, g.mx as int, g.my as int);
        if 0 <= x < g.nx && 0 <= y < g.ny {
            let q = s2[index_of(x, y, t, g.nx as int, g.nt as int)];
            &&& h2[j2] == (q.total_cost, pen_of(q))
            &&& free[j2] == q.free
            &&& finals[j2] == q.final_state
        } else {
            &&& h2[j2] == (MAX_COST, 0u64)
            &&& !free[j2]
            &&& !finals[j2]
        }
    } by {
        let j2 = pad_index(x, y, t, nx, nt, g.mx as int, g.my as int);
        lemma_pad_index(g, x, y, t, s.ix as int, s.iy as int, s.it as int);
        if 0 <= x < nx && 0 <= y < ny {
            lemma_index_bound(x, y, t, nx, ny, nt);
            let n = index_of(x, y, t, nx, nt);
            if n == idx {
                lemma_index_inj(x, y, t, s.ix as int, s.iy as int, s.it as int, nx, nt);
            } else if j2 == j {
                assert(x == s.ix && y == s.iy && t == s.it);
            }
        }
    }
}

/// Setting the cost of one state to at most `MAX_COST`, and its action, keeps
/// the layout invariant.
pub proof fn lemma_set_keeps_ok(states: Seq<State>, nx: int, ny: int, nt: int, idx: int, v: u64, o: Option<usize>)
    requires
        states_ok(states, nx, ny, nt),
        0 <= idx < states.len(),
        v <= MAX_COST,
    ensures
        states_ok(states.update(idx, State { total_cost: v, optimal_action: o, ..states[idx] }), nx, ny, nt),
{
    let s2 = states.update(idx, State { total_cost: v, optimal_action: o, ..states[idx] });
    assert forall|i: int| 0 <= i < s2.len() implies {
        &&& in_grid(#[trigger] s2[i], nx, ny, nt)
        &&& index_of(s2[i].ix as int, s2[i].iy as int, s2[i].it as int, nx, nt) == i
        &&& s2[i].total_cost <= i64::MAX
    } by {
        assert(in_grid(states[i], nx, ny, nt));
    }
}

/// `states2` differs from `states` at most in costs and actions.
pub open spec fn same_cells(states: Seq<State>, states2: Seq<State>) -> bool {
    &&& states2.len() == states.len()
    &&& forall|k: int| 0 <= k < states.len() ==> #[trigger] states2[k]
        == (State { total_cost: states2[k].total_cost, optimal_action: states2[k].optimal_action, ..states[k] })
}

/// Frontier solver over 2-D columns on the padded arrays: the rounds of
/// [`crate::reference::solvers::frontier::frontier2d_solve`], where each
/// per-state update counts outcomes on cells not reached yet as blocked.
pub fn frontier2d_pad_solve(vi: &mut StateSpace, max_iter: u32) -> (r: (u32, u64, bool))
    requires
        old(vi).wf(),
        frontier_ok(old(vi).actions@),
        fits2(old(vi).cell_num_x as u32, old(vi).cell_num_y as u32),
        forall|d: (int, int, int)| is_displacement(old(vi).actions@, old(vi).cell_num_t as int, d)
            ==> #[trigger] geom_fits(old(vi).cell_num_x as int, old(vi).cell_num_y as int, old(vi).cell_num_t as int, d.0, d.1),
    ensures
        final(vi).wf(),
        final(vi).actions@ == old(vi).actions@,
        final(vi).cell_num_x == old(vi).cell_num_x,
        final(vi).cell_num_y == old(vi).cell_num_y,
        final(vi).cell_num_t == old(vi).cell_num_t,
        r.0 <= max_iter,
        exists|m: (int, int, int), hist: Seq<Seq<(u32, u32)>>|
            #[trigger] frontier2d_result(old(vi).states@, old(vi).actions@, old(vi).cell_num_x as int, old(vi).cell_num_y as int,
                old(vi).cell_num_t as int, m, hist, final(vi).states@, r.1, r.2, true)
            && hist.len() == r.0 && (r.2 || r.0 == max_iter),
        agree_ok(old(vi).states@, old(vi).actions@, old(vi).cell_num_t as int)
            && above_best(old(vi).states@, old(vi).actions@, old(vi).cell_num_x as int, old(vi).cell_num_y as int,
                old(vi).cell_num_t as int) && r.2 ==> exists|gs: Seq<State>|
            #[trigger] greatest_settled(gs, old(vi).states@, old(vi).actions@, old(vi).cell_num_x as int,
                old(vi).cell_num_y as int, old(vi).cell_num_t as int)
            && forall|k: int| 0 <= k < old(vi).states@.len() ==> (#[trigger] final(vi).states@[k]).total_cost == gs[k].total_cost,
{
    let ghost s0 = vi.states@;
    let ghost acts = vi.actions@;
    let ghost nx = vi.cell_num_x as int;
    let ghost ny = vi.cell_num_y as int;
    let ghost nt = vi.cell_num_t as int;
    let ghost big_n = nx * ny * nt;
    let cnx = vi.cell_num_x;
    let cny = vi.cell_num_y;
    let cnt = vi.cell_num_t;
    proof {
        lemma_frontier_offsets(acts, nx, ny, nt);
    }
    let mut m = Padded::build(vi);
    let mx = m.g.mx;
    let my = m.g.my;
    let ghost mt = choose|mt: int| is_displacement(acts, nt, (mx as int, my as int, mt));
    let ghost dm = (mx as int, my as int, mt);
    proof {
        if mx != 1 {
            let (a, t, k) = choose|a: int, t: int, k: int| 0 <= a < acts.len() && 0 <= t < acts[a].state_transitions@.len()
                && 0 <= k < acts[a].state_transitions@[t]@.len() && abs_int((#[trigger] acts[a].state_transitions@[t]@[k]).dix as int) == dm.0;
            assert(-63 <= acts[a].state_transitions@[t]@[k].dix <= 63);
        }
        assert(0 <= m.g.row_stride) by (nonlinear_arith)
            requires m.g.row_stride == m.g.nt * (m.g.nx + 2 * m.g.mx), 0 <= m.g.nt, 0 < m.g.nx + 2 * m.g.mx;
        assert(m.g.pad_len() <= 0x7fff_ffff * 0x7fff_ffff) by (nonlinear_arith)
            requires 0 <= m.g.row_stride <= 0x7fff_ffff, 0 <= m.g.ny + 2 * m.g.my <= 0x7fff_ffff,
                m.g.pad_len() == m.g.row_stride * (m.g.ny + 2 * m.g.my);
    }
    let n = vi.states.len();
    let mut opt: Vec<Option<usize>> = Vec::new();
    let mut k: usize = 0;
    while k < n
        invariant
            0 <= k <= n,
            n == s0.len(),
            s0 == vi.states@,
            opt@.len() == k,
            forall|k2: int| 0 <= k2 < k ==> #[trigger] opt@[k2] == s0[k2].optimal_action,
        decreases n - k,
    {
        opt.push(vi.states[k].optimal_action);
        k += 1;
    }
    let ghost mut st = s0;
    let mut frontier = seed_frontier_2d(vi);
    let ghost f0 = frontier@;
    let mut updates: u64 = 0;
    let mut iters: u32 = 0;
    let ghost mut hist: Seq<Seq<(u32, u32)>> = Seq::empty();
    while frontier.popcount() > 0 && iters < max_iter
        invariant
            vi.wf(),
            vi.states@ == s0,
            vi.actions@ == acts,
            vi.cell_num_x == cnx,
            vi.cell_num_y == cny,
            vi.cell_num_t == cnt,
            nx == cnx,
            ny == cny,
            nt == cnt,
            big_n == nx * ny * nt,
            fits2(cnx as u32, cny as u32),
            states_ok(s0, nx, ny, nt),
            actions_ok(acts, nx, ny, nt),
            m.g.wf(acts),
            m.g.nx == cnx,
            m.g.ny == cny,
            m.g.nt == cnt,
            m.g.mx == mx,
            m.g.my == my,
            m.g.pad_len() <= 0x7fff_ffff * 0x7fff_ffff,
            m.matches(st),
            states_ok(st, nx, ny, nt),
            same_cells(s0, st),
            opt@.len() == n,
            n == s0.len(),
            forall|k2: int| 0 <= k2 < n ==> #[trigger] opt@[k2] == st[k2].optimal_action,
            frontier.wf(),
            frontier.width() == nx,
            frontier.height() == ny,
            is_displacement(acts, nt, dm),
            dm == (mx as int, my as int, mt),
            mx < 64,
            f0 == seed_view2(s0, nx, ny, nt),
            hist.len() == iters,
            iters <= max_iter,
            frontier_run2(s0, acts, f0, hist, nx, ny, nt, dm, true),
            st == rounds2(s0, acts, f0, hist, nx, ny, nt, true).0,
            frontier@ == rounds2(s0, acts, f0, hist, nx, ny, nt, true).1,
            updates == rounds2(s0, acts, f0, hist, nx, ny, nt, true).2,
            updates <= iters * big_n,
        decreases max_iter - iters,
    {
        let ghost p = rounds2(s0, acts, f0, hist, nx, ny, nt, true);
        proof {
            frontier.lemma_shape();
            lemma_count_empty2(frontier@, nx, ny);
            assert(exists|c: (int, int)| set_cells2(frontier@, nx, ny).contains(c)) by {
                if !(exists|c: (int, int)| set_cells2(frontier@, nx, ny).contains(c)) {
                    assert(set_cells2(frontier@, nx, ny) =~= Set::<(int, int)>::empty());
                }
            }
            let c = choose|c: (int, int)| set_cells2(frontier@, nx, ny).contains(c);
            assert(set_cells2(frontier@, nx, ny).contains(c));
        }
        iters += 1;
        let candidates = frontier.dilate(mx as u32, my as u32);
        let cand = candidates.enumerate();
        let ghost cv = cand@;
        proof {
            assert(lists_cells2(cv, dilate_grid(p.1, nx, ny, dm.0, dm.1), nx, ny));
            lemma_cells2_len(cv, dilate_grid(p.1, nx, ny, dm.0, dm.1), nx, ny);
            assert((iters - 1) * big_n + big_n == iters * big_n) by (nonlinear_arith);
            assert(iters * big_n <= 0x8000_0000_0000_0000) by (nonlinear_arith)
                requires iters <= u32::MAX, big_n <= i32::MAX, 0 <= big_n;
            assert(cv.len() * nt <= big_n) by (nonlinear_arith) requires cv.len() <= nx * ny, big_n == nx * ny * nt, 0 <= nt;
        }
        let mut new_frontier = Bitboard2D::new(cnx as u32, cny as u32);
        let ghost u0 = updates;
        let mut j: usize = 0;
        while j < cand.len()
            invariant
                vi.wf(),
                vi.states@ == s0,
                vi.actions@ == acts,
                vi.cell_num_x == cnx,
                vi.cell_num_y == cny,
                vi.cell_num_t == cnt,
                nx == cnx,
                ny == cny,
                nt == cnt,
                fits2(cnx as u32, cny as u32),
                actions_ok(acts, nx, ny, nt),
                m.g.wf(acts),
                m.g.nx == cnx,
                m.g.ny == cny,
                m.g.nt == cnt,
                m.g.mx == mx,
                m.g.my == my,
                m.g.pad_len() <= 0x7fff_ffff * 0x7fff_ffff,
                m.matches(st),
                states_ok(st, nx, ny, nt),
                same_cells(s0, st),
                opt@.len() == n,
                n == s0.len(),
                forall|k2: int| 0 <= k2 < n ==> #[trigger] opt@[k2] == st[k2].optimal_action,
                cv == cand@,
                lists_cells2(cv, dilate_grid(p.1, nx, ny, dm.0, dm.1), nx, ny),
                cv.len() * nt <= big_n,
                0 <= j <= cv.len(),
                new_frontier.wf(),
                new_frontier.width() == nx,
                new_frontier.height() == ny,
                states_ok(p.0, nx, ny, nt),
                st == round2(p.0, acts, cv.take(j as int), nx, ny, nt, true).0,
                new_frontier@ == round2(p.0, acts, cv.take(j as int), nx, ny, nt, true).1,
                updates == u0 + round2(p.0, acts, cv.take(j as int), nx, ny, nt, true).2,
                round2(p.0, acts, cv.take(j as int), nx, ny, nt, true).2 <= j * nt,
                u0 + big_n <= 0x8000_0000_0000_0000,
            decreases cv.len() - j,
        {
            let c = cand[j];
            proof {
                assert(set_cells2(dilate_grid(p.1, nx, ny, dm.0, dm.1), nx, ny).contains((cv[j as int].0 as int, cv[j as int].1 as int)));
                assert(cv.take(j + 1).drop_last() =~= cv.take(j as int));
                assert(cv.take(j + 1).last() == c);
                assert((j + 1) * nt <= cv.len() * nt) by (nonlinear_arith) requires j + 1 <= cv.len(), 0 <= nt;
                assert(j * nt + nt == (j + 1) * nt) by (nonlinear_arith);
            }
            let ghost sc = st;
            let pad_col = m.pad_col(c.0 as i32, c.1 as i32);
            let mut u: u64 = 0;
            let mut it: i32 = 0;
            while it < cnt
                invariant
                    vi.wf(),
                    vi.states@ == s0,
                    vi.actions@ == acts,
                    vi.cell_num_x == cnx,
                    vi.cell_num_y == cny,
                    vi.cell_num_t == cnt,
                    nx == cnx,
                    ny == cny,
                    nt == cnt,
                    actions_ok(acts, nx, ny, nt),
                    m.g.wf(acts),
                    m.g.nx == cnx,
                    m.g.ny == cny,
                    m.g.nt == cnt,
                    m.g.mx == mx,
                    m.g.my == my,
                    m.g.pad_len() <= 0x7fff_ffff * 0x7fff_ffff,
                    m.matches(st),
                    states_ok(st, nx, ny, nt),
                    same_cells(s0, st),
                    opt@.len() == n,
                    n == s0.len(),
                    forall|k2: int| 0 <= k2 < n ==> #[trigger] opt@[k2] == st[k2].optimal_action,
                    0 <= c.0 < nx,
                    0 <= c.1 < ny,
                    pad_col == pad_index(c.0 as int, c.1 as int, 0, nx, nt, mx as int, my as int),
                    0 <= it <= nt,
                    st == column2(sc, acts, c.0 as int, c.1 as int, it as int, nx, ny, nt, true).0,
                    u == column2(sc, acts, c.0 as int, c.1 as int, it as int, nx, ny, nt, true).1,
                    u <= it,
                decreases nt - it,
            {
                proof {
                    lemma_index_bound(c.0 as int, c.1 as int, it as int, nx, ny, nt);
                }
                let idx = vi.to_index(c.0 as i32, c.1 as i32, it) as usize;
                let ghost sp = st;
                proof {
                    let q = sp[idx as int];
                    assert(in_grid(q, nx, ny, nt));
                    lemma_index_inj(q.ix as int, q.iy as int, q.it as int, c.0 as int, c.1 as int, it as int, nx, nt);
                    assert(in_box(m.g, c.0 as int, c.1 as int, it as int));
                    lemma_pad_index(m.g, c.0 as int, c.1 as int, it as int, c.0 as int, c.1 as int, it as int);
                    assert(pad_col + it == pad_of(q, m.g));
                }
                let pad_idx = (pad_col + it as i64) as usize;
                if m.free[pad_idx] && !m.finals[pad_idx] {
                    let before = m.hot[pad_idx].0;
                    let na = m.g.precomp.len();
                    let mut min_cost: u64 = MAX_COST;
                    let mut min_action: Option<usize> = None;
                    let mut ai: usize = 0;
                    while ai < na
                        invariant
                            0 <= ai <= na,
                            na == acts.len(),
                            actions_ok(acts, nx, ny, nt),
                            m.g.wf(acts),
                            m.g.nx == cnx,
                            m.g.ny == cny,
                            m.g.nt == cnt,
                            nx == cnx,
                            ny == cny,
                            nt == cnt,
                            m.g.pad_len() <= 0x7fff_ffff * 0x7fff_ffff,
                            m.hot@.len() == m.g.pad_len(),
                            m.free@.len() == m.g.pad_len(),
                            0 <= c.0 < nx,
                            0 <= c.1 < ny,
                            0 <= it < nt,
                            pad_col == pad_index(c.0 as int, c.1 as int, 0, nx, nt, m.g.mx as int, m.g.my as int),
                            (min_cost, min_action) == pad_best(m.hot@, m.free@, m.g.precomp@, it as int, pad_col as int, ai as int),
                        decreases na - ai,
                    {
                        proof {
                            lemma_buckets(acts, m.g, c.0 as int, c.1 as int, it as int, ai as int);
                        }
                        let cost = action_cost_pad(&m.hot, &m.free, &m.g.precomp[ai][it as usize], pad_col);
                        if cost < min_cost {
                            min_cost = cost;
                            min_action = Some(ai);
                        }
                        ai += 1;
                    }
                    let pen = m.hot[pad_idx].1;
                    proof {
                        lemma_pad_best(sp, acts, m, idx as int, na as int);
                        assert(acts.take(na as int) =~= acts);
                        lemma_clamped_best_le(sp, acts, sp[idx as int], nx, ny, nt);
                        lemma_match_set(m.hot@, m.free@, m.finals@, sp, m.g, idx as int, min_cost, min_action);
                        lemma_set_keeps_ok(sp, nx, ny, nt, idx as int, min_cost, min_action);
                    }
                    m.hot.set(pad_idx, (min_cost, pen));
                    opt.set(idx, min_action);
                    proof {
                        st = sp.update(idx as int, State { total_cost: min_cost, optimal_action: min_action, ..sp[idx as int] });
                        assert forall|k2: int| 0 <= k2 < s0.len() implies #[trigger] st[k2]
                            == (State { total_cost: st[k2].total_cost, optimal_action: st[k2].optimal_action, ..s0[k2] }) by {
                            assert(sp[k2] == (State { total_cost: sp[k2].total_cost, optimal_action: sp[k2].optimal_action, ..s0[k2] }));
                        }
                        assert forall|k2: int| 0 <= k2 < n implies #[trigger] opt@[k2] == st[k2].optimal_action by {
                            if k2 != idx as int {
                                assert(opt@[k2] == sp[k2].optimal_action);
                            }
                        }
                    }
                    if min_cost < before {
                        u += 1;
                    }
                }
                it += 1;
            }
            if u > 0 {
                updates += u;
                new_frontier.set(c.0, c.1);
            }
            j += 1;
        }
        proof {
            assert(cv.take(cv.len() as int) =~= cv);
            let h2 = hist.push(cv);
            assert(h2.drop_last() =~= hist);
            assert forall|r: int| 0 <= r < h2.len() implies {
                let q = #[trigger] rounds2(s0, acts, f0, h2.take(r), nx, ny, nt, true);
                &&& set_cells2(q.1, nx, ny) != Set::<(int, int)>::empty()
                &&& lists_cells2(h2[r], dilate_grid(q.1, nx, ny, dm.0, dm.1), nx, ny)
            } by {
                if r < hist.len() {
                    assert(h2.take(r) =~= hist.take(r));
                    assert(rounds2(s0, acts, f0, hist.take(r), nx, ny, nt, true) == rounds2(s0, acts, f0, h2.take(r), nx, ny, nt, true));
                } else {
                    assert(h2.take(r) =~= hist);
                }
            }
            hist = h2;
        }
        frontier = new_frontier;
    }
    let converged = frontier.popcount() == 0;
    proof {
        frontier.lemma_shape();
        lemma_count_empty2(frontier@, nx, ny);
    }
    m.write_back(vi, Some(&opt));
    proof {
        assert forall|k2: int| 0 <= k2 < n implies #[trigger] vi.states@[k2] == st[k2] by {
            assert(st[k2] == (State { total_cost: st[k2].total_cost, optimal_action: st[k2].optimal_action, ..s0[k2] }));
            assert(pad_of(s0[k2], m.g) == pad_of(st[k2], m.g));
            assert(in_grid(st[k2], nx, ny, nt));
            assert(index_of(st[k2].ix as int, st[k2].iy as int, st[k2].it as int, nx, nt) == k2);
            assert(in_box(m.g, st[k2].ix as int, st[k2].iy as int, st[k2].it as int));
        }
        assert(vi.states@ =~= st);
    }
    let r = (iters, updates, converged);
    assert(frontier2d_result(old(vi).states@, old(vi).actions@, old(vi).cell_num_x as int, old(vi).cell_num_y as int,
                old(vi).cell_num_t as int, dm, hist, vi.states@, r.1, r.2, true)
            && hist.len() == r.0 && (r.2 || r.0 == max_iter));
    proof {
        let s0 = old(vi).states@;
        let acts = old(vi).actions@;
        let nx = old(vi).cell_num_x as int;
        let ny = old(vi).cell_num_y as int;
        let nt = old(vi).cell_num_t as int;
        if agree_ok(s0, acts, nt) && above_best(s0, acts, nx, ny, nt) && r.2 {
            let gs = lemma_pad_greatest(s0, acts, nx, ny, nt, dm, hist, vi.states@, r.1);
            assert(greatest_settled(gs, s0, acts, nx, ny, nt));
        }
    }
    r
}

} // verus!
