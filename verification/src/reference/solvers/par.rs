//! The Jacobi form of the padded 2-D frontier solver.  Each round first
//! computes, from one snapshot of the padded arrays, the lowered cost of every
//! candidate state, and only then writes them all; the order in which the
//! candidates are computed therefore cannot change the result.  The actions
//! are chosen once, from the final costs.
use vstd::prelude::*;
use crate::reference::params::MAX_COST;
use crate::reference::state::{Action, State};
use crate::reference::value_iterator::{StateSpace, index_of, states_ok, actions_ok, lemma_index_bound, lemma_index_inj,
    in_grid, updatable};
use crate::reference::solvers::fused::{Geom, geom_fits, pad_index, in_box, pad_of, lemma_pad_index, lemma_buckets,
    clamped_best};
use crate::reference::solvers::pad::{Padded, pad_best, lemma_pad_best, lemma_match_set, lemma_set_keeps_ok,
    lemma_clamped_best_le, action_cost_pad, same_cells};
use crate::reference::solvers::frontier::{is_displacement, abs_int, frontier_ok, lemma_frontier_offsets,
    seed_frontier_2d, seed_view2, lists_cells2, lemma_cells2_len, set_cell2};
use crate::bitboard::{Bitboard2D, fits2, empty_grid};
use crate::bitboard::ops::dilate_grid;
use crate::bitboard::enumerate::{set_cells2, lemma_count_empty2};
use crate::reference::solvers::settle::{capped, covered, settled, nonempty_outcomes, lemma_seed_covers, lemma_round_covers,
    lemma_empty_settles, cells_ok, lemma_listed_ok};
use crate::reference::solvers::greatest::{agree_ok, greatest_settled, lemma_jrounds_inv};

verus! {

/// The lowered costs of headings `0 .. k` of column `c` under `states`, in
/// order: index, clamped best cost and column of each free non-goal state
/// whose clamped best cost is below its cost.
pub open spec fn column_ups(states: Seq<State>, actions: Seq<Action>, c: (u32, u32), k: int, nx: int, ny: int, nt: int)
    -> Seq<(int, u64, u32, u32)>
    decreases k,
{
    if k <= 0 {
        Seq::empty()
    } else {
        let prev = column_ups(states, actions, c, k - 1, nx, ny, nt);
        let idx = index_of(c.0 as int, c.1 as int, k - 1, nx, nt);
        let b = clamped_best(states, actions, states[idx], nx, ny, nt).0;
        if updatable(states, idx) && b < states[idx].total_cost {
            prev.push((idx, b, c.0, c.1))
        } else {
            prev
        }
    }
}

/// The lowered costs of a Jacobi round over `cells`, all read from `states`.
pub open spec fn jacobi_ups(states: Seq<State>, actions: Seq<Action>, cells: Seq<(u32, u32)>, nx: int, ny: int, nt: int)
    -> Seq<(int, u64, u32, u32)>
    decreases cells.len(),
{
    if cells.len() == 0 {
        Seq::empty()
    } else {
        jacobi_ups(states, actions, cells.drop_last(), nx, ny, nt) + column_ups(states, actions, cells.last(), nt, nx, ny, nt)
    }
}

/// `states` with the costs of `ups` written in order.
pub open spec fn apply_ups(states: Seq<State>, ups: Seq<(int, u64, u32, u32)>) -> Seq<State>
    decreases ups.len(),
{
    if ups.len() == 0 {
        states
    } else {
        let p = apply_ups(states, ups.drop_last());
        let u = ups.last();
        p.update(u.0, State { total_cost: u.1, ..p[u.0] })
    }
}

/// The grid `g` with the column of each entry of `ups` set.
pub open spec fn ups_grid(g: Seq<Seq<bool>>, ups: Seq<(int, u64, u32, u32)>) -> Seq<Seq<bool>>
    decreases ups.len(),
{
    if ups.len() == 0 {
        g
    } else {
        set_cell2(ups_grid(g, ups.drop_last()), (ups.last().2, ups.last().3))
    }
}

/// One Jacobi round over `cells`: the states with the lowered costs written,
/// the columns where a cost fell, and how many costs fell.
pub open spec fn jround2(states: Seq<State>, actions: Seq<Action>, cells: Seq<(u32, u32)>, nx: int, ny: int, nt: int)
    -> (Seq<State>, Seq<Seq<bool>>, nat)
{
    let ups = jacobi_ups(states, actions, cells, nx, ny, nt);
    (apply_ups(states, ups), ups_grid(empty_grid(nx, ny), ups), ups.len())
}

/// The Jacobi rounds over the candidate lists of `hist`, from `states` and frontier `f`.
pub open spec fn jrounds2(states: Seq<State>, actions: Seq<Action>, f: Seq<Seq<bool>>, hist: Seq<Seq<(u32, u32)>>,
    nx: int, ny: int, nt: int) -> (Seq<State>, Seq<Seq<bool>>, nat)
    decreases hist.len(),
{
    if hist.len() == 0 {
        (states, f, 0)
    } else {
        let p = jrounds2(states, actions, f, hist.drop_last(), nx, ny, nt);
        let r = jround2(p.0, actions, hist.last(), nx, ny, nt);
        (r.0, r.1, p.2 + r.2)
    }
}

/// `hist` is a run of the Jacobi solver with displacement `m`: each round's
/// candidates are the dilated frontier, listed in storage order.
pub open spec fn jacobi_run2(states: Seq<State>, actions: Seq<Action>, f: Seq<Seq<bool>>, hist: Seq<Seq<(u32, u32)>>,
    nx: int, ny: int, nt: int, m: (int, int, int)) -> bool {
    forall|r: int| 0 <= r < hist.len() ==> {
        let p = #[trigger] jrounds2(states, actions, f, hist.take(r), nx, ny, nt);
        &&& set_cells2(p.1, nx, ny) != Set::<(int, int)>::empty()
        &&& lists_cells2(hist[r], dilate_grid(p.1, nx, ny, m.0, m.1), nx, ny)
    }
}

/// The states with the action of each free non-goal state set to its clamped
/// best action, and no action elsewhere.
pub open spec fn policy_of(states: Seq<State>, actions: Seq<Action>, nx: int, ny: int, nt: int) -> Seq<State> {
    Seq::new(states.len(), |k: int| State {
        optimal_action: if updatable(states, k) { clamped_best(states, actions, states[k], nx, ny, nt).1 } else { None },
        ..states[k]
    })
}

/// The Jacobi solver started from `states` ran the rounds `hist` and ended with
/// `states2` (the costs of the rounds, the actions chosen from them),
/// `updates` lowered costs and, when `converged`, an empty frontier.  When it
/// converged from costs of at most `MAX_COST`, with an outcome for every
/// action and heading, its costs are a fixed point of the clamped update: no
/// free cell outside the goal can be lowered.  Under [`agree_ok`] a converged
/// run ends at the greatest such fixed point below its start.
pub open spec fn par2d_result(states: Seq<State>, actions: Seq<Action>, nx: int, ny: int, nt: int, m: (int, int, int),
    hist: Seq<Seq<(u32, u32)>>, states2: Seq<State>, updates: u64, converged: bool) -> bool {
    let f0 = seed_view2(states, nx, ny, nt);
    let res = jrounds2(states, actions, f0, hist, nx, ny, nt);
    &&& is_displacement(actions, nt, m)
    &&& jacobi_run2(states, actions, f0, hist, nx, ny, nt, m)
    &&& states2 == policy_of(res.0, actions, nx, ny, nt)
    &&& updates == res.2
    &&& converged == (set_cells2(res.1, nx, ny) == Set::<(int, int)>::empty())
    &&& (capped(states) && nonempty_outcomes(actions, nt) && converged ==> settled(res.0, actions, nx, ny, nt))
    &&& (agree_ok(states, actions, nt) && converged ==> greatest_settled(res.0, states, actions, nx, ny, nt))
}

/// The entries of `r` are the lowered costs `ups` of states `st`, with each
/// state given by its padded index under `g`.
pub open spec fn ups_match(r: Seq<(usize, u64, u32, u32)>, ups: Seq<(int, u64, u32, u32)>, st: Seq<State>, g: Geom) -> bool {
    &&& r.len() == ups.len()
    &&& forall|i: int| 0 <= i < r.len() ==> {
        &&& 0 <= (#[trigger] ups[i]).0 < st.len()
        &&& r[i].0 == pad_of(st[ups[i].0], g)
        &&& ups[i].2 < g.nx
        &&& ups[i].3 < g.ny
        &&& r[i].1 == ups[i].1
        &&& r[i].2 == ups[i].2
        &&& r[i].3 == ups[i].3
        &&& ups[i].1 <= MAX_COST
    }
}

/// Requirements shared by the Jacobi steps: `m` holds `st` and is laid out for `acts`.
pub open spec fn par_ok(m: Padded, st: Seq<State>, acts: Seq<Action>) -> bool {
    &&& m.matches(st)
    &&& states_ok(st, m.g.nx as int, m.g.ny as int, m.g.nt as int)
    &&& actions_ok(acts, m.g.nx as int, m.g.ny as int, m.g.nt as int)
    &&& m.g.wf(acts)
    &&& m.g.pad_len() <= 0x7fff_ffff * 0x7fff_ffff
}

/// The clamped best cost and action of heading `it` of in-grid column `(ix, iy)`,
/// read through the padded arrays.
pub(crate) fn best_at(m: &Padded, ix: i32, iy: i32, it: i32, pad_col: i64, Ghost(st): Ghost<Seq<State>>, Ghost(acts): Ghost<Seq<Action>>)
    -> (r: (u64, Option<usize>))
    requires
        par_ok(*m, st, acts),
        0 <= ix < m.g.nx,
        0 <= iy < m.g.ny,
        0 <= it < m.g.nt,
        pad_col == pad_index(ix as int, iy as int, 0, m.g.nx as int, m.g.nt as int, m.g.mx as int, m.g.my as int),
    ensures
        r == clamped_best(st, acts, st[index_of(ix as int, iy as int, it as int, m.g.nx as int, m.g.nt as int)],
            m.g.nx as int, m.g.ny as int, m.g.nt as int),
        r.0 <= MAX_COST,
{
    let ghost nx = m.g.nx as int;
    let ghost ny = m.g.ny as int;
    let ghost nt = m.g.nt as int;
    let ghost idx = index_of(ix as int, iy as int, it as int, nx, nt);
    proof {
        lemma_index_bound(ix as int, iy as int, it as int, nx, ny, nt);
        let q = st[idx];
        assert(in_grid(q, nx, ny, nt));
        lemma_index_inj(q.ix as int, q.iy as int, q.it as int, ix as int, iy as int, it as int, nx, nt);
    }
    let na = m.g.precomp.len();
    let mut min_cost: u64 = MAX_COST;
    let mut min_action: Option<usize> = None;
    let mut ai: usize = 0;
    while ai < na
        invariant
            0 <= ai <= na,
            na == acts.len(),
            par_ok(*m, st, acts),
            0 <= ix < nx,
            0 <= iy < ny,
            0 <= it < nt,
            nx == m.g.nx,
            ny == m.g.ny,
            nt == m.g.nt,
            pad_col == pad_index(ix as int, iy as int, 0, nx, nt, m.g.mx as int, m.g.my as int),
            (min_cost, min_action) == pad_best(m.hot@, m.free@, m.g.precomp@, it as int, pad_col as int, ai as int),
        decreases na - ai,
    {
        proof {
            lemma_buckets(acts, m.g, ix as int, iy as int, it as int, ai as int);
        }
        let cost = action_cost_pad(&m.hot, &m.free, &m.g.precomp[ai][it as usize], pad_col);
        if cost < min_cost {
            min_cost = cost;
            min_action = Some(ai);
        }
        ai += 1;
    }
    proof {
        lemma_pad_best(st, acts, *m, idx, na as int);
        assert(acts.take(na as int) =~= acts);
        lemma_clamped_best_le(st, acts, st[idx], nx, ny, nt);
    }
    (min_cost, min_action)
}

/// One Jacobi round, computed without writing: the lowered costs of the free
/// non-goal states of the `candidates` columns, from the snapshot `m`.
fn compute_round(m: &Padded, candidates: &Vec<(u32, u32)>, Ghost(st): Ghost<Seq<State>>, Ghost(acts): Ghost<Seq<Action>>)
    -> (r: Vec<(usize, u64, u32, u32)>)
    requires
        par_ok(*m, st, acts),
        forall|i: int| 0 <= i < candidates@.len() ==> (#[trigger] candidates@[i]).0 < m.g.nx && candidates@[i].1 < m.g.ny,
    ensures
        ups_match(r@, jacobi_ups(st, acts, candidates@, m.g.nx as int, m.g.ny as int, m.g.nt as int), st, m.g),
{
    let ghost nx = m.g.nx as int;
    let ghost ny = m.g.ny as int;
    let ghost nt = m.g.nt as int;
    let ghost cv = candidates@;
    let mut ups: Vec<(usize, u64, u32, u32)> = Vec::new();
    let mut j: usize = 0;
    while j < candidates.len()
        invariant
            0 <= j <= cv.len(),
            cv == candidates@,
            par_ok(*m, st, acts),
            nx == m.g.nx,
            ny == m.g.ny,
            nt == m.g.nt,
            forall|i: int| 0 <= i < cv.len() ==> (#[trigger] cv[i]).0 < nx && cv[i].1 < ny,
            ups_match(ups@, jacobi_ups(st, acts, cv.take(j as int), nx, ny, nt), st, m.g),
        decreases cv.len() - j,
    {
        let c = candidates[j];
        let ghost base = jacobi_ups(st, acts, cv.take(j as int), nx, ny, nt);
        proof {
            assert(cv[j as int] == c);
            assert(cv.take(j + 1).drop_last() =~= cv.take(j as int));
            assert(cv.take(j + 1).last() == c);
        }
        let pad_col = m.pad_col(c.0 as i32, c.1 as i32);
        let mut it: i32 = 0;
        while it < m.g.nt
            invariant
                0 <= it <= nt,
                par_ok(*m, st, acts),
                nx == m.g.nx,
                ny == m.g.ny,
                nt == m.g.nt,
                c.0 < nx,
                c.1 < ny,
                pad_col == pad_index(c.0 as int, c.1 as int, 0, nx, nt, m.g.mx as int, m.g.my as int),
                ups_match(ups@, base + column_ups(st, acts, c, it as int, nx, ny, nt), st, m.g),
            decreases nt - it,
        {
            let ghost idx = index_of(c.0 as int, c.1 as int, it as int, nx, nt);
            let ghost prev = base + column_ups(st, acts, c, it as int, nx, ny, nt);
            proof {
                lemma_index_bound(c.0 as int, c.1 as int, it as int, nx, ny, nt);
                let q = st[idx];
                assert(in_grid(q, nx, ny, nt));
                lemma_index_inj(q.ix as int, q.iy as int, q.it as int, c.0 as int, c.1 as int, it as int, nx, nt);
                assert(in_box(m.g, c.0 as int, c.1 as int, it as int));
                lemma_pad_index(m.g, c.0 as int, c.1 as int, it as int, c.0 as int, c.1 as int, it as int);
                assert(pad_col + it == pad_of(q, m.g));
            }
            let pad_idx = (pad_col + it as i64) as usize;
            if m.free[pad_idx] && !m.finals[pad_idx] {
                let before = m.hot[pad_idx].0;
                let (min_cost, _) = best_at(m, c.0 as i32, c.1 as i32, it, pad_col, Ghost(st), Ghost(acts));
                if min_cost < before {
                    ups.push((pad_idx, min_cost, c.0, c.1));
                    proof {
                        assert(base + column_ups(st, acts, c, it + 1, nx, ny, nt) =~= prev.push((idx, min_cost, c.0, c.1)));
                    }
                } else {
                    proof {
                        assert(base + column_ups(st, acts, c, it + 1, nx, ny, nt) =~= prev);
                    }
                }
            } else {
                proof {
                    assert(base + column_ups(st, acts, c, it + 1, nx, ny, nt) =~= prev);
                }
            }
            it += 1;
        }
        j += 1;
    }
    proof {
        assert(cv.take(cv.len() as int) =~= cv);
    }
    ups
}

/// The clamped best action of every state, read through the padded arrays, in
/// storage order; `None` for a cell that is not free or is a goal cell.
pub fn final_policy(m: &Padded, Ghost(st): Ghost<Seq<State>>, Ghost(acts): Ghost<Seq<Action>>) -> (r: Vec<Option<usize>>)
    requires
        par_ok(*m, st, acts),
    ensures
        r@.len() == st.len(),
        forall|k: int| 0 <= k < st.len() ==> #[trigger] r@[k]
            == if updatable(st, k) { clamped_best(st, acts, st[k], m.g.nx as int, m.g.ny as int, m.g.nt as int).1 } else { None },
{
    let ghost nx = m.g.nx as int;
    let ghost ny = m.g.ny as int;
    let ghost nt = m.g.nt as int;
    let mut opt: Vec<Option<usize>> = Vec::new();
    let mut iy: i32 = 0;
    while iy < m.g.ny
        invariant
            0 <= iy <= ny,
            par_ok(*m, st, acts),
            nx == m.g.nx,
            ny == m.g.ny,
            nt == m.g.nt,
            opt@.len() == iy * nx * nt,
            forall|k: int| 0 <= k < opt@.len() ==> #[trigger] opt@[k]
                == if updatable(st, k) { clamped_best(st, acts, st[k], nx, ny, nt).1 } else { None },
        decreases ny - iy,
    {
        let mut ix: i32 = 0;
        while ix < m.g.nx
            invariant
                0 <= iy < ny,
                0 <= ix <= nx,
                par_ok(*m, st, acts),
                nx == m.g.nx,
                ny == m.g.ny,
                nt == m.g.nt,
                opt@.len() == iy * nx * nt + ix * nt,
                forall|k: int| 0 <= k < opt@.len() ==> #[trigger] opt@[k]
                    == if updatable(st, k) { clamped_best(st, acts, st[k], nx, ny, nt).1 } else { None },
            decreases nx - ix,
        {
            let pad_col = m.pad_col(ix, iy);
            let mut it: i32 = 0;
            while it < m.g.nt
                invariant
                    0 <= iy < ny,
                    0 <= ix < nx,
                    0 <= it <= nt,
                    par_ok(*m, st, acts),
                    nx == m.g.nx,
                    ny == m.g.ny,
                    nt == m.g.nt,
                    pad_col == pad_index(ix as int, iy as int, 0, nx, nt, m.g.mx as int, m.g.my as int),
                    opt@.len() == iy * nx * nt + ix * nt + it,
                    forall|k: int| 0 <= k < opt@.len() ==> #[trigger] opt@[k]
                        == if updatable(st, k) { clamped_best(st, acts, st[k], nx, ny, nt).1 } else { None },
                decreases nt - it,
            {
                let ghost idx = index_of(ix as int, iy as int, it as int, nx, nt);
                proof {
                    lemma_index_bound(ix as int, iy as int, it as int, nx, ny, nt);
                    assert(idx == iy * nx * nt + ix * nt + it) by (nonlinear_arith)
                        requires idx == index_of(ix as int, iy as int, it as int, nx, nt);
                    let q = st[idx];
                    assert(in_grid(q, nx, ny, nt));
                    lemma_index_inj(q.ix as int, q.iy as int, q.it as int, ix as int, iy as int, it as int, nx, nt);
                    assert(in_box(m.g, ix as int, iy as int, it as int));
                    lemma_pad_index(m.g, ix as int, iy as int, it as int, ix as int, iy as int, it as int);
                    assert(pad_col + it == pad_of(q, m.g));
                }
                let pad_idx = (pad_col + it as i64) as usize;
                if !m.free[pad_idx] || m.finals[pad_idx] {
                    opt.push(None);
                } else {
                    let (_, a) = best_at(m, ix, iy, it, pad_col, Ghost(st), Ghost(acts));
                    opt.push(a);
                }
                it += 1;
            }
            proof {
                assert(iy * nx * nt + ix * nt + nt == iy * nx * nt + (ix + 1) * nt) by (nonlinear_arith);
            }
            ix += 1;
        }
        proof {
            assert(iy * nx * nt + nx * nt == (iy + 1) * nx * nt) by (nonlinear_arith);
        }
        iy += 1;
    }
    proof {
        assert(st.len() == nx * ny * nt);
        assert(ny * nx * nt == nx * ny * nt) by (nonlinear_arith);
    }
    opt
}

/// A column gives at most one lowered cost per heading, a round at most one per
/// heading of each candidate.
proof fn lemma_ups_len(states: Seq<State>, actions: Seq<Action>, cells: Seq<(u32, u32)>, nx: int, ny: int, nt: int)
    requires
        0 <= nt,
    ensures
        jacobi_ups(states, actions, cells, nx, ny, nt).len() <= cells.len() * nt,
    decreases cells.len(),
{
    if cells.len() > 0 {
        lemma_ups_len(states, actions, cells.drop_last(), nx, ny, nt);
        lemma_column_ups_len(states, actions, cells.last(), nt, nx, ny, nt);
        assert((cells.len() - 1) * nt + nt == cells.len() * nt) by (nonlinear_arith);
    }
}

proof fn lemma_column_ups_len(states: Seq<State>, actions: Seq<Action>, c: (u32, u32), k: int, nx: int, ny: int, nt: int)
    requires
        0 <= k,
    ensures
        column_ups(states, actions, c, k, nx, ny, nt).len() <= k,
    decreases k,
{
    if k > 0 {
        lemma_column_ups_len(states, actions, c, k - 1, nx, ny, nt);
    }
}

/// Frontier solver over 2-D columns on the padded arrays, in Jacobi rounds:
/// each round computes the clamped best cost of every free non-goal state of
/// the candidate columns from the costs the round started with, then writes the
/// lowered ones; the frontier is the set of columns where a cost fell.  The
/// actions are chosen once at the end, from the final costs.
pub fn frontier2d_par_solve(vi: &mut StateSpace, max_iter: u32) -> (r: (u32, u64, bool))
    requires
        old(vi).wf(),
        frontier_ok(old(vi).actions@),
        fits2(old(vi).cell_num_x as u32, old(vi).cell_num_y as u32),
        forall|d: (int, int, int)| is_displacement(old(vi).actions@, old(vi).cell_num_t as int, d)
            ==> #[trigger] geom_fits(old(vi).cell_num_x as int, old(vi).cell_num_y as int, old(vi).cell_num_t as int, d.0, d.1),
    ensures
        final(vi).wf(),
        final(vi).actions@ == old(vi).actions@,
        final(vi).cell_num_x == old(vi).cell_num_x,
        final(vi).cell_num_y == old(vi).cell_num_y,
        final(vi).cell_num_t == old(vi).cell_num_t,
        r.0 <= max_iter,
        exists|m: (int, int, int), hist: Seq<Seq<(u32, u32)>>|
            #[trigger] par2d_result(old(vi).states@, old(vi).actions@, old(vi).cell_num_x as int, old(vi).cell_num_y as int,
                old(vi).cell_num_t as int, m, hist, final(vi).states@, r.1, r.2)
            && hist.len() == r.0 && (r.2 || r.0 == max_iter),
{
    let ghost s0 = vi.states@;
    let ghost acts = vi.actions@;
    let ghost nx = vi.cell_num_x as int;
    let ghost ny = vi.cell_num_y as int;
    let ghost nt = vi.cell_num_t as int;
    let ghost big_n = nx * ny * nt;
    let cnx = vi.cell_num_x;
    let cny = vi.cell_num_y;
    let cnt = vi.cell_num_t;
    proof {
        lemma_frontier_offsets(acts, nx, ny, nt);
    }
    let mut m = Padded::build(vi);
    let mx = m.g.mx;
    let my = m.g.my;
    let ghost mt = choose|mt: int| is_displacement(acts, nt, (mx as int, my as int, mt));
    let ghost dm = (mx as int, my as int, mt);
    proof {
        if mx != 1 {
            let (a, t, k) = choose|a: int, t: int, k: int| 0 <= a < acts.len() && 0 <= t < acts[a].state_transitions@.len()
                && 0 <= k < acts[a].state_transitions@[t]@.len() && abs_int((#[trigger] acts[a].state_transitions@[t]@[k]).dix as int) == dm.0;
            assert(-63 <= acts[a].state_transitions@[t]@[k].dix <= 63);
        }
        assert(0 <= m.g.row_stride) by (nonlinear_arith)
            requires m.g.row_stride == m.g.nt * (m.g.nx + 2 * m.g.mx), 0 <= m.g.nt, 0 < m.g.nx + 2 * m.g.mx;
        assert(m.g.pad_len() <= 0x7fff_ffff * 0x7fff_ffff) by (nonlinear_arith)
            requires 0 <= m.g.row_stride <= 0x7fff_ffff, 0 <= m.g.ny + 2 * m.g.my <= 0x7fff_ffff,
                m.g.pad_len() == m.g.row_stride * (m.g.ny + 2 * m.g.my);
    }
    let ghost mut st = s0;
    let mut frontier = seed_frontier_2d(vi);
    let ghost f0 = frontier@;
    proof {
        if capped(s0) && nonempty_outcomes(acts, nt) {
            lemma_seed_covers(s0, acts, nx, ny, nt, dm);
        }
    }
    let mut updates: u64 = 0;
    let mut iters: u32 = 0;
    let ghost mut hist: Seq<Seq<(u32, u32)>> = Seq::empty();
    while frontier.popcount() > 0 && iters < max_iter
        invariant
            vi.wf(),
            vi.states@ == s0,
            vi.actions@ == acts,
            vi.cell_num_x == cnx,
            vi.cell_num_y == cny,
            vi.cell_num_t == cnt,
            nx == cnx,
            ny == cny,
            nt == cnt,
            big_n == nx * ny * nt,
            fits2(cnx as u32, cny as u32),
            states_ok(s0, nx, ny, nt),
            par_ok(m, st, acts),
            m.g.nx == cnx,
            m.g.ny == cny,
            m.g.nt == cnt,
            m.g.mx == mx,
            m.g.my == my,
            same_cells(s0, st),
            frontier.wf(),
            frontier.width() == nx,
            frontier.height() == ny,
            is_displacement(acts, nt, dm),
            dm == (mx as int, my as int, mt),
            mx < 64,
            f0 == seed_view2(s0, nx, ny, nt),
            hist.len() == iters,
            iters <= max_iter,
            jacobi_run2(s0, acts, f0, hist, nx, ny, nt, dm),
            st == jrounds2(s0, acts, f0, hist, nx, ny, nt).0,
            frontier@ == jrounds2(s0, acts, f0, hist, nx, ny, nt).1,
            updates == jrounds2(s0, acts, f0, hist, nx, ny, nt).2,
            forall|a: int| 0 <= a < acts.len() ==> (#[trigger] acts[a]).state_transitions@.len() == nt,
            capped(s0) && nonempty_outcomes(acts, nt) ==> capped(st) && covered(st, acts, frontier@, nx, ny, nt, dm),
            updates <= iters * big_n,
        decreases max_iter - iters,
    {
        let ghost p = jrounds2(s0, acts, f0, hist, nx, ny, nt);
        proof {
            frontier.lemma_shape();
            lemma_count_empty2(frontier@, nx, ny);
            assert(exists|c: (int, int)| set_cells2(frontier@, nx, ny).contains(c)) by {
                if !(exists|c: (int, int)| set_cells2(frontier@, nx, ny).contains(c)) {
                    assert(set_cells2(frontier@, nx, ny) =~= Set::<(int, int)>::empty());
                }
            }
            let c = choose|c: (int, int)| set_cells2(frontier@, nx, ny).contains(c);
            assert(set_cells2(frontier@, nx, ny).contains(c));
        }
        iters += 1;
        let candidates = frontier.dilate(mx as u32, my as u32);
        let cand = candidates.enumerate();
        let ghost cv = cand@;
        proof {
            assert(lists_cells2(cv, dilate_grid(p.1, nx, ny, dm.0, dm.1), nx, ny));
            lemma_cells2_len(cv, dilate_grid(p.1, nx, ny, dm.0, dm.1), nx, ny);
            assert((iters - 1) * big_n + big_n == iters * big_n) by (nonlinear_arith);
            assert(iters * big_n <= 0x8000_0000_0000_0000) by (nonlinear_arith)
                requires iters <= u32::MAX, big_n <= i32::MAX, 0 <= big_n;
            assert(cv.len() * nt <= big_n) by (nonlinear_arith) requires cv.len() <= nx * ny, big_n == nx * ny * nt, 0 <= nt;
            assert forall|i: int| 0 <= i < cv.len() implies (#[trigger] cv[i]).0 < nx && cv[i].1 < ny by {
                assert(set_cells2(dilate_grid(p.1, nx, ny, dm.0, dm.1), nx, ny).contains((cv[i].0 as int, cv[i].1 as int)));
            }
        }
        let ups = compute_round(&m, &cand, Ghost(st), Ghost(acts));
        let ghost sp = st;
        let ghost uv = jacobi_ups(sp, acts, cv, nx, ny, nt);
        proof {
            lemma_ups_len(sp, acts, cv, nx, ny, nt);
        }
        let mut new_frontier = Bitboard2D::new(cnx as u32, cny as u32);
        let ghost u0 = updates;
        let mut i: usize = 0;
        while i < ups.len()
            invariant
                0 <= i <= uv.len(),
                ups_match(ups@, uv, sp, m.g),
                uv.len() <= big_n,
                u0 + big_n <= 0x8000_0000_0000_0000,
                updates == u0 + i,
                par_ok(m, st, acts),
                m.g.nx == cnx,
                m.g.ny == cny,
                m.g.nt == cnt,
                m.g.mx == mx,
                m.g.my == my,
                nx == cnx,
                ny == cny,
                nt == cnt,
                same_cells(s0, st),
                same_cells(s0, sp),
                st.len() == sp.len(),
                st == apply_ups(sp, uv.take(i as int)),
                new_frontier.wf(),
                new_frontier.width() == nx,
                new_frontier.height() == ny,
                new_frontier@ == ups_grid(empty_grid(nx, ny), uv.take(i as int)),
            decreases uv.len() - i,
        {
            let (pad_idx, min_cost, ixu, iyu) = ups[i];
            let ghost u = uv[i as int];
            proof {
                assert(uv.take(i + 1).drop_last() =~= uv.take(i as int));
                assert(uv.take(i + 1).last() == u);
                assert(st[u.0] == (State { total_cost: st[u.0].total_cost, optimal_action: st[u.0].optimal_action, ..s0[u.0] }));
                assert(sp[u.0] == (State { total_cost: sp[u.0].total_cost, optimal_action: sp[u.0].optimal_action, ..s0[u.0] }));
                assert(pad_of(st[u.0], m.g) == pad_of(sp[u.0], m.g));
                lemma_match_set(m.hot@, m.free@, m.finals@, st, m.g, u.0, min_cost, st[u.0].optimal_action);
                lemma_set_keeps_ok(st, nx, ny, nt, u.0, min_cost, st[u.0].optimal_action);
            }
            let pen = m.hot[pad_idx].1;
            m.hot.set(pad_idx, (min_cost, pen));
            updates += 1;
            new_frontier.set(ixu, iyu);
            proof {
                let st2 = st.update(u.0, State { total_cost: min_cost, ..st[u.0] });
                assert(st2 == st.update(u.0, State { total_cost: min_cost, optimal_action: st[u.0].optimal_action, ..st[u.0] }));
                assert forall|k2: int| 0 <= k2 < s0.len() implies #[trigger] st2[k2]
                    == (State { total_cost: st2[k2].total_cost, optimal_action: st2[k2].optimal_action, ..s0[k2] }) by {
                    assert(st[k2] == (State { total_cost: st[k2].total_cost, optimal_action: st[k2].optimal_action, ..s0[k2] }));
                }
                st = st2;
            }
            i += 1;
        }
        proof {
            assert(uv.take(uv.len() as int) =~= uv);
            if capped(s0) && nonempty_outcomes(acts, nt) {
                lemma_round_covers(sp, acts, p.1, cv, nx, ny, nt, dm);
            }
            let h2 = hist.push(cv);
            assert(h2.drop_last() =~= hist);
            assert forall|r: int| 0 <= r < h2.len() implies {
                let q = #[trigger] jrounds2(s0, acts, f0, h2.take(r), nx, ny, nt);
                &&& set_cells2(q.1, nx, ny) != Set::<(int, int)>::empty()
                &&& lists_cells2(h2[r], dilate_grid(q.1, nx, ny, dm.0, dm.1), nx, ny)
            } by {
                if r < hist.len() {
                    assert(h2.take(r) =~= hist.take(r));
                    assert(jrounds2(s0, acts, f0, hist.take(r), nx, ny, nt) == jrounds2(s0, acts, f0, h2.take(r), nx, ny, nt));
                } else {
                    assert(h2.take(r) =~= hist);
                }
            }
            hist = h2;
        }
        frontier = new_frontier;
    }
    let converged = frontier.popcount() == 0;
    proof {
        frontier.lemma_shape();
        lemma_count_empty2(frontier@, nx, ny);
        if capped(s0) && nonempty_outcomes(acts, nt) && converged {
            lemma_empty_settles(st, acts, frontier@, nx, ny, nt, dm);
        }
        if agree_ok(s0, acts, nt) && converged {
            assert forall|r: int| 0 <= r < hist.len() implies cells_ok(#[trigger] hist[r], nx, ny) by {
                let q = jrounds2(s0, acts, f0, hist.take(r), nx, ny, nt);
                lemma_listed_ok(hist[r], dilate_grid(q.1, nx, ny, dm.0, dm.1), nx, ny);
            }
            lemma_jrounds_inv(s0, acts, f0, hist, nx, ny, nt);
        }
    }
    let opt = final_policy(&m, Ghost(st), Ghost(acts));
    m.write_back(vi, Some(&opt));
    proof {
        let fin = policy_of(st, acts, nx, ny, nt);
        assert forall|k2: int| 0 <= k2 < s0.len() implies #[trigger] vi.states@[k2] == fin[k2] by {
            assert(st[k2] == (State { total_cost: st[k2].total_cost, optimal_action: st[k2].optimal_action, ..s0[k2] }));
            assert(pad_of(s0[k2], m.g) == pad_of(st[k2], m.g));
            assert(in_grid(st[k2], nx, ny, nt));
            assert(in_box(m.g, st[k2].ix as int, st[k2].iy as int, st[k2].it as int));
        }
        assert(vi.states@ =~= fin);
        assert forall|k2: int| 0 <= k2 < fin.len() implies {
            &&& in_grid(#[trigger] fin[k2], nx, ny, nt)
            &&& index_of(fin[k2].ix as int, fin[k2].iy as int, fin[k2].it as int, nx, nt) == k2
            &&& fin[k2].total_cost <= i64::MAX
        } by {
            assert(in_grid(st[k2], nx, ny, nt));
        }
    }
    let r = (iters, updates, converged);
    assert(par2d_result(old(vi).states@, old(vi).actions@, old(vi).cell_num_x as int, old(vi).cell_num_y as int,
                old(vi).cell_num_t as int, dm, hist, vi.states@, r.1, r.2)
            && hist.len() == r.0 && (r.2 || r.0 == max_iter));
    r
}

} // verus!
