//! Block-scheduled value iteration: the grid is cut into square blocks of
//! columns, and each round re-evaluates, a few times over, every cell of the
//! passable blocks near a block that changed in the previous round.  The
//! schedule is coarse; the backup is the per-state update itself.
use vstd::prelude::*;
use crate::reference::params::MAX_COST;
use crate::reference::state::{Action, State};
use crate::reference::value_iterator::{StateSpace, index_of, update_at, states_ok, lemma_update_keeps, lemma_index_bound,
    value_iteration_raw, actions_ok};
use crate::reference::solvers::frontier::{displacement, is_displacement, offsets_ok};
use vstd::arithmetic::div_mod::{lemma_fundamental_div_mod, lemma_mod_pos_bound, lemma_fundamental_div_mod_converse, lemma_div_pos_is_pos};

verus! {

/// The flat indices of the headings of column `(ix, iy)`, in storage order.
pub open spec fn column_run(ix: int, iy: int, nx: int, nt: int) -> Seq<int> {
    Seq::new(nt as nat, |t: int| index_of(ix, iy, t, nx, nt))
}

/// The columns `x0 ..= x1` of row `iy`, in storage order.
pub open spec fn row_run(x0: int, x1: int, iy: int, nx: int, nt: int) -> Seq<int>
    decreases x1 - x0 + 1,
{
    if x1 < x0 {
        Seq::empty()
    } else {
        row_run(x0, x1 - 1, iy, nx, nt) + column_run(x1, iy, nx, nt)
    }
}

/// The rows `y0 ..= y1` of the rectangle of columns `x0 ..= x1`, in storage order.
pub open spec fn rect_run(x0: int, x1: int, y0: int, y1: int, nx: int, nt: int) -> Seq<int>
    decreases y1 - y0 + 1,
{
    if y1 < y0 {
        Seq::empty()
    } else {
        rect_run(x0, x1, y0, y1 - 1, nx, nt) + row_run(x0, x1, y1, nx, nt)
    }
}

/// `r` repeated `p` times.
pub open spec fn repeat_run(r: Seq<int>, p: nat) -> Seq<int>
    decreases p,
{
    if p == 0 {
        Seq::empty()
    } else {
        repeat_run(r, (p - 1) as nat) + r
    }
}

/// The states after the per-state updates of the indices of `run`, in order.
pub open spec fn apply_run(states: Seq<State>, actions: Seq<Action>, run: Seq<int>, nx: int, ny: int, nt: int) -> Seq<State>
    decreases run.len(),
{
    if run.len() == 0 {
        states
    } else {
        update_at(apply_run(states, actions, run.drop_last(), nx, ny, nt), actions, run.last(), nx, ny, nt)
    }
}

/// How many of the updates of `run` lowered the cost they touched.
pub open spec fn fall_count(states: Seq<State>, actions: Seq<Action>, run: Seq<int>, nx: int, ny: int, nt: int) -> nat
    decreases run.len(),
{
    if run.len() == 0 {
        0
    } else {
        let prev = apply_run(states, actions, run.drop_last(), nx, ny, nt);
        let i = run.last();
        fall_count(states, actions, run.drop_last(), nx, ny, nt)
            + if update_at(prev, actions, i, nx, ny, nt)[i].total_cost < prev[i].total_cost { 1nat } else { 0nat }
    }
}

/// Updates along a run of valid indices keep the layout invariant.
pub proof fn lemma_apply_keeps(states: Seq<State>, actions: Seq<Action>, run: Seq<int>, nx: int, ny: int, nt: int)
    requires
        states_ok(states, nx, ny, nt),
        actions.len() <= usize::MAX,
        forall|k: int| 0 <= k < run.len() ==> 0 <= #[trigger] run[k] < states.len(),
    ensures
        states_ok(apply_run(states, actions, run, nx, ny, nt), nx, ny, nt),
        apply_run(states, actions, run, nx, ny, nt).len() == states.len(),
        fall_count(states, actions, run, nx, ny, nt) <= run.len(),
    decreases run.len(),
{
    if run.len() > 0 {
        let r2 = run.drop_last();
        assert forall|k: int| 0 <= k < r2.len() implies 0 <= #[trigger] r2[k] < states.len() by {
            assert(r2[k] == run[k]);
        }
        lemma_apply_keeps(states, actions, r2, nx, ny, nt);
        assert(run.last() == run[run.len() - 1]);
        lemma_update_keeps(apply_run(states, actions, r2, nx, ny, nt), actions, run.last(), nx, ny, nt);
    }
}

/// `a / b` rounded up.
pub open spec fn cdiv(a: int, b: int) -> int {
    (a + b - 1) / b
}

/// The block of column `(ix, iy)` in a row-major layout of `nbx` blocks per row.
pub open spec fn block_of(ix: int, iy: int, block: int, nbx: int) -> int {
    (iy / block) * nbx + ix / block
}

/// Block `j` holds a free cell.
pub open spec fn has_free(states: Seq<State>, block: int, nbx: int, j: int) -> bool {
    exists|i: int| 0 <= i < states.len() && (#[trigger] states[i]).free
        && block_of(states[i].ix as int, states[i].iy as int, block, nbx) == j
}

/// Block `j` holds a cell whose cost is below `MAX_COST`.
pub open spec fn has_reached(states: Seq<State>, block: int, nbx: int, j: int) -> bool {
    exists|i: int| 0 <= i < states.len() && (#[trigger] states[i]).total_cost < MAX_COST
        && block_of(states[i].ix as int, states[i].iy as int, block, nbx) == j
}

/// The blocks that hold a free cell.
pub open spec fn passable_blocks(states: Seq<State>, block: int, nbx: int, nb: int) -> Seq<bool> {
    Seq::new(nb as nat, |j: int| has_free(states, block, nbx, j))
}

/// The blocks that hold a cell whose cost is below `MAX_COST`.
pub open spec fn seed_blocks(states: Seq<State>, block: int, nbx: int, nb: int) -> Seq<bool> {
    Seq::new(nb as nat, |j: int| has_reached(states, block, nbx, j))
}

/// Floor division of a non-negative number splits it into quotient and remainder.
proof fn lemma_floor(a: int, b: int)
    requires
        0 <= a,
        0 < b,
    ensures
        0 <= a / b,
        (a / b) * b <= a < (a / b) * b + b,
{
    lemma_fundamental_div_mod(a, b);
    lemma_mod_pos_bound(a, b);
    assert(b * (a / b) == (a / b) * b) by (nonlinear_arith);
    lemma_div_pos_is_pos(a, b);
}

/// `cdiv(a, b)` blocks of width `b` cover `0 .. a` and no more than `a` are needed.
proof fn lemma_cdiv(a: int, b: int)
    requires
        0 <= a,
        0 < b,
    ensures
        0 <= cdiv(a, b),
        cdiv(a, b) * b >= a,
        (cdiv(a, b) - 1) * b < a || a == 0,
        1 <= a ==> cdiv(a, b) <= a,
        a == 0 ==> cdiv(a, b) == 0,
        cdiv(a, b) * b <= a + b - 1,
{
    lemma_floor(a + b - 1, b);
    let q = cdiv(a, b);
    assert(q * b - b == (q - 1) * b) by (nonlinear_arith);
    if 1 <= a {
        assert(q <= a) by (nonlinear_arith) requires q * b <= a + b - 1, 1 <= a, 0 < b;
    }
    if a == 0 {
        assert(q == 0) by (nonlinear_arith) requires q * b <= b - 1, b - 1 < q * b + b, 0 <= q, 0 < b;
    }
}

/// A coordinate below `a` falls in one of the `cdiv(a, b)` blocks.
proof fn lemma_block_index(x: int, a: int, b: int)
    requires
        0 <= x < a,
        0 < b,
    ensures
        0 <= x / b < cdiv(a, b),
{
    lemma_floor(x, b);
    lemma_cdiv(a, b);
    let q = cdiv(a, b);
    assert(x / b < q) by (nonlinear_arith) requires (x / b) * b <= x, x < a, a <= q * b, 0 < b;
}

/// The flat block index lies in `0 .. nbx * nby`.
proof fn lemma_flat(bx: int, by: int, nbx: int, nby: int)
    requires
        0 <= bx < nbx,
        0 <= by < nby,
    ensures
        0 <= by * nbx + bx < nbx * nby,
        (by * nbx + bx) % nbx == bx,
        (by * nbx + bx) / nbx == by,
{
    assert(0 <= by * nbx) by (nonlinear_arith) requires 0 <= by, 0 < nbx;
    assert(by * nbx + bx < nbx * nby) by (nonlinear_arith) requires 0 <= bx < nbx, 0 <= by < nby;
    lemma_fundamental_div_mod_converse(by * nbx + bx, nbx, by, bx);
}

/// The blocks that hold a free cell, and those that hold a reached cell.
fn block_marks(states: &Vec<State>, nx: i32, ny: i32, nt: i32, block: i64, nbx: i64, nby: i64) -> (r: (Vec<bool>, Vec<bool>))
    requires
        states_ok(states@, nx as int, ny as int, nt as int),
        states@.len() > 0,
        1 <= block <= i32::MAX,
        nbx == cdiv(nx as int, block as int),
        nby == cdiv(ny as int, block as int),
    ensures
        r.0@ == passable_blocks(states@, block as int, nbx as int, nbx * nby),
        r.1@ == seed_blocks(states@, block as int, nbx as int, nbx * nby),
        nbx * nby <= nx * ny,
{
    let ghost n = states@.len();
    proof {
        assert(nx > 0 && ny > 0 && nt > 0) by (nonlinear_arith)
            requires n == nx * ny * nt, n > 0, nx >= 0, ny >= 0, nt >= 0;
        lemma_cdiv(nx as int, block as int);
        lemma_cdiv(ny as int, block as int);
        assert(nbx * nby <= nx * ny) by (nonlinear_arith) requires 0 <= nbx <= nx, 0 <= nby <= ny;
        assert(nx * ny <= nx * ny * nt) by (nonlinear_arith) requires nx > 0, ny > 0, nt > 0;
        assert(0 <= nbx * nby) by (nonlinear_arith) requires 0 <= nbx, 0 <= nby;
    }
    let nb = (nbx * nby) as usize;
    let mut passable: Vec<bool> = Vec::new();
    let mut seed: Vec<bool> = Vec::new();
    let mut k: usize = 0;
    while k < nb
        invariant
            0 <= k <= nb,
            passable@.len() == k,
            seed@.len() == k,
            forall|j: int| 0 <= j < k ==> !(#[trigger] passable@[j]),
            forall|j: int| 0 <= j < k ==> !(#[trigger] seed@[j]),
        decreases nb - k,
    {
        passable.push(false);
        seed.push(false);
        k += 1;
    }
    let mut i: usize = 0;
    while i < states.len()
        invariant
            0 <= i <= states@.len(),
            nb == nbx * nby,
            0 <= nbx * nby <= i32::MAX,
            passable@.len() == nb,
            seed@.len() == nb,
            states_ok(states@, nx as int, ny as int, nt as int),
            1 <= block <= i32::MAX,
            nbx == cdiv(nx as int, block as int),
            nby == cdiv(ny as int, block as int),
            forall|j: int| 0 <= j < nb ==> (#[trigger] passable@[j] <==> exists|i2: int| 0 <= i2 < i && (#[trigger] states@[i2]).free
                && block_of(states@[i2].ix as int, states@[i2].iy as int, block as int, nbx as int) == j),
            forall|j: int| 0 <= j < nb ==> (#[trigger] seed@[j] <==> exists|i2: int| 0 <= i2 < i && (#[trigger] states@[i2]).total_cost < MAX_COST
                && block_of(states@[i2].ix as int, states@[i2].iy as int, block as int, nbx as int) == j),
        decreases states@.len() - i,
    {
        let s = states[i];
        proof {
            lemma_block_index(s.ix as int, nx as int, block as int);
            lemma_block_index(s.iy as int, ny as int, block as int);
            lemma_flat(s.ix as int / block as int, s.iy as int / block as int, nbx as int, nby as int);
        }
        let b = ((s.iy as i64 / block) * nbx + (s.ix as i64 / block)) as usize;
        assert(b as int == block_of(s.ix as int, s.iy as int, block as int, nbx as int));
        if s.free {
            passable.set(b, true);
        }
        if s.total_cost < MAX_COST {
            seed.set(b, true);
        }
        proof {
            assert forall|j: int| 0 <= j < nb implies (#[trigger] passable@[j] <==> exists|i2: int| 0 <= i2 < i + 1 && (#[trigger] states@[i2]).free
                && block_of(states@[i2].ix as int, states@[i2].iy as int, block as int, nbx as int) == j) by {
                if passable@[j] && !(exists|i2: int| 0 <= i2 < i && (#[trigger] states@[i2]).free
                    && block_of(states@[i2].ix as int, states@[i2].iy as int, block as int, nbx as int) == j) {
                    assert(states@[i as int] == s);
                }
            }
            assert forall|j: int| 0 <= j < nb implies (#[trigger] seed@[j] <==> exists|i2: int| 0 <= i2 < i + 1 && (#[trigger] states@[i2]).total_cost < MAX_COST
                && block_of(states@[i2].ix as int, states@[i2].iy as int, block as int, nbx as int) == j) by {
                if seed@[j] && !(exists|i2: int| 0 <= i2 < i && (#[trigger] states@[i2]).total_cost < MAX_COST
                    && block_of(states@[i2].ix as int, states@[i2].iy as int, block as int, nbx as int) == j) {
                    assert(states@[i as int] == s);
                }
            }
        }
        i += 1;
    }
    proof {
        assert(passable@ =~= passable_blocks(states@, block as int, nbx as int, nbx * nby));
        assert(seed@ =~= seed_blocks(states@, block as int, nbx as int, nbx * nby));
    }
    (passable, seed)
}

/// Block `(bx, by)` is set in the block grid `f` of `nbx` blocks per row.
pub open spec fn block_set(f: Seq<bool>, nbx: int, bx: int, by: int) -> bool {
    f[by * nbx + bx]
}

/// Some block within `rx` columns and `ry` rows of block `j` is set in `f`.
pub open spec fn near_block(f: Seq<bool>, j: int, nbx: int, nby: int, rx: int, ry: int) -> bool {
    exists|bx: int, by: int| 0 <= bx < nbx && 0 <= by < nby && j % nbx - rx <= bx <= j % nbx + rx
        && j / nbx - ry <= by <= j / nbx + ry && #[trigger] block_set(f, nbx, bx, by)
}

/// The passable blocks near a block of the frontier `f`.
pub open spec fn active_blocks(f: Seq<bool>, passable: Seq<bool>, nbx: int, nby: int, rx: int, ry: int) -> Seq<bool> {
    Seq::new(passable.len(), |j: int| passable[j] && near_block(f, j, nbx, nby, rx, ry))
}

/// Some block is set.
pub open spec fn any_block(f: Seq<bool>) -> bool {
    exists|j: int| 0 <= j < f.len() && #[trigger] f[j]
}

/// The cells of block `j`, clipped to the grid, in storage order.
pub open spec fn block_rect(j: int, block: int, nbx: int, nx: int, ny: int, nt: int) -> Seq<int> {
    let bx = j % nbx;
    let by = j / nbx;
    let x1 = if (bx + 1) * block < nx { (bx + 1) * block } else { nx };
    let y1 = if (by + 1) * block < ny { (by + 1) * block } else { ny };
    rect_run(bx * block, x1 - 1, by * block, y1 - 1, nx, nt)
}

/// One round over the blocks `0 .. j` in order: each active block has its
/// cells updated `passes` times over; gives the states, the blocks whose update
/// lowered a cost, and how many updates lowered a cost.
pub open spec fn block_round(states: Seq<State>, actions: Seq<Action>, active: Seq<bool>, block: int, passes: nat, nbx: int,
    nx: int, ny: int, nt: int, j: int) -> (Seq<State>, Seq<bool>, nat)
    decreases j,
{
    if j <= 0 {
        (states, Seq::empty(), 0)
    } else {
        let p = block_round(states, actions, active, block, passes, nbx, nx, ny, nt, j - 1);
        if active[j - 1] {
            let run = repeat_run(block_rect(j - 1, block, nbx, nx, ny, nt), passes);
            let c = fall_count(p.0, actions, run, nx, ny, nt);
            (apply_run(p.0, actions, run, nx, ny, nt), p.1.push(c > 0), p.2 + c)
        } else {
            (p.0, p.1.push(false), p.2)
        }
    }
}

/// Rounds from frontier `f` while it has a block set, at most `fuel` of them;
/// gives the states, the rounds, the cost decreases and whether the frontier
/// emptied.
pub open spec fn refine_run(states: Seq<State>, actions: Seq<Action>, f: Seq<bool>, passable: Seq<bool>, block: int, passes: nat,
    nbx: int, nby: int, rx: int, ry: int, nx: int, ny: int, nt: int, fuel: nat) -> (Seq<State>, nat, nat, bool)
    decreases fuel,
{
    if !any_block(f) {
        (states, 0, 0, true)
    } else if fuel == 0 {
        (states, 0, 0, false)
    } else {
        let act = active_blocks(f, passable, nbx, nby, rx, ry);
        let r = block_round(states, actions, act, block, passes, nbx, nx, ny, nt, nbx * nby);
        if !any_block(r.1) {
            (r.0, 1, r.2, true)
        } else {
            let rest = refine_run(r.0, actions, r.1, passable, block, passes, nbx, nby, rx, ry, nx, ny, nt, (fuel - 1) as nat);
            (rest.0, rest.1 + 1, r.2 + rest.2, rest.3)
        }
    }
}

/// The run of the block solver with blocks of `block × block` columns, `passes`
/// updates of each active block per round and at most `max_iter` rounds, for
/// the transition displacement `m`: seeded with the blocks that hold a reached
/// cell, dilated each round by `m` measured in blocks.
pub open spec fn block_refine_result(states: Seq<State>, actions: Seq<Action>, nx: int, ny: int, nt: int, block: int,
    passes: nat, max_iter: nat, m: (int, int, int)) -> (Seq<State>, nat, nat, bool) {
    let nbx = cdiv(nx, block);
    let nby = cdiv(ny, block);
    refine_run(states, actions, seed_blocks(states, block, nbx, nbx * nby), passable_blocks(states, block, nbx, nbx * nby),
        block, passes, nbx, nby, cdiv(m.0, block), cdiv(m.1, block), nx, ny, nt, max_iter)
}

/// `x` as a `u64`, saturated at `u64::MAX`.
pub open spec fn sat_u64(x: nat) -> u64 {
    if x > u64::MAX { u64::MAX } else { x as u64 }
}

/// The block run `res` ended in states `s2` after `r.0` rounds, with `r.1`
/// its count of lowered costs saturated at `u64::MAX` and `r.2` whether it converged.
pub open spec fn block_refine_done(res: (Seq<State>, nat, nat, bool), s2: Seq<State>, r: (u32, u64, bool)) -> bool {
    &&& res.0 == s2
    &&& res.1 == r.0
    &&& sat_u64(res.2) == r.1
    &&& res.3 == r.2
}

/// Whether some block is set.
fn any_set(f: &Vec<bool>) -> (r: bool)
    ensures
        r == any_block(f@),
{
    let mut i: usize = 0;
    while i < f.len()
        invariant
            0 <= i <= f@.len(),
            forall|j: int| 0 <= j < i ==> !(#[trigger] f@[j]),
        decreases f@.len() - i,
    {
        if f[i] {
            return true;
        }
        i += 1;
    }
    false
}

/// The passable blocks within `rx` columns and `ry` rows of a block of `f`.
fn active_of(f: &Vec<bool>, passable: &Vec<bool>, nbx: i64, nby: i64, rx: i64, ry: i64) -> (r: Vec<bool>)
    requires
        f@.len() == nbx * nby,
        passable@.len() == nbx * nby,
        0 <= nbx,
        0 <= nby,
        nbx * nby <= i32::MAX,
        0 <= rx <= i32::MAX,
        0 <= ry <= i32::MAX,
    ensures
        r@ == active_blocks(f@, passable@, nbx as int, nby as int, rx as int, ry as int),
{
    let mut active: Vec<bool> = Vec::new();
    let mut by: i64 = 0;
    while by < nby
        invariant
            0 <= by <= nby,
            f@.len() == nbx * nby,
            passable@.len() == nbx * nby,
            0 <= nbx,
            nbx * nby <= i32::MAX,
            0 <= rx <= i32::MAX,
            0 <= ry <= i32::MAX,
            active@.len() == by * nbx,
            forall|j: int| 0 <= j < active@.len() ==> (#[trigger] active@[j] == (passable@[j] && near_block(f@, j, nbx as int, nby as int, rx as int, ry as int))),
        decreases nby - by,
    {
        let mut bx: i64 = 0;
        while bx < nbx
            invariant
                0 <= by < nby,
                0 <= bx <= nbx,
                f@.len() == nbx * nby,
                passable@.len() == nbx * nby,
                0 <= nbx,
                nbx * nby <= i32::MAX,
                0 <= rx <= i32::MAX,
                0 <= ry <= i32::MAX,
                active@.len() == by * nbx + bx,
                forall|j: int| 0 <= j < active@.len() ==> (#[trigger] active@[j] == (passable@[j] && near_block(f@, j, nbx as int, nby as int, rx as int, ry as int))),
            decreases nbx - bx,
        {
            proof {
                lemma_flat(bx as int, by as int, nbx as int, nby as int);
            }
            let j = (by * nbx + bx) as usize;
            let ghost jj = j as int;
            let mut found = false;
            if passable[j] {
                let ylo: i64 = if by - ry > 0 { by - ry } else { 0 };
                let yhi: i64 = if by + ry < nby - 1 { by + ry } else { nby - 1 };
                let xlo: i64 = if bx - rx > 0 { bx - rx } else { 0 };
                let xhi: i64 = if bx + rx < nbx - 1 { bx + rx } else { nbx - 1 };
                let mut yy: i64 = ylo;
                while yy <= yhi
                    invariant
                        0 <= ylo <= yy <= yhi + 1,
                        yhi < nby,
                        0 <= xlo <= xhi + 1,
                        xhi < nbx,
                        0 <= by < nby,
                        0 <= bx < nbx,
                        f@.len() == nbx * nby,
                        nbx * nby <= i32::MAX,
                        found <==> exists|x2: int, y2: int| xlo <= x2 <= xhi && ylo <= y2 < yy && #[trigger] block_set(f@, nbx as int, x2, y2),
                    decreases yhi + 1 - yy,
                {
                    let mut xx: i64 = xlo;
                    while xx <= xhi
                        invariant
                            0 <= ylo <= yy <= yhi,
                            yhi < nby,
                            0 <= xlo <= xx <= xhi + 1,
                            xhi < nbx,
                            f@.len() == nbx * nby,
                            nbx * nby <= i32::MAX,
                            found <==> (exists|x2: int, y2: int| xlo <= x2 <= xhi && ylo <= y2 < yy && #[trigger] block_set(f@, nbx as int, x2, y2))
                                || (exists|x2: int| xlo <= x2 < xx && #[trigger] block_set(f@, nbx as int, x2, yy as int)),
                        decreases xhi + 1 - xx,
                    {
                        proof {
                            lemma_flat(xx as int, yy as int, nbx as int, nby as int);
                        }
                        let k = (yy * nbx + xx) as usize;
                        if f[k] {
                            found = true;
                        }
                        proof {
                            assert(block_set(f@, nbx as int, xx as int, yy as int) == f@[k as int]);
                            if found && !(exists|x2: int, y2: int| xlo <= x2 <= xhi && ylo <= y2 < yy && #[trigger] block_set(f@, nbx as int, x2, y2))
                                && !(exists|x2: int| xlo <= x2 < xx && #[trigger] block_set(f@, nbx as int, x2, yy as int)) {
                                assert(block_set(f@, nbx as int, xx as int, yy as int));
                            }
                        }
                        xx += 1;
                    }
                    proof {
                        if found {
                            if exists|x2: int| xlo <= x2 <= xhi && #[trigger] block_set(f@, nbx as int, x2, yy as int) {
                                let x2 = choose|x2: int| xlo <= x2 <= xhi && #[trigger] block_set(f@, nbx as int, x2, yy as int);
                                assert(xlo <= x2 <= xhi && ylo <= yy < yy + 1 && block_set(f@, nbx as int, x2, yy as int));
                            }
                        }
                        assert(found ==> exists|x2: int, y2: int| xlo <= x2 <= xhi && ylo <= y2 < yy + 1 && #[trigger] block_set(f@, nbx as int, x2, y2));
                        if exists|x2: int, y2: int| xlo <= x2 <= xhi && ylo <= y2 < yy + 1 && #[trigger] block_set(f@, nbx as int, x2, y2) {
                            let (x2, y2) = choose|x2: int, y2: int| xlo <= x2 <= xhi && ylo <= y2 < yy + 1 && #[trigger] block_set(f@, nbx as int, x2, y2);
                            if y2 == yy {
                                assert(xlo <= x2 < xx && block_set(f@, nbx as int, x2, yy as int));
                            }
                        }
                    }
                    yy += 1;
                }
                proof {
                    let nb2 = near_block(f@, jj, nbx as int, nby as int, rx as int, ry as int);
                    assert(jj % (nbx as int) == bx && jj / (nbx as int) == by);
                    if found {
                        let (x2, y2) = choose|x2: int, y2: int| xlo <= x2 <= xhi && ylo <= y2 < yy && #[trigger] block_set(f@, nbx as int, x2, y2);
                        assert(0 <= x2 < nbx && 0 <= y2 < nby && jj % (nbx as int) - rx <= x2 <= jj % (nbx as int) + rx
                            && jj / (nbx as int) - ry <= y2 <= jj / (nbx as int) + ry && block_set(f@, nbx as int, x2, y2));
                    }
                    if nb2 {
                        let (x2, y2) = choose|x2: int, y2: int| 0 <= x2 < nbx && 0 <= y2 < nby && jj % (nbx as int) - rx <= x2 <= jj % (nbx as int) + rx
                            && jj / (nbx as int) - ry <= y2 <= jj / (nbx as int) + ry && #[trigger] block_set(f@, nbx as int, x2, y2);
                        assert(xlo <= x2 <= xhi && ylo <= y2 < yy && block_set(f@, nbx as int, x2, y2));
                    }
                }
            }
            active.push(found);
            proof {
                assert(active@[jj] == (passable@[jj] && near_block(f@, jj, nbx as int, nby as int, rx as int, ry as int)));
            }
            bx += 1;
        }
        proof {
            assert(by * nbx + nbx == (by + 1) * nbx) by (nonlinear_arith);
        }
        by += 1;
    }
    proof {
        assert(nby * nbx == nbx * nby) by (nonlinear_arith);
        assert(active@ =~= active_blocks(f@, passable@, nbx as int, nby as int, rx as int, ry as int));
    }
    active
}

/// The per-state updates of every cell of the rectangle `x0 ..= x1`, `y0 ..= y1`,
/// `passes` times over; gives how many lowered a cost.
fn update_block(vi: &mut StateSpace, x0: i32, x1: i32, y0: i32, y1: i32, passes: u32) -> (r: u64)
    requires
        old(vi).wf(),
        0 <= x0 <= x1 < old(vi).cell_num_x,
        0 <= y0 <= y1 < old(vi).cell_num_y,
    ensures
        final(vi).wf(),
        final(vi).actions@ == old(vi).actions@,
        final(vi).cell_num_x == old(vi).cell_num_x,
        final(vi).cell_num_y == old(vi).cell_num_y,
        final(vi).cell_num_t == old(vi).cell_num_t,
        final(vi).states@ == apply_run(old(vi).states@, old(vi).actions@,
            repeat_run(rect_run(x0 as int, x1 as int, y0 as int, y1 as int, old(vi).cell_num_x as int, old(vi).cell_num_t as int), passes as nat),
            old(vi).cell_num_x as int, old(vi).cell_num_y as int, old(vi).cell_num_t as int),
        r == fall_count(old(vi).states@, old(vi).actions@,
            repeat_run(rect_run(x0 as int, x1 as int, y0 as int, y1 as int, old(vi).cell_num_x as int, old(vi).cell_num_t as int), passes as nat),
            old(vi).cell_num_x as int, old(vi).cell_num_y as int, old(vi).cell_num_t as int),
{
    let ghost s0 = vi.states@;
    let ghost acts = vi.actions@;
    let ghost nx = vi.cell_num_x as int;
    let ghost ny = vi.cell_num_y as int;
    let ghost nt = vi.cell_num_t as int;
    let ghost rect = rect_run(x0 as int, x1 as int, y0 as int, y1 as int, nx, nt);
    let ghost w = x1 - x0 + 1;
    let ghost h = y1 - y0 + 1;
    let ghost bsz = w * h * nt;
    let ghost wn = w * nt;
    let nt_e = vi.cell_num_t;
    let n_actions = vi.actions.len();
    let mut updates: u64 = 0;
    let ghost mut done: Seq<int> = Seq::empty();
    proof {
        assert(bsz <= nx * ny * nt) by (nonlinear_arith)
            requires 0 < w <= nx, 0 < h <= ny, 0 <= nt, bsz == w * h * nt;
        assert(0 <= bsz) by (nonlinear_arith) requires 0 < w, 0 < h, 0 <= nt, bsz == w * h * nt;
        assert(0 <= wn) by (nonlinear_arith) requires 0 < w, 0 <= nt, wn == w * nt;
        assert(bsz == h * wn) by (nonlinear_arith) requires bsz == w * h * nt, wn == w * nt;
        assert(done =~= repeat_run(rect, 0));
    }
    let mut p: u32 = 0;
    while p < passes
        invariant
            0 <= p <= passes,
            vi.wf(),
            vi.actions@ == acts,
            n_actions == acts.len(),
            vi.cell_num_x == nx,
            vi.cell_num_y == ny,
            vi.cell_num_t == nt,
            nt_e == nt,
            0 <= x0 <= x1 < nx,
            0 <= y0 <= y1 < ny,
            s0 == old(vi).states@,
            acts == old(vi).actions@,
            nx == old(vi).cell_num_x,
            ny == old(vi).cell_num_y,
            nt == old(vi).cell_num_t,
            states_ok(s0, nx, ny, nt),
            rect == rect_run(x0 as int, x1 as int, y0 as int, y1 as int, nx, nt),
            w == x1 - x0 + 1,
            h == y1 - y0 + 1,
            bsz == w * h * nt,
            wn == w * nt,
            0 <= bsz <= nx * ny * nt,
            0 <= wn,
            bsz == h * wn,
            done == repeat_run(rect, p as nat),
            done.len() == p * bsz,
            forall|k: int| 0 <= k < done.len() ==> 0 <= #[trigger] done[k] < s0.len(),
            vi.states@ == apply_run(s0, acts, done, nx, ny, nt),
            updates == fall_count(s0, acts, done, nx, ny, nt),
        decreases passes - p,
    {
        let mut iy: i32 = y0;
        while iy <= y1
            invariant
                0 <= p < passes,
                vi.wf(),
                vi.actions@ == acts,
                n_actions == acts.len(),
                vi.cell_num_x == nx,
                vi.cell_num_y == ny,
                vi.cell_num_t == nt,
                nt_e == nt,
                0 <= x0 <= x1 < nx,
                0 <= y0 <= y1 < ny,
                y0 <= iy <= y1 + 1,
                states_ok(s0, nx, ny, nt),
                rect == rect_run(x0 as int, x1 as int, y0 as int, y1 as int, nx, nt),
                w == x1 - x0 + 1,
                h == y1 - y0 + 1,
                bsz == w * h * nt,
                wn == w * nt,
                0 <= bsz <= nx * ny * nt,
                0 <= wn,
                bsz == h * wn,
                done == repeat_run(rect, p as nat) + rect_run(x0 as int, x1 as int, y0 as int, iy - 1, nx, nt),
                done.len() == p * bsz + (iy - y0) * wn,
                forall|k: int| 0 <= k < done.len() ==> 0 <= #[trigger] done[k] < s0.len(),
                vi.states@ == apply_run(s0, acts, done, nx, ny, nt),
                updates == fall_count(s0, acts, done, nx, ny, nt),
            decreases y1 + 1 - iy,
        {
            let mut ix: i32 = x0;
            while ix <= x1
                invariant
                    0 <= p < passes,
                    vi.wf(),
                    vi.actions@ == acts,
                    n_actions == acts.len(),
                    vi.cell_num_x == nx,
                    vi.cell_num_y == ny,
                    vi.cell_num_t == nt,
                    nt_e == nt,
                    0 <= x0 <= x1 < nx,
                    0 <= y0 <= y1 < ny,
                    y0 <= iy <= y1,
                    x0 <= ix <= x1 + 1,
                    states_ok(s0, nx, ny, nt),
                    rect == rect_run(x0 as int, x1 as int, y0 as int, y1 as int, nx, nt),
                    w == x1 - x0 + 1,
                    h == y1 - y0 + 1,
                    bsz == w * h * nt,
                    wn == w * nt,
                    0 <= bsz <= nx * ny * nt,
                    0 <= wn,
                    bsz == h * wn,
                    done == repeat_run(rect, p as nat) + rect_run(x0 as int, x1 as int, y0 as int, iy - 1, nx, nt)
                        + row_run(x0 as int, ix - 1, iy as int, nx, nt),
                    done.len() == p * bsz + (iy - y0) * wn + (ix - x0) * nt,
                    forall|k: int| 0 <= k < done.len() ==> 0 <= #[trigger] done[k] < s0.len(),
                    vi.states@ == apply_run(s0, acts, done, nx, ny, nt),
                    updates == fall_count(s0, acts, done, nx, ny, nt),
                decreases x1 + 1 - ix,
            {
                let mut it: i32 = 0;
                while it < nt_e
                    invariant
                        0 <= p < passes,
                        vi.wf(),
                        vi.actions@ == acts,
                        n_actions == acts.len(),
                        vi.cell_num_x == nx,
                        vi.cell_num_y == ny,
                        vi.cell_num_t == nt,
                        nt_e == nt,
                        0 <= x0 <= x1 < nx,
                        0 <= y0 <= y1 < ny,
                        y0 <= iy <= y1,
                        x0 <= ix <= x1,
                        0 <= it <= nt,
                        states_ok(s0, nx, ny, nt),
                        rect == rect_run(x0 as int, x1 as int, y0 as int, y1 as int, nx, nt),
                        w == x1 - x0 + 1,
                        h == y1 - y0 + 1,
                        bsz == w * h * nt,
                        wn == w * nt,
                        0 <= bsz <= nx * ny * nt,
                        0 <= wn,
                        bsz == h * wn,
                        done == repeat_run(rect, p as nat) + rect_run(x0 as int, x1 as int, y0 as int, iy - 1, nx, nt)
                            + row_run(x0 as int, ix - 1, iy as int, nx, nt) + column_run(ix as int, iy as int, nx, nt).take(it as int),
                        done.len() == p * bsz + (iy - y0) * wn + (ix - x0) * nt + it,
                        forall|k: int| 0 <= k < done.len() ==> 0 <= #[trigger] done[k] < s0.len(),
                        vi.states@ == apply_run(s0, acts, done, nx, ny, nt),
                        updates == fall_count(s0, acts, done, nx, ny, nt),
                    decreases nt - it,
                {
                    proof {
                        lemma_index_bound(ix as int, iy as int, it as int, nx, ny, nt);
                    }
                    let idx = vi.to_index(ix, iy, it) as usize;
                    let ghost prev = vi.states@;
                    proof {
                        lemma_apply_keeps(s0, acts, done, nx, ny, nt);
                        lemma_update_keeps(prev, acts, idx as int, nx, ny, nt);
                    }
                    let before = vi.states[idx].total_cost;
                    value_iteration_raw(&mut vi.states, &vi.actions, idx, vi.cell_num_x, vi.cell_num_y, vi.cell_num_t);
                    let ghost old_done = done;
                    proof {
                        done = done.push(idx as int);
                        assert(done.drop_last() =~= old_done);
                        assert(done.last() == idx as int);
                        lemma_apply_keeps(s0, acts, old_done, nx, ny, nt);
                        assert(updates <= old_done.len());
                        assert(old_done.len() <= p * bsz + bsz) by (nonlinear_arith)
                            requires
                                old_done.len() == p * bsz + (iy - y0) * wn + (ix - x0) * nt + it,
                                0 <= iy - y0 < h,
                                0 <= ix - x0 < w,
                                0 <= it < nt,
                                bsz == h * wn,
                                wn == w * nt;
                        assert(p * bsz + bsz <= passes * bsz) by (nonlinear_arith)
                            requires p < passes, 0 <= bsz;
                        assert(passes * bsz <= 0xffff_ffff * 0x7fff_ffff) by (nonlinear_arith)
                            requires passes <= 0xffff_ffff, 0 <= bsz <= 0x7fff_ffff;
                        assert(column_run(ix as int, iy as int, nx, nt).take(it + 1)
                            =~= column_run(ix as int, iy as int, nx, nt).take(it as int).push(idx as int));
                        assert(done =~= repeat_run(rect, p as nat) + rect_run(x0 as int, x1 as int, y0 as int, iy - 1, nx, nt)
                            + row_run(x0 as int, ix - 1, iy as int, nx, nt) + column_run(ix as int, iy as int, nx, nt).take(it + 1));
                    }
                    if vi.states[idx].total_cost < before {
                        updates += 1;
                    }
                    it += 1;
                }
                proof {
                    assert(column_run(ix as int, iy as int, nx, nt).take(nt) =~= column_run(ix as int, iy as int, nx, nt));
                    assert(row_run(x0 as int, ix as int, iy as int, nx, nt)
                        == row_run(x0 as int, ix - 1, iy as int, nx, nt) + column_run(ix as int, iy as int, nx, nt));
                    assert(done =~= repeat_run(rect, p as nat) + rect_run(x0 as int, x1 as int, y0 as int, iy - 1, nx, nt)
                        + row_run(x0 as int, ix as int, iy as int, nx, nt));
                    assert((ix - x0) * nt + nt == (ix + 1 - x0) * nt) by (nonlinear_arith);
                }
                ix += 1;
            }
            proof {
                assert(rect_run(x0 as int, x1 as int, y0 as int, iy as int, nx, nt)
                    == rect_run(x0 as int, x1 as int, y0 as int, iy - 1, nx, nt) + row_run(x0 as int, x1 as int, iy as int, nx, nt));
                assert(done =~= repeat_run(rect, p as nat) + rect_run(x0 as int, x1 as int, y0 as int, iy as int, nx, nt));
                assert((iy - y0) * wn + (x1 + 1 - x0) * nt == (iy + 1 - y0) * wn) by (nonlinear_arith)
                    requires wn == (x1 - x0 + 1) * nt;
            }
            iy += 1;
        }
        proof {
            assert(done =~= repeat_run(rect, (p + 1) as nat));
            assert(p * bsz + (y1 + 1 - y0) * wn == (p + 1) * bsz) by (nonlinear_arith)
                requires bsz == h * wn, h == y1 - y0 + 1;
        }
        p += 1;
    }
    updates
}

/// Partial rounds have one mark per visited block, and their decrease counts
/// grow with the number of visited blocks.
proof fn lemma_round_mono(states: Seq<State>, actions: Seq<Action>, active: Seq<bool>, block: int, passes: nat, nbx: int,
    nx: int, ny: int, nt: int, j: int, k: int)
    requires
        0 <= j <= k,
    ensures
        block_round(states, actions, active, block, passes, nbx, nx, ny, nt, j).1.len() == j,
        block_round(states, actions, active, block, passes, nbx, nx, ny, nt, j).2
            <= block_round(states, actions, active, block, passes, nbx, nx, ny, nt, k).2,
    decreases k,
{
    if j < k {
        lemma_round_mono(states, actions, active, block, passes, nbx, nx, ny, nt, j, k - 1);
    } else if j > 0 {
        lemma_round_mono(states, actions, active, block, passes, nbx, nx, ny, nt, j - 1, j - 1);
    }
}

/// One round over all blocks in order: each active block has its cells updated
/// `passes` times over.  Gives the blocks whose update lowered a cost, how many
/// updates lowered a cost, and whether any block did.
fn run_round(vi: &mut StateSpace, active: &Vec<bool>, block: i64, passes: u32, nbx: i64, nby: i64) -> (r: (Vec<bool>, u64, bool))
    requires
        old(vi).wf(),
        old(vi).states@.len() > 0,
        1 <= block <= i32::MAX,
        nbx == cdiv(old(vi).cell_num_x as int, block as int),
        nby == cdiv(old(vi).cell_num_y as int, block as int),
        active@.len() == nbx * nby,
    ensures
        final(vi).wf(),
        final(vi).actions@ == old(vi).actions@,
        final(vi).cell_num_x == old(vi).cell_num_x,
        final(vi).cell_num_y == old(vi).cell_num_y,
        final(vi).cell_num_t == old(vi).cell_num_t,
        ({
            let res = block_round(old(vi).states@, old(vi).actions@, active@, block as int, passes as nat, nbx as int,
                old(vi).cell_num_x as int, old(vi).cell_num_y as int, old(vi).cell_num_t as int, nbx * nby);
            &&& final(vi).states@ == res.0
            &&& r.0@ == res.1
            &&& r.1 == sat_u64(res.2)
            &&& r.2 == any_block(res.1)
        }),
        r.0@.len() == nbx * nby,
{
    let ghost s0 = vi.states@;
    let ghost acts = vi.actions@;
    let ghost nx = vi.cell_num_x as int;
    let ghost ny = vi.cell_num_y as int;
    let ghost nt = vi.cell_num_t as int;
    let ghost nb = nbx * nby;
    proof {
        assert(nx > 0 && ny > 0 && nt > 0) by (nonlinear_arith)
            requires s0.len() == nx * ny * nt, s0.len() > 0, nx >= 0, ny >= 0, nt >= 0;
        lemma_cdiv(nx, block as int);
        lemma_cdiv(ny, block as int);
        assert(0 <= nbx * nby <= nx * ny) by (nonlinear_arith) requires 0 <= nbx <= nx, 0 <= nby <= ny;
        assert(nx * ny <= nx * ny * nt) by (nonlinear_arith) requires nx > 0, ny > 0, nt > 0;
        assert(1 <= nbx) by (nonlinear_arith) requires nbx * block >= nx, nx > 0, block >= 1, nbx >= 0;
    }
    let nx_e = vi.cell_num_x as i64;
    let ny_e = vi.cell_num_y as i64;
    let mut next: Vec<bool> = Vec::new();
    let mut updates: u64 = 0;
    let mut any_changed = false;
    let mut j: usize = 0;
    let mut by: i64 = 0;
    while by < nby
        invariant
            0 <= by <= nby,
            j == by * nbx,
            vi.wf(),
            vi.actions@ == acts,
            vi.cell_num_x == nx,
            vi.cell_num_y == ny,
            vi.cell_num_t == nt,
            nx_e == nx,
            ny_e == ny,
            nx > 0 && ny > 0 && nt > 0,
            1 <= block <= i32::MAX,
            nbx == cdiv(nx, block as int),
            nby == cdiv(ny, block as int),
            nbx * block >= nx,
            nby * block >= ny,
            (nbx - 1) * block < nx,
            (nby - 1) * block < ny,
            nbx * block <= nx + block - 1,
            nby * block <= ny + block - 1,
            1 <= nbx,
            nb == nbx * nby,
            0 <= nb <= i32::MAX,
            active@.len() == nb,
            s0 == old(vi).states@,
            acts == old(vi).actions@,
            nx == old(vi).cell_num_x,
            ny == old(vi).cell_num_y,
            nt == old(vi).cell_num_t,
            vi.states@ == block_round(s0, acts, active@, block as int, passes as nat, nbx as int, nx, ny, nt, j as int).0,
            next@ == block_round(s0, acts, active@, block as int, passes as nat, nbx as int, nx, ny, nt, j as int).1,
            updates == sat_u64(block_round(s0, acts, active@, block as int, passes as nat, nbx as int, nx, ny, nt, j as int).2),
            any_changed == any_block(next@),
        decreases nby - by,
    {
        let mut bx: i64 = 0;
        while bx < nbx
            invariant
                0 <= by < nby,
                0 <= bx <= nbx,
                j == by * nbx + bx,
                vi.wf(),
                vi.actions@ == acts,
                vi.cell_num_x == nx,
                vi.cell_num_y == ny,
                vi.cell_num_t == nt,
                nx_e == nx,
                ny_e == ny,
                nx > 0 && ny > 0 && nt > 0,
                1 <= block <= i32::MAX,
                nbx == cdiv(nx, block as int),
                nby == cdiv(ny, block as int),
                nbx * block >= nx,
                nby * block >= ny,
                (nbx - 1) * block < nx,
                (nby - 1) * block < ny,
                nbx * block <= nx + block - 1,
                nby * block <= ny + block - 1,
                1 <= nbx,
                nb == nbx * nby,
                0 <= nb <= i32::MAX,
                active@.len() == nb,
                s0 == old(vi).states@,
                acts == old(vi).actions@,
                nx == old(vi).cell_num_x,
                ny == old(vi).cell_num_y,
                nt == old(vi).cell_num_t,
                vi.states@ == block_round(s0, acts, active@, block as int, passes as nat, nbx as int, nx, ny, nt, j as int).0,
                next@ == block_round(s0, acts, active@, block as int, passes as nat, nbx as int, nx, ny, nt, j as int).1,
                updates == sat_u64(block_round(s0, acts, active@, block as int, passes as nat, nbx as int, nx, ny, nt, j as int).2),
                any_changed == any_block(next@),
            decreases nbx - bx,
        {
            proof {
                lemma_flat(bx as int, by as int, nbx as int, nby as int);
                lemma_round_mono(s0, acts, active@, block as int, passes as nat, nbx as int, nx, ny, nt, j as int, j as int);
                lemma_round_mono(s0, acts, active@, block as int, passes as nat, nbx as int, nx, ny, nt, j + 1, nb);
            }
            let ghost p = block_round(s0, acts, active@, block as int, passes as nat, nbx as int, nx, ny, nt, j as int);
            let ghost old_next = next@;
            if active[j] {
                proof {
                    assert(bx * block <= (nbx - 1) * block) by (nonlinear_arith) requires bx <= nbx - 1, 1 <= block;
                    assert(by * block <= (nby - 1) * block) by (nonlinear_arith) requires by <= nby - 1, 1 <= block;
                    assert((bx + 1) * block <= nbx * block) by (nonlinear_arith) requires bx + 1 <= nbx, 1 <= block;
                    assert((by + 1) * block <= nby * block) by (nonlinear_arith) requires by + 1 <= nby, 1 <= block;
                    assert(0 <= bx * block) by (nonlinear_arith) requires 0 <= bx, 1 <= block;
                    assert(0 <= by * block) by (nonlinear_arith) requires 0 <= by, 1 <= block;
                    assert((bx + 1) * block == bx * block + block) by (nonlinear_arith);
                    assert((by + 1) * block == by * block + block) by (nonlinear_arith);
                }
                let x0: i64 = bx * block;
                let y0: i64 = by * block;
                let xe: i64 = if (bx + 1) * block < nx_e { (bx + 1) * block } else { nx_e };
                let ye: i64 = if (by + 1) * block < ny_e { (by + 1) * block } else { ny_e };
                let u = update_block(vi, x0 as i32, (xe - 1) as i32, y0 as i32, (ye - 1) as i32, passes);
                proof {
                    assert(block_rect(j as int, block as int, nbx as int, nx, ny, nt)
                        == rect_run(x0 as int, xe - 1, y0 as int, ye - 1, nx, nt));
                }
                next.push(u > 0);
                updates = updates.saturating_add(u);
                any_changed = any_changed || u > 0;
            } else {
                next.push(false);
            }
            proof {
                assert(next@ == block_round(s0, acts, active@, block as int, passes as nat, nbx as int, nx, ny, nt, j + 1).1);
                assert(next@.drop_last() =~= old_next);
                if any_block(next@) && !any_block(old_next) {
                    assert(next@.last() == next@[next@.len() - 1]);
                    let k = choose|k: int| 0 <= k < next@.len() && #[trigger] next@[k];
                    if k < old_next.len() {
                        assert(old_next[k] == next@[k]);
                    }
                }
                if any_block(old_next) {
                    let k = choose|k: int| 0 <= k < old_next.len() && #[trigger] old_next[k];
                    assert(next@[k] == old_next[k]);
                }
                if next@.last() {
                    assert(next@[next@.len() - 1]);
                }
            }
            j += 1;
            bx += 1;
        }
        proof {
            assert(by * nbx + nbx == (by + 1) * nbx) by (nonlinear_arith);
        }
        by += 1;
    }
    proof {
        assert(nby * nbx == nbx * nby) by (nonlinear_arith);
        lemma_round_mono(s0, acts, active@, block as int, passes as nat, nbx as int, nx, ny, nt, nb, nb);
    }
    (next, updates, any_changed)
}

/// BlockRefine with blocks of `block × block` columns and `local_sweeps`
/// updates of each active block per round.  Seeded with the blocks that hold a
/// cell whose cost is below `MAX_COST`, each round re-evaluates the passable
/// blocks within the transition displacement (counted in blocks) of a block
/// that changed; stops once a round lowers no cost (converged), once no block
/// is left, or after `max_iter` rounds.  Gives `(rounds, decreases, converged)`.
pub fn block_refine_sized(vi: &mut StateSpace, block: i32, local_sweeps: u32, max_iter: u32) -> (r: (u32, u64, bool))
    requires
        old(vi).wf(),
        offsets_ok(old(vi).actions@, old(vi).cell_num_t as int),
        1 <= block,
    ensures
        final(vi).wf(),
        final(vi).actions@ == old(vi).actions@,
        final(vi).cell_num_x == old(vi).cell_num_x,
        final(vi).cell_num_y == old(vi).cell_num_y,
        final(vi).cell_num_t == old(vi).cell_num_t,
        exists|m: (int, int, int)| is_displacement(old(vi).actions@, old(vi).cell_num_t as int, m)
            && block_refine_done(#[trigger] block_refine_result(old(vi).states@, old(vi).actions@, old(vi).cell_num_x as int,
                old(vi).cell_num_y as int, old(vi).cell_num_t as int, block as int, local_sweeps as nat, max_iter as nat, m),
                final(vi).states@, r),
{
    let ghost s0 = vi.states@;
    let ghost acts = vi.actions@;
    let ghost nx = vi.cell_num_x as int;
    let ghost ny = vi.cell_num_y as int;
    let ghost nt = vi.cell_num_t as int;
    proof {
        assert forall|a: int| 0 <= a < acts.len() implies (#[trigger] acts[a]).state_transitions@.len() == nt by {
            assert(crate::reference::value_iterator::action_ok(acts[a], nx, ny, nt));
        }
    }
    let (mx, my, mt) = displacement(&vi.actions, vi.cell_num_t);
    let ghost m = (mx as int, my as int, mt as int);
    let ghost total = block_refine_result(s0, acts, nx, ny, nt, block as int, local_sweeps as nat, max_iter as nat, m);
    let b64 = block as i64;
    let nbx: i64 = (vi.cell_num_x as i64 + b64 - 1) / b64;
    let nby: i64 = (vi.cell_num_y as i64 + b64 - 1) / b64;
    if vi.states.len() == 0 {
        proof {
            let sb = seed_blocks(s0, block as int, nbx as int, nbx * nby);
            assert(!any_block(sb));
        }
        return (0, 0, true);
    }
    proof {
        lemma_cdiv(mx as int, block as int);
        lemma_cdiv(my as int, block as int);
    }
    let rx: i64 = (mx as i64 + b64 - 1) / b64;
    let ry: i64 = (my as i64 + b64 - 1) / b64;
    let (passable, seed) = block_marks(&vi.states, vi.cell_num_x, vi.cell_num_y, vi.cell_num_t, b64, nbx, nby);
    proof {
        assert(nx * ny <= nx * ny * nt) by (nonlinear_arith)
            requires s0.len() == nx * ny * nt, s0.len() > 0, nx >= 0, ny >= 0, nt >= 0;
        assert(0 <= nbx * nby) by (nonlinear_arith) requires 0 <= nbx, 0 <= nby;
        lemma_cdiv(nx, block as int);
        lemma_cdiv(ny, block as int);
    }
    let mut frontier = seed;
    let mut updates: u64 = 0;
    let ghost mut exact: nat = 0;
    let mut iters: u32 = 0;
    let mut converged = false;
    let mut running = true;
    while running
        invariant
            vi.wf(),
            vi.actions@ == acts,
            vi.cell_num_x == nx,
            vi.cell_num_y == ny,
            vi.cell_num_t == nt,
            vi.states@.len() == s0.len(),
            s0.len() > 0,
            s0 == old(vi).states@,
            acts == old(vi).actions@,
            nx == old(vi).cell_num_x,
            ny == old(vi).cell_num_y,
            nt == old(vi).cell_num_t,
            1 <= b64 <= i32::MAX,
            b64 == block,
            nbx == cdiv(nx, block as int),
            nby == cdiv(ny, block as int),
            0 <= nbx * nby <= i32::MAX,
            rx == cdiv(m.0, block as int),
            ry == cdiv(m.1, block as int),
            0 <= rx <= i32::MAX,
            0 <= ry <= i32::MAX,
            0 <= nbx,
            0 <= nby,
            passable@ == passable_blocks(s0, block as int, nbx as int, nbx * nby),
            frontier@.len() == nbx * nby,
            iters <= max_iter,
            updates == sat_u64(exact),
            running ==> ({
                let rest = refine_run(vi.states@, acts, frontier@, passable@, block as int, local_sweeps as nat, nbx as int, nby as int,
                    rx as int, ry as int, nx, ny, nt, (max_iter - iters) as nat);
                total == (rest.0, (rest.1 + iters) as nat, rest.2 + exact, rest.3)
            }),
            !running ==> total == (vi.states@, iters as nat, exact, converged),
        decreases 2 * (max_iter - iters) + (if running { 1int } else { 0int }),
    {
        if !any_set(&frontier) {
            converged = true;
            running = false;
        } else if iters >= max_iter {
            converged = false;
            running = false;
        } else {
            let active = active_of(&frontier, &passable, nbx, nby, rx, ry);
            let ghost fuel = (max_iter - iters) as nat;
            let ghost st = vi.states@;
            proof {
                assert(active@.len() == nbx * nby);
            }
            let (next, u, changed) = run_round(vi, &active, b64, local_sweeps, nbx, nby);
            proof {
                exact = exact + block_round(st, acts, active@, block as int, local_sweeps as nat, nbx as int, nx, ny, nt,
                    nbx * nby).2;
            }
            updates = updates.saturating_add(u);
            iters += 1;
            frontier = next;
            if !changed {
                converged = true;
                running = false;
            }
        }
    }
    proof {
        assert(block_refine_done(block_refine_result(s0, acts, nx, ny, nt, block as int, local_sweeps as nat, max_iter as nat, m),
            vi.states@, (iters, updates, converged)));
    }
    (iters, updates, converged)
}

/// BlockRefine with blocks of 8 × 8 columns and two updates of each active
/// block per round.
pub fn block_refine_solve(vi: &mut StateSpace, max_iter: u32) -> (r: (u32, u64, bool))
    requires
        old(vi).wf(),
        offsets_ok(old(vi).actions@, old(vi).cell_num_t as int),
    ensures
        final(vi).wf(),
        final(vi).actions@ == old(vi).actions@,
        final(vi).cell_num_x == old(vi).cell_num_x,
        final(vi).cell_num_y == old(vi).cell_num_y,
        final(vi).cell_num_t == old(vi).cell_num_t,
        exists|m: (int, int, int)| is_displacement(old(vi).actions@, old(vi).cell_num_t as int, m)
            && block_refine_done(#[trigger] block_refine_result(old(vi).states@, old(vi).actions@, old(vi).cell_num_x as int,
                old(vi).cell_num_y as int, old(vi).cell_num_t as int, 8, 2, max_iter as nat, m), final(vi).states@, r),
{
    block_refine_sized(vi, 8, 2, max_iter)
}

} // verus!
