//! Conversions between occupancy grids and the planner: the binary obstacle
//! grid the planner ingests, and the rendering of cost-to-go values as an
//! occupancy-grid image.
use vstd::prelude::*;
use crate::reference::params::{MAX_COST, PROB_BASE};

verus! {

/// `a * b`, or `u64::MAX` when that does not fit.
pub open spec fn sat_mul(a: u64, b: u64) -> u64 {
    if a * b > u64::MAX { u64::MAX } else { (a * b) as u64 }
}

/// Grid value of a cost: `-1` for a cost of `MAX_COST` or more (never
/// reached); otherwise the cost in steps (`cost / PROB_BASE`) mapped linearly
/// from `0 ..= threshold_steps` onto `0 ..= 100` and clamped at 100, where a
/// zero threshold maps zero steps to 0 and any other to 100.
pub open spec fn occupancy_of(c: u64, threshold_steps: u64) -> i8 {
    if c >= MAX_COST {
        -1i8
    } else {
        let display = c / PROB_BASE;
        if threshold_steps == 0 {
            if display == 0 { 0 } else { 100 }
        } else {
            let scaled = sat_mul(display, 100) / threshold_steps;
            if scaled >= 100 { 100 } else { scaled as i8 }
        }
    }
}

/// Render a `width × height` row-major slice of costs as occupancy-grid data
/// (same layout), cell by cell with [`occupancy_of`].
pub fn value_slice_to_occupancy(value: &Vec<u64>, width: usize, height: usize, threshold_steps: u64) -> (r: Vec<i8>)
    requires
        value@.len() == width * height,
    ensures
        r@.len() == width * height,
        forall|i: int| 0 <= i < r@.len() ==> #[trigger] r@[i] == occupancy_of(value@[i], threshold_steps),
        forall|i: int| 0 <= i < r@.len() ==> rendered(#[trigger] r@[i], value@[i], threshold_steps),
{
    let n = value.len();
    proof {
        assert forall|c: u64| #[trigger] rendered(occupancy_of(c, threshold_steps), c, threshold_steps) by {
            lemma_occupancy_scale(c, threshold_steps);
        }
    }
    let mut out: Vec<i8> = Vec::new();
    let mut i: usize = 0;
    while i < n
        invariant
            n == value@.len(),
            0 <= i <= n,
            out@.len() == i,
            forall|j: int| 0 <= j < i ==> #[trigger] out@[j] == occupancy_of(value@[j], threshold_steps),
        decreases n - i,
    {
        let c = value[i];
        let v: i8 = if c >= MAX_COST {
            -1
        } else {
            let display = c / PROB_BASE;
            if threshold_steps == 0 {
                if display == 0 { 0 } else { 100 }
            } else {
                let prod = if display > u64::MAX / 100 { u64::MAX } else { display * 100 };
                proof {
                    if display > u64::MAX / 100 {
                        assert(display * 100 > u64::MAX) by (nonlinear_arith) requires display > u64::MAX / 100;
                    }
                }
                let scaled = prod / threshold_steps;
                if scaled >= 100 { 100 } else { scaled as i8 }
            }
        };
        out.push(v);
        i += 1;
    }
    out
}

/// What the rendering of cost `c` must be, stated from the cost itself: `-1`
/// exactly for unreached costs (`MAX_COST` or more); with a positive threshold,
/// a cost of `d = c / PROB_BASE` steps below the threshold is shown as
/// `d * 100 / threshold_steps` (so `0 ..= 99`), and one at or above it as `100`;
/// with a zero threshold, `0` for less than one step and `100` otherwise.
pub open spec fn rendered(v: i8, c: u64, threshold_steps: u64) -> bool {
    let d = c as int / PROB_BASE as int;
    &&& (c >= MAX_COST <==> v == -1)
    &&& (c < MAX_COST && threshold_steps > 0 && d < threshold_steps ==> v as int == d * 100 / threshold_steps as int && 0 <= v < 100)
    &&& (c < MAX_COST && threshold_steps > 0 && d >= threshold_steps ==> v == 100)
    &&& (c < MAX_COST && threshold_steps == 0 ==> v == (if c < PROB_BASE { 0i8 } else { 100i8 }))
}

/// The rendering of every cost is linear in its number of steps up to the
/// threshold and clamped at 100 above it; unreached costs are `-1`.
pub proof fn lemma_occupancy_scale(c: u64, threshold_steps: u64)
    ensures
        rendered(occupancy_of(c, threshold_steps), c, threshold_steps),
{
    let d = c / PROB_BASE;
    if c < MAX_COST {
        assert(d < 1_000_000_000) by (nonlinear_arith) requires d == c / 262_144, c < 262_144_000_000_000;
        assert(d * 100 <= u64::MAX) by (nonlinear_arith) requires d < 1_000_000_000;
        assert(sat_mul(d, 100) == d * 100);
        assert(d == 0 <==> c < PROB_BASE) by (nonlinear_arith) requires d == c / 262_144;
        if threshold_steps > 0 {
            let t = threshold_steps as int;
            let q = (d * 100) as int / t;
            if d < threshold_steps {
                assert(0 <= q < 100) by (nonlinear_arith) requires q == (d * 100) as int / t, 0 <= d < t, t > 0;
            } else {
                assert(q >= 100) by (nonlinear_arith) requires q == (d * 100) as int / t, d >= t, t > 0;
            }
        }
    }
}

/// Two renderings with the same positive threshold keep the order of their
/// reached costs: a cheaper cost is never shown darker.
pub proof fn lemma_occupancy_monotone(c1: u64, c2: u64, threshold_steps: u64)
    requires
        c1 <= c2 < MAX_COST,
    ensures
        occupancy_of(c1, threshold_steps) <= occupancy_of(c2, threshold_steps),
{
    lemma_occupancy_scale(c1, threshold_steps);
    lemma_occupancy_scale(c2, threshold_steps);
    let d1 = c1 as int / PROB_BASE as int;
    let d2 = c2 as int / PROB_BASE as int;
    assert(d1 <= d2) by (nonlinear_arith) requires c1 <= c2, d1 == c1 as int / 262_144, d2 == c2 as int / 262_144;
    if threshold_steps > 0 && d2 < threshold_steps {
        let t = threshold_steps as int;
        assert(d1 * 100 / t <= d2 * 100 / t) by (nonlinear_arith) requires d1 <= d2, t > 0, 0 <= d1;
    }
}

/// Size and cells of an occupancy grid, row-major: `0` free, `100` occupied,
/// negative unknown.
pub struct OccupancyGridView {
    pub width: u32,
    pub height: u32,
    pub data: Vec<i8>,
}

/// Binary obstacle grid the planner ingests: `0` free, `100` blocked.
pub struct OccupancyGrid {
    pub width: i32,
    pub height: i32,
    pub data: Vec<i8>,
}

/// A cell is blocked when occupied (`100` or more) or, when `unknown_as_obstacle`,
/// unknown (negative).
pub open spec fn blocked_value(v: i8, unknown_as_obstacle: bool) -> i8 {
    if v >= 100 || (v < 0 && unknown_as_obstacle) { 100 } else { 0 }
}

/// What the obstacle grid must hold for input cell `v`, stated case by case:
/// an occupied cell (`100` or more) is blocked whatever the flag, a known free
/// cell (`0 ..= 99`) is free, and an unknown cell (negative) is blocked exactly
/// when `unknown_as_obstacle`.
pub open spec fn obstacle_cell(out: i8, v: i8, unknown_as_obstacle: bool) -> bool {
    &&& (v >= 100 ==> out == 100)
    &&& (0 <= v < 100 ==> out == 0)
    &&& (v < 0 ==> (out == 100 <==> unknown_as_obstacle))
    &&& (out == 0 || out == 100)
}

/// Every input cell gets the obstacle value its class calls for.
pub proof fn lemma_blocked_value(v: i8, unknown_as_obstacle: bool)
    ensures
        obstacle_cell(blocked_value(v, unknown_as_obstacle), v, unknown_as_obstacle),
{
}

/// Two conversions of the same grid, without and with `unknown_as_obstacle`,
/// agree on every known cell and differ exactly on the unknown ones, which
/// the first leaves free and the second blocks.
pub proof fn lemma_flag_decides_unknown(grid: OccupancyGridView, r0: OccupancyGrid, r1: OccupancyGrid)
    requires
        r0.data@.len() == grid.data@.len(),
        r1.data@.len() == grid.data@.len(),
        forall|i: int| 0 <= i < r0.data@.len() ==> #[trigger] r0.data@[i] == blocked_value(grid.data@[i], false),
        forall|i: int| 0 <= i < r1.data@.len() ==> #[trigger] r1.data@[i] == blocked_value(grid.data@[i], true),
    ensures
        forall|i: int| 0 <= i < grid.data@.len() && grid.data@[i] >= 0 ==> #[trigger] r0.data@[i] == r1.data@[i],
        forall|i: int| 0 <= i < grid.data@.len() && grid.data@[i] < 0 ==> #[trigger] r0.data@[i] == 0 && r1.data@[i] == 100,
        forall|i: int| 0 <= i < grid.data@.len() && grid.data@[i] >= 100 ==> #[trigger] r0.data@[i] == 100,
{
    assert forall|i: int| 0 <= i < grid.data@.len() implies obstacle_cell(#[trigger] r0.data@[i], grid.data@[i], false)
        && obstacle_cell(r1.data@[i], grid.data@[i], true) by {
        lemma_blocked_value(grid.data@[i], false);
        lemma_blocked_value(grid.data@[i], true);
    }
}

/// The binary obstacle grid of `grid`: each cell [`blocked_value`], same size.
pub fn occupancy_view_to_vi_grid(grid: &OccupancyGridView, unknown_as_obstacle: bool) -> (r: OccupancyGrid)
    requires
        grid.data@.len() == grid.width * grid.height,
    ensures
        r.width == grid.width as i32,
        r.height == grid.height as i32,
        r.data@.len() == grid.data@.len(),
        forall|i: int| 0 <= i < r.data@.len() ==> #[trigger] r.data@[i] == blocked_value(grid.data@[i], unknown_as_obstacle),
        forall|i: int| 0 <= i < r.data@.len() ==> obstacle_cell(#[trigger] r.data@[i], grid.data@[i], unknown_as_obstacle),
{
    proof {
        assert forall|v: i8, f: bool| #[trigger] obstacle_cell(blocked_value(v, f), v, f) by {
            lemma_blocked_value(v, f);
        }
    }
    let mut data: Vec<i8> = Vec::new();
    let mut i: usize = 0;
    while i < grid.data.len()
        invariant
            0 <= i <= grid.data@.len(),
            data@.len() == i,
            forall|k: int| 0 <= k < i ==> #[trigger] data@[k] == blocked_value(grid.data@[k], unknown_as_obstacle),
        decreases grid.data@.len() - i,
    {
        let v = grid.data[i];
        let blocked = v >= 100 || (v < 0 && unknown_as_obstacle);
        data.push(if blocked { 100 } else { 0 });
        i += 1;
    }
    OccupancyGrid { width: grid.width as i32, height: grid.height as i32, data }
}

} // verus!
