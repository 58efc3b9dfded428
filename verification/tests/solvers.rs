use vi_rs::reference::params::{MAX_COST, PROB_BASE};
use vi_rs::reference::solvers::frontier::{displacement, frontier2d_solve, frontier3d_solve, seed_frontier, seed_frontier_2d};
use vi_rs::reference::solvers::{reference_solve, solve, U64Solver, REACH_THRESH};
use vi_rs::reference::solvers::block::{block_refine_sized, block_refine_solve};
use vi_rs::reference::solvers::fused::{action_cost_fused, CpCells, build_precomp, final_policy_fused, write_back_fused, Fused, Geom, UNREACHED};
use vi_rs::reference::solvers::sparse::{frontier2d_sparse_solve, rot_dilate};
use vi_rs::reference::solvers::pad::{action_cost_pad, frontier2d_pad_solve, Padded};
use vi_rs::reference::solvers::par::frontier2d_par_solve;
use vi_rs::reference::solvers::par_unsafe::frontier2d_par_unsafe_solve;
use vi_rs::reference::solvers::fused_async::frontier2d_fused_solve;
use vi_rs::reference::solvers::compact_solve::{frontier2d_sparse_compact_solve, solve_compact, solve_compact_into};
use vi_rs::reference::solvers::band::{band_round, band_round_serial, converge_band_jacobi, converge_band_serial};
use vi_rs::reference::solvers::topk::{action_cost_topk, frontier3d_topk_solve, topk_update};
use vi_rs::reference::solvers::compact::{column_range, compute_column_jacobi, couple_margin, ensure_window, finalize_column,
    relax_column, write_back_sink, BlockStore, CompactSink, RamSink};
use vi_rs::reference::solvers::priority::{build_rev_theta, relax_cell};
use vi_rs::reference::state::{Action, State, StateTransition};
use vi_rs::reference::value_iterator::{to_index_raw, StateSpace};

const PB: u64 = PROB_BASE;

/// A corridor of `nx` cells, one heading, goal at the east end; one action
/// moving one cell east with certainty.  Every free cell costs one step.
fn corridor(nx: i32) -> StateSpace {
    let mut states = Vec::new();
    for x in 0..nx {
        let goal = x == nx - 1;
        states.push(State {
            ix: x,
            iy: 0,
            it: 0,
            total_cost: if goal { 0 } else { MAX_COST },
            penalty: PB,
            local_penalty: 0,
            free: true,
            final_state: goal,
            optimal_action: None,
        });
    }
    let east = Action::new("east".to_string(), 7, vec![vec![StateTransition::new(1, 0, 0, PB as i32)]]);
    StateSpace::new(states, vec![east], nx, 1, 1).expect("well-formed corridor")
}

fn costs(sp: &StateSpace) -> Vec<u64> {
    sp.states.iter().map(|s| s.total_cost).collect()
}

#[test]
fn solver_from_str() {
    assert!(matches!(U64Solver::from_name("frontier3d"), Some(U64Solver::Frontier3D)));
    assert!(matches!(U64Solver::from_name("reference"), Some(U64Solver::Reference)));
    assert!(U64Solver::from_name("nope").is_none());
}

#[test]
fn from_name_gives_default_parameters() {
    assert_eq!(U64Solver::from_name("frontier3d_topk"), Some(U64Solver::Frontier3DTopK { k: u32::MAX }));
    assert_eq!(U64Solver::from_name("prio_lc"), Some(U64Solver::PriorityLabelCorrecting));
    assert_eq!(U64Solver::from_name("pyramid"), None);
}

#[test]
fn index_is_heading_fastest() {
    assert_eq!(to_index_raw(2, 1, 3, 4, 5), 3 + 2 * 5 + 1 * 20);
}

#[test]
fn reference_solve_reaches_fixed_point() {
    let mut sp = corridor(4);
    let (iters, updates, converged) = reference_solve(&mut sp, 100);
    assert_eq!((iters, updates, converged), (4, 0, true));
    assert_eq!(costs(&sp), vec![3 * PB, 2 * PB, PB, 0]);
    assert_eq!(sp.states[0].optimal_action, Some(0));
    assert_eq!(sp.states[3].optimal_action, None);
}

#[test]
fn reference_solve_stops_at_budget() {
    let mut sp = corridor(6);
    let (iters, _, converged) = reference_solve(&mut sp, 2);
    assert_eq!((iters, converged), (2, false));
    // An unreached neighbour costs MAX_COST + PB per step; weighted by the
    // probability it wraps around in u64, as the cost model specifies.  The
    // first sweep leaves that wrapped value on cells 0..=3, the second adds a step.
    let wrapped = (MAX_COST + PB).wrapping_mul(PB) >> 18;
    assert!(wrapped < MAX_COST && wrapped >= REACH_THRESH);
    assert_eq!(costs(&sp), vec![wrapped + PB, wrapped + PB, wrapped + PB, 2 * PB, PB, 0]);
}

#[test]
fn frontier_solvers_agree_with_reference() {
    let mut r = corridor(5);
    reference_solve(&mut r, 100);
    let mut f3 = corridor(5);
    let (i3, u3, c3) = frontier3d_solve(&mut f3, 100);
    let mut f2 = corridor(5);
    let (i2, u2, c2) = frontier2d_solve(&mut f2, 100);
    assert!(c3 && c2);
    assert_eq!((i3, u3), (5, 4));
    assert_eq!((i2, u2), (5, 4));
    assert_eq!(costs(&f3), costs(&r));
    assert_eq!(costs(&f2), costs(&r));
}

#[test]
fn blocked_outcome_costs_max() {
    let mut sp = corridor(3);
    sp = {
        let mut states = sp.states.clone();
        states[1].free = false;
        StateSpace::new(states, vec![Action::new("east".to_string(), 7, vec![vec![StateTransition::new(1, 0, 0, PB as i32)]])], 3, 1, 1).unwrap()
    };
    let st = sp.states[0];
    assert_eq!(sp.action_cost(&st, &sp.actions[0]), MAX_COST);
    let d = sp.value_iteration_at(0);
    assert_eq!(d, 0);
    assert_eq!(sp.states[0].optimal_action, None);
}

#[test]
fn value_iteration_picks_first_cheapest_action() {
    // Two actions with the same outcome: the first one wins the tie.
    let mut states = corridor(2).states;
    states[0].total_cost = 5;
    let a = Action::new("a".to_string(), 0, vec![vec![StateTransition::new(1, 0, 0, PB as i32)]]);
    let b = Action::new("b".to_string(), 1, vec![vec![StateTransition::new(1, 0, 0, PB as i32)]]);
    let mut sp = StateSpace::new(states, vec![a, b], 2, 1, 1).unwrap();
    let d = sp.value_iteration_at(0);
    assert_eq!(sp.states[0].total_cost, PB);
    assert_eq!(sp.states[0].optimal_action, Some(0));
    assert_eq!(d, PB - 5);
}

#[test]
fn displacement_covers_offsets() {
    let a = Action::new(
        "a".to_string(),
        0,
        vec![
            vec![StateTransition::new(-3, 1, 3, 1)],
            vec![StateTransition::new(2, -2, 0, 1)],
            vec![],
            vec![StateTransition::new(0, 0, 3, 1)],
        ],
    );
    // Heading distances on 4 headings: |3-0| -> 1, |0-1| -> 1, |3-3| -> 0.
    assert_eq!(displacement(&vec![a], 4), (3, 2, 1));
    assert_eq!(displacement(&vec![], 4), (1, 1, 0));
}

#[test]
fn seeds_hold_reached_cells() {
    let sp = corridor(4);
    let s3 = seed_frontier(&sp);
    assert_eq!(s3.popcount(), 1);
    assert!(s3.test(3, 0, 0));
    let s2 = seed_frontier_2d(&sp);
    assert_eq!(s2.enumerate(), vec![(3, 0)]);
}

#[test]
fn state_space_rejects_bad_layouts() {
    let good = corridor(3).states;
    let east = || vec![Action::new("e".to_string(), 0, vec![vec![StateTransition::new(1, 0, 0, 1)]])];
    assert!(StateSpace::new(good.clone(), east(), 3, 1, 1).is_some());
    // Wrong count.
    assert!(StateSpace::new(good.clone(), east(), 4, 1, 1).is_none());
    // State stored at the wrong index.
    let mut swapped = good.clone();
    swapped.swap(0, 1);
    assert!(StateSpace::new(swapped, east(), 3, 1, 1).is_none());
    // Transition list missing for the heading.
    assert!(StateSpace::new(good.clone(), vec![Action::new("e".to_string(), 0, vec![])], 3, 1, 1).is_none());
    // Heading below -nt.
    assert!(StateSpace::new(good, vec![Action::new("e".to_string(), 0, vec![vec![StateTransition::new(1, 0, -2, 1)]])], 3, 1, 1).is_none());
}

#[test]
fn reach_threshold_value() {
    assert_eq!(REACH_THRESH, 1_000_000 * PB);
    assert_eq!(MAX_COST, 1_000_000_000 * PB);
}

#[test]
fn block_refine_agrees_with_reference() {
    let mut r = corridor(20);
    reference_solve(&mut r, 1000);
    let mut b = corridor(20);
    let (_, updates, converged) = block_refine_solve(&mut b, 1000);
    assert!(converged);
    assert!(updates > 0);
    assert_eq!(costs(&b), costs(&r));
    assert_eq!(costs(&b)[0], 19 * PB);
}

#[test]
fn block_refine_any_block_size_same_fixed_point() {
    let mut r = corridor(13);
    reference_solve(&mut r, 1000);
    for (block, passes) in [(1, 1), (3, 2), (5, 1), (64, 3)] {
        let mut b = corridor(13);
        let (_, _, converged) = block_refine_sized(&mut b, block, passes, 1000);
        assert!(converged);
        assert_eq!(costs(&b), costs(&r));
    }
}

#[test]
fn block_refine_stops_at_budget() {
    let mut b = corridor(40);
    let (iters, _, converged) = block_refine_sized(&mut b, 4, 1, 2);
    assert_eq!((iters, converged), (2, false));
    // Blocks far from the goal were never active: their costs are untouched.
    assert_eq!(b.states[0].total_cost, MAX_COST);
    assert_eq!(b.states[39].total_cost, 0);
}

#[test]
fn block_refine_without_reached_cells_does_nothing() {
    let mut b = corridor(6);
    for s in b.states.iter_mut() {
        s.total_cost = MAX_COST;
    }
    assert_eq!(block_refine_solve(&mut b, 10), (0, 0, true));
}

#[test]
fn rot_dilate_wraps_around_the_circle() {
    assert_eq!(rot_dilate(0b1, 1, 8), 0b1000_0011);
    assert_eq!(rot_dilate(1 << 3, 2, 8), 0b0011_1110);
    assert_eq!(rot_dilate(0b1, 0, 4), 0b1);
    assert_eq!(rot_dilate(0b1, -3, 4), 0b1);
    assert_eq!(rot_dilate(0b1, 1, 64), 0b11 | (1u64 << 63));
    assert_eq!(rot_dilate(0b1, 5, 6), 0b11_1111);
}

#[test]
fn fused_layout_pads_and_fuses() {
    let sp = corridor(4);
    let g = Geom::build(&sp);
    assert_eq!((g.mx, g.my, g.row_stride), (1, 1, 6));
    assert_eq!(g.n_pad(), 18);
    let f = Fused::build_direct(&sp, &g);
    // Column x of the single row sits at padded index x + 1 + 1 * row_stride.
    let goal = g.pad_col(3, 0) as usize;
    assert_eq!(goal, 3 + 1 + 6);
    assert_eq!(f.cp[goal], PB);
    assert!(!f.eval_ok[goal]);
    assert_eq!(f.cp[g.pad_col(0, 0) as usize], UNREACHED);
    assert_eq!(f.cp[0], UNREACHED);
    assert!(f.eval_ok[g.pad_col(2, 0) as usize]);
    // From x = 2 the east move reads the goal cell: one step.
    let c = action_cost_fused(&f.cp, &g.precomp[0][0], g.pad_col(2, 0));
    assert_eq!(c, PB);
    // From x = 1 it reads an unreached cell.
    assert_eq!(action_cost_fused(&f.cp, &g.precomp[0][0], g.pad_col(1, 0)), MAX_COST);
    assert_eq!(build_precomp(&sp.actions, 1, 6), vec![vec![vec![(1i64, PB)]]]);
}

#[test]
fn fused_write_back_restores_reached_costs() {
    let mut sp = corridor(4);
    let g = Geom::build(&sp);
    let f = Fused::build_direct(&sp, &g);
    let opt = final_policy_fused(&sp, &g, &f, false);
    assert_eq!(opt, vec![None, None, Some(0), None]);
    write_back_fused(&mut sp, &g, &f, &opt);
    assert_eq!(costs(&sp), vec![MAX_COST, MAX_COST, MAX_COST, 0]);
    assert_eq!(sp.states[2].optimal_action, Some(0));
}

#[test]
fn sparse_solver_agrees_with_reference() {
    let mut r = corridor(9);
    reference_solve(&mut r, 1000);
    let mut s = corridor(9);
    let (iters, updates, converged) = frontier2d_sparse_solve(&mut s, 1000);
    assert!(converged);
    assert_eq!(updates, 8);
    assert_eq!(iters, 9);
    assert_eq!(costs(&s), costs(&r));
    assert_eq!(s.states[0].optimal_action, Some(0));
    assert_eq!(s.states[8].optimal_action, None);
}

#[test]
fn sparse_solver_runs_one_round_at_least() {
    let mut s = corridor(9);
    let (iters, updates, converged) = frontier2d_sparse_solve(&mut s, 0);
    assert_eq!((iters, updates, converged), (1, 1, false));
    assert_eq!(s.states[7].total_cost, PB);
    assert_eq!(s.states[6].total_cost, MAX_COST);
}

/// A corridor whose one action moves east with weight 3/4 and stays with weight 1/4.
fn slippery(nx: i32) -> StateSpace {
    let mut sp = corridor(nx);
    let q = (PB / 4) as i32;
    sp.actions = vec![Action::new("east".to_string(), 7,
        vec![vec![StateTransition::new(0, 0, 0, q), StateTransition::new(1, 0, 0, 3 * q)]])];
    sp
}

#[test]
fn topk_cost_keeps_the_most_probable_outcome() {
    let mut sp = slippery(4);
    sp.states[2].total_cost = 10 * PB;
    let s = sp.states[1];
    // k = 1 keeps the east move only: the cost of cell 2, normalized by its weight.
    assert_eq!(action_cost_topk(&sp.states, &sp.actions[0], &s, 1, 4, 1, 1), 11 * PB);
    // k = 2 keeps both: the exact cost, with cell 1 unreached (its cost wraps).
    let exact = ((MAX_COST + PB).wrapping_mul(PB / 4)).wrapping_add((11 * PB).wrapping_mul(3 * PB / 4)) >> 18;
    assert_eq!(action_cost_topk(&sp.states, &sp.actions[0], &s, 2, 4, 1, 1), exact);
}

#[test]
fn topk_update_writes_the_best_action() {
    let mut sp = slippery(4);
    assert!(topk_update(&mut sp, 2, 1));
    assert_eq!(sp.states[2].total_cost, PB);
    assert_eq!(sp.states[2].optimal_action, Some(0));
    assert!(!topk_update(&mut sp, 3, 1));
}

#[test]
fn topk_full_matches_frontier3d() {
    let mut a = corridor(7);
    let ra = frontier3d_solve(&mut a, 100);
    let mut b = corridor(7);
    let rb = frontier3d_topk_solve(&mut b, u32::MAX, 100);
    assert_eq!(ra, rb);
    assert_eq!(costs(&a), costs(&b));
}

#[test]
fn topk_pruned_solver_converges() {
    let mut sp = slippery(5);
    let (_, _, converged) = frontier3d_topk_solve(&mut sp, 1, 100);
    assert!(converged);
    assert_eq!(costs(&sp), vec![4 * PB, 3 * PB, 2 * PB, PB, 0]);
}

#[test]
fn couple_margin_saturates() {
    let sp = corridor(4);
    let g = Geom::build(&sp);
    assert_eq!(couple_margin(&g, 0), 4);
    assert_eq!(couple_margin(&g, 10), 40);
    assert_eq!(couple_margin(&g, u64::MAX), u64::MAX);
}

#[test]
fn ram_sink_stores_columns() {
    let mut sink = RamSink::new(6);
    assert_eq!(sink.read(4), (MAX_COST, -1));
    sink.write_column(2, &[5, 6, 7], &[0, -1, 2]);
    assert_eq!(sink.read(1), (MAX_COST, -1));
    assert_eq!(sink.read(2), (5, 0));
    assert_eq!(sink.read(3), (6, -1));
    assert_eq!(sink.read(4), (7, 2));
    assert_eq!(sink.read(5), (MAX_COST, -1));
}

#[test]
fn relax_cell_reports_improvements() {
    let mut sp = corridor(4);
    assert_eq!(relax_cell(&mut sp, 2), Some(PB));
    assert_eq!(relax_cell(&mut sp, 2), None);
    assert_eq!(relax_cell(&mut sp, 3), None);
}

#[test]
fn rev_theta_round_trips_forward_transitions() {
    let sp = slippery(4);
    let rev = build_rev_theta(&sp);
    assert_eq!(rev.len(), 1);
    assert_eq!(rev[0], vec![(0, 0, 0), (1, 0, 0)]);
    // Every outcome appears in the bucket of its landing heading, sorted and unique.
    let mut two = corridor(3);
    two.actions.push(Action::new("again".to_string(), 8, vec![vec![StateTransition::new(1, 0, 0, PB as i32)]]));
    let rev2 = build_rev_theta(&two);
    assert_eq!(rev2[0], vec![(1, 0, 0)]);
}

#[test]
fn pad_solver_agrees_with_reference() {
    let mut r = corridor(9);
    reference_solve(&mut r, 1000);
    let mut s = corridor(9);
    let (iters, updates, converged) = frontier2d_pad_solve(&mut s, 1000);
    assert!(converged);
    assert_eq!((iters, updates), (9, 8));
    assert_eq!(costs(&s), costs(&r));
    assert_eq!(s.states[0].optimal_action, Some(0));
    assert_eq!(s.states[8].optimal_action, None);
}

#[test]
fn pad_solver_stops_at_budget() {
    let mut z = corridor(9);
    assert_eq!(frontier2d_pad_solve(&mut z, 0), (0, 0, false));
    assert_eq!(costs(&z), costs(&corridor(9)));
    let mut s = corridor(9);
    let (iters, updates, converged) = frontier2d_pad_solve(&mut s, 1);
    assert_eq!((iters, updates, converged), (1, 1, false));
    assert_eq!(s.states[7].total_cost, PB);
    assert_eq!(s.states[6].total_cost, MAX_COST);
}

#[test]
fn pad_cost_blocks_walls_and_unreached_cells() {
    let hot = vec![(MAX_COST, 0), (5 * PB, PB), (MAX_COST, PB)];
    let free = vec![false, true, true];
    assert_eq!(action_cost_pad(&hot, &free, &vec![(1, PB)], 0), 6 * PB);
    assert_eq!(action_cost_pad(&hot, &free, &vec![(1, PB / 2), (1, PB / 2)], 0), 6 * PB);
    assert_eq!(action_cost_pad(&hot, &free, &vec![(2, PB)], 0), MAX_COST);
    assert_eq!(action_cost_pad(&hot, &free, &vec![(-1, PB)], 1), MAX_COST);
}

#[test]
fn padded_arrays_hold_states_and_walls() {
    let mut sp = corridor(3);
    sp.states[1].free = false;
    let m = Padded::build(&sp);
    assert_eq!((m.g.mx, m.g.my), (1, 1));
    let n_pad = m.g.n_pad();
    assert_eq!(n_pad, 5 * 3);
    assert_eq!(m.hot.len(), n_pad);
    let j = |x: i32| (m.pad_col(x, 0)) as usize;
    assert_eq!(m.hot[j(2)], (0, PB));
    assert!(m.free[j(2)] && m.finals[j(2)]);
    assert_eq!(m.hot[j(0)], (MAX_COST, PB));
    assert!(!m.free[j(1)]);
    assert_eq!(m.hot[j(-1)], (MAX_COST, 0));
    assert!(!m.free[j(-1)] && !m.finals[j(-1)]);
    let mut back = corridor(3);
    m.write_back(&mut back, None);
    assert_eq!(costs(&back), vec![MAX_COST, MAX_COST, 0]);
}

#[test]
fn par_solver_agrees_with_reference() {
    let mut r = corridor(9);
    reference_solve(&mut r, 1000);
    let mut s = corridor(9);
    let (iters, updates, converged) = frontier2d_par_solve(&mut s, 1000);
    assert!(converged);
    assert_eq!((iters, updates), (9, 8));
    assert_eq!(costs(&s), costs(&r));
    assert_eq!(s.states[0].optimal_action, Some(0));
    assert_eq!(s.states[8].optimal_action, None);
}

#[test]
fn par_solver_chooses_actions_from_final_costs() {
    let mut s = corridor(9);
    assert_eq!(frontier2d_par_solve(&mut s, 1), (1, 1, false));
    assert_eq!(s.states[7].total_cost, PB);
    assert_eq!(s.states[7].optimal_action, Some(0));
    // Cell 6 was never a candidate, but its neighbour is reached now.
    assert_eq!(s.states[6].total_cost, MAX_COST);
    assert_eq!(s.states[6].optimal_action, Some(0));
    assert_eq!(s.states[5].optimal_action, None);
    assert_eq!(s.states[8].optimal_action, None);
}

#[test]
fn clamped_solvers_count_an_unreached_self_outcome_as_blocked() {
    let mut a = slippery(6);
    let mut b = slippery(6);
    assert_eq!(frontier2d_par_solve(&mut a, 1000), (1, 0, true));
    assert_eq!(frontier2d_pad_solve(&mut b, 1000), (1, 0, true));
    let expected = vec![MAX_COST, MAX_COST, MAX_COST, MAX_COST, MAX_COST, 0];
    assert_eq!(costs(&a), expected);
    assert_eq!(costs(&b), expected);
}

/// A tower of `ny` cells, one heading, goal at the top; one action moving one
/// cell north with certainty.
fn tower(ny: i32) -> StateSpace {
    let mut states = Vec::new();
    for y in 0..ny {
        let goal = y == ny - 1;
        states.push(State {
            ix: 0,
            iy: y,
            it: 0,
            total_cost: if goal { 0 } else { MAX_COST },
            penalty: PB,
            local_penalty: 0,
            free: true,
            final_state: goal,
            optimal_action: None,
        });
    }
    let north = Action::new("north".to_string(), 7, vec![vec![StateTransition::new(0, 1, 0, PB as i32)]]);
    StateSpace::new(states, vec![north], 1, ny, 1).expect("well-formed tower")
}

/// Padded index of cell `(0, y, 0)` of the tower: margins of one cell, rows of three.
fn tower_pad(y: usize) -> usize {
    1 + 3 * (y + 1)
}

#[test]
fn block_store_counts_cells_per_block() {
    let sp = tower(20);
    let g = Geom::build(&sp);
    let store = BlockStore::new(&g, &sp.states);
    assert_eq!(store.nblocks(), 3);
    assert_eq!(store.resident_blocks(), 0);
    assert_eq!(store.n_eval, vec![7, 8, 4]);
    assert_eq!(store.max_pen, PB);
    assert_eq!(store.chunk, 24);
}

#[test]
fn block_store_builds_blocks_from_states() {
    let sp = tower(20);
    let g = Geom::build(&sp);
    let mut store = BlockStore::new(&g, &sp.states);
    store.ensure_block(2, &sp.states);
    store.ensure_block(0, &sp.states);
    assert_eq!(store.resident_blocks(), 2);
    assert_eq!(store.get(tower_pad(19)), PB);
    assert_eq!(store.pen(tower_pad(19)), PB);
    assert!(!store.eval_ok(tower_pad(19)));
    assert_eq!(store.get(tower_pad(3)), UNREACHED);
    assert!(store.eval_ok(tower_pad(3)));
    assert_eq!(store.get(0), UNREACHED);
    assert_eq!(store.pen(0), 0);
    store.set_cp(tower_pad(3), 5);
    assert_eq!(store.get(tower_pad(3)), 5);
}

#[test]
fn block_store_finalizes_and_frees_blocks() {
    let sp = tower(20);
    let g = Geom::build(&sp);
    let mut store = BlockStore::new(&g, &sp.states);
    store.ensure_block(2, &sp.states);
    assert!(!store.block_full(2));
    for y in 15..19 {
        store.set_final(tower_pad(y));
    }
    store.set_final(tower_pad(15));
    store.set_final(tower_pad(19));
    assert_eq!(store.n_final[2], 4);
    assert!(store.block_full(2));
    store.evict_block(2);
    assert_eq!(store.resident_blocks(), 0);
    store.ensure_block(2, &sp.states);
    assert_eq!(store.resident_blocks(), 0);
}

#[test]
fn window_covers_the_rows_a_column_reads() {
    let sp = tower(20);
    let g = Geom::build(&sp);
    let mut store = BlockStore::new(&g, &sp.states);
    ensure_window(&mut store, 0, 7, &sp.states);
    assert!(store.blocks[0].is_some() && store.blocks[1].is_some() && store.blocks[2].is_none());
}

#[test]
fn compact_columns_relax_compute_and_finalize() {
    let sp = tower(20);
    let g = Geom::build(&sp);
    let mut store = BlockStore::new(&g, &sp.states);
    assert_eq!(relax_column(&mut store, &g, 0, 18, &sp.states), (true, PB, PB, 1));
    assert_eq!(store.get(tower_pad(18)), 2 * PB);
    assert_eq!(relax_column(&mut store, &g, 0, 18, &sp.states), (false, PB, PB, 0));
    assert_eq!(column_range(&store, &g, 0, 19), (0, 0));
    let r = compute_column_jacobi(&store, &g, 0, 17);
    assert_eq!((r.ixu, r.iyu), (0, 17));
    assert_eq!(r.updates, vec![(tower_pad(17), 3 * PB)]);
    assert_eq!((r.mn, r.mx, r.changed), (2 * PB, 2 * PB, true));
    assert_eq!(store.get(tower_pad(17)), UNREACHED);
    let mut sink = RamSink::new(20);
    assert_eq!(finalize_column(&mut store, &g, 0, 18, &sp.states, &mut sink), 1);
    assert_eq!(sink.read(18), (PB, 0));
    assert_eq!(sink.read(17), (MAX_COST, -1));
    assert_eq!(finalize_column(&mut store, &g, 0, 19, &sp.states, &mut sink), 0);
    assert_eq!(sink.read(19), (0, -1));
    assert_eq!(store.n_final[2], 1);
}

#[test]
fn solve_dispatches_by_solver() {
    let mut r = corridor(5);
    reference_solve(&mut r, 100);
    for solver in [U64Solver::Reference, U64Solver::Frontier3D, U64Solver::Frontier2D, U64Solver::Frontier2DPad,
        U64Solver::Frontier2DPar, U64Solver::Frontier2DSparse, U64Solver::BlockRefine, U64Solver::Frontier3DTopK { k: 8 }] {
        let mut sp = corridor(5);
        let st = solve(&mut sp, solver, 100).expect("available solver");
        assert!(st.converged);
        assert_eq!(costs(&sp), costs(&r));
    }
    let mut sp = corridor(5);
    let st = solve(&mut sp, U64Solver::Frontier2DPad, 100).unwrap();
    assert_eq!((st.iters, st.updates), (5, 4));
    let mut untouched = corridor(5);
    assert!(solve(&mut untouched, U64Solver::FrontierStack, 100).is_none());
    assert_eq!(costs(&untouched), costs(&corridor(5)));
}

#[test]
fn sink_writes_back_values_and_actions() {
    let mut sp = corridor(3);
    let g = Geom::build(&sp);
    let mut sink = RamSink::new(3);
    sink.write_column(0, &[PB, 0, 7], &[0, -1, 2]);
    write_back_sink(&mut sp, &g, &sink);
    assert_eq!(costs(&sp), vec![PB, 0, 7]);
    assert_eq!(sp.states[0].optimal_action, Some(0));
    assert_eq!(sp.states[1].optimal_action, None);
    assert_eq!(sp.states[2].optimal_action, Some(2));
}

/// An `nx × ny` grid with one heading, the cells of `walls` not free, the goal
/// at `goal`; four actions moving one cell east, north, west or south.
fn grid(nx: i32, ny: i32, walls: &[(i32, i32)], goal: (i32, i32)) -> StateSpace {
    let mut states = Vec::new();
    for y in 0..ny {
        for x in 0..nx {
            let is_goal = (x, y) == goal;
            states.push(State {
                ix: x,
                iy: y,
                it: 0,
                total_cost: if is_goal { 0 } else { MAX_COST },
                penalty: PB,
                local_penalty: 0,
                free: !walls.contains(&(x, y)),
                final_state: is_goal,
                optimal_action: None,
            });
        }
    }
    let mv = |name: &str, id: i32, dx: i32, dy: i32| {
        Action::new(name.to_string(), id, vec![vec![StateTransition::new(dx, dy, 0, PB as i32)]])
    };
    let actions = vec![mv("east", 0, 1, 0), mv("north", 1, 0, 1), mv("west", 2, -1, 0), mv("south", 3, 0, -1)];
    StateSpace::new(states, actions, nx, ny, 1).expect("well-formed grid")
}

fn assert_grid_parity(nx: i32, ny: i32, walls: &[(i32, i32)], goal: (i32, i32)) {
    let mut r = grid(nx, ny, walls, goal);
    let (_, _, rc) = reference_solve(&mut r, 2000);
    assert!(rc);
    for solver in [U64Solver::Frontier3D, U64Solver::Frontier2D, U64Solver::Frontier2DPad, U64Solver::Frontier2DPar,
        U64Solver::Frontier2DParUnsafe, U64Solver::Frontier2DFused, U64Solver::Frontier2DSparse, U64Solver::BlockRefine, U64Solver::Frontier3DTopK { k: u32::MAX },
        U64Solver::Frontier3DTau { tau: 0 }, U64Solver::Frontier3DCoarseTheta { step: 1 }] {
        let mut b = grid(nx, ny, walls, goal);
        let st = solve(&mut b, solver, 2000).expect("available solver");
        assert!(st.converged, "{solver:?}");
        for i in 0..r.states.len() {
            if r.states[i].total_cost < REACH_THRESH {
                assert_eq!(b.states[i].total_cost, r.states[i].total_cost, "{solver:?} @ {i}");
                assert_eq!(b.states[i].optimal_action, r.states[i].optimal_action, "{solver:?} @ {i}");
            }
        }
    }
}

#[test]
fn grid_parity_empty_8x8() {
    assert_grid_parity(8, 8, &[], (1, 1));
}

#[test]
fn grid_parity_wall_8x8() {
    let walls: Vec<(i32, i32)> = (0..7).map(|y| (4, y)).collect();
    assert_grid_parity(8, 8, &walls, (1, 1));
}

#[test]
fn grid_parity_enclosed_region_8x8() {
    let walls = [(5, 5), (6, 5), (7, 5), (5, 6), (5, 7), (2, 1)];
    assert_grid_parity(8, 8, &walls, (1, 1));
}

#[test]
fn grid_parity_empty_32x24() {
    assert_grid_parity(32, 24, &[], (3, 2));
}

#[test]
fn grid_distances_are_steps_to_goal() {
    let walls: Vec<(i32, i32)> = (0..7).map(|y| (4, y)).collect();
    let mut r = grid(8, 8, &walls, (1, 1));
    reference_solve(&mut r, 2000);
    // The wall at x = 4 leaves one gap, at (4, 7).
    let idx = |x: i32, y: i32| (y * 8 + x) as usize;
    assert_eq!(r.states[idx(1, 1)].total_cost, 0);
    assert_eq!(r.states[idx(2, 1)].total_cost, PB);
    assert_eq!(r.states[idx(3, 7)].total_cost, 8 * PB);
    assert_eq!(r.states[idx(5, 7)].total_cost, 10 * PB);
    assert!(r.states[idx(4, 3)].total_cost >= REACH_THRESH);
}

#[test]
fn asynchronous_solvers_match_jacobi_on_a_walled_grid() {
    let walls: Vec<(i32, i32)> = (1..8).map(|y| (3, y)).collect();
    let mut a = grid(10, 8, &walls, (1, 1));
    let (_, _, ca) = frontier2d_par_solve(&mut a, 2000);
    assert!(ca);
    let mut b = grid(10, 8, &walls, (1, 1));
    let (ib, ub, cb) = frontier2d_par_unsafe_solve(&mut b, 2000);
    assert!(cb);
    assert!(ib >= 1 && ub >= 1);
    let mut c = grid(10, 8, &walls, (1, 1));
    let (ic, uc, cc) = frontier2d_fused_solve(&mut c, 2000);
    assert!(cc);
    assert_eq!((ic, uc), (ib, ub));
    for i in 0..a.states.len() {
        assert_eq!(b.states[i].total_cost, a.states[i].total_cost, "@ {i}");
        assert_eq!(b.states[i].optimal_action, a.states[i].optimal_action, "@ {i}");
        if a.states[i].total_cost < REACH_THRESH {
            assert_eq!(c.states[i].total_cost, a.states[i].total_cost, "@ {i}");
            assert_eq!(c.states[i].optimal_action, a.states[i].optimal_action, "@ {i}");
        }
    }
}

#[test]
fn jacobi_and_fused_agree_on_every_free_cell() {
    let walls: Vec<(i32, i32)> = (0..7).map(|y| (4, y)).collect();
    let mut a = grid(9, 7, &walls, (1, 1));
    let (_, _, ca) = frontier2d_par_solve(&mut a, 500);
    assert!(ca);
    let mut c = grid(9, 7, &walls, (1, 1));
    let (_, _, cc) = frontier2d_fused_solve(&mut c, 700);
    assert!(cc);
    let mut unreached_free = 0;
    for i in 0..a.states.len() {
        assert_eq!(c.states[i].optimal_action, a.states[i].optimal_action, "@ {i}");
        if a.states[i].free {
            assert_eq!(c.states[i].total_cost, a.states[i].total_cost, "@ {i}");
            if a.states[i].total_cost == MAX_COST {
                unreached_free += 1;
            }
        }
    }
    assert!(a.states.iter().any(|s| s.free && !s.final_state && s.total_cost < REACH_THRESH));
    assert_eq!(unreached_free, 4 * 7);
}

#[test]
fn jacobi_and_padded_agree_on_every_cost() {
    let walls: Vec<(i32, i32)> = (0..7).map(|y| (4, y)).collect();
    let mut a = grid(9, 7, &walls, (1, 1));
    let (_, _, ca) = frontier2d_par_solve(&mut a, 500);
    assert!(ca);
    let mut c = grid(9, 7, &walls, (1, 1));
    let (_, _, cc) = frontier2d_pad_solve(&mut c, 700);
    assert!(cc);
    for i in 0..a.states.len() {
        assert_eq!(c.states[i].total_cost, a.states[i].total_cost, "@ {i}");
    }
    assert!(a.states.iter().any(|s| s.free && !s.final_state && s.total_cost < REACH_THRESH));
    assert!(a.states.iter().any(|s| s.free && s.total_cost == MAX_COST));
}

/// A warm start above the fixed point: every free cell reached, each raised
/// by the same amount, so no cell lies below its clamped best cost.
#[test]
fn jacobi_reference_and_frontier_solvers_agree_from_a_reached_start() {
    let mut g = grid(6, 5, &[], (1, 1));
    let (_, _, cg) = frontier2d_par_solve(&mut g, 500);
    assert!(cg);
    assert!(g.states.iter().all(|s| s.total_cost < MAX_COST));
    let warm = |g: &StateSpace| {
        let mut w = grid(6, 5, &[], (1, 1));
        for i in 0..w.states.len() {
            w.states[i].total_cost = if w.states[i].final_state { 0 } else { g.states[i].total_cost + 5 * PB };
        }
        w
    };
    let mut a = warm(&g);
    let (_, _, ca) = frontier2d_par_solve(&mut a, 500);
    assert!(ca);
    let mut b = warm(&g);
    let (_, _, cb) = frontier2d_solve(&mut b, 500);
    assert!(cb);
    let mut c = warm(&g);
    let (_, _, cc) = reference_solve(&mut c, 2000);
    assert!(cc);
    let mut d = warm(&g);
    let (_, _, cd) = frontier2d_pad_solve(&mut d, 500);
    assert!(cd);
    let mut e = warm(&g);
    let (_, _, ce) = frontier3d_solve(&mut e, 500);
    assert!(ce);
    let mut h = warm(&g);
    let (_, _, ch) = frontier3d_topk_solve(&mut h, u32::MAX, 500);
    assert!(ch);
    for i in 0..a.states.len() {
        assert_eq!(e.states[i].total_cost, a.states[i].total_cost, "@ {i}");
        assert_eq!(h.states[i].total_cost, a.states[i].total_cost, "@ {i}");
        assert_eq!(b.states[i].total_cost, a.states[i].total_cost, "@ {i}");
        assert_eq!(c.states[i].total_cost, a.states[i].total_cost, "@ {i}");
        assert_eq!(d.states[i].total_cost, a.states[i].total_cost, "@ {i}");
        assert_eq!(a.states[i].total_cost, g.states[i].total_cost, "@ {i}");
    }
}

#[test]
fn jacobi_and_sparse_agree_on_every_free_cell() {
    let walls: Vec<(i32, i32)> = (0..7).map(|y| (4, y)).collect();
    let mut a = grid(9, 7, &walls, (1, 1));
    let (_, _, ca) = frontier2d_par_solve(&mut a, 500);
    assert!(ca);
    let mut c = grid(9, 7, &walls, (1, 1));
    let (_, _, cc) = frontier2d_sparse_solve(&mut c, 700);
    assert!(cc);
    let mut unreached_free = 0;
    for i in 0..a.states.len() {
        assert_eq!(c.states[i].optimal_action, a.states[i].optimal_action, "@ {i}");
        if a.states[i].free {
            assert_eq!(c.states[i].total_cost, a.states[i].total_cost, "@ {i}");
            if a.states[i].total_cost == MAX_COST {
                unreached_free += 1;
            }
        }
    }
    assert!(a.states.iter().any(|s| s.free && !s.final_state && s.total_cost < REACH_THRESH));
    assert_eq!(unreached_free, 4 * 7);
}

/// Four cells in a row: the goal, two free cells and a wall.  The one action
/// moves west with weight 191775 and east with weight 70369.  The east cell
/// only ever reaches the wall, so it stays unreached; the full-sweep update of
/// the cell between them multiplies `MAX_COST` by 70369 in wrapping `u64`
/// arithmetic and comes out reached, while the clamped solvers leave it unreached.
#[test]
fn reference_and_clamped_solvers_part_where_an_outcome_is_unreached() {
    let build = || {
        let mut states = Vec::new();
        for x in 0..4 {
            states.push(State {
                ix: x,
                iy: 0,
                it: 0,
                total_cost: if x == 0 { 0 } else { MAX_COST },
                penalty: PB,
                local_penalty: 0,
                free: x != 3,
                final_state: x == 0,
                optimal_action: None,
            });
        }
        let act = Action::new("drift".to_string(), 0,
            vec![vec![StateTransition::new(-1, 0, 0, 191_775), StateTransition::new(1, 0, 0, 70_369)]]);
        StateSpace::new(states, vec![act], 4, 1, 1).expect("well-formed row")
    };
    let mut r = build();
    let (_, _, rc) = reference_solve(&mut r, 100);
    assert!(rc);
    let wrapped = (PB * 191_775).wrapping_add((MAX_COST + PB).wrapping_mul(70_369)) >> 18;
    assert_eq!(wrapped, 256_084_480);
    assert_eq!(r.states[1].total_cost, wrapped);
    assert!(r.states[1].total_cost < REACH_THRESH);
    assert_eq!(r.states[2].total_cost, MAX_COST);
    let mut p = build();
    let (_, _, pc) = frontier2d_par_solve(&mut p, 100);
    assert!(pc);
    assert_eq!(p.states[1].total_cost, MAX_COST);
    assert_eq!(p.states[1].optimal_action, None);
    let mut f2 = build();
    let (_, _, c2) = frontier2d_solve(&mut f2, 100);
    assert!(c2);
    assert_eq!(f2.states[1].total_cost, wrapped);
    let mut f3 = build();
    let (_, _, c3) = frontier3d_solve(&mut f3, 100);
    assert!(c3);
    assert_eq!(f3.states[1].total_cost, wrapped);
}

#[test]
fn sparse_rounds_never_undercut_the_jacobi_fixed_point() {
    let walls: Vec<(i32, i32)> = (1..7).map(|y| (3, y)).collect();
    let mut a = grid(8, 7, &walls, (1, 1));
    let (_, _, ca) = frontier2d_par_solve(&mut a, 500);
    assert!(ca);
    for budget in [1u32, 2, 3, 500] {
        let mut b = grid(8, 7, &walls, (1, 1));
        let (_, _, cb) = frontier2d_sparse_solve(&mut b, budget);
        for i in 0..a.states.len() {
            if a.states[i].free {
                assert!(a.states[i].total_cost <= b.states[i].total_cost, "@ {i}, budget {budget}");
                if cb {
                    assert_eq!(a.states[i].total_cost, b.states[i].total_cost, "@ {i}");
                }
            }
        }
        if budget == 1 {
            assert!(!cb);
            assert!((0..a.states.len()).any(|i| a.states[i].free && a.states[i].total_cost < b.states[i].total_cost));
        } else if budget == 500 {
            assert!(cb);
        }
    }
}

#[test]
fn asynchronous_solvers_stop_at_budget() {
    let mut b = grid(16, 4, &[], (0, 0));
    let (ib, _, cb) = frontier2d_par_unsafe_solve(&mut b, 1);
    assert_eq!((ib, cb), (1, false));
    let mut c = grid(16, 4, &[], (0, 0));
    let (ic, _, cc) = frontier2d_fused_solve(&mut c, 1);
    assert_eq!((ic, cc), (1, false));
}

/// The reference solver run to a fixed point and `solve_fn` give the same cost
/// and action on every reached state of the `nx × ny` grid with goal (2, 2).
fn assert_parity<F: Fn(&mut StateSpace) -> (u32, u64, bool)>(nx: i32, ny: i32, walls: &[(i32, i32)], solve_fn: F) {
    let mut a = grid(nx, ny, walls, (2, 2));
    let mut b = grid(nx, ny, walls, (2, 2));
    let (_, _, ra) = reference_solve(&mut a, 100_000);
    assert!(ra, "reference must reach its fixed point");
    let (_, _, converged) = solve_fn(&mut b);
    assert!(converged, "solver must converge");
    let mut n_reach = 0u64;
    for i in 0..a.states.len() {
        if a.states[i].total_cost < REACH_THRESH {
            n_reach += 1;
            assert_eq!(a.states[i].total_cost, b.states[i].total_cost, "total_cost mismatch @ state {i}");
            assert_eq!(a.states[i].optimal_action, b.states[i].optimal_action, "policy mismatch @ state {i}");
        }
    }
    assert!(n_reach > 0, "some state must be reached");
}

fn obstacle_walls() -> Vec<(i32, i32)> {
    (1..8).map(|iy| (5, iy)).collect()
}

fn sentinel_walls() -> Vec<(i32, i32)> {
    vec![(2, 1), (2, 3), (1, 2)]
}

/// Parity on the three standard 8 × 8 maps: empty, a wall with a gap, and a
/// goal closed in on three sides.
fn parity_standard_maps<F: Fn(&mut StateSpace) -> (u32, u64, bool) + Copy>(solve_fn: F) {
    assert_parity(8, 8, &[], solve_fn);
    assert_parity(8, 8, &obstacle_walls(), solve_fn);
    assert_parity(8, 8, &sentinel_walls(), solve_fn);
}

#[test]
fn parity_standard_maps_block_refine() {
    parity_standard_maps(|vi| block_refine_solve(vi, 2000));
}

#[test]
fn parity_standard_maps_frontier2d() {
    parity_standard_maps(|vi| frontier2d_solve(vi, 2000));
}

#[test]
fn parity_standard_maps_frontier2d_pad() {
    parity_standard_maps(|vi| frontier2d_pad_solve(vi, 2000));
}

#[test]
fn parity_standard_maps_frontier2d_par() {
    parity_standard_maps(|vi| frontier2d_par_solve(vi, 2000));
}

#[test]
fn parity_standard_maps_frontier2d_par_unsafe() {
    parity_standard_maps(|vi| frontier2d_par_unsafe_solve(vi, 2000));
}

#[test]
fn parity_larger_empty_frontier2d_par_unsafe() {
    assert_parity(32, 24, &[], |vi| frontier2d_par_unsafe_solve(vi, 2000));
}

#[test]
fn parity_standard_maps_frontier2d_fused() {
    parity_standard_maps(|vi| frontier2d_fused_solve(vi, 2000));
}

#[test]
fn parity_larger_empty_frontier2d_fused() {
    assert_parity(32, 24, &[], |vi| frontier2d_fused_solve(vi, 2000));
}

#[test]
fn parity_standard_maps_frontier2d_sparse() {
    parity_standard_maps(|vi| frontier2d_sparse_solve(vi, 2000));
}

#[test]
fn parity_larger_empty_frontier2d_sparse() {
    assert_parity(32, 24, &[], |vi| frontier2d_sparse_solve(vi, 2000));
}

#[test]
fn parity_empty_8x8() {
    assert_parity(8, 8, &[], |vi| frontier3d_solve(vi, 2000));
}

#[test]
fn parity_obstacle_8x8() {
    assert_parity(8, 8, &obstacle_walls(), |vi| frontier3d_solve(vi, 2000));
}

#[test]
fn parity_sentinel_8x8() {
    assert_parity(8, 8, &sentinel_walls(), |vi| frontier3d_solve(vi, 2000));
}

#[test]
fn solve_reference_and_frontier3d_agree() {
    let mut a = grid(5, 5, &[], (2, 2));
    let mut b = grid(5, 5, &[], (2, 2));
    solve(&mut a, U64Solver::Reference, 2000);
    solve(&mut b, U64Solver::Frontier3D, 2000);
    for i in 0..a.states.len() {
        if a.states[i].total_cost < REACH_THRESH {
            assert_eq!(a.states[i].total_cost, b.states[i].total_cost, "@ {i}");
            assert_eq!(a.states[i].optimal_action, b.states[i].optimal_action, "@ {i}");
        }
    }
}

/// Runs the band below `t` on the `nx × ny` grid with goal (2, 2) from the
/// seed frontier; gives the space, the store, the column arrays and the result.
fn run_band(nx: i32, ny: i32, walls: &[(i32, i32)], t: u64, max_iter: u32) -> (StateSpace, Vec<u64>, Vec<u64>, Vec<bool>, Vec<usize>, u32, u64, bool) {
    let sp = grid(nx, ny, walls, (2, 2));
    let g = Geom::build(&sp);
    let mut store = BlockStore::new(&g, &sp.states);
    let n = (nx * ny) as usize;
    let mut frontier = seed_frontier_2d(&sp).dilate(g.mx as u32, g.my as u32).enumerate();
    let mut col_min = vec![MAX_COST; n];
    let mut col_max = vec![MAX_COST; n];
    let col_final = vec![false; n];
    let mut reached = vec![false; n];
    let mut live: Vec<usize> = Vec::new();
    let mut iters = 0u32;
    let mut total = 0u64;
    let ok = converge_band_jacobi(&mut store, &g, &sp.states, nx, ny, g.mx as u32, g.my as u32, t, max_iter,
        &mut frontier, &mut col_min, &mut col_max, &col_final, &mut reached, &mut live, &mut iters, &mut total);
    (sp, col_min, col_max, reached, live, iters, total, ok)
}

#[test]
fn band_jacobi_converges_to_reference_costs() {
    let walls = obstacle_walls();
    let (_, col_min, col_max, reached, live, iters, total, ok) = run_band(8, 8, &walls, u64::MAX, 4000);
    assert!(ok);
    assert!(iters >= 2 && total > 0);
    let mut r = grid(8, 8, &walls, (2, 2));
    let (_, _, rc) = reference_solve(&mut r, 100_000);
    assert!(rc);
    for s in r.states.iter() {
        let i = (s.iy * 8 + s.ix) as usize;
        if s.free && s.total_cost < MAX_COST {
            assert_eq!(col_min[i], s.total_cost, "column {i}");
            assert_eq!(col_max[i], s.total_cost, "column {i}");
            assert!(reached[i]);
        }
    }
    let mut sorted = live.clone();
    sorted.sort();
    sorted.dedup();
    assert_eq!(sorted.len(), live.len());
    assert_eq!(live.len(), reached.iter().filter(|b| **b).count());
}

#[test]
fn band_jacobi_stops_at_budget() {
    let (_, _, _, _, _, iters, _, ok) = run_band(16, 4, &[], u64::MAX, 2);
    assert_eq!((iters, ok), (2, false));
}

#[test]
fn band_jacobi_keeps_out_of_band_columns_off_the_frontier() {
    let mut r = grid(16, 4, &[], (2, 2));
    reference_solve(&mut r, 100_000);
    let cost = |x: i32, y: i32| r.states[(y * 16 + x) as usize].total_cost;
    let t = cost(4, 2) + 1;
    let (_, col_min, _, _, _, _, _, ok) = run_band(16, 4, &[], t, 4000);
    assert!(ok);
    assert_eq!(col_min[(2 * 16 + 4) as usize], cost(4, 2));
    // One step past the band is computed, but not expanded further.
    assert_eq!(col_min[(2 * 16 + 5) as usize], cost(5, 2));
    assert_eq!(col_min[(2 * 16 + 15) as usize], MAX_COST);
}

#[test]
fn band_round_reports_in_band_columns() {
    let mut r = grid(8, 8, &[], (2, 2));
    reference_solve(&mut r, 100_000);
    let sp = grid(8, 8, &[], (2, 2));
    let g = Geom::build(&sp);
    let mut store = BlockStore::new(&g, &sp.states);
    let frontier = vec![(1u32, 2u32), (2, 2), (3, 2)];
    let mut col_min = vec![MAX_COST; 64];
    let mut col_max = vec![MAX_COST; 64];
    let col_final = vec![false; 64];
    let mut reached = vec![false; 64];
    let mut live: Vec<usize> = Vec::new();
    let (grid_cols, count) = band_round(&mut store, &g, &sp.states, u64::MAX, &frontier, &mut col_min, &mut col_max,
        &col_final, &mut reached, &mut live);
    assert_eq!(count, 2);
    assert_eq!(col_min[2 * 8 + 1], r.states[2 * 8 + 1].total_cost);
    assert_eq!(col_min[2 * 8 + 3], r.states[2 * 8 + 3].total_cost);
    assert_eq!(col_min[2 * 8 + 2], 0);
    assert_eq!(live, vec![2 * 8 + 1, 2 * 8 + 2, 2 * 8 + 3]);
    assert_eq!(grid_cols.popcount(), 3);
}

#[test]
fn band_serial_and_jacobi_reach_the_same_values() {
    let walls = sentinel_walls();
    for serial in [false, true] {
        let sp = grid(8, 8, &walls, (2, 2));
        let g = Geom::build(&sp);
        let mut store = BlockStore::new(&g, &sp.states);
        let mut frontier = seed_frontier_2d(&sp).dilate(g.mx as u32, g.my as u32).enumerate();
        let mut col_min = vec![MAX_COST; 64];
        let mut col_max = vec![MAX_COST; 64];
        let col_final = vec![false; 64];
        let mut reached = vec![false; 64];
        let mut live: Vec<usize> = Vec::new();
        let mut iters = 0u32;
        let mut total = 0u64;
        let ok = if serial {
            converge_band_serial(&mut store, &g, &sp.states, 8, 8, g.mx as u32, g.my as u32, u64::MAX, 4000,
                &mut frontier, &mut col_min, &mut col_max, &col_final, &mut reached, &mut live, &mut iters, &mut total)
        } else {
            converge_band_jacobi(&mut store, &g, &sp.states, 8, 8, g.mx as u32, g.my as u32, u64::MAX, 4000,
                &mut frontier, &mut col_min, &mut col_max, &col_final, &mut reached, &mut live, &mut iters, &mut total)
        };
        assert!(ok);
        let mut r = grid(8, 8, &walls, (2, 2));
        reference_solve(&mut r, 100_000);
        for s in r.states.iter() {
            if s.free && s.total_cost < MAX_COST {
                assert_eq!(col_min[(s.iy * 8 + s.ix) as usize], s.total_cost, "serial={serial}");
            }
        }
    }
}

#[test]
fn band_round_serial_reads_values_of_earlier_columns() {
    let sp = grid(8, 8, &[], (2, 2));
    let g = Geom::build(&sp);
    let mut store = BlockStore::new(&g, &sp.states);
    // (3, 2) is lowered first, then (4, 2) already reads it within the same round.
    let frontier = vec![(3u32, 2u32), (4, 2)];
    let mut col_min = vec![MAX_COST; 64];
    let mut col_max = vec![MAX_COST; 64];
    let col_final = vec![false; 64];
    let mut reached = vec![false; 64];
    let mut live: Vec<usize> = Vec::new();
    let (_, count) = band_round_serial(&mut store, &g, &sp.states, u64::MAX, &frontier, &mut col_min, &mut col_max,
        &col_final, &mut reached, &mut live);
    assert_eq!(count, 2);
    assert!(col_min[2 * 8 + 4] < MAX_COST);
    assert!(col_min[2 * 8 + 4] > col_min[2 * 8 + 3]);
    assert_eq!(live, vec![2 * 8 + 3, 2 * 8 + 4]);
}

#[test]
fn parity_standard_maps_compact() {
    parity_standard_maps(|vi| frontier2d_sparse_compact_solve(vi, 4000));
}

#[test]
fn parity_larger_empty_compact() {
    assert_parity(32, 24, &[], |vi| frontier2d_sparse_compact_solve(vi, 4000));
}

#[test]
fn parity_serial_nthreads1_compact() {
    parity_standard_maps(|vi| {
        let mut sink = RamSink::new(vi.states.len());
        let s = solve_compact_into(vi, 4000, None, false, &mut sink);
        (s.iters, s.updates, s.converged)
    });
}

#[test]
fn parity_parallel_nthreads4_compact() {
    parity_standard_maps(|vi| {
        let mut sink = RamSink::new(vi.states.len());
        let s = solve_compact_into(vi, 4000, None, true, &mut sink);
        (s.iters, s.updates, s.converged)
    });
}

#[test]
fn parity_parallel_larger_nthreads4_compact() {
    let mut a = grid(32, 24, &[], (2, 2));
    let mut b = grid(32, 24, &[], (2, 2));
    let (_, _, ra) = reference_solve(&mut a, 100_000);
    assert!(ra);
    let mut sink = RamSink::new(b.states.len());
    let s = solve_compact_into(&mut b, 4000, None, true, &mut sink);
    assert!(s.converged, "parallel Jacobi must converge");
    let mut mism = 0u64;
    for i in 0..a.states.len() {
        if a.states[i].total_cost < REACH_THRESH {
            if a.states[i].total_cost != b.states[i].total_cost {
                mism += 1;
            }
            assert_eq!(a.states[i].optimal_action, b.states[i].optimal_action, "policy mismatch @ state {i}");
        }
    }
    assert_eq!(mism, 0, "parallel Jacobi value must be bit-exact with reference");
}

#[test]
fn finalizes_all_reachable_cells() {
    let mut vi = grid(8, 8, &[], (2, 2));
    let stats = solve_compact(&mut vi, 4000, None);
    assert!(stats.converged, "solver must converge");
    assert!(stats.reachable > 0);
    assert_eq!(stats.finalized, stats.reachable, "finalized={}, reachable={}", stats.finalized, stats.reachable);
}

#[test]
fn value_band_bounds_and_exact() {
    let (w, h) = (64, 8);
    let mut a = grid(w, h, &[], (2, 2));
    let mut b = grid(w, h, &[], (2, 2));
    let (_, _, ra) = reference_solve(&mut a, 100_000);
    assert!(ra);
    let band = 3 * PB;
    let stats = solve_compact(&mut b, 8000, Some(band));
    assert!(stats.converged, "must converge");
    let mut mism = 0u64;
    for i in 0..a.states.len() {
        if a.states[i].total_cost < REACH_THRESH && a.states[i].total_cost != b.states[i].total_cost {
            mism += 1;
        }
    }
    assert_eq!(mism, 0, "bit-exact mismatch (band={band})");
    assert!(stats.peak_resident_cols < stats.reachable_cols,
        "peak={}, reachable_cols={}, band={}", stats.peak_resident_cols, stats.reachable_cols, band);
}

#[test]
fn lazy_alloc_and_eviction_bound_peak_and_exact() {
    let (w, h) = (8, 128);
    let mut a = grid(w, h, &[], (2, 2));
    let mut b = grid(w, h, &[], (2, 2));
    let (_, _, ra) = reference_solve(&mut a, 100_000);
    assert!(ra);
    let stats = solve_compact(&mut b, 20000, Some(PB));
    assert!(stats.converged, "must converge");
    let mut mism = 0u64;
    for i in 0..a.states.len() {
        if a.states[i].total_cost < REACH_THRESH && a.states[i].total_cost != b.states[i].total_cost {
            mism += 1;
        }
    }
    assert_eq!(mism, 0, "bit-exact mismatch after lazy alloc + eviction");
    assert!(stats.freed_blocks > 0, "blocks must be freed");
    assert!(stats.peak_resident_blocks < stats.total_blocks,
        "peak={}, total={}", stats.peak_resident_blocks, stats.total_blocks);
}

#[test]
fn compact_solver_agrees_with_jacobi_on_a_walled_grid_with_a_pocket() {
    let mut walls: Vec<(i32, i32)> = (0..24).map(|y| (10, y)).collect();
    walls.push((3, 3));
    let mut a = grid(16, 24, &walls, (1, 1));
    let (_, _, ca) = frontier2d_par_solve(&mut a, 5000);
    assert!(ca);
    for parallel in [false, true] {
        let mut b = grid(16, 24, &walls, (1, 1));
        let mut sink = RamSink::new(b.states.len());
        let s = solve_compact_into(&mut b, 5000, Some(2 * PB), parallel, &mut sink);
        assert!(s.converged);
        assert_eq!(s.finalized, s.reachable);
        for i in 0..a.states.len() {
            if a.states[i].free && a.states[i].total_cost < MAX_COST {
                assert_eq!(b.states[i].total_cost, a.states[i].total_cost, "@ {i}");
                assert_eq!(b.states[i].optimal_action, a.states[i].optimal_action, "@ {i}");
            }
        }
    }
}
