use vi_rs::node::bridge::{occupancy_view_to_vi_grid, value_slice_to_occupancy, OccupancyGridView};
use vi_rs::node::solver_factory::make_solver;
use vi_rs::reference::params::{MAX_COST, PROB_BASE};
use vi_rs::reference::solvers::U64Solver;

#[test]
fn known_solvers_resolve() {
    for name in [
        "reference",
        "frontier3d",
        "frontier3d_topk",
        "frontier3d_tau",
        "frontier3d_coarse_theta",
        "frontier2d",
        "frontier_stack",
        "block_refine",
        "pyramid",
        "pyramid_sweep",
        "stream_mimic",
    ] {
        make_solver(name).unwrap_or_else(|_| panic!("solver `{name}` must resolve"));
    }
}

#[test]
fn pyramid_alias_maps_to_pyramid_sweep() {
    assert_eq!(make_solver("pyramid").unwrap(), U64Solver::PyramidSweep);
    assert_eq!(make_solver("pyramid_sweep").unwrap(), U64Solver::PyramidSweep);
}

#[test]
fn unknown_solver_errors_with_listing() {
    let err = match make_solver("does_not_exist") {
        Err(e) => e.to_string(),
        Ok(_) => panic!("expected Err for unknown solver"),
    };
    assert!(err.contains("does_not_exist"));
    assert!(err.contains("Supported"));
}

#[test]
fn make_solver_parameters_and_message() {
    assert_eq!(make_solver("frontier3d_topk").unwrap(), U64Solver::Frontier3DTopK { k: u32::MAX });
    assert_eq!(make_solver("frontier3d_tau").unwrap(), U64Solver::Frontier3DTau { tau: 0 });
    assert_eq!(make_solver("frontier3d_coarse_theta").unwrap(), U64Solver::Frontier3DCoarseTheta { step: 1 });
    assert_eq!(
        make_solver("x").unwrap_err(),
        "unknown solver: x. Supported: reference | frontier3d | frontier3d_topk | frontier3d_tau | \
         frontier3d_coarse_theta | frontier2d | frontier_stack | block_refine | pyramid | stream_mimic"
    );
    // Names the worker does not offer are refused even if a solver exists.
    assert!(make_solver("prio_lc").is_err());
}

#[test]
fn value_max_cost_renders_as_minus_one() {
    let v = vec![MAX_COST];
    let d = value_slice_to_occupancy(&v, 1, 1, 60);
    assert_eq!(d[0], -1);
}

#[test]
fn value_zero_renders_zero() {
    let v = vec![0u64; 6];
    let d = value_slice_to_occupancy(&v, 3, 2, 60);
    assert!(d.iter().all(|&x| x == 0));
}

#[test]
fn value_above_threshold_clamps_to_100() {
    let v = vec![100 * PROB_BASE];
    let d = value_slice_to_occupancy(&v, 1, 1, 60);
    assert_eq!(d[0], 100);
}

#[test]
fn value_mid_scales_linearly() {
    let v = vec![30 * PROB_BASE];
    let d = value_slice_to_occupancy(&v, 1, 1, 60);
    assert_eq!(d[0], 50);
}

#[test]
fn value_zero_threshold_is_binary() {
    let v = vec![0, PROB_BASE - 1, PROB_BASE, u64::MAX];
    assert_eq!(value_slice_to_occupancy(&v, 2, 2, 0), vec![0, 0, 100, -1]);
}

fn view(w: u32, h: u32, data: &[i8]) -> OccupancyGridView {
    OccupancyGridView { width: w, height: h, data: data.to_vec() }
}

#[test]
fn occupied_and_unknown_become_blocked() {
    let data = [0i8, 100, -1, 0];
    let g = occupancy_view_to_vi_grid(&view(2, 2, &data), true);
    assert_eq!(g.data, vec![0, 100, 100, 0]); // unknown -> blocked
    assert_eq!((g.width, g.height), (2, 2));
}

#[test]
fn unknown_free_when_flag_unset() {
    let data = [-1i8, 0];
    let g = occupancy_view_to_vi_grid(&view(2, 1, &data), false);
    assert_eq!(g.data, vec![0, 0]); // unknown -> free
}
