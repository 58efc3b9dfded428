use vi_rs::algorithm::passable::build_passable_bb_3d;
use vi_rs::bitboard::Bitboard2D;
use vi_rs::algorithm::coarse_theta::{nearest_coarse_theta, upsample_coarse_theta, Frontier3DCoarseTheta};
use vi_rs::algorithm::tau::Frontier3DTau;
use vi_rs::algorithm::context::{max_iters, Budget};
use vi_rs::algorithm::topk::{prune_topk, Frontier3DTopK};
use vi_rs::params::{MAX_VALUE, N_THETA, PROB_BASE};
use vi_rs::transitions::TransitionModel;

#[test]
fn prune_topk_no_op_when_n_leq_k() {
    let mut model = TransitionModel::default();
    model.n_outcomes[0][0] = 2;
    model.dix[0][0][0] = 1;
    model.diy[0][0][0] = 0;
    model.dit[0][0][0] = 0;
    model.prob[0][0][0] = PROB_BASE;
    model.dix[0][0][1] = -1;
    model.prob[0][0][1] = PROB_BASE / 2;

    let pruned = prune_topk(&model, 3);
    assert_eq!(pruned.n_outcomes[0][0], 2);
    assert_eq!(pruned.prob[0][0][0], PROB_BASE);
    assert_eq!(pruned.prob[0][0][1], PROB_BASE / 2);
}

#[test]
fn prune_topk_keeps_highest_prob() {
    let mut model = TransitionModel::default();
    model.n_outcomes[0][0] = 3;
    model.dix[0][0][0] = 1;
    model.prob[0][0][0] = PROB_BASE;
    model.dix[0][0][1] = 2;
    model.prob[0][0][1] = PROB_BASE / 2;
    model.dix[0][0][2] = 3;
    model.prob[0][0][2] = (PROB_BASE / 4) * 3;

    let pruned = prune_topk(&model, 1);
    assert_eq!(pruned.n_outcomes[0][0], 1);
    assert_eq!(pruned.dix[0][0][0], 1);
    assert_eq!(pruned.prob[0][0][0], PROB_BASE);
}

#[test]
fn prune_topk_orders_picks_and_breaks_ties_by_index() {
    let mut model = TransitionModel::default();
    model.n_outcomes[3][9] = 4;
    let probs = [5u32, 9, 5, 7];
    for k in 0..4 {
        model.dix[3][9][k] = k as i8 + 10;
        model.prob[3][9][k] = probs[k];
    }
    let pruned = prune_topk(&model, 3);
    assert_eq!(pruned.n_outcomes[3][9], 3);
    assert_eq!(&pruned.dix[3][9][..4], &[11, 13, 10, 0]);
    assert_eq!(&pruned.prob[3][9][..4], &[9, 7, 5, 0]);
    // k = 0 is clamped to one outcome.
    let one = prune_topk(&model, 0);
    assert_eq!(one.n_outcomes[3][9], 1);
    assert_eq!(one.dix[3][9][0], 11);
}

#[test]
fn nearest_coarse_theta_basic() {
    assert_eq!(nearest_coarse_theta(0, 5), 0);
    assert_eq!(nearest_coarse_theta(2, 5), 0);
    assert_eq!(nearest_coarse_theta(3, 5), 5);
    assert_eq!(nearest_coarse_theta(5, 5), 5);
    assert_eq!(nearest_coarse_theta(55, 5), 55);
    assert_eq!(nearest_coarse_theta(57, 5), 55);
    assert_eq!(nearest_coarse_theta(58, 5), 0);
}

#[test]
fn nearest_coarse_theta_step_one_and_wide_steps() {
    for it in 0..60 {
        assert_eq!(nearest_coarse_theta(it, 1), it);
    }
    assert_eq!(nearest_coarse_theta(59, 40), 40);
    assert_eq!(nearest_coarse_theta(100, 7), 38);
}

#[test]
fn max_iters_reads_either_budget() {
    assert_eq!(max_iters(Budget::Sweeps(7)), 7);
    assert_eq!(max_iters(Budget::Iterations(9)), 9);
}

#[test]
fn upsample_fills_non_coarse_layers() {
    // 2×2 map, step 5: coarse layer 0 holds 42, every other layer MAX_VALUE.
    let mut value = vec![MAX_VALUE; 2 * 2 * N_THETA];
    for cell in 0..4 {
        value[cell * N_THETA] = 42;
    }
    upsample_coarse_theta(&mut value, 2, 2, 5);
    for cell in 0..4 {
        assert_eq!(value[cell * N_THETA + 1], 42, "layer 1 copies coarse layer 0");
        assert_eq!(value[cell * N_THETA + 2], 42, "layer 2 copies coarse layer 0");
        assert_eq!(value[cell * N_THETA], 42, "coarse layer 0 unchanged");
        assert_eq!(value[cell * N_THETA + 3], MAX_VALUE, "layer 3 copies coarse layer 5");
        assert_eq!(value[cell * N_THETA + 59], 42, "layer 59 wraps to coarse layer 0");
    }
}

#[test]
fn upsample_step_one_changes_nothing() {
    let mut value: Vec<u16> = (0..(3 * N_THETA) as u16).collect();
    let before = value.clone();
    upsample_coarse_theta(&mut value, 1, 3, 1);
    assert_eq!(value, before);
}

#[test]
fn solver_names() {
    assert_eq!(Frontier3DTopK { k: 3 }.name(), "frontier_3d_topk");
    assert_eq!(Frontier3DTau { tau: 0 }.name(), "frontier_3d_tau");
    assert_eq!(Frontier3DCoarseTheta { coarse_step: 3, refine_iters: 2 }.name(), "frontier_3d_coarse_theta");
}

#[test]
fn passable_mask_repeats_on_every_heading() {
    let mut p = Bitboard2D::new(70, 3);
    p.set(0, 0);
    p.set(65, 2);
    let bb = build_passable_bb_3d(&p, 4);
    assert_eq!((bb.map_x(), bb.map_y(), bb.n_theta()), (70, 3, 4));
    for it in 0..4 {
        assert!(bb.test(0, 0, it));
        assert!(bb.test(65, 2, it));
        assert!(!bb.test(1, 0, it));
        assert!(!bb.test(65, 1, it));
    }
    assert_eq!(bb.popcount(), 8);
}
