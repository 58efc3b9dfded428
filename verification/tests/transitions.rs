use vi_rs::params::{PROB_BASE, TRANS_TABLE_SIZE};
use vi_rs::transitions::TransitionModel;

#[test]
fn roundtrip_pack_unpack() {
    let mut m = TransitionModel::default();
    m.n_outcomes[0][0] = 2;
    m.dix[0][0][0] = 3;
    m.diy[0][0][0] = -1;
    m.dit[0][0][0] = 0;
    m.prob[0][0][0] = PROB_BASE;
    m.dix[0][0][1] = -2;
    m.diy[0][0][1] = 4;
    m.dit[0][0][1] = 1;
    m.prob[0][0][1] = PROB_BASE / 2;

    m.n_outcomes[1][5] = 1;
    m.dix[1][5][0] = 0;
    m.diy[1][5][0] = 0;
    m.dit[1][5][0] = -3;
    m.prob[1][5][0] = PROB_BASE;

    let packed = m.pack();
    let u = packed.unpack();

    assert_eq!(u.n_outcomes[0][0], 2);
    assert_eq!(u.dix[0][0][0], 3);
    assert_eq!(u.diy[0][0][0], -1);
    assert_eq!(u.dit[0][0][0], 0);
    assert_eq!(u.prob[0][0][0], PROB_BASE);
    assert_eq!(u.dix[0][0][1], -2);
    assert_eq!(u.diy[0][0][1], 4);
    assert_eq!(u.dit[0][0][1], 1);
    assert_eq!(u.prob[0][0][1], PROB_BASE / 2);

    assert_eq!(u.n_outcomes[1][5], 1);
    assert_eq!(u.dit[1][5][0], -3);
    assert_eq!(u.prob[1][5][0], PROB_BASE);
}

#[test]
fn pack_size_is_constant() {
    let packed = TransitionModel::default().pack();
    assert_eq!(packed.0.len(), TRANS_TABLE_SIZE);
}

#[test]
fn negative_offset_roundtrip() {
    let mut m = TransitionModel::default();
    m.n_outcomes[0][0] = 1;
    m.dix[0][0][0] = -3;
    m.diy[0][0][0] = -127;
    m.dit[0][0][0] = -1;
    m.prob[0][0][0] = PROB_BASE;

    let u = m.pack().unpack();
    assert_eq!(u.dix[0][0][0], -3);
    assert_eq!(u.diy[0][0][0], -127);
    assert_eq!(u.dit[0][0][0], -1);
}

#[test]
fn max_displacement_finds_max() {
    let mut m = TransitionModel::default();
    m.n_outcomes[0][0] = 3;
    m.dix[0][0][0] = -5;
    m.dix[0][0][1] = 2;
    m.dix[0][0][2] = 0;
    for k in 0..3 {
        m.prob[0][0][k] = PROB_BASE;
    }

    let (mx, _, _) = m.max_displacement();
    assert_eq!(mx, 5);
}

#[test]
fn max_displacement_reports_each_axis() {
    let mut m = TransitionModel::default();
    m.n_outcomes[2][7] = 2;
    m.dix[2][7][0] = 4;
    m.diy[2][7][1] = -6;
    m.dit[2][7][0] = 2;
    // An unused slot beyond the count does not count.
    m.dix[2][7][5] = 100;
    assert_eq!(m.max_displacement(), (4, 6, 2));
}

#[test]
fn unpack_of_pack_keeps_every_live_slot() {
    let mut m = TransitionModel::default();
    for a in 0..6 {
        for it in 0..60 {
            m.n_outcomes[a][it] = ((a + it) % 11) as u8;
            for k in 0..(m.n_outcomes[a][it] as usize) {
                m.dix[a][it][k] = (k as i8) - 5;
                m.diy[a][it][k] = (a as i8) - 3;
                m.dit[a][it][k] = (it as i8) - 30;
                m.prob[a][it][k] = (k as u32 + 1) * 1000;
            }
        }
    }
    let u = m.pack().unpack();
    for a in 0..6 {
        for it in 0..60 {
            assert_eq!(u.n_outcomes[a][it], m.n_outcomes[a][it]);
            for k in 0..(m.n_outcomes[a][it] as usize) {
                assert_eq!(u.dix[a][it][k], m.dix[a][it][k]);
                assert_eq!(u.diy[a][it][k], m.diy[a][it][k]);
                assert_eq!(u.dit[a][it][k], m.dit[a][it][k]);
                assert_eq!(u.prob[a][it][k], m.prob[a][it][k]);
            }
        }
    }
}
