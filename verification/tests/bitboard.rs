use std::collections::HashSet;
use vi_rs::bitboard::ops::shift_row;
use vi_rs::bitboard::{row_mask, Bitboard2D, Bitboard3D};

fn make_bb2(map_x: u32, map_y: u32, cells: &[(u32, u32)]) -> Bitboard2D {
    let mut bb = Bitboard2D::new(map_x, map_y);
    for &(x, y) in cells {
        bb.set(x, y);
    }
    bb
}

fn make_bb3(map_x: u32, map_y: u32, n_theta: u32, cells: &[(u32, u32, u32)]) -> Bitboard3D {
    let mut bb = Bitboard3D::new(map_x, map_y, n_theta);
    for &(x, y, t) in cells {
        bb.set(x, y, t);
    }
    bb
}

#[test]
fn unit_set_test_roundtrip_2d() {
    let mut bb = Bitboard2D::new(10, 10);
    bb.set(3, 5);
    assert!(bb.test(3, 5));
    assert!(!bb.test(3, 6));
    assert!(!bb.test(4, 5));
    assert!(!bb.test(0, 0));
}

#[test]
fn unit_set_test_roundtrip_3d() {
    let mut bb = Bitboard3D::new(10, 10, 4);
    bb.set(3, 5, 2);
    assert!(bb.test(3, 5, 2));
    assert!(!bb.test(3, 5, 1));
    assert!(!bb.test(3, 5, 3));
    assert!(!bb.test(4, 5, 2));
    assert!(!bb.test(3, 6, 2));
}

#[test]
fn unit_popcount_zero() {
    let bb2 = Bitboard2D::new(10, 10);
    assert_eq!(bb2.popcount(), 0);
    let bb3 = Bitboard3D::new(10, 10, 4);
    assert_eq!(bb3.popcount(), 0);
}

#[test]
fn unit_popcount_after_set() {
    let mut bb2 = Bitboard2D::new(20, 10);
    bb2.set(0, 0);
    bb2.set(7, 3);
    bb2.set(15, 9);
    assert_eq!(bb2.popcount(), 3);

    let mut bb3 = Bitboard3D::new(20, 10, 8);
    bb3.set(0, 0, 0);
    bb3.set(7, 3, 2);
    bb3.set(15, 9, 7);
    assert_eq!(bb3.popcount(), 3);
}

#[test]
fn unit_set_test_at_word_boundary() {
    let mut bb = Bitboard2D::new(128, 4);
    bb.set(63, 0);
    bb.set(64, 0);
    assert!(bb.test(63, 0));
    assert!(bb.test(64, 0));
    assert!(!bb.test(62, 0));
    assert!(!bb.test(65, 0));
    assert_eq!(bb.popcount(), 2);
}

#[test]
fn unit_row_mask_partial_word() {
    let m = row_mask(5);
    assert_eq!(m.len(), 1);
    assert_eq!(m[0], 0x1F);
}

#[test]
fn unit_row_mask_full_word() {
    let m = row_mask(64);
    assert_eq!(m.len(), 1);
    assert_eq!(m[0], u64::MAX);
}

#[test]
fn unit_row_mask_two_words_partial() {
    let m = row_mask(70);
    assert_eq!(m.len(), 2);
    assert_eq!(m[0], u64::MAX);
    assert_eq!(m[1], (1u64 << 6) - 1);
}

#[test]
fn unit_dilate2d_identity_at_zero() {
    let bb = make_bb2(10, 10, &[(2, 2), (7, 5), (0, 9)]);
    let d = bb.dilate(0, 0);
    assert_eq!(d.popcount(), bb.popcount());
    assert_eq!(d, bb);
}

#[test]
fn unit_dilate2d_single_cell_expands_correctly() {
    let bb = make_bb2(5, 5, &[(2, 2)]);
    let d = bb.dilate(1, 1);
    assert_eq!(d.popcount(), 9);
    for y in 1..=3u32 {
        for x in 1..=3u32 {
            assert!(d.test(x, y), "Expected ({x},{y}) set");
        }
    }
    assert!(!d.test(0, 0));
    assert!(!d.test(4, 4));
}

#[test]
fn unit_dilate2d_clamps_to_map_x() {
    let bb = make_bb2(5, 5, &[(3, 0)]);
    let d = bb.dilate(2, 0);
    assert_eq!(d.popcount(), 4, "Expected 4 bits (ix=1..4)");
    assert!(d.test(1, 0));
    assert!(d.test(2, 0));
    assert!(d.test(3, 0));
    assert!(d.test(4, 0));
    assert!(!d.test(0, 0));
}

#[test]
fn unit_dilate3d_theta_wraps() {
    let bb = make_bb3(3, 3, 4, &[(1, 1, 0)]);
    let d = bb.dilate(0, 0, 1);
    assert!(d.test(1, 1, 0));
    assert!(d.test(1, 1, 1));
    assert!(d.test(1, 1, 3));
    assert!(!d.test(1, 1, 2));
    assert_eq!(d.popcount(), 3);
}

#[test]
fn unit_and_inplace() {
    let a = make_bb2(10, 5, &[(0, 0), (3, 2), (7, 4)]);
    let b = make_bb2(10, 5, &[(3, 2), (7, 4), (9, 1)]);
    let mut res = a.clone();
    res.and_inplace(&b);
    assert_eq!(res.popcount(), 2);
    assert!(res.test(3, 2));
    assert!(res.test(7, 4));
    assert!(!res.test(0, 0));
    assert!(!res.test(9, 1));
}

#[test]
fn unit_or_inplace() {
    let a = make_bb2(10, 5, &[(0, 0), (3, 2)]);
    let b = make_bb2(10, 5, &[(3, 2), (7, 4)]);
    let mut res = a.clone();
    res.or_inplace(&b);
    assert_eq!(res.popcount(), 3);
    assert!(res.test(0, 0));
    assert!(res.test(3, 2));
    assert!(res.test(7, 4));
}

#[test]
fn unit_complement_masks_oob_bits() {
    let map_x = 5u32;
    let map_y = 3u32;
    let bb = Bitboard2D::new(map_x, map_y);
    let c = bb.complement();
    assert_eq!(c.popcount(), (map_x * map_y) as u64);
}

#[test]
fn unit_complement_3d_masks_oob_bits() {
    let map_x = 5u32;
    let map_y = 3u32;
    let n_theta = 4u32;
    let bb = Bitboard3D::new(map_x, map_y, n_theta);
    let c = bb.complement();
    assert_eq!(c.popcount(), (map_x * map_y * n_theta) as u64);
}

#[test]
fn unit_shift_row_positive() {
    let row = vec![1u64];
    let rmask = vec![u64::MAX];
    let mut out = vec![0u64; 1];
    shift_row(&mut out, &row, 3, &rmask);
    assert_eq!(out[0], 1u64 << 3);
}

#[test]
fn unit_shift_row_negative() {
    let row = vec![8u64];
    let rmask = vec![u64::MAX];
    let mut out = vec![0u64; 1];
    shift_row(&mut out, &row, -3, &rmask);
    assert_eq!(out[0], 1u64);
}

#[test]
fn unit_shift_row_carry_across_words() {
    let row = vec![u64::MAX, 0u64];
    let rmask = vec![u64::MAX, u64::MAX];
    let mut out = vec![0u64; 2];
    shift_row(&mut out, &row, 1, &rmask);
    assert_eq!(out[0], u64::MAX << 1);
    assert_eq!(out[1], 1u64);
}

#[test]
fn unit_shift_row_carry_across_words_neg() {
    let row = vec![0u64, 1u64];
    let rmask = vec![u64::MAX, u64::MAX];
    let mut out = vec![0u64; 2];
    shift_row(&mut out, &row, -1, &rmask);
    assert_eq!(out[0], 1u64 << 63);
    assert_eq!(out[1], 0u64);
}

#[test]
fn unit_enumerate2d_yields_set_cells() {
    let mut bb = Bitboard2D::new(10, 5);
    let cells = [(0u32, 0u32), (3, 1), (7, 2)];
    for &(x, y) in &cells {
        bb.set(x, y);
    }
    let got: HashSet<(u32, u32)> = bb.enumerate().into_iter().collect();
    let expected: HashSet<(u32, u32)> = cells.iter().copied().collect();
    assert_eq!(got, expected);
}

#[test]
fn unit_enumerate3d_yields_set_cells() {
    let mut bb = Bitboard3D::new(10, 5, 4);
    let cells = [(0u32, 0u32, 0u32), (3, 1, 2), (7, 4, 3)];
    for &(x, y, t) in &cells {
        bb.set(x, y, t);
    }
    let got: HashSet<(u32, u32, u32)> = bb.enumerate().into_iter().collect();
    let expected: HashSet<(u32, u32, u32)> = cells.iter().copied().collect();
    assert_eq!(got, expected);
}

#[test]
fn unit_enumerate2d_empty() {
    let bb = Bitboard2D::new(10, 10);
    assert_eq!(bb.enumerate().into_iter().count(), 0);
}

#[test]
fn unit_enumerate3d_empty() {
    let bb = Bitboard3D::new(10, 10, 4);
    assert_eq!(bb.enumerate().into_iter().count(), 0);
}

#[test]
fn unit_enumerate2d_cross_word() {
    let mut bb = Bitboard2D::new(130, 3);
    bb.set(0, 0);
    bb.set(63, 0);
    bb.set(64, 1);
    bb.set(128, 2);
    let got: HashSet<(u32, u32)> = bb.enumerate().into_iter().collect();
    assert!(got.contains(&(0, 0)));
    assert!(got.contains(&(63, 0)));
    assert!(got.contains(&(64, 1)));
    assert!(got.contains(&(128, 2)));
    assert_eq!(got.len(), 4);
}

#[test]
fn enumerate_is_in_storage_order() {
    let mut bb = Bitboard3D::new(70, 3, 2);
    bb.set(69, 2, 1);
    bb.set(5, 0, 1);
    bb.set(64, 1, 0);
    bb.set(1, 1, 0);
    assert_eq!(bb.enumerate(), vec![(1, 1, 0), (64, 1, 0), (5, 0, 1), (69, 2, 1)]);
    let mut b2 = Bitboard2D::new(70, 3);
    b2.set(69, 2);
    b2.set(0, 2);
    b2.set(65, 0);
    assert_eq!(b2.enumerate(), vec![(65, 0), (0, 2), (69, 2)]);
}

#[test]
fn iterator_yields_cells_then_none() {
    let mut bb = Bitboard2D::new(4, 2);
    bb.set(3, 1);
    bb.set(2, 0);
    let mut it = bb.iter_cells();
    assert_eq!(it.next(), Some((2, 0)));
    assert_eq!(it.next(), Some((3, 1)));
    assert_eq!(it.next(), None);
    assert_eq!(it.next(), None);
}

#[test]
fn popcount_counts_enumerated_cells() {
    let mut bb = Bitboard3D::new(9, 9, 5);
    for (x, y, t) in [(0, 0, 0), (8, 8, 4), (4, 2, 3), (4, 2, 2)] {
        bb.set(x, y, t);
    }
    assert_eq!(bb.popcount() as usize, bb.enumerate().len());
}

#[test]
fn dilate3d_box_and_theta() {
    let bb = make_bb3(6, 6, 5, &[(2, 3, 4)]);
    let d = bb.dilate(1, 2, 1);
    // 3 columns x 5 rows x 3 layers (4 and its cyclic neighbours 3 and 0).
    assert_eq!(d.popcount(), 3 * 5 * 3);
    assert!(d.test(1, 1, 0));
    assert!(d.test(3, 5, 3));
    assert!(!d.test(2, 3, 1));
    assert!(!d.test(4, 3, 4));
}

#[test]
fn complement_twice_is_identity() {
    let bb = make_bb2(70, 3, &[(0, 0), (69, 2), (64, 1)]);
    assert_eq!(bb.complement().complement(), bb);
    let b3 = make_bb3(7, 2, 3, &[(6, 1, 2)]);
    assert_eq!(b3.complement().complement(), b3);
}

#[test]
fn unit_from_logical_to_logical_roundtrip_2d() {
    // 3x4 array (map_y=3, map_x=4), row-major
    let mask = vec![
        true, false, true, false,
        false, true, false, true,
        true, true, false, false,
    ];
    let bb = Bitboard2D::from_logical(&mask, 4, 3);
    let back = bb.to_logical();
    assert_eq!(back, mask);
}

#[test]
fn unit_from_logical_to_logical_roundtrip_3d() {
    // shape [map_y=2, map_x=3, n_theta=2], index (y * 3 + x) * 2 + t
    let at = |y: usize, x: usize, t: usize| (y * 3 + x) * 2 + t;
    let mut mask = vec![false; 2 * 3 * 2];
    mask[at(0, 0, 0)] = true;
    mask[at(0, 2, 1)] = true;
    mask[at(1, 1, 0)] = true;
    let bb = Bitboard3D::from_logical(&mask, 3, 2, 2);
    let back = bb.to_logical();
    assert_eq!(back, mask);
}

#[test]
fn unit_from_logical_all_false_2d() {
    let mask = vec![false; 5 * 8];
    let bb = Bitboard2D::from_logical(&mask, 8, 5);
    assert_eq!(bb.popcount(), 0);
}

#[test]
fn unit_from_logical_all_true_2d() {
    let mask = vec![true; 3 * 7];
    let bb = Bitboard2D::from_logical(&mask, 7, 3);
    assert_eq!(bb.popcount(), 21);
    let back = bb.to_logical();
    assert_eq!(back, mask);
}
