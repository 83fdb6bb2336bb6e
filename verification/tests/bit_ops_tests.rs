use ubongo_solver::utils::bit_ops::{get_bit, set_bit, BitBoard};
use ubongo_solver::utils::types::{Position, PositionExt, SolverError};

#[test]
fn new_bitboard_is_empty() {
    let b = BitBoard::new();
    assert!(b.not_any());
    assert!(!b.get(0, 0));
    assert!(!b.get(7, 7));
}

#[test]
fn set_and_get_roundtrip() {
    let mut b = BitBoard::new();
    b.set(3, 2, true);
    assert!(b.get(3, 2));
    assert!(!b.get(2, 3));
    assert!(!b.not_any());
    b.set(3, 2, false);
    assert!(!b.get(3, 2));
    assert!(b.not_any());
}

#[test]
fn set_leaves_other_cells_alone() {
    let mut b = BitBoard::new();
    b.set(1, 1, true);
    b.set(5, 6, true);
    assert!(b.get(1, 1));
    assert!(b.get(5, 6));
    b.set(1, 1, false);
    assert!(!b.get(1, 1));
    assert!(b.get(5, 6));
}

#[test]
fn fill_sets_and_clears_everything() {
    let mut b = BitBoard::new();
    b.fill(true);
    for y in 0..8 {
        for x in 0..8 {
            assert!(b.get(x, y));
        }
    }
    b.fill(false);
    assert!(b.not_any());
}

#[test]
fn free_bit_functions_use_caller_stride() {
    let mut b = BitBoard::new();
    set_bit(&mut b, 2, 1, 5, true);
    assert!(get_bit(&b, 2, 1, 5));
    assert!(!get_bit(&b, 1, 2, 5));
    set_bit(&mut b, 2, 1, 5, false);
    assert!(!get_bit(&b, 2, 1, 5));
}

#[test]
fn bitboards_compare_by_bits() {
    let mut a = BitBoard::new();
    let mut b = BitBoard::new();
    assert_eq!(a, b);
    a.set(4, 4, true);
    assert_ne!(a, b);
    b.set(4, 4, true);
    assert_eq!(a, b);
}

#[test]
fn all_positions_covers_six_by_six() {
    let positions = <Position as PositionExt>::all_positions();
    assert_eq!(positions.len(), 36);
    assert_eq!(positions[0], (0, 0));
    assert_eq!(positions[5], (5, 0));
    assert_eq!(positions[6], (0, 1));
    assert_eq!(positions[35], (5, 5));
}

#[test]
fn solver_error_descriptions() {
    assert_eq!(
        SolverError::OutOfBounds.describe(),
        "ピースが盤面からはみ出しています"
    );
    assert_eq!(SolverError::Overlap.describe(), "ピースが重なっています");
    assert_eq!(
        SolverError::NoSolution.describe(),
        "解が見つかりませんでした"
    );
    assert_eq!(
        SolverError::OutOfCapacity.describe(),
        "盤面またはピースが容量を超えています"
    );
    assert_eq!(
        SolverError::MalformedShape.describe(),
        "ピースのパターンが不正です"
    );
}

#[test]
fn mask_algebra_matches_cells() {
    let mut a = BitBoard::new();
    let mut b = BitBoard::new();
    a.set(0, 0, true);
    a.set(3, 2, true);
    b.set(3, 2, true);
    b.set(5, 5, true);
    assert!(a.intersects(&b));
    let mut c = BitBoard::new();
    c.set(5, 5, true);
    assert!(!a.intersects(&c));

    let mut u = a;
    u.union(&b);
    assert!(u.get(0, 0));
    assert!(u.get(3, 2));
    assert!(u.get(5, 5));

    let mut x = u;
    x.xor_with(&b);
    assert!(x.get(0, 0));
    assert!(!x.get(3, 2));
    assert!(!x.get(5, 5));
}
