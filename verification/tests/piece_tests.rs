use ubongo_solver::piece::{create_all_pieces, Piece};
use ubongo_solver::utils::types::SolverError;

#[test]
fn new_piece_reads_pattern() {
    let p = Piece::new(&["110", "010"], "TEE");
    assert_eq!(p.get_width(), 3);
    assert_eq!(p.get_height(), 2);
    assert_eq!(p.get_name(), "TEE");
    let b = p.get_board();
    assert!(b.get(0, 0));
    assert!(b.get(1, 0));
    assert!(!b.get(2, 0));
    assert!(!b.get(0, 1));
    assert!(b.get(1, 1));
    assert!(!b.get(2, 1));
}

#[test]
fn area_counts_occupied_cells() {
    let p = Piece::new(&["110", "010"], "TEE");
    assert_eq!(p.area(), 3);
    let q = Piece::new(&["1"], "DOT");
    assert_eq!(q.area(), 1);
    let r = Piece::new(&["1111"], "BAR");
    assert_eq!(r.area(), 4);
}

#[test]
fn rotation_is_order_four() {
    let p = Piece::new(&["1110", "1100"], "ZIPPO");
    let back = p.rotate().rotate().rotate().rotate();
    assert_eq!(back.get_width(), p.get_width());
    assert_eq!(back.get_height(), p.get_height());
    assert_eq!(back.get_board(), p.get_board());
}

#[test]
fn rotation_maps_cells_clockwise() {
    let p = Piece::new(&["10", "10", "11"], "ELL");
    let r = p.rotate();
    assert_eq!(r.get_width(), 3);
    assert_eq!(r.get_height(), 2);
    // (x, y) of the original lands at (height - 1 - y, x).
    let b = r.get_board();
    assert!(b.get(2, 0));
    assert!(b.get(1, 0));
    assert!(b.get(0, 0));
    assert!(b.get(0, 1));
    assert!(!b.get(1, 1));
    assert!(!b.get(2, 1));
}

#[test]
fn mirroring_is_order_two() {
    let p = Piece::new(&["1100", "0110"], "Z");
    let back = p.flip().flip();
    assert_eq!(back.get_width(), p.get_width());
    assert_eq!(back.get_height(), p.get_height());
    assert_eq!(back.get_board(), p.get_board());
}

#[test]
fn mirror_maps_cells_left_to_right() {
    let p = Piece::new(&["100"], "DASH");
    let m = p.flip();
    let b = m.get_board();
    assert!(!b.get(0, 0));
    assert!(!b.get(1, 0));
    assert!(b.get(2, 0));
}

#[test]
fn all_variants_count_and_area() {
    let p = Piece::new(&["0100", "1110"], "T");
    let variants = p.get_all_variants();
    assert_eq!(variants.len(), 8);
    for v in &variants {
        assert_eq!(v.area(), p.area());
        assert_eq!(v.get_name(), "T");
    }
    // The first variant is the piece itself.
    assert_eq!(variants[0].get_board(), p.get_board());
    // The second is a quarter turn: dimensions swap.
    assert_eq!(variants[1].get_width(), p.get_height());
    assert_eq!(variants[1].get_height(), p.get_width());
}

#[test]
fn stock_catalog_has_seven_pieces() {
    let pieces = create_all_pieces();
    assert_eq!(pieces.len(), 7);
    let names: Vec<&str> = pieces.iter().map(|p| p.get_name()).collect();
    assert_eq!(
        names,
        vec!["ZIPPO", "Z", "T", "L", "LONG_Z", "LONG_T", "SHORT_BAR"]
    );
    let areas: Vec<usize> = pieces.iter().map(|p| p.area()).collect();
    assert_eq!(areas, vec![5, 4, 4, 4, 5, 5, 3]);
}

#[test]
fn try_new_accepts_a_valid_pattern() {
    let p = Piece::try_new(&["110", "010"], "TEE").unwrap();
    assert_eq!(p.get_width(), 3);
    assert_eq!(p.get_height(), 2);
    assert_eq!(p.get_name(), "TEE");
    assert_eq!(p.area(), 3);
}

#[test]
fn try_new_rejects_malformed_patterns() {
    let empty: [&str; 0] = [];
    assert_eq!(
        Piece::try_new(&empty, "E").unwrap_err(),
        SolverError::MalformedShape
    );
    assert_eq!(
        Piece::try_new(&[""], "W").unwrap_err(),
        SolverError::MalformedShape
    );
    assert_eq!(
        Piece::try_new(&["10", "1"], "R").unwrap_err(),
        SolverError::MalformedShape
    );
    assert_eq!(
        Piece::try_new(&["000"], "Z").unwrap_err(),
        SolverError::MalformedShape
    );
}

#[test]
fn try_new_rejects_oversized_patterns() {
    assert_eq!(
        Piece::try_new(&["111111111"], "LONG").unwrap_err(),
        SolverError::OutOfCapacity
    );
    let rows = ["1"; 9];
    assert_eq!(
        Piece::try_new(&rows, "TALL").unwrap_err(),
        SolverError::OutOfCapacity
    );
}
