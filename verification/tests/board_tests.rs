use ubongo_solver::board::{Board, PlacedPiece};
use ubongo_solver::piece::Piece;
use ubongo_solver::utils::types::SolverError;

#[test]
fn new_board_is_empty() {
    let b = Board::new(5, 4);
    assert_eq!(b.get_width(), 5);
    assert_eq!(b.get_height(), 4);
    assert!(b.get_state().not_any());
    assert_eq!(b.area(), 0);
}

#[test]
fn place_and_remove_round_trip() {
    let mut b = Board::new(5, 4);
    let p = Piece::new(&["11", "10"], "CORNER");
    let before = b.get_state();
    assert!(b.can_place_piece(&p, (2, 1)));
    b.place_piece(&p, (2, 1));
    assert_eq!(b.area(), 3);
    b.remove_piece(&p, (2, 1));
    assert_eq!(b.get_state(), before);
    assert_eq!(b.area(), 0);
}

#[test]
fn place_sets_translated_cells() {
    let mut b = Board::new(4, 3);
    let p = Piece::new(&["11", "10"], "CORNER");
    b.place_piece(&p, (1, 1));
    let s = b.get_state();
    assert!(s.get(1, 1));
    assert!(s.get(2, 1));
    assert!(s.get(1, 2));
    assert!(!s.get(2, 2));
    assert!(!s.get(0, 0));
}

#[test]
fn can_place_rejects_out_of_bounds() {
    let b = Board::new(3, 3);
    let p = Piece::new(&["11"], "DUO");
    assert!(b.can_place_piece(&p, (1, 0)));
    assert!(!b.can_place_piece(&p, (2, 0)));
    assert!(!b.can_place_piece(&p, (0, 3)));
    assert!(b.can_place_piece(&p, (0, 2)));
}

#[test]
fn can_place_rejects_overlap() {
    let mut b = Board::new(3, 3);
    let p = Piece::new(&["11"], "DUO");
    b.place_piece(&p, (0, 0));
    assert!(!b.can_place_piece(&p, (0, 0)));
    assert!(!b.can_place_piece(&p, (1, 0)));
    assert!(b.can_place_piece(&p, (0, 1)));
}

#[test]
fn display_renders_rows() {
    let mut b = Board::new(2, 2);
    let dot = Piece::new(&["1"], "DOT");
    b.place_piece(&dot, (0, 0));
    b.place_piece(&dot, (1, 1));
    assert_eq!(b.display(), "■□\n□■\n");
}

#[test]
fn display_with_pieces_marks_each_placement() {
    let b = Board::new(3, 2);
    let dot = Piece::new(&["1"], "DOT");
    let duo = Piece::new(&["11"], "DUO");
    let placements = vec![
        PlacedPiece {
            piece: dot.duplicate(),
            variant: dot.duplicate(),
            position: (0, 0),
        },
        PlacedPiece {
            piece: duo.duplicate(),
            variant: duo.duplicate(),
            position: (1, 1),
        },
    ];
    // Placement 0 renders with the first symbol, placement 1 with the second.
    assert_eq!(b.display_with_pieces(&placements), "■□□\n□★★\n");
}

#[test]
fn display_with_pieces_last_placement_wins() {
    let b = Board::new(2, 1);
    let dot = Piece::new(&["1"], "DOT");
    let placements = vec![
        PlacedPiece {
            piece: dot.duplicate(),
            variant: dot.duplicate(),
            position: (0, 0),
        },
        PlacedPiece {
            piece: dot.duplicate(),
            variant: dot.duplicate(),
            position: (0, 0),
        },
    ];
    assert_eq!(b.display_with_pieces(&placements), "★□\n");
}

#[test]
fn try_new_checks_capacity() {
    let b = Board::try_new(8, 8).unwrap();
    assert_eq!(b.get_width(), 8);
    assert_eq!(b.get_height(), 8);
    assert_eq!(Board::try_new(9, 1).unwrap_err(), SolverError::OutOfCapacity);
    assert_eq!(Board::try_new(1, 9).unwrap_err(), SolverError::OutOfCapacity);
}
