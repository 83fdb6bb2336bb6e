use ubongo_solver::board::Board;
use ubongo_solver::problem::{create_target_board, solve_problem, Problem};
use ubongo_solver::utils::types::SolverError;

#[test]
fn create_target_board_reads_pattern() {
    let board = create_target_board(3, 2, &["101", "010"]);
    assert_eq!(board.get_width(), 3);
    assert_eq!(board.get_height(), 2);
    assert_eq!(board.area(), 3);
    let s = board.get_state();
    assert!(s.get(0, 0));
    assert!(!s.get(1, 0));
    assert!(s.get(2, 0));
    assert!(!s.get(0, 1));
    assert!(s.get(1, 1));
    assert!(!s.get(2, 1));
}

#[test]
fn problem_new_keeps_fields() {
    let p = Problem::new(vec!["10", "11"], 2);
    assert_eq!(p.pattern, vec!["10", "11"]);
    assert_eq!(p.num_pieces, 2);
}

#[test]
fn staircase_puzzle_has_a_three_piece_tiling() {
    // The thirteen-cell staircase target, tiled by three catalog pieces
    // whose areas sum to thirteen.
    let rows = vec!["10000", "11100", "11110", "11111"];
    let problem = Problem::new(rows.clone(), 3);
    let solutions = solve_problem(&problem);
    assert!(!solutions.is_empty());
    let target = create_target_board(5, 4, &rows);
    assert_eq!(target.area(), 13);
    for solution in &solutions {
        assert_eq!(solution.pieces.len(), 3);
        let mut reconstruction = Board::new(5, 4);
        let mut total_area = 0;
        for placed in &solution.placed_pieces {
            assert!(reconstruction.can_place_piece(&placed.variant, placed.position));
            reconstruction.place_piece(&placed.variant, placed.position);
            total_area += placed.variant.area();
        }
        assert_eq!(reconstruction.get_state(), target.get_state());
        assert_eq!(total_area, 13);
    }
}

#[test]
fn unreachable_subset_sum_gives_no_solutions() {
    // Target area 2: no subset of the catalog areas {5, 4, 4, 4, 5, 5, 3}
    // reaches it for any piece count, so the result is empty, not an error.
    let problem = Problem::new(vec!["11"], 1);
    let solutions = solve_problem(&problem);
    assert!(solutions.is_empty());
}

#[test]
fn zero_pieces_cannot_cover_a_nonempty_target() {
    let problem = Problem::new(vec!["1"], 0);
    let solutions = solve_problem(&problem);
    assert!(solutions.is_empty());
}

#[test]
fn validate_accepts_and_rejects_patterns() {
    assert!(Problem::new(vec!["10", "11"], 2).validate().is_ok());
    assert_eq!(
        Problem::new(vec![], 1).validate().unwrap_err(),
        SolverError::MalformedShape
    );
    assert_eq!(
        Problem::new(vec!["10", "1"], 1).validate().unwrap_err(),
        SolverError::MalformedShape
    );
    assert_eq!(
        Problem::new(vec!["111111111"], 1).validate().unwrap_err(),
        SolverError::OutOfCapacity
    );
    assert_eq!(
        Problem::new(vec!["1"; 9], 1).validate().unwrap_err(),
        SolverError::OutOfCapacity
    );
}
