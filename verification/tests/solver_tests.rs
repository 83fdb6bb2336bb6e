use ubongo_solver::board::Board;
use ubongo_solver::piece::Piece;
use ubongo_solver::problem::create_target_board;
use ubongo_solver::solver::{usize_to_string, SolveMode, Solver};

fn target_from(rows: &[&str]) -> Board {
    let width = rows[0].len();
    let height = rows.len();
    create_target_board(width, height, rows)
}

#[test]
fn scenario_one_filler_is_not_enough() {
    // Target area is 5; a single one-cell piece cannot cover it.
    let target = target_from(&["111", "101"]);
    assert_eq!(target.area(), 5);
    let filler = Piece::new(&["1"], "F");
    let mut solver = Solver::new(target, vec![filler]);
    assert!(!solver.solve(SolveMode::EnumerateAll));
    assert!(solver.get_solutions().is_empty());
}

#[test]
fn scenario_five_fillers_cover_the_target() {
    // Five independent one-cell pieces, all sharing one name, tile the
    // five-cell target: catalog entries count by identity, not by name.
    let target = target_from(&["111", "101"]);
    let filler = Piece::new(&["1"], "F");
    let pieces = vec![
        filler.duplicate(),
        filler.duplicate(),
        filler.duplicate(),
        filler.duplicate(),
        filler.duplicate(),
    ];
    let mut solver = Solver::new(target, pieces);
    assert!(solver.solve(SolveMode::FirstSolution));
    assert!(!solver.get_solutions().is_empty());
    let solution = &solver.get_solutions()[0];
    assert_eq!(solution.len(), 5);
}

#[test]
fn scenario_unreachable_area_reports_no_solution() {
    // Target area 2, single piece of area 3: no subset works, no error.
    let target = target_from(&["11"]);
    let bar = Piece::new(&["111"], "BAR");
    let mut solver = Solver::new(target, vec![bar]);
    assert!(!solver.solve(SolveMode::EnumerateAll));
    assert!(solver.get_solutions().is_empty());
}

#[test]
fn accepted_solution_reconstructs_target_exactly() {
    // A 2x2 square tiled by a bar and a dot-pair: the union of the placed
    // variants equals the target occupancy, placements never overlap, and
    // the variant areas sum to the target area.
    let target = target_from(&["11", "11"]);
    let duo = Piece::new(&["11"], "DUO");
    let mut solver = Solver::new(target, vec![duo.duplicate(), duo.duplicate()]);
    assert!(solver.solve(SolveMode::EnumerateAll));
    let target = target_from(&["11", "11"]);
    for solution in solver.get_solutions() {
        let mut reconstruction = Board::new(target.get_width(), target.get_height());
        let mut total_area = 0;
        for placed in solution {
            // Disjointness and bounds: the placement must still be legal.
            assert!(reconstruction.can_place_piece(&placed.variant, placed.position));
            reconstruction.place_piece(&placed.variant, placed.position);
            total_area += placed.variant.area();
        }
        assert_eq!(reconstruction.get_state(), target.get_state());
        assert_eq!(total_area, target.area());
    }
}

#[test]
fn first_solution_mode_stops_early() {
    let target = target_from(&["11"]);
    let dot = Piece::new(&["1"], "DOT");
    let mut solver = Solver::new(target, vec![dot.duplicate(), dot.duplicate()]);
    assert!(solver.solve(SolveMode::FirstSolution));
    assert_eq!(solver.get_solutions().len(), 1);
}

#[test]
fn enumerate_all_finds_every_order() {
    // Two one-cell pieces on a two-cell target.  Each piece contributes all
    // eight of its (identical) orientation variants -- duplicates are kept,
    // not deduplicated -- so the count is 2 piece orders x 8 variants x 2
    // anchors x 8 variants x 1 anchor = 256.
    let target = target_from(&["11"]);
    let dot = Piece::new(&["1"], "DOT");
    let mut solver = Solver::new(target, vec![dot.duplicate(), dot.duplicate()]);
    assert!(solver.solve(SolveMode::EnumerateAll));
    assert_eq!(solver.get_solutions().len(), 256);
}

#[test]
fn identical_runs_give_identical_solutions() {
    // Determinism: the same target, catalog and mode twice over give the
    // same solutions in the same order.
    let run = || {
        let target = target_from(&["110", "111"]);
        let duo = Piece::new(&["11"], "DUO");
        let bar = Piece::new(&["111"], "BAR");
        let mut solver = Solver::new(target, vec![duo, bar]);
        solver.solve(SolveMode::EnumerateAll);
        let mut summary: Vec<(String, usize, usize, usize, usize)> = Vec::new();
        for solution in solver.get_solutions() {
            for placed in solution {
                summary.push((
                    placed.piece.get_name().to_string(),
                    placed.variant.get_width(),
                    placed.variant.get_height(),
                    placed.position.0,
                    placed.position.1,
                ));
            }
        }
        summary
    };
    let first = run();
    let second = run();
    assert!(!first.is_empty());
    assert_eq!(first, second);
}

#[test]
fn set_verbose_changes_nothing_else() {
    let target = target_from(&["11"]);
    let dot = Piece::new(&["1"], "DOT");
    let mut solver = Solver::new(target, vec![dot.duplicate(), dot.duplicate()]);
    solver.set_verbose(true);
    assert!(solver.solve(SolveMode::FirstSolution));
    assert_eq!(solver.get_solutions().len(), 1);
}

#[test]
fn report_without_solutions() {
    let target = target_from(&["11"]);
    let bar = Piece::new(&["111"], "BAR");
    let solver = Solver::new(target, vec![bar]);
    assert_eq!(solver.display_all_solutions(), "解が見つかりませんでした。");
}

#[test]
fn report_with_one_solution() {
    let target = target_from(&["1"]);
    let dot = Piece::new(&["1"], "F");
    let mut solver = Solver::new(target, vec![dot]);
    assert!(solver.solve(SolveMode::FirstSolution));
    assert_eq!(
        solver.display_all_solutions(),
        "1個の解が見つかりました！\n\n解 1:\n使用したピース：\n1. F at (0, 0)\n\n配置：\n■\n\n"
    );
}

#[test]
fn decimal_formatting() {
    assert_eq!(usize_to_string(0), "0");
    assert_eq!(usize_to_string(7), "7");
    assert_eq!(usize_to_string(10), "10");
    assert_eq!(usize_to_string(123), "123");
    assert_eq!(usize_to_string(9090), "9090");
}

#[test]
fn report_numbers_every_solution() {
    // One dot on a one-cell target, all variants enumerated: eight identical
    // solutions, each numbered in order in the report.
    let target = target_from(&["1"]);
    let dot = Piece::new(&["1"], "F");
    let mut solver = Solver::new(target, vec![dot]);
    assert!(solver.solve(SolveMode::EnumerateAll));
    assert_eq!(solver.get_solutions().len(), 8);
    let mut expected = String::from("8個の解が見つかりました！\n");
    for i in 1..=8 {
        expected.push_str(&format!(
            "\n解 {}:\n使用したピース：\n1. F at (0, 0)\n\n配置：\n■\n\n",
            i
        ));
    }
    assert_eq!(solver.display_all_solutions(), expected);
}
