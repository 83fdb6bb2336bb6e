use vstd::prelude::*;

use crate::board::{lemma_board_ext, Board, PlacedPiece};
use crate::utils::types::SolverError;
use crate::piece::{create_all_pieces, lemma_cells_finite, Piece};
use crate::solver::{lemma_piece_eqv_wf, lemma_solution_eqv, solution_ok, SolveMode, Solver};

use itertools::Itertools;

verus! {

/// A puzzle: a target pattern of `'1'` (occupied) and `'0'` (free) rows, and
/// the number of catalog pieces a solution must use.
#[derive(Debug)]
pub struct Problem {
    pub pattern: Vec<&'static str>,
    pub num_pieces: usize,
}

impl Problem {
    /// The number of columns of the pattern.
    pub open spec fn spec_width(self) -> int {
        if self.pattern@.len() == 0 {
            0
        } else {
            self.pattern@[0]@.len() as int
        }
    }

    /// The number of rows of the pattern.
    pub open spec fn spec_height(self) -> int {
        self.pattern@.len() as int
    }

    /// The rows agree on their length and the pattern fits the capacity.
    pub open spec fn wf(self) -> bool {
        &&& 1 <= self.spec_height() <= 8
        &&& 1 <= self.spec_width() <= 8
        &&& forall|y: int|
            0 <= y < self.pattern@.len() ==> (#[trigger] self.pattern@[y]@).len()
                == self.spec_width()
    }

    /// A new puzzle over the given pattern rows.
    pub fn new(pattern: Vec<&'static str>, num_pieces: usize) -> (r: Self)
        ensures
            r.pattern == pattern,
            r.num_pieces == num_pieces,
    {
        Self { pattern, num_pieces }
    }

    /// Check the pattern: `Ok` exactly when the rows agree on a nonzero
    /// length and the pattern fits the 8x8 capacity.  An empty or ragged
    /// pattern fails with `MalformedShape`, an oversized one with
    /// `OutOfCapacity`.
    pub fn validate(&self) -> (r: Result<(), SolverError>)
        ensures
            r is Ok <==> self.wf(),
            self.spec_height() == 0 ==> r == Err::<(), SolverError>(SolverError::MalformedShape),
            self.spec_height() > 8 ==> r == Err::<(), SolverError>(SolverError::OutOfCapacity),
            1 <= self.spec_height() <= 8 && self.spec_width() == 0 ==> r == Err::<(
            ), SolverError>(SolverError::MalformedShape),
            1 <= self.spec_height() <= 8 && self.spec_width() > 8 ==> r == Err::<(
            ), SolverError>(SolverError::OutOfCapacity),
            1 <= self.spec_height() <= 8 && 1 <= self.spec_width() <= 8 && !self.wf() ==> r
                == Err::<(), SolverError>(SolverError::MalformedShape),
    {
        let height = self.pattern.len();
        if height == 0 {
            return Err(SolverError::MalformedShape);
        }
        if height > 8 {
            return Err(SolverError::OutOfCapacity);
        }
        let width = self.pattern[0].unicode_len();
        if width == 0 {
            return Err(SolverError::MalformedShape);
        }
        if width > 8 {
            return Err(SolverError::OutOfCapacity);
        }
        let mut y: usize = 1;
        while y < height
            invariant
                height == self.pattern@.len(),
                1 <= height <= 8,
                width == self.pattern@[0]@.len(),
                1 <= width <= 8,
                1 <= y,
                forall|y2: int| 0 <= y2 < y ==> (#[trigger] self.pattern@[y2]@).len() == width,
            decreases height - y,
        {
            if self.pattern[y].unicode_len() != width {
                return Err(SolverError::MalformedShape);
            }
            y += 1;
        }
        Ok(())
    }
}

/// `b` holds exactly the cells the pattern of `problem` marks with `'1'`.
pub open spec fn target_matches(b: Board, problem: Problem) -> bool {
    &&& b.spec_width() == problem.spec_width()
    &&& b.spec_height() == problem.spec_height()
    &&& forall|x: int, y: int|
        0 <= x < 8 && 0 <= y < 8 ==> #[trigger] b.cell(x, y) == (y < problem.spec_height() && x
            < problem.spec_width() && problem.pattern@[y]@[x] == '1')
}

/// One way to tile the target: the pieces chosen from the catalog and their
/// accepted placements.
#[derive(Debug)]
pub struct Solution {
    pub pieces: Vec<Piece>,
    pub placed_pieces: Vec<PlacedPiece>,
}

/// Build a board whose occupied cells are exactly the `'1'` characters of
/// `pattern`: row `y`, column `x` of the pattern is the cell at `(x, y)`.
pub fn create_target_board(width: usize, height: usize, pattern: &[&str]) -> (r: Board)
    requires
        width <= 8,
        height <= 8,
        pattern@.len() == height,
        forall|y: int| 0 <= y < pattern@.len() ==> (#[trigger] pattern@[y]@).len() == width,
    ensures
        r.wf(),
        r.spec_width() == width,
        r.spec_height() == height,
        forall|x: int, y: int|
            0 <= x < 8 && 0 <= y < 8 ==> #[trigger] r.cell(x, y) == (y < height && x < width
                && pattern@[y]@[x] == '1'),
{
    let mut board = Board::new(width, height);
    proof {
        reveal_strlit("1");
    }
    let filler = Piece::new(&["1"], "");

    for y in 0..height
        invariant
            board.wf(),
            board.spec_width() == width <= 8,
            board.spec_height() == height <= 8,
            pattern@.len() == height,
            forall|y2: int| 0 <= y2 < pattern@.len() ==> (#[trigger] pattern@[y2]@).len() == width,
            filler.wf(),
            filler.width == 1,
            filler.height == 1,
            filler.cell(0, 0),
            forall|cx: int, cy: int|
                0 <= cx < 8 && 0 <= cy < 8 ==> #[trigger] board.cell(cx, cy) == (cy < y && cx
                    < width && pattern@[cy]@[cx] == '1'),
    {
        let row = pattern[y];
        for x in 0..width
            invariant
                board.wf(),
                board.spec_width() == width <= 8,
                board.spec_height() == height <= 8,
                y < height,
                pattern@.len() == height,
                forall|y2: int|
                    0 <= y2 < pattern@.len() ==> (#[trigger] pattern@[y2]@).len() == width,
                row@ == pattern@[y as int]@,
                filler.wf(),
                filler.width == 1,
                filler.height == 1,
                filler.cell(0, 0),
                forall|cx: int, cy: int|
                    0 <= cx < 8 && 0 <= cy < 8 ==> #[trigger] board.cell(cx, cy) == ((cy < y || (cy
                        == y && cx < x)) && cx < width && pattern@[cy]@[cx] == '1'),
        {
            if row.get_char(x) == '1' {
                let ghost before = board;
                board.place_piece(&filler, (x, y));
                proof {
                    assert forall|cx: int, cy: int| 0 <= cx < 8 && 0 <= cy < 8 implies
                        #[trigger] board.cell(cx, cy) == ((cy < y || (cy == y && cx < x + 1)) && cx
                        < width && pattern@[cy]@[cx] == '1') by {
                        assert(board.cell(cx, cy) == (before.cell(cx, cy) || crate::board::covers_at(
                            filler,
                            (x, y),
                            cx,
                            cy,
                        )));
                        assert(crate::board::covers_at(filler, (x, y), cx, cy) == filler.cell(
                            cx - x,
                            cy - y,
                        ));
                        if cx == x && cy == y {
                            assert(filler.cell(0, 0));
                        } else {
                            if filler.cell(cx - x, cy - y) {
                                assert(cx - x == 0 && cy - y == 0);
                            }
                        }
                    }
                }
            } else {
                proof {
                    assert forall|cx: int, cy: int| 0 <= cx < 8 && 0 <= cy < 8 implies
                        #[trigger] board.cell(cx, cy) == ((cy < y || (cy == y && cx < x + 1)) && cx
                        < width && pattern@[cy]@[cx] == '1') by {
                    }
                }
            }
        }
    }
    board
}

/// `idxs` is a strictly increasing selection of `k` positions below `n`.
pub open spec fn combination_indices(idxs: Seq<int>, k: int, n: int) -> bool {
    &&& idxs.len() == k
    &&& forall|m: int| 0 <= m < k ==> 0 <= #[trigger] idxs[m] < n
    &&& forall|m: int| 0 < m < k ==> idxs[m - 1] < #[trigger] idxs[m]
}

/// `sel` holds, element for element, copies of the pieces of `from` at the
/// positions `idxs`.
pub open spec fn picks(sel: Seq<Piece>, idxs: Seq<int>, from: Seq<Piece>) -> bool {
    &&& sel.len() == idxs.len()
    &&& forall|m: int| 0 <= m < sel.len() ==> (#[trigger] sel[m]).eqv(from[idxs[m]])
}

/// `sel` holds copies of the elements of `from` at one strictly increasing
/// selection of `k` positions.
pub open spec fn combo_of(sel: Vec<Piece>, from: Vec<Piece>, k: usize) -> bool {
    exists|idxs: Seq<int>|
        combination_indices(idxs, k as int, from@.len() as int) && picks(sel@, idxs, from@)
}

/// A strictly increasing selection sits at or above its position.
proof fn lemma_indices_lower(idxs: Seq<int>, k: int, n: int, m: int)
    requires
        combination_indices(idxs, k, n),
        0 <= m < k,
    ensures
        idxs[m] >= m,
    decreases m,
{
    if m > 0 {
        lemma_indices_lower(idxs, k, n, m - 1);
        assert(idxs[m - 1] < idxs[m]);
    }
}

/// Relies on itertools' `Itertools::combinations`: each yielded vector holds
/// clones of the input elements at one strictly increasing selection of `k`
/// positions, and every such selection is yielded.
#[verifier::external_body]
fn piece_combinations(pieces: &Vec<Piece>, k: usize) -> (r: Vec<Vec<Piece>>)
    ensures
        forall|j: int| 0 <= j < r@.len() ==> combo_of(#[trigger] r@[j], *pieces, k),
        forall|idxs: Seq<int>|
            #[trigger] combination_indices(idxs, k as int, pieces@.len() as int)
                ==> exists|j: int| 0 <= j < r@.len() && picks(r@[j]@, idxs, pieces@),
{
    pieces.iter().cloned().combinations(k).collect()
}

/// Solve one puzzle: build the target board from the pattern, try every
/// choice of `num_pieces` distinct catalog pieces whose areas sum to the
/// target area, and collect every accepted tiling.  Every returned solution
/// uses `num_pieces` pieces and covers any board that matches the pattern
/// exactly, with no overlaps.
pub fn solve_problem(problem: &Problem) -> (r: Vec<Solution>)
    requires
        problem.wf(),
    ensures
        forall|s: int|
            0 <= s < r@.len() ==> (#[trigger] r@[s]).pieces@.len() == problem.num_pieces,
        forall|s: int, tb: Board|
            0 <= s < r@.len() && target_matches(tb, *problem) ==> #[trigger] solution_ok(
                r@[s].placed_pieces@,
                tb,
                problem.num_pieces as int,
            ),
{
    let height = problem.pattern.len();
    let width = problem.pattern[0].unicode_len();
    let target = create_target_board(width, height, problem.pattern.as_slice());
    proof {
        assert(target_matches(target, *problem));
    }

    let all_pieces = create_all_pieces();
    let target_area = target.area();
    let mut all_solutions: Vec<Solution> = Vec::new();

    let k = problem.num_pieces;
    let combos = piece_combinations(&all_pieces, k);
    let nc = combos.len();
    let mut ci: usize = 0;
    while ci < nc
        invariant
            ci <= nc,
            nc == combos@.len(),
            k == problem.num_pieces,
            problem.wf(),
            target.wf(),
            target_matches(target, *problem),
            target_area == target.area_spec(),
            all_pieces@.len() == 7,
            forall|i: int| 0 <= i < 7 ==> (#[trigger] all_pieces@[i]).wf(),
            forall|j: int| 0 <= j < combos@.len() ==> combo_of(#[trigger] combos@[j], all_pieces, k),
            forall|s: int|
                0 <= s < all_solutions@.len() ==> (#[trigger] all_solutions@[s]).pieces@.len() == k,
            forall|s: int|
                0 <= s < all_solutions@.len() ==> solution_ok(
                    (#[trigger] all_solutions@[s]).placed_pieces@,
                    target,
                    k as int,
                ),
        decreases nc - ci,
    {
        let combo = &combos[ci];
        proof {
            assert(combo_of(combos@[ci as int], all_pieces, k));
            let idxs = choose|idxs: Seq<int>|
                combination_indices(idxs, k as int, all_pieces@.len() as int) && picks(
                    combo@,
                    idxs,
                    all_pieces@,
                );
            assert forall|m: int| 0 <= m < combo@.len() implies (#[trigger] combo@[m]).wf() by {
                assert(combo@[m].eqv(all_pieces@[idxs[m]]));
                lemma_piece_eqv_wf(combo@[m], all_pieces@[idxs[m]]);
            }
            if k > 0 {
                lemma_indices_lower(idxs, k as int, all_pieces@.len() as int, k - 1);
                assert(idxs[k - 1] < 7);
            }
            assert(combo@.len() == k <= 7);
        }

        let mut total: usize = 0;
        let nm = combo.len();
        let mut m: usize = 0;
        while m < nm
            invariant
                m <= nm,
                nm == combo@.len() <= 7,
                forall|m2: int| 0 <= m2 < combo@.len() ==> (#[trigger] combo@[m2]).wf(),
                total <= 64 * m,
            decreases nm - m,
        {
            let a = combo[m].area();
            proof {
                lemma_cells_finite(combo@[m as int]);
            }
            total += a;
            m += 1;
        }

        if total == target_area {
            let mut chosen: Vec<Piece> = Vec::new();
            let mut m2: usize = 0;
            while m2 < nm
                invariant
                    m2 <= nm,
                    nm == combo@.len(),
                    chosen@.len() == m2,
                    forall|i: int| 0 <= i < combo@.len() ==> (#[trigger] combo@[i]).wf(),
                    forall|i: int| 0 <= i < m2 ==> (#[trigger] chosen@[i]).wf(),
                    forall|i: int| 0 <= i < m2 ==> (#[trigger] chosen@[i]).eqv(combo@[i]),
                decreases nm - m2,
            {
                chosen.push(combo[m2].duplicate());
                m2 += 1;
            }
            let mut solver = Solver::new(target, chosen);
            let _ = solver.solve(SolveMode::EnumerateAll);
            let found = solver.get_solutions();
            let nf = found.len();
            let mut s: usize = 0;
            while s < nf
                invariant
                    s <= nf,
                    nf == found@.len(),
                    solver.wf(),
                    found@ == solver.spec_solutions(),
                    solver.spec_target() == target,
                    solver.spec_pieces().len() == k,
                    target.wf(),
                    k == problem.num_pieces,
                    forall|s2: int|
                        0 <= s2 < all_solutions@.len() ==> (#[trigger] all_solutions@[s2]).pieces@.len()
                            == k,
                    forall|s2: int|
                        0 <= s2 < all_solutions@.len() ==> solution_ok(
                            (#[trigger] all_solutions@[s2]).placed_pieces@,
                            target,
                            k as int,
                        ),
                decreases nf - s,
            {
                let one = &found[s];
                let np = one.len();
                let mut placed_copy: Vec<PlacedPiece> = Vec::new();
                let mut p: usize = 0;
                while p < np
                    invariant
                        p <= np,
                        np == one@.len(),
                        placed_copy@.len() == p,
                        forall|i: int|
                            0 <= i < p ==> (#[trigger] placed_copy@[i]).eqv(one@[i]),
                    decreases np - p,
                {
                    placed_copy.push(one[p].duplicate());
                    p += 1;
                }
                let mut pieces_copy: Vec<Piece> = Vec::new();
                let mut q: usize = 0;
                while q < solver_pieces_len(&solver)
                    invariant
                        q <= solver.spec_pieces().len(),
                        solver.wf(),
                        pieces_copy@.len() == q,
                    decreases solver.spec_pieces().len() - q,
                {
                    pieces_copy.push(solver_piece_at(&solver, q));
                    q += 1;
                }
                proof {
                    assert(solution_ok(one@, target, k as int));
                    lemma_solution_eqv(placed_copy@, one@, target, k as int);
                }
                all_solutions.push(Solution { pieces: pieces_copy, placed_pieces: placed_copy });
                s += 1;
            }
        }
        ci += 1;
    }
    proof {
        assert forall|s: int, tb: Board|
            0 <= s < all_solutions@.len() && target_matches(tb, *problem) implies
            #[trigger] solution_ok(
            all_solutions@[s].placed_pieces@,
            tb,
            problem.num_pieces as int,
        ) by {
            assert forall|x: int, y: int|
                0 <= x < 8 && 0 <= y < 8 implies #[trigger] tb.cell(x, y) == target.cell(x, y) by {
            }
            lemma_board_ext(tb, target);
        }
    }
    all_solutions
}

/// The number of catalog pieces a solver searches over.
fn solver_pieces_len(solver: &Solver) -> (r: usize)
    ensures
        r == solver.spec_pieces().len(),
{
    solver.get_pieces().len()
}

/// A copy of one catalog piece of a solver.
fn solver_piece_at(solver: &Solver, i: usize) -> (r: Piece)
    requires
        i < solver.spec_pieces().len(),
    ensures
        r.eqv(solver.spec_pieces()[i as int]),
{
    solver.get_pieces()[i].duplicate()
}

} // verus!
