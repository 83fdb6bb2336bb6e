use vstd::prelude::*;

use crate::board::{covers, covers_at, fits, lemma_board_ext, Board, PlacedPiece};
use crate::piece::Piece;
use crate::utils::types::Position;

verus! {

/// How far the search runs: stop at the first accepted assignment, or keep
/// going and collect every one.
#[derive(Debug, Clone, Copy, PartialEq, Eq, Structural)]
pub enum SolveMode {
    /// Stop as soon as one full assignment is accepted.
    FirstSolution,
    /// Explore every branch and collect all accepted assignments.
    EnumerateAll,
}

/// The placement's variant is one of the eight orientations of its piece, it
/// keeps the variant inside the target board, and it covers only cells that
/// the target occupies.
pub open spec fn placement_ok(pl: PlacedPiece, target: Board) -> bool {
    &&& pl.variant.wf()
    &&& crate::piece::is_orientation_of(pl.variant, pl.piece)
    &&& fits(pl.variant, pl.position, target.spec_width() as int, target.spec_height() as int)
    &&& forall|x: int, y: int|
        0 <= x < 8 && 0 <= y < 8 && covers(pl, x, y) ==> #[trigger] target.cell(x, y)
}

/// No two placements of the sequence cover a common cell.
pub open spec fn pairwise_disjoint(pls: Seq<PlacedPiece>) -> bool {
    forall|i: int, j: int, x: int, y: int|
        0 <= i < j < pls.len() && 0 <= x < 8 && 0 <= y < 8 ==> !(#[trigger] covers(pls[i], x, y)
            && #[trigger] covers(pls[j], x, y))
}

/// Some placement of the sequence covers the cell at `(x, y)`.
pub open spec fn covered_by_any(pls: Seq<PlacedPiece>, x: int, y: int) -> bool {
    exists|k: int| 0 <= k < pls.len() && #[trigger] covers(pls[k], x, y)
}

/// An accepted solution: one placement per catalog entry, every placement
/// valid for the target, no two placements overlapping, and the union of the
/// covered cells equal to the target occupancy, cell for cell.
pub open spec fn solution_ok(sol: Seq<PlacedPiece>, target: Board, n_pieces: int) -> bool {
    &&& sol.len() == n_pieces
    &&& forall|k: int| 0 <= k < sol.len() ==> placement_ok(#[trigger] sol[k], target)
    &&& pairwise_disjoint(sol)
    &&& forall|x: int, y: int|
        0 <= x < 8 && 0 <= y < 8 ==> #[trigger] target.cell(x, y) == covered_by_any(sol, x, y)
}

/// Two pieces with the same mask cover the same cells wherever they are
/// anchored.
pub proof fn lemma_covers_eqv(a: Piece, b: Piece, pos: Position)
    requires
        a.board == b.board,
    ensures
        forall|x: int, y: int| #[trigger] covers_at(a, pos, x, y) == covers_at(b, pos, x, y),
{
}

/// A piece equivalent to a well-formed piece is well formed.
pub proof fn lemma_piece_eqv_wf(a: Piece, b: Piece)
    requires
        a.eqv(b),
        b.wf(),
    ensures
        a.wf(),
{
    assert forall|x: int, y: int| #[trigger] a.cell(x, y) implies 0 <= x < a.width && 0 <= y
        < a.height by {
        assert(b.cell(x, y));
    }
}

/// Appending a placement extends the covered cells by exactly the cells of
/// that placement.
pub proof fn lemma_covered_push(pls: Seq<PlacedPiece>, pl: PlacedPiece, x: int, y: int)
    ensures
        covered_by_any(pls.push(pl), x, y) == (covered_by_any(pls, x, y) || covers(pl, x, y)),
{
    if covered_by_any(pls.push(pl), x, y) {
        let k = choose|k: int| 0 <= k < pls.push(pl).len() && #[trigger] covers(pls.push(pl)[k], x, y);
        if k < pls.len() {
            assert(pls.push(pl)[k] == pls[k]);
            assert(covers(pls[k], x, y));
        } else {
            assert(pls.push(pl)[k] == pl);
        }
    }
    if covered_by_any(pls, x, y) {
        let k = choose|k: int| 0 <= k < pls.len() && #[trigger] covers(pls[k], x, y);
        assert(covers(pls.push(pl)[k], x, y));
    }
    if covers(pl, x, y) {
        assert(covers(pls.push(pl)[pls.len() as int], x, y));
    }
}

/// A sequence of placements equivalent one by one to an accepted solution is
/// itself an accepted solution.
pub proof fn lemma_solution_eqv(a: Seq<PlacedPiece>, b: Seq<PlacedPiece>, target: Board, n: int)
    requires
        a.len() == b.len(),
        forall|k: int| 0 <= k < a.len() ==> (#[trigger] a[k]).eqv(b[k]),
        solution_ok(b, target, n),
    ensures
        solution_ok(a, target, n),
{
    assert forall|k: int, x: int, y: int| 0 <= k < a.len() implies #[trigger] covers(a[k], x, y)
        == covers(b[k], x, y) by {
        lemma_covers_eqv(a[k].variant, b[k].variant, a[k].position);
    }
    assert forall|k: int| 0 <= k < a.len() implies placement_ok(#[trigger] a[k], target) by {
        lemma_piece_eqv_wf(a[k].variant, b[k].variant);
        crate::piece::lemma_orientation_congruent(
            a[k].variant,
            a[k].piece,
            b[k].variant,
            b[k].piece,
        );
        assert forall|x: int, y: int| 0 <= x < 8 && 0 <= y < 8 && covers(a[k], x, y) implies
            #[trigger] target.cell(x, y) by {
            assert(covers(b[k], x, y));
        }
    }
    assert forall|x: int, y: int| 0 <= x < 8 && 0 <= y < 8 implies #[trigger] target.cell(x, y)
        == covered_by_any(a, x, y) by {
        if covered_by_any(a, x, y) {
            let k = choose|k: int| 0 <= k < a.len() && #[trigger] covers(a[k], x, y);
            assert(covers(b[k], x, y));
        }
        if covered_by_any(b, x, y) {
            let k = choose|k: int| 0 <= k < b.len() && #[trigger] covers(b[k], x, y);
            assert(covers(a[k], x, y));
        }
    }
}

/// The cells covered by a placement, as a set of coordinates.
pub open spec fn covered_cells(pl: PlacedPiece) -> Set<(int, int)> {
    Set::new(|c: (int, int)| covers(pl, c.0, c.1))
}

/// The union of the cells covered by a sequence of placements.
pub open spec fn union_covered(pls: Seq<PlacedPiece>) -> Set<(int, int)>
    decreases pls.len(),
{
    if pls.len() == 0 {
        Set::empty()
    } else {
        union_covered(pls.drop_last()).union(covered_cells(pls.last()))
    }
}

/// The total area of the variants of a sequence of placements.
pub open spec fn sum_areas(pls: Seq<PlacedPiece>) -> nat
    decreases pls.len(),
{
    if pls.len() == 0 {
        0
    } else {
        sum_areas(pls.drop_last()) + pls.last().variant.area_spec()
    }
}

/// A placement covers exactly as many cells as its variant has.
pub proof fn lemma_covered_cells_area(pl: PlacedPiece)
    ensures
        covered_cells(pl).finite(),
        covered_cells(pl).len() == pl.variant.area_spec(),
{
    let f = |c: (int, int)| (c.0 + pl.position.0, c.1 + pl.position.1);
    crate::piece::lemma_cells_finite(pl.variant);
    assert(pl.variant.cells().map(f) =~= covered_cells(pl)) by {
        assert forall|c: (int, int)| pl.variant.cells().contains(c) implies covered_cells(
            pl,
        ).contains(f(c)) by {
            assert(covers(pl, c.0 + pl.position.0, c.1 + pl.position.1) == pl.variant.cell(
                c.0,
                c.1,
            ));
        }
        assert forall|c: (int, int)| covered_cells(pl).contains(c) implies
            pl.variant.cells().map(f).contains(c) by {
            let src = (c.0 - pl.position.0, c.1 - pl.position.1);
            assert(pl.variant.cells().contains(src) && f(src) == c);
        }
    }
    assert(vstd::relations::injective_on(f, pl.variant.cells()));
    vstd::set_lib::lemma_map_size(pl.variant.cells(), covered_cells(pl), f);
}

/// Membership in the union of covered cells is coverage by some placement.
pub proof fn lemma_union_covered_contains(pls: Seq<PlacedPiece>, c: (int, int))
    ensures
        union_covered(pls).contains(c) == covered_by_any(pls, c.0, c.1),
    decreases pls.len(),
{
    if pls.len() == 0 {
        assert(!covered_by_any(pls, c.0, c.1));
    } else {
        lemma_union_covered_contains(pls.drop_last(), c);
        assert(pls =~= pls.drop_last().push(pls.last()));
        lemma_covered_push(pls.drop_last(), pls.last(), c.0, c.1);
    }
}

proof fn lemma_disjoint_union_len<A>(s1: Set<A>, s2: Set<A>)
    requires
        s1.finite(),
        s2.finite(),
        s1.disjoint(s2),
    ensures
        s1.union(s2).finite(),
        s1.union(s2).len() == s1.len() + s2.len(),
    decreases s1.len(),
{
    if s1.len() == 0 {
        assert(s1 =~= Set::empty());
        assert(s1.union(s2) =~= s2);
    } else {
        let a = s1.choose();
        assert(s1.contains(a));
        assert(s1.union(s2).remove(a) =~= s1.remove(a).union(s2));
        lemma_disjoint_union_len(s1.remove(a), s2);
        assert(s1.union(s2) =~= s1.remove(a).union(s2).insert(a));
    }
}

/// Pairwise disjoint placements that all stay within a well-formed target
/// cover a number of cells equal to the total area of their variants.
pub proof fn lemma_union_covered_len(pls: Seq<PlacedPiece>, target: Board)
    requires
        target.wf(),
        forall|k: int| 0 <= k < pls.len() ==> placement_ok(#[trigger] pls[k], target),
        pairwise_disjoint(pls),
    ensures
        union_covered(pls).finite(),
        union_covered(pls).len() == sum_areas(pls),
    decreases pls.len(),
{
    if pls.len() == 0 {
    } else {
        let rest = pls.drop_last();
        let pl = pls.last();
        assert(forall|k: int| 0 <= k < rest.len() ==> rest[k] == pls[k]);
        assert forall|i: int, j: int, x: int, y: int|
            0 <= i < j < rest.len() && 0 <= x < 8 && 0 <= y < 8 implies !(#[trigger] covers(
            rest[i],
            x,
            y,
        ) && #[trigger] covers(rest[j], x, y)) by {
            assert(!(covers(pls[i], x, y) && covers(pls[j], x, y)));
        }
        lemma_union_covered_len(rest, target);
        lemma_covered_cells_area(pl);
        assert forall|c: (int, int)| union_covered(rest).contains(c) implies !covered_cells(
            pl,
        ).contains(c) by {
            lemma_union_covered_contains(rest, c);
            let k = choose|k: int| 0 <= k < rest.len() && #[trigger] covers(rest[k], c.0, c.1);
            assert(covers(pls[k], c.0, c.1));
            assert(placement_ok(pls[k], target));
            assert(pls[k].variant.cell(c.0 - pls[k].position.0, c.1 - pls[k].position.1));
            assert(0 <= c.0 < 8 && 0 <= c.1 < 8);
            assert(!(covers(pls[k], c.0, c.1) && covers(pls[pls.len() - 1], c.0, c.1)));
        }
        assert(union_covered(rest).disjoint(covered_cells(pl)));
        lemma_disjoint_union_len(union_covered(rest), covered_cells(pl));
    }
}

/// The total area of the catalog entries a sequence of placements draws on.
pub open spec fn sum_catalog_areas(pieces: Seq<Piece>, idxs: Seq<usize>) -> nat
    decreases idxs.len(),
{
    if idxs.len() == 0 {
        0
    } else {
        sum_catalog_areas(pieces, idxs.drop_last()) + pieces[idxs.last() as int].area_spec()
    }
}

proof fn lemma_sums_agree(sol: Seq<PlacedPiece>, pieces: Seq<Piece>, idxs: Seq<usize>)
    requires
        idxs.len() == sol.len(),
        forall|k: int| 0 <= k < idxs.len() ==> (#[trigger] idxs[k]) < pieces.len(),
        forall|i: int| 0 <= i < pieces.len() ==> (#[trigger] pieces[i]).wf(),
        forall|k: int|
            0 <= k < sol.len() ==> crate::piece::is_orientation_of(
                (#[trigger] sol[k]).variant,
                sol[k].piece,
            ),
        forall|k: int|
            0 <= k < sol.len() ==> (#[trigger] sol[k]).piece.eqv(pieces[idxs[k] as int]),
    ensures
        sum_areas(sol) == sum_catalog_areas(pieces, idxs),
    decreases sol.len(),
{
    if sol.len() > 0 {
        let rest = sol.drop_last();
        let ridxs = idxs.drop_last();
        assert(forall|k: int| 0 <= k < rest.len() ==> rest[k] == sol[k]);
        assert(forall|k: int| 0 <= k < ridxs.len() ==> ridxs[k] == idxs[k]);
        lemma_sums_agree(rest, pieces, ridxs);
        let pl = sol.last();
        let entry = pieces[idxs.last() as int];
        lemma_piece_eqv_wf(pl.piece, entry);
        crate::piece::lemma_orientation_preserves_area(pl.variant, pl.piece);
        assert(pl.piece.cells() =~= entry.cells());
        assert(pl.variant.area_spec() == entry.area_spec());
    }
}

/// The total area of the catalog entries of an accepted solution equals the
/// area of the target region: each placed variant keeps its entry's area, the
/// entries are distinct, and the placements partition the target exactly.
pub proof fn lemma_solution_catalog_area(
    sol: Seq<PlacedPiece>,
    target: Board,
    pieces: Seq<Piece>,
    idxs: Seq<usize>,
    n: int,
)
    requires
        target.wf(),
        forall|i: int| 0 <= i < pieces.len() ==> (#[trigger] pieces[i]).wf(),
        solution_ok(sol, target, n),
        uses_distinct_entries(sol, pieces, idxs),
    ensures
        sum_catalog_areas(pieces, idxs) == target.area_spec(),
{
    lemma_solution_area_sum(sol, target, n);
    assert forall|k: int| 0 <= k < sol.len() implies crate::piece::is_orientation_of(
        (#[trigger] sol[k]).variant,
        sol[k].piece,
    ) by {
        assert(placement_ok(sol[k], target));
    }
    lemma_sums_agree(sol, pieces, idxs);
}

/// The total area of the variants of an accepted solution equals the area of
/// the target region.
pub proof fn lemma_solution_area_sum(sol: Seq<PlacedPiece>, target: Board, n: int)
    requires
        target.wf(),
        solution_ok(sol, target, n),
    ensures
        sum_areas(sol) == target.area_spec(),
{
    lemma_union_covered_len(sol, target);
    assert(union_covered(sol) =~= target.cells()) by {
        assert forall|c: (int, int)|
            #[trigger] union_covered(sol).contains(c) == target.cells().contains(c) by {
            lemma_union_covered_contains(sol, c);
            if covered_by_any(sol, c.0, c.1) {
                let k = choose|k: int| 0 <= k < sol.len() && #[trigger] covers(sol[k], c.0, c.1);
                assert(placement_ok(sol[k], target));
                assert(sol[k].variant.cell(c.0 - sol[k].position.0, c.1 - sol[k].position.1));
                assert(0 <= c.0 < 8 && 0 <= c.1 < 8);
                assert(target.cell(c.0, c.1) == covered_by_any(sol, c.0, c.1));
            }
            if target.cells().contains(c) {
                assert(target.cell(c.0, c.1));
                assert(0 <= c.0 < 8 && 0 <= c.1 < 8);
                assert(target.cell(c.0, c.1) == covered_by_any(sol, c.0, c.1));
            }
        }
    }
}

/// `idxs` names, for each placement of `sol`, the distinct catalog entry of
/// `pieces` it placed.
pub open spec fn uses_distinct_entries(
    sol: Seq<PlacedPiece>,
    pieces: Seq<Piece>,
    idxs: Seq<usize>,
) -> bool {
    &&& idxs.len() == sol.len()
    &&& forall|k: int| 0 <= k < idxs.len() ==> (#[trigger] idxs[k]) < pieces.len()
    &&& forall|j: int, k: int|
        #![trigger idxs[j], idxs[k]]
        0 <= j < k < idxs.len() ==> idxs[j] != idxs[k]
    &&& forall|k: int|
        0 <= k < sol.len() ==> (#[trigger] sol[k]).piece.eqv(pieces[idxs[k] as int])
}

/// Every placement of `sol` takes its piece from a catalog entry of `pieces`,
/// no entry contributing twice: entries count by position, not by name.
pub open spec fn solution_uses_catalog(sol: Seq<PlacedPiece>, pieces: Seq<Piece>) -> bool {
    exists|idxs: Seq<usize>| uses_distinct_entries(sol, pieces, idxs)
}

/// Depth-first backtracking search for exact covers of a target region.
#[derive(Debug)]
pub struct Solver {
    target_board: Board,
    pieces: Vec<Piece>,
    used_pieces: Vec<PlacedPiece>,
    used_indices: Vec<usize>,
    current_board: Board,
    solutions: Vec<Vec<PlacedPiece>>,
    verbose: bool,
}

impl Solver {
    /// The target region the search must cover exactly.
    pub closed spec fn spec_target(self) -> Board {
        self.target_board
    }

    /// The catalog of pieces, each to be placed exactly once.
    pub closed spec fn spec_pieces(self) -> Seq<Piece> {
        self.pieces@
    }

    /// The stack of placements of the current branch.
    pub closed spec fn spec_used(self) -> Seq<PlacedPiece> {
        self.used_pieces@
    }

    /// The catalog indices of the placements on the stack.
    pub closed spec fn spec_used_indices(self) -> Seq<usize> {
        self.used_indices@
    }

    /// The working occupancy of the current branch.
    pub closed spec fn spec_current(self) -> Board {
        self.current_board
    }

    /// The accepted solutions so far.
    pub closed spec fn spec_solutions(self) -> Seq<Vec<PlacedPiece>> {
        self.solutions@
    }

    /// Whether the verbose flag is set.
    pub closed spec fn spec_verbose(self) -> bool {
        self.verbose
    }

    /// The solver's invariant: boards well formed and of equal dimensions,
    /// catalog pieces well formed, the stack made of valid, pairwise disjoint
    /// placements whose union is exactly the working occupancy, and every
    /// recorded solution an accepted one.
    pub open spec fn wf(self) -> bool {
        &&& self.spec_target().wf()
        &&& self.spec_current().wf()
        &&& self.spec_current().spec_width() == self.spec_target().spec_width()
        &&& self.spec_current().spec_height() == self.spec_target().spec_height()
        &&& forall|i: int| 0 <= i < self.spec_pieces().len() ==> (#[trigger] self.spec_pieces()[i]).wf()
        &&& self.spec_used_indices().len() == self.spec_used().len()
        &&& self.spec_used().len() <= self.spec_pieces().len()
        &&& uses_distinct_entries(self.spec_used(), self.spec_pieces(), self.spec_used_indices())
        &&& forall|k: int|
            0 <= k < self.spec_used().len() ==> placement_ok(
                #[trigger] self.spec_used()[k],
                self.spec_target(),
            )
        &&& pairwise_disjoint(self.spec_used())
        &&& forall|x: int, y: int|
            0 <= x < 8 && 0 <= y < 8 ==> #[trigger] self.spec_current().cell(x, y)
                == covered_by_any(self.spec_used(), x, y)
        &&& forall|s: int|
            0 <= s < self.spec_solutions().len() ==> solution_ok(
                (#[trigger] self.spec_solutions()[s])@,
                self.spec_target(),
                self.spec_pieces().len() as int,
            )
        &&& forall|s: int|
            0 <= s < self.spec_solutions().len() ==> solution_uses_catalog(
                (#[trigger] self.spec_solutions()[s])@,
                self.spec_pieces(),
            )
    }

    /// A fresh solver over a target board and a catalog: empty stack, empty
    /// working board of the target's dimensions, no solutions.
    pub fn new(target_board: Board, pieces: Vec<Piece>) -> (r: Self)
        requires
            target_board.wf(),
            forall|i: int| 0 <= i < pieces@.len() ==> (#[trigger] pieces@[i]).wf(),
        ensures
            r.wf(),
            r.spec_target() == target_board,
            r.spec_pieces() == pieces@,
            r.spec_used().len() == 0,
            r.spec_solutions().len() == 0,
            !r.spec_verbose(),
    {
        let width = target_board.get_width();
        let height = target_board.get_height();
        Self {
            target_board,
            pieces,
            used_pieces: Vec::new(),
            used_indices: Vec::new(),
            current_board: Board::new(width, height),
            solutions: Vec::new(),
            verbose: false,
        }
    }

    /// Set the verbose flag; nothing else changes.
    pub fn set_verbose(&mut self, verbose: bool)
        ensures
            final(self).spec_verbose() == verbose,
            final(self).spec_target() == old(self).spec_target(),
            final(self).spec_pieces() == old(self).spec_pieces(),
            final(self).spec_used() == old(self).spec_used(),
            final(self).spec_used_indices() == old(self).spec_used_indices(),
            final(self).spec_current() == old(self).spec_current(),
            final(self).spec_solutions() == old(self).spec_solutions(),
            final(self).wf() == old(self).wf(),
    {
        self.verbose = verbose;
    }

    /// Whether the catalog entry at `idx` already contributed a placement to
    /// the current stack.
    fn is_piece_used(&self, idx: usize) -> (r: bool)
        ensures
            r == self.spec_used_indices().contains(idx),
    {
        let mut k: usize = 0;
        while k < self.used_indices.len()
            invariant
                k <= self.used_indices@.len(),
                forall|m: int| 0 <= m < k ==> self.used_indices@[m] != idx,
            decreases self.used_indices@.len() - k,
        {
            if self.used_indices[k] == idx {
                return true;
            }
            k += 1;
        }
        false
    }

    /// Whether `piece` anchored at `pos` stays on the board, overlaps no
    /// placed piece, and covers only cells the target occupies.
    fn can_place_piece_at_target(&self, piece: &Piece, pos: Position) -> (r: bool)
        requires
            self.wf(),
            piece.wf(),
        ensures
            r == (fits(
                *piece,
                pos,
                self.spec_current().spec_width() as int,
                self.spec_current().spec_height() as int,
            ) && (forall|x: int, y: int|
                0 <= x < 8 && 0 <= y < 8 ==> !(covers_at(*piece, pos, x, y)
                    && #[trigger] self.spec_current().cell(x, y))) && (forall|x: int, y: int|
                0 <= x < 8 && 0 <= y < 8 && covers_at(*piece, pos, x, y)
                    ==> #[trigger] self.spec_target().cell(x, y))),
    {
        if !self.current_board.can_place_piece(piece, pos) {
            return false;
        }
        let x = pos.0;
        let y = pos.1;
        for dy in 0..piece.height
            invariant
                self.wf(),
                piece.wf(),
                x == pos.0,
                y == pos.1,
                x + piece.width <= self.spec_current().spec_width(),
                y + piece.height <= self.spec_current().spec_height(),
                self.spec_current().spec_width() == self.spec_target().spec_width(),
                self.spec_current().spec_height() == self.spec_target().spec_height(),
                forall|x2: int, y2: int|
                    0 <= x2 < 8 && 0 <= y2 < 8 ==> !(covers_at(*piece, pos, x2, y2)
                        && #[trigger] self.spec_current().cell(x2, y2)),
                forall|dx2: int, dy2: int|
                    0 <= dx2 < piece.width && 0 <= dy2 < dy && #[trigger] piece.cell(dx2, dy2)
                        ==> self.spec_target().cell(x + dx2, y + dy2),
        {
            for dx in 0..piece.width
                invariant
                    self.wf(),
                    piece.wf(),
                    x == pos.0,
                    y == pos.1,
                    dy < piece.height,
                    x + piece.width <= self.spec_current().spec_width(),
                    y + piece.height <= self.spec_current().spec_height(),
                    self.spec_current().spec_width() == self.spec_target().spec_width(),
                    self.spec_current().spec_height() == self.spec_target().spec_height(),
                    forall|x2: int, y2: int|
                        0 <= x2 < 8 && 0 <= y2 < 8 ==> !(covers_at(*piece, pos, x2, y2)
                            && #[trigger] self.spec_current().cell(x2, y2)),
                    forall|dx2: int, dy2: int|
                        0 <= dx2 < piece.width && 0 <= dy2 < dy && #[trigger] piece.cell(dx2, dy2)
                            ==> self.spec_target().cell(x + dx2, y + dy2),
                    forall|dx2: int|
                        0 <= dx2 < dx && #[trigger] piece.cell(dx2, dy as int)
                            ==> self.spec_target().cell(x + dx2, y + dy),
            {
                if self.pieces_cell(piece, dx, dy) && !self.target_cell(x + dx, y + dy) {
                    proof {
                        assert(covers_at(*piece, pos, x + dx, y + dy));
                    }
                    return false;
                }
            }
        }
        proof {
            assert forall|cx: int, cy: int|
                0 <= cx < 8 && 0 <= cy < 8 && covers_at(*piece, pos, cx, cy) implies
                #[trigger] self.spec_target().cell(cx, cy) by {
                assert(piece.cell(cx - pos.0, cy - pos.1));
            }
        }
        true
    }

    /// Read one cell of a piece pattern.
    fn pieces_cell(&self, piece: &Piece, dx: usize, dy: usize) -> (r: bool)
        requires
            piece.wf(),
            dx < piece.width,
            dy < piece.height,
        ensures
            r == piece.cell(dx as int, dy as int),
    {
        piece.board.get(dx, dy)
    }

    /// Read one cell of the target board.
    fn target_cell(&self, x: usize, y: usize) -> (r: bool)
        requires
            self.wf(),
            x < 8,
            y < 8,
        ensures
            r == self.spec_target().cell(x as int, y as int),
    {
        self.target_board.get_state().get(x, y)
    }

    /// Union a placement into the working board.
    fn place_piece(&mut self, piece: &Piece, pos: Position)
        requires
            old(self).spec_current().wf(),
            piece.wf(),
            fits(
                *piece,
                pos,
                old(self).spec_current().spec_width() as int,
                old(self).spec_current().spec_height() as int,
            ),
        ensures
            final(self).spec_current().wf(),
            final(self).spec_current().spec_width() == old(self).spec_current().spec_width(),
            final(self).spec_current().spec_height() == old(self).spec_current().spec_height(),
            forall|x: int, y: int|
                0 <= x < 8 && 0 <= y < 8 ==> #[trigger] final(self).spec_current().cell(x, y) == (
                old(self).spec_current().cell(x, y) || covers_at(*piece, pos, x, y)),
            final(self).spec_target() == old(self).spec_target(),
            final(self).spec_pieces() == old(self).spec_pieces(),
            final(self).spec_used() == old(self).spec_used(),
            final(self).spec_used_indices() == old(self).spec_used_indices(),
            final(self).spec_solutions() == old(self).spec_solutions(),
            final(self).spec_verbose() == old(self).spec_verbose(),
    {
        self.current_board.place_piece(piece, pos);
    }

    /// Clear a placement from the working board: the exact inverse of
    /// `place_piece` with the same arguments.
    fn remove_piece(&mut self, piece: &Piece, pos: Position)
        requires
            old(self).spec_current().wf(),
            piece.wf(),
            fits(
                *piece,
                pos,
                old(self).spec_current().spec_width() as int,
                old(self).spec_current().spec_height() as int,
            ),
            forall|x: int, y: int|
                0 <= x < 8 && 0 <= y < 8 && covers_at(*piece, pos, x, y) ==> #[trigger] old(
                    self,
                ).spec_current().cell(x, y),
        ensures
            final(self).spec_current().wf(),
            final(self).spec_current().spec_width() == old(self).spec_current().spec_width(),
            final(self).spec_current().spec_height() == old(self).spec_current().spec_height(),
            forall|x: int, y: int|
                0 <= x < 8 && 0 <= y < 8 ==> #[trigger] final(self).spec_current().cell(x, y) == (
                old(self).spec_current().cell(x, y) && !covers_at(*piece, pos, x, y)),
            final(self).spec_target() == old(self).spec_target(),
            final(self).spec_pieces() == old(self).spec_pieces(),
            final(self).spec_used() == old(self).spec_used(),
            final(self).spec_used_indices() == old(self).spec_used_indices(),
            final(self).spec_solutions() == old(self).spec_solutions(),
            final(self).spec_verbose() == old(self).spec_verbose(),
    {
        self.current_board.remove_piece(piece, pos);
    }

    /// The catalog of pieces the search places.
    pub fn get_pieces(&self) -> (r: &Vec<Piece>)
        ensures
            r@ == self.spec_pieces(),
    {
        &self.pieces
    }

    /// The accepted solutions so far.
    pub fn get_solutions(&self) -> (r: &Vec<Vec<PlacedPiece>>)
        ensures
            r@ == self.spec_solutions(),
    {
        &self.solutions
    }

    /// Run the backtracking search.  The target, the catalog, the placement
    /// stack and the working board are exactly as before the call; solutions
    /// only accumulate, each accepted; the result says whether this run
    /// accepted at least one.
    pub fn solve(&mut self, mode: SolveMode) -> (r: bool)
        requires
            old(self).wf(),
        ensures
            final(self).wf(),
            final(self).spec_target() == old(self).spec_target(),
            final(self).spec_pieces() == old(self).spec_pieces(),
            final(self).spec_used() == old(self).spec_used(),
            final(self).spec_used_indices() == old(self).spec_used_indices(),
            final(self).spec_current() == old(self).spec_current(),
            sols_prefix(old(self).spec_solutions(), final(self).spec_solutions()),
            r == (final(self).spec_solutions().len() > old(self).spec_solutions().len()),
            (old(self).spec_used().len() == old(self).spec_pieces().len()
                && old(self).spec_current().spec_state() == old(self).spec_target().spec_state())
                ==> r,
            mode == SolveMode::FirstSolution ==> final(self).spec_solutions().len() <= old(
                self,
            ).spec_solutions().len() + 1,
    {
        let before = self.solutions.len();
        let _ = self.search(mode);
        self.solutions.len() > before
    }

    /// One level of the depth-first search.  Restores the stack and the
    /// working board exactly; appends only accepted solutions; returns true
    /// only in first-solution mode, once a solution was accepted.
    fn search(&mut self, mode: SolveMode) -> (stop: bool)
        requires
            old(self).wf(),
        ensures
            final(self).wf(),
            final(self).spec_target() == old(self).spec_target(),
            final(self).spec_pieces() == old(self).spec_pieces(),
            final(self).spec_used() == old(self).spec_used(),
            final(self).spec_used_indices() == old(self).spec_used_indices(),
            final(self).spec_current() == old(self).spec_current(),
            sols_prefix(old(self).spec_solutions(), final(self).spec_solutions()),
            stop ==> final(self).spec_solutions().len() > old(self).spec_solutions().len(),
            (old(self).spec_used().len() == old(self).spec_pieces().len()
                && old(self).spec_current().spec_state() == old(self).spec_target().spec_state())
                ==> final(self).spec_solutions().len() > old(self).spec_solutions().len(),
            mode == SolveMode::FirstSolution ==> final(self).spec_solutions().len() == old(
                self,
            ).spec_solutions().len() + (if stop {
                1int
            } else {
                0
            }),
        decreases self.pieces@.len() - self.used_pieces@.len(),
    {
        if self.used_pieces.len() == self.pieces.len() {
            if self.current_board.get_state() == self.target_board.get_state() {
                proof {
                    assert forall|x: int, y: int| 0 <= x < 8 && 0 <= y < 8 implies
                        #[trigger] self.spec_target().cell(x, y) == covered_by_any(
                        self.spec_used(),
                        x,
                        y,
                    ) by {
                        assert(self.spec_current().cell(x, y) == covered_by_any(
                            self.spec_used(),
                            x,
                            y,
                        ));
                    }
                    assert(solution_ok(
                        self.spec_used(),
                        self.spec_target(),
                        self.spec_pieces().len() as int,
                    ));
                }
                let n = self.used_pieces.len();
                let mut copy: Vec<PlacedPiece> = Vec::new();
                let mut k: usize = 0;
                while k < n
                    invariant
                        *self == *old(self),
                        n == self.used_pieces@.len(),
                        k <= n,
                        copy@.len() == k,
                        forall|m: int|
                            0 <= m < k ==> (#[trigger] copy@[m]).eqv(self.used_pieces@[m]),
                    decreases n - k,
                {
                    let next = self.used_pieces[k].duplicate();
                    copy.push(next);
                    k += 1;
                }
                proof {
                    lemma_solution_eqv(
                        copy@,
                        self.spec_used(),
                        self.spec_target(),
                        self.spec_pieces().len() as int,
                    );
                    assert forall|m: int| 0 <= m < copy@.len() implies (#[trigger] copy@[m]).piece.eqv(
                        self.spec_pieces()[self.spec_used_indices()[m] as int],
                    ) by {
                        assert(copy@[m].eqv(self.spec_used()[m]));
                        assert(self.spec_used()[m].piece.eqv(
                            self.spec_pieces()[self.spec_used_indices()[m] as int],
                        ));
                    }
                    assert(uses_distinct_entries(
                        copy@,
                        self.spec_pieces(),
                        self.spec_used_indices(),
                    ));
                    assert(solution_uses_catalog(copy@, self.spec_pieces()));
                }
                self.solutions.push(copy);
                return mode == SolveMode::FirstSolution;
            }
            return false;
        }
        let n_pieces = self.pieces.len();
        let width = self.target_board.get_width();
        let height = self.target_board.get_height();
        let mut idx: usize = 0;
        while idx < n_pieces
            invariant
                self.wf(),
                idx <= n_pieces,
                n_pieces == self.spec_pieces().len(),
                self.spec_used().len() < self.spec_pieces().len(),
                width == self.spec_target().spec_width(),
                height == self.spec_target().spec_height(),
                self.spec_target() == old(self).spec_target(),
                self.spec_pieces() == old(self).spec_pieces(),
                self.spec_used() == old(self).spec_used(),
                self.spec_used_indices() == old(self).spec_used_indices(),
                self.spec_current() == old(self).spec_current(),
                sols_prefix(old(self).spec_solutions(), self.spec_solutions()),
                mode == SolveMode::FirstSolution ==> self.spec_solutions() == old(
                    self,
                ).spec_solutions(),
            decreases n_pieces - idx,
        {
            if !self.is_piece_used(idx) {
                let piece = self.pieces[idx].duplicate();
                proof {
                    assert(self.spec_pieces()[idx as int].wf());
                    lemma_piece_eqv_wf(piece, self.spec_pieces()[idx as int]);
                }
                let variants = piece.get_all_variants();
                let nv = variants.len();
                let mut vi: usize = 0;
                while vi < nv
                    invariant
                        self.wf(),
                        idx < n_pieces,
                        n_pieces == self.spec_pieces().len(),
                        self.spec_used().len() < self.spec_pieces().len(),
                        width == self.spec_target().spec_width(),
                        height == self.spec_target().spec_height(),
                        self.spec_target() == old(self).spec_target(),
                        self.spec_pieces() == old(self).spec_pieces(),
                        self.spec_used() == old(self).spec_used(),
                        self.spec_used_indices() == old(self).spec_used_indices(),
                        self.spec_current() == old(self).spec_current(),
                        sols_prefix(old(self).spec_solutions(), self.spec_solutions()),
                        mode == SolveMode::FirstSolution ==> self.spec_solutions() == old(
                            self,
                        ).spec_solutions(),
                        nv == variants@.len(),
                        vi <= nv,
                        forall|i: int| 0 <= i < variants@.len() ==> (#[trigger] variants@[i]).wf(),
                        forall|i: int|
                            0 <= i < variants@.len() ==> crate::piece::is_orientation_of(
                                #[trigger] variants@[i],
                                piece,
                            ),
                        piece.eqv(self.spec_pieces()[idx as int]),
                        !self.spec_used_indices().contains(idx),
                    decreases nv - vi,
                {
                    let variant = &variants[vi];
                    for y in 0..height
                        invariant
                            self.wf(),
                            idx < n_pieces,
                            n_pieces == self.spec_pieces().len(),
                            self.spec_used().len() < self.spec_pieces().len(),
                            width == self.spec_target().spec_width(),
                            height == self.spec_target().spec_height(),
                            self.spec_target() == old(self).spec_target(),
                            self.spec_pieces() == old(self).spec_pieces(),
                            self.spec_used() == old(self).spec_used(),
                            self.spec_used_indices() == old(self).spec_used_indices(),
                            self.spec_current() == old(self).spec_current(),
                            sols_prefix(old(self).spec_solutions(), self.spec_solutions()),
                            mode == SolveMode::FirstSolution ==> self.spec_solutions() == old(
                                self,
                            ).spec_solutions(),
                            variant.wf(),
                            crate::piece::is_orientation_of(*variant, piece),
                            piece.eqv(self.spec_pieces()[idx as int]),
                            !self.spec_used_indices().contains(idx),
                    {
                        for x in 0..width
                            invariant
                                self.wf(),
                                idx < n_pieces,
                                n_pieces == self.spec_pieces().len(),
                                self.spec_used().len() < self.spec_pieces().len(),
                                width == self.spec_target().spec_width(),
                                height == self.spec_target().spec_height(),
                                self.spec_target() == old(self).spec_target(),
                                self.spec_pieces() == old(self).spec_pieces(),
                                self.spec_used() == old(self).spec_used(),
                                self.spec_used_indices() == old(self).spec_used_indices(),
                                self.spec_current() == old(self).spec_current(),
                                sols_prefix(old(self).spec_solutions(), self.spec_solutions()),
                                mode == SolveMode::FirstSolution ==> self.spec_solutions() == old(
                                    self,
                                ).spec_solutions(),
                                variant.wf(),
                                crate::piece::is_orientation_of(*variant, piece),
                                piece.eqv(self.spec_pieces()[idx as int]),
                                !self.spec_used_indices().contains(idx),
                        {
                            let pos = (x, y);
                            if self.can_place_piece_at_target(variant, pos) {
                                let ghost s0 = *self;
                                self.place_piece(variant, pos);
                                let placed = PlacedPiece {
                                    piece: piece.duplicate(),
                                    variant: variant.duplicate(),
                                    position: pos,
                                };
                                let ghost placed_g = placed;
                                proof {
                                    lemma_covers_eqv(placed.variant, *variant, pos);
                                    crate::piece::lemma_orientation_congruent(
                                        placed.variant,
                                        placed.piece,
                                        *variant,
                                        piece,
                                    );
                                }
                                self.used_pieces.push(placed);
                                self.used_indices.push(idx);
                                proof {
                                    assert(placement_ok(placed_g, self.spec_target()));
                                    assert forall|i: int, j: int, cx: int, cy: int|
                                        0 <= i < j < self.spec_used().len() && 0 <= cx < 8 && 0
                                            <= cy < 8 implies !(#[trigger] covers(
                                        self.spec_used()[i],
                                        cx,
                                        cy,
                                    ) && #[trigger] covers(self.spec_used()[j], cx, cy)) by {
                                        if j == self.spec_used().len() - 1 {
                                            if covers(s0.spec_used()[i], cx, cy) {
                                                assert(covered_by_any(s0.spec_used(), cx, cy));
                                                assert(s0.spec_current().cell(cx, cy));
                                                assert(!covers_at(*variant, pos, cx, cy));
                                            }
                                        } else {
                                            assert(self.spec_used()[i] == s0.spec_used()[i]);
                                            assert(self.spec_used()[j] == s0.spec_used()[j]);
                                        }
                                    }
                                    assert forall|cx: int, cy: int| 0 <= cx < 8 && 0 <= cy < 8
                                        implies #[trigger] self.spec_current().cell(cx, cy)
                                        == covered_by_any(self.spec_used(), cx, cy) by {
                                        lemma_covered_push(s0.spec_used(), placed_g, cx, cy);
                                        assert(self.spec_used() == s0.spec_used().push(placed_g));
                                        assert(covers(placed_g, cx, cy) == covers_at(
                                            *variant,
                                            pos,
                                            cx,
                                            cy,
                                        ));
                                    }
                                    assert(self.spec_used() == s0.spec_used().push(placed_g));
                                    assert(self.spec_used_indices() == s0.spec_used_indices().push(
                                        idx,
                                    ));
                                    assert(placed_g.piece.eqv(self.spec_pieces()[idx as int]));
                                    assert forall|j: int|
                                        0 <= j < s0.spec_used_indices().len() implies (
                                    #[trigger] s0.spec_used_indices()[j]) != idx by {
                                        if s0.spec_used_indices()[j] == idx {
                                            assert(s0.spec_used_indices().contains(idx));
                                        }
                                    }
                                    assert(uses_distinct_entries(
                                        self.spec_used(),
                                        self.spec_pieces(),
                                        self.spec_used_indices(),
                                    ));
                                    assert(self.wf());
                                }
                                let stop = self.search(mode);
                                let ghost s1 = *self;
                                let _ = self.used_pieces.pop();
                                let _ = self.used_indices.pop();
                                self.remove_piece(variant, pos);
                                proof {
                                    assert(self.used_pieces@ =~= s0.used_pieces@);
                                    assert(self.used_indices@ =~= s0.used_indices@);
                                    assert forall|cx: int, cy: int| 0 <= cx < 8 && 0 <= cy < 8
                                        implies #[trigger] self.spec_current().cell(cx, cy)
                                        == s0.spec_current().cell(cx, cy) by {
                                        assert(s1.spec_current().cell(cx, cy) == (s0.spec_current().cell(
                                            cx,
                                            cy,
                                        ) || covers_at(*variant, pos, cx, cy)));
                                        assert(!(covers_at(*variant, pos, cx, cy)
                                            && s0.spec_current().cell(cx, cy)));
                                    }
                                    lemma_board_ext(self.spec_current(), s0.spec_current());
                                    assert(self.spec_current() == s0.spec_current());
                                    assert(self.wf());
                                    if mode == SolveMode::FirstSolution && !stop {
                                        assert(self.spec_solutions() =~= s0.spec_solutions());
                                    }
                                }
                                if stop {
                                    return true;
                                }
                            }
                        }
                    }
                    vi += 1;
                }
            }
            idx += 1;
        }
        false
    }

    /// Render the report of every accepted solution: how many were found,
    /// then, for each, its placement listing and its grid.
    #[verifier::rlimit(100)]
    pub fn display_all_solutions(&self) -> (r: String)
        requires
            self.wf(),
        ensures
            r@ == report_spec(
                self.spec_solutions(),
                self.spec_target().spec_width() as int,
                self.spec_target().spec_height() as int,
            ),
    {
        let ghost w = self.spec_target().spec_width() as int;
        let ghost h = self.spec_target().spec_height() as int;
        if self.solutions.len() == 0 {
            return String::from_str("解が見つかりませんでした。");
        }
        let ns = self.solutions.len();
        let mut result = usize_to_string(ns);
        result.append("個の解が見つかりました！\n");
        proof {
            assert(result@ =~= dec_str(ns as int) + "個の解が見つかりました！\n"@
                + solution_blocks(self.spec_solutions(), 0, w, h));
        }
        let mut si: usize = 0;
        while si < ns
            invariant
                self.wf(),
                ns == self.spec_solutions().len(),
                0 < ns,
                si <= ns,
                w == self.spec_target().spec_width() as int,
                h == self.spec_target().spec_height() as int,
                result@ == dec_str(ns as int) + "個の解が見つかりました！\n"@ + solution_blocks(
                    self.spec_solutions(),
                    si as int,
                    w,
                    h,
                ),
            decreases ns - si,
        {
            let ghost header = dec_str(ns as int) + "個の解が見つかりました！\n"@
                + solution_blocks(self.spec_solutions(), si as int, w, h);
            result.append("\n解 ");
            let num = usize_to_string(si + 1);
            result.append(num.as_str());
            result.append(":\n使用したピース：\n");
            let sol = &self.solutions[si];
            proof {
                assert(solution_ok(sol@, self.spec_target(), self.spec_pieces().len() as int));
                assert(result@ =~= header + "\n解 "@ + dec_str(si as int + 1)
                    + ":\n使用したピース：\n"@ + placement_lines(sol@, 0));
            }
            let ghost head2 = header + "\n解 "@ + dec_str(si as int + 1)
                + ":\n使用したピース：\n"@;
            let np = sol.len();
            let mut pi: usize = 0;
            while pi < np
                invariant
                    np == sol@.len(),
                    pi <= np,
                    result@ == head2 + placement_lines(sol@, pi as int),
                decreases np - pi,
            {
                let pl = &sol[pi];
                let n1 = usize_to_string(pi + 1);
                result.append(n1.as_str());
                result.append(". ");
                result.append(pl.piece.get_name());
                result.append(" at (");
                let xs = usize_to_string(pl.position.0);
                result.append(xs.as_str());
                result.append(", ");
                let ys = usize_to_string(pl.position.1);
                result.append(ys.as_str());
                result.append(")\n");
                proof {
                    assert(result@ =~= head2 + placement_lines(sol@, pi as int + 1));
                }
                pi += 1;
            }
            result.append("\n配置：\n");
            let board = Board::new(self.target_board.get_width(), self.target_board.get_height());
            proof {
                assert forall|k: int| 0 <= k < sol@.len() implies (#[trigger] sol@[k]).variant.wf() by {
                    assert(placement_ok(sol@[k], self.spec_target()));
                }
            }
            let grid = board.display_with_pieces(sol.as_slice());
            result.append(grid.as_str());
            result.append("\n");
            proof {
                assert(result@ =~= dec_str(ns as int) + "個の解が見つかりました！\n"@
                    + solution_blocks(self.spec_solutions(), si as int + 1, w, h));
            }
            si += 1;
        }
        result
    }
}

/// `a` is an unchanged initial segment of `b`.
pub open spec fn sols_prefix(a: Seq<Vec<PlacedPiece>>, b: Seq<Vec<PlacedPiece>>) -> bool {
    &&& a.len() <= b.len()
    &&& forall|i: int| 0 <= i < a.len() ==> #[trigger] a[i] == b[i]
}

/// The character for one decimal digit.
pub open spec fn dec_digit(d: int) -> char {
    if d == 0 {
        '0'
    } else if d == 1 {
        '1'
    } else if d == 2 {
        '2'
    } else if d == 3 {
        '3'
    } else if d == 4 {
        '4'
    } else if d == 5 {
        '5'
    } else if d == 6 {
        '6'
    } else if d == 7 {
        '7'
    } else if d == 8 {
        '8'
    } else {
        '9'
    }
}

/// The decimal digits of `n`, most significant first.
pub open spec fn dec_str(n: int) -> Seq<char>
    decreases n,
{
    if n < 10 {
        seq![dec_digit(n)]
    } else {
        dec_str(n / 10).push(dec_digit(n % 10))
    }
}

/// The string for one decimal digit.
fn digit_str(d: usize) -> (r: &'static str)
    requires
        d < 10,
    ensures
        r@.len() == 1,
        r@[0] == dec_digit(d as int),
{
    proof {
        reveal_strlit("0");
        reveal_strlit("1");
        reveal_strlit("2");
        reveal_strlit("3");
        reveal_strlit("4");
        reveal_strlit("5");
        reveal_strlit("6");
        reveal_strlit("7");
        reveal_strlit("8");
        reveal_strlit("9");
    }
    if d == 0 {
        "0"
    } else if d == 1 {
        "1"
    } else if d == 2 {
        "2"
    } else if d == 3 {
        "3"
    } else if d == 4 {
        "4"
    } else if d == 5 {
        "5"
    } else if d == 6 {
        "6"
    } else if d == 7 {
        "7"
    } else if d == 8 {
        "8"
    } else {
        "9"
    }
}

/// Format a number in decimal.
pub fn usize_to_string(n: usize) -> (r: String)
    ensures
        r@ == dec_str(n as int),
    decreases n,
{
    if n < 10 {
        let r = String::from_str(digit_str(n));
        proof {
            assert(r@ =~= dec_str(n as int));
        }
        r
    } else {
        let mut s = usize_to_string(n / 10);
        s.append(digit_str(n % 10));
        proof {
            assert(s@ =~= dec_str(n as int));
        }
        s
    }
}

/// One numbered line of a placement listing: the piece name and its anchor.
pub open spec fn placement_line(i: int, pl: PlacedPiece) -> Seq<char> {
    dec_str(i + 1) + ". "@ + pl.piece.name@ + " at ("@ + dec_str(pl.position.0 as int) + ", "@
        + dec_str(pl.position.1 as int) + ")\n"@
}

/// The first `k` lines of a placement listing.
pub open spec fn placement_lines(sol: Seq<PlacedPiece>, k: int) -> Seq<char>
    decreases k,
{
    if k <= 0 {
        Seq::empty()
    } else {
        placement_lines(sol, k - 1) + placement_line(k - 1, sol[k - 1])
    }
}

/// The report block of one solution: its number, its placement listing and
/// its rendered grid.
pub open spec fn solution_block(i: int, sol: Seq<PlacedPiece>, w: int, h: int) -> Seq<char> {
    "\n解 "@ + dec_str(i + 1) + ":\n使用したピース：\n"@ + placement_lines(sol, sol.len() as int)
        + "\n配置：\n"@ + crate::board::pieces_render_spec(sol, w, h) + "\n"@
}

/// The first `k` solution blocks of a report.
pub open spec fn solution_blocks(sols: Seq<Vec<PlacedPiece>>, k: int, w: int, h: int) -> Seq<char>
    decreases k,
{
    if k <= 0 {
        Seq::empty()
    } else {
        solution_blocks(sols, k - 1, w, h) + solution_block(k - 1, sols[k - 1]@, w, h)
    }
}

/// The whole report: a no-solution line, or a count line followed by one
/// block per solution.
pub open spec fn report_spec(sols: Seq<Vec<PlacedPiece>>, w: int, h: int) -> Seq<char> {
    if sols.len() == 0 {
        "解が見つかりませんでした。"@
    } else {
        dec_str(sols.len() as int) + "個の解が見つかりました！\n"@ + solution_blocks(
            sols,
            sols.len() as int,
            w,
            h,
        )
    }
}

} // verus!
