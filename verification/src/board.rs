use vstd::prelude::*;
use vstd::set_lib::lemma_len_subset;

use crate::piece::{cap_cells, lemma_cap_cells_finite, Piece};
use crate::utils::bit_ops::{lemma_bb_ext_cells, BitBoard};
use crate::utils::types::{Position, SolverError};

verus! {

/// One accepted placement: the catalog piece, the oriented variant that was
/// placed, and the anchor of its top-left corner.
#[derive(Debug)]
pub struct PlacedPiece {
    pub piece: Piece,
    pub variant: Piece,
    pub position: Position,
}

impl PlacedPiece {
    /// Same variant geometry and anchor; the names agree as text.
    pub open spec fn eqv(self, other: PlacedPiece) -> bool {
        &&& self.piece.eqv(other.piece)
        &&& self.variant.eqv(other.variant)
        &&& self.position == other.position
    }

    /// An independent copy of the placement.
    pub fn duplicate(&self) -> (r: PlacedPiece)
        ensures
            r.eqv(*self),
    {
        PlacedPiece {
            piece: self.piece.duplicate(),
            variant: self.variant.duplicate(),
            position: self.position,
        }
    }
}

/// Whether the cell at `(x, y)` is covered by `piece` anchored at `pos`.
pub open spec fn covers_at(piece: Piece, pos: Position, x: int, y: int) -> bool {
    piece.cell(x - pos.0, y - pos.1)
}

/// Whether the cell at `(x, y)` is covered by the placement `pl`.
pub open spec fn covers(pl: PlacedPiece, x: int, y: int) -> bool {
    covers_at(pl.variant, pl.position, x, y)
}

/// `piece` anchored at `pos` lies entirely within a `width` x `height` board.
pub open spec fn fits(piece: Piece, pos: Position, width: int, height: int) -> bool {
    &&& pos.0 + piece.width <= width
    &&& pos.1 + piece.height <= height
}

/// Two boards with the same dimensions that agree on every cell of the
/// capacity are equal.
pub proof fn lemma_board_ext(a: Board, b: Board)
    requires
        a.spec_width() == b.spec_width(),
        a.spec_height() == b.spec_height(),
        forall|x: int, y: int|
            0 <= x < 8 && 0 <= y < 8 ==> #[trigger] a.cell(x, y) == b.cell(x, y),
    ensures
        a == b,
{
    assert forall|x: int, y: int|
        0 <= x < 8 && 0 <= y < 8 implies #[trigger] a.spec_state().cell(x, y)
        == b.spec_state().cell(x, y) by {
        assert(a.cell(x, y) == b.cell(x, y));
    }
    lemma_bb_ext_cells(a.spec_state(), b.spec_state());
    assert(a =~= b);
}

/// The character that renders one cell of a board.
pub open spec fn cell_char(b: Board, x: int, y: int) -> char {
    if b.cell(x, y) {
        '■'
    } else {
        '□'
    }
}

/// Row `y` of a board rendering, up to column `x`.
pub open spec fn render_row_prefix(b: Board, y: int, x: int) -> Seq<char>
    decreases x,
{
    if x <= 0 {
        Seq::empty()
    } else {
        render_row_prefix(b, y, x - 1).push(cell_char(b, x - 1, y))
    }
}

/// The first `y` rows of a board rendering, each closed by a newline.
pub open spec fn render_prefix(b: Board, y: int) -> Seq<char>
    decreases y,
{
    if y <= 0 {
        Seq::empty()
    } else {
        render_prefix(b, y - 1) + render_row_prefix(b, y - 1, b.spec_width() as int).push('\n')
    }
}

/// The full rendering of a board: one row of cell characters per grid row.
pub open spec fn render_spec(b: Board) -> Seq<char> {
    render_prefix(b, b.spec_height() as int)
}

/// The index of the last placement of the sequence that covers `(x, y)`, or
/// `-1` if none does.
pub open spec fn cover_index(pls: Seq<PlacedPiece>, x: int, y: int) -> int
    decreases pls.len(),
{
    if pls.len() == 0 {
        -1
    } else if covers(pls.last(), x, y) {
        pls.len() - 1
    } else {
        cover_index(pls.drop_last(), x, y)
    }
}

/// The symbol that marks the placement at index `i` in a rendering.
pub open spec fn symbol_for(i: int) -> char {
    if i % 8 == 0 {
        '■'
    } else if i % 8 == 1 {
        '★'
    } else if i % 8 == 2 {
        '●'
    } else if i % 8 == 3 {
        '◆'
    } else if i % 8 == 4 {
        '▲'
    } else if i % 8 == 5 {
        '♦'
    } else if i % 8 == 6 {
        '♠'
    } else {
        '♥'
    }
}

/// The character that renders one cell of a placement rendering: the symbol
/// of the last placement covering it, or an empty-cell mark.
pub open spec fn piece_cell_char(pls: Seq<PlacedPiece>, x: int, y: int) -> char {
    if cover_index(pls, x, y) >= 0 {
        symbol_for(cover_index(pls, x, y))
    } else {
        '□'
    }
}

/// Row `y` of a placement rendering, up to column `x`.
pub open spec fn pieces_row_prefix(pls: Seq<PlacedPiece>, y: int, x: int) -> Seq<char>
    decreases x,
{
    if x <= 0 {
        Seq::empty()
    } else {
        pieces_row_prefix(pls, y, x - 1).push(piece_cell_char(pls, x - 1, y))
    }
}

/// The first `y` rows of a placement rendering, each closed by a newline.
pub open spec fn pieces_render_prefix(pls: Seq<PlacedPiece>, w: int, y: int) -> Seq<char>
    decreases y,
{
    if y <= 0 {
        Seq::empty()
    } else {
        pieces_render_prefix(pls, w, y - 1) + pieces_row_prefix(pls, y - 1, w).push('\n')
    }
}

/// The full placement rendering over a `w` x `h` grid.
pub open spec fn pieces_render_spec(pls: Seq<PlacedPiece>, w: int, h: int) -> Seq<char> {
    pieces_render_prefix(pls, w, h)
}

/// Whether the placement covers the cell at `(x, y)`.
pub fn placement_covers(pl: &PlacedPiece, x: usize, y: usize) -> (r: bool)
    requires
        pl.variant.wf(),
    ensures
        r == covers(*pl, x as int, y as int),
{
    let px = pl.position.0;
    let py = pl.position.1;
    if x < px || y < py {
        proof {
            assert(!pl.variant.cell(x - px, y - py));
        }
        return false;
    }
    let dx = x - px;
    let dy = y - py;
    if dx >= pl.variant.width || dy >= pl.variant.height {
        proof {
            if pl.variant.cell(dx as int, dy as int) {
                assert(dx < pl.variant.width && dy < pl.variant.height);
            }
        }
        return false;
    }
    pl.variant.board.get(dx, dy)
}

/// The symbol for the placement at index `i`.
fn symbol_str(i: usize) -> (r: &'static str)
    ensures
        r@.len() == 1,
        r@[0] == symbol_for(i as int),
{
    proof {
        reveal_strlit("■");
        reveal_strlit("★");
        reveal_strlit("●");
        reveal_strlit("◆");
        reveal_strlit("▲");
        reveal_strlit("♦");
        reveal_strlit("♠");
        reveal_strlit("♥");
    }
    let m = i % 8;
    if m == 0 {
        "■"
    } else if m == 1 {
        "★"
    } else if m == 2 {
        "●"
    } else if m == 3 {
        "◆"
    } else if m == 4 {
        "▲"
    } else if m == 5 {
        "♦"
    } else if m == 6 {
        "♠"
    } else {
        "♥"
    }
}

/// Placing a piece somewhere it can be placed and then removing it with the
/// same arguments restores the occupancy to its exact prior mask: `b1` is the
/// result of `place_piece` on `b0`, `b2` the result of `remove_piece` on
/// `b1`, and `b2` equals `b0`.
pub proof fn lemma_place_remove_round_trip(
    b0: Board,
    b1: Board,
    b2: Board,
    piece: Piece,
    pos: Position,
)
    requires
        b0.wf(),
        piece.wf(),
        fits(piece, pos, b0.spec_width() as int, b0.spec_height() as int),
        forall|x: int, y: int|
            0 <= x < 8 && 0 <= y < 8 ==> !(covers_at(piece, pos, x, y) && #[trigger] b0.cell(x, y)),
        b1.spec_width() == b0.spec_width(),
        b1.spec_height() == b0.spec_height(),
        forall|x: int, y: int|
            0 <= x < 8 && 0 <= y < 8 ==> #[trigger] b1.cell(x, y) == (b0.cell(x, y) || covers_at(
                piece,
                pos,
                x,
                y,
            )),
        b2.spec_width() == b1.spec_width(),
        b2.spec_height() == b1.spec_height(),
        forall|x: int, y: int|
            0 <= x < 8 && 0 <= y < 8 ==> #[trigger] b2.cell(x, y) == (b1.cell(x, y) && !covers_at(
                piece,
                pos,
                x,
                y,
            )),
    ensures
        b2 == b0,
{
    assert forall|x: int, y: int|
        0 <= x < 8 && 0 <= y < 8 implies #[trigger] b2.cell(x, y) == b0.cell(x, y) by {
        assert(b1.cell(x, y) == (b0.cell(x, y) || covers_at(piece, pos, x, y)));
        assert(!(covers_at(piece, pos, x, y) && b0.cell(x, y)));
    }
    lemma_board_ext(b2, b0);
}

/// A play surface: a `width` x `height` grid and its occupancy mask.
#[derive(Debug, Clone, Copy)]
#[verifier::ext_equal]
pub struct Board {
    width: usize,
    height: usize,
    state: BitBoard,
}

impl Board {
    /// The number of columns.
    pub closed spec fn spec_width(self) -> usize {
        self.width
    }

    /// The number of rows.
    pub closed spec fn spec_height(self) -> usize {
        self.height
    }

    /// The occupancy mask.
    pub closed spec fn spec_state(self) -> BitBoard {
        self.state
    }

    /// Whether the cell at column `x`, row `y` is occupied.
    pub open spec fn cell(self, x: int, y: int) -> bool {
        self.spec_state().cell(x, y)
    }

    /// The dimensions fit the 8x8 capacity and every occupied cell lies
    /// within the `width` x `height` rectangle.
    pub open spec fn wf(self) -> bool {
        &&& self.spec_width() <= 8
        &&& self.spec_height() <= 8
        &&& forall|x: int, y: int|
            #[trigger] self.cell(x, y) ==> 0 <= x < self.spec_width() && 0 <= y
                < self.spec_height()
    }

    /// The occupied cells, as a set of coordinates.
    pub open spec fn cells(self) -> Set<(int, int)> {
        Set::new(|c: (int, int)| self.cell(c.0, c.1))
    }

    /// The number of occupied cells.
    pub open spec fn area_spec(self) -> nat {
        self.cells().len()
    }

    /// The occupied cells that come before column `x` of row `y` in
    /// row-major order.
    pub open spec fn cells_before(self, y: int, x: int) -> Set<(int, int)> {
        Set::new(
            |c: (int, int)| self.cell(c.0, c.1) && (c.1 < y || (c.1 == y && c.0 < x)),
        )
    }

    /// An empty board of the given dimensions, which must fit the 8x8
    /// capacity.
    pub fn new(width: usize, height: usize) -> (r: Self)
        requires
            width <= 8,
            height <= 8,
        ensures
            r.spec_width() == width,
            r.spec_height() == height,
            r.wf(),
            forall|x: int, y: int| !#[trigger] r.cell(x, y),
    {
        Self { width, height, state: BitBoard::new() }
    }

    /// Build an empty board, validating the dimensions: more than eight
    /// columns or rows fail with `OutOfCapacity`.
    pub fn try_new(width: usize, height: usize) -> (r: Result<Board, SolverError>)
        ensures
            r is Ok <==> (width <= 8 && height <= 8),
            r matches Ok(b) ==> {
                &&& b.spec_width() == width
                &&& b.spec_height() == height
                &&& b.wf()
                &&& forall|x: int, y: int| !#[trigger] b.cell(x, y)
            },
            r is Err ==> r == Err::<Board, SolverError>(SolverError::OutOfCapacity),
    {
        if width > 8 || height > 8 {
            return Err(SolverError::OutOfCapacity);
        }
        Ok(Board::new(width, height))
    }

    /// The number of columns.
    pub fn get_width(&self) -> (r: usize)
        ensures
            r == self.spec_width(),
    {
        self.width
    }

    /// The number of rows.
    pub fn get_height(&self) -> (r: usize)
        ensures
            r == self.spec_height(),
    {
        self.height
    }

    /// The occupancy mask.
    pub fn get_state(&self) -> (r: BitBoard)
        ensures
            r == self.spec_state(),
    {
        self.state
    }

    /// Whether `piece` anchored at `pos` stays within the board and covers no
    /// already occupied cell.
    pub fn can_place_piece(&self, piece: &Piece, pos: Position) -> (r: bool)
        requires
            self.wf(),
            piece.wf(),
        ensures
            r == (fits(*piece, pos, self.spec_width() as int, self.spec_height() as int)
                && forall|x: int, y: int|
                0 <= x < 8 && 0 <= y < 8 ==> !(covers_at(*piece, pos, x, y)
                    && #[trigger] self.cell(x, y))),
    {
        let x = pos.0;
        let y = pos.1;

        if x > self.width || piece.width > self.width - x || y > self.height || piece.height
            > self.height - y {
            return false;
        }
        for dy in 0..piece.height
            invariant
                self.wf(),
                piece.wf(),
                x == pos.0,
                y == pos.1,
                x + piece.width <= self.width,
                y + piece.height <= self.height,
                forall|dx2: int, dy2: int|
                    0 <= dx2 < piece.width && 0 <= dy2 < dy ==> !(#[trigger] piece.cell(dx2, dy2)
                        && self.cell(x + dx2, y + dy2)),
        {
            for dx in 0..piece.width
                invariant
                    self.wf(),
                    piece.wf(),
                    x == pos.0,
                    y == pos.1,
                    dy < piece.height,
                    x + piece.width <= self.width,
                    y + piece.height <= self.height,
                    forall|dx2: int, dy2: int|
                        0 <= dx2 < piece.width && 0 <= dy2 < dy ==> !(#[trigger] piece.cell(
                            dx2,
                            dy2,
                        ) && self.cell(x + dx2, y + dy2)),
                    forall|dx2: int|
                        0 <= dx2 < dx ==> !(#[trigger] piece.cell(dx2, dy as int) && self.cell(
                            x + dx2,
                            y + dy,
                        )),
            {
                if piece.board.get(dx, dy) && self.state.get(x + dx, y + dy) {
                    proof {
                        assert(covers_at(*piece, pos, x + dx, y + dy));
                        assert(self.cell(x + dx, y + dy));
                    }
                    return false;
                }
            }
        }
        proof {
            assert forall|cx: int, cy: int| 0 <= cx < 8 && 0 <= cy < 8 implies !(covers_at(
                *piece,
                pos,
                cx,
                cy,
            ) && #[trigger] self.cell(cx, cy)) by {
                if covers_at(*piece, pos, cx, cy) {
                    assert(piece.cell(cx - pos.0, cy - pos.1));
                }
            }
        }
        true
    }

    /// Union the translated mask of `piece` into the occupancy; every cell
    /// outside the placement is unchanged.
    pub fn place_piece(&mut self, piece: &Piece, pos: Position)
        requires
            old(self).wf(),
            piece.wf(),
            fits(*piece, pos, old(self).spec_width() as int, old(self).spec_height() as int),
        ensures
            final(self).spec_width() == old(self).spec_width(),
            final(self).spec_height() == old(self).spec_height(),
            final(self).wf(),
            forall|x: int, y: int|
                0 <= x < 8 && 0 <= y < 8 ==> #[trigger] final(self).cell(x, y) == (old(self).cell(
                    x,
                    y,
                ) || covers_at(*piece, pos, x, y)),
    {
        let x = pos.0;
        let y = pos.1;
        let ghost w0 = self.width;
        let ghost h0 = self.height;
        for dy in 0..piece.height
            invariant
                piece.wf(),
                self.width == w0,
                self.height == h0,
                x == pos.0,
                y == pos.1,
                x + piece.width <= self.width <= 8,
                y + piece.height <= self.height <= 8,
                forall|cx: int, cy: int|
                    0 <= cx < 8 && 0 <= cy < 8 ==> #[trigger] self.cell(cx, cy) == (old(self).cell(
                        cx,
                        cy,
                    ) || (covers_at(*piece, pos, cx, cy) && cy - y < dy)),
        {
            for dx in 0..piece.width
                invariant
                    piece.wf(),
                    self.width == w0,
                    self.height == h0,
                    x == pos.0,
                    y == pos.1,
                    dy < piece.height,
                    x + piece.width <= self.width <= 8,
                    y + piece.height <= self.height <= 8,
                    forall|cx: int, cy: int|
                        0 <= cx < 8 && 0 <= cy < 8 ==> #[trigger] self.cell(cx, cy) == (old(
                            self,
                        ).cell(cx, cy) || (covers_at(*piece, pos, cx, cy) && (cy - y < dy || (cy - y
                            == dy && cx - x < dx)))),
            {
                let ghost prev = *self;
                let covered = piece.board.get(dx, dy);
                if covered {
                    self.state.set(x + dx, y + dy, true);
                }
                proof {
                    assert forall|cx: int, cy: int| 0 <= cx < 8 && 0 <= cy < 8 implies
                        #[trigger] self.cell(cx, cy) == (old(self).cell(cx, cy) || (covers_at(
                        *piece,
                        pos,
                        cx,
                        cy,
                    ) && (cy - y < dy || (cy - y == dy && cx - x < dx + 1)))) by {
                        assert(prev.cell(cx, cy) == (old(self).cell(cx, cy) || (covers_at(
                            *piece,
                            pos,
                            cx,
                            cy,
                        ) && (cy - y < dy || (cy - y == dy && cx - x < dx)))));
                        if covered {
                            assert(covers_at(*piece, pos, x + dx, y + dy));
                            assert(self.cell(cx, cy) == (if cx == x + dx && cy == y + dy {
                                true
                            } else {
                                prev.cell(cx, cy)
                            }));
                        } else {
                            assert(self.cell(cx, cy) == prev.cell(cx, cy));
                            assert(!piece.cell(dx as int, dy as int));
                        }
                    }
                }
            }
        }
        proof {
            assert forall|cx: int, cy: int| 0 <= cx < 8 && 0 <= cy < 8 implies #[trigger] self.cell(
                cx,
                cy,
            ) == (old(self).cell(cx, cy) || covers_at(*piece, pos, cx, cy)) by {
                if covers_at(*piece, pos, cx, cy) {
                    assert(piece.cell(cx - pos.0, cy - pos.1));
                }
            }
            assert(old(self).wf());
        }
    }

    /// Clear the translated mask of `piece` from the occupancy: the exact
    /// inverse of a prior `place_piece` with the same arguments.  Every cell
    /// of the translated mask must currently be occupied.
    pub fn remove_piece(&mut self, piece: &Piece, pos: Position)
        requires
            old(self).wf(),
            piece.wf(),
            fits(*piece, pos, old(self).spec_width() as int, old(self).spec_height() as int),
            forall|x: int, y: int|
                0 <= x < 8 && 0 <= y < 8 && covers_at(*piece, pos, x, y) ==> #[trigger] old(
                    self,
                ).cell(x, y),
        ensures
            final(self).spec_width() == old(self).spec_width(),
            final(self).spec_height() == old(self).spec_height(),
            final(self).wf(),
            forall|x: int, y: int|
                0 <= x < 8 && 0 <= y < 8 ==> #[trigger] final(self).cell(x, y) == (old(self).cell(
                    x,
                    y,
                ) && !covers_at(*piece, pos, x, y)),
    {
        let x = pos.0;
        let y = pos.1;
        let ghost w0 = self.width;
        let ghost h0 = self.height;
        for dy in 0..piece.height
            invariant
                piece.wf(),
                self.width == w0,
                self.height == h0,
                x == pos.0,
                y == pos.1,
                x + piece.width <= self.width <= 8,
                y + piece.height <= self.height <= 8,
                forall|cx: int, cy: int|
                    0 <= cx < 8 && 0 <= cy < 8 ==> #[trigger] self.cell(cx, cy) == (old(self).cell(
                        cx,
                        cy,
                    ) && !(covers_at(*piece, pos, cx, cy) && cy - y < dy)),
        {
            for dx in 0..piece.width
                invariant
                    piece.wf(),
                    self.width == w0,
                    self.height == h0,
                    x == pos.0,
                    y == pos.1,
                    dy < piece.height,
                    x + piece.width <= self.width <= 8,
                    y + piece.height <= self.height <= 8,
                    forall|cx: int, cy: int|
                        0 <= cx < 8 && 0 <= cy < 8 ==> #[trigger] self.cell(cx, cy) == (old(
                            self,
                        ).cell(cx, cy) && !(covers_at(*piece, pos, cx, cy) && (cy - y < dy || (cy - y
                            == dy && cx - x < dx)))),
            {
                let ghost prev = *self;
                let covered = piece.board.get(dx, dy);
                if covered {
                    self.state.set(x + dx, y + dy, false);
                }
                proof {
                    assert forall|cx: int, cy: int| 0 <= cx < 8 && 0 <= cy < 8 implies
                        #[trigger] self.cell(cx, cy) == (old(self).cell(cx, cy) && !(covers_at(
                        *piece,
                        pos,
                        cx,
                        cy,
                    ) && (cy - y < dy || (cy - y == dy && cx - x < dx + 1)))) by {
                        assert(prev.cell(cx, cy) == (old(self).cell(cx, cy) && !(covers_at(
                            *piece,
                            pos,
                            cx,
                            cy,
                        ) && (cy - y < dy || (cy - y == dy && cx - x < dx)))));
                        if covered {
                            assert(covers_at(*piece, pos, x + dx, y + dy));
                            assert(self.cell(cx, cy) == (if cx == x + dx && cy == y + dy {
                                false
                            } else {
                                prev.cell(cx, cy)
                            }));
                        } else {
                            assert(self.cell(cx, cy) == prev.cell(cx, cy));
                            assert(!piece.cell(dx as int, dy as int));
                        }
                    }
                }
            }
        }
        proof {
            assert forall|cx: int, cy: int| 0 <= cx < 8 && 0 <= cy < 8 implies #[trigger] self.cell(
                cx,
                cy,
            ) == (old(self).cell(cx, cy) && !covers_at(*piece, pos, cx, cy)) by {
                if covers_at(*piece, pos, cx, cy) {
                    assert(piece.cell(cx - pos.0, cy - pos.1));
                }
            }
            assert(old(self).wf());
        }
    }

    /// The number of occupied cells.
    pub fn area(&self) -> (r: usize)
        requires
            self.wf(),
        ensures
            r == self.area_spec(),
    {
        let mut count: usize = 0;
        proof {
            assert(self.cells_before(0, 0) =~= Set::<(int, int)>::empty());
        }
        for y in 0..self.height
            invariant
                self.wf(),
                count == self.cells_before(y as int, 0).len(),
                count <= 64,
        {
            for x in 0..self.width
                invariant
                    self.wf(),
                    y < self.height,
                    count == self.cells_before(y as int, x as int).len(),
                    count <= 64,
            {
                proof {
                    lemma_cap_cells_finite();
                    assert(self.cells_before(y as int, x as int).subset_of(cap_cells()));
                    lemma_len_subset(self.cells_before(y as int, x as int), cap_cells());
                }
                if self.state.get(x, y) {
                    count += 1;
                    proof {
                        assert(self.cells_before(y as int, x as int + 1) =~= self.cells_before(
                            y as int,
                            x as int,
                        ).insert((x as int, y as int)));
                    }
                } else {
                    proof {
                        assert(self.cells_before(y as int, x as int + 1) =~= self.cells_before(
                            y as int,
                            x as int,
                        ));
                    }
                }
                proof {
                    lemma_cap_cells_finite();
                    assert(self.cells_before(y as int, x as int + 1).subset_of(cap_cells()));
                    lemma_len_subset(self.cells_before(y as int, x as int + 1), cap_cells());
                }
            }
            proof {
                assert(self.cells_before(y as int + 1, 0) =~= self.cells_before(
                    y as int,
                    self.width as int,
                ));
            }
        }
        proof {
            assert(self.cells_before(self.height as int, 0) =~= self.cells());
        }
        count
    }

    /// Render the occupancy: one row of characters per grid row, a filled
    /// mark for an occupied cell, an empty mark otherwise, a newline after
    /// each row.
    pub fn display(&self) -> (r: String)
        requires
            self.wf(),
        ensures
            r@ == render_spec(*self),
    {
        proof {
            reveal_strlit("■");
            reveal_strlit("□");
            reveal_strlit("\n");
        }
        let mut result = String::new();
        for y in 0..self.height
            invariant
                self.wf(),
                result@ == render_prefix(*self, y as int),
        {
            proof {
                assert(result@ + render_row_prefix(*self, y as int, 0) =~= result@);
            }
            for x in 0..self.width
                invariant
                    self.wf(),
                    y < self.height,
                    result@ == render_prefix(*self, y as int) + render_row_prefix(
                        *self,
                        y as int,
                        x as int,
                    ),
            {
                if self.state.get(x, y) {
                    result.append("■");
                } else {
                    result.append("□");
                }
                proof {
                    reveal_strlit("■");
                    reveal_strlit("□");
                    assert(result@ =~= render_prefix(*self, y as int) + render_row_prefix(
                        *self,
                        y as int,
                        x as int + 1,
                    ));
                }
            }
            result.append("\n");
            proof {
                reveal_strlit("\n");
                assert(result@ =~= render_prefix(*self, y as int + 1));
            }
        }
        result
    }

    /// Render a set of placements over an empty grid of this board's
    /// dimensions: each cell shows the symbol of the last placement covering
    /// it, or an empty mark; the board's own occupancy plays no part.
    pub fn display_with_pieces(&self, placed_pieces: &[PlacedPiece]) -> (r: String)
        requires
            self.wf(),
            forall|k: int| 0 <= k < placed_pieces@.len() ==> (#[trigger] placed_pieces@[k]).variant.wf(),
        ensures
            r@ == pieces_render_spec(
                placed_pieces@,
                self.spec_width() as int,
                self.spec_height() as int,
            ),
    {
        proof {
            reveal_strlit("□");
            reveal_strlit("\n");
        }
        let mut result = String::new();
        for y in 0..self.height
            invariant
                self.wf(),
                forall|k: int|
                    0 <= k < placed_pieces@.len() ==> (#[trigger] placed_pieces@[k]).variant.wf(),
                result@ == pieces_render_prefix(placed_pieces@, self.spec_width() as int, y as int),
        {
            proof {
                assert(result@ + pieces_row_prefix(placed_pieces@, y as int, 0) =~= result@);
            }
            for x in 0..self.width
                invariant
                    self.wf(),
                    y < self.height,
                    forall|k: int|
                        0 <= k < placed_pieces@.len() ==> (#[trigger] placed_pieces@[k]).variant.wf(),
                    result@ == pieces_render_prefix(
                        placed_pieces@,
                        self.spec_width() as int,
                        y as int,
                    ) + pieces_row_prefix(placed_pieces@, y as int, x as int),
            {
                let mut found: bool = false;
                let mut fidx: usize = 0;
                let np = placed_pieces.len();
                let mut p: usize = 0;
                while p < np
                    invariant
                        np == placed_pieces@.len(),
                        p <= np,
                        forall|k: int|
                            0 <= k < placed_pieces@.len() ==> (
                            #[trigger] placed_pieces@[k]).variant.wf(),
                        found == (cover_index(placed_pieces@.take(p as int), x as int, y as int)
                            >= 0),
                        found ==> fidx == cover_index(
                            placed_pieces@.take(p as int),
                            x as int,
                            y as int,
                        ),
                    decreases np - p,
                {
                    let ghost taken = placed_pieces@.take(p as int);
                    if placement_covers(&placed_pieces[p], x, y) {
                        found = true;
                        fidx = p;
                    }
                    proof {
                        let next = placed_pieces@.take(p as int + 1);
                        assert(next.drop_last() =~= taken);
                        assert(next.last() == placed_pieces@[p as int]);
                    }
                    p += 1;
                }
                proof {
                    assert(placed_pieces@.take(np as int) =~= placed_pieces@);
                }
                if found {
                    let sym = symbol_str(fidx);
                    result.append(sym);
                } else {
                    result.append("□");
                }
                proof {
                    reveal_strlit("□");
                    assert(result@ =~= pieces_render_prefix(
                        placed_pieces@,
                        self.spec_width() as int,
                        y as int,
                    ) + pieces_row_prefix(placed_pieces@, y as int, x as int + 1));
                }
            }
            result.append("\n");
            proof {
                reveal_strlit("\n");
                assert(result@ =~= pieces_render_prefix(
                    placed_pieces@,
                    self.spec_width() as int,
                    y as int + 1,
                ));
            }
        }
        result
    }
}

} // verus!
