use vstd::prelude::*;
use vstd::set_lib::{lemma_int_range, lemma_len_subset, lemma_map_size, set_int_range};
use vstd::relations::injective_on;

use crate::utils::bit_ops::BitBoard;
use crate::utils::types::SolverError;

verus! {

/// A named polyomino pattern: the occupied cells of a `width` x `height`
/// rectangle, stored in a stride-8 bit mask.
#[derive(Debug, Clone)]
pub struct Piece {
    pub board: BitBoard,
    pub width: usize,
    pub height: usize,
    pub name: String,
}

/// Every coordinate pair of the 8x8 capacity.
pub open spec fn cap_cells() -> Set<(int, int)> {
    Set::new(|c: (int, int)| 0 <= c.0 < 8 && 0 <= c.1 < 8)
}

/// The capacity holds finitely many cells.
pub proof fn lemma_cap_cells_finite()
    ensures
        cap_cells().finite(),
        cap_cells().len() == 64,
{
    let f = |i: int| (i % 8, i / 8);
    lemma_int_range(0, 64);
    assert(set_int_range(0, 64).map(f) =~= cap_cells()) by {
        assert forall|c: (int, int)| cap_cells().contains(c) implies set_int_range(0, 64).map(
            f,
        ).contains(c) by {
            let i = c.1 * 8 + c.0;
            assert(set_int_range(0, 64).contains(i) && f(i) == c);
        }
    }
    assert(injective_on(f, set_int_range(0, 64)));
    lemma_map_size(set_int_range(0, 64), cap_cells(), f);
}

impl Piece {
    /// Whether the cell at column `x`, row `y` of the pattern is occupied.
    pub open spec fn cell(self, x: int, y: int) -> bool {
        self.board.cell(x, y)
    }

    /// The dimensions fit the 8x8 capacity and every occupied cell lies
    /// within the `width` x `height` rectangle.
    pub open spec fn wf(self) -> bool {
        &&& 1 <= self.width <= 8
        &&& 1 <= self.height <= 8
        &&& forall|x: int, y: int|
            #[trigger] self.cell(x, y) ==> 0 <= x < self.width && 0 <= y < self.height
    }

    /// The occupied cells, as a set of coordinates.
    pub open spec fn cells(self) -> Set<(int, int)> {
        Set::new(|c: (int, int)| self.cell(c.0, c.1))
    }

    /// The number of occupied cells.
    pub open spec fn area_spec(self) -> nat {
        self.cells().len()
    }

    /// Same mask, same dimensions, same name.
    pub open spec fn eqv(self, other: Piece) -> bool {
        &&& self.board == other.board
        &&& self.width == other.width
        &&& self.height == other.height
        &&& self.name@ == other.name@
    }
}

/// The occupied cells of any piece form a finite set.
pub proof fn lemma_cells_finite(p: Piece)
    ensures
        p.cells().finite(),
        p.cells().len() <= 64,
{
    lemma_cap_cells_finite();
    assert(p.cells().subset_of(cap_cells()));
    lemma_len_subset(p.cells(), cap_cells());
}

/// `r` is `p` turned a quarter turn clockwise: dimensions swap and the cell
/// at `(x, y)` of `r` comes from `(y, p.height - 1 - x)` of `p`.
pub open spec fn is_rotation_of(r: Piece, p: Piece) -> bool {
    &&& r.width == p.height
    &&& r.height == p.width
    &&& forall|x: int, y: int|
        0 <= x < 8 && 0 <= y < 8 ==> #[trigger] r.cell(x, y) == p.cell(y, p.height - 1 - x)
}

/// `r` is `p` mirrored left-to-right: dimensions stay and the cell at
/// `(x, y)` of `r` comes from `(p.width - 1 - x, y)` of `p`.
pub open spec fn is_mirror_of(r: Piece, p: Piece) -> bool {
    &&& r.width == p.width
    &&& r.height == p.height
    &&& forall|x: int, y: int|
        0 <= x < 8 && 0 <= y < 8 ==> #[trigger] r.cell(x, y) == p.cell(p.width - 1 - x, y)
}

/// The number of columns of orientation `o` of `p`: quarter turns swap the
/// dimensions, mirroring keeps them.
pub open spec fn oriented_width(p: Piece, o: int) -> int {
    if o == 0 || o == 2 || o == 4 || o == 6 {
        p.width as int
    } else {
        p.height as int
    }
}

/// The number of rows of orientation `o` of `p`.
pub open spec fn oriented_height(p: Piece, o: int) -> int {
    if o == 0 || o == 2 || o == 4 || o == 6 {
        p.height as int
    } else {
        p.width as int
    }
}

/// The cell at `(x, y)` of orientation `o` of `p`: `o` counts the eight
/// orientations in the fixed generation order, the piece itself and its
/// three further quarter turns, then the mirror image and its three further
/// quarter turns.
pub open spec fn oriented_cell(p: Piece, o: int, x: int, y: int) -> bool {
    if o == 0 {
        p.cell(x, y)
    } else if o == 1 {
        p.cell(y, p.height - 1 - x)
    } else if o == 2 {
        p.cell(p.width - 1 - x, p.height - 1 - y)
    } else if o == 3 {
        p.cell(p.width - 1 - y, x)
    } else if o == 4 {
        p.cell(p.width - 1 - x, y)
    } else if o == 5 {
        p.cell(p.width - 1 - y, p.height - 1 - x)
    } else if o == 6 {
        p.cell(x, p.height - 1 - y)
    } else {
        p.cell(y, x)
    }
}

/// `v` has exactly the dimensions and the mask of orientation `o` of `p`.
pub open spec fn orientation_matches(v: Piece, p: Piece, o: int) -> bool {
    &&& v.width == oriented_width(p, o)
    &&& v.height == oriented_height(p, o)
    &&& forall|x: int, y: int|
        0 <= x < 8 && 0 <= y < 8 ==> #[trigger] v.cell(x, y) == oriented_cell(p, o, x, y)
}

/// `v` is one of the eight orientations of `p`.
pub open spec fn is_orientation_of(v: Piece, p: Piece) -> bool {
    exists|o: int| 0 <= o < 8 && #[trigger] orientation_matches(v, p, o)
}

/// A quarter turn carries orientation `o` of a well-formed piece to
/// orientation `o + 1`, within either half of the orientation order.
pub proof fn lemma_orientation_rotate(v: Piece, r: Piece, p: Piece, o: int)
    requires
        p.wf(),
        0 <= o < 8,
        o != 3,
        o != 7,
        orientation_matches(r, p, o),
        is_rotation_of(v, r),
    ensures
        orientation_matches(v, p, o + 1),
{
    assert forall|x: int, y: int| 0 <= x < 8 && 0 <= y < 8 implies #[trigger] v.cell(x, y)
        == oriented_cell(p, o + 1, x, y) by {
        assert(v.cell(x, y) == r.cell(y, r.height - 1 - x));
        let b = r.height - 1 - x;
        if 0 <= b < 8 {
            assert(r.cell(y, b) == oriented_cell(p, o, y, b));
        } else {
            assert(!v.cell(x, y));
            if oriented_cell(p, o + 1, x, y) {
                if o == 2 {
                    assert(p.cell(p.width - 1 - y, x));
                } else if o == 5 {
                    assert(p.cell(x, p.height - 1 - y));
                } else if o == 6 {
                    assert(p.cell(y, x));
                }
                assert(false);
            }
        }
    }
}

/// Orientation membership only depends on the masks and the dimensions, so
/// it carries over to equal-looking pieces.
pub proof fn lemma_orientation_congruent(v2: Piece, p2: Piece, v1: Piece, p1: Piece)
    requires
        v2.board == v1.board,
        v2.width == v1.width,
        v2.height == v1.height,
        p2.board == p1.board,
        p2.width == p1.width,
        p2.height == p1.height,
        is_orientation_of(v1, p1),
    ensures
        is_orientation_of(v2, p2),
{
    let o = choose|o: int| 0 <= o < 8 && #[trigger] orientation_matches(v1, p1, o);
    assert forall|x: int, y: int| 0 <= x < 8 && 0 <= y < 8 implies #[trigger] v2.cell(x, y)
        == oriented_cell(p2, o, x, y) by {
        assert(v1.cell(x, y) == oriented_cell(p1, o, x, y));
        assert(oriented_cell(p1, o, x, y) == oriented_cell(p2, o, x, y));
    }
    assert(orientation_matches(v2, p2, o));
}

/// Every orientation of a well-formed piece has the same area: each of the
/// eight orientation maps is a bijection on cells.
pub proof fn lemma_orientation_preserves_area(v: Piece, p: Piece)
    requires
        p.wf(),
        is_orientation_of(v, p),
    ensures
        v.area_spec() == p.area_spec(),
{
    let o = choose|o: int| 0 <= o < 8 && #[trigger] orientation_matches(v, p, o);
    let w = p.width as int;
    let h = p.height as int;
    let f = |c: (int, int)|
        if o == 0 {
            c
        } else if o == 1 {
            (h - 1 - c.1, c.0)
        } else if o == 2 {
            (w - 1 - c.0, h - 1 - c.1)
        } else if o == 3 {
            (c.1, w - 1 - c.0)
        } else if o == 4 {
            (w - 1 - c.0, c.1)
        } else if o == 5 {
            (h - 1 - c.1, w - 1 - c.0)
        } else if o == 6 {
            (c.0, h - 1 - c.1)
        } else {
            (c.1, c.0)
        };
    lemma_cells_finite(p);
    assert(p.cells().map(f) =~= v.cells()) by {
        assert forall|c: (int, int)| p.cells().contains(c) implies v.cells().contains(f(c)) by {
            assert(p.cell(c.0, c.1));
            let d = f(c);
            assert(0 <= d.0 < 8 && 0 <= d.1 < 8);
            assert(v.cell(d.0, d.1) == oriented_cell(p, o, d.0, d.1));
            assert(oriented_cell(p, o, d.0, d.1) == p.cell(c.0, c.1));
        }
        assert forall|c: (int, int)| v.cells().contains(c) implies p.cells().map(f).contains(
            c,
        ) by {
            assert(v.cell(c.0, c.1));
            assert(v.cell(c.0, c.1) == oriented_cell(p, o, c.0, c.1));
            let src = if o == 0 {
                (c.0, c.1)
            } else if o == 1 {
                (c.1, h - 1 - c.0)
            } else if o == 2 {
                (w - 1 - c.0, h - 1 - c.1)
            } else if o == 3 {
                (w - 1 - c.1, c.0)
            } else if o == 4 {
                (w - 1 - c.0, c.1)
            } else if o == 5 {
                (w - 1 - c.1, h - 1 - c.0)
            } else if o == 6 {
                (c.0, h - 1 - c.1)
            } else {
                (c.1, c.0)
            };
            assert(p.cells().contains(src));
            assert(f(src) == c);
        }
    }
    assert(injective_on(f, p.cells()));
    lemma_map_size(p.cells(), v.cells(), f);
}

/// A quarter turn of a well-formed piece is well formed.
pub proof fn lemma_rotation_wf(r: Piece, p: Piece)
    requires
        p.wf(),
        is_rotation_of(r, p),
    ensures
        r.wf(),
{
    assert forall|x: int, y: int| #[trigger] r.cell(x, y) implies 0 <= x < r.width && 0 <= y
        < r.height by {
        assert(r.cell(x, y) == p.cell(y, p.height - 1 - x));
    }
}

/// A mirror image of a well-formed piece is well formed.
pub proof fn lemma_mirror_wf(r: Piece, p: Piece)
    requires
        p.wf(),
        is_mirror_of(r, p),
    ensures
        r.wf(),
{
    assert forall|x: int, y: int| #[trigger] r.cell(x, y) implies 0 <= x < r.width && 0 <= y
        < r.height by {
        assert(r.cell(x, y) == p.cell(p.width - 1 - x, y));
    }
}

/// Turning a piece a quarter turn does not change how many cells it has.
pub proof fn lemma_rotation_preserves_area(r: Piece, p: Piece)
    requires
        p.wf(),
        is_rotation_of(r, p),
    ensures
        r.area_spec() == p.area_spec(),
{
    let f = |c: (int, int)| (p.height - 1 - c.1, c.0);
    lemma_cells_finite(p);
    assert(p.cells().map(f) =~= r.cells()) by {
        assert forall|c: (int, int)| p.cells().contains(c) implies r.cells().contains(f(c)) by {
            assert(p.cell(c.0, c.1));
            assert(r.cell(p.height - 1 - c.1, c.0) == p.cell(c.0, c.1));
        }
        assert forall|c: (int, int)| r.cells().contains(c) implies p.cells().map(f).contains(
            c,
        ) by {
            assert(r.cell(c.0, c.1) == p.cell(c.1, p.height - 1 - c.0));
            let src = (c.1, p.height - 1 - c.0);
            assert(p.cells().contains(src) && f(src) == c);
        }
    }
    assert(injective_on(f, p.cells()));
    lemma_map_size(p.cells(), r.cells(), f);
}

/// Mirroring a piece does not change how many cells it has.
pub proof fn lemma_mirror_preserves_area(r: Piece, p: Piece)
    requires
        p.wf(),
        is_mirror_of(r, p),
    ensures
        r.area_spec() == p.area_spec(),
{
    let f = |c: (int, int)| (p.width - 1 - c.0, c.1);
    lemma_cells_finite(p);
    assert(p.cells().map(f) =~= r.cells()) by {
        assert forall|c: (int, int)| p.cells().contains(c) implies r.cells().contains(f(c)) by {
            assert(p.cell(c.0, c.1));
            assert(r.cell(p.width - 1 - c.0, c.1) == p.cell(c.0, c.1));
        }
        assert forall|c: (int, int)| r.cells().contains(c) implies p.cells().map(f).contains(
            c,
        ) by {
            assert(r.cell(c.0, c.1) == p.cell(p.width - 1 - c.0, c.1));
            let src = (p.width - 1 - c.0, c.1);
            assert(p.cells().contains(src) && f(src) == c);
        }
    }
    assert(injective_on(f, p.cells()));
    lemma_map_size(p.cells(), r.cells(), f);
}

/// Four quarter turns in a row restore the dimensions and the mask of a
/// well-formed piece.
pub proof fn lemma_rotation_order_four(p0: Piece, p1: Piece, p2: Piece, p3: Piece, p4: Piece)
    requires
        p0.wf(),
        is_rotation_of(p1, p0),
        is_rotation_of(p2, p1),
        is_rotation_of(p3, p2),
        is_rotation_of(p4, p3),
    ensures
        p4.width == p0.width,
        p4.height == p0.height,
        forall|x: int, y: int|
            0 <= x < 8 && 0 <= y < 8 ==> #[trigger] p4.cell(x, y) == p0.cell(x, y),
{
    lemma_rotation_wf(p1, p0);
    lemma_rotation_wf(p2, p1);
    lemma_rotation_wf(p3, p2);
    lemma_rotation_wf(p4, p3);
    assert forall|x: int, y: int| 0 <= x < 8 && 0 <= y < 8 implies #[trigger] p4.cell(x, y)
        == p0.cell(x, y) by {
        assert(p4.cell(x, y) == p3.cell(y, p3.height - 1 - x));
        if 0 <= p3.height - 1 - x < 8 {
            assert(p3.cell(y, p3.height - 1 - x) == p2.cell(p3.height - 1 - x, p2.height - 1 - y));
            if 0 <= p2.height - 1 - y < 8 {
                assert(p2.cell(p3.height - 1 - x, p2.height - 1 - y) == p1.cell(
                    p2.height - 1 - y,
                    p1.height - 1 - (p3.height - 1 - x),
                ));
                assert(p1.cell(p2.height - 1 - y, x) == p0.cell(x, p0.height - 1 - (p2.height - 1 - y)));
                assert(p0.cell(x, p0.height - 1 - (p2.height - 1 - y)) == p0.cell(x, y));
            } else {
                assert(!p0.cell(x, y));
            }
        } else {
            assert(!p0.cell(x, y));
        }
    }
}

/// Mirroring twice restores the dimensions and the mask of a well-formed
/// piece.
pub proof fn lemma_mirror_order_two(p0: Piece, p1: Piece, p2: Piece)
    requires
        p0.wf(),
        is_mirror_of(p1, p0),
        is_mirror_of(p2, p1),
    ensures
        p2.width == p0.width,
        p2.height == p0.height,
        forall|x: int, y: int|
            0 <= x < 8 && 0 <= y < 8 ==> #[trigger] p2.cell(x, y) == p0.cell(x, y),
{
    lemma_mirror_wf(p1, p0);
    assert forall|x: int, y: int| 0 <= x < 8 && 0 <= y < 8 implies #[trigger] p2.cell(x, y)
        == p0.cell(x, y) by {
        assert(p2.cell(x, y) == p1.cell(p1.width - 1 - x, y));
        if 0 <= p1.width - 1 - x < 8 {
            assert(p1.cell(p1.width - 1 - x, y) == p0.cell(p0.width - 1 - (p1.width - 1 - x), y));
        } else {
            assert(!p0.cell(x, y));
        }
    }
}

impl Piece {
    /// Build a piece from rows of `'1'` (occupied) and other characters
    /// (free).  The rows must agree on their length, and the pattern must fit
    /// the 8x8 capacity.
    pub fn new(shape: &[&str], name: &str) -> (r: Self)
        requires
            1 <= shape@.len() <= 8,
            1 <= shape@[0]@.len() <= 8,
            forall|y: int| 0 <= y < shape@.len() ==> (#[trigger] shape@[y]@).len() == shape@[0]@.len(),
        ensures
            r.width == shape@[0]@.len(),
            r.height == shape@.len(),
            r.name@ == name@,
            r.wf(),
            forall|x: int, y: int|
                0 <= x < 8 && 0 <= y < 8 ==> #[trigger] r.cell(x, y) == (y < shape@.len() && x
                    < shape@[0]@.len() && shape@[y]@[x] == '1'),
    {
        let height = shape.len();
        let width = shape[0].unicode_len();
        let mut board = BitBoard::new();

        for y in 0..height
            invariant
                height == shape@.len(),
                1 <= height <= 8,
                width == shape@[0]@.len(),
                1 <= width <= 8,
                forall|y2: int|
                    0 <= y2 < height ==> (#[trigger] shape@[y2]@).len() == width,
                forall|x2: int, y2: int|
                    0 <= x2 < 8 && 0 <= y2 < 8 ==> #[trigger] board.cell(x2, y2) == (y2 < y && x2
                        < width && shape@[y2]@[x2] == '1'),
        {
            let row = shape[y];
            for x in 0..width
                invariant
                    height == shape@.len(),
                    y < height <= 8,
                    width == shape@[0]@.len(),
                    1 <= width <= 8,
                    row@ == shape@[y as int]@,
                    forall|y2: int|
                        0 <= y2 < height ==> (#[trigger] shape@[y2]@).len() == width,
                    forall|x2: int, y2: int|
                        0 <= x2 < 8 && 0 <= y2 < 8 ==> #[trigger] board.cell(x2, y2) == ((y2 < y
                            || (y2 == y && x2 < x)) && x2 < width && shape@[y2]@[x2] == '1'),
            {
                let ch = row.get_char(x);
                if ch == '1' {
                    board.set(x, y, true);
                }
            }
        }

        let r = Self { board, width, height, name: String::from_str(name) };
        proof {
            assert forall|x: int, y: int| #[trigger] r.cell(x, y) implies 0 <= x < r.width && 0 <= y
                < r.height by {
            }
        }
        r
    }

    /// Build a piece from rows of characters, validating the pattern first:
    /// an empty pattern, rows of unequal length or a pattern without a single
    /// `'1'` fail with `MalformedShape`; more than eight rows, or rows longer
    /// than eight, fail with `OutOfCapacity`.
    pub fn try_new(shape: &[&str], name: &str) -> (r: Result<Piece, SolverError>)
        ensures
            r is Ok <==> (1 <= shape@.len() <= 8 && 1 <= shape@[0]@.len() <= 8 && (forall|y: int|
                0 <= y < shape@.len() ==> (#[trigger] shape@[y]@).len() == shape@[0]@.len())
                && (exists|y: int, x: int|
                0 <= y < shape@.len() && 0 <= x < shape@[y]@.len() && #[trigger] shape@[y]@[x]
                    == '1')),
            r matches Ok(p) ==> {
                &&& p.wf()
                &&& p.width == shape@[0]@.len()
                &&& p.height == shape@.len()
                &&& p.name@ == name@
                &&& forall|x: int, y: int|
                    0 <= x < 8 && 0 <= y < 8 ==> #[trigger] p.cell(x, y) == (y < shape@.len() && x
                        < shape@[0]@.len() && shape@[y]@[x] == '1')
            },
            r == Err::<Piece, SolverError>(SolverError::OutOfCapacity) <==> (shape@.len() > 8 || (1
                <= shape@.len() <= 8 && shape@[0]@.len() > 8)),
            r is Err ==> (r == Err::<Piece, SolverError>(SolverError::OutOfCapacity) || r
                == Err::<Piece, SolverError>(SolverError::MalformedShape)),
    {
        let height = shape.len();
        if height == 0 {
            return Err(SolverError::MalformedShape);
        }
        if height > 8 {
            return Err(SolverError::OutOfCapacity);
        }
        let width = shape[0].unicode_len();
        if width == 0 {
            return Err(SolverError::MalformedShape);
        }
        if width > 8 {
            return Err(SolverError::OutOfCapacity);
        }
        for y in 0..height
            invariant
                height == shape@.len(),
                1 <= height <= 8,
                width == shape@[0]@.len(),
                1 <= width <= 8,
                forall|y2: int| 0 <= y2 < y ==> (#[trigger] shape@[y2]@).len() == width,
        {
            if shape[y].unicode_len() != width {
                return Err(SolverError::MalformedShape);
            }
        }
        let mut any: bool = false;
        for y in 0..height
            invariant
                height == shape@.len(),
                1 <= height <= 8,
                width == shape@[0]@.len(),
                1 <= width <= 8,
                forall|y2: int| 0 <= y2 < height ==> (#[trigger] shape@[y2]@).len() == width,
                any == exists|sy: int, sx: int|
                    0 <= sy < y && 0 <= sx < width && #[trigger] shape@[sy]@[sx] == '1',
        {
            let row = shape[y];
            for x in 0..width
                invariant
                    height == shape@.len(),
                    y < height,
                    width == shape@[0]@.len(),
                    1 <= width <= 8,
                    row@ == shape@[y as int]@,
                    forall|y2: int|
                        0 <= y2 < height ==> (#[trigger] shape@[y2]@).len() == width,
                    any == exists|sy: int, sx: int|
                        0 <= sy <= y && 0 <= sx < width && (sy < y || sx < x)
                            && #[trigger] shape@[sy]@[sx] == '1',
            {
                if row.get_char(x) == '1' {
                    any = true;
                    proof {
                        assert(shape@[y as int]@[x as int] == '1');
                    }
                }
            }
        }
        if !any {
            return Err(SolverError::MalformedShape);
        }
        Ok(Piece::new(shape, name))
    }

    /// The display name of the piece.
    pub fn get_name(&self) -> (r: &str)
        ensures
            r@ == self.name@,
    {
        self.name.as_str()
    }

    /// The occupancy mask of the pattern.
    pub fn get_board(&self) -> (r: &BitBoard)
        ensures
            *r == self.board,
    {
        &self.board
    }

    /// The number of columns of the pattern.
    pub fn get_width(&self) -> (r: usize)
        ensures
            r == self.width,
    {
        self.width
    }

    /// The number of rows of the pattern.
    pub fn get_height(&self) -> (r: usize)
        ensures
            r == self.height,
    {
        self.height
    }

    /// An independent copy with the same mask, dimensions and name.
    pub fn duplicate(&self) -> (r: Piece)
        ensures
            r.eqv(*self),
            self.wf() ==> r.wf(),
            r.cells() == self.cells(),
    {
        let r = Piece {
            board: self.board,
            width: self.width,
            height: self.height,
            name: String::from_str(self.name.as_str()),
        };
        proof {
            assert forall|x: int, y: int| #[trigger] r.cell(x, y) == self.cell(x, y) by {}
            assert(r.cells() =~= self.cells());
            if self.wf() {
                assert forall|x: int, y: int| #[trigger] r.cell(x, y) implies 0 <= x < r.width && 0
                    <= y < r.height by {
                    assert(self.cell(x, y));
                }
            }
        }
        r
    }

    /// The piece turned a quarter turn clockwise.
    pub fn rotate(&self) -> (r: Piece)
        requires
            self.wf(),
        ensures
            r.wf(),
            is_rotation_of(r, *self),
            r.name@ == self.name@,
    {
        let new_width = self.height;
        let new_height = self.width;
        let mut new_board = BitBoard::new();

        for y in 0..self.height
            invariant
                self.wf(),
                new_width == self.height,
                forall|a: int, b: int|
                    0 <= a < 8 && 0 <= b < 8 ==> #[trigger] new_board.cell(a, b) == (self.cell(
                        b,
                        self.height - 1 - a,
                    ) && self.height - 1 - a < y),
        {
            for x in 0..self.width
                invariant
                    self.wf(),
                    y < self.height,
                    new_width == self.height,
                    forall|a: int, b: int|
                        0 <= a < 8 && 0 <= b < 8 ==> #[trigger] new_board.cell(a, b) == (self.cell(
                            b,
                            self.height - 1 - a,
                        ) && (self.height - 1 - a < y || (self.height - 1 - a == y && b < x))),
            {
                if self.board.get(x, y) {
                    new_board.set(new_width - 1 - y, x, true);
                }
            }
        }

        let r = Piece {
            board: new_board,
            width: new_width,
            height: new_height,
            name: String::from_str(self.name.as_str()),
        };
        proof {
            assert(is_rotation_of(r, *self));
            lemma_rotation_wf(r, *self);
        }
        r
    }

    /// The piece mirrored left-to-right.
    pub fn flip(&self) -> (r: Piece)
        requires
            self.wf(),
        ensures
            r.wf(),
            is_mirror_of(r, *self),
            r.name@ == self.name@,
    {
        let mut new_board = BitBoard::new();

        for y in 0..self.height
            invariant
                self.wf(),
                forall|a: int, b: int|
                    0 <= a < 8 && 0 <= b < 8 ==> #[trigger] new_board.cell(a, b) == (self.cell(
                        self.width - 1 - a,
                        b,
                    ) && b < y),
        {
            for x in 0..self.width
                invariant
                    self.wf(),
                    y < self.height,
                    forall|a: int, b: int|
                        0 <= a < 8 && 0 <= b < 8 ==> #[trigger] new_board.cell(a, b) == (self.cell(
                            self.width - 1 - a,
                            b,
                        ) && (b < y || (b == y && self.width - 1 - a < x))),
            {
                if self.board.get(x, y) {
                    new_board.set(self.width - 1 - x, y, true);
                }
            }
        }

        let r = Piece {
            board: new_board,
            width: self.width,
            height: self.height,
            name: String::from_str(self.name.as_str()),
        };
        proof {
            assert(is_mirror_of(r, *self));
            lemma_mirror_wf(r, *self);
        }
        r
    }

    /// The eight orientations of the piece, in a fixed order: the piece
    /// itself, its three further quarter turns, then the mirror image and its
    /// three further quarter turns.  Orientations that happen to coincide are
    /// kept.  Every orientation has the same name and the same area as the
    /// piece.
    pub fn get_all_variants(&self) -> (r: Vec<Piece>)
        requires
            self.wf(),
        ensures
            r@.len() == 8,
            r@[0].eqv(*self),
            is_rotation_of(r@[1], r@[0]),
            is_rotation_of(r@[2], r@[1]),
            is_rotation_of(r@[3], r@[2]),
            is_mirror_of(r@[4], r@[0]),
            is_rotation_of(r@[5], r@[4]),
            is_rotation_of(r@[6], r@[5]),
            is_rotation_of(r@[7], r@[6]),
            forall|i: int| 0 <= i < 8 ==> (#[trigger] r@[i]).wf(),
            forall|i: int| 0 <= i < 8 ==> (#[trigger] r@[i]).name@ == self.name@,
            forall|i: int| 0 <= i < 8 ==> (#[trigger] r@[i]).area_spec() == self.area_spec(),
            forall|i: int| 0 <= i < 8 ==> orientation_matches(#[trigger] r@[i], *self, i),
    {
        let mut variants: Vec<Piece> = Vec::with_capacity(8);
        let v0 = self.duplicate();
        let v1 = v0.rotate();
        let v2 = v1.rotate();
        let v3 = v2.rotate();
        let m0 = v0.flip();
        let m1 = m0.rotate();
        let m2 = m1.rotate();
        let m3 = m2.rotate();
        proof {
            lemma_rotation_preserves_area(v1, v0);
            lemma_rotation_preserves_area(v2, v1);
            lemma_rotation_preserves_area(v3, v2);
            lemma_mirror_preserves_area(m0, v0);
            lemma_rotation_preserves_area(m1, m0);
            lemma_rotation_preserves_area(m2, m1);
            lemma_rotation_preserves_area(m3, m2);
            assert(orientation_matches(v0, *self, 0)) by {
                assert forall|x: int, y: int| 0 <= x < 8 && 0 <= y < 8 implies #[trigger] v0.cell(
                    x,
                    y,
                ) == oriented_cell(*self, 0, x, y) by {}
            }
            assert(orientation_matches(v1, *self, 1)) by {
                assert forall|x: int, y: int| 0 <= x < 8 && 0 <= y < 8 implies #[trigger] v1.cell(
                    x,
                    y,
                ) == oriented_cell(*self, 1, x, y) by {
                    assert(v1.cell(x, y) == v0.cell(y, v0.height - 1 - x));
                }
            }
            lemma_orientation_rotate(v2, v1, *self, 1);
            lemma_orientation_rotate(v3, v2, *self, 2);
            assert(orientation_matches(m0, *self, 4)) by {
                assert forall|x: int, y: int| 0 <= x < 8 && 0 <= y < 8 implies #[trigger] m0.cell(
                    x,
                    y,
                ) == oriented_cell(*self, 4, x, y) by {
                    assert(m0.cell(x, y) == v0.cell(v0.width - 1 - x, y));
                }
            }
            lemma_orientation_rotate(m1, m0, *self, 4);
            lemma_orientation_rotate(m2, m1, *self, 5);
            lemma_orientation_rotate(m3, m2, *self, 6);
        }
        variants.push(v0);
        variants.push(v1);
        variants.push(v2);
        variants.push(v3);
        variants.push(m0);
        variants.push(m1);
        variants.push(m2);
        variants.push(m3);
        variants
    }

    /// The number of occupied cells of the pattern.
    pub fn area(&self) -> (r: usize)
        requires
            self.wf(),
        ensures
            r == self.area_spec(),
    {
        let mut count: usize = 0;
        proof {
            assert(self.cells_before(0, 0) =~= Set::<(int, int)>::empty());
        }
        for y in 0..self.height
            invariant
                self.wf(),
                count == self.cells_before(y as int, 0).len(),
                count <= 64,
        {
            for x in 0..self.width
                invariant
                    self.wf(),
                    y < self.height,
                    count == self.cells_before(y as int, x as int).len(),
                    count <= 64,
            {
                proof {
                    lemma_cap_cells_finite();
                    assert(self.cells_before(y as int, x as int).subset_of(cap_cells()));
                    lemma_len_subset(self.cells_before(y as int, x as int), cap_cells());
                }
                if self.board.get(x, y) {
                    count += 1;
                    proof {
                        assert(self.cells_before(y as int, x as int + 1) =~= self.cells_before(
                            y as int,
                            x as int,
                        ).insert((x as int, y as int)));
                    }
                } else {
                    proof {
                        assert(self.cells_before(y as int, x as int + 1) =~= self.cells_before(
                            y as int,
                            x as int,
                        ));
                    }
                }
                proof {
                    lemma_cap_cells_finite();
                    assert(self.cells_before(y as int, x as int + 1).subset_of(cap_cells()));
                    lemma_len_subset(self.cells_before(y as int, x as int + 1), cap_cells());
                }
            }
            proof {
                assert(self.cells_before(y as int + 1, 0) =~= self.cells_before(
                    y as int,
                    self.width as int,
                ));
            }
        }
        proof {
            assert(self.cells_before(self.height as int, 0) =~= self.cells());
        }
        count
    }

    /// The occupied cells that come before column `x` of row `y` in row-major
    /// order.
    pub open spec fn cells_before(self, y: int, x: int) -> Set<(int, int)> {
        Set::new(
            |c: (int, int)| self.cell(c.0, c.1) && (c.1 < y || (c.1 == y && c.0 < x)),
        )
    }
}

/// The stock catalog of seven pieces, each on a 4 x 2 frame, in a fixed
/// order, with the exact cells of its pattern.
pub fn create_all_pieces() -> (r: Vec<Piece>)
    ensures
        r@.len() == 7,
        forall|i: int| 0 <= i < 7 ==> (#[trigger] r@[i]).wf(),
        forall|i: int| 0 <= i < 7 ==> (#[trigger] r@[i]).width == 4,
        forall|i: int| 0 <= i < 7 ==> (#[trigger] r@[i]).height == 2,
        r@[0].name@ == "ZIPPO"@,
        r@[1].name@ == "Z"@,
        r@[2].name@ == "T"@,
        r@[3].name@ == "L"@,
        r@[4].name@ == "LONG_Z"@,
        r@[5].name@ == "LONG_T"@,
        r@[6].name@ == "SHORT_BAR"@,
        forall|x: int, y: int|
            0 <= x < 8 && 0 <= y < 8 ==> #[trigger] r@[0].cell(x, y) == ((y == 0 && x < 3) || (y
                == 1 && x < 2)),
        forall|x: int, y: int|
            0 <= x < 8 && 0 <= y < 8 ==> #[trigger] r@[1].cell(x, y) == ((y == 0 && x < 2) || (y
                == 1 && 1 <= x < 3)),
        forall|x: int, y: int|
            0 <= x < 8 && 0 <= y < 8 ==> #[trigger] r@[2].cell(x, y) == ((y == 0 && x == 1) || (y
                == 1 && x < 3)),
        forall|x: int, y: int|
            0 <= x < 8 && 0 <= y < 8 ==> #[trigger] r@[3].cell(x, y) == ((y == 0 && x == 0) || (y
                == 1 && x < 3)),
        forall|x: int, y: int|
            0 <= x < 8 && 0 <= y < 8 ==> #[trigger] r@[4].cell(x, y) == ((y == 0 && x < 2) || (y
                == 1 && 1 <= x < 4)),
        forall|x: int, y: int|
            0 <= x < 8 && 0 <= y < 8 ==> #[trigger] r@[5].cell(x, y) == ((y == 0 && x == 1) || (y
                == 1 && x < 4)),
        forall|x: int, y: int|
            0 <= x < 8 && 0 <= y < 8 ==> #[trigger] r@[6].cell(x, y) == (y == 0 && x < 3),
{
    proof {
        reveal_strlit("1110");
        reveal_strlit("1100");
        reveal_strlit("0110");
        reveal_strlit("0100");
        reveal_strlit("1000");
        reveal_strlit("0111");
        reveal_strlit("1111");
        reveal_strlit("0000");
    }
    let p0 = Piece::new(&["1110", "1100"], "ZIPPO");
    let p1 = Piece::new(&["1100", "0110"], "Z");
    let p2 = Piece::new(&["0100", "1110"], "T");
    let p3 = Piece::new(&["1000", "1110"], "L");
    let p4 = Piece::new(&["1100", "0111"], "LONG_Z");
    let p5 = Piece::new(&["0100", "1111"], "LONG_T");
    let p6 = Piece::new(&["1110", "0000"], "SHORT_BAR");
    let mut pieces: Vec<Piece> = Vec::with_capacity(7);
    pieces.push(p0);
    pieces.push(p1);
    pieces.push(p2);
    pieces.push(p3);
    pieces.push(p4);
    pieces.push(p5);
    pieces.push(p6);
    pieces
}

} // verus!
