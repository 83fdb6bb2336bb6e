use vstd::prelude::*;

pub use super::bit_ops::BitBoard;

verus! {

/// A grid coordinate: column first, then row.
pub type Position = (usize, usize);

/// Enumeration helper over the coordinates of a fixed 6x6 play area.
pub trait PositionExt {
    /// Every coordinate of the 6x6 area, in row-major order.
    fn all_positions() -> (r: Vec<Position>)
        ensures
            r@.len() == 36,
            forall|y: int, x: int|
                0 <= y < 6 && 0 <= x < 6 ==> #[trigger] r@[y * 6 + x] == (x as usize, y as usize),
    ;
}

impl PositionExt for Position {
    fn all_positions() -> (r: Vec<Position>)
        ensures
            r@.len() == 36,
            forall|y: int, x: int|
                0 <= y < 6 && 0 <= x < 6 ==> #[trigger] r@[y * 6 + x] == (x as usize, y as usize),
    {
        let mut positions: Vec<Position> = Vec::new();
        for y in 0..6usize
            invariant
                positions@.len() == y * 6,
                forall|y2: int, x2: int|
                    0 <= y2 < y && 0 <= x2 < 6 ==> #[trigger] positions@[y2 * 6 + x2] == (
                    x2 as usize,
                    y2 as usize,
                ),
        {
            for x in 0..6usize
                invariant
                    y < 6,
                    positions@.len() == y * 6 + x,
                    forall|y2: int, x2: int|
                        0 <= y2 < y && 0 <= x2 < 6 ==> #[trigger] positions@[y2 * 6 + x2] == (
                        x2 as usize,
                        y2 as usize,
                    ),
                    forall|x2: int|
                        0 <= x2 < x ==> #[trigger] positions@[y * 6 + x2] == (x2 as usize, y as usize),
            {
                positions.push((x, y));
            }
        }
        positions
    }
}

/// The ways construction, a placement or a whole search can fail.
#[derive(Debug, Clone, Copy, PartialEq, Eq, Structural)]
pub enum SolverError {
    /// A piece would leave the board.
    OutOfBounds,
    /// A piece would cover an already occupied cell.
    Overlap,
    /// The search exhausted every branch without an accepted assignment.
    NoSolution,
    /// A board or piece is larger than the mask's 8x8 capacity.
    OutOfCapacity,
    /// A pattern is empty, has rows of unequal length, or covers nothing.
    MalformedShape,
}

impl SolverError {
    /// A short description of the error.
    pub fn describe(&self) -> (r: &'static str)
        ensures
            *self == SolverError::OutOfBounds ==> r@ == "ピースが盤面からはみ出しています"@,
            *self == SolverError::Overlap ==> r@ == "ピースが重なっています"@,
            *self == SolverError::NoSolution ==> r@ == "解が見つかりませんでした"@,
            *self == SolverError::OutOfCapacity ==> r@ == "盤面またはピースが容量を超えています"@,
            *self == SolverError::MalformedShape ==> r@ == "ピースのパターンが不正です"@,
    {
        match self {
            SolverError::OutOfBounds => "ピースが盤面からはみ出しています",
            SolverError::Overlap => "ピースが重なっています",
            SolverError::NoSolution => "解が見つかりませんでした",
            SolverError::OutOfCapacity => "盤面またはピースが容量を超えています",
            SolverError::MalformedShape => "ピースのパターンが不正です",
        }
    }
}

} // verus!
