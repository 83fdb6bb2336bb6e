use vstd::prelude::*;

verus! {

/// A 64-bit occupancy mask over a grid: the cell at column `x`, row `y` is
/// stored at bit `y * 8 + x` (a fixed stride of 8 columns).
#[derive(Debug, Clone, Copy, PartialEq, Eq, Structural)]
pub struct BitBoard {
    bits: u64,
}

/// Whether bit `i` of `bits` is set.
pub open spec fn bb_get(bits: u64, i: u64) -> bool {
    (bits >> i) & 1 == 1
}

/// Whether the cell at column `x`, row `y` is set, under the stride-8 layout.
/// Coordinates outside the 8x8 capacity hold no cell.
pub open spec fn bb_cell(bits: u64, x: int, y: int) -> bool {
    0 <= x < 8 && 0 <= y < 8 && bb_get(bits, (y * 8 + x) as u64)
}

proof fn lemma_or_bit(b: u64, i: u64, j: u64)
    by (bit_vector)
    requires
        i < 64,
        j < 64,
    ensures
        bb_get(b | (1u64 << i), j) == (i == j || bb_get(b, j)),
{
}

proof fn lemma_andnot_bit(b: u64, i: u64, j: u64)
    by (bit_vector)
    requires
        i < 64,
        j < 64,
    ensures
        bb_get(b & !(1u64 << i), j) == (i != j && bb_get(b, j)),
{
}

proof fn lemma_and_bit(a: u64, b: u64, i: u64)
    by (bit_vector)
    requires
        i < 64,
    ensures
        bb_get(a & b, i) == (bb_get(a, i) && bb_get(b, i)),
{
}

proof fn lemma_or_bits(a: u64, b: u64, i: u64)
    by (bit_vector)
    requires
        i < 64,
    ensures
        bb_get(a | b, i) == (bb_get(a, i) || bb_get(b, i)),
{
}

proof fn lemma_xor_bits(a: u64, b: u64, i: u64)
    by (bit_vector)
    requires
        i < 64,
    ensures
        bb_get(a ^ b, i) == (bb_get(a, i) != bb_get(b, i)),
{
}

pub proof fn lemma_bb_zero()
    by (bit_vector)
    ensures
        forall|i: u64| i < 64 ==> !#[trigger] bb_get(0u64, i),
{
}

pub proof fn lemma_bb_full()
    by (bit_vector)
    ensures
        forall|i: u64| i < 64 ==> #[trigger] bb_get(u64::MAX, i),
{
}

proof fn lemma_bb_ext_rec(a: u64, b: u64, n: u64)
    requires
        n <= 63,
        forall|i: u64| i < 64 ==> #[trigger] bb_get(a, i) == bb_get(b, i),
    ensures
        a >> n == b >> n,
    decreases 63 - n,
{
    if n == 63 {
        assert(bb_get(a, 63) == bb_get(b, 63));
        assert(a >> 63u64 == b >> 63u64) by (bit_vector)
            requires
                bb_get(a, 63) == bb_get(b, 63),
        ;
    } else {
        lemma_bb_ext_rec(a, b, (n + 1) as u64);
        assert(bb_get(a, n) == bb_get(b, n));
        assert(a >> n == b >> n) by (bit_vector)
            requires
                n < 63,
                a >> ((n + 1) as u64) == b >> ((n + 1) as u64),
                bb_get(a, n) == bb_get(b, n),
        ;
    }
}

/// Two 64-bit masks that agree on every bit are equal.
pub proof fn lemma_bb_ext(a: u64, b: u64)
    requires
        forall|i: u64| i < 64 ==> #[trigger] bb_get(a, i) == bb_get(b, i),
    ensures
        a == b,
{
    lemma_bb_ext_rec(a, b, 0);
    assert(a >> 0u64 == a) by (bit_vector);
    assert(b >> 0u64 == b) by (bit_vector);
}

/// Two bit boards that agree on every cell of the 8x8 capacity are equal.
pub proof fn lemma_bb_ext_cells(a: BitBoard, b: BitBoard)
    requires
        forall|x: int, y: int|
            0 <= x < 8 && 0 <= y < 8 ==> #[trigger] a.cell(x, y) == b.cell(x, y),
    ensures
        a == b,
{
    assert forall|i: u64| i < 64 implies #[trigger] bb_get(a.spec_bits(), i) == bb_get(
        b.spec_bits(),
        i,
    ) by {
        let x = (i as int) % 8;
        let y = (i as int) / 8;
        assert(0 <= x < 8 && 0 <= y < 8 && y * 8 + x == i as int);
        assert(a.cell(x, y) == b.cell(x, y));
    }
    lemma_bb_ext(a.spec_bits(), b.spec_bits());
    assert(a == b);
}

/// Set or clear bit `y * width + x` of `board` for a caller-supplied stride
/// `width`; the index must lie within the 64-bit capacity.
pub fn set_bit(board: &mut BitBoard, x: usize, y: usize, width: usize, value: bool)
    requires
        y * width + x < 64,
    ensures
        forall|i: u64|
            i < 64 ==> #[trigger] bb_get(final(board).spec_bits(), i) == (if i == (y * width
                + x) as u64 {
                value
            } else {
                bb_get(old(board).spec_bits(), i)
            }),
{
    let index = y * width + x;
    let ghost b0 = board.bits;
    if value {
        board.bits |= 1u64 << index;
    } else {
        board.bits &= !(1u64 << index);
    }
    proof {
        assert forall|i: u64| i < 64 implies #[trigger] bb_get(board.bits, i) == (if i == (y * width
            + x) as u64 {
            value
        } else {
            bb_get(b0, i)
        }) by {
            if value {
                lemma_or_bit(b0, index as u64, i);
            } else {
                lemma_andnot_bit(b0, index as u64, i);
            }
        }
    }
}

/// Read bit `y * width + x` of `board` for a caller-supplied stride `width`;
/// the index must lie within the 64-bit capacity.
pub fn get_bit(board: &BitBoard, x: usize, y: usize, width: usize) -> (r: bool)
    requires
        y * width + x < 64,
    ensures
        r == bb_get(board.spec_bits(), (y * width + x) as u64),
{
    let index = y * width + x;
    (board.bits >> index) & 1 == 1
}

impl BitBoard {
    /// The raw 64-bit mask.
    pub closed spec fn spec_bits(self) -> u64 {
        self.bits
    }

    /// Whether the cell at column `x`, row `y` is set (stride-8 layout).
    pub open spec fn cell(self, x: int, y: int) -> bool {
        bb_cell(self.spec_bits(), x, y)
    }

    /// An all-clear mask.
    pub fn new() -> (r: Self)
        ensures
            r.spec_bits() == 0u64,
            forall|x: int, y: int| !#[trigger] r.cell(x, y),
    {
        let r = Self { bits: 0 };
        proof {
            lemma_bb_zero();
        }
        r
    }

    /// Read the cell at column `x`, row `y` within the 8x8 capacity.
    pub fn get(&self, x: usize, y: usize) -> (r: bool)
        requires
            x < 8,
            y < 8,
        ensures
            r == self.cell(x as int, y as int),
    {
        let idx = y * 8 + x;
        (self.bits >> idx) & 1 == 1
    }

    /// Set or clear the cell at column `x`, row `y` within the 8x8 capacity;
    /// every other cell is unchanged.
    pub fn set(&mut self, x: usize, y: usize, value: bool)
        requires
            x < 8,
            y < 8,
        ensures
            forall|x2: int, y2: int|
                0 <= x2 < 8 && 0 <= y2 < 8 ==> #[trigger] final(self).cell(x2, y2) == (if x2
                    == x as int && y2 == y as int {
                    value
                } else {
                    old(self).cell(x2, y2)
                }),
    {
        let idx = y * 8 + x;
        let ghost b0 = self.bits;
        if value {
            self.bits |= 1u64 << idx;
        } else {
            self.bits &= !(1u64 << idx);
        }
        proof {
            assert forall|x2: int, y2: int| 0 <= x2 < 8 && 0 <= y2 < 8 implies #[trigger] self.cell(
                x2,
                y2,
            ) == (if x2 == x as int && y2 == y as int {
                value
            } else {
                bb_cell(b0, x2, y2)
            }) by {
                let j = (y2 * 8 + x2) as u64;
                if value {
                    lemma_or_bit(b0, idx as u64, j);
                } else {
                    lemma_andnot_bit(b0, idx as u64, j);
                }
                assert((j == idx as u64) == (x2 == x as int && y2 == y as int));
            }
        }
    }

    /// Whether no bit at all is set.
    pub fn not_any(&self) -> (r: bool)
        ensures
            r == (self.spec_bits() == 0u64),
            r == (forall|x: int, y: int|
                0 <= x < 8 && 0 <= y < 8 ==> !#[trigger] self.cell(x, y)),
    {
        let r = self.bits == 0;
        proof {
            if r {
                lemma_bb_zero();
            } else {
                if forall|x: int, y: int|
                    0 <= x < 8 && 0 <= y < 8 ==> !#[trigger] self.cell(x, y) {
                    let zero = BitBoard { bits: 0 };
                    lemma_bb_zero();
                    lemma_bb_ext_cells(*self, zero);
                }
            }
        }
        r
    }

    /// Whether some cell is set in both masks: the bitwise AND is non-zero.
    pub fn intersects(&self, other: &BitBoard) -> (r: bool)
        ensures
            r == exists|x: int, y: int|
                0 <= x < 8 && 0 <= y < 8 && #[trigger] self.cell(x, y) && other.cell(x, y),
    {
        let r = (self.bits & other.bits) != 0;
        proof {
            if r {
                if !(exists|x: int, y: int|
                    0 <= x < 8 && 0 <= y < 8 && #[trigger] self.cell(x, y) && other.cell(x, y)) {
                    assert forall|i: u64| i < 64 implies #[trigger] bb_get(
                        self.bits & other.bits,
                        i,
                    ) == bb_get(0u64, i) by {
                        lemma_and_bit(self.bits, other.bits, i);
                        lemma_bb_zero();
                        let x = (i as int) % 8;
                        let y = (i as int) / 8;
                        assert(0 <= x < 8 && 0 <= y < 8 && y * 8 + x == i as int);
                        assert(!(self.cell(x, y) && other.cell(x, y)));
                    }
                    lemma_bb_ext(self.bits & other.bits, 0);
                    assert(false);
                }
            } else {
                assert forall|x: int, y: int|
                    0 <= x < 8 && 0 <= y < 8 implies !(#[trigger] self.cell(x, y) && other.cell(
                    x,
                    y,
                )) by {
                    let i = (y * 8 + x) as u64;
                    lemma_and_bit(self.bits, other.bits, i);
                    lemma_bb_zero();
                }
            }
        }
        r
    }

    /// Merge the other mask in: the bitwise OR, cell by cell.
    pub fn union(&mut self, other: &BitBoard)
        ensures
            final(self).spec_bits() == (old(self).spec_bits() | other.spec_bits()),
            forall|x: int, y: int|
                0 <= x < 8 && 0 <= y < 8 ==> #[trigger] final(self).cell(x, y) == (old(self).cell(
                    x,
                    y,
                ) || other.cell(x, y)),
    {
        let ghost b0 = self.bits;
        self.bits |= other.bits;
        proof {
            assert forall|x: int, y: int|
                0 <= x < 8 && 0 <= y < 8 implies #[trigger] self.cell(x, y) == (bb_cell(b0, x, y)
                || other.cell(x, y)) by {
                lemma_or_bits(b0, other.bits, (y * 8 + x) as u64);
            }
        }
    }

    /// Toggle the cells of the other mask: the bitwise XOR, used to isolate
    /// or to clear the cells a merge affected.
    pub fn xor_with(&mut self, other: &BitBoard)
        ensures
            final(self).spec_bits() == (old(self).spec_bits() ^ other.spec_bits()),
            forall|x: int, y: int|
                0 <= x < 8 && 0 <= y < 8 ==> #[trigger] final(self).cell(x, y) == (old(self).cell(
                    x,
                    y,
                ) != other.cell(x, y)),
    {
        let ghost b0 = self.bits;
        self.bits ^= other.bits;
        proof {
            assert forall|x: int, y: int|
                0 <= x < 8 && 0 <= y < 8 implies #[trigger] self.cell(x, y) == (bb_cell(b0, x, y)
                != other.cell(x, y)) by {
                lemma_xor_bits(b0, other.bits, (y * 8 + x) as u64);
            }
        }
    }

    /// Set every bit of the capacity, or clear them all.
    pub fn fill(&mut self, value: bool)
        ensures
            final(self).spec_bits() == (if value {
                u64::MAX
            } else {
                0u64
            }),
            forall|x: int, y: int|
                0 <= x < 8 && 0 <= y < 8 ==> #[trigger] final(self).cell(x, y) == value,
    {
        self.bits = if value {
            u64::MAX
        } else {
            0
        };
        proof {
            if value {
                lemma_bb_full();
            } else {
                lemma_bb_zero();
            }
        }
    }
}

} // verus!
