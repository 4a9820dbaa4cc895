use vstd::prelude::*;
use crate::bits::{cell_index, has_bit, lemma_bit_set, lowest_set_bit, on_board, FULL_MASK};
use crate::point::Point;

verus! {

/// A set of cells, one bit per cell; bit `y * 9 + x` is cell `(x, y)`.
#[derive(Debug, Clone, Copy, PartialEq, Eq, Structural)]
pub struct BoardMask {
    pub raw_value: u128,
}

impl Point {
    /// Whether the point lies on the board.
    pub open spec fn in_bounds(self) -> bool {
        on_board(self.x as int, self.y as int)
    }

    /// The bit that stands for the point.
    pub open spec fn index(self) -> int {
        cell_index(self.x as int, self.y as int)
    }
}

impl BoardMask {
    /// Every cell of the board.
    pub fn full() -> (r: BoardMask)
        ensures
            r.raw_value == FULL_MASK,
    {
        BoardMask { raw_value: FULL_MASK }
    }

    /// No cell.
    pub fn empty() -> (r: BoardMask)
        ensures
            r.raw_value == 0,
    {
        BoardMask { raw_value: 0 }
    }

    pub fn new(raw_value: u128) -> (r: Self)
        ensures
            r.raw_value == raw_value,
    {
        Self { raw_value }
    }

    pub fn raw_value(&self) -> (r: u128)
        ensures
            r == self.raw_value,
    {
        self.raw_value
    }

    /// Whether the cell at `point` is in the set.
    pub fn get(&self, point: Point) -> (r: bool)
        requires
            point.in_bounds(),
        ensures
            r == has_bit(self.raw_value, point.index()),
    {
        let index = Self::index_of(point);
        let v = self.raw_value;
        let i = index as u128;
        assert(((v & (1u128 << i)) != 0) == ((v >> i) & 1 == 1)) by (bit_vector)
            requires i < 128;
        (self.raw_value & (1u128 << index)) != 0
    }

    /// Adds the cell at `point` to the set, or removes it.
    pub fn set(&mut self, point: Point, value: bool)
        requires
            point.in_bounds(),
        ensures
            final(self).raw_value == if value {
                old(self).raw_value | (1u128 << point.index())
            } else {
                old(self).raw_value & !(1u128 << point.index())
            },
            forall|j: int|
                0 <= j < 128 ==> #[trigger] has_bit(final(self).raw_value, j) == if j == point.index() {
                    value
                } else {
                    has_bit(old(self).raw_value, j)
                },
    {
        let index = Self::index_of(point);
        let ghost v = self.raw_value;
        if value {
            self.raw_value = self.raw_value | (1u128 << index);
        } else {
            self.raw_value = self.raw_value & !(1u128 << index);
        }
        assert forall|j: int|
            0 <= j < 128 implies #[trigger] has_bit(self.raw_value, j) == if j == point.index() {
                value
            } else {
                has_bit(v, j)
            } by {
            lemma_bit_set(v, index as u128, j as u128);
        }
    }

    /// The lowest cell of the set, if any.
    pub fn first_set_position(&self) -> (r: Option<Point>)
        requires
            self.raw_value <= FULL_MASK,
        ensures
            r is None <==> self.raw_value == 0,
            r matches Some(p) ==> {
                &&& p.in_bounds()
                &&& p.x == p.index() % 9
                &&& p.y == p.index() / 9
                &&& has_bit(self.raw_value, p.index())
                &&& forall|j: int| 0 <= j < p.index() ==> !has_bit(self.raw_value, j)
            },
    {
        if self.raw_value == 0 {
            None
        } else {
            let tz = lowest_set_bit(self.raw_value);
            let v = self.raw_value;
            let t = tz as u128;
            assert(t >= 81 ==> (v >> t) & 1 == 0) by (bit_vector)
                requires v <= 0x1_ffff_ffff_ffff_ffff_ffffu128, t < 128;
            Some(Self::point_of(tz as usize))
        }
    }

    /// Whether `point` lies on the board.
    pub fn contains(point: Point) -> (r: bool)
        ensures
            r == point.in_bounds(),
    {
        0 <= point.x && point.x < 9 && 0 <= point.y && point.y < 9
    }

    /// The bit index of an on-board point.
    pub fn index_of(point: Point) -> (r: usize)
        requires
            point.in_bounds(),
        ensures
            r == point.index(),
            r < 81,
    {
        (point.y * 9 + point.x) as usize
    }

    /// The point of a bit index below 81.
    pub fn point_of(index: usize) -> (r: Point)
        requires
            index < 81,
        ensures
            r.x == index % 9,
            r.y == index / 9,
            r.in_bounds(),
            r.index() == index,
    {
        let x = (index % 9) as i32;
        let y = (index / 9) as i32;
        Point::new(x, y)
    }
}

impl std::ops::BitAnd for BoardMask {
    type Output = BoardMask;

    fn bitand(self, rhs: BoardMask) -> BoardMask {
        BoardMask::new(self.raw_value & rhs.raw_value)
    }
}

impl vstd::std_specs::ops::BitAndSpecImpl for BoardMask {
    open spec fn obeys_bitand_spec() -> bool {
        true
    }

    open spec fn bitand_req(self, rhs: BoardMask) -> bool {
        true
    }

    open spec fn bitand_spec(self, rhs: BoardMask) -> BoardMask {
        BoardMask { raw_value: self.raw_value & rhs.raw_value }
    }
}

impl std::ops::BitOr for BoardMask {
    type Output = BoardMask;

    fn bitor(self, rhs: BoardMask) -> BoardMask {
        BoardMask::new(self.raw_value | rhs.raw_value)
    }
}

impl vstd::std_specs::ops::BitOrSpecImpl for BoardMask {
    open spec fn obeys_bitor_spec() -> bool {
        true
    }

    open spec fn bitor_req(self, rhs: BoardMask) -> bool {
        true
    }

    open spec fn bitor_spec(self, rhs: BoardMask) -> BoardMask {
        BoardMask { raw_value: self.raw_value | rhs.raw_value }
    }
}

impl std::ops::Shl<usize> for BoardMask {
    type Output = BoardMask;

    fn shl(self, rhs: usize) -> BoardMask {
        BoardMask::new(self.raw_value << rhs)
    }
}

impl vstd::std_specs::ops::ShlSpecImpl<usize> for BoardMask {
    open spec fn obeys_shl_spec() -> bool {
        true
    }

    open spec fn shl_req(self, rhs: usize) -> bool {
        rhs < 128
    }

    open spec fn shl_spec(self, rhs: usize) -> BoardMask {
        BoardMask { raw_value: self.raw_value << rhs }
    }
}

impl std::ops::Shr<usize> for BoardMask {
    type Output = BoardMask;

    fn shr(self, rhs: usize) -> BoardMask {
        BoardMask::new(self.raw_value >> rhs)
    }
}

impl vstd::std_specs::ops::ShrSpecImpl<usize> for BoardMask {
    open spec fn obeys_shr_spec() -> bool {
        true
    }

    open spec fn shr_req(self, rhs: usize) -> bool {
        rhs < 128
    }

    open spec fn shr_spec(self, rhs: usize) -> BoardMask {
        BoardMask { raw_value: self.raw_value >> rhs }
    }
}

impl std::ops::Not for BoardMask {
    type Output = BoardMask;

    /// Complement within the board: bits outside it stay clear.
    fn not(self) -> BoardMask {
        BoardMask::new(!self.raw_value & FULL_MASK)
    }
}

impl vstd::std_specs::ops::NotSpecImpl for BoardMask {
    open spec fn obeys_not_spec() -> bool {
        true
    }

    open spec fn not_req(self) -> bool {
        true
    }

    open spec fn not_spec(self) -> BoardMask {
        BoardMask { raw_value: !self.raw_value & FULL_MASK }
    }
}

} // verus!
