use vstd::prelude::*;
use vstd::string::*;
use crate::bits::{has_bit, FULL_MASK};
use crate::board_mask::BoardMask;
use crate::common_masks::{ship_fits, ship_hit_value, ship_outline_value, valid_length, CommonMasks};
use crate::point::{Direction, Point};

verus! {

/// What is known of a cell.
#[derive(Debug, Clone, Copy, PartialEq, Eq, Structural)]
pub enum CellState {
    Open,
    Hit,
    Miss,
}

/// A partial fleet layout: the cells known to hold a ship, the cells known to be empty, and
/// the ships of each length still to place.
#[derive(Debug, Clone, Copy, PartialEq, Eq, Structural)]
pub struct BoardState {
    pub hit_mask: BoardMask,
    pub miss_mask: BoardMask,
    pub three_count_remaining: usize,
    pub four_count_remaining: usize,
}

/// How a cell is drawn: a cross for a hit, a dot for a miss, blank when open.
pub open spec fn cell_text(c: CellState) -> Seq<char> {
    match c {
        CellState::Hit => " X"@,
        CellState::Miss => " •"@,
        CellState::Open => "  "@,
    }
}

/// The first `n` cells of row `y`, after the left border.
pub open spec fn row_text(s: BoardState, y: int, n: int) -> Seq<char>
    decreases n,
{
    if n <= 0 {
        "│"@
    } else {
        row_text(s, y, n - 1) + cell_text(s.get_spec(Point { x: (n - 1) as i32, y: y as i32 }))
    }
}

/// The top border and the first `m` rows.
pub open spec fn board_text(s: BoardState, m: int) -> Seq<char>
    decreases m,
{
    if m <= 0 {
        "┌───────────────────┐\n"@
    } else {
        board_text(s, m - 1) + row_text(s, m - 1, 9) + " │\n"@
    }
}

/// The layout after placing a ship, if the placement is allowed: a ship of that length is
/// left, the ship lies on the board, and it neither overlaps nor touches a hit cell. The
/// ship's cells become hits and the cells around it misses.
pub open spec fn placed(s: BoardState, length: int, p: Point, dir: Direction) -> Option<BoardState> {
    let hv = ship_hit_value(length, p.x as int, p.y as int, dir);
    let ov = ship_outline_value(length, p.x as int, p.y as int, dir);
    if !valid_length(length) {
        None
    } else if (length == 3 && s.three_count_remaining == 0) || (length == 4 && s.four_count_remaining == 0) {
        None
    } else if !ship_fits(length, p.x as int, p.y as int, dir) {
        None
    } else if s.hit_mask.raw_value & hv != 0 || s.hit_mask.raw_value & ov != 0 {
        None
    } else {
        Some(
            BoardState {
                hit_mask: BoardMask { raw_value: s.hit_mask.raw_value | hv },
                miss_mask: BoardMask { raw_value: s.miss_mask.raw_value | ov },
                three_count_remaining: if length == 3 {
                    (s.three_count_remaining - 1) as usize
                } else {
                    s.three_count_remaining
                },
                four_count_remaining: if length == 4 {
                    (s.four_count_remaining - 1) as usize
                } else {
                    s.four_count_remaining
                },
            },
        )
    }
}

impl BoardState {
    /// No cell known, the whole fleet to place: five ships of three and three of four.
    pub fn empty() -> (r: Self)
        ensures
            r.hit_mask.raw_value == 0,
            r.miss_mask.raw_value == 0,
            r.three_count_remaining == 5,
            r.four_count_remaining == 3,
    {
        BoardState {
            hit_mask: BoardMask::empty(),
            miss_mask: BoardMask::empty(),
            three_count_remaining: 5,
            four_count_remaining: 3,
        }
    }

    pub fn hit_mask(&self) -> (r: BoardMask)
        ensures
            r == self.hit_mask,
    {
        self.hit_mask
    }

    pub fn miss_mask(&self) -> (r: BoardMask)
        ensures
            r == self.miss_mask,
    {
        self.miss_mask
    }

    /// The cells neither hit nor missed.
    pub fn open_mask(&self) -> (r: BoardMask)
        ensures
            r.raw_value == FULL_MASK & !self.hit_mask.raw_value & !self.miss_mask.raw_value,
            r.raw_value <= FULL_MASK,
    {
        let h = self.hit_mask.raw_value;
        let m = self.miss_mask.raw_value;
        let r = BoardMask::new(FULL_MASK & (!h & FULL_MASK) & (!m & FULL_MASK));
        assert(((0x1_ffff_ffff_ffff_ffff_ffffu128 & (!h & 0x1_ffff_ffff_ffff_ffff_ffffu128)) & (!m & 0x1_ffff_ffff_ffff_ffff_ffffu128))
            == 0x1_ffff_ffff_ffff_ffff_ffffu128 & !h & !m) by (bit_vector);
        assert(0x1_ffff_ffff_ffff_ffff_ffffu128 & !h & !m <= 0x1_ffff_ffff_ffff_ffff_ffffu128) by (bit_vector);
        r
    }

    pub fn three_count_remaining(&self) -> (r: usize)
        ensures
            r == self.three_count_remaining,
    {
        self.three_count_remaining
    }

    pub fn four_count_remaining(&self) -> (r: usize)
        ensures
            r == self.four_count_remaining,
    {
        self.four_count_remaining
    }

    /// A hit cell reads as hit, else a missed one as missed, else as open.
    pub fn get(&self, point: Point) -> (r: CellState)
        requires
            point.in_bounds(),
        ensures
            r == if has_bit(self.hit_mask.raw_value, point.index()) {
                CellState::Hit
            } else if has_bit(self.miss_mask.raw_value, point.index()) {
                CellState::Miss
            } else {
                CellState::Open
            },
    {
        if self.hit_mask.get(point) {
            CellState::Hit
        } else if self.miss_mask.get(point) {
            CellState::Miss
        } else {
            CellState::Open
        }
    }

    /// Marks one cell; the other cells and the ships left stay as they were.
    pub fn set(&mut self, point: Point, state: CellState)
        requires
            point.in_bounds(),
        ensures
            final(self).three_count_remaining == old(self).three_count_remaining,
            final(self).four_count_remaining == old(self).four_count_remaining,
            forall|j: int|
                0 <= j < 128 && j != point.index() ==> {
                    &&& #[trigger] has_bit(final(self).hit_mask.raw_value, j) == has_bit(old(self).hit_mask.raw_value, j)
                    &&& has_bit(final(self).miss_mask.raw_value, j) == has_bit(old(self).miss_mask.raw_value, j)
                },
            has_bit(final(self).hit_mask.raw_value, point.index()) == (state == CellState::Hit),
            has_bit(final(self).miss_mask.raw_value, point.index()) == (state == CellState::Miss),
            final(self).get_spec(point) == state,
            final(self).hit_mask.raw_value == if state == CellState::Hit {
                old(self).hit_mask.raw_value | (1u128 << point.index())
            } else {
                old(self).hit_mask.raw_value & !(1u128 << point.index())
            },
            final(self).miss_mask.raw_value == if state == CellState::Miss {
                old(self).miss_mask.raw_value | (1u128 << point.index())
            } else {
                old(self).miss_mask.raw_value & !(1u128 << point.index())
            },
    {
        match state {
            CellState::Hit => {
                self.hit_mask.set(point, true);
                self.miss_mask.set(point, false);
            },
            CellState::Miss => {
                self.hit_mask.set(point, false);
                self.miss_mask.set(point, true);
            },
            CellState::Open => {
                self.hit_mask.set(point, false);
                self.miss_mask.set(point, false);
            },
        }
    }

    /// What `get` reads.
    pub open spec fn get_spec(self, point: Point) -> CellState {
        if has_bit(self.hit_mask.raw_value, point.index()) {
            CellState::Hit
        } else if has_bit(self.miss_mask.raw_value, point.index()) {
            CellState::Miss
        } else {
            CellState::Open
        }
    }

    /// The layout with a ship placed, where the placement is allowed (see `placed`).
    pub fn placing_ship(&self, masks: &CommonMasks, length: i32, starting_point: Point, direction: Direction) -> (r: Option<BoardState>)
        requires
            masks.wf(),
            starting_point.in_bounds(),
        ensures
            r == placed(*self, length as int, starting_point, direction),
    {
        let mut copy = *self;
        if length == 3 {
            if copy.three_count_remaining == 0 {
                return None;
            } else {
                copy.three_count_remaining = copy.three_count_remaining - 1;
            }
        } else if length == 4 {
            if copy.four_count_remaining == 0 {
                return None;
            } else {
                copy.four_count_remaining = copy.four_count_remaining - 1;
            }
        } else {
            return None;
        }
        let move_hit_mask = masks.mask_for_ship_hit(length, starting_point, direction);
        let move_miss_mask = masks.mask_for_ship_outline(length, starting_point, direction);
        let end = starting_point + direction * (length - 1);
        if !BoardMask::contains(end) {
            return None;
        }
        if self.hit_mask.raw_value() & move_hit_mask.raw_value() != 0 {
            return None;
        }
        if self.hit_mask.raw_value() & move_miss_mask.raw_value() != 0 {
            return None;
        }
        copy.hit_mask = BoardMask::new(self.hit_mask.raw_value() | move_hit_mask.raw_value());
        copy.miss_mask = BoardMask::new(self.miss_mask.raw_value() | move_miss_mask.raw_value());
        Some(copy)
    }

    /// Places a ship where the placement is allowed, and says whether it was.
    pub fn place_ship(&mut self, masks: &CommonMasks, length: i32, starting_point: Point, direction: Direction) -> (r: bool)
        requires
            masks.wf(),
            starting_point.in_bounds(),
        ensures
            r == placed(*old(self), length as int, starting_point, direction) is Some,
            r ==> Some(*final(self)) == placed(*old(self), length as int, starting_point, direction),
            !r ==> *final(self) == *old(self),
    {
        if let Some(new_state) = self.placing_ship(masks, length, starting_point, direction) {
            *self = new_state;
            true
        } else {
            false
        }
    }

    /// The board drawn in a frame, one line per row: a cross for a hit, a dot for a miss.
    pub fn debug_description(&self) -> (r: String)
        ensures
            r@ == board_text(*self, 9) + "└───────────────────┘"@,
    {
        let mut result = String::from_str("┌───────────────────┐\n");
        let mut y: i32 = 0;
        while y < 9
            invariant
                0 <= y <= 9,
                result@ == board_text(*self, y as int),
            decreases 9 - y,
        {
            let ghost before = result@;
            result.append("│");
            let mut x: i32 = 0;
            while x < 9
                invariant
                    0 <= x <= 9,
                    0 <= y < 9,
                    result@ == before + row_text(*self, y as int, x as int),
                decreases 9 - x,
            {
                let point = Point::new(x, y);
                match self.get(point) {
                    CellState::Hit => result.append(" X"),
                    CellState::Miss => result.append(" •"),
                    CellState::Open => result.append("  "),
                }
                x = x + 1;
            }
            result.append(" │\n");
            y = y + 1;
        }
        result.append("└───────────────────┘");
        result
    }
}

} // verus!
