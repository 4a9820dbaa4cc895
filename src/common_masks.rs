use vstd::prelude::*;
use crate::bits::{cell_index, cells_set, has_bit, lemma_bit_set, lemma_cells_set_insert, lemma_cells_set_zero, on_board, FULL_MASK};
use crate::board_mask::BoardMask;
use crate::point::{Direction, Point};

verus! {

/// Whether `(x, y)` is one of the `length` cells of a ship anchored at `(sx, sy)`.
pub open spec fn in_ship(length: int, sx: int, sy: int, dir: Direction, x: int, y: int) -> bool {
    match dir {
        Direction::Horizontal => y == sy && sx <= x < sx + length,
        Direction::Vertical => x == sx && sy <= y < sy + length,
    }
}

/// Whether a ship of `length` anchored at `(sx, sy)` lies wholly on the board.
pub open spec fn ship_fits(length: int, sx: int, sy: int, dir: Direction) -> bool {
    on_board(sx, sy) && on_board(sx + (length - 1) * dir.dx(), sy + (length - 1) * dir.dy())
}

/// Whether `(x, y)` is within one step, diagonals included, of a cell of the ship.
pub open spec fn near_ship(length: int, sx: int, sy: int, dir: Direction, x: int, y: int) -> bool {
    &&& sx - 1 <= x <= sx + (length - 1) * dir.dx() + 1
    &&& sy - 1 <= y <= sy + (length - 1) * dir.dy() + 1
}

/// The first `k` cells of a ship anchored at `(sx, sy)`, as bits.
pub open spec fn ship_bits(sx: int, sy: int, dir: Direction, k: int) -> u128
    decreases k,
{
    if k <= 0 {
        0
    } else {
        ship_bits(sx, sy, dir, k - 1) | (1u128 << (cell_index(sx + (k - 1) * dir.dx(), sy + (k - 1) * dir.dy()) as u128))
    }
}

/// The on-board cells of index below `n` that touch the ship without being part of it, as bits.
pub open spec fn outline_bits(length: int, sx: int, sy: int, dir: Direction, n: int) -> u128
    decreases n,
{
    if n <= 0 {
        0
    } else {
        outline_bits(length, sx, sy, dir, n - 1) | if near_ship(length, sx, sy, dir, (n - 1) % 9, (n - 1) / 9)
            && !in_ship(length, sx, sy, dir, (n - 1) % 9, (n - 1) / 9) {
            1u128 << ((n - 1) as u128)
        } else {
            0
        }
    }
}

/// The cells a ship occupies; every cell where it would leave the board.
pub open spec fn ship_hit_value(length: int, sx: int, sy: int, dir: Direction) -> u128 {
    if ship_fits(length, sx, sy, dir) {
        ship_bits(sx, sy, dir, length)
    } else {
        FULL_MASK
    }
}

/// The on-board cells around a ship; every cell where the ship would leave the board.
pub open spec fn ship_outline_value(length: int, sx: int, sy: int, dir: Direction) -> u128 {
    if ship_fits(length, sx, sy, dir) {
        outline_bits(length, sx, sy, dir, 81)
    } else {
        FULL_MASK
    }
}

/// The precomputed hit and outline masks of every ship placement.
pub struct CommonMasks {
    hit_masks: Vec<BoardMask>,
    outline_masks: Vec<BoardMask>,
}

/// Where the masks of a placement stand in the tables.
pub open spec fn slot(length: int, dir: Direction, index: int) -> int {
    (if length == 3 { 0int } else { 2int } + if dir is Horizontal { 0int } else { 1int }) * 81 + index
}

/// The ship lengths of the fleet.
pub open spec fn valid_length(length: int) -> bool {
    length == 3 || length == 4
}

impl CommonMasks {
    pub closed spec fn wf(&self) -> bool {
        &&& self.hit_masks@.len() == 324
        &&& self.outline_masks@.len() == 324
        &&& forall|length: int, dir: Direction, x: int, y: int|
            valid_length(length) && on_board(x, y) ==> #[trigger] self.hit_masks@[slot(length, dir, cell_index(x, y))].raw_value
                == ship_hit_value(length, x, y, dir)
        &&& forall|length: int, dir: Direction, x: int, y: int|
            valid_length(length) && on_board(x, y) ==> #[trigger] self.outline_masks@[slot(length, dir, cell_index(x, y))].raw_value
                == ship_outline_value(length, x, y, dir)
    }

    /// Computes the masks of every placement.
    pub fn new() -> (r: Self)
        ensures
            r.wf(),
    {
        let mut hit_masks: Vec<BoardMask> = Vec::new();
        let mut outline_masks: Vec<BoardMask> = Vec::new();
        let mut table: usize = 0;
        while table < 4
            invariant
                table <= 4,
                hit_masks@.len() == 81 * table,
                outline_masks@.len() == 81 * table,
                forall|length: int, dir: Direction, x: int, y: int|
                    valid_length(length) && on_board(x, y) && slot(length, dir, cell_index(x, y)) < 81 * table
                        ==> #[trigger] hit_masks@[slot(length, dir, cell_index(x, y))].raw_value == ship_hit_value(length, x, y, dir),
                forall|length: int, dir: Direction, x: int, y: int|
                    valid_length(length) && on_board(x, y) && slot(length, dir, cell_index(x, y)) < 81 * table
                        ==> #[trigger] outline_masks@[slot(length, dir, cell_index(x, y))].raw_value == ship_outline_value(length, x, y, dir),
            decreases 4 - table,
        {
            let length: i32 = if table < 2 { 3 } else { 4 };
            let dir = if table % 2 == 0 { Direction::Horizontal } else { Direction::Vertical };
            let mut i: usize = 0;
            while i < 81
                invariant
                    table < 4,
                    i <= 81,
                    length == if table < 2 { 3i32 } else { 4i32 },
                    dir == if table % 2 == 0 { Direction::Horizontal } else { Direction::Vertical },
                    hit_masks@.len() == 81 * table + i,
                    outline_masks@.len() == 81 * table + i,
                    forall|length: int, dir: Direction, x: int, y: int|
                        valid_length(length) && on_board(x, y) && slot(length, dir, cell_index(x, y)) < 81 * table + i
                            ==> #[trigger] hit_masks@[slot(length, dir, cell_index(x, y))].raw_value == ship_hit_value(length, x, y, dir),
                    forall|length: int, dir: Direction, x: int, y: int|
                        valid_length(length) && on_board(x, y) && slot(length, dir, cell_index(x, y)) < 81 * table + i
                            ==> #[trigger] outline_masks@[slot(length, dir, cell_index(x, y))].raw_value == ship_outline_value(length, x, y, dir),
                decreases 81 - i,
            {
                let point = BoardMask::point_of(i);
                let h = Self::generate_mask_for_ship_hit(length, point, dir);
                let o = Self::generate_mask_for_ship_outline(length, point, dir);
                hit_masks.push(h);
                outline_masks.push(o);
                proof {
                    assert forall|l: int, d: Direction, x: int, y: int|
                        valid_length(l) && on_board(x, y) && slot(l, d, cell_index(x, y)) == 81 * table + i implies
                            l == length && d == dir && x == point.x && y == point.y by {
                    }
                }
                i = i + 1;
            }
            table = table + 1;
        }
        CommonMasks { hit_masks, outline_masks }
    }

    /// The cells a ship occupies; the full board where it would leave the board.
    pub fn mask_for_ship_hit(&self, length: i32, starting_point: Point, direction: Direction) -> (r: BoardMask)
        requires
            self.wf(),
            valid_length(length as int),
            starting_point.in_bounds(),
        ensures
            r.raw_value == ship_hit_value(length as int, starting_point.x as int, starting_point.y as int, direction),
    {
        let index = BoardMask::index_of(starting_point);
        let base: usize = if length == 3 { 0 } else { 2 };
        let table = base + match direction { Direction::Horizontal => 0, Direction::Vertical => 1 };
        let r = self.hit_masks[table * 81 + index];
        assert(slot(length as int, direction, cell_index(starting_point.x as int, starting_point.y as int)) == table * 81 + index);
        r
    }

    /// The cells around a ship; the full board where it would leave the board.
    pub fn mask_for_ship_outline(&self, length: i32, starting_point: Point, direction: Direction) -> (r: BoardMask)
        requires
            self.wf(),
            valid_length(length as int),
            starting_point.in_bounds(),
        ensures
            r.raw_value == ship_outline_value(length as int, starting_point.x as int, starting_point.y as int, direction),
    {
        let index = BoardMask::index_of(starting_point);
        let base: usize = if length == 3 { 0 } else { 2 };
        let table = base + match direction { Direction::Horizontal => 0, Direction::Vertical => 1 };
        let r = self.outline_masks[table * 81 + index];
        assert(slot(length as int, direction, cell_index(starting_point.x as int, starting_point.y as int)) == table * 81 + index);
        r
    }

    fn generate_mask_for_ship_hit(length: i32, starting_point: Point, direction: Direction) -> (r: BoardMask)
        requires
            valid_length(length as int),
            starting_point.in_bounds(),
        ensures
            r.raw_value == ship_hit_value(length as int, starting_point.x as int, starting_point.y as int, direction),
    {
        let end = starting_point + direction * (length - 1);
        if !BoardMask::contains(end) {
            return BoardMask::full();
        }
        let mut mask = BoardMask::empty();
        let mut k: i32 = 0;
        while k < length
            invariant
                valid_length(length as int),
                starting_point.in_bounds(),
                end.in_bounds(),
                end.x == starting_point.x + (length - 1) * direction.dx(),
                end.y == starting_point.y + (length - 1) * direction.dy(),
                0 <= k <= length,
                mask.raw_value == ship_bits(starting_point.x as int, starting_point.y as int, direction, k as int),
            decreases length - k,
        {
            let point = starting_point + direction * k;
            mask.set(point, true);
            k = k + 1;
        }
        mask
    }

    fn generate_mask_for_ship_outline(length: i32, starting_point: Point, direction: Direction) -> (r: BoardMask)
        requires
            valid_length(length as int),
            starting_point.in_bounds(),
        ensures
            r.raw_value == ship_outline_value(length as int, starting_point.x as int, starting_point.y as int, direction),
    {
        let end = starting_point + direction * (length - 1);
        if !BoardMask::contains(end) {
            return BoardMask::full();
        }
        let mut mask = BoardMask::empty();
        let mut i: usize = 0;
        while i < 81
            invariant
                valid_length(length as int),
                starting_point.in_bounds(),
                end.x == starting_point.x + (length - 1) * direction.dx(),
                end.y == starting_point.y + (length - 1) * direction.dy(),
                i <= 81,
                mask.raw_value == outline_bits(length as int, starting_point.x as int, starting_point.y as int, direction, i as int),
            decreases 81 - i,
        {
            let p = BoardMask::point_of(i);
            let near = starting_point.x - 1 <= p.x && p.x <= end.x + 1 && starting_point.y - 1 <= p.y && p.y <= end.y + 1;
            let on_ship = match direction {
                Direction::Horizontal => p.y == starting_point.y && starting_point.x <= p.x && p.x <= end.x,
                Direction::Vertical => p.x == starting_point.x && starting_point.y <= p.y && p.y <= end.y,
            };
            let ghost v = mask.raw_value;
            assert(near == near_ship(length as int, starting_point.x as int, starting_point.y as int, direction, i as int % 9, i as int / 9));
            assert(on_ship == in_ship(length as int, starting_point.x as int, starting_point.y as int, direction, i as int % 9, i as int / 9));
            if near && !on_ship {
                mask.set(p, true);
            } else {
                assert(v | 0 == v) by (bit_vector);
            }
            i = i + 1;
        }
        mask
    }
}

/// The first `k` cells of a ship that fits: exactly the cells of a ship of length `k`, all
/// on the board, `k` of them.
pub proof fn lemma_ship_bits(length: int, sx: int, sy: int, dir: Direction, k: int)
    requires
        ship_fits(length, sx, sy, dir),
        0 <= k <= length,
        valid_length(length),
    ensures
        ship_bits(sx, sy, dir, k) <= FULL_MASK,
        cells_set(ship_bits(sx, sy, dir, k), 81) == k,
        forall|x: int, y: int|
            on_board(x, y) ==> #[trigger] has_bit(ship_bits(sx, sy, dir, k), cell_index(x, y)) == in_ship(k, sx, sy, dir, x, y),
    decreases k,
{
    if k == 0 {
        lemma_cells_set_zero(81);
    } else {
        lemma_ship_bits(length, sx, sy, dir, k - 1);
        assert((k - 1) * dir.dx() == if dir is Horizontal { k - 1 } else { 0 });
        assert((k - 1) * dir.dy() == if dir is Horizontal { 0 } else { k - 1 });
        assert((length - 1) * dir.dx() == if dir is Horizontal { length - 1 } else { 0 });
        assert((length - 1) * dir.dy() == if dir is Horizontal { 0 } else { length - 1 });
        let v = ship_bits(sx, sy, dir, k - 1);
        let cx = sx + (k - 1) * dir.dx();
        let cy = sy + (k - 1) * dir.dy();
        let c = cell_index(cx, cy);
        assert(on_board(cx, cy));
        assert(!has_bit(v, c));
        lemma_cells_set_insert(v, c, 81);
        let cu = c as u128;
        assert(v <= 0x1_ffff_ffff_ffff_ffff_ffffu128 && cu < 81 ==> v | (1u128 << cu) <= 0x1_ffff_ffff_ffff_ffff_ffffu128) by (bit_vector);
        assert(ship_bits(sx, sy, dir, k) == v | (1u128 << cu));
        assert forall|x: int, y: int| on_board(x, y) implies #[trigger] has_bit(ship_bits(sx, sy, dir, k), cell_index(x, y)) == in_ship(k, sx, sy, dir, x, y) by {
            lemma_bit_set(v, cu, cell_index(x, y) as u128);
            lemma_cell_index_injective(x, y, cx, cy);
            assert(has_bit(v | (1u128 << cu), cell_index(x, y)) == (cell_index(x, y) == c || has_bit(v, cell_index(x, y))));
            assert(in_ship(k, sx, sy, dir, x, y) == (in_ship(k - 1, sx, sy, dir, x, y) || (x == cx && y == cy)));
        }
    }
}

/// The outline of a ship that fits: exactly the on-board cells of index below `n` that touch
/// the ship without being part of it.
pub proof fn lemma_outline_bits(length: int, sx: int, sy: int, dir: Direction, n: int)
    requires
        0 <= n <= 81,
    ensures
        outline_bits(length, sx, sy, dir, n) <= FULL_MASK,
        forall|x: int, y: int|
            on_board(x, y) ==> #[trigger] has_bit(outline_bits(length, sx, sy, dir, n), cell_index(x, y)) == (cell_index(x, y) < n
                && near_ship(length, sx, sy, dir, x, y) && !in_ship(length, sx, sy, dir, x, y)),
    decreases n,
{
    if n == 0 {
        lemma_cells_set_zero(0);
    } else {
        lemma_outline_bits(length, sx, sy, dir, n - 1);
        let v = outline_bits(length, sx, sy, dir, n - 1);
        let cx = (n - 1) % 9;
        let cy = (n - 1) / 9;
        let cu = (n - 1) as u128;
        assert(on_board(cx, cy));
        assert(cell_index(cx, cy) == n - 1);
        if near_ship(length, sx, sy, dir, cx, cy) && !in_ship(length, sx, sy, dir, cx, cy) {
            assert(outline_bits(length, sx, sy, dir, n) == v | (1u128 << cu));
            assert(v <= 0x1_ffff_ffff_ffff_ffff_ffffu128 && cu < 81 ==> v | (1u128 << cu) <= 0x1_ffff_ffff_ffff_ffff_ffffu128) by (bit_vector);
            assert forall|x: int, y: int| on_board(x, y) implies #[trigger] has_bit(outline_bits(length, sx, sy, dir, n), cell_index(x, y)) == (cell_index(x, y) < n
                && near_ship(length, sx, sy, dir, x, y) && !in_ship(length, sx, sy, dir, x, y)) by {
                lemma_bit_set(v, cu, cell_index(x, y) as u128);
                lemma_cell_index_injective(x, y, cx, cy);
                assert(has_bit(v | (1u128 << cu), cell_index(x, y)) == (cell_index(x, y) == n - 1 || has_bit(v, cell_index(x, y))));
            }
        } else {
            assert(outline_bits(length, sx, sy, dir, n) == v | 0);
            assert(v | 0 == v) by (bit_vector);
            assert forall|x: int, y: int| on_board(x, y) implies #[trigger] has_bit(outline_bits(length, sx, sy, dir, n), cell_index(x, y)) == (cell_index(x, y) < n
                && near_ship(length, sx, sy, dir, x, y) && !in_ship(length, sx, sy, dir, x, y)) by {
                lemma_cell_index_injective(x, y, cx, cy);
            }
        }
    }
}

pub proof fn lemma_cell_index_injective(x: int, y: int, u: int, v: int)
    requires
        on_board(x, y),
        on_board(u, v),
    ensures
        (cell_index(x, y) == cell_index(u, v)) == (x == u && y == v),
        0 <= cell_index(x, y) < 81,
{
}

} // verus!
