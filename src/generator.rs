use vstd::prelude::*;
use crate::bits::{cell_index, cells_set, has_bit, lemma_bit_witness, on_board, lemma_bit_ops, lemma_cells_set_disjoint, lemma_cells_set_same, lemma_cells_set_subset, FULL_MASK};
use crate::board_mask::BoardMask;
use crate::board_state::{placed, BoardState, CellState};
use crate::common_masks::{in_ship, lemma_outline_bits, lemma_ship_bits, near_ship, ship_bits, ship_fits, ship_hit_value, ship_outline_value, valid_length, CommonMasks};
use crate::point::{Direction, Point};
use crate::symmetries::{is_canonical, is_orbit_min};

verus! {

/// A ship: its length, the column and row of its anchor, and its direction.
pub type Ship = (int, int, int, Direction);

/// A ship of the fleet's lengths that lies wholly on the board.
pub open spec fn valid_ship(s: Ship) -> bool {
    valid_length(s.0) && ship_fits(s.0, s.1, s.2, s.3)
}

/// Whether the ship occupies cell `(x, y)`.
pub open spec fn ship_covers(s: Ship, x: int, y: int) -> bool {
    in_ship(s.0, s.1, s.2, s.3, x, y)
}

/// Whether two cells touch, side by side or corner to corner (or are the same cell).
pub open spec fn touching(x1: int, y1: int, x2: int, y2: int) -> bool {
    -1 <= x1 - x2 <= 1 && -1 <= y1 - y2 <= 1
}

/// No cell of one ship touches a cell of the other.
pub open spec fn ships_apart(s: Ship, t: Ship) -> bool {
    forall|x1: int, y1: int, x2: int, y2: int|
        #[trigger] ship_covers(s, x1, y1) && #[trigger] ship_covers(t, x2, y2) ==> !touching(x1, y1, x2, y2)
}

/// The hit cells are exactly the cells of a fleet of valid ships, no two of which touch.
pub open spec fn is_fleet_layout(hit: u128, fleet: Seq<Ship>) -> bool {
    &&& forall|k: int| 0 <= k < fleet.len() ==> valid_ship(#[trigger] fleet[k])
    &&& forall|j: int, k: int| 0 <= j < fleet.len() && 0 <= k < fleet.len() && j != k ==> ships_apart(#[trigger] fleet[j], #[trigger] fleet[k])
    &&& forall|x: int, y: int|
        on_board(x, y) ==> (#[trigger] has_bit(hit, cell_index(x, y)) <==> exists|k: int| 0 <= k < fleet.len() && ship_covers(#[trigger] fleet[k], x, y))
}

/// The hit cells are the fleet's cells, and every missed cell touches a ship of the fleet or
/// lies at or below a cell up to which all is decided.
pub open spec fn is_fleet_state(s: BoardState, fleet: Seq<Ship>) -> bool {
    &&& is_fleet_layout(s.hit_mask.raw_value, fleet)
    &&& forall|x: int, y: int|
        on_board(x, y) && #[trigger] has_bit(s.miss_mask.raw_value, cell_index(x, y)) ==> (exists|k: int|
            0 <= k < fleet.len() && near_ship(fleet[k].0, fleet[k].1, fleet[k].2, fleet[k].3, x, y))
            || s.decided_through(cell_index(x, y))
}

impl BoardState {
    /// The cells neither hit nor missed.
    pub open spec fn open_bits(self) -> u128 {
        FULL_MASK & !self.hit_mask.raw_value & !self.miss_mask.raw_value
    }

    /// A state the enumeration passes through: hits on the board only, no more ships left
    /// than the fleet has, and as many hit cells as the ships placed so far cover.
    pub open spec fn is_enumeration_state(self) -> bool {
        &&& self.hit_mask.raw_value <= FULL_MASK
        &&& self.miss_mask.raw_value <= FULL_MASK
        &&& self.hit_mask.raw_value & self.miss_mask.raw_value == 0
        &&& self.three_count_remaining <= 5
        &&& self.four_count_remaining <= 3
        &&& cells_set(self.hit_mask.raw_value, 81) == 3 * (5 - self.three_count_remaining) + 4 * (3
            - self.four_count_remaining)
        &&& exists|fleet: Seq<Ship>| is_fleet_state(self, fleet)
    }

    /// Whether every cell up to index `c` is decided.
    pub open spec fn decided_through(self, c: int) -> bool {
        forall|j: int| 0 <= j <= c ==> !#[trigger] has_bit(self.open_bits(), j)
    }

    /// A complete layout: the whole fleet placed and every cell decided.
    pub open spec fn is_complete_layout(self) -> bool {
        &&& self.is_enumeration_state()
        &&& self.three_count_remaining == 0
        &&& self.four_count_remaining == 0
        &&& self.open_bits() == 0
    }
}

/// The index of the lowest set bit of `v` from `i` on; 128 where there is none.
pub open spec fn lowest_bit_from(v: u128, i: int) -> int
    decreases 128 - i,
{
    if i >= 128 {
        128
    } else if has_bit(v, i) {
        i
    } else {
        lowest_bit_from(v, i + 1)
    }
}

/// The state with cell `i` marked as a miss.
pub open spec fn missed_at(s: BoardState, i: int) -> BoardState {
    BoardState {
        hit_mask: BoardMask { raw_value: s.hit_mask.raw_value & !(1u128 << (i as u128)) },
        miss_mask: BoardMask { raw_value: s.miss_mask.raw_value | (1u128 << (i as u128)) },
        three_count_remaining: s.three_count_remaining,
        four_count_remaining: s.four_count_remaining,
    }
}

/// The hit masks of the complete layouts the enumeration reaches from `s`, in the order it
/// reaches them: at the lowest open cell it tries a ship of three across, of three down, of
/// four across, of four down, each anchored there, and then marks the cell a miss. `n` bounds
/// the depth: a branch counts only where it has fewer open cells than `n`, which every branch
/// of a state with `n` open cells has.
pub open spec fn completions(s: BoardState, n: nat) -> Seq<u128>
    decreases n, 1nat,
{
    if s.open_bits() == 0 {
        if s.three_count_remaining == 0 && s.four_count_remaining == 0 {
            seq![s.hit_mask.raw_value]
        } else {
            Seq::empty()
        }
    } else {
        let i = lowest_bit_from(s.open_bits(), 0);
        let p = Point { x: (i % 9) as i32, y: (i / 9) as i32 };
        branch_completions(placed(s, 3, p, Direction::Horizontal), n) + branch_completions(
            placed(s, 3, p, Direction::Vertical),
            n,
        ) + branch_completions(placed(s, 4, p, Direction::Horizontal), n) + branch_completions(
            placed(s, 4, p, Direction::Vertical),
            n,
        ) + branch_completions(Some(missed_at(s, i)), n)
    }
}

/// The complete layouts reached through one branch, where it has fewer open cells than `n`.
pub open spec fn branch_completions(o: Option<BoardState>, n: nat) -> Seq<u128>
    decreases n, 0nat,
{
    match o {
        Some(c) => {
            let m = cells_set(c.open_bits(), 81);
            if m < n {
                completions(c, m)
            } else {
                Seq::empty()
            }
        },
        None => Seq::empty(),
    }
}

proof fn lemma_lowest_bit_from(v: u128, i: int, j: int)
    requires
        0 <= i <= j < 128,
        has_bit(v, j),
        forall|k: int| i <= k < j ==> !has_bit(v, k),
    ensures
        lowest_bit_from(v, i) == j,
    decreases j - i,
{
    if i < j {
        lemma_lowest_bit_from(v, i + 1, j);
    }
}

/// Receives the complete layouts of an enumeration.
pub trait BoardSink {
    /// The hit masks received so far, in order. Every sink in verified code defines it; the
    /// default, which tracks nothing, only spares sinks written outside verified code from
    /// defining it, and no verified `save_board` can meet its contract with the default.
    open spec fn saved(&self) -> Seq<u128> {
        Seq::empty()
    }

    fn save_board(&mut self, board: &BoardState)
        requires
            board.is_complete_layout(),
        ensures
            final(self).saved() == old(self).saved().push(board.hit_mask.raw_value),
    ;
}

/// Every complete layout covers 27 cells of the board, and no cell off it.
pub proof fn lemma_complete_layout_cells(board: BoardState)
    requires
        board.is_complete_layout(),
    ensures
        cells_set(board.hit_mask.raw_value, 81) == 27,
        board.hit_mask.raw_value <= FULL_MASK,
{
}

/// The empty board starts an enumeration.
pub proof fn lemma_empty_is_enumeration_state(board: BoardState)
    requires
        board.hit_mask.raw_value == 0,
        board.miss_mask.raw_value == 0,
        board.three_count_remaining == 5,
        board.four_count_remaining == 3,
    ensures
        board.is_enumeration_state(),
{
    crate::bits::lemma_cells_set_zero(81);
    assert(0u128 & 0u128 == 0) by (bit_vector);
    assert(is_fleet_state(board, Seq::empty()));
}

/// In a complete layout, two hit cells that touch lie in one straight ship of three or four
/// cells: ships never touch one another.
pub proof fn lemma_complete_layout_touching(board: BoardState, x1: int, y1: int, x2: int, y2: int)
    requires
        board.is_complete_layout(),
        on_board(x1, y1),
        on_board(x2, y2),
        has_bit(board.hit_mask.raw_value, cell_index(x1, y1)),
        has_bit(board.hit_mask.raw_value, cell_index(x2, y2)),
        touching(x1, y1, x2, y2),
    ensures
        exists|s: Ship| valid_ship(s) && ship_covers(s, x1, y1) && ship_covers(s, x2, y2),
{
    let fleet = choose|fleet: Seq<Ship>| is_fleet_state(board, fleet);
    let j = choose|j: int| 0 <= j < fleet.len() && ship_covers(fleet[j], x1, y1);
    let k = choose|k: int| 0 <= k < fleet.len() && ship_covers(fleet[k], x2, y2);
    if j != k {
        assert(ships_apart(fleet[j], fleet[k]));
        assert(!touching(x1, y1, x2, y2));
    }
    assert(valid_ship(fleet[j]));
}

/// Placing a ship at an open cell keeps a state of the enumeration one, with fewer open cells.
proof fn lemma_placed_state(s: BoardState, length: int, p: Point, dir: Direction)
    requires
        s.is_enumeration_state(),
        p.in_bounds(),
        has_bit(s.open_bits(), p.index()),
        forall|j: int| 0 <= j < p.index() ==> !has_bit(s.open_bits(), j),
        placed(s, length, p, dir) is Some,
    ensures
        placed(s, length, p, dir)->Some_0.is_enumeration_state(),
        cells_set(placed(s, length, p, dir)->Some_0.open_bits(), 81) < cells_set(s.open_bits(), 81),
{
    let c = placed(s, length, p, dir)->Some_0;
    let h = s.hit_mask.raw_value;
    let hv = ship_hit_value(length, p.x as int, p.y as int, dir);
    lemma_ship_bits(length, p.x as int, p.y as int, dir, length);
    assert(hv == ship_bits(p.x as int, p.y as int, dir, length));
    lemma_cells_set_disjoint(h, hv, 81);
    assert(h <= 0x1_ffff_ffff_ffff_ffff_ffffu128 && hv <= 0x1_ffff_ffff_ffff_ffff_ffffu128 ==> h | hv <= 0x1_ffff_ffff_ffff_ffff_ffffu128) by (bit_vector);
    assert(in_ship(length, p.x as int, p.y as int, dir, p.x as int, p.y as int));
    assert(has_bit(hv, p.index()));
    assert forall|i: int| 0 <= i < 81 && has_bit(c.open_bits(), i) implies has_bit(s.open_bits(), i) by {
        let m = s.miss_mask.raw_value;
        lemma_bit_ops(h, m, i);
        lemma_bit_ops(c.hit_mask.raw_value, c.miss_mask.raw_value, i);
        lemma_bit_ops(h, hv, i);
        lemma_bit_ops(m, ship_outline_value(length, p.x as int, p.y as int, dir), i);
    }
    lemma_bit_ops(c.hit_mask.raw_value, c.miss_mask.raw_value, p.index());
    lemma_bit_ops(h, hv, p.index());
    lemma_bit_ops(h, s.miss_mask.raw_value, p.index());
    lemma_cells_set_subset(c.open_bits(), s.open_bits(), 81, p.index());
    lemma_fleet_extended(s, length, p, dir);
}

/// A cell near a valid ship touches one of the ship's cells.
proof fn lemma_touching_cell(a: Ship, x: int, y: int)
    requires
        valid_ship(a),
        near_ship(a.0, a.1, a.2, a.3, x, y),
    ensures
        exists|ax: int, ay: int| ship_covers(a, ax, ay) && touching(ax, ay, x, y),
{
    match a.3 {
        Direction::Horizontal => {
            assert((a.0 - 1) * a.3.dx() == a.0 - 1 && (a.0 - 1) * a.3.dy() == 0);
            let ax = if x < a.1 { a.1 } else if x > a.1 + a.0 - 1 { a.1 + a.0 - 1 } else { x };
            assert(ship_covers(a, ax, a.2) && touching(ax, a.2, x, y));
        },
        Direction::Vertical => {
            assert((a.0 - 1) * a.3.dx() == 0 && (a.0 - 1) * a.3.dy() == a.0 - 1);
            let ay = if y < a.2 { a.2 } else if y > a.2 + a.0 - 1 { a.2 + a.0 - 1 } else { y };
            assert(ship_covers(a, a.1, ay) && touching(a.1, ay, x, y));
        },
    }
}

/// A placed ship keeps apart from every ship already on the board, so the fleet grows by it.
proof fn lemma_fleet_extended(s: BoardState, length: int, p: Point, dir: Direction)
    requires
        s.is_enumeration_state(),
        p.in_bounds(),
        has_bit(s.open_bits(), p.index()),
        forall|j: int| 0 <= j < p.index() ==> !has_bit(s.open_bits(), j),
        placed(s, length, p, dir) is Some,
        forall|i: int| 0 <= i < 81 && has_bit(placed(s, length, p, dir)->Some_0.open_bits(), i) ==> has_bit(s.open_bits(), i),
    ensures
        exists|fleet: Seq<Ship>| is_fleet_state(placed(s, length, p, dir)->Some_0, fleet),
        placed(s, length, p, dir)->Some_0.miss_mask.raw_value <= FULL_MASK,
        placed(s, length, p, dir)->Some_0.hit_mask.raw_value & placed(s, length, p, dir)->Some_0.miss_mask.raw_value == 0,
{
    let c = placed(s, length, p, dir)->Some_0;
    let h = s.hit_mask.raw_value;
    let (px, py) = (p.x as int, p.y as int);
    let hv = ship_hit_value(length, px, py, dir);
    let ov = ship_outline_value(length, px, py, dir);
    let m = s.miss_mask.raw_value;
    let fleet = choose|fleet: Seq<Ship>| is_fleet_state(s, fleet);
    let b: Ship = (length, px, py, dir);
    let grown = fleet.push(b);
    lemma_ship_bits(length, px, py, dir, length);
    lemma_outline_bits(length, px, py, dir, 81);
    assert((length - 1) * dir.dx() == if dir is Horizontal { length - 1 } else { 0 });
    assert((length - 1) * dir.dy() == if dir is Horizontal { 0 } else { length - 1 });
    assert forall|k: int| 0 <= k < fleet.len() implies ships_apart(#[trigger] fleet[k], b) && ships_apart(b, fleet[k]) by {
        let a = fleet[k];
        assert(valid_ship(a));
        match a.3 {
            Direction::Horizontal => {
                assert(a.3.dx() == 1 && a.3.dy() == 0);
                assert((a.0 - 1) * 1 == a.0 - 1);
                assert((a.0 - 1) * 0 == 0);
            },
            Direction::Vertical => {
                assert(a.3.dx() == 0 && a.3.dy() == 1);
                assert((a.0 - 1) * 1 == a.0 - 1);
                assert((a.0 - 1) * 0 == 0);
            },
        }
        assert forall|x1: int, y1: int, x2: int, y2: int|
            #[trigger] ship_covers(a, x1, y1) && #[trigger] ship_covers(b, x2, y2) implies !touching(x1, y1, x2, y2) by {
            if touching(x1, y1, x2, y2) {
                assert(on_board(x1, y1));
                assert(has_bit(h, cell_index(x1, y1)));
                assert(near_ship(length, px, py, dir, x1, y1));
                if in_ship(length, px, py, dir, x1, y1) {
                    lemma_bit_witness(h, hv, cell_index(x1, y1));
                } else {
                    lemma_bit_witness(h, ov, cell_index(x1, y1));
                }
            }
        }
    }
    assert forall|j: int, k: int| 0 <= j < grown.len() && 0 <= k < grown.len() && j != k implies ships_apart(#[trigger] grown[j], #[trigger] grown[k]) by {
        if j < fleet.len() && k < fleet.len() {
            assert(grown[j] == fleet[j] && grown[k] == fleet[k]);
        } else if j < fleet.len() {
            assert(grown[k] == b && grown[j] == fleet[j]);
        } else {
            assert(grown[j] == b && grown[k] == fleet[k]);
        }
    }
    assert forall|k: int| 0 <= k < grown.len() implies valid_ship(#[trigger] grown[k]) by {
        if k < fleet.len() {
            assert(grown[k] == fleet[k]);
        }
    }
    assert forall|x: int, y: int| on_board(x, y) implies (#[trigger] has_bit(c.hit_mask.raw_value, cell_index(x, y)) <==> exists|k: int|
        0 <= k < grown.len() && ship_covers(#[trigger] grown[k], x, y)) by {
        lemma_bit_ops(h, hv, cell_index(x, y));
        if has_bit(h, cell_index(x, y)) {
            let k = choose|k: int| 0 <= k < fleet.len() && ship_covers(fleet[k], x, y);
            assert(grown[k] == fleet[k]);
        }
        if in_ship(length, px, py, dir, x, y) {
            assert(grown[fleet.len() as int] == b);
        }
        if exists|k: int| 0 <= k < grown.len() && ship_covers(#[trigger] grown[k], x, y) {
            let k = choose|k: int| 0 <= k < grown.len() && ship_covers(grown[k], x, y);
            if k < fleet.len() {
                assert(grown[k] == fleet[k]);
            }
        }
    }
    assert(is_fleet_layout(c.hit_mask.raw_value, grown));
    // Misses stay on the board.
    assert(m <= 0x1_ffff_ffff_ffff_ffff_ffffu128 && ov <= 0x1_ffff_ffff_ffff_ffff_ffffu128 ==> m | ov <= 0x1_ffff_ffff_ffff_ffff_ffffu128) by (bit_vector);
    // Every miss is still accounted for.
    assert forall|x: int, y: int|
        on_board(x, y) && #[trigger] has_bit(c.miss_mask.raw_value, cell_index(x, y)) implies (exists|k: int|
            0 <= k < grown.len() && near_ship(grown[k].0, grown[k].1, grown[k].2, grown[k].3, x, y))
            || c.decided_through(cell_index(x, y)) by {
        let ci = cell_index(x, y);
        crate::common_masks::lemma_cell_index_injective(x, y, 0, 0);
        lemma_bit_ops(m, ov, ci);
        if has_bit(ov, ci) {
            assert(grown[fleet.len() as int] == b);
        } else {
            if exists|k: int| 0 <= k < fleet.len() && near_ship(fleet[k].0, fleet[k].1, fleet[k].2, fleet[k].3, x, y) {
                let k = choose|k: int| 0 <= k < fleet.len() && near_ship(fleet[k].0, fleet[k].1, fleet[k].2, fleet[k].3, x, y);
                assert(grown[k] == fleet[k]);
            } else {
                assert(s.decided_through(ci));
                assert forall|j: int| 0 <= j <= ci implies !#[trigger] has_bit(c.open_bits(), j) by {
                    assert(!has_bit(s.open_bits(), j));
                }
            }
        }
    }
    assert(is_fleet_state(c, grown));
    // Hits and misses stay apart.
    assert(h <= 0x1_ffff_ffff_ffff_ffff_ffffu128 && hv <= 0x1_ffff_ffff_ffff_ffff_ffffu128 ==> h | hv <= 0x1_ffff_ffff_ffff_ffff_ffffu128) by (bit_vector);
    let hm = c.hit_mask.raw_value & c.miss_mask.raw_value;
    assert forall|i: int| 0 <= i < 128 implies !#[trigger] has_bit(hm, i) by {
        lemma_bit_ops(c.hit_mask.raw_value, c.miss_mask.raw_value, i);
        lemma_bit_ops(h, hv, i);
        lemma_bit_ops(m, ov, i);
        lemma_bit_ops(h, m, i);
        if i < 81 {
            let x = i % 9;
            let y = i / 9;
            assert(on_board(x, y) && cell_index(x, y) == i);
            if has_bit(hm, i) {
                if has_bit(h, i) && has_bit(m, i) {
                    crate::bits::lemma_bit_witness(h, m, i);
                } else if has_bit(h, i) && has_bit(ov, i) {
                    crate::bits::lemma_bit_witness(h, ov, i);
                } else if has_bit(hv, i) && has_bit(ov, i) {
                    assert(in_ship(length, px, py, dir, x, y));
                } else {
                    assert(has_bit(hv, i) && has_bit(m, i));
                    assert(in_ship(length, px, py, dir, x, y));
                    assert(i >= p.index());
                    if exists|k: int| 0 <= k < fleet.len() && near_ship(fleet[k].0, fleet[k].1, fleet[k].2, fleet[k].3, x, y) {
                        let k = choose|k: int| 0 <= k < fleet.len() && near_ship(fleet[k].0, fleet[k].1, fleet[k].2, fleet[k].3, x, y);
                        let a = fleet[k];
                        lemma_touching_cell(a, x, y);
                        let (ax, ay) = choose|ax: int, ay: int| ship_covers(a, ax, ay) && touching(ax, ay, x, y);
                        assert(valid_ship(a));
                        match a.3 {
                            Direction::Horizontal => {
                                assert((a.0 - 1) * a.3.dx() == a.0 - 1 && (a.0 - 1) * a.3.dy() == 0);
                            },
                            Direction::Vertical => {
                                assert((a.0 - 1) * a.3.dx() == 0 && (a.0 - 1) * a.3.dy() == a.0 - 1);
                            },
                        }
                        assert(on_board(ax, ay));
                        assert(has_bit(h, cell_index(ax, ay)));
                        assert(near_ship(length, px, py, dir, ax, ay));
                        if in_ship(length, px, py, dir, ax, ay) {
                            lemma_bit_witness(h, hv, cell_index(ax, ay));
                        } else {
                            lemma_bit_witness(h, ov, cell_index(ax, ay));
                        }
                    } else {
                        assert(s.decided_through(i));
                        assert(!has_bit(s.open_bits(), p.index()));
                    }
                }
            }
        } else {
            lemma_bit_ops(c.hit_mask.raw_value, 0, i);
        }
    }
    crate::bits::lemma_zero_from_bits(hm);
}

/// Marking an open cell as a miss keeps a state of the enumeration one, with fewer open cells.
proof fn lemma_missed_state(s: BoardState, t: BoardState, p: Point)
    requires
        s.is_enumeration_state(),
        p.in_bounds(),
        has_bit(s.open_bits(), p.index()),
        forall|j: int| 0 <= j < p.index() ==> !has_bit(s.open_bits(), j),
        t.three_count_remaining == s.three_count_remaining,
        t.four_count_remaining == s.four_count_remaining,
        t.hit_mask.raw_value == s.hit_mask.raw_value & !(1u128 << p.index()),
        t.miss_mask.raw_value == s.miss_mask.raw_value | (1u128 << p.index()),
    ensures
        t.is_enumeration_state(),
        cells_set(t.open_bits(), 81) < cells_set(s.open_bits(), 81),
{
    let h = s.hit_mask.raw_value;
    let m = s.miss_mask.raw_value;
    let q = p.index() as u128;
    lemma_bit_ops(h, m, p.index());
    assert forall|i: int| 0 <= i < 81 implies has_bit(t.hit_mask.raw_value, i) == has_bit(h, i) by {
        crate::bits::lemma_bit_set(h, q, i as u128);
    }
    lemma_cells_set_same(t.hit_mask.raw_value, h, 81);
    assert(h <= 0x1_ffff_ffff_ffff_ffff_ffffu128 ==> h & !(1u128 << q) <= 0x1_ffff_ffff_ffff_ffff_ffffu128) by (bit_vector);
    assert forall|i: int| 0 <= i < 81 && has_bit(t.open_bits(), i) implies has_bit(s.open_bits(), i) by {
        lemma_bit_ops(h, m, i);
        lemma_bit_ops(t.hit_mask.raw_value, t.miss_mask.raw_value, i);
        crate::bits::lemma_bit_set(h, q, i as u128);
        crate::bits::lemma_bit_set(m, q, i as u128);
    }
    lemma_bit_ops(t.hit_mask.raw_value, t.miss_mask.raw_value, p.index());
    crate::bits::lemma_bit_set(m, q, q);
    lemma_cells_set_subset(t.open_bits(), s.open_bits(), 81, p.index());
    let fleet = choose|fleet: Seq<Ship>| is_fleet_state(s, fleet);
    assert forall|x: int, y: int| on_board(x, y) implies #[trigger] has_bit(t.hit_mask.raw_value, cell_index(x, y)) == has_bit(h, cell_index(x, y)) by {
        crate::common_masks::lemma_cell_index_injective(x, y, 0, 0);
    }
    assert(is_fleet_layout(t.hit_mask.raw_value, fleet));
    assert forall|x: int, y: int|
        on_board(x, y) && #[trigger] has_bit(t.miss_mask.raw_value, cell_index(x, y)) implies (exists|k: int|
            0 <= k < fleet.len() && near_ship(fleet[k].0, fleet[k].1, fleet[k].2, fleet[k].3, x, y))
            || t.decided_through(cell_index(x, y)) by {
        let ci = cell_index(x, y);
        crate::common_masks::lemma_cell_index_injective(x, y, 0, 0);
        crate::bits::lemma_bit_set(m, q, ci as u128);
        if ci == p.index() {
            assert forall|j: int| 0 <= j <= ci implies !#[trigger] has_bit(t.open_bits(), j) by {
                if j < ci {
                    assert(!has_bit(s.open_bits(), j));
                }
            }
        } else if !(exists|k: int| 0 <= k < fleet.len() && near_ship(fleet[k].0, fleet[k].1, fleet[k].2, fleet[k].3, x, y)) {
            assert(ci != q);
            assert(has_bit(m, ci));
            assert(s.decided_through(ci));
            assert forall|j: int| 0 <= j <= ci implies !#[trigger] has_bit(t.open_bits(), j) by {
                assert(!has_bit(s.open_bits(), j));
            }
        }
    }
    assert(is_fleet_state(t, fleet));
    assert(m <= 0x1_ffff_ffff_ffff_ffff_ffffu128 && q < 81 ==> m | (1u128 << q) <= 0x1_ffff_ffff_ffff_ffff_ffffu128) by (bit_vector);
    assert(h & m == 0 ==> (h & !(1u128 << q)) & (m | (1u128 << q)) == 0) by (bit_vector);
}

/// A count held in 64 bits, saturating.
pub open spec fn saturated(n: nat) -> u64 {
    if n > u64::MAX {
        u64::MAX
    } else {
        n as u64
    }
}

/// Visits every complete layout reachable from `state`, deciding the lowest open cell at each
/// step: a ship of three or of four anchored there, across or down, or a miss. Each complete
/// layout goes to `save_board`; returns how many there were, saturating at `u64::MAX`.
#[verifier::rlimit(60)]
pub fn count_of_valid_endings<S: BoardSink>(state: &BoardState, masks: &CommonMasks, save_board: &mut S) -> (r: u64)
    requires
        masks.wf(),
        state.is_enumeration_state(),
    ensures
        final(save_board).saved() == old(save_board).saved() + completions(*state, cells_set(state.open_bits(), 81)),
        r == saturated(completions(*state, cells_set(state.open_bits(), 81)).len()),
    decreases cells_set(state.open_bits(), 81), 1nat,
{
    let ghost n = cells_set(state.open_bits(), 81);
    let ghost start = save_board.saved();
    let open = state.open_mask();
    match open.first_set_position() {
        Some(point) => {
            let ghost i = point.index();
            proof {
                lemma_lowest_bit_from(state.open_bits(), 0, i);
            }
            let o1 = state.placing_ship(masks, 3, point, Direction::Horizontal);
            let o2 = state.placing_ship(masks, 3, point, Direction::Vertical);
            let o3 = state.placing_ship(masks, 4, point, Direction::Horizontal);
            let o4 = state.placing_ship(masks, 4, point, Direction::Vertical);
            let mut unplaced_state = *state;
            unplaced_state.set(point, CellState::Miss);
            proof {
                if o1 is Some {
                    lemma_placed_state(*state, 3, point, Direction::Horizontal);
                }
                if o2 is Some {
                    lemma_placed_state(*state, 3, point, Direction::Vertical);
                }
                if o3 is Some {
                    lemma_placed_state(*state, 4, point, Direction::Horizontal);
                }
                if o4 is Some {
                    lemma_placed_state(*state, 4, point, Direction::Vertical);
                }
                lemma_missed_state(*state, unplaced_state, point);
                assert(unplaced_state == missed_at(*state, i));
            }
            let c1 = count_branch(o1, masks, save_board, Ghost(n));
            let c2 = count_branch(o2, masks, save_board, Ghost(n));
            let c3 = count_branch(o3, masks, save_board, Ghost(n));
            let c4 = count_branch(o4, masks, save_board, Ghost(n));
            let c5 = count_branch(Some(unplaced_state), masks, save_board, Ghost(n));
            proof {
                let b1 = branch_completions(o1, n);
                let b2 = branch_completions(o2, n);
                let b3 = branch_completions(o3, n);
                let b4 = branch_completions(o4, n);
                let b5 = branch_completions(Some(unplaced_state), n);
                assert(completions(*state, n) == b1 + b2 + b3 + b4 + b5);
                assert(start + b1 + b2 + b3 + b4 + b5 =~= start + (b1 + b2 + b3 + b4 + b5));
            }
            c1.saturating_add(c2).saturating_add(c3).saturating_add(c4).saturating_add(c5)
        },
        None => {
            if state.three_count_remaining() == 0 && state.four_count_remaining() == 0 {
                save_board.save_board(state);
                1
            } else {
                0
            }
        },
    }
}

/// Enumerates one branch of a step, where there is one.
fn count_branch<S: BoardSink>(o: Option<BoardState>, masks: &CommonMasks, save_board: &mut S, n: Ghost<nat>) -> (r: u64)
    requires
        masks.wf(),
        o matches Some(c) ==> c.is_enumeration_state() && cells_set(c.open_bits(), 81) < n@,
    ensures
        final(save_board).saved() == old(save_board).saved() + branch_completions(o, n@),
        r == saturated(branch_completions(o, n@).len()),
    decreases n@, 0nat,
{
    match o {
        Some(c) => count_of_valid_endings(&c, masks, save_board),
        None => {
            assert(old(save_board).saved() + Seq::<u128>::empty() =~= old(save_board).saved());
            0
        },
    }
}

/// The hit mask of a complete fleet layout: 27 cells, all on the board, that are the cells of
/// ships no two of which touch.
pub open spec fn is_layout_board(b: u128) -> bool {
    &&& b <= FULL_MASK
    &&& cells_set(b, 81) == 27
    &&& exists|fleet: Seq<Ship>| is_fleet_layout(b, fleet)
}

proof fn lemma_lowest_open(v: u128)
    requires
        v != 0,
        v <= FULL_MASK,
    ensures
        0 <= lowest_bit_from(v, 0) < 81,
        has_bit(v, lowest_bit_from(v, 0)),
        forall|j: int| 0 <= j < lowest_bit_from(v, 0) ==> !has_bit(v, j),
{
    if forall|i: int| 0 <= i < 128 ==> !#[trigger] has_bit(v, i) {
        crate::bits::lemma_zero_from_bits(v);
    }
    let i = choose|i: int| 0 <= i < 128 && has_bit(v, i);
    lemma_lowest_below(v, 0, i);
    let l = lowest_bit_from(v, 0);
    crate::bits::lemma_bit_ops(v, 0, l);
}

proof fn lemma_lowest_below(v: u128, from: int, i: int)
    requires
        0 <= from <= i < 128,
        has_bit(v, i),
    ensures
        from <= lowest_bit_from(v, from) <= i,
        has_bit(v, lowest_bit_from(v, from)),
        forall|j: int| from <= j < lowest_bit_from(v, from) ==> !has_bit(v, j),
    decreases i - from,
{
    if !has_bit(v, from) {
        lemma_lowest_below(v, from + 1, i);
    }
}

/// Every board the enumeration reaches from a state of the enumeration is a complete fleet
/// layout.
pub proof fn lemma_completions_are_layouts(s: BoardState, n: nat)
    requires
        s.is_enumeration_state(),
    ensures
        forall|k: int| 0 <= k < completions(s, n).len() ==> is_layout_board(#[trigger] completions(s, n)[k]),
    decreases n,
{
    if s.open_bits() == 0 {
        if s.three_count_remaining == 0 && s.four_count_remaining == 0 {
            let fleet = choose|fleet: Seq<Ship>| is_fleet_state(s, fleet);
            assert(is_layout_board(s.hit_mask.raw_value));
        }
    } else {
        let (h, m) = (s.hit_mask.raw_value, s.miss_mask.raw_value);
        assert(0x1_ffff_ffff_ffff_ffff_ffffu128 & !h & !m <= 0x1_ffff_ffff_ffff_ffff_ffffu128) by (bit_vector);
        lemma_lowest_open(s.open_bits());
        let i = lowest_bit_from(s.open_bits(), 0);
        let p = Point { x: (i % 9) as i32, y: (i / 9) as i32 };
        assert(p.index() == i && p.in_bounds());
        let b1 = branch_completions(placed(s, 3, p, Direction::Horizontal), n);
        let b2 = branch_completions(placed(s, 3, p, Direction::Vertical), n);
        let b3 = branch_completions(placed(s, 4, p, Direction::Horizontal), n);
        let b4 = branch_completions(placed(s, 4, p, Direction::Vertical), n);
        let t = missed_at(s, i);
        let b5 = branch_completions(Some(t), n);
        lemma_branch_layouts(s, 3, p, Direction::Horizontal, n);
        lemma_branch_layouts(s, 3, p, Direction::Vertical, n);
        lemma_branch_layouts(s, 4, p, Direction::Horizontal, n);
        lemma_branch_layouts(s, 4, p, Direction::Vertical, n);
        lemma_missed_state(s, t, p);
        let mt = cells_set(t.open_bits(), 81);
        if mt < n {
            lemma_completions_are_layouts(t, mt);
            assert(b5 == completions(t, mt));
        } else {
            assert(b5.len() == 0);
        }
        let all = b1 + b2 + b3 + b4 + b5;
        assert(completions(s, n) == all);
        assert forall|k: int| 0 <= k < all.len() implies is_layout_board(#[trigger] all[k]) by {
            if k < b1.len() {
                assert(all[k] == b1[k]);
                assert(is_layout_board(b1[k]));
            } else if k < b1.len() + b2.len() {
                assert(all[k] == b2[k - b1.len()]);
                assert(is_layout_board(b2[k - b1.len()]));
            } else if k < b1.len() + b2.len() + b3.len() {
                assert(all[k] == b3[k - b1.len() - b2.len()]);
                assert(is_layout_board(b3[k - b1.len() - b2.len()]));
            } else if k < b1.len() + b2.len() + b3.len() + b4.len() {
                assert(all[k] == b4[k - b1.len() - b2.len() - b3.len()]);
                assert(is_layout_board(b4[k - b1.len() - b2.len() - b3.len()]));
            } else {
                assert(all[k] == b5[k - b1.len() - b2.len() - b3.len() - b4.len()]);
                assert(is_layout_board(b5[k - b1.len() - b2.len() - b3.len() - b4.len()]));
            }
        }
    }
}

proof fn lemma_branch_layouts(s: BoardState, length: int, p: Point, dir: Direction, n: nat)
    requires
        s.is_enumeration_state(),
        p.in_bounds(),
        has_bit(s.open_bits(), p.index()),
        forall|j: int| 0 <= j < p.index() ==> !has_bit(s.open_bits(), j),
    ensures
        forall|k: int|
            0 <= k < branch_completions(placed(s, length, p, dir), n).len() ==> is_layout_board(
                #[trigger] branch_completions(placed(s, length, p, dir), n)[k],
            ),
    decreases n, 0nat,
{
    if placed(s, length, p, dir) is Some {
        lemma_placed_state(s, length, p, dir);
        let c = placed(s, length, p, dir)->Some_0;
        let m = cells_set(c.open_bits(), 81);
        if m < n {
            lemma_completions_are_layouts(c, m);
            assert(branch_completions(placed(s, length, p, dir), n) == completions(c, m));
        } else {
            assert(branch_completions(placed(s, length, p, dir), n).len() == 0);
        }
    } else {
        assert(branch_completions(placed(s, length, p, dir), n).len() == 0);
    }
}

/// A board that keeps every hit cell of `s` and none of its missed cells.
pub open spec fn extends(b: u128, s: BoardState) -> bool {
    forall|i: int|
        0 <= i < 81 ==> (has_bit(s.hit_mask.raw_value, i) ==> #[trigger] has_bit(b, i)) && (has_bit(
            s.miss_mask.raw_value,
            i,
        ) ==> !has_bit(b, i))
}

/// No board of `a` equals a board of `b`.
pub open spec fn apart(a: Seq<u128>, b: Seq<u128>) -> bool {
    forall|i: int, j: int| 0 <= i < a.len() && 0 <= j < b.len() ==> a[i] != b[j]
}

proof fn lemma_concat_no_duplicates(a: Seq<u128>, b: Seq<u128>)
    requires
        a.no_duplicates(),
        b.no_duplicates(),
        apart(a, b),
    ensures
        (a + b).no_duplicates(),
{
    let c = a + b;
    assert forall|i: int, j: int| 0 <= i < c.len() && 0 <= j < c.len() && i != j implies c[i] != c[j] by {
        if i < a.len() && j >= a.len() {
            assert(c[j] == b[j - a.len()]);
        } else if i >= a.len() && j < a.len() {
            assert(c[i] == b[i - a.len()]);
        } else if i >= a.len() {
            assert(c[i] == b[i - a.len()] && c[j] == b[j - a.len()]);
        }
    }
}

proof fn lemma_concat_apart(a: Seq<u128>, b: Seq<u128>, c: Seq<u128>)
    requires
        apart(a, c),
        apart(b, c),
    ensures
        apart(a + b, c),
{
    assert forall|i: int, j: int| 0 <= i < (a + b).len() && 0 <= j < c.len() implies (a + b)[i] != c[j] by {
        if i >= a.len() {
            assert((a + b)[i] == b[i - a.len()]);
        }
    }
}

/// Boards that all hold cell `ci` are apart from boards that all lack it.
proof fn lemma_apart_by_cell(a: Seq<u128>, b: Seq<u128>, ci: int)
    requires
        forall|k: int| 0 <= k < a.len() ==> has_bit(#[trigger] a[k], ci),
        forall|k: int| 0 <= k < b.len() ==> !has_bit(#[trigger] b[k], ci),
    ensures
        apart(a, b),
        apart(b, a),
{
    assert forall|i: int, j: int| 0 <= i < a.len() && 0 <= j < b.len() implies a[i] != b[j] by {
        assert(has_bit(a[i], ci) && !has_bit(b[j], ci));
    }
    assert forall|i: int, j: int| 0 <= i < b.len() && 0 <= j < a.len() implies b[i] != a[j] by {
        assert(has_bit(a[j], ci) && !has_bit(b[i], ci));
    }
}

/// The boards reached from one branch: all distinct, all extending the branch's state.
pub open spec fn branch_facts(o: Option<BoardState>, b: Seq<u128>) -> bool {
    &&& b.no_duplicates()
    &&& o matches Some(c) ==> forall|k: int| 0 <= k < b.len() ==> extends(#[trigger] b[k], c)
    &&& o is None ==> b.len() == 0
}

/// The enumeration reaches each board at most once, and every board it reaches keeps the
/// hit and the missed cells of the state it starts from.
pub proof fn lemma_completions_distinct(s: BoardState, n: nat)
    requires
        s.is_enumeration_state(),
    ensures
        completions(s, n).no_duplicates(),
        forall|k: int| 0 <= k < completions(s, n).len() ==> extends(#[trigger] completions(s, n)[k], s),
    decreases n, 1nat,
{
    let h = s.hit_mask.raw_value;
    let m = s.miss_mask.raw_value;
    if s.open_bits() == 0 {
        if s.three_count_remaining == 0 && s.four_count_remaining == 0 {
            let q = completions(s, n);
            assert(q == seq![h]);
            assert forall|i: int| 0 <= i < 81 implies (has_bit(h, i) ==> #[trigger] has_bit(h, i)) && (has_bit(m, i) ==> !has_bit(h, i)) by {
                if has_bit(m, i) && has_bit(h, i) {
                    lemma_bit_witness(h, m, i);
                }
            }
            assert(extends(q[0], s));
        }
    } else {
        assert(0x1_ffff_ffff_ffff_ffff_ffffu128 & !h & !m <= 0x1_ffff_ffff_ffff_ffff_ffffu128) by (bit_vector);
        lemma_lowest_open(s.open_bits());
        let i = lowest_bit_from(s.open_bits(), 0);
        let p = Point { x: (i % 9) as i32, y: (i / 9) as i32 };
        let (px, py) = (p.x as int, p.y as int);
        assert(p.index() == i && p.in_bounds());
        let o1 = placed(s, 3, p, Direction::Horizontal);
        let o2 = placed(s, 3, p, Direction::Vertical);
        let o3 = placed(s, 4, p, Direction::Horizontal);
        let o4 = placed(s, 4, p, Direction::Vertical);
        let t = missed_at(s, i);
        let b1 = branch_completions(o1, n);
        let b2 = branch_completions(o2, n);
        let b3 = branch_completions(o3, n);
        let b4 = branch_completions(o4, n);
        let b5 = branch_completions(Some(t), n);
        lemma_branch_distinct(s, 3, p, Direction::Horizontal, n);
        lemma_branch_distinct(s, 3, p, Direction::Vertical, n);
        lemma_branch_distinct(s, 4, p, Direction::Horizontal, n);
        lemma_branch_distinct(s, 4, p, Direction::Vertical, n);
        lemma_missed_state(s, t, p);
        let mt = cells_set(t.open_bits(), 81);
        if mt < n {
            lemma_completions_distinct(t, mt);
            assert(b5 == completions(t, mt));
        } else {
            assert(b5.len() == 0);
        }
        // Every board of a placement branch holds the anchor; no board of the miss branch does.
        crate::bits::lemma_bit_set(m, i as u128, i as u128);
        assert(has_bit(t.miss_mask.raw_value, i));
        assert forall|k: int| 0 <= k < b5.len() implies !has_bit(#[trigger] b5[k], i) by {
            assert(extends(b5[k], t));
        }
        lemma_anchor_in_branch(s, 3, p, Direction::Horizontal, b1);
        lemma_anchor_in_branch(s, 3, p, Direction::Vertical, b2);
        lemma_anchor_in_branch(s, 4, p, Direction::Horizontal, b3);
        lemma_anchor_in_branch(s, 4, p, Direction::Vertical, b4);
        lemma_apart_by_cell(b1, b5, i);
        lemma_apart_by_cell(b2, b5, i);
        lemma_apart_by_cell(b3, b5, i);
        lemma_apart_by_cell(b4, b5, i);
        // Two placements at the anchor differ in a cell one covers and the other outlines.
        lemma_placements_apart(s, p, 3, Direction::Horizontal, 3, Direction::Vertical, px + 1, py, b1, b2);
        lemma_placements_apart(s, p, 4, Direction::Horizontal, 3, Direction::Horizontal, px + 3, py, b3, b1);
        lemma_placements_apart(s, p, 3, Direction::Horizontal, 4, Direction::Vertical, px + 1, py, b1, b4);
        lemma_placements_apart(s, p, 4, Direction::Horizontal, 3, Direction::Vertical, px + 1, py, b3, b2);
        lemma_placements_apart(s, p, 4, Direction::Vertical, 3, Direction::Vertical, px, py + 3, b4, b2);
        lemma_placements_apart(s, p, 4, Direction::Horizontal, 4, Direction::Vertical, px + 1, py, b3, b4);
        lemma_concat_no_duplicates(b1, b2);
        lemma_concat_apart(b1, b2, b3);
        lemma_concat_no_duplicates(b1 + b2, b3);
        lemma_concat_apart(b1, b2, b4);
        lemma_concat_apart(b1 + b2, b3, b4);
        lemma_concat_no_duplicates(b1 + b2 + b3, b4);
        lemma_concat_apart(b1, b2, b5);
        lemma_concat_apart(b1 + b2, b3, b5);
        lemma_concat_apart(b1 + b2 + b3, b4, b5);
        lemma_concat_no_duplicates(b1 + b2 + b3 + b4, b5);
        let all = b1 + b2 + b3 + b4 + b5;
        assert(completions(s, n) == all);
        // Each child keeps what its parent decided.
        lemma_child_extends(s, o1);
        lemma_child_extends(s, o2);
        lemma_child_extends(s, o3);
        lemma_child_extends(s, o4);
        lemma_bit_ops(h, m, i);
        assert forall|j: int| 0 <= j < 81 && has_bit(h, j) implies has_bit(t.hit_mask.raw_value, j) by {
            crate::bits::lemma_bit_set(h, i as u128, j as u128);
        }
        assert forall|j: int| 0 <= j < 81 && has_bit(m, j) implies has_bit(t.miss_mask.raw_value, j) by {
            crate::bits::lemma_bit_set(m, i as u128, j as u128);
        }
        lemma_child_extends(s, Some(t));
        assert forall|k: int| 0 <= k < all.len() implies extends(#[trigger] all[k], s) by {
            if k < b1.len() {
                assert(all[k] == b1[k]);
                assert(extends(b1[k], o1->Some_0));
            } else if k < b1.len() + b2.len() {
                assert(all[k] == b2[k - b1.len()]);
                assert(extends(b2[k - b1.len()], o2->Some_0));
            } else if k < b1.len() + b2.len() + b3.len() {
                assert(all[k] == b3[k - b1.len() - b2.len()]);
                assert(extends(b3[k - b1.len() - b2.len()], o3->Some_0));
            } else if k < b1.len() + b2.len() + b3.len() + b4.len() {
                assert(all[k] == b4[k - b1.len() - b2.len() - b3.len()]);
                assert(extends(b4[k - b1.len() - b2.len() - b3.len()], o4->Some_0));
            } else {
                assert(all[k] == b5[k - b1.len() - b2.len() - b3.len() - b4.len()]);
                assert(extends(b5[k - b1.len() - b2.len() - b3.len() - b4.len()], t));
            }
        }
    }
}

/// A child's hit and missed cells include its parent's, so what extends the child extends
/// the parent.
proof fn lemma_child_extends(s: BoardState, o: Option<BoardState>)
    requires
        o matches Some(c) ==> {
            &&& forall|i: int| 0 <= i < 81 && has_bit(s.hit_mask.raw_value, i) ==> has_bit(c.hit_mask.raw_value, i)
            &&& forall|i: int| 0 <= i < 81 && has_bit(s.miss_mask.raw_value, i) ==> has_bit(c.miss_mask.raw_value, i)
        },
    ensures
        o matches Some(c) ==> forall|b: u128| extends(b, c) ==> extends(b, s),
{
}

proof fn lemma_branch_distinct(s: BoardState, length: int, p: Point, dir: Direction, n: nat)
    requires
        s.is_enumeration_state(),
        p.in_bounds(),
        has_bit(s.open_bits(), p.index()),
        forall|j: int| 0 <= j < p.index() ==> !has_bit(s.open_bits(), j),
    ensures
        branch_facts(placed(s, length, p, dir), branch_completions(placed(s, length, p, dir), n)),
        placed(s, length, p, dir) matches Some(c) ==> {
            &&& forall|i: int| 0 <= i < 81 && has_bit(s.hit_mask.raw_value, i) ==> has_bit(c.hit_mask.raw_value, i)
            &&& forall|i: int| 0 <= i < 81 && has_bit(s.miss_mask.raw_value, i) ==> has_bit(c.miss_mask.raw_value, i)
        },
    decreases n, 0nat,
{
    let o = placed(s, length, p, dir);
    let b = branch_completions(o, n);
    if o is Some {
        lemma_placed_state(s, length, p, dir);
        let c = o->Some_0;
        let mc = cells_set(c.open_bits(), 81);
        if mc < n {
            lemma_completions_distinct(c, mc);
            assert(b == completions(c, mc));
        } else {
            assert(b.len() == 0);
        }
        let hv = ship_hit_value(length, p.x as int, p.y as int, dir);
        let ov = ship_outline_value(length, p.x as int, p.y as int, dir);
        assert forall|i: int| 0 <= i < 81 implies (has_bit(s.hit_mask.raw_value, i) ==> has_bit(c.hit_mask.raw_value, i))
            && (has_bit(s.miss_mask.raw_value, i) ==> has_bit(c.miss_mask.raw_value, i)) by {
            lemma_bit_ops(s.hit_mask.raw_value, hv, i);
            lemma_bit_ops(s.miss_mask.raw_value, ov, i);
        }
    } else {
        assert(b.len() == 0);
    }
}

/// Every board of a placement branch holds the anchor cell.
proof fn lemma_anchor_in_branch(s: BoardState, length: int, p: Point, dir: Direction, b: Seq<u128>)
    requires
        p.in_bounds(),
        branch_facts(placed(s, length, p, dir), b),
    ensures
        forall|k: int| 0 <= k < b.len() ==> has_bit(#[trigger] b[k], p.index()),
{
    if placed(s, length, p, dir) is Some {
        let c = placed(s, length, p, dir)->Some_0;
        let hv = ship_hit_value(length, p.x as int, p.y as int, dir);
        lemma_ship_bits(length, p.x as int, p.y as int, dir, length);
        assert(in_ship(length, p.x as int, p.y as int, dir, p.x as int, p.y as int));
        lemma_bit_ops(s.hit_mask.raw_value, hv, p.index());
        assert forall|k: int| 0 <= k < b.len() implies has_bit(#[trigger] b[k], p.index()) by {
            assert(extends(b[k], c));
        }
    }
}

/// Where two placements at one anchor both succeed, a cell `(x, y)` covered by the first and
/// outlined by the second sets their boards apart.
proof fn lemma_placements_apart(
    s: BoardState,
    p: Point,
    l1: int,
    d1: Direction,
    l2: int,
    d2: Direction,
    x: int,
    y: int,
    b1: Seq<u128>,
    b2: Seq<u128>,
)
    requires
        p.in_bounds(),
        valid_length(l1),
        valid_length(l2),
        branch_facts(placed(s, l1, p, d1), b1),
        branch_facts(placed(s, l2, p, d2), b2),
        placed(s, l1, p, d1) is Some && placed(s, l2, p, d2) is Some ==> {
            &&& on_board(x, y)
            &&& in_ship(l1, p.x as int, p.y as int, d1, x, y)
            &&& near_ship(l2, p.x as int, p.y as int, d2, x, y)
            &&& !in_ship(l2, p.x as int, p.y as int, d2, x, y)
        },
    ensures
        apart(b1, b2),
        apart(b2, b1),
{
    if placed(s, l1, p, d1) is Some && placed(s, l2, p, d2) is Some {
        let (px, py) = (p.x as int, p.y as int);
        let c1 = placed(s, l1, p, d1)->Some_0;
        let c2 = placed(s, l2, p, d2)->Some_0;
        let ci = cell_index(x, y);
        lemma_ship_bits(l1, px, py, d1, l1);
        lemma_outline_bits(l2, px, py, d2, 81);
        crate::common_masks::lemma_cell_index_injective(x, y, 0, 0);
        lemma_bit_ops(s.hit_mask.raw_value, ship_hit_value(l1, px, py, d1), ci);
        lemma_bit_ops(s.miss_mask.raw_value, ship_outline_value(l2, px, py, d2), ci);
        assert(has_bit(c1.hit_mask.raw_value, ci));
        assert(has_bit(c2.miss_mask.raw_value, ci));
        assert forall|k: int| 0 <= k < b1.len() implies has_bit(#[trigger] b1[k], ci) by {
            assert(extends(b1[k], c1));
        }
        assert forall|k: int| 0 <= k < b2.len() implies !has_bit(#[trigger] b2[k], ci) by {
            assert(extends(b2[k], c2));
        }
        lemma_apart_by_cell(b1, b2, ci);
    }
}

/// Keeps the canonical layouts of an enumeration, in the order they come, and counts all.
pub struct CanonicalCollector {
    /// The hit masks of the canonical layouts received.
    pub boards: Vec<u128>,
    /// How many layouts were received, saturating.
    pub total: u64,
    /// Every hit mask received, in order.
    pub received: Ghost<Seq<u128>>,
}

impl CanonicalCollector {
    /// Every board kept is a complete layout's hit mask and the least of its orbit.
    /// The boards kept are exactly the orbit minima among those received, in the order
    /// received.
    pub open spec fn wf(&self) -> bool {
        &&& self.boards@ == self.received@.filter(|b: u128| is_orbit_min(b))
        &&& forall|k: int|
            0 <= k < self.boards@.len() ==> {
                &&& is_orbit_min(#[trigger] self.boards@[k])
                &&& cells_set(self.boards@[k], 81) == 27
                &&& self.boards@[k] <= FULL_MASK
            }
    }

    pub fn new() -> (r: Self)
        ensures
            r.boards@.len() == 0,
            r.total == 0,
            r.received@.len() == 0,
            r.wf(),
    {
        let r = CanonicalCollector { boards: Vec::new(), total: 0, received: Ghost(Seq::empty()) };
        proof {
            reveal(Seq::filter);
            assert(r.boards@ =~= r.received@.filter(|b: u128| is_orbit_min(b)));
        }
        r
    }

    /// Counts a complete layout, and keeps its hit mask where it is the least of its orbit.
    pub fn record(&mut self, board: &BoardState)
        requires
            board.is_complete_layout(),
        ensures
            final(self).total == if old(self).total == u64::MAX {
                u64::MAX
            } else {
                (old(self).total + 1) as u64
            },
            final(self).boards@ == if is_orbit_min(board.hit_mask.raw_value) {
                old(self).boards@.push(board.hit_mask.raw_value)
            } else {
                old(self).boards@
            },
            final(self).received@ == old(self).received@.push(board.hit_mask.raw_value),
            old(self).wf() ==> final(self).wf(),
    {
        let ghost before = self.received@;
        self.received = Ghost(self.received@.push(board.hit_mask.raw_value));
        proof {
            reveal(Seq::filter);
            assert(self.received@.drop_last() == before);
        }
        self.total = self.total.saturating_add(1);
        let hit = board.hit_mask.raw_value();
        if is_canonical(hit) {
            self.boards.push(hit);
        }
    }
}

impl BoardSink for CanonicalCollector {
    open spec fn saved(&self) -> Seq<u128> {
        self.received@
    }

    fn save_board(&mut self, board: &BoardState) {
        self.record(board);
    }
}

} // verus!
