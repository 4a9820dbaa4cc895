use battleship::board_mask::BoardMask;
use battleship::board_state::{BoardState, CellState};
use battleship::common_masks::CommonMasks;
use battleship::generator::{count_of_valid_endings, BoardSink, CanonicalCollector};
use battleship::point::{Direction, Point};
use battleship::symmetries::{canonicalize, generate_symmetries, is_canonical};

#[test]
fn test_point_operations() {
    let p1 = Point::new(1, 2);
    let p2 = Point::new(3, 4);
    let sum = p1 + p2;
    assert_eq!(sum.x, 4);
    assert_eq!(sum.y, 6);

    let diff = p2 - p1;
    assert_eq!(diff.x, 2);
    assert_eq!(diff.y, 2);
}

#[test]
fn test_board_mask_basic() {
    let mut mask = BoardMask::empty();
    let point = Point::new(4, 4);

    assert!(!mask.get(point));
    mask.set(point, true);
    assert!(mask.get(point));

    mask.set(point, false);
    assert!(!mask.get(point));
}

#[test]
fn test_board_state_ship_placement() {
    let masks = CommonMasks::new();
    let mut board = BoardState::empty();
    let point = Point::new(1, 2);

    assert!(board.place_ship(&masks, 3, point, Direction::Horizontal));

    assert_eq!(board.get(point), CellState::Hit);
    assert_eq!(board.get(Point::new(2, 2)), CellState::Hit);
    assert_eq!(board.get(Point::new(3, 2)), CellState::Hit);

    assert_eq!(board.get(Point::new(0, 1)), CellState::Miss);
    assert_eq!(board.get(Point::new(4, 3)), CellState::Miss);
}

#[test]
fn test_board_mask_index_conversion() {
    let point = Point::new(4, 5);
    let index = BoardMask::index_of(point);
    let converted_back = BoardMask::point_of(index);

    assert_eq!(point.x, converted_back.x);
    assert_eq!(point.y, converted_back.y);
}

#[test]
fn test_symmetry_detection() {
    let board: u128 = 0b101_000_101;
    assert!(is_canonical(board));
}

#[test]
fn direction_scaling_gives_offsets() {
    let h = Direction::Horizontal * 3;
    let v = Direction::Vertical * 2;
    assert_eq!((h.x, h.y), (3, 0));
    assert_eq!((v.x, v.y), (0, 2));
}

#[test]
fn mask_operators_stay_on_board() {
    let a = BoardMask::new(0b1100);
    let b = BoardMask::new(0b1010);
    assert_eq!((a & b).raw_value(), 0b1000);
    assert_eq!((a | b).raw_value(), 0b1110);
    assert_eq!((a << 2).raw_value(), 0b110000);
    assert_eq!((a >> 2).raw_value(), 0b11);
    let full = (1u128 << 81) - 1;
    assert_eq!((!a).raw_value(), full & !0b1100);
    assert_eq!((!BoardMask::empty()).raw_value(), BoardMask::full().raw_value());
}

#[test]
fn first_set_position_is_lowest_cell() {
    assert!(BoardMask::empty().first_set_position().is_none());
    let mask = BoardMask::new((1u128 << 20) | (1u128 << 70));
    let p = mask.first_set_position().unwrap();
    assert_eq!((p.x, p.y), (2, 2));
    assert!(BoardMask::contains(Point::new(8, 8)));
    assert!(!BoardMask::contains(Point::new(9, 0)));
    assert!(!BoardMask::contains(Point::new(0, -1)));
}

#[test]
fn ship_masks_match_placements() {
    let masks = CommonMasks::new();
    let hit = masks.mask_for_ship_hit(3, Point::new(1, 2), Direction::Horizontal);
    assert_eq!(hit.raw_value(), 0b111u128 << 19);
    let down = masks.mask_for_ship_hit(4, Point::new(0, 0), Direction::Vertical);
    assert_eq!(down.raw_value(), 1 | (1 << 9) | (1 << 18) | (1 << 27));
    let outline = masks.mask_for_ship_outline(3, Point::new(0, 0), Direction::Horizontal);
    assert_eq!(outline.raw_value(), (1 << 3) | (0b1111u128 << 9));
    let off = masks.mask_for_ship_hit(4, Point::new(6, 0), Direction::Horizontal);
    assert_eq!(off.raw_value(), BoardMask::full().raw_value());
    let off_outline = masks.mask_for_ship_outline(3, Point::new(0, 7), Direction::Vertical);
    assert_eq!(off_outline.raw_value(), BoardMask::full().raw_value());
}

#[test]
fn placement_refuses_touching_and_off_board_ships() {
    let masks = CommonMasks::new();
    let board = BoardState::empty();
    assert!(board.placing_ship(&masks, 4, Point::new(6, 0), Direction::Horizontal).is_none());
    assert!(board.placing_ship(&masks, 5, Point::new(0, 0), Direction::Horizontal).is_none());
    let placed = board.placing_ship(&masks, 3, Point::new(0, 0), Direction::Horizontal).unwrap();
    assert_eq!(placed.three_count_remaining(), 4);
    assert_eq!(placed.four_count_remaining(), 3);
    assert!(placed.placing_ship(&masks, 3, Point::new(1, 1), Direction::Horizontal).is_none());
    assert!(placed.placing_ship(&masks, 3, Point::new(3, 1), Direction::Vertical).is_none());
    assert!(placed.placing_ship(&masks, 3, Point::new(4, 0), Direction::Horizontal).is_some());
    let mut none_left = placed;
    none_left.three_count_remaining = 0;
    assert!(none_left.placing_ship(&masks, 3, Point::new(5, 5), Direction::Horizontal).is_none());
}

#[test]
fn open_mask_and_cell_marks() {
    let mut board = BoardState::empty();
    assert_eq!(board.open_mask().raw_value(), BoardMask::full().raw_value());
    board.set(Point::new(0, 0), CellState::Hit);
    board.set(Point::new(1, 0), CellState::Miss);
    assert_eq!(board.get(Point::new(0, 0)), CellState::Hit);
    assert_eq!(board.get(Point::new(1, 0)), CellState::Miss);
    assert_eq!(board.get(Point::new(2, 0)), CellState::Open);
    assert_eq!(board.open_mask().raw_value(), BoardMask::full().raw_value() & !0b11);
    board.set(Point::new(0, 0), CellState::Open);
    assert_eq!(board.hit_mask().raw_value(), 0);
    assert_eq!(board.miss_mask().raw_value(), 0b10);
}

#[test]
fn debug_description_draws_the_board() {
    let masks = CommonMasks::new();
    let mut board = BoardState::empty();
    assert!(board.place_ship(&masks, 3, Point::new(1, 0), Direction::Horizontal));
    let text = board.debug_description();
    let lines: Vec<&str> = text.lines().collect();
    assert_eq!(lines.len(), 11);
    assert_eq!(lines[0], "┌───────────────────┐");
    assert_eq!(lines[1], "│ • X X X •         │");
    assert_eq!(lines[2], "│ • • • • •         │");
    assert_eq!(lines[3], "│                   │");
    assert_eq!(lines[10], "└───────────────────┘");
}

fn full_fleet_but_one_four(masks: &CommonMasks) -> BoardState {
    let mut board = BoardState::empty();
    assert!(board.place_ship(masks, 3, Point::new(0, 0), Direction::Horizontal));
    assert!(board.place_ship(masks, 3, Point::new(4, 0), Direction::Horizontal));
    assert!(board.place_ship(masks, 3, Point::new(0, 2), Direction::Horizontal));
    assert!(board.place_ship(masks, 3, Point::new(4, 2), Direction::Horizontal));
    assert!(board.place_ship(masks, 3, Point::new(0, 4), Direction::Horizontal));
    assert!(board.place_ship(masks, 4, Point::new(4, 4), Direction::Horizontal));
    assert!(board.place_ship(masks, 4, Point::new(0, 6), Direction::Horizontal));
    board
}

#[test]
fn enumeration_of_a_full_fleet_finds_one_layout() {
    let masks = CommonMasks::new();
    let mut board = full_fleet_but_one_four(&masks);
    assert!(board.place_ship(&masks, 4, Point::new(5, 6), Direction::Horizontal));
    let mut collector = CanonicalCollector::new();
    let total = count_of_valid_endings(&board, &masks, &mut collector);
    assert_eq!(total, 1);
    assert_eq!(collector.total, 1);
    for b in &collector.boards {
        assert_eq!(b.count_ones(), 27);
        assert_eq!(*b, board.hit_mask().raw_value());
    }
}

#[test]
fn enumeration_counts_every_place_of_the_last_ship() {
    let masks = CommonMasks::new();
    let board = full_fleet_but_one_four(&masks);
    let mut expected = 0u64;
    for y in 0..9 {
        for x in 0..9 {
            for dir in [Direction::Horizontal, Direction::Vertical] {
                if board.placing_ship(&masks, 4, Point::new(x, y), dir).is_some() {
                    expected += 1;
                }
            }
        }
    }
    let mut collector = CanonicalCollector::new();
    let total = count_of_valid_endings(&board, &masks, &mut collector);
    assert_eq!(total, expected);
    assert!(expected > 0);
    assert_eq!(collector.total, expected);
    for b in &collector.boards {
        assert_eq!(b.count_ones(), 27);
        assert_eq!(*b, canonicalize(*b));
    }
}

#[test]
fn symmetries_of_a_corner_cell() {
    let images = generate_symmetries(1);
    assert_eq!(images.len(), 8);
    assert_eq!(images[0], 1);
    assert_eq!(images[1], 1 << 8);
    assert_eq!(images[2], 1 << 72);
    assert_eq!(images[3], 1 << 80);
    assert_eq!(images[4], 1);
    assert_eq!(images[5], 1 << 8);
    assert_eq!(images[6], 1 << 72);
    assert_eq!(images[7], 1 << 80);
    assert_eq!(canonicalize(1 << 80), 1);
    assert!(is_canonical(1));
    assert!(!is_canonical(1 << 80));
}

#[test]
fn symmetries_of_an_edge_cell() {
    let cell = 1u128 << 1;
    let images = generate_symmetries(cell);
    assert_eq!(images[1], 1 << 7);
    assert_eq!(images[2], 1 << 73);
    assert_eq!(images[3], 1 << 79);
    assert_eq!(images[4], 1 << 9);
    assert_eq!(images[5], 1 << 17);
    assert_eq!(images[6], 1 << 63);
    assert_eq!(images[7], 1 << 71);
    assert_eq!(canonicalize(1 << 17), cell);
}

#[test]
fn stepping_along_a_direction() {
    let p = Point::new(4, 4);
    let right = p + Direction::Horizontal;
    let up = p - Direction::Vertical;
    assert_eq!((right.x, right.y), (5, 4));
    assert_eq!((up.x, up.y), (4, 3));
}

struct AllBoards(Vec<u128>);

impl BoardSink for AllBoards {
    fn save_board(&mut self, board: &BoardState) {
        self.0.push(board.hit_mask().raw_value());
    }
}

fn cell(board: u128, x: i32, y: i32) -> bool {
    (0..9).contains(&x) && (0..9).contains(&y) && (board >> (y * 9 + x)) & 1 == 1
}

/// Touching hit cells only ever run straight, in runs of three or four.
fn ships_never_touch(board: u128) -> bool {
    for y in 0..9 {
        for x in 0..9 {
            if !cell(board, x, y) {
                continue;
            }
            if cell(board, x + 1, y + 1) || cell(board, x - 1, y + 1) {
                return false;
            }
            let across = cell(board, x - 1, y) || cell(board, x + 1, y);
            let down = cell(board, x, y - 1) || cell(board, x, y + 1);
            if across && down {
                return false;
            }
            if !cell(board, x - 1, y) && !cell(board, x, y - 1) {
                let mut run = 1;
                let (dx, dy) = if across { (1, 0) } else { (0, 1) };
                while cell(board, x + dx * run, y + dy * run) {
                    run += 1;
                }
                if run != 3 && run != 4 {
                    return false;
                }
            }
        }
    }
    true
}

#[test]
fn enumerated_layouts_keep_ships_apart() {
    let masks = CommonMasks::new();
    let mut board = BoardState::empty();
    assert!(board.place_ship(&masks, 3, Point::new(0, 0), Direction::Horizontal));
    assert!(board.place_ship(&masks, 3, Point::new(4, 0), Direction::Horizontal));
    assert!(board.place_ship(&masks, 3, Point::new(0, 2), Direction::Vertical));
    assert!(board.place_ship(&masks, 4, Point::new(2, 2), Direction::Horizontal));
    assert!(board.place_ship(&masks, 4, Point::new(8, 2), Direction::Vertical));
    let mut sink = AllBoards(Vec::new());
    let total = count_of_valid_endings(&board, &masks, &mut sink);
    assert_eq!(total as usize, sink.0.len());
    assert!(total > 1);
    for b in &sink.0 {
        assert_eq!(b.count_ones(), 27);
        assert!(ships_never_touch(*b));
        assert_eq!(b & board.hit_mask().raw_value(), board.hit_mask().raw_value());
        assert_eq!(b & board.miss_mask().raw_value(), 0);
    }
    let mut sorted = sink.0.clone();
    sorted.sort();
    sorted.dedup();
    assert_eq!(sorted.len(), sink.0.len());
}
