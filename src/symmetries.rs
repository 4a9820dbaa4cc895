use vstd::prelude::*;
use crate::bits::{cell_index, has_bit};

verus! {

/// The eight symmetries of the square board.
#[derive(Debug, Clone, Copy, PartialEq, Eq, Structural)]
pub enum Symmetry {
    Identity,
    /// Mirror left to right.
    FlipHorizontal,
    /// Mirror top to bottom.
    FlipVertical,
    Rotate180,
    /// Mirror in the main diagonal.
    Transpose,
    Rotate90,
    Rotate270,
    /// Mirror in the anti-diagonal.
    AntiTranspose,
}

/// Where a symmetry sends cell `(x, y)`.
pub open spec fn map_cell(sym: Symmetry, x: int, y: int) -> (int, int) {
    match sym {
        Symmetry::Identity => (x, y),
        Symmetry::FlipHorizontal => (8 - x, y),
        Symmetry::FlipVertical => (x, 8 - y),
        Symmetry::Rotate180 => (8 - x, 8 - y),
        Symmetry::Transpose => (y, x),
        Symmetry::Rotate90 => (8 - y, x),
        Symmetry::Rotate270 => (y, 8 - x),
        Symmetry::AntiTranspose => (8 - y, 8 - x),
    }
}

/// The image under `sym` of the cells of `board` with index below `n`.
pub open spec fn transformed(board: u128, sym: Symmetry, n: int) -> u128
    decreases n,
{
    if n <= 0 {
        0
    } else {
        transformed(board, sym, n - 1) | if has_bit(board, n - 1) {
            1u128 << (cell_index(map_cell(sym, (n - 1) % 9, (n - 1) / 9).0, map_cell(sym, (n - 1) % 9, (n - 1) / 9).1) as u128)
        } else {
            0
        }
    }
}

/// The board and its seven images, in the order identity, the two flips, the half turn,
/// the transpose, the two quarter turns and the anti-transpose.
pub open spec fn orbit(board: u128) -> Seq<u128> {
    seq![
        board,
        transformed(board, Symmetry::FlipHorizontal, 81),
        transformed(board, Symmetry::FlipVertical, 81),
        transformed(board, Symmetry::Rotate180, 81),
        transformed(board, Symmetry::Transpose, 81),
        transformed(board, Symmetry::Rotate90, 81),
        transformed(board, Symmetry::Rotate270, 81),
        transformed(board, Symmetry::AntiTranspose, 81),
    ]
}

/// Whether a board is the least of its orbit.
pub open spec fn is_orbit_min(board: u128) -> bool {
    forall|k: int| 0 <= k < 8 ==> board <= #[trigger] orbit(board)[k]
}

fn map_point(sym: Symmetry, x: usize, y: usize) -> (r: (usize, usize))
    requires
        x < 9,
        y < 9,
    ensures
        r.0 == map_cell(sym, x as int, y as int).0,
        r.1 == map_cell(sym, x as int, y as int).1,
        r.0 < 9,
        r.1 < 9,
{
    match sym {
        Symmetry::Identity => (x, y),
        Symmetry::FlipHorizontal => (8 - x, y),
        Symmetry::FlipVertical => (x, 8 - y),
        Symmetry::Rotate180 => (8 - x, 8 - y),
        Symmetry::Transpose => (y, x),
        Symmetry::Rotate90 => (8 - y, x),
        Symmetry::Rotate270 => (y, 8 - x),
        Symmetry::AntiTranspose => (8 - y, 8 - x),
    }
}

/// Moves every on-board cell of `board` where `sym` sends it.
fn transform(board: u128, sym: Symmetry) -> (r: u128)
    ensures
        r == transformed(board, sym, 81),
{
    let mut result: u128 = 0;
    let mut i: usize = 0;
    while i < 81
        invariant
            i <= 81,
            result == transformed(board, sym, i as int),
        decreases 81 - i,
    {
        let x = i % 9;
        let y = i / 9;
        let ghost before = result;
        let iu = i as u128;
        let set = (board >> iu) & 1 == 1;
        if set {
            let (nx, ny) = map_point(sym, x, y);
            result = result | (1u128 << (ny * 9 + nx));
        } else {
            assert(before | 0 == before) by (bit_vector);
        }
        i = i + 1;
    }
    result
}

/// The board and its seven images under the symmetries of the square.
pub fn generate_symmetries(board: u128) -> (r: Vec<u128>)
    ensures
        r@ == orbit(board),
{
    let r = vec![
        board,
        transform(board, Symmetry::FlipHorizontal),
        transform(board, Symmetry::FlipVertical),
        transform(board, Symmetry::Rotate180),
        transform(board, Symmetry::Transpose),
        transform(board, Symmetry::Rotate90),
        transform(board, Symmetry::Rotate270),
        transform(board, Symmetry::AntiTranspose),
    ];
    assert(r@ =~= orbit(board));
    r
}

fn min_of(v: &Vec<u128>) -> (r: u128)
    requires
        v@.len() > 0,
    ensures
        v@.contains(r),
        forall|k: int| 0 <= k < v@.len() ==> r <= #[trigger] v@[k],
{
    let mut m = v[0];
    let mut k: usize = 1;
    while k < v.len()
        invariant
            1 <= k <= v@.len(),
            v@.contains(m),
            forall|j: int| 0 <= j < k ==> m <= #[trigger] v@[j],
        decreases v@.len() - k,
    {
        if v[k] < m {
            m = v[k];
        }
        k = k + 1;
    }
    m
}

/// The least board of the orbit.
pub fn canonicalize(board: u128) -> (r: u128)
    ensures
        orbit(board).contains(r),
        forall|k: int| 0 <= k < 8 ==> r <= #[trigger] orbit(board)[k],
{
    min_of(&generate_symmetries(board))
}

/// Whether the board is the least of its orbit.
pub fn is_canonical(board: u128) -> (r: bool)
    ensures
        r == is_orbit_min(board),
{
    let symmetries = generate_symmetries(board);
    let m = min_of(&symmetries);
    assert(orbit(board)[0] == board);
    board == m
}

} // verus!
