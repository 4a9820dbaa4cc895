use vstd::prelude::*;

verus! {

/// Number of cells on the board; bit `y * 9 + x` stands for cell `(x, y)`.
pub const CELL_COUNT: usize = 81;

/// All 81 board bits set.
pub const FULL_MASK: u128 = 0x1_ffff_ffff_ffff_ffff_ffff;

/// Whether bit `i` of `v` is set.
pub open spec fn has_bit(v: u128, i: int) -> bool {
    0 <= i < 128 && (v >> (i as u128)) & 1 == 1
}

/// Index of cell `(x, y)`.
pub open spec fn cell_index(x: int, y: int) -> int {
    9 * y + x
}

/// Whether `(x, y)` lies on the board.
pub open spec fn on_board(x: int, y: int) -> bool {
    0 <= x < 9 && 0 <= y < 9
}

/// A value with no bits outside the board.
pub open spec fn within_board(v: u128) -> bool {
    v <= FULL_MASK
}

/// Relies on `u128::trailing_zeros`: the index of the lowest set bit, 128 for zero.
#[verifier::external_body]
pub(crate) fn lowest_set_bit(v: u128) -> (r: u32)
    ensures
        r <= 128,
        (r == 128) == (v == 0),
        r < 128 ==> has_bit(v, r as int),
        forall|j: int| 0 <= j < r ==> !has_bit(v, j),
{
    v.trailing_zeros()
}

/// Bits of a value with a bit set or cleared.
pub proof fn lemma_bit_set(v: u128, i: u128, j: u128)
    requires
        i < 128,
        j < 128,
    ensures
        ((v | (1u128 << i)) >> j) & 1 == 1 <==> (j == i || (v >> j) & 1 == 1),
        ((v & !(1u128 << i)) >> j) & 1 == 1 <==> (j != i && (v >> j) & 1 == 1),
{
    assert(((v | (1u128 << i)) >> j) & 1 == 1 <==> (j == i || (v >> j) & 1 == 1)) by (bit_vector)
        requires i < 128, j < 128;
    assert(((v & !(1u128 << i)) >> j) & 1 == 1 <==> (j != i && (v >> j) & 1 == 1)) by (bit_vector)
        requires i < 128, j < 128;
}

/// How many of the first `n` cells a board occupies.
pub open spec fn cells_set(board: u128, n: int) -> nat
    decreases n,
{
    if n <= 0 {
        0
    } else {
        cells_set(board, n - 1) + if has_bit(board, n - 1) {
            1nat
        } else {
            0nat
        }
    }
}

/// Setting a bit below `n` adds one to the count of set bits below `n`, unless it was set.
pub proof fn lemma_cells_set_insert(v: u128, i: int, n: int)
    requires
        0 <= i < n <= 128,
    ensures
        cells_set(v | (1u128 << (i as u128)), n) == cells_set(v, n) + if has_bit(v, i) {
            0nat
        } else {
            1nat
        },
    decreases n,
{
    lemma_bit_set(v, i as u128, (n - 1) as u128);
    if i < n - 1 {
        lemma_cells_set_insert(v, i, n - 1);
    } else {
        assert forall|k: int| 0 <= k < n - 1 implies has_bit(v, k) == has_bit(v | (1u128 << (i as u128)), k) by {
            lemma_bit_set(v, i as u128, k as u128);
        }
        lemma_cells_set_same(v, v | (1u128 << (i as u128)), n - 1);
    }
}

/// Zero has no bits set.
pub proof fn lemma_cells_set_zero(n: int)
    requires
        n <= 128,
    ensures
        cells_set(0, n) == 0,
        forall|i: int| #[trigger] has_bit(0, i) == false,
    decreases n,
{
    assert forall|i: int| #[trigger] has_bit(0, i) == false by {
        if 0 <= i < 128 {
            let j = i as u128;
            assert((0u128 >> j) & 1 != 1) by (bit_vector);
        }
    }
    if n > 0 {
        lemma_cells_set_zero(n - 1);
    }
}

/// Values with the same bits below `n` have the same count below `n`.
pub proof fn lemma_cells_set_same(a: u128, b: u128, n: int)
    requires
        n <= 128,
        forall|i: int| 0 <= i < n ==> has_bit(a, i) == has_bit(b, i),
    ensures
        cells_set(a, n) == cells_set(b, n),
    decreases n,
{
    if n > 0 {
        lemma_cells_set_same(a, b, n - 1);
    }
}

/// Where every bit of `a` below `n` is a bit of `b`, `a` has no more set bits below `n`;
/// strictly fewer where `b` has one more, at `j`.
pub proof fn lemma_cells_set_subset(a: u128, b: u128, n: int, j: int)
    requires
        n <= 128,
        forall|i: int| 0 <= i < n ==> has_bit(a, i) ==> has_bit(b, i),
    ensures
        cells_set(a, n) <= cells_set(b, n),
        0 <= j < n && has_bit(b, j) && !has_bit(a, j) ==> cells_set(a, n) < cells_set(b, n),
    decreases n,
{
    if n > 0 {
        lemma_cells_set_subset(a, b, n - 1, j);
    }
}

/// The set bits of two disjoint values add up in their union.
pub proof fn lemma_cells_set_disjoint(a: u128, b: u128, n: int)
    requires
        n <= 128,
        a & b == 0,
    ensures
        cells_set(a | b, n) == cells_set(a, n) + cells_set(b, n),
    decreases n,
{
    if n > 0 {
        lemma_cells_set_disjoint(a, b, n - 1);
        let i = (n - 1) as u128;
        assert(((a | b) >> i) & 1 == 1 <==> ((a >> i) & 1 == 1 || (b >> i) & 1 == 1)) by (bit_vector)
            requires i < 128;
        assert(a & b == 0 ==> !((a >> i) & 1 == 1 && (b >> i) & 1 == 1)) by (bit_vector)
            requires i < 128;
    }
}

/// Bits of `x & y`, `x | y`, and of the cells neither of two masks holds.
pub proof fn lemma_bit_ops(x: u128, y: u128, i: int)
    requires
        0 <= i < 128,
    ensures
        has_bit(x & y, i) == (has_bit(x, i) && has_bit(y, i)),
        has_bit(x | y, i) == (has_bit(x, i) || has_bit(y, i)),
        has_bit(FULL_MASK & !x & !y, i) == (i < 81 && !has_bit(x, i) && !has_bit(y, i)),
        x <= FULL_MASK && i >= 81 ==> !has_bit(x, i),
{
    let j = i as u128;
    assert(((x & y) >> j) & 1 == 1 <==> ((x >> j) & 1 == 1 && (y >> j) & 1 == 1)) by (bit_vector)
        requires j < 128;
    assert(((x | y) >> j) & 1 == 1 <==> ((x >> j) & 1 == 1 || (y >> j) & 1 == 1)) by (bit_vector)
        requires j < 128;
    assert(((0x1_ffff_ffff_ffff_ffff_ffffu128 & !x & !y) >> j) & 1 == 1 <==> (j < 81 && (x >> j) & 1 != 1 && (y >> j) & 1 != 1)) by (bit_vector)
        requires j < 128;
    assert(x <= 0x1_ffff_ffff_ffff_ffff_ffffu128 && j >= 81 ==> (x >> j) & 1 != 1) by (bit_vector)
        requires j < 128;
}

/// Two values that share a set bit have a nonzero intersection.
pub proof fn lemma_bit_witness(x: u128, y: u128, i: int)
    requires
        0 <= i < 128,
        has_bit(x, i),
        has_bit(y, i),
    ensures
        x & y != 0,
{
    let j = i as u128;
    assert((x >> j) & 1 == 1 && (y >> j) & 1 == 1 ==> x & y != 0) by (bit_vector)
        requires j < 128;
}

/// A value with no bit set is zero.
pub proof fn lemma_zero_from_bits(x: u128)
    requires
        forall|i: int| 0 <= i < 128 ==> !#[trigger] has_bit(x, i),
    ensures
        x == 0,
{
    lemma_low_bits_zero(x, 127);
    assert(!has_bit(x, 127));
    assert(x == 0) by (bit_vector)
        requires
            x & !(!0u128 << 127u128) == 0,
            (x >> 127u128) & 1 != 1;
}

proof fn lemma_low_bits_zero(x: u128, n: int)
    requires
        0 <= n <= 127,
        forall|i: int| 0 <= i < 128 ==> !#[trigger] has_bit(x, i),
    ensures
        x & !(!0u128 << (n as u128)) == 0,
    decreases n,
{
    if n == 0 {
        assert(x & !(!0u128 << 0u128) == 0) by (bit_vector);
    } else {
        lemma_low_bits_zero(x, n - 1);
        let m = (n - 1) as u128;
        let m1 = n as u128;
        assert(!has_bit(x, n - 1));
        assert(x & !(!0u128 << m1) == 0) by (bit_vector)
            requires
                x & !(!0u128 << m) == 0,
                (x >> m) & 1 != 1,
                m < 127,
                m1 == m + 1;
    }
}

} // verus!

