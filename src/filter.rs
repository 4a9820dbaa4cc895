use vstd::prelude::*;
use crate::bits::{cells_set, has_bit, lemma_bit_set, lowest_set_bit, CELL_COUNT, FULL_MASK};

verus! {

/// Whether a board has every bit of `hit` set and every bit of `miss` clear.
pub open spec fn accepts(board: u128, hit: u128, miss: u128) -> bool {
    board & hit == hit && board & miss == 0
}

/// The boards of `s` that pass the masks, in order.
pub open spec fn filter_seq(s: Seq<u128>, hit: u128, miss: u128) -> Seq<u128> {
    s.filter(passes(hit, miss))
}

/// The test of `accepts` as a predicate on boards.
pub open spec fn passes(hit: u128, miss: u128) -> spec_fn(u128) -> bool {
    |b: u128| accepts(b, hit, miss)
}

/// How many boards of `s` pass the masks.
pub open spec fn matched_count(s: Seq<u128>, hit: u128, miss: u128) -> nat
    decreases s.len(),
{
    if s.len() == 0 {
        0
    } else {
        matched_count(s.drop_last(), hit, miss) + if accepts(s.last(), hit, miss) {
            1nat
        } else {
            0nat
        }
    }
}

/// How many boards of `s` pass the masks and occupy cell `i`.
pub open spec fn cell_count(s: Seq<u128>, hit: u128, miss: u128, i: int) -> nat
    decreases s.len(),
{
    if s.len() == 0 {
        0
    } else {
        cell_count(s.drop_last(), hit, miss, i) + if accepts(s.last(), hit, miss) && has_bit(
            s.last(),
            i,
        ) {
            1nat
        } else {
            0nat
        }
    }
}

/// The heatmap of `s` under the masks, as it is returned.
pub open spec fn is_heatmap(counts: Seq<u32>, s: Seq<u128>, hit: u128, miss: u128) -> bool {
    &&& counts.len() == 81
    &&& forall|i: int| 0 <= i < 81 ==> counts[i] == cell_count(s, hit, miss, i)
}

/// The sum of the first `n` cell counts.
pub open spec fn counts_total(s: Seq<u128>, hit: u128, miss: u128, n: int) -> nat
    decreases n,
{
    if n <= 0 {
        0
    } else {
        counts_total(s, hit, miss, n - 1) + cell_count(s, hit, miss, n - 1)
    }
}

/// The value at each index of a stream of results; where an index holds an error its
/// entry is left unspecified.
pub open spec fn ok_values<E>(rs: Seq<Result<u128, E>>) -> Seq<u128> {
    Seq::new(rs.len(), |k: int| rs[k]->Ok_0)
}

pub(crate) proof fn lemma_counts_bounded(s: Seq<u128>, hit: u128, miss: u128, i: int)
    ensures
        cell_count(s, hit, miss, i) <= matched_count(s, hit, miss),
        matched_count(s, hit, miss) <= s.len(),
    decreases s.len(),
{
    if s.len() > 0 {
        lemma_counts_bounded(s.drop_last(), hit, miss, i);
    }
}

pub(crate) proof fn lemma_counts_push(s: Seq<u128>, b: u128, hit: u128, miss: u128)
    ensures
        s.push(b).drop_last() == s,
        matched_count(s.push(b), hit, miss) == matched_count(s, hit, miss) + if accepts(
            b,
            hit,
            miss,
        ) {
            1nat
        } else {
            0nat
        },
        forall|i: int|
            #[trigger] cell_count(s.push(b), hit, miss, i) == cell_count(s, hit, miss, i) + if accepts(
                b,
                hit,
                miss,
            ) && has_bit(b, i) {
                1nat
            } else {
                0nat
            },
{
    assert(s.push(b).drop_last() =~= s);
}

/// Adds one to the count of every on-board cell that `board` occupies.
pub fn add_board(counts: &mut Vec<u32>, board: u128)
    requires
        old(counts)@.len() == 81,
        forall|i: int| 0 <= i < 81 ==> old(counts)@[i] < u32::MAX,
    ensures
        final(counts)@.len() == 81,
        forall|i: int|
            0 <= i < 81 ==> #[trigger] final(counts)@[i] == old(counts)@[i] + if has_bit(board, i) {
                1int
            } else {
                0int
            },
{
    let ghost start = counts@;
    let mut mask = board & FULL_MASK;
    assert forall|i: int| 0 <= i < 128 implies #[trigger] has_bit(mask, i) == (i < 81 && has_bit(board, i)) by {
        let j = i as u128;
        assert(((board & 0x1_ffff_ffff_ffff_ffff_ffffu128) >> j) & 1 == 1 <==> (j < 81 && (board >> j) & 1 == 1)) by (bit_vector)
            requires j < 128;
    }
    while mask != 0
        invariant
            counts@.len() == 81,
            start.len() == 81,
            forall|i: int| 0 <= i < 81 ==> start[i] < u32::MAX,
            forall|i: int| 0 <= i < 128 ==> #[trigger] has_bit(mask, i) ==> (i < 81 && has_bit(board, i)),
            forall|i: int|
                0 <= i < 81 ==> #[trigger] counts@[i] == start[i] + if has_bit(board, i) && !has_bit(mask, i) {
                    1int
                } else {
                    0int
                },
        decreases mask,
    {
        let bit = lowest_set_bit(mask);
        let t = bit as u128;
        let m = mask;
        assert(has_bit(mask, bit as int));
        counts.set(bit as usize, counts[bit as usize] + 1);
        mask = mask & !(1u128 << bit);
        assert((m >> t) & 1 == 1 ==> (m & !(1u128 << t)) < m) by (bit_vector)
            requires t < 128;
        assert forall|i: int| 0 <= i < 128 implies #[trigger] has_bit(mask, i) == (i != bit && has_bit(m, i)) by {
            lemma_bit_set(m, t, i as u128);
        }
    }
    assert forall|i: int| 0 <= i < 128 implies !#[trigger] has_bit(0u128, i) by {
        let j = i as u128;
        assert((0u128 >> j) & 1 != 1) by (bit_vector);
    }
}

/// Counts, cell by cell, the boards of `chunk`.
pub fn process_chunk(chunk: &[u128]) -> (r: Vec<u32>)
    requires
        chunk@.len() <= u32::MAX,
    ensures
        is_heatmap(r@, chunk@, 0, 0),
{
    let mut counts: Vec<u32> = vec![0u32; CELL_COUNT];
    let mut k: usize = 0;
    while k < chunk.len()
        invariant
            k <= chunk@.len() <= u32::MAX,
            is_heatmap(counts@, chunk@.take(k as int), 0, 0),
        decreases chunk@.len() - k,
    {
        let board = chunk[k];
        proof {
            lemma_counts_push(chunk@.take(k as int), board, 0, 0);
            assert(chunk@.take(k as int).push(board) =~= chunk@.take(k + 1));
            assert forall|i: int| 0 <= i < 81 implies counts@[i] < u32::MAX by {
                lemma_counts_bounded(chunk@.take(k as int), 0, 0, i);
            }
            assert(accepts(board, 0, 0)) by (bit_vector);
        }
        add_board(&mut counts, board);
        k = k + 1;
    }
    assert(chunk@.take(k as int) =~= chunk@);
    counts
}

/// Adds `other` to `acc`, cell by cell.
pub fn merge_counts(acc: &mut Vec<u32>, other: &Vec<u32>)
    requires
        old(acc)@.len() == 81,
        other@.len() == 81,
        forall|i: int| 0 <= i < 81 ==> old(acc)@[i] + other@[i] <= u32::MAX,
    ensures
        final(acc)@.len() == 81,
        forall|i: int| 0 <= i < 81 ==> #[trigger] final(acc)@[i] == old(acc)@[i] + other@[i],
{
    let ghost start = acc@;
    let mut i: usize = 0;
    while i < CELL_COUNT
        invariant
            i <= 81,
            acc@.len() == 81,
            other@.len() == 81,
            forall|j: int| 0 <= j < 81 ==> start[j] + other@[j] <= u32::MAX,
            forall|j: int| 0 <= j < i ==> #[trigger] acc@[j] == start[j] + other@[j],
            forall|j: int| i <= j < 81 ==> #[trigger] acc@[j] == start[j],
        decreases 81 - i,
    {
        acc.set(i, acc[i] + other[i]);
        i = i + 1;
    }
}

/// Counts, cell by cell, the boards of `records` that pass the masks, and how many pass;
/// the first error of the stream, if any, is returned instead.
pub fn filter_and_count<E>(records: Vec<Result<u128, E>>, hit_mask: u128, miss_mask: u128) -> (r: Result<(Vec<u32>, u64), E>)
    requires
        records@.len() <= u32::MAX,
    ensures
        r is Err <==> exists|k: int| 0 <= k < records@.len() && records@[k] is Err,
        r matches Err(e) ==> exists|k: int|
            0 <= k < records@.len() && records@[k] == Err::<u128, E>(e) && forall|j: int| 0 <= j < k ==> records@[j] is Ok,
        r matches Ok((counts, matched)) ==> {
            &&& is_heatmap(counts@, ok_values(records@), hit_mask, miss_mask)
            &&& matched == matched_count(ok_values(records@), hit_mask, miss_mask)
        },
{
    let mut items = records;
    let ghost all = items@;
    let mut counts: Vec<u32> = vec![0u32; CELL_COUNT];
    let mut total_matched: u64 = 0;
    let mut k: usize = 0;
    while k < items.len()
        invariant
            items@ == all,
            all == records@,
            k <= all.len() <= u32::MAX,
            forall|j: int| 0 <= j < k ==> all[j] is Ok,
            is_heatmap(counts@, ok_values(all).take(k as int), hit_mask, miss_mask),
            total_matched == matched_count(ok_values(all).take(k as int), hit_mask, miss_mask),
        decreases all.len() - k,
    {
        let ghost prefix = ok_values(all).take(k as int);
        proof {
            lemma_counts_bounded(prefix, hit_mask, miss_mask, 0);
            assert forall|i: int| 0 <= i < 81 implies counts@[i] < u32::MAX by {
                lemma_counts_bounded(prefix, hit_mask, miss_mask, i);
            }
        }
        let board = match &items[k] {
            Ok(b) => *b,
            Err(_) => {
                let item = items.remove(k);
                match item {
                    Ok(b) => b,
                    Err(e) => {
                        assert(all[k as int] == Err::<u128, E>(e));
                        assert(records@[k as int] is Err);
                        return Err(e);
                    }
                }
            }
        };
        proof {
            lemma_counts_push(prefix, board, hit_mask, miss_mask);
            assert(prefix.push(board) =~= ok_values(all).take(k + 1));
        }
        if (board & hit_mask) == hit_mask && (board & miss_mask) == 0 {
            total_matched = total_matched + 1;
            add_board(&mut counts, board);
        }
        k = k + 1;
    }
    assert(ok_values(all).take(k as int) =~= ok_values(all));
    Ok((counts, total_matched))
}

/// The boards of `records` that pass the masks, in order.
pub fn filter_records(records: &[u128], hit_mask: u128, miss_mask: u128) -> (r: Vec<u128>)
    ensures
        r@ == filter_seq(records@, hit_mask, miss_mask),
{
    let mut out: Vec<u128> = Vec::new();
    let mut k: usize = 0;
    while k < records.len()
        invariant
            k <= records@.len(),
            out@ == filter_seq(records@.take(k as int), hit_mask, miss_mask),
        decreases records@.len() - k,
    {
        let board = records[k];
        assert(records@.take(k + 1).drop_last() =~= records@.take(k as int));
        assert(records@.take(k + 1).last() == board);
        proof {
            reveal(Seq::filter);
        }
        if (board & hit_mask) == hit_mask && (board & miss_mask) == 0 {
            out.push(board);
        }
        k = k + 1;
    }
    assert(records@.take(k as int) =~= records@);
    out
}

proof fn lemma_accepts_open(b: u128)
    ensures
        accepts(b, 0, 0),
{
    assert(b & 0 == 0) by (bit_vector);
}

/// Filtering first and then counting with open masks gives what counting under the
/// masks gives, in the matched total and in every cell.
pub proof fn lemma_filter_idempotent(s: Seq<u128>, hit: u128, miss: u128)
    ensures
        matched_count(filter_seq(s, hit, miss), 0, 0) == matched_count(s, hit, miss),
        forall|i: int| #[trigger] cell_count(filter_seq(s, hit, miss), 0, 0, i) == cell_count(s, hit, miss, i),
    decreases s.len(),
{
    if s.len() > 0 {
        let rest = s.drop_last();
        let b = s.last();
        lemma_filter_idempotent(rest, hit, miss);
        let f = filter_seq(rest, hit, miss);
        reveal(Seq::filter);
        assert(passes(hit, miss)(b) == accepts(b, hit, miss));
        assert(filter_seq(s, hit, miss) == if accepts(b, hit, miss) { f.push(b) } else { f });
        lemma_counts_push(f, b, 0, 0);
        lemma_accepts_open(b);
        assert forall|i: int| #[trigger] cell_count(filter_seq(s, hit, miss), 0, 0, i) == cell_count(s, hit, miss, i) by {
            assert(cell_count(f, 0, 0, i) == cell_count(rest, hit, miss, i));
        }
    }
}

/// Requiring more cells to be hit, or more to be missed, never lets more boards pass,
/// nor raises the count of any cell.
pub proof fn lemma_filter_monotone(s: Seq<u128>, hit: u128, miss: u128, more_hit: u128, more_miss: u128)
    requires
        more_hit & hit == hit,
        more_miss & miss == miss,
    ensures
        matched_count(s, more_hit, more_miss) <= matched_count(s, hit, miss),
        forall|i: int| #[trigger] cell_count(s, more_hit, more_miss, i) <= cell_count(s, hit, miss, i),
    decreases s.len(),
{
    if s.len() > 0 {
        let b = s.last();
        lemma_filter_monotone(s.drop_last(), hit, miss, more_hit, more_miss);
        assert((b & more_hit == more_hit && b & more_miss == 0 && more_hit & hit == hit && more_miss & miss == miss)
            ==> (b & hit == hit && b & miss == 0)) by (bit_vector);
        assert forall|i: int| #[trigger] cell_count(s, more_hit, more_miss, i) <= cell_count(s, hit, miss, i) by {
            assert(cell_count(s.drop_last(), more_hit, more_miss, i) <= cell_count(s.drop_last(), hit, miss, i));
        }
    }
}

/// With a hit mask and a miss mask that share a cell, no board passes and every count is zero.
pub proof fn lemma_conflicting_masks(s: Seq<u128>, hit: u128, miss: u128)
    requires
        hit & miss != 0,
    ensures
        matched_count(s, hit, miss) == 0,
        forall|i: int| #[trigger] cell_count(s, hit, miss, i) == 0,
    decreases s.len(),
{
    if s.len() > 0 {
        let b = s.last();
        lemma_conflicting_masks(s.drop_last(), hit, miss);
        assert((b & hit == hit && b & miss == 0) ==> hit & miss == 0) by (bit_vector);
        assert forall|i: int| #[trigger] cell_count(s, hit, miss, i) == 0 by {
            assert(cell_count(s.drop_last(), hit, miss, i) == 0);
        }
    }
}

proof fn lemma_total_push(s: Seq<u128>, b: u128, hit: u128, miss: u128, n: int)
    ensures
        counts_total(s.push(b), hit, miss, n) == counts_total(s, hit, miss, n) + if accepts(b, hit, miss) {
            cells_set(b, n)
        } else {
            0nat
        },
    decreases n,
{
    lemma_counts_push(s, b, hit, miss);
    if n > 0 {
        lemma_total_push(s, b, hit, miss, n - 1);
    }
}

proof fn lemma_total_empty(s: Seq<u128>, hit: u128, miss: u128, n: int)
    requires
        s.len() == 0,
    ensures
        counts_total(s, hit, miss, n) == 0,
    decreases n,
{
    if n > 0 {
        lemma_total_empty(s, hit, miss, n - 1);
    }
}

/// When every board occupies 27 cells (five ships of three and three of four), the cell
/// counts add up to 27 times the number of boards that pass.
pub proof fn lemma_sum_law(s: Seq<u128>, hit: u128, miss: u128)
    requires
        forall|k: int| 0 <= k < s.len() ==> #[trigger] cells_set(s[k], 81) == 27,
    ensures
        counts_total(s, hit, miss, 81) == 27 * matched_count(s, hit, miss),
    decreases s.len(),
{
    if s.len() > 0 {
        let rest = s.drop_last();
        let b = s.last();
        assert(cells_set(s[s.len() - 1], 81) == 27);
        assert forall|k: int| 0 <= k < rest.len() implies #[trigger] cells_set(rest[k], 81) == 27 by {
            assert(rest[k] == s[k]);
        }
        lemma_sum_law(rest, hit, miss);
        assert(rest.push(b) =~= s);
        lemma_total_push(rest, b, hit, miss, 81);
        lemma_counts_push(rest, b, hit, miss);
        let m = matched_count(rest, hit, miss);
        assert(counts_total(rest, hit, miss, 81) == 27 * m);
        if accepts(b, hit, miss) {
            assert(matched_count(s, hit, miss) == m + 1);
            assert(counts_total(s, hit, miss, 81) == 27 * m + 27);
        } else {
            assert(matched_count(s, hit, miss) == m);
        }
    } else {
        lemma_total_empty(s, hit, miss, 81);
    }
}

} // verus!
