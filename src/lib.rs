//! Occupancy heatmaps of every fleet layout on a 9×9 Battleship board: the
//! enumerator of layouts, the XOR-delta record stream that stores them, and the
//! filter that counts, cell by cell, the layouts that agree with known hits and misses.
use vstd::prelude::*;

pub mod bits;
pub mod point;
pub mod board_mask;
pub mod common_masks;
pub mod board_state;
pub mod generator;
pub mod symmetries;
pub mod codec;
pub mod filter;
pub mod reader;
pub mod encoder;

use crate::bits::CELL_COUNT;
use crate::codec::{delta_decode, read_record, records_of, xor_prefix};
use crate::filter::{add_board, is_heatmap, lemma_counts_bounded, lemma_counts_push, matched_count};
use crate::reader::{create_reader_with_magic_detection, payload_of, stream_accepted, StreamError};

verus! {

/// The boards a byte stream stands for: its records, XOR-delta decoded or taken as they are.
pub open spec fn logical_records(bytes: Seq<u8>, is_delta_encoded: bool) -> Seq<u128> {
    if is_delta_encoded {
        delta_decode(records_of(bytes))
    } else {
        records_of(bytes)
    }
}

/// The boards of a stored stream, plain or zstd-framed, its records XOR-delta decoded or
/// taken as they are.
pub fn decode_boards(data: Vec<u8>, is_delta_encoded: bool) -> (r: Result<Vec<u128>, StreamError>)
    ensures
        r matches Ok(boards) ==> {
            &&& payload_of(data@).len() % 16 == 0
            &&& boards@ == logical_records(payload_of(data@), is_delta_encoded)
        },
        r matches Err(StreamError::Decompress(_)) ==> !stream_accepted(data@),
        r matches Err(StreamError::TooManyRecords) ==> false,
        r matches Err(StreamError::Truncated) ==> payload_of(data@).len() % 16 != 0,
        r is Ok <==> (stream_accepted(data@) && payload_of(data@).len() % 16 == 0),
{
    let payload = match create_reader_with_magic_detection(data) {
        Ok(bytes) => bytes,
        Err(e) => {
            return Err(e);
        },
    };
    if payload.len() % 16 != 0 {
        return Err(StreamError::Truncated);
    }
    let ghost recs = records_of(payload@);
    let ghost boards = logical_records(payload@, is_delta_encoded);
    let len = payload.len();
    let n = len / 16;
    let mut out: Vec<u128> = Vec::new();
    let mut prev: u128 = 0;
    let mut off: usize = 0;
    let mut k: usize = 0;
    while k < n
        invariant
            recs == records_of(payload@),
            boards == logical_records(payload@, is_delta_encoded),
            n == recs.len() == boards.len(),
            n * 16 == payload@.len(),
            len == payload@.len(),
            k <= n,
            off == 16 * k,
            prev == xor_prefix(0, recs, k as int),
            out@ == boards.take(k as int),
        decreases n - k,
    {
        let encoded = read_record(payload.as_slice(), off);
        assert(payload@.subrange(off as int, off + 16) =~= payload@.subrange(16 * k, 16 * k + 16));
        prev = prev ^ encoded;
        let board = if is_delta_encoded {
            prev
        } else {
            encoded
        };
        assert(recs[k as int] == encoded);
        assert(boards[k as int] == board);
        out.push(board);
        assert(out@ =~= boards.take(k + 1));
        k = k + 1;
        off = off + 16;
    }
    assert(boards.take(n as int) =~= boards);
    Ok(out)
}

/// Counts the boards of a stream of whole records.
fn count_records(bytes: &[u8], hit_mask: u128, miss_mask: u128, is_delta_encoded: bool) -> (r: (Vec<u32>, u64))
    requires
        bytes@.len() % 16 == 0,
        bytes@.len() / 16 <= u32::MAX,
    ensures
        is_heatmap(r.0@, logical_records(bytes@, is_delta_encoded), hit_mask, miss_mask),
        r.1 == matched_count(logical_records(bytes@, is_delta_encoded), hit_mask, miss_mask),
{
    let ghost recs = records_of(bytes@);
    let ghost boards = logical_records(bytes@, is_delta_encoded);
    let len = bytes.len();
    let n = len / 16;
    let mut counts: Vec<u32> = vec![0u32; CELL_COUNT];
    let mut total_matched: u64 = 0;
    let mut prev: u128 = 0;
    let mut off: usize = 0;
    let mut k: usize = 0;
    while k < n
        invariant
            recs == records_of(bytes@),
            boards == logical_records(bytes@, is_delta_encoded),
            n == recs.len() == boards.len(),
            n <= u32::MAX,
            n * 16 == bytes@.len(),
            len == bytes@.len(),
            k <= n,
            off == 16 * k,
            prev == xor_prefix(0, recs, k as int),
            is_heatmap(counts@, boards.take(k as int), hit_mask, miss_mask),
            total_matched == matched_count(boards.take(k as int), hit_mask, miss_mask),
        decreases n - k,
    {
        let encoded = read_record(bytes, off);
        assert(bytes@.subrange(off as int, off + 16) =~= bytes@.subrange(16 * k, 16 * k + 16));
        prev = prev ^ encoded;
        let board = if is_delta_encoded {
            prev
        } else {
            encoded
        };
        let ghost prefix = boards.take(k as int);
        proof {
            assert(recs[k as int] == encoded);
            assert(boards[k as int] == board);
            lemma_counts_push(prefix, board, hit_mask, miss_mask);
            assert(prefix.push(board) =~= boards.take(k + 1));
            assert forall|i: int| 0 <= i < 81 implies counts@[i] < u32::MAX by {
                lemma_counts_bounded(prefix, hit_mask, miss_mask, i);
            }
            lemma_counts_bounded(prefix, hit_mask, miss_mask, 0);
        }
        if (board & hit_mask) == hit_mask && (board & miss_mask) == 0 {
            total_matched = total_matched + 1;
            add_board(&mut counts, board);
        }
        k = k + 1;
        off = off + 16;
    }
    assert(boards.take(n as int) =~= boards);
    (counts, total_matched)
}

/// Counts, cell by cell, the boards of an XOR-delta stream of 16-byte records that pass the
/// masks, and how many pass. A stream that ends inside a record is refused whole.
pub fn filter_and_count_reader(reader: &[u8], hit_mask: u128, miss_mask: u128) -> (r: Result<(Vec<u32>, u64), StreamError>)
    requires
        reader@.len() / 16 <= u32::MAX,
    ensures
        r is Ok <==> reader@.len() % 16 == 0,
        r matches Err(e) ==> e is Truncated,
        r matches Ok((counts, matched)) ==> {
            &&& is_heatmap(counts@, delta_decode(records_of(reader@)), hit_mask, miss_mask)
            &&& matched == matched_count(delta_decode(records_of(reader@)), hit_mask, miss_mask)
        },
{
    if reader.len() % 16 != 0 {
        return Err(StreamError::Truncated);
    }
    Ok(count_records(reader, hit_mask, miss_mask, true))
}

/// As `filter_and_count_reader`, on a stream whose records are the boards themselves.
pub fn filter_and_count_reader_raw(reader: &[u8], hit_mask: u128, miss_mask: u128) -> (r: Result<(Vec<u32>, u64), StreamError>)
    requires
        reader@.len() / 16 <= u32::MAX,
    ensures
        r is Ok <==> reader@.len() % 16 == 0,
        r matches Err(e) ==> e is Truncated,
        r matches Ok((counts, matched)) ==> {
            &&& is_heatmap(counts@, records_of(reader@), hit_mask, miss_mask)
            &&& matched == matched_count(records_of(reader@), hit_mask, miss_mask)
        },
{
    if reader.len() % 16 != 0 {
        return Err(StreamError::Truncated);
    }
    Ok(count_records(reader, hit_mask, miss_mask, false))
}

/// Counts the boards of a stored stream, plain or zstd-framed, that pass the masks; its
/// records are XOR-delta encoded or not as `is_delta_encoded` says.
pub fn filter_and_count_with_format(data: Vec<u8>, hit_mask: u128, miss_mask: u128, is_delta_encoded: bool) -> (r: Result<(Vec<u32>, u64), StreamError>)
    ensures
        r matches Ok((counts, matched)) ==> {
            let boards = logical_records(payload_of(data@), is_delta_encoded);
            &&& payload_of(data@).len() % 16 == 0
            &&& is_heatmap(counts@, boards, hit_mask, miss_mask)
            &&& matched == matched_count(boards, hit_mask, miss_mask)
        },
        r matches Err(StreamError::Decompress(_)) ==> !stream_accepted(data@),
        r matches Err(StreamError::TooManyRecords) ==> payload_of(data@).len() / 16 > u32::MAX,
        r matches Err(StreamError::Truncated) ==> payload_of(data@).len() % 16 != 0,
        r is Ok <==> (stream_accepted(data@) && payload_of(data@).len() % 16 == 0 && payload_of(data@).len() / 16 <= u32::MAX),
{
    let payload = match create_reader_with_magic_detection(data) {
        Ok(bytes) => bytes,
        Err(e) => {
            return Err(e);
        },
    };
    if payload.len() / 16 > u32::MAX as usize {
        return Err(StreamError::TooManyRecords);
    }
    if payload.len() % 16 != 0 {
        return Err(StreamError::Truncated);
    }
    Ok(count_records(payload.as_slice(), hit_mask, miss_mask, is_delta_encoded))
}

/// As `filter_and_count_with_format`, on an XOR-delta encoded stream.
pub fn filter_and_count(data: Vec<u8>, hit_mask: u128, miss_mask: u128) -> (r: Result<(Vec<u32>, u64), StreamError>)
    ensures
        r matches Ok((counts, matched)) ==> {
            let boards = delta_decode(records_of(payload_of(data@)));
            &&& payload_of(data@).len() % 16 == 0
            &&& is_heatmap(counts@, boards, hit_mask, miss_mask)
            &&& matched == matched_count(boards, hit_mask, miss_mask)
        },
        r matches Err(StreamError::Decompress(_)) ==> !stream_accepted(data@),
        r matches Err(StreamError::TooManyRecords) ==> payload_of(data@).len() / 16 > u32::MAX,
        r matches Err(StreamError::Truncated) ==> payload_of(data@).len() % 16 != 0,
        r is Ok <==> (stream_accepted(data@) && payload_of(data@).len() % 16 == 0 && payload_of(data@).len() / 16 <= u32::MAX),
{
    filter_and_count_with_format(data, hit_mask, miss_mask, true)
}

/// The heatmap of every complete fleet layout, with open masks, row by row.
pub open spec fn expected_counts() -> Seq<u32> {
    seq![
        91828984u32,81901859u32,117097056u32,93138304u32,90403381u32,93138304u32,117097056u32,81901859u32,91828984u32,
        81901859u32,29572998u32,54989301u32,27344104u32,37308200u32,27344104u32,54989301u32,29572998u32,81901859u32,
        117097056u32,54989301u32,105220336u32,70069997u32,89165356u32,70069997u32,105220336u32,54989301u32,117097056u32,
        93138304u32,27344104u32,70069997u32,32555654u32,56735290u32,32555654u32,70069997u32,27344104u32,93138304u32,
        90403381u32,37308200u32,89165356u32,56735290u32,83039340u32,56735290u32,89165356u32,37308200u32,90403381u32,
        93138304u32,27344104u32,70069997u32,32555654u32,56735290u32,32555654u32,70069997u32,27344104u32,93138304u32,
        117097056u32,54989301u32,105220336u32,70069997u32,89165356u32,70069997u32,105220336u32,54989301u32,117097056u32,
        81901859u32,29572998u32,54989301u32,27344104u32,37308200u32,27344104u32,54989301u32,29572998u32,81901859u32,
        91828984u32,81901859u32,117097056u32,93138304u32,90403381u32,93138304u32,117097056u32,81901859u32,91828984u32,
    ]
}

/// The heatmap of every complete fleet layout, with open masks.
pub fn expected_all_boards_counts() -> (r: Vec<u32>)
    ensures
        r@ == expected_counts(),
{
    let r: Vec<u32> = vec![
        91828984, 81901859, 117097056, 93138304, 90403381, 93138304, 117097056, 81901859, 91828984,
        81901859, 29572998, 54989301, 27344104, 37308200, 27344104, 54989301, 29572998, 81901859,
        117097056, 54989301, 105220336, 70069997, 89165356, 70069997, 105220336, 54989301, 117097056,
        93138304, 27344104, 70069997, 32555654, 56735290, 32555654, 70069997, 27344104, 93138304,
        90403381, 37308200, 89165356, 56735290, 83039340, 56735290, 89165356, 37308200, 90403381,
        93138304, 27344104, 70069997, 32555654, 56735290, 32555654, 70069997, 27344104, 93138304,
        117097056, 54989301, 105220336, 70069997, 89165356, 70069997, 105220336, 54989301, 117097056,
        81901859, 29572998, 54989301, 27344104, 37308200, 27344104, 54989301, 29572998, 81901859,
        91828984, 81901859, 117097056, 93138304, 90403381, 93138304, 117097056, 81901859, 91828984,
    ];
    assert(r@ =~= expected_counts());
    r
}

/// Why a heatmap differs from the expected one.
#[derive(Debug, Clone, Copy, PartialEq, Eq, Structural)]
pub enum CountMismatch {
    /// The heatmap does not have 81 cells.
    WrongLength { got: usize },
    /// The first cell, in index order, whose count differs.
    Mismatch { position: usize, expected: u32, actual: u32 },
}

/// Checks a heatmap against the heatmap of every complete fleet layout.
pub fn validate_expected_counts(actual_counts: &[u32]) -> (r: Result<(), CountMismatch>)
    ensures
        r is Ok <==> actual_counts@ == expected_counts(),
        r matches Err(CountMismatch::WrongLength { got }) ==> got == actual_counts@.len() && got != 81,
        r matches Err(CountMismatch::Mismatch { position, expected, actual }) ==> {
            &&& actual_counts@.len() == 81
            &&& position < 81
            &&& expected == expected_counts()[position as int]
            &&& actual == actual_counts@[position as int]
            &&& expected != actual
            &&& forall|j: int| 0 <= j < position ==> actual_counts@[j] == expected_counts()[j]
        },
{
    if actual_counts.len() != CELL_COUNT {
        return Err(CountMismatch::WrongLength { got: actual_counts.len() });
    }
    let expected = expected_all_boards_counts();
    let mut i: usize = 0;
    while i < CELL_COUNT
        invariant
            i <= 81,
            actual_counts@.len() == 81,
            expected@ == expected_counts(),
            forall|j: int| 0 <= j < i ==> actual_counts@[j] == expected_counts()[j],
        decreases 81 - i,
    {
        if actual_counts[i] != expected[i] {
            return Err(CountMismatch::Mismatch { position: i, expected: expected[i], actual: actual_counts[i] });
        }
        i = i + 1;
    }
    assert(actual_counts@ =~= expected_counts());
    Ok(())
}

} // verus!
