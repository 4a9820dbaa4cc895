use vstd::prelude::*;
use crate::codec::{bytes_of, delta_encode_after, read_record, records_of, write_record};
use crate::reader::StreamError;

verus! {

/// Bitwise union of a sequence of records.
pub open spec fn union_of(s: Seq<u128>) -> u128
    decreases s.len(),
{
    if s.len() == 0 {
        0
    } else {
        union_of(s.drop_last()) | s.last()
    }
}

/// Bitwise intersection of a sequence of records; all bits set for none.
pub open spec fn intersection_of(s: Seq<u128>) -> u128
    decreases s.len(),
{
    if s.len() == 0 {
        !0u128
    } else {
        intersection_of(s.drop_last()) & s.last()
    }
}

/// How many records a chunk takes from `input`: up to `max_records` whole ones.
pub open spec fn chunk_len(input: Seq<u8>, max_records: int) -> int {
    if input.len() / 16 < max_records {
        (input.len() / 16) as int
    } else {
        max_records
    }
}

/// XOR-delta encodes up to `max_records` records from the start of `input`, appending the
/// encoded records to `output`. `last_record` is the record that came before the chunk and
/// becomes the chunk's last record, so the delta runs on across chunks. Returns the number of
/// records, their union and their intersection. Input that ends inside a record before
/// `max_records` is refused, and nothing is written.
pub fn write_chunk(input: &[u8], max_records: usize, last_record: &mut u128, output: &mut Vec<u8>) -> (r: Result<(u32, u128, u128), StreamError>)
    requires
        max_records <= u32::MAX,
    ensures
        r is Err <==> (input@.len() / 16 < max_records && input@.len() % 16 != 0),
        r matches Err(e) ==> {
            &&& e is Truncated
            &&& *final(last_record) == *old(last_record)
            &&& final(output)@ == old(output)@
        },
        r matches Ok((count, union, intersection)) ==> {
            let recs = records_of(input@).take(chunk_len(input@, max_records as int));
            &&& count == recs.len()
            &&& union == union_of(recs)
            &&& intersection == intersection_of(recs)
            &&& final(output)@ == old(output)@ + bytes_of(delta_encode_after(*old(last_record), recs))
            &&& *final(last_record) == if recs.len() == 0 {
                *old(last_record)
            } else {
                recs.last()
            }
        },
{
    let len = input.len();
    let available = len / 16;
    if available < max_records && len % 16 != 0 {
        return Err(StreamError::Truncated);
    }
    let n = if available < max_records {
        available
    } else {
        max_records
    };
    let ghost recs = records_of(input@).take(n as int);
    let ghost first = *last_record;
    let ghost start = output@;
    let mut union: u128 = 0;
    let mut intersection: u128 = !0u128;
    let mut off: usize = 0;
    let mut k: usize = 0;
    while k < n
        invariant
            len == input@.len(),
            n * 16 <= len,
            n <= u32::MAX,
            recs == records_of(input@).take(n as int),
            k <= n,
            off == 16 * k,
            union == union_of(recs.take(k as int)),
            intersection == intersection_of(recs.take(k as int)),
            output@ == start + bytes_of(delta_encode_after(first, recs.take(k as int))),
            *last_record == if k == 0 {
                first
            } else {
                recs[k - 1]
            },
        decreases n - k,
    {
        let record = read_record(input, off);
        assert(input@.subrange(off as int, off + 16) =~= input@.subrange(16 * k, 16 * k + 16));
        assert(recs[k as int] == record);
        let ghost before = recs.take(k as int);
        let ghost after = recs.take(k + 1);
        assert(after.drop_last() =~= before);
        union = union | record;
        intersection = intersection & record;
        let delta = record ^ *last_record;
        *last_record = record;
        write_record(delta, output);
        proof {
            let enc = delta_encode_after(first, after);
            assert(enc.drop_last() =~= delta_encode_after(first, before));
            assert(enc.last() == delta);
        }
        k = k + 1;
        off = off + 16;
    }
    assert(recs.take(n as int) =~= recs);
    Ok((n as u32, union, intersection))
}

} // verus!
