use vstd::prelude::*;
use crate::codec::{delta_decode_after, le_value, read_record, records_of, xor_prefix};

verus! {

/// Declares `std::io::Error`, which a failed decompression carries, opaque.
#[verifier::external_type_specification]
#[verifier::external_body]
pub struct ExIoError(std::io::Error);

/// Why a stream of records could not be read.
#[derive(Debug)]
pub enum StreamError {
    /// The stream ends inside a record.
    Truncated,
    /// The stream holds more records than a 32-bit counter can count.
    TooManyRecords,
    /// The zstd frame could not be decompressed.
    Decompress(std::io::Error),
}

/// The first four bytes of a zstd frame.
pub const ZSTD_MAGIC: [u8; 4] = [0x28, 0xB5, 0x2F, 0xFD];

/// Whether a stream starts with the zstd magic number.
pub open spec fn is_zstd_framed(data: Seq<u8>) -> bool {
    &&& data.len() >= 4
    &&& data[0] == 0x28
    &&& data[1] == 0xB5
    &&& data[2] == 0x2F
    &&& data[3] == 0xFD
}

/// The bytes that the zstd frames of `frame` decompress to.
pub uninterp spec fn zstd_decoded(frame: Seq<u8>) -> Seq<u8>;

/// Whether the zstd frames of `frame` decompress without error.
pub uninterp spec fn zstd_accepts(frame: Seq<u8>) -> bool;

/// Whether a stream can be read: it is not zstd-framed, or its frames decompress.
pub open spec fn stream_accepted(data: Seq<u8>) -> bool {
    !is_zstd_framed(data) || zstd_accepts(data)
}

/// The bytes a stream carries: a zstd frame's contents, nothing for a stream too short to
/// sniff, or else the stream itself.
pub open spec fn payload_of(data: Seq<u8>) -> Seq<u8> {
    if is_zstd_framed(data) {
        zstd_decoded(data)
    } else if data.len() < 4 {
        Seq::empty()
    } else {
        data
    }
}

/// Relies on `zstd::stream::decode_all`: whether it succeeds, and the decompressed contents
/// of the frames when it does, depend on the input bytes alone.
#[verifier::external_body]
fn zstd_decode_all(frame: &[u8]) -> (r: Result<Vec<u8>, std::io::Error>)
    ensures
        (r is Ok) == zstd_accepts(frame@),
        r matches Ok(v) ==> v@ == zstd_decoded(frame@),
{
    zstd::stream::decode_all(frame)
}

/// Sniffs the first four bytes of a stream: a zstd frame is decompressed, a stream shorter
/// than four bytes is taken as empty, and anything else is passed on as it is.
pub fn create_reader_with_magic_detection(data: Vec<u8>) -> (r: Result<Vec<u8>, StreamError>)
    ensures
        !is_zstd_framed(data@) ==> (r matches Ok(v) && v@ == payload_of(data@)),
        r matches Ok(v) ==> v@ == payload_of(data@),
        r matches Err(e) ==> is_zstd_framed(data@) && e is Decompress,
        r is Ok <==> stream_accepted(data@),
{
    if data.len() < 4 {
        return Ok(Vec::new());
    }
    if data[0] == ZSTD_MAGIC[0] && data[1] == ZSTD_MAGIC[1] && data[2] == ZSTD_MAGIC[2]
        && data[3] == ZSTD_MAGIC[3] {
        match zstd_decode_all(data.as_slice()) {
            Ok(v) => Ok(v),
            Err(e) => Err(StreamError::Decompress(e)),
        }
    } else {
        Ok(data)
    }
}

/// Yields the records of an XOR-delta stream, decoded, one at a time.
pub struct DeltaDecodingReader {
    inner: Vec<u8>,
    pos: usize,
    prev: u128,
}

/// The decoded records of `bytes`, an XOR-delta stream that follows a record equal to `prev`.
pub open spec fn decoded_records(prev: u128, bytes: Seq<u8>) -> Seq<u128> {
    delta_decode_after(prev, records_of(bytes))
}

impl DeltaDecodingReader {
    /// The bytes of the stream.
    pub closed spec fn bytes(&self) -> Seq<u8> {
        self.inner@
    }

    /// How many bytes have been consumed.
    pub closed spec fn position(&self) -> int {
        self.pos as int
    }

    /// The last record yielded, zero before the first.
    pub closed spec fn previous(&self) -> u128 {
        self.prev
    }

    /// The bytes not yet consumed.
    pub open spec fn rest(&self) -> Seq<u8> {
        self.bytes().subrange(self.position(), self.bytes().len() as int)
    }

    pub closed spec fn wf(&self) -> bool {
        self.pos <= self.inner@.len()
    }

    pub fn new(inner: Vec<u8>) -> (r: Self)
        ensures
            r.wf(),
            r.bytes() == inner@,
            r.position() == 0,
            r.previous() == 0,
            r.rest() == inner@,
    {
        let r = Self { inner, pos: 0, prev: 0 };
        assert(r.rest() =~= inner@);
        r
    }

    /// The next decoded record; `None` at the end of the stream, and an error once where the
    /// stream ends inside a record.
    pub fn next(&mut self) -> (r: Option<Result<u128, StreamError>>)
        requires
            old(self).wf(),
        ensures
            final(self).wf(),
            final(self).bytes() == old(self).bytes(),
            old(self).rest().len() == 0 ==> r is None && final(self).rest().len() == 0,
            old(self).rest().len() >= 16 ==> {
                let v = old(self).previous() ^ le_value(old(self).rest().take(16));
                &&& r matches Some(Ok(d)) && d == v
                &&& final(self).previous() == v
                &&& final(self).rest() == old(self).rest().skip(16)
            },
            0 < old(self).rest().len() < 16 ==> {
                &&& r matches Some(Err(e)) && e is Truncated
                &&& final(self).rest().len() == 0
            },
    {
        let len = self.inner.len();
        if self.pos >= len {
            None
        } else if len - self.pos < 16 {
            self.pos = len;
            Some(Err(StreamError::Truncated))
        } else {
            let ghost rest = self.rest();
            let encoded = read_record(self.inner.as_slice(), self.pos);
            assert(self.inner@.subrange(self.pos as int, self.pos + 16) =~= rest.take(16));
            let decoded = self.prev ^ encoded;
            self.prev = decoded;
            self.pos = self.pos + 16;
            assert(self.rest() =~= rest.skip(16));
            Some(Ok(decoded))
        }
    }

    /// Every record still to come, decoded, with a truncation error last where the stream
    /// ends inside a record.
    pub fn into_records(self) -> (r: Vec<Result<u128, StreamError>>)
        requires
            self.wf(),
        ensures
            r@.len() == records_of(self.rest()).len() + if self.rest().len() % 16 == 0 {
                0int
            } else {
                1int
            },
            forall|k: int|
                0 <= k < records_of(self.rest()).len() ==> #[trigger] r@[k] == Ok::<u128, StreamError>(
                    decoded_records(self.previous(), self.rest())[k],
                ),
            self.rest().len() % 16 != 0 ==> (r@.last() matches Err(e) && e is Truncated),
    {
        let ghost rest = self.rest();
        let ghost recs = records_of(rest);
        let len = self.inner.len();
        let count = (len - self.pos) / 16;
        let mut out: Vec<Result<u128, StreamError>> = Vec::new();
        let mut prev = self.prev;
        let mut off = self.pos;
        let mut k: usize = 0;
        while k < count
            invariant
                len == self.inner@.len(),
                self.pos <= len,
                rest == self.inner@.subrange(self.pos as int, len as int),
                recs == records_of(rest),
                count == recs.len(),
                count * 16 <= len - self.pos,
                k <= count,
                off == self.pos + 16 * k,
                out@.len() == k,
                prev == xor_prefix(self.prev, recs, k as int),
                forall|j: int| 0 <= j < k ==> #[trigger] out@[j] == Ok::<u128, StreamError>(
                    decoded_records(self.prev, rest)[j],
                ),
            decreases count - k,
        {
            let encoded = read_record(self.inner.as_slice(), off);
            assert(self.inner@.subrange(off as int, off + 16) =~= rest.subrange(16 * k, 16 * k + 16));
            prev = prev ^ encoded;
            out.push(Ok(prev));
            k = k + 1;
            off = off + 16;
        }
        if (len - self.pos) % 16 != 0 {
            out.push(Err(StreamError::Truncated));
        }
        out
    }
}

/// A decoding reader over the payload of a stream, zstd-framed or not.
pub fn create_reader(data: Vec<u8>) -> (r: Result<DeltaDecodingReader, StreamError>)
    ensures
        r matches Ok(reader) ==> {
            &&& reader.wf()
            &&& reader.rest() == payload_of(data@)
            &&& reader.previous() == 0
        },
        r matches Err(e) ==> is_zstd_framed(data@) && e is Decompress,
        r is Ok <==> stream_accepted(data@),
{
    match create_reader_with_magic_detection(data) {
        Ok(bytes) => Ok(DeltaDecodingReader::new(bytes)),
        Err(e) => Err(e),
    }
}

} // verus!
