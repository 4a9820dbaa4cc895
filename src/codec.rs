use vstd::prelude::*;

verus! {

/// Bytes in one stored record.
pub const RECORD_SIZE: usize = 16;

/// The value of up to 16 bytes read least significant first.
pub open spec fn le_value(b: Seq<u8>) -> u128
    decreases b.len(),
{
    if b.len() == 0 {
        0
    } else {
        le_value(b.drop_last()) | ((b.last() as u128) << ((8 * (b.len() - 1)) as u128))
    }
}

/// The 16 bytes of `v`, least significant first.
pub open spec fn le_bytes(v: u128) -> Seq<u8> {
    Seq::new(16, |k: int| ((v >> ((8 * k) as u128)) & 0xff) as u8)
}

/// The whole records of a byte stream, in order.
pub open spec fn records_of(bytes: Seq<u8>) -> Seq<u128> {
    Seq::new((bytes.len() / 16) as nat, |k: int| le_value(bytes.subrange(16 * k, 16 * k + 16)))
}

/// The bytes of a sequence of records, each least significant byte first.
pub open spec fn bytes_of(s: Seq<u128>) -> Seq<u8>
    decreases s.len(),
{
    if s.len() == 0 {
        Seq::empty()
    } else {
        bytes_of(s.drop_last()) + le_bytes(s.last())
    }
}

/// `prev` XORed with the first `n` records of `s`.
pub open spec fn xor_prefix(prev: u128, s: Seq<u128>, n: int) -> u128
    decreases n,
{
    if n <= 0 {
        prev
    } else {
        xor_prefix(prev, s, n - 1) ^ s[n - 1]
    }
}

/// Undoes the XOR-delta of `enc`, which followed a record equal to `prev`.
pub open spec fn delta_decode_after(prev: u128, enc: Seq<u128>) -> Seq<u128> {
    Seq::new(enc.len(), |i: int| xor_prefix(prev, enc, i + 1))
}

/// The XOR-delta of `s`, which follows a record equal to `prev`.
pub open spec fn delta_encode_after(prev: u128, s: Seq<u128>) -> Seq<u128> {
    Seq::new(s.len(), |i: int| s[i] ^ (if i == 0 { prev } else { s[i - 1] }))
}

/// Decoding of a whole XOR-delta stream.
pub open spec fn delta_decode(enc: Seq<u128>) -> Seq<u128> {
    delta_decode_after(0, enc)
}

/// XOR-delta of a whole stream: the first record as is, then each XORed with the one before.
pub open spec fn delta_encode(s: Seq<u128>) -> Seq<u128> {
    delta_encode_after(0, s)
}

/// Reads the 16-byte record that starts at `offset`.
pub fn read_record(bytes: &[u8], offset: usize) -> (r: u128)
    requires
        offset + 16 <= bytes@.len(),
    ensures
        r == le_value(bytes@.subrange(offset as int, offset + 16)),
{
    let len = bytes.len();
    let mut v: u128 = 0;
    let mut k: usize = 0;
    while k < 16
        invariant
            k <= 16,
            len == bytes@.len(),
            offset + 16 <= bytes@.len(),
            v == le_value(bytes@.subrange(offset as int, offset + k)),
        decreases 16 - k,
    {
        let ghost prefix = bytes@.subrange(offset as int, offset + k + 1);
        assert(prefix.drop_last() =~= bytes@.subrange(offset as int, offset + k));
        v = v | ((bytes[offset + k] as u128) << ((8 * k) as u128));
        k = k + 1;
    }
    v
}

/// Appends the 16 bytes of `v`, least significant first.
pub fn write_record(v: u128, out: &mut Vec<u8>)
    ensures
        final(out)@ == old(out)@ + le_bytes(v),
{
    let ghost start = out@;
    let mut k: usize = 0;
    while k < 16
        invariant
            k <= 16,
            out@ == start + le_bytes(v).take(k as int),
        decreases 16 - k,
    {
        out.push(((v >> ((8 * k) as u128)) & 0xff) as u8);
        k = k + 1;
        assert(out@ =~= start + le_bytes(v).take(k as int));
    }
    assert(le_bytes(v).take(16) =~= le_bytes(v));
}

/// Decoding undoes encoding, from any starting record.
pub proof fn lemma_delta_decode_encode(prev: u128, s: Seq<u128>)
    ensures
        delta_decode_after(prev, delta_encode_after(prev, s)) == s,
{
    let enc = delta_encode_after(prev, s);
    assert forall|n: int| 1 <= n <= s.len() implies xor_prefix(prev, enc, n) == s[n - 1] by {
        lemma_xor_prefix_of_encoding(prev, s, n);
    }
    assert(delta_decode_after(prev, enc) =~= s);
}

proof fn lemma_xor_prefix_of_encoding(prev: u128, s: Seq<u128>, n: int)
    requires
        1 <= n <= s.len(),
    ensures
        xor_prefix(prev, delta_encode_after(prev, s), n) == s[n - 1],
    decreases n,
{
    let enc = delta_encode_after(prev, s);
    let a = s[n - 1];
    if n == 1 {
        assert(xor_prefix(prev, enc, 0) == prev);
        assert(prev ^ (a ^ prev) == a) by (bit_vector);
    } else {
        lemma_xor_prefix_of_encoding(prev, s, n - 1);
        let b = s[n - 2];
        assert(b ^ (a ^ b) == a) by (bit_vector);
    }
}

/// Encoding undoes decoding, from any starting record.
pub proof fn lemma_delta_encode_decode(prev: u128, enc: Seq<u128>)
    ensures
        delta_encode_after(prev, delta_decode_after(prev, enc)) == enc,
{
    let dec = delta_decode_after(prev, enc);
    assert forall|i: int| 0 <= i < enc.len() implies #[trigger] delta_encode_after(prev, dec)[i] == enc[i] by {
        let e = enc[i];
        let p = xor_prefix(prev, enc, i);
        assert(i == 0 ==> p == prev);
        assert((p ^ e) ^ p == e) by (bit_vector);
    }
    assert(delta_encode_after(prev, dec) =~= enc);
}

/// Round trip of the XOR-delta transform on a whole stream: `decode(encode(s)) == s`.
pub proof fn lemma_delta_round_trip(s: Seq<u128>)
    ensures
        delta_decode(delta_encode(s)) == s,
        delta_encode(s).len() == s.len(),
        s.len() > 0 ==> delta_encode(s)[0] == s[0],
{
    lemma_delta_decode_encode(0, s);
    if s.len() > 0 {
        let a = s[0];
        assert(a ^ 0 == a) by (bit_vector);
    }
}

proof fn lemma_le_value_prefix(v: u128, k: int)
    requires
        0 <= k <= 16,
    ensures
        k < 16 ==> le_value(le_bytes(v).take(k)) == v & !(!0u128 << ((8 * k) as u128)),
        k == 16 ==> le_value(le_bytes(v).take(k)) == v,
    decreases k,
{
    let bs = le_bytes(v);
    if k == 0 {
        assert(bs.take(0).len() == 0);
        assert(v & !(!0u128 << 0u128) == 0) by (bit_vector);
    } else {
        lemma_le_value_prefix(v, k - 1);
        assert(bs.take(k).drop_last() =~= bs.take(k - 1));
        let s0 = (8 * (k - 1)) as u128;
        let s1 = (8 * k) as u128;
        let byte = bs[k - 1];
        assert(byte == ((v >> s0) & 0xff) as u8);
        assert(le_value(bs.take(k)) == (v & !(!0u128 << s0)) | ((byte as u128) << s0));
        if k < 16 {
            assert((v & !(!0u128 << s0)) | ((((v >> s0) & 0xff) as u8) as u128) << s0 == v & !(!0u128 << s1)) by (bit_vector)
                requires
                    s1 == s0 + 8,
                    s1 < 128;
        } else {
            assert((v & !(!0u128 << s0)) | ((((v >> s0) & 0xff) as u8) as u128) << s0 == v) by (bit_vector)
                requires
                    s0 == 120;
        }
    }
}

/// Reading back the bytes of a sequence of records gives the records: the written stream is
/// the records, 16 bytes each, least significant byte first.
pub proof fn lemma_records_of_bytes(s: Seq<u128>)
    ensures
        bytes_of(s).len() == 16 * s.len(),
        records_of(bytes_of(s)) == s,
    decreases s.len(),
{
    if s.len() > 0 {
        let rest = s.drop_last();
        lemma_records_of_bytes(rest);
        let b = bytes_of(s);
        let br = bytes_of(rest);
        assert(b == br + le_bytes(s.last()));
        assert forall|k: int| 0 <= k < s.len() implies #[trigger] records_of(b)[k] == s[k] by {
            if k < rest.len() {
                assert(b.subrange(16 * k, 16 * k + 16) =~= br.subrange(16 * k, 16 * k + 16));
                assert(records_of(br)[k] == rest[k]);
            } else {
                assert(b.subrange(16 * k, 16 * k + 16) =~= le_bytes(s.last()));
                lemma_le_value_prefix(s.last(), 16);
                assert(le_bytes(s.last()).take(16) =~= le_bytes(s.last()));
            }
        }
        assert(records_of(b) =~= s);
    } else {
        assert(records_of(bytes_of(s)) =~= s);
    }
}

/// The XOR-delta round trip on the stored form: the bytes the encoder writes for `s`, read
/// back as records and decoded, give `s` again.
pub proof fn lemma_stream_round_trip(s: Seq<u128>)
    ensures
        delta_decode(records_of(bytes_of(delta_encode(s)))) == s,
{
    lemma_records_of_bytes(delta_encode(s));
    lemma_delta_round_trip(s);
}

} // verus!
