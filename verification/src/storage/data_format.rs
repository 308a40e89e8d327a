use vstd::prelude::*;

verus! {

// A record is framed as an 8-byte big-endian key length, an 8-byte big-endian
// value length, the key bytes, and the value bytes, in that order.

/// The 8-byte big-endian encoding of a 64-bit length.
#[verifier::opaque]
pub open spec fn u64_to_be(x: u64) -> Seq<u8> {
    seq![
        (x >> 56) as u8,
        (x >> 48) as u8,
        (x >> 40) as u8,
        (x >> 32) as u8,
        (x >> 24) as u8,
        (x >> 16) as u8,
        (x >> 8) as u8,
        x as u8,
    ]
}

/// The 64-bit value read back from 8 big-endian bytes.
#[verifier::opaque]
pub open spec fn be_to_u64(s: Seq<u8>) -> u64
    recommends
        s.len() == 8,
{
    (((s[0] as u64) << 56) | ((s[1] as u64) << 48) | ((s[2] as u64) << 40) | ((s[3] as u64) << 32)
        | ((s[4] as u64) << 24) | ((s[5] as u64) << 16) | ((s[6] as u64) << 8) | (s[7] as u64)) as u64
}

/// The encoding is 8 bytes long.
pub broadcast proof fn lemma_u64_to_be_len(x: u64)
    ensures
        (#[trigger] u64_to_be(x)).len() == 8,
{
    reveal(u64_to_be);
}

pub proof fn lemma_u64_be_round_trip(x: u64)
    ensures
        be_to_u64(u64_to_be(x)) == x,
{
    reveal(u64_to_be);
    reveal(be_to_u64);
    assert((((((x >> 56) as u8) as u64) << 56) | ((((x >> 48) as u8) as u64) << 48) | ((((x
        >> 40) as u8) as u64) << 40) | ((((x >> 32) as u8) as u64) << 32) | ((((x >> 24) as u8)
        as u64) << 24) | ((((x >> 16) as u8) as u64) << 16) | ((((x >> 8) as u8) as u64) << 8) | ((
    x as u8) as u64)) == x) by (bit_vector);
}

/// The wire form of one key/value pair.
pub open spec fn spec_encode(key: Seq<u8>, value: Seq<u8>) -> Seq<u8> {
    u64_to_be(key.len() as u64) + u64_to_be(value.len() as u64) + key + value
}

/// Appends the 8 big-endian bytes of `x` to `out`.
pub fn push_u64_be(out: &mut Vec<u8>, x: u64)
    ensures
        final(out)@ == old(out)@ + u64_to_be(x),
{
    out.push((x >> 56) as u8);
    out.push((x >> 48) as u8);
    out.push((x >> 40) as u8);
    out.push((x >> 32) as u8);
    out.push((x >> 24) as u8);
    out.push((x >> 16) as u8);
    out.push((x >> 8) as u8);
    out.push(x as u8);
    proof {
        reveal(u64_to_be);
        assert(out@ =~= old(out)@ + u64_to_be(x));
    }
}

/// Reads back the 8 big-endian bytes at `pos`.
pub fn read_u64_be(data: &[u8], pos: usize) -> (r: u64)
    requires
        pos + 8 <= data@.len(),
    ensures
        r == be_to_u64(data@.subrange(pos as int, pos as int + 8)),
{
    let b = ((data[pos] as u64) << 56) | ((data[pos + 1] as u64) << 48) | ((data[pos + 2] as u64)
        << 40) | ((data[pos + 3] as u64) << 32) | ((data[pos + 4] as u64) << 24) | ((data[pos
        + 5] as u64) << 16) | ((data[pos + 6] as u64) << 8) | (data[pos + 7] as u64);
    proof {
        reveal(be_to_u64);
        let s = data@.subrange(pos as int, pos as int + 8);
        assert(s[0] == data@[pos as int]);
        assert(s[1] == data@[pos as int + 1]);
        assert(s[2] == data@[pos as int + 2]);
        assert(s[3] == data@[pos as int + 3]);
        assert(s[4] == data@[pos as int + 4]);
        assert(s[5] == data@[pos as int + 5]);
        assert(s[6] == data@[pos as int + 6]);
        assert(s[7] == data@[pos as int + 7]);
    }
    b
}

/// Builds the wire frame for one key/value pair.
pub fn encode(key: &[u8], value: &[u8]) -> (r: Vec<u8>)
    ensures
        r@ == spec_encode(key@, value@),
{
    let mut out: Vec<u8> = Vec::new();
    push_u64_be(&mut out, key.len() as u64);
    push_u64_be(&mut out, value.len() as u64);
    out.extend_from_slice(key);
    out.extend_from_slice(value);
    proof {
        broadcast use lemma_u64_to_be_len;

        assert(out@ =~= spec_encode(key@, value@));
    }
    out
}

/// One decoded key/value pair together with the byte lengths read from its header.
#[derive(Debug)]
pub struct Record {
    pub klen: usize,
    pub vlen: usize,
    pub key: Vec<u8>,
    pub value: Vec<u8>,
}

// Spec-level decoding of a record that starts at byte `pos` of `data`.

/// True when at least a full 16-byte header lies at `pos`.
pub open spec fn has_header(data: Seq<u8>, pos: int) -> bool {
    0 <= pos && pos + 16 <= data.len()
}

/// The key length announced by the header at `pos`.
pub open spec fn header_klen(data: Seq<u8>, pos: int) -> u64 {
    be_to_u64(data.subrange(pos, pos + 8))
}

/// The value length announced by the header at `pos`.
pub open spec fn header_vlen(data: Seq<u8>, pos: int) -> u64 {
    be_to_u64(data.subrange(pos + 8, pos + 16))
}

/// The position just past the record whose header lies at `pos`.
pub open spec fn rec_end(data: Seq<u8>, pos: int) -> int {
    pos + 16 + header_klen(data, pos) + header_vlen(data, pos)
}

/// True when a whole record (header and payload) lies at `pos`.
pub open spec fn rec_ok(data: Seq<u8>, pos: int) -> bool {
    has_header(data, pos) && rec_end(data, pos) <= data.len()
}

/// The key bytes of the record at `pos`.
pub open spec fn rec_key(data: Seq<u8>, pos: int) -> Seq<u8> {
    data.subrange(pos + 16, pos + 16 + header_klen(data, pos))
}

/// The value bytes of the record at `pos`.
pub open spec fn rec_value(data: Seq<u8>, pos: int) -> Seq<u8> {
    data.subrange(pos + 16 + header_klen(data, pos), rec_end(data, pos))
}

/// The records laid out one after another from `pos` to the first position
/// where no whole record remains.  A trailing fragment (an incomplete header
/// or a payload shorter than its header announces) ends the sequence.
pub open spec fn records_from(data: Seq<u8>, pos: int) -> Seq<(Seq<u8>, Seq<u8>)>
    decreases data.len() - pos,
    when 0 <= pos
{
    if rec_ok(data, pos) {
        seq![(rec_key(data, pos), rec_value(data, pos))] + records_from(data, rec_end(data, pos))
    } else {
        seq![]
    }
}

/// Every key and value is short enough for its length to ride in the 8-byte
/// header of the wire format.  Anything that ever lived in memory is.
pub open spec fn bounded_records(s: Seq<(Seq<u8>, Seq<u8>)>) -> bool {
    forall|i: int|
        0 <= i < s.len() ==> (#[trigger] s[i]).0.len() < 0x1_0000_0000_0000_0000 && s[i].1.len()
            < 0x1_0000_0000_0000_0000
}

/// The bytes of a run of records, each framed, laid end to end.
pub open spec fn records_bytes(recs: Seq<(Seq<u8>, Seq<u8>)>) -> Seq<u8>
    decreases recs.len(),
{
    if recs.len() == 0 {
        Seq::<u8>::empty()
    } else {
        spec_encode(recs.first().0, recs.first().1) + records_bytes(recs.drop_first())
    }
}

/// Splits the bytes of a run of records around the record at `j`.
pub proof fn lemma_records_bytes_split(recs: Seq<(Seq<u8>, Seq<u8>)>, j: int)
    requires
        0 <= j < recs.len(),
    ensures
        records_bytes(recs) =~= records_bytes(recs.take(j)) + spec_encode(
            recs[j].0,
            recs[j].1,
        ) + records_bytes(recs.skip(j + 1)),
    decreases j,
{
    if j == 0 {
        assert(recs.take(0) =~= Seq::<(Seq<u8>, Seq<u8>)>::empty());
        assert(recs.skip(1) =~= recs.drop_first());
    } else {
        let d = recs.drop_first();
        lemma_records_bytes_split(d, j - 1);
        assert(d.take(j - 1) =~= recs.take(j).drop_first());
        assert(d[j - 1] == recs[j]);
        assert(d.skip(j) =~= recs.skip(j + 1));
        assert(records_bytes(recs.take(j)) == spec_encode(recs[0].0, recs[0].1) + records_bytes(
            recs.take(j).drop_first(),
        ));
    }
}

/// A blob built as a header block followed by the bytes of a run of records
/// decodes back to exactly that run.
#[verifier::rlimit(100)]
pub proof fn lemma_parse_of_image(prefix: Seq<u8>, recs: Seq<(Seq<u8>, Seq<u8>)>)
    requires
        bounded_records(recs),
    ensures
        records_from(prefix + records_bytes(recs), prefix.len() as int) =~= recs,
    decreases recs.len(),
{
    broadcast use lemma_u64_to_be_len;

    let data = prefix + records_bytes(recs);
    let pos = prefix.len() as int;
    if recs.len() == 0 {
        assert(records_bytes(recs) == Seq::<u8>::empty());
        assert(data.len() == prefix.len());
        assert(!has_header(data, pos));
        assert(records_from(data, pos) =~= recs);
    } else {
        let k = recs[0].0;
        let v = recs[0].1;
        let d1 = recs.drop_first();
        let rest = records_bytes(d1);
        assert(records_bytes(recs) == spec_encode(k, v) + rest) by {
            assert(recs.first() == recs[0]);
        }
        let prefix2 = prefix + spec_encode(k, v);
        assert(data =~= prefix2 + rest);
        lemma_decode_encoded(prefix, k, v, rest);
        lemma_parse_of_image(prefix2, d1);
        assert(rec_ok(data, pos));
        assert(rec_end(data, pos) == prefix2.len());
        assert(records_from(data, rec_end(data, pos)) == d1);
        assert(records_from(data, pos) == seq![(rec_key(data, pos), rec_value(data, pos))]
            + records_from(data, rec_end(data, pos)));
        assert(seq![(k, v)] + d1 =~= recs);
    }
}

/// Decoding the frame written for `(key, value)` at the end of `prefix`
/// yields exactly `key` and `value` back, whatever follows it.
pub proof fn lemma_decode_encoded(prefix: Seq<u8>, key: Seq<u8>, value: Seq<u8>, rest: Seq<u8>)
    requires
        key.len() < 0x1_0000_0000_0000_0000,
        value.len() < 0x1_0000_0000_0000_0000,
    ensures
        ({
            let data = prefix + spec_encode(key, value) + rest;
            let pos = prefix.len() as int;
            &&& rec_ok(data, pos)
            &&& header_klen(data, pos) == key.len()
            &&& header_vlen(data, pos) == value.len()
            &&& rec_key(data, pos) == key
            &&& rec_value(data, pos) == value
            &&& rec_end(data, pos) == prefix.len() + 16 + key.len() + value.len()
        }),
{
    broadcast use lemma_u64_to_be_len;

    let data = prefix + spec_encode(key, value) + rest;
    let pos = prefix.len() as int;
    assert(data.subrange(pos, pos + 8) =~= u64_to_be(key.len() as u64));
    assert(data.subrange(pos + 8, pos + 16) =~= u64_to_be(value.len() as u64));
    lemma_u64_be_round_trip(key.len() as u64);
    lemma_u64_be_round_trip(value.len() as u64);
    assert(header_klen(data, pos) == key.len());
    assert(header_vlen(data, pos) == value.len());
    assert(rec_key(data, pos) =~= key);
    assert(rec_value(data, pos) =~= value);
}

} // verus!
