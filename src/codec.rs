//! Big-endian encoding of the index header and of fixed-width records.
use vstd::prelude::*;

verus! {

/// Size in bytes of the record-count header at the front of an index file.
pub const RECORD_COUNTER_SIZE: u64 = 8;

/// Size in bytes of one record: identifier (4), chromosome (1), position (4).
pub const RECORD_SIZE: u64 = 9;

/// One entry of the index.
#[derive(Clone, Copy, Debug, PartialEq, Eq, Structural)]
pub struct MapRecord {
    pub rsid: u32,
    pub chrom: u8,
    pub pos: u32,
}

/// The four bytes of `x`, most significant first.
pub open spec fn u32_be_bytes(x: u32) -> Seq<u8> {
    seq![(x >> 24u32) as u8, (x >> 16u32) as u8, (x >> 8u32) as u8, x as u8]
}

/// The eight bytes of `x`, most significant first.
pub open spec fn u64_be_bytes(x: u64) -> Seq<u8> {
    seq![
        (x >> 56u64) as u8, (x >> 48u64) as u8, (x >> 40u64) as u8, (x >> 32u64) as u8,
        (x >> 24u64) as u8, (x >> 16u64) as u8, (x >> 8u64) as u8, x as u8,
    ]
}

/// The `u32` whose big-endian bytes start at `at` in `b`.
pub open spec fn u32_from_be(b: Seq<u8>, at: int) -> u32 {
    ((b[at] as u32) << 24u32) | ((b[at + 1] as u32) << 16u32) | ((b[at + 2] as u32) << 8u32)
        | (b[at + 3] as u32)
}

/// The `u64` whose big-endian bytes start at `at` in `b`.
pub open spec fn u64_from_be(b: Seq<u8>, at: int) -> u64 {
    ((b[at] as u64) << 56u64) | ((b[at + 1] as u64) << 48u64) | ((b[at + 2] as u64) << 40u64)
        | ((b[at + 3] as u64) << 32u64) | ((b[at + 4] as u64) << 24u64) | ((b[at + 5] as u64)
        << 16u64) | ((b[at + 6] as u64) << 8u64) | (b[at + 7] as u64)
}

/// The nine bytes that store one record.
pub open spec fn record_bytes(r: MapRecord) -> Seq<u8> {
    u32_be_bytes(r.rsid) + seq![r.chrom] + u32_be_bytes(r.pos)
}

/// The record whose nine bytes start at `at` in `b`.
pub open spec fn record_from(b: Seq<u8>, at: int) -> MapRecord {
    MapRecord { rsid: u32_from_be(b, at), chrom: b[at + 4], pos: u32_from_be(b, at + 5) }
}

/// Byte offset of record `i` in an index file.
pub open spec fn seek_index(i: int) -> int {
    RECORD_COUNTER_SIZE + i * RECORD_SIZE
}

/// Decoding the big-endian bytes of a `u32` gives it back.
pub proof fn lemma_u32_round_trip(x: u32, b: Seq<u8>, at: int)
    requires
        0 <= at,
        at + 4 <= b.len(),
        b.subrange(at, at + 4) == u32_be_bytes(x),
    ensures
        u32_from_be(b, at) == x,
{
    assert(b[at] == u32_be_bytes(x)[0]);
    assert(b[at + 1] == u32_be_bytes(x)[1]);
    assert(b[at + 2] == u32_be_bytes(x)[2]);
    assert(b[at + 3] == u32_be_bytes(x)[3]);
    assert(((((x >> 24u32) as u8) as u32) << 24u32) | ((((x >> 16u32) as u8) as u32) << 16u32)
        | ((((x >> 8u32) as u8) as u32) << 8u32) | ((x as u8) as u32) == x) by (bit_vector);
}

/// Decoding the big-endian bytes of a `u64` gives it back.
pub proof fn lemma_u64_round_trip(x: u64, b: Seq<u8>, at: int)
    requires
        0 <= at,
        at + 8 <= b.len(),
        b.subrange(at, at + 8) == u64_be_bytes(x),
    ensures
        u64_from_be(b, at) == x,
{
    assert forall|k: int| 0 <= k < 8 implies b[at + k] == u64_be_bytes(x)[k] by {
        assert(b[at + k] == b.subrange(at, at + 8)[k]);
    }
    assert(((((x >> 56u64) as u8) as u64) << 56u64) | ((((x >> 48u64) as u8) as u64) << 48u64)
        | ((((x >> 40u64) as u8) as u64) << 40u64) | ((((x >> 32u64) as u8) as u64) << 32u64)
        | ((((x >> 24u64) as u8) as u64) << 24u64) | ((((x >> 16u64) as u8) as u64) << 16u64)
        | ((((x >> 8u64) as u8) as u64) << 8u64) | ((x as u8) as u64) == x) by (bit_vector);
}

/// Decoding the nine bytes of a record gives the record back.
pub proof fn lemma_record_round_trip(r: MapRecord, b: Seq<u8>, at: int)
    requires
        0 <= at,
        at + 9 <= b.len(),
        b.subrange(at, at + 9) == record_bytes(r),
    ensures
        record_from(b, at) == r,
{
    assert(b.subrange(at, at + 4) =~= b.subrange(at, at + 9).subrange(0, 4));
    assert(b.subrange(at + 5, at + 9) =~= b.subrange(at, at + 9).subrange(5, 9));
    assert(record_bytes(r).subrange(0, 4) =~= u32_be_bytes(r.rsid));
    assert(record_bytes(r).subrange(5, 9) =~= u32_be_bytes(r.pos));
    assert(b[at + 4] == b.subrange(at, at + 9)[4]);
    lemma_u32_round_trip(r.rsid, b, at);
    lemma_u32_round_trip(r.pos, b, at + 5);
}

/// Appends the big-endian bytes of `x` to `out`.
pub fn push_u32_be(out: &mut Vec<u8>, x: u32)
    ensures
        final(out)@ == old(out)@ + u32_be_bytes(x),
{
    out.push((x >> 24u32) as u8);
    out.push((x >> 16u32) as u8);
    out.push((x >> 8u32) as u8);
    out.push(x as u8);
    assert(final(out)@ =~= old(out)@ + u32_be_bytes(x));
}

/// Appends the big-endian bytes of `x` to `out`.
pub fn push_u64_be(out: &mut Vec<u8>, x: u64)
    ensures
        final(out)@ == old(out)@ + u64_be_bytes(x),
{
    out.push((x >> 56u64) as u8);
    out.push((x >> 48u64) as u8);
    out.push((x >> 40u64) as u8);
    out.push((x >> 32u64) as u8);
    out.push((x >> 24u64) as u8);
    out.push((x >> 16u64) as u8);
    out.push((x >> 8u64) as u8);
    out.push(x as u8);
    assert(final(out)@ =~= old(out)@ + u64_be_bytes(x));
}

/// Appends the nine bytes of one record to `out`.
pub fn write_map_record(out: &mut Vec<u8>, rsid: u32, chrom: u8, pos: u32)
    ensures
        final(out)@ == old(out)@ + record_bytes(MapRecord { rsid, chrom, pos }),
{
    push_u32_be(out, rsid);
    out.push(chrom);
    push_u32_be(out, pos);
    assert(final(out)@ =~= old(out)@ + record_bytes(MapRecord { rsid, chrom, pos }));
}

/// Byte offset of record `record_idx` in an index file.
pub fn get_map_seek_index(record_idx: u64) -> (r: u64)
    requires
        seek_index(record_idx as int) <= u64::MAX,
    ensures
        r == seek_index(record_idx as int),
{
    RECORD_COUNTER_SIZE + record_idx * RECORD_SIZE
}

/// The byte at `offset`.
pub fn read_u8_at(b: &[u8], offset: usize) -> (r: u8)
    requires
        offset < b@.len(),
    ensures
        r == b@[offset as int],
{
    b[offset]
}

/// The big-endian `u32` at `offset`.
pub fn read_u32_at(b: &[u8], offset: usize) -> (r: u32)
    requires
        offset + 4 <= b@.len(),
    ensures
        r == u32_from_be(b@, offset as int),
{
    let i = offset;
    ((b[i] as u32) << 24u32) | ((b[i + 1] as u32) << 16u32) | ((b[i + 2] as u32) << 8u32) | (b[i
        + 3] as u32)
}

/// The big-endian `u64` at `offset`.
pub fn read_u64_at(b: &[u8], offset: usize) -> (r: u64)
    requires
        offset + 8 <= b@.len(),
    ensures
        r == u64_from_be(b@, offset as int),
{
    let i = offset;
    ((b[i] as u64) << 56u64) | ((b[i + 1] as u64) << 48u64) | ((b[i + 2] as u64) << 40u64) | ((b[i
        + 3] as u64) << 32u64) | ((b[i + 4] as u64) << 24u64) | ((b[i + 5] as u64) << 16u64) | ((b[i
        + 6] as u64) << 8u64) | (b[i + 7] as u64)
}

/// The record whose nine bytes start at `offset`.
pub fn read_record_at(b: &[u8], offset: usize) -> (r: MapRecord)
    requires
        offset + 9 <= b@.len(),
    ensures
        r == record_from(b@, offset as int),
{
    let _len = b.len();
    MapRecord {
        rsid: read_u32_at(b, offset),
        chrom: read_u8_at(b, offset + 4),
        pos: read_u32_at(b, offset + 5),
    }
}

} // verus!
