//! The XYZ binary record store.
//!
//! A store file is the four magic bytes `XYZB`, a 56-byte header — record
//! count and the coordinate-wise bounds of all records, seven 64-bit
//! little-endian fields — and then one 24-byte cell per record. The
//! writer accumulates the header while records are appended; a caller
//! can take the finished file as one byte vector, or stream it — a
//! placeholder prefix first, cells batch by batch, and the finished
//! header patched over the placeholder at the end. The reader
//! validates the magic, parses the header and hands the records back
//! in chunks of up to 1024.

use vstd::prelude::*;

use crate::bytes::{
    lemma_u32_le_round_trip, lemma_u64_le_round_trip, push_u32_le, push_u64_le, read_u32_le,
    read_u64_le, u32_from_le, u32_le_bytes, u64_from_le, u64_le_bytes,
};
use crate::fbits::{
    f32_bits_widen, f64_bits_max_acc, f64_bits_min_acc, f64_max_acc, f64_min_acc, f64_of_f32,
};

verus! {

/// Bit pattern of the largest finite 64-bit sample; the seed of a lower
/// bound that any sample lowers.
pub const F64_MAX_BITS: u64 = 0x7FEF_FFFF_FFFF_FFFF;

/// Bit pattern of the smallest finite 64-bit sample; the seed of an
/// upper bound that any sample raises.
pub const F64_MIN_BITS: u64 = 0xFFEF_FFFF_FFFF_FFFF;

/// A single record of an observed laser data point needed by the
/// algorithms. Coordinates are 64-bit patterns, the height a 32-bit one.
#[derive(Debug, Clone, Copy, PartialEq, Eq, Structural)]
pub struct XyzRecord {
    pub x: u64,
    pub y: u64,
    pub z: u32,
    pub classification: u8,
    pub number_of_returns: u8,
    pub return_number: u8,
}

/// The store header: the record count and the coordinate-wise bounds of
/// every record written.
#[derive(Debug, Clone, Copy, PartialEq, Eq, Structural)]
pub struct XyzHeader {
    pub n_records: u64,
    pub min_x: u64,
    pub max_x: u64,
    pub min_y: u64,
    pub max_y: u64,
    pub min_z: u64,
    pub max_z: u64,
}

/// Failures of the store reader.
#[derive(Debug, Clone, Copy, PartialEq, Eq, Structural)]
pub enum XyzError {
    /// The file does not begin with the four magic bytes.
    InvalidMagic,
    /// The file ends before the advertised content.
    UnexpectedEof,
}

/// The four magic bytes `XYZB`.
pub open spec fn magic_bytes() -> Seq<u8> {
    seq![0x58u8, 0x59u8, 0x5Au8, 0x42u8]
}

/// The header of an empty store: zero records, bounds at their seeds.
pub open spec fn empty_header() -> XyzHeader {
    XyzHeader {
        n_records: 0,
        min_x: F64_MAX_BITS,
        max_x: F64_MIN_BITS,
        min_y: F64_MAX_BITS,
        max_y: F64_MIN_BITS,
        min_z: F64_MAX_BITS,
        max_z: F64_MIN_BITS,
    }
}

/// One record folded into the running header: the count goes up by
/// one (saturating at its ceiling, which 24-byte cells cannot reach)
/// and each bound moves if the record lies beyond it.
pub open spec fn header_acc(h: XyzHeader, r: XyzRecord) -> XyzHeader {
    XyzHeader {
        n_records: if h.n_records == u64::MAX {
            u64::MAX
        } else {
            (h.n_records + 1) as u64
        },
        min_x: f64_min_acc(h.min_x, r.x),
        max_x: f64_max_acc(h.max_x, r.x),
        min_y: f64_min_acc(h.min_y, r.y),
        max_y: f64_max_acc(h.max_y, r.y),
        min_z: f64_min_acc(h.min_z, f64_of_f32(r.z)),
        max_z: f64_max_acc(h.max_z, f64_of_f32(r.z)),
    }
}

/// The header a sequence of records accumulates to.
pub open spec fn header_of(rs: Seq<XyzRecord>) -> XyzHeader
    decreases rs.len(),
{
    if rs.len() == 0 {
        empty_header()
    } else {
        header_acc(header_of(rs.drop_last()), rs.last())
    }
}

/// The bounds clause of the store law: the header any records
/// accumulate to never holds NaN bounds, and every record's non-NaN
/// coordinate lies between the matching pair of bounds.
pub proof fn lemma_header_bounds(rs: Seq<XyzRecord>)
    ensures
        !crate::fbits::f64_is_nan(header_of(rs).min_x),
        !crate::fbits::f64_is_nan(header_of(rs).max_x),
        !crate::fbits::f64_is_nan(header_of(rs).min_y),
        !crate::fbits::f64_is_nan(header_of(rs).max_y),
        !crate::fbits::f64_is_nan(header_of(rs).min_z),
        !crate::fbits::f64_is_nan(header_of(rs).max_z),
        forall|i: int|
            0 <= i < rs.len() && !crate::fbits::f64_is_nan((#[trigger] rs[i]).x) ==> crate::fbits::f64_le(
                header_of(rs).min_x,
                rs[i].x,
            ) && crate::fbits::f64_le(rs[i].x, header_of(rs).max_x),
        forall|i: int|
            0 <= i < rs.len() && !crate::fbits::f64_is_nan((#[trigger] rs[i]).y) ==> crate::fbits::f64_le(
                header_of(rs).min_y,
                rs[i].y,
            ) && crate::fbits::f64_le(rs[i].y, header_of(rs).max_y),
        forall|i: int|
            0 <= i < rs.len() && !crate::fbits::f64_is_nan(f64_of_f32((#[trigger] rs[i]).z))
                ==> crate::fbits::f64_le(header_of(rs).min_z, f64_of_f32(rs[i].z))
                && crate::fbits::f64_le(f64_of_f32(rs[i].z), header_of(rs).max_z),
    decreases rs.len(),
{
    if rs.len() == 0 {
        // the seeds are the largest and smallest finite patterns
        assert(0x7FEF_FFFF_FFFF_FFFFu64 & 0x7FFF_FFFF_FFFF_FFFFu64
            <= 0x7FF0_0000_0000_0000u64) by (bit_vector);
        assert(0xFFEF_FFFF_FFFF_FFFFu64 & 0x7FFF_FFFF_FFFF_FFFFu64
            <= 0x7FF0_0000_0000_0000u64) by (bit_vector);
    } else {
        lemma_header_bounds(rs.drop_last());
        let h0 = header_of(rs.drop_last());
        let h1 = header_of(rs);
        let r = rs.last();
        crate::fbits::lemma_bounds_acc(h0.min_x, h0.max_x, r.x);
        crate::fbits::lemma_bounds_acc(h0.min_y, h0.max_y, r.y);
        crate::fbits::lemma_bounds_acc(h0.min_z, h0.max_z, f64_of_f32(r.z));
        assert forall|i: int|
            0 <= i < rs.len() && !crate::fbits::f64_is_nan((#[trigger] rs[i]).x) implies crate::fbits::f64_le(
            h1.min_x,
            rs[i].x,
        ) && crate::fbits::f64_le(rs[i].x, h1.max_x) by {
            if i < rs.len() - 1 {
                assert(rs.drop_last()[i] == rs[i]);
                crate::fbits::lemma_f64_le_trans(h1.min_x, h0.min_x, rs[i].x);
                crate::fbits::lemma_f64_le_trans(rs[i].x, h0.max_x, h1.max_x);
            }
        }
        assert forall|i: int|
            0 <= i < rs.len() && !crate::fbits::f64_is_nan((#[trigger] rs[i]).y) implies crate::fbits::f64_le(
            h1.min_y,
            rs[i].y,
        ) && crate::fbits::f64_le(rs[i].y, h1.max_y) by {
            if i < rs.len() - 1 {
                assert(rs.drop_last()[i] == rs[i]);
                crate::fbits::lemma_f64_le_trans(h1.min_y, h0.min_y, rs[i].y);
                crate::fbits::lemma_f64_le_trans(rs[i].y, h0.max_y, h1.max_y);
            }
        }
        assert forall|i: int|
            0 <= i < rs.len() && !crate::fbits::f64_is_nan(f64_of_f32((#[trigger] rs[i]).z)) implies crate::fbits::f64_le(
            h1.min_z,
            f64_of_f32(rs[i].z),
        ) && crate::fbits::f64_le(f64_of_f32(rs[i].z), h1.max_z) by {
            if i < rs.len() - 1 {
                assert(rs.drop_last()[i] == rs[i]);
                crate::fbits::lemma_f64_le_trans(h1.min_z, h0.min_z, f64_of_f32(rs[i].z));
                crate::fbits::lemma_f64_le_trans(f64_of_f32(rs[i].z), h0.max_z, h1.max_z);
            }
        }
    }
}

/// The 24 bytes of one record: x, y, z little-endian, then the three
/// classification bytes and one zero pad byte.
pub open spec fn record_bytes(r: XyzRecord) -> Seq<u8> {
    u64_le_bytes(r.x) + u64_le_bytes(r.y) + u32_le_bytes(r.z) + seq![
        r.classification,
        r.number_of_returns,
        r.return_number,
        0u8,
    ]
}

/// The record read back from a 24-byte cell.
pub open spec fn record_from_bytes(s: Seq<u8>) -> XyzRecord
    recommends
        s.len() == 24,
{
    XyzRecord {
        x: u64_from_le(s.subrange(0, 8)),
        y: u64_from_le(s.subrange(8, 16)),
        z: u32_from_le(s.subrange(16, 20)),
        classification: s[20],
        number_of_returns: s[21],
        return_number: s[22],
    }
}

/// The concatenated cells of a sequence of records.
pub open spec fn records_bytes(rs: Seq<XyzRecord>) -> Seq<u8>
    decreases rs.len(),
{
    if rs.len() == 0 {
        Seq::<u8>::empty()
    } else {
        record_bytes(rs[0]) + records_bytes(rs.drop_first())
    }
}

/// The 56 header bytes: seven 64-bit little-endian fields.
pub open spec fn header_bytes(h: XyzHeader) -> Seq<u8> {
    u64_le_bytes(h.n_records) + u64_le_bytes(h.min_x) + u64_le_bytes(h.max_x) + u64_le_bytes(
        h.min_y,
    ) + u64_le_bytes(h.max_y) + u64_le_bytes(h.min_z) + u64_le_bytes(h.max_z)
}

/// The header read back from a store file's first 60 bytes.
pub open spec fn parse_header(bytes: Seq<u8>) -> XyzHeader
    recommends
        bytes.len() >= 60,
{
    XyzHeader {
        n_records: u64_from_le(bytes.subrange(4, 12)),
        min_x: u64_from_le(bytes.subrange(12, 20)),
        max_x: u64_from_le(bytes.subrange(20, 28)),
        min_y: u64_from_le(bytes.subrange(28, 36)),
        max_y: u64_from_le(bytes.subrange(36, 44)),
        min_z: u64_from_le(bytes.subrange(44, 52)),
        max_z: u64_from_le(bytes.subrange(52, 60)),
    }
}

/// The records read back from `n` cells starting at `start`.
pub open spec fn parse_records(bytes: Seq<u8>, start: int, n: nat) -> Seq<XyzRecord>
    decreases n,
{
    if n == 0 {
        Seq::<XyzRecord>::empty()
    } else {
        seq![record_from_bytes(bytes.subrange(start, start + 24))] + parse_records(
            bytes,
            start + 24,
            (n - 1) as nat,
        )
    }
}

/// The whole store file of a sequence of records.
pub open spec fn file_bytes(rs: Seq<XyzRecord>) -> Seq<u8> {
    magic_bytes() + header_bytes(header_of(rs)) + records_bytes(rs)
}

/// Folding one more record onto the back accumulates onto the header.
pub proof fn lemma_header_of_push(rs: Seq<XyzRecord>, r: XyzRecord)
    ensures
        header_of(rs.push(r)) == header_acc(header_of(rs), r),
{
    assert(rs.push(r).drop_last() =~= rs);
    assert(rs.push(r).last() == r);
}

/// Cells concatenate record by record.
pub proof fn lemma_records_bytes_push(rs: Seq<XyzRecord>, r: XyzRecord)
    ensures
        records_bytes(rs.push(r)) == records_bytes(rs) + record_bytes(r),
    decreases rs.len(),
{
    if rs.len() == 0 {
        assert(rs.push(r)[0] == r);
        assert(rs.push(r).drop_first() =~= Seq::<XyzRecord>::empty());
        assert(records_bytes(Seq::<XyzRecord>::empty()) == Seq::<u8>::empty());
        assert(records_bytes(rs.push(r)) == record_bytes(r) + Seq::<u8>::empty());
        assert(records_bytes(rs.push(r)) =~= records_bytes(rs) + record_bytes(r));
    } else {
        assert(rs.push(r).drop_first() =~= rs.drop_first().push(r));
        lemma_records_bytes_push(rs.drop_first(), r);
        assert(rs.push(r)[0] == rs[0]);
        assert(records_bytes(rs.push(r)) == record_bytes(rs[0]) + (records_bytes(rs.drop_first())
            + record_bytes(r)));
        assert(record_bytes(rs[0]) + (records_bytes(rs.drop_first()) + record_bytes(r)) =~= (
        record_bytes(rs[0]) + records_bytes(rs.drop_first())) + record_bytes(r));
    }
}

/// Cells of concatenated record lists concatenate.
pub proof fn lemma_records_bytes_concat(a: Seq<XyzRecord>, b: Seq<XyzRecord>)
    ensures
        records_bytes(a + b) == records_bytes(a) + records_bytes(b),
    decreases a.len(),
{
    if a.len() == 0 {
        assert(a + b =~= b);
        assert(records_bytes(a) =~= Seq::<u8>::empty());
        assert(records_bytes(a) + records_bytes(b) =~= records_bytes(b));
    } else {
        assert((a + b).drop_first() =~= a.drop_first() + b);
        assert((a + b)[0] == a[0]);
        lemma_records_bytes_concat(a.drop_first(), b);
        assert(record_bytes(a[0]) + (records_bytes(a.drop_first()) + records_bytes(b)) =~= (
        record_bytes(a[0]) + records_bytes(a.drop_first())) + records_bytes(b));
    }
}

/// The 56 placeholder bytes a streamed store carries until its header
/// is patched in.
pub open spec fn placeholder_bytes() -> Seq<u8> {
    Seq::new(56, |i: int| 0xFFu8)
}

/// The streamed layout: the prefix is as long as magic and header
/// together, the header patch is 56 bytes, and prefix-then-cells with
/// the header patched at its place is the whole store file.
pub proof fn lemma_stream_layout(rs: Seq<XyzRecord>)
    ensures
        (magic_bytes() + placeholder_bytes()).len() == 60,
        header_bytes(header_of(rs)).len() == 56,
        magic_bytes() + header_bytes(header_of(rs)) + records_bytes(rs) == file_bytes(rs),
{
}

/// The cells of `n` records hold `24 * n` bytes.
pub proof fn lemma_records_bytes_len(rs: Seq<XyzRecord>)
    ensures
        records_bytes(rs).len() == 24 * rs.len(),
    decreases rs.len(),
{
    if rs.len() > 0 {
        lemma_records_bytes_len(rs.drop_first());
    }
}

/// Reading back the 24 bytes of a record gives the record.
pub proof fn lemma_record_round_trip(r: XyzRecord)
    ensures
        record_from_bytes(record_bytes(r)) == r,
{
    let s = record_bytes(r);
    assert(s.subrange(0, 8) =~= u64_le_bytes(r.x));
    assert(s.subrange(8, 16) =~= u64_le_bytes(r.y));
    assert(s.subrange(16, 20) =~= u32_le_bytes(r.z));
    lemma_u64_le_round_trip(r.x);
    lemma_u64_le_round_trip(r.y);
    lemma_u32_le_round_trip(r.z);
    assert(s[20] == r.classification);
    assert(s[21] == r.number_of_returns);
    assert(s[22] == r.return_number);
}

/// Parsing `n` cells that sit unchanged inside a byte sequence gives
/// back the records whose cells they are.
pub proof fn lemma_parse_records_of(bytes: Seq<u8>, start: int, rs: Seq<XyzRecord>)
    requires
        0 <= start,
        start + 24 * rs.len() <= bytes.len(),
        bytes.subrange(start, start + 24 * rs.len()) == records_bytes(rs),
    ensures
        parse_records(bytes, start, rs.len()) == rs,
    decreases rs.len(),
{
    lemma_records_bytes_len(rs);
    if rs.len() == 0 {
        assert(parse_records(bytes, start, 0) =~= rs);
    } else {
        let whole = bytes.subrange(start, start + 24 * rs.len());
        lemma_records_bytes_len(rs.drop_first());
        assert(bytes.subrange(start, start + 24) =~= record_bytes(rs[0])) by {
            assert(forall|i: int|
                0 <= i < 24 ==> #[trigger] bytes.subrange(start, start + 24)[i] == whole[i]);
            assert(forall|i: int| 0 <= i < 24 ==> whole[i] == #[trigger] record_bytes(rs[0])[i]);
        }
        lemma_record_round_trip(rs[0]);
        assert(bytes.subrange(start + 24, start + 24 + 24 * rs.drop_first().len())
            =~= records_bytes(rs.drop_first())) by {
            assert(forall|i: int|
                0 <= i < 24 * rs.drop_first().len() ==> #[trigger] bytes.subrange(
                    start + 24,
                    start + 24 + 24 * rs.drop_first().len(),
                )[i] == whole[i + 24]);
            assert(forall|i: int|
                0 <= i < 24 * rs.drop_first().len() ==> #[trigger] records_bytes(
                    rs.drop_first(),
                )[i] == whole[i + 24]);
        }
        lemma_parse_records_of(bytes, start + 24, rs.drop_first());
        assert(parse_records(bytes, start, rs.len()) =~= seq![rs[0]] + rs.drop_first());
        assert(seq![rs[0]] + rs.drop_first() =~= rs);
    }
}

/// The store round-trip: the file written for any records starts with
/// the magic, parses back to the accumulated header, and its cells parse
/// back to exactly the records written.
#[verifier::rlimit(100)]
pub proof fn lemma_store_round_trip(rs: Seq<XyzRecord>)
    ensures
        file_bytes(rs).len() == 60 + 24 * rs.len(),
        file_bytes(rs).subrange(0, 4) == magic_bytes(),
        parse_header(file_bytes(rs)) == header_of(rs),
        parse_records(file_bytes(rs), 60, rs.len()) == rs,
{
    let b = file_bytes(rs);
    let h = header_of(rs);
    lemma_records_bytes_len(rs);
    assert(b.subrange(0, 4) =~= magic_bytes());
    assert(b.subrange(4, 12) =~= u64_le_bytes(h.n_records));
    assert(b.subrange(12, 20) =~= u64_le_bytes(h.min_x));
    assert(b.subrange(20, 28) =~= u64_le_bytes(h.max_x));
    assert(b.subrange(28, 36) =~= u64_le_bytes(h.min_y));
    assert(b.subrange(36, 44) =~= u64_le_bytes(h.max_y));
    assert(b.subrange(44, 52) =~= u64_le_bytes(h.min_z));
    assert(b.subrange(52, 60) =~= u64_le_bytes(h.max_z));
    lemma_u64_le_round_trip(h.n_records);
    lemma_u64_le_round_trip(h.min_x);
    lemma_u64_le_round_trip(h.max_x);
    lemma_u64_le_round_trip(h.min_y);
    lemma_u64_le_round_trip(h.max_y);
    lemma_u64_le_round_trip(h.min_z);
    lemma_u64_le_round_trip(h.max_z);
    assert(b.subrange(60, 60 + 24 * rs.len() as int) =~= records_bytes(rs));
    lemma_parse_records_of(b, 60, rs);
}

/// As long as the count cannot wrap, the accumulated header counts
/// exactly the records folded in.
pub proof fn lemma_header_count(rs: Seq<XyzRecord>)
    requires
        rs.len() <= u64::MAX,
    ensures
        header_of(rs).n_records == rs.len(),
    decreases rs.len(),
{
    if rs.len() > 0 {
        lemma_header_count(rs.drop_last());
    }
}

/// Append the 24-byte cell of one record.
fn append_record(out: &mut Vec<u8>, r: &XyzRecord)
    ensures
        final(out)@ == old(out)@ + record_bytes(*r),
{
    push_u64_le(out, r.x);
    push_u64_le(out, r.y);
    push_u32_le(out, r.z);
    out.push(r.classification);
    out.push(r.number_of_returns);
    out.push(r.return_number);
    out.push(0u8);
    assert(out@ =~= old(out)@ + record_bytes(*r));
}

/// Read the record whose cell sits at `pos`.
fn parse_record_at(data: &Vec<u8>, pos: usize) -> (r: XyzRecord)
    requires
        pos + 24 <= data@.len(),
    ensures
        r == record_from_bytes(data@.subrange(pos as int, pos + 24)),
{
    let len: usize = data.len();
    let cell = Ghost(data@.subrange(pos as int, pos + 24));
    let x = read_u64_le(data, pos);
    let y = read_u64_le(data, pos + 8);
    let z = read_u32_le(data, pos + 16);
    let classification = data[pos + 20];
    let number_of_returns = data[pos + 21];
    let return_number = data[pos + 22];
    proof {
        assert(data@.subrange(pos as int, pos + 8) =~= cell@.subrange(0, 8));
        assert(data@.subrange(pos + 8, pos + 16) =~= cell@.subrange(8, 16));
        assert(data@.subrange(pos + 16, pos + 20) =~= cell@.subrange(16, 20));
        assert(data@[pos + 20] == cell@[20]);
        assert(data@[pos + 21] == cell@[21]);
        assert(data@[pos + 22] == cell@[22]);
    }
    XyzRecord { x, y, z, classification, number_of_returns, return_number }
}

impl XyzRecord {
    /// The 24-byte cell of this record.
    pub fn to_bytes(&self) -> (out: Vec<u8>)
        ensures
            out@ == record_bytes(*self),
    {
        let mut out: Vec<u8> = Vec::new();
        append_record(&mut out, self);
        out
    }

    /// The record whose cell sits at the front of the bytes; fails
    /// exactly when fewer than 24 bytes are there.
    pub fn from_bytes(data: &Vec<u8>) -> (r: Result<XyzRecord, XyzError>)
        ensures
            match r {
                Ok(rec) => data@.len() >= 24 && rec == record_from_bytes(data@.subrange(0, 24)),
                Err(e) => data@.len() < 24 && e == XyzError::UnexpectedEof,
            },
    {
        if data.len() < 24 {
            return Err(XyzError::UnexpectedEof);
        }
        Ok(parse_record_at(data, 0))
    }
}

/// Writer of a record store: buffers the cells and accumulates the
/// header; `finish` lays out the whole file.
pub struct XyzInternalWriter {
    body: Vec<u8>,
    header: XyzHeader,
    records: Ghost<Seq<XyzRecord>>,
    drained: Ghost<nat>,
}

impl XyzInternalWriter {
    /// The records written so far.
    pub closed spec fn written(self) -> Seq<XyzRecord> {
        self.records@
    }

    /// How many records' cells have been handed out for streaming.
    pub closed spec fn spec_drained(self) -> nat {
        self.drained@
    }

    /// The buffered cells are those of the records not yet drained,
    /// and the header has accumulated exactly the records written.
    pub closed spec fn wf(self) -> bool {
        &&& self.header == header_of(self.records@)
        &&& self.drained@ <= self.records@.len()
        &&& self.body@ == records_bytes(self.records@.skip(self.drained@ as int))
    }

    /// A writer with nothing written.
    pub fn new() -> (w: Self)
        ensures
            w.wf(),
            w.written() == Seq::<XyzRecord>::empty(),
            w.spec_drained() == 0,
    {
        let w = XyzInternalWriter {
            body: Vec::new(),
            header: XyzHeader {
                n_records: 0,
                min_x: F64_MAX_BITS,
                max_x: F64_MIN_BITS,
                min_y: F64_MAX_BITS,
                max_y: F64_MIN_BITS,
                min_z: F64_MAX_BITS,
                max_z: F64_MIN_BITS,
            },
            records: Ghost(Seq::empty()),
            drained: Ghost(0),
        };
        proof {
            assert(w.records@.skip(0) =~= w.records@);
        }
        w
    }

    /// The 60 bytes a streamed store starts with: the magic and a
    /// placeholder where the finished header is patched in later.
    pub fn stream_prefix() -> (out: Vec<u8>)
        ensures
            out@ == magic_bytes() + placeholder_bytes(),
    {
        let mut out: Vec<u8> = Vec::new();
        out.push(0x58u8);
        out.push(0x59u8);
        out.push(0x5Au8);
        out.push(0x42u8);
        let mut i: usize = 0;
        while i < 56
            invariant
                i <= 56,
                out@ =~= magic_bytes() + placeholder_bytes().subrange(0, i as int),
            decreases 56 - i,
        {
            out.push(0xFFu8);
            proof {
                assert(out@ =~= magic_bytes() + placeholder_bytes().subrange(0, i + 1));
            }
            i = i + 1;
        }
        proof {
            assert(placeholder_bytes().subrange(0, 56) =~= placeholder_bytes());
        }
        out
    }

    /// Hand out the cells buffered since the last drain, so a caller
    /// can append them to a stream instead of holding the whole store
    /// in memory.
    pub fn drain_cells(&mut self) -> (out: Vec<u8>)
        requires
            old(self).wf(),
        ensures
            final(self).wf(),
            final(self).written() == old(self).written(),
            final(self).spec_drained() == final(self).written().len(),
            out@ == records_bytes(
                old(self).written().skip(old(self).spec_drained() as int),
            ),
    {
        let mut out: Vec<u8> = Vec::new();
        core::mem::swap(&mut self.body, &mut out);
        proof {
            self.drained@ = self.records@.len();
            assert(self.records@.skip(self.records@.len() as int) =~= Seq::<XyzRecord>::empty());
            assert(self.body@ =~= records_bytes(self.records@.skip(self.drained@ as int)));
        }
        out
    }

    /// The 56 header bytes as accumulated so far, to be patched over
    /// the placeholder once the stream is complete.
    pub fn header_bytes_now(&self) -> (out: Vec<u8>)
        requires
            self.wf(),
        ensures
            out@ == header_bytes(header_of(self.written())),
    {
        let mut out: Vec<u8> = Vec::new();
        push_u64_le(&mut out, self.header.n_records);
        push_u64_le(&mut out, self.header.min_x);
        push_u64_le(&mut out, self.header.max_x);
        push_u64_le(&mut out, self.header.min_y);
        push_u64_le(&mut out, self.header.max_y);
        push_u64_le(&mut out, self.header.min_z);
        push_u64_le(&mut out, self.header.max_z);
        proof {
            assert(out@ =~= header_bytes(self.header));
        }
        out
    }

    /// The header accumulated over everything written so far.
    pub fn header(&self) -> (h: XyzHeader)
        requires
            self.wf(),
        ensures
            h == header_of(self.written()),
    {
        self.header
    }

    /// Append records to the store, folding each into the header.
    pub fn write_records(&mut self, records: &Vec<XyzRecord>)
        requires
            old(self).wf(),
        ensures
            final(self).wf(),
            final(self).written() == old(self).written() + records@,
            final(self).spec_drained() == old(self).spec_drained(),
    {
        let n = records.len();
        let mut i: usize = 0;
        while i < n
            invariant
                n == records@.len(),
                i <= n,
                self.wf(),
                self.written() == old(self).written() + records@.subrange(0, i as int),
                self.spec_drained() == old(self).spec_drained(),
            decreases n - i,
        {
            let r = records[i];
            proof {
                lemma_records_bytes_len(self.records@.skip(self.drained@ as int));
                lemma_header_of_push(self.records@, r);
                lemma_records_bytes_push(self.records@.skip(self.drained@ as int), r);
                assert(self.records@.push(r).skip(self.drained@ as int) =~= self.records@.skip(
                    self.drained@ as int,
                ).push(r));
            }
            append_record(&mut self.body, &r);
            let h = self.header;
            self.header = XyzHeader {
                n_records: if h.n_records == u64::MAX {
                    u64::MAX
                } else {
                    h.n_records + 1
                },
                min_x: f64_bits_min_acc(h.min_x, r.x),
                max_x: f64_bits_max_acc(h.max_x, r.x),
                min_y: f64_bits_min_acc(h.min_y, r.y),
                max_y: f64_bits_max_acc(h.max_y, r.y),
                min_z: f64_bits_min_acc(h.min_z, f32_bits_widen(r.z)),
                max_z: f64_bits_max_acc(h.max_z, f32_bits_widen(r.z)),
            };
            proof {
                self.records@ = self.records@.push(r);
                assert(self.written() =~= old(self).written() + records@.subrange(0, i + 1));
            }
            i = i + 1;
        }
        proof {
            assert(records@.subrange(0, n as int) =~= records@);
        }
    }

    /// Lay out the finished file: magic, final header, then the
    /// cells. This whole-store form serves callers that never drained
    /// cells for streaming.
    pub fn finish(self) -> (out: Vec<u8>)
        requires
            self.wf(),
            self.spec_drained() == 0,
        ensures
            out@ == file_bytes(self.written()),
    {
        let mut out: Vec<u8> = Vec::new();
        out.push(0x58u8);
        out.push(0x59u8);
        out.push(0x5Au8);
        out.push(0x42u8);
        push_u64_le(&mut out, self.header.n_records);
        push_u64_le(&mut out, self.header.min_x);
        push_u64_le(&mut out, self.header.max_x);
        push_u64_le(&mut out, self.header.min_y);
        push_u64_le(&mut out, self.header.max_y);
        push_u64_le(&mut out, self.header.min_z);
        push_u64_le(&mut out, self.header.max_z);
        let mut body = self.body;
        out.append(&mut body);
        proof {
            assert(self.records@.skip(0) =~= self.records@);
            assert(out@ =~= file_bytes(self.records@));
        }
        out
    }
}

/// Reader of a record store: validates the magic, parses the header and
/// hands the records back in chunks.
pub struct XyzInternalReader {
    data: Vec<u8>,
    header: XyzHeader,
    records_read: u64,
    pos: usize,
}

impl XyzInternalReader {
    /// The bytes the reader walks.
    pub closed spec fn bytes(self) -> Seq<u8> {
        self.data@
    }

    /// The parsed header.
    pub closed spec fn spec_header(self) -> XyzHeader {
        self.header
    }

    /// How many records have been handed out.
    pub closed spec fn read_count(self) -> u64 {
        self.records_read
    }

    /// The magic was checked, the header parsed, and the cursor sits
    /// right behind the cells already handed out.
    pub closed spec fn wf(self) -> bool {
        &&& self.data@.len() >= 60
        &&& self.data@.subrange(0, 4) == magic_bytes()
        &&& self.header == parse_header(self.data@)
        &&& self.records_read <= self.header.n_records
        &&& self.pos == 60 + 24 * self.records_read
        &&& self.pos <= self.data@.len()
    }

    /// Take ownership of a store file's bytes; succeeds exactly on those
    /// byte vectors that are long enough for the header and carry the
    /// magic.
    pub fn new(data: Vec<u8>) -> (r: Result<Self, XyzError>)
        ensures
            match r {
                Ok(reader) => {
                    &&& data@.len() >= 60
                    &&& data@.subrange(0, 4) == magic_bytes()
                    &&& reader.wf()
                    &&& reader.bytes() == data@
                    &&& reader.spec_header() == parse_header(data@)
                    &&& reader.read_count() == 0
                },
                Err(XyzError::UnexpectedEof) => data@.len() < 60,
                Err(XyzError::InvalidMagic) => data@.len() >= 60 && data@.subrange(0, 4)
                    != magic_bytes(),
            },
    {
        if data.len() < 60 {
            return Err(XyzError::UnexpectedEof);
        }
        if !(data[0] == 0x58 && data[1] == 0x59 && data[2] == 0x5A && data[3] == 0x42) {
            proof {
                assert(data@.subrange(0, 4)[0] == data@[0]);
                assert(data@.subrange(0, 4)[1] == data@[1]);
                assert(data@.subrange(0, 4)[2] == data@[2]);
                assert(data@.subrange(0, 4)[3] == data@[3]);
            }
            return Err(XyzError::InvalidMagic);
        }
        proof {
            assert(data@.subrange(0, 4) =~= magic_bytes());
        }
        let header = XyzHeader {
            n_records: read_u64_le(&data, 4),
            min_x: read_u64_le(&data, 12),
            max_x: read_u64_le(&data, 20),
            min_y: read_u64_le(&data, 28),
            max_y: read_u64_le(&data, 36),
            min_z: read_u64_le(&data, 44),
            max_z: read_u64_le(&data, 52),
        };
        Ok(XyzInternalReader { data, header, records_read: 0, pos: 60 })
    }

    /// The parsed header.
    pub fn header(&self) -> (h: XyzHeader)
        ensures
            h == self.spec_header(),
    {
        self.header
    }

    /// The next chunk of records: up to 1024 of those not yet handed
    /// out, `None` once the advertised count is exhausted, and an error
    /// exactly when the file ends before the records it advertises.
    pub fn next_chunk(&mut self) -> (r: Result<Option<Vec<XyzRecord>>, XyzError>)
        requires
            old(self).wf(),
        ensures
            final(self).wf(),
            final(self).bytes() == old(self).bytes(),
            final(self).spec_header() == old(self).spec_header(),
            ({
                let remaining = old(self).spec_header().n_records - old(self).read_count();
                let k = if remaining > 1024 {
                    1024int
                } else {
                    remaining as int
                };
                match r {
                    Ok(None) => remaining == 0 && *final(self) == *old(self),
                    Ok(Some(chunk)) => {
                        &&& remaining > 0
                        &&& chunk@.len() == k
                        &&& chunk@ == parse_records(
                            old(self).bytes(),
                            60 + 24 * old(self).read_count(),
                            k as nat,
                        )
                        &&& final(self).read_count() == old(self).read_count() + k
                    },
                    Err(XyzError::UnexpectedEof) => {
                        &&& remaining > 0
                        &&& old(self).bytes().len() < 60 + 24 * old(self).read_count() + 24 * k
                        &&& *final(self) == *old(self)
                    },
                    Err(XyzError::InvalidMagic) => false,
                }
            }),
    {
        if self.records_read >= self.header.n_records {
            return Ok(None);
        }
        let remaining = self.header.n_records - self.records_read;
        let k: usize = if remaining > 1024 {
            1024
        } else {
            remaining as usize
        };
        let len = self.data.len();
        // the records that remain must still be inside the file
        if len - self.pos < 24 * k {
            return Err(XyzError::UnexpectedEof);
        }
        let mut chunk: Vec<XyzRecord> = Vec::new();
        let mut i: usize = 0;
        let start = self.pos;
        while i < k
            invariant
                i <= k,
                k <= 1024,
                start + 24 * k <= self.data@.len(),
                self.data@.len() <= usize::MAX,
                chunk@.len() == i,
                chunk@ == parse_records(self.data@, start as int, i as nat),
                self == old(self),
                start == self.pos,
            decreases k - i,
        {
            let r = parse_record_at(&self.data, start + 24 * i);
            proof {
                lemma_parse_records_snoc(self.data@, start as int, i as nat);
            }
            chunk.push(r);
            i = i + 1;
        }
        self.pos = self.pos + 24 * k;
        self.records_read = self.records_read + k as u64;
        Ok(Some(chunk))
    }
}

/// Parsing one more cell appends one more record.
proof fn lemma_parse_records_snoc(bytes: Seq<u8>, start: int, n: nat)
    ensures
        parse_records(bytes, start, (n + 1) as nat) == parse_records(bytes, start, n).push(
            record_from_bytes(bytes.subrange(start + 24 * n, start + 24 * n + 24)),
        ),
    decreases n,
{
    if n == 0 {
        assert(parse_records(bytes, start + 24, 0) == Seq::<XyzRecord>::empty());
        assert(parse_records(bytes, start, 1) =~= parse_records(bytes, start, 0).push(
            record_from_bytes(bytes.subrange(start, start + 24)),
        ));
    } else {
        lemma_parse_records_snoc(bytes, start + 24, (n - 1) as nat);
        assert(parse_records(bytes, start, (n + 1) as nat) == seq![
            record_from_bytes(bytes.subrange(start, start + 24)),
        ] + parse_records(bytes, start + 24, n));
        assert(parse_records(bytes, start, (n + 1) as nat) =~= parse_records(bytes, start, n).push(
            record_from_bytes(bytes.subrange(start + 24 * n, start + 24 * n + 24)),
        ));
    }
}

} // verus!
