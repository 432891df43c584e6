//! Log entries and the record format of log segments: each record is framed
//! with a magic number, a header that can be filtered without decoding the
//! entry, the encoded entry and a CRC32 of header and entry.
use crate::text::{concat, owned, push_char};
use crate::triggers::{decimal_spec, digit_char, digit};
use std::collections::HashMap;
use vstd::prelude::*;

verus! {

/// The severity of a log entry.
#[derive(Clone, Copy, PartialEq, Eq, Structural, Debug)]
pub enum LogLevel {
    Info,
    Error,
    Warn,
    Trace,
    Debug,
    Fatal,
}

/// One log entry.
pub struct LogEntry {
    pub timestamp: u64,
    pub service: String,
    pub pid: u32,
    pub level: LogLevel,
    pub message: String,
    pub fields: Option<HashMap<String, String>>,
}

/// The number of a level in a record header (its position in the declaration).
pub open spec fn level_code_spec(l: LogLevel) -> u8 {
    match l {
        LogLevel::Info => 0,
        LogLevel::Error => 1,
        LogLevel::Warn => 2,
        LogLevel::Trace => 3,
        LogLevel::Debug => 4,
        LogLevel::Fatal => 5,
    }
}

/// The number of a level in a record header.
pub fn level_code(l: LogLevel) -> (r: u8)
    ensures
        r == level_code_spec(l),
{
    match l {
        LogLevel::Info => 0,
        LogLevel::Error => 1,
        LogLevel::Warn => 2,
        LogLevel::Trace => 3,
        LogLevel::Debug => 4,
        LogLevel::Fatal => 5,
    }
}

pub open spec fn level_name_spec(l: LogLevel) -> Seq<char> {
    match l {
        LogLevel::Info => "INFO"@,
        LogLevel::Error => "ERROR"@,
        LogLevel::Warn => "WARN"@,
        LogLevel::Trace => "TRACE"@,
        LogLevel::Debug => "DEBUG"@,
        LogLevel::Fatal => "FATAL"@,
    }
}

/// The name a level is printed with.
pub fn level_name(l: LogLevel) -> (r: &'static str)
    ensures
        r@ == level_name_spec(l),
{
    match l {
        LogLevel::Info => "INFO",
        LogLevel::Error => "ERROR",
        LogLevel::Warn => "WARN",
        LogLevel::Trace => "TRACE",
        LogLevel::Debug => "DEBUG",
        LogLevel::Fatal => "FATAL",
    }
}

/// The magic number that starts each record (`RLOG`).
pub const MAGIC: u32 = 0x524C4F47u32;

/// One step of the reflected CRC-32 (IEEE) division: a shift right, then the
/// polynomial `0xEDB88320` where the bit shifted out was set.
pub open spec fn crc_shift(c: u32) -> u32 {
    if c & 1u32 == 1u32 {
        (c >> 1u32) ^ 0xEDB88320u32
    } else {
        c >> 1u32
    }
}

/// `n` steps of the division.
pub open spec fn crc_shifts(c: u32, n: nat) -> u32
    decreases n,
{
    if n == 0 {
        c
    } else {
        crc_shifts(crc_shift(c), (n - 1) as nat)
    }
}

/// The register after one more byte.
pub open spec fn crc_byte(c: u32, b: u8) -> u32 {
    crc_shifts(c ^ (b as u32), 8)
}

/// The register after the bytes, in order.
pub open spec fn crc_register(c: u32, data: Seq<u8>) -> u32
    decreases data.len(),
{
    if data.len() == 0 {
        c
    } else {
        crc_register(crc_byte(c, data[0]), data.drop_first())
    }
}

/// The CRC-32 (IEEE) of a buffer: the register starts with every bit set,
/// and its bits are inverted at the end.
#[verifier::opaque]
pub open spec fn crc32_spec(data: Seq<u8>) -> u32 {
    crc_register(0xFFFF_FFFFu32, data) ^ 0xFFFF_FFFFu32
}

/// `crc32fast::hash`: the CRC-32 (IEEE) of a buffer, stated bit by bit in
/// `crc32_spec` (the crate computes it with tables and folds).
#[verifier::external_body]
pub(crate) fn crc32(data: &[u8]) -> (r: u32)
    ensures
        r == crc32_spec(data@),
{
    crc32fast::hash(data)
}

/// `fxhash::hash64` of a service name, the key by which records are filtered.
/// That hash reads the name's bytes in words of the machine's own byte order,
/// so its value differs from one machine to another: nothing is stated of it,
/// and the functions that use it say what holds whatever it is.
#[verifier::external_body]
pub(crate) fn service_hash(name: &str) -> (r: u64) {
    fxhash::hash64(name)
}

/// The big-endian bytes of a `u32`.
pub open spec fn be32(x: u32) -> Seq<u8> {
    seq![(x >> 24u32) as u8, (x >> 16u32) as u8, (x >> 8u32) as u8, x as u8]
}

/// The big-endian bytes of a `u64`.
pub open spec fn be64(x: u64) -> Seq<u8> {
    seq![
        (x >> 56u64) as u8,
        (x >> 48u64) as u8,
        (x >> 40u64) as u8,
        (x >> 32u64) as u8,
        (x >> 24u64) as u8,
        (x >> 16u64) as u8,
        (x >> 8u64) as u8,
        x as u8,
    ]
}

pub open spec fn join4(b0: u8, b1: u8, b2: u8, b3: u8) -> u32 {
    ((b0 as u32) << 24u32) | ((b1 as u32) << 16u32) | ((b2 as u32) << 8u32) | (b3 as u32)
}

/// The `u32` read big-endian at `p`.
pub open spec fn read_be32(b: Seq<u8>, p: int) -> u32 {
    join4(b[p], b[p + 1], b[p + 2], b[p + 3])
}

pub open spec fn join8(b0: u8, b1: u8, b2: u8, b3: u8, b4: u8, b5: u8, b6: u8, b7: u8) -> u64 {
    ((b0 as u64) << 56u64) | ((b1 as u64) << 48u64) | ((b2 as u64) << 40u64) | ((b3 as u64) << 32u64) | ((
    b4 as u64) << 24u64) | ((b5 as u64) << 16u64) | ((b6 as u64) << 8u64) | (b7 as u64)
}

/// The `u64` read big-endian at `p`.
pub open spec fn read_be64(b: Seq<u8>, p: int) -> u64 {
    join8(b[p], b[p + 1], b[p + 2], b[p + 3], b[p + 4], b[p + 5], b[p + 6], b[p + 7])
}

pub proof fn lemma_be32(x: u32)
    ensures
        read_be32(be32(x), 0) == x,
{
    let b = be32(x);
    assert(join4((x >> 24u32) as u8, (x >> 16u32) as u8, (x >> 8u32) as u8, x as u8) == x) by (bit_vector);
}

pub proof fn lemma_be64(x: u64)
    ensures
        read_be64(be64(x), 0) == x,
{
    let b = be64(x);
    assert(join8(
        (x >> 56u64) as u8,
        (x >> 48u64) as u8,
        (x >> 40u64) as u8,
        (x >> 32u64) as u8,
        (x >> 24u64) as u8,
        (x >> 16u64) as u8,
        (x >> 8u64) as u8,
        x as u8,
    ) == x) by (bit_vector);
}

/// Appends the big-endian bytes of a `u32`.
pub fn push_be32(v: &mut Vec<u8>, x: u32)
    ensures
        final(v)@ == old(v)@ + be32(x),
{
    v.push((x >> 24u32) as u8);
    v.push((x >> 16u32) as u8);
    v.push((x >> 8u32) as u8);
    v.push(x as u8);
    assert(v@ =~= old(v)@ + be32(x));
}

/// Appends the big-endian bytes of a `u64`.
pub fn push_be64(v: &mut Vec<u8>, x: u64)
    ensures
        final(v)@ == old(v)@ + be64(x),
{
    v.push((x >> 56u64) as u8);
    v.push((x >> 48u64) as u8);
    v.push((x >> 40u64) as u8);
    v.push((x >> 32u64) as u8);
    v.push((x >> 24u64) as u8);
    v.push((x >> 16u64) as u8);
    v.push((x >> 8u64) as u8);
    v.push(x as u8);
    assert(v@ =~= old(v)@ + be64(x));
}

/// Reads a big-endian `u32` at `p`.
pub fn get_be32(b: &Vec<u8>, p: usize) -> (r: u32)
    requires
        p + 4 <= b@.len(),
    ensures
        r == read_be32(b@, p as int),
{
    let n = b.len();
    ((b[p] as u32) << 24u32) | ((b[p + 1] as u32) << 16u32) | ((b[p + 2] as u32) << 8u32) | (b[p
        + 3] as u32)
}

/// Reads a big-endian `u64` at `p`.
pub fn get_be64(b: &Vec<u8>, p: usize) -> (r: u64)
    requires
        p + 8 <= b@.len(),
    ensures
        r == read_be64(b@, p as int),
{
    let n = b.len();
    ((b[p] as u64) << 56u64) | ((b[p + 1] as u64) << 48u64) | ((b[p + 2] as u64) << 40u64) | ((b[p
        + 3] as u64) << 32u64) | ((b[p + 4] as u64) << 24u64) | ((b[p + 5] as u64) << 16u64) | ((b[p
        + 6] as u64) << 8u64) | (b[p + 7] as u64)
}

/// The header of a record: total length, timestamp, level, service hash and
/// payload length (25 bytes), the part that the CRC covers with the payload.
pub open spec fn header_spec(ts: u64, level: u8, hash: u64, plen: u32) -> Seq<u8> {
    be32((29 + plen) as u32) + be64(ts) + seq![level] + be64(hash) + be32(plen)
}

/// The bytes of one record.
pub open spec fn frame_spec(ts: u64, level: u8, hash: u64, payload: Seq<u8>) -> Seq<u8> {
    let header = header_spec(ts, level, hash, payload.len() as u32);
    be32(MAGIC) + header + payload + be32(crc32_spec(header + payload))
}

/// Frames one record (the byte layout of `write_record`); also gives the
/// number of bytes written, `4 + total_len`.
pub fn frame_record(timestamp: u64, level: u8, hash: u64, payload: &Vec<u8>) -> (r: (Vec<u8>, usize))
    requires
        payload@.len() + 33 <= u32::MAX,
    ensures
        r.0@ == frame_spec(timestamp, level, hash, payload@),
        r.1 == r.0@.len(),
        r.1 == 33 + payload@.len(),
{
    let plen = payload.len() as u32;
    let total_len: u32 = 4 + 8 + 1 + 8 + 4 + plen + 4;
    let mut covered: Vec<u8> = Vec::new();
    push_be32(&mut covered, total_len);
    push_be64(&mut covered, timestamp);
    covered.push(level);
    push_be64(&mut covered, hash);
    push_be32(&mut covered, plen);
    let ghost header = covered@;
    assert(header =~= header_spec(timestamp, level, hash, plen));
    let mut i: usize = 0;
    while i < payload.len()
        invariant
            i <= payload@.len(),
            covered@ == header + payload@.subrange(0, i as int),
        decreases payload@.len() - i,
    {
        covered.push(payload[i]);
        i = i + 1;
        assert(covered@ =~= header + payload@.subrange(0, i as int));
    }
    assert(payload@.subrange(0, payload@.len() as int) =~= payload@);
    let crc = crc32(covered.as_slice());
    let mut out: Vec<u8> = Vec::new();
    push_be32(&mut out, MAGIC);
    let mut j: usize = 0;
    while j < covered.len()
        invariant
            j <= covered@.len(),
            out@ == be32(MAGIC) + covered@.subrange(0, j as int),
        decreases covered@.len() - j,
    {
        out.push(covered[j]);
        j = j + 1;
        assert(out@ =~= be32(MAGIC) + covered@.subrange(0, j as int));
    }
    assert(covered@.subrange(0, covered@.len() as int) =~= covered@);
    push_be32(&mut out, crc);
    assert(out@ =~= frame_spec(timestamp, level, hash, payload@));
    let n = out.len();
    (out, n)
}

/// The filters of a segment query: a service hash, a lowest level, an earliest timestamp.
pub struct RecordFilter {
    pub service: Option<u64>,
    pub min_level: Option<u8>,
    pub start: Option<u64>,
}

/// The filters of a log query: the hash of the service name (the one that
/// `entry_record` writes), the code of the lowest level, the earliest timestamp.
pub fn record_filter(service: Option<&str>, min_level: Option<LogLevel>, start: Option<u64>) -> (r: RecordFilter)
    ensures
        r.service is Some <==> service is Some,
        r.min_level == match min_level {
            Some(l) => Some(level_code_spec(l)),
            None => None::<u8>,
        },
        r.start == start,
{
    let service = match service {
        Some(s) => Some(service_hash(s)),
        None => None,
    };
    let min_level = match min_level {
        Some(l) => Some(level_code(l)),
        None => None,
    };
    RecordFilter { service, min_level, start }
}

pub open spec fn passes(f: RecordFilter, ts: u64, level: u8, hash: u64) -> bool {
    &&& (f.min_level matches Some(m) ==> level >= m)
    &&& (f.service matches Some(s) ==> hash == s)
    &&& (f.start matches Some(t) ==> ts >= t)
}

/// A record read back: timestamp, level, service hash and encoded entry.
pub struct LogRecord {
    pub timestamp: u64,
    pub level: u8,
    pub service_hash: u64,
    pub payload: Vec<u8>,
}

pub type RecordModel = (u64, u8, u64, Seq<u8>);

pub open spec fn record_model(r: LogRecord) -> RecordModel {
    (r.timestamp, r.level, r.service_hash, r.payload@)
}

pub open spec fn remaining(len: int, pos: int) -> nat {
    if pos <= len {
        (len - pos) as nat
    } else {
        0
    }
}

/// What `query_segment` reads from the bytes of a segment starting at `pos`:
/// records are read until the bytes end or do not start with the magic number;
/// a record that the filters reject is skipped without looking at its payload;
/// a record whose CRC does not match ends the reading; a header or an accepted
/// record cut short is an error (`None`).
pub open spec fn decode_spec(b: Seq<u8>, pos: int, f: RecordFilter) -> Option<Seq<RecordModel>>
    decreases remaining(b.len() as int, pos),
{
    if pos < 0 || pos + 4 > b.len() {
        Some(Seq::empty())
    } else if read_be32(b, pos) != MAGIC {
        Some(Seq::empty())
    } else if pos + 29 > b.len() {
        None
    } else {
        let ts = read_be64(b, pos + 8);
        let level = b[pos + 16];
        let hash = read_be64(b, pos + 17);
        let plen = read_be32(b, pos + 25);
        let next = pos + 29 + plen + 4;
        if !passes(f, ts, level, hash) {
            decode_spec(b, next, f)
        } else if next > b.len() {
            None
        } else if crc32_spec(b.subrange(pos + 4, pos + 29 + plen)) != read_be32(b, next - 4) {
            Some(Seq::empty())
        } else {
            match decode_spec(b, next, f) {
                Some(rest) => Some(seq![(ts, level, hash, b.subrange(pos + 29, pos + 29 + plen))] + rest),
                None => None,
            }
        }
    }
}

/// How a segment query failed: a header or a record was cut short.
#[derive(Clone, Copy, PartialEq, Eq, Structural, Debug)]
pub enum SegmentError {
    Truncated,
}

fn copy_range(b: &Vec<u8>, from: usize, to: usize) -> (r: Vec<u8>)
    requires
        from <= to <= b@.len(),
    ensures
        r@ == b@.subrange(from as int, to as int),
{
    let mut out: Vec<u8> = Vec::new();
    let mut i = from;
    while i < to
        invariant
            from <= i <= to <= b@.len(),
            out@ == b@.subrange(from as int, i as int),
        decreases to - i,
    {
        out.push(b[i]);
        i = i + 1;
        assert(out@ =~= b@.subrange(from as int, i as int));
    }
    out
}

/// Reads the records of a segment (see `decode_spec`); the record part of
/// `query_segment`, which decodes each returned payload into an entry.
pub fn decode_segment(bytes: &Vec<u8>, filter: &RecordFilter) -> (r: Result<Vec<LogRecord>, SegmentError>)
    ensures
        match decode_spec(bytes@, 0, *filter) {
            Some(rs) => r is Ok && r->Ok_0@.map_values(|x: LogRecord| record_model(x)) == rs,
            None => r is Err,
        },
{
    let ghost b = bytes@;
    let ghost f = *filter;
    let mut out: Vec<LogRecord> = Vec::new();
    let mut pos: usize = 0;
    let len = bytes.len();
    while pos <= len && len - pos >= 4
        invariant
            b == bytes@,
            f == *filter,
            len == b.len(),
            decode_spec(b, 0, f) == match decode_spec(b, pos as int, f) {
                Some(rest) => Some(out@.map_values(|x: LogRecord| record_model(x)) + rest),
                None => None,
            },
        decreases remaining(len as int, pos as int),
    {
        let magic = get_be32(bytes, pos);
        if magic != MAGIC {
            assert(decode_spec(b, pos as int, f) == Some(Seq::<RecordModel>::empty()));
            assert(out@.map_values(|x: LogRecord| record_model(x)) + Seq::<RecordModel>::empty() =~= out@.map_values(|x: LogRecord| record_model(x)));
            return Ok(out);
        }
        if len - pos < 29 {
            return Err(SegmentError::Truncated);
        }
        let ts = get_be64(bytes, pos + 8);
        let level = bytes[pos + 16];
        let hash = get_be64(bytes, pos + 17);
        let plen = get_be32(bytes, pos + 25);
        let pass = (match filter.min_level {
            Some(m) => level >= m,
            None => true,
        }) && (match filter.service {
            Some(s) => hash == s,
            None => true,
        }) && (match filter.start {
            Some(t) => ts >= t,
            None => true,
        });
        let rest_len = len - pos - 29;
        if !pass {
            if (plen as u64) + 4 > rest_len as u64 {
                assert(decode_spec(b, pos + 29 + plen + 4, f) == Some(Seq::<RecordModel>::empty()));
                assert(out@.map_values(|x: LogRecord| record_model(x)) + Seq::<RecordModel>::empty() =~= out@.map_values(|x: LogRecord| record_model(x)));
                return Ok(out);
            }
            pos = pos + 29 + plen as usize + 4;
        } else {
            if (plen as u64) + 4 > rest_len as u64 {
                return Err(SegmentError::Truncated);
            }
            let end = pos + 29 + plen as usize;
            let stored = get_be32(bytes, end);
            let covered = copy_range(bytes, pos + 4, end);
            let computed = crc32(covered.as_slice());
            if computed != stored {
                assert(out@.map_values(|x: LogRecord| record_model(x)) + Seq::<RecordModel>::empty() =~= out@.map_values(|x: LogRecord| record_model(x)));
                return Ok(out);
            }
            let payload = copy_range(bytes, pos + 29, end);
            let ghost before = out@.map_values(|x: LogRecord| record_model(x));
            let rec = LogRecord { timestamp: ts, level, service_hash: hash, payload };
            let ghost rm = record_model(rec);
            out.push(rec);
            proof {
                assert(out@.map_values(|x: LogRecord| record_model(x)) =~= before.push(rm));
                match decode_spec(b, end + 4, f) {
                    Some(rest) => {
                        assert(before + (seq![rm] + rest) =~= before.push(rm) + rest);
                    },
                    None => {},
                }
            }
            pos = end + 4;
        }
    }
    assert(decode_spec(b, pos as int, f) == Some(Seq::<RecordModel>::empty()));
    assert(out@.map_values(|x: LogRecord| record_model(x)) + Seq::<RecordModel>::empty() =~= out@.map_values(|x: LogRecord| record_model(x)));
    Ok(out)
}


/// The bytes of a segment holding the given records, in order.
pub open spec fn frames_spec(recs: Seq<RecordModel>) -> Seq<u8>
    decreases recs.len(),
{
    if recs.len() == 0 {
        Seq::empty()
    } else {
        frame_spec(recs[0].0, recs[0].1, recs[0].2, recs[0].3) + frames_spec(recs.drop_first())
    }
}

/// The records that pass the filters, in order.
pub open spec fn filter_records(recs: Seq<RecordModel>, f: RecordFilter) -> Seq<RecordModel>
    decreases recs.len(),
{
    if recs.len() == 0 {
        Seq::empty()
    } else {
        let rest = filter_records(recs.drop_first(), f);
        if passes(f, recs[0].0, recs[0].1, recs[0].2) {
            seq![recs[0]] + rest
        } else {
            rest
        }
    }
}

proof fn lemma_read32_at(s: Seq<u8>, p: int, x: u32)
    requires
        0 <= p,
        p + 4 <= s.len(),
        s.subrange(p, p + 4) == be32(x),
    ensures
        read_be32(s, p) == x,
{
    lemma_be32(x);
    let t = s.subrange(p, p + 4);
    assert(s[p] == t[0] && s[p + 1] == t[1] && s[p + 2] == t[2] && s[p + 3] == t[3]);
}

proof fn lemma_read64_at(s: Seq<u8>, p: int, x: u64)
    requires
        0 <= p,
        p + 8 <= s.len(),
        s.subrange(p, p + 8) == be64(x),
    ensures
        read_be64(s, p) == x,
{
    lemma_be64(x);
    let t = s.subrange(p, p + 8);
    assert(s[p] == t[0] && s[p + 1] == t[1] && s[p + 2] == t[2] && s[p + 3] == t[3]);
    assert(s[p + 4] == t[4] && s[p + 5] == t[5] && s[p + 6] == t[6] && s[p + 7] == t[7]);
}

/// Reading after a prefix reads the rest as a segment of its own.
proof fn lemma_decode_shift(a: Seq<u8>, b: Seq<u8>, pos: int, f: RecordFilter)
    requires
        pos >= 0,
    ensures
        decode_spec(a + b, a.len() + pos, f) == decode_spec(b, pos, f),
    decreases remaining(b.len() as int, pos),
{
    let s = a + b;
    let q = a.len() + pos;
    if pos + 4 > b.len() {
    } else {
        assert(read_be32(s, q) == read_be32(b, pos));
        if read_be32(b, pos) != MAGIC {
        } else if pos + 29 > b.len() {
        } else {
            assert(read_be64(s, q + 8) == read_be64(b, pos + 8));
            assert(s[q + 16] == b[pos + 16]);
            assert(read_be64(s, q + 17) == read_be64(b, pos + 17));
            assert(read_be32(s, q + 25) == read_be32(b, pos + 25));
            let plen = read_be32(b, pos + 25);
            let next = pos + 29 + plen + 4;
            lemma_decode_shift(a, b, next, f);
            assert(a.len() + next == q + 29 + plen + 4);
            if next <= b.len() {
                assert(s.subrange(q + 4, q + 29 + plen) =~= b.subrange(pos + 4, pos + 29 + plen));
                assert(read_be32(s, a.len() + next - 4) == read_be32(b, next - 4));
                assert(s.subrange(q + 29, q + 29 + plen) =~= b.subrange(pos + 29, pos + 29 + plen));
            }
        }
    }
}

/// Reading a segment that starts with one record.
proof fn lemma_decode_frame(r: RecordModel, rest: Seq<u8>, f: RecordFilter)
    requires
        r.3.len() + 33 <= u32::MAX,
    ensures
        decode_spec(frame_spec(r.0, r.1, r.2, r.3) + rest, 0, f) == if passes(f, r.0, r.1, r.2) {
            match decode_spec(rest, 0, f) {
                Some(tail) => Some(seq![r] + tail),
                None => None,
            }
        } else {
            decode_spec(rest, 0, f)
        },
{
    let (ts, level, hash, payload) = r;
    let plen = payload.len() as u32;
    let header = header_spec(ts, level, hash, plen);
    let frame = frame_spec(ts, level, hash, payload);
    let s = frame + rest;
    let n = payload.len() as int;
    assert(frame.len() == 33 + n);
    assert(s.subrange(0, 4) =~= be32(MAGIC));
    lemma_read32_at(s, 0, MAGIC);
    assert(s.subrange(8, 16) =~= be64(ts));
    lemma_read64_at(s, 8, ts);
    assert(s[16] == level);
    assert(s.subrange(17, 25) =~= be64(hash));
    lemma_read64_at(s, 17, hash);
    assert(s.subrange(25, 29) =~= be32(plen));
    lemma_read32_at(s, 25, plen);
    assert(plen as int == n);
    assert(s.subrange(4, 29 + n) =~= header + payload);
    assert(s.subrange(29 + n, 33 + n) =~= be32(crc32_spec(header + payload)));
    lemma_read32_at(s, 29 + n, crc32_spec(header + payload));
    assert(s.subrange(29, 29 + n) =~= payload);
    lemma_decode_shift(frame, rest, 0, f);
    assert(frame.len() + 0 == 33 + n);
}

/// A segment written as a sequence of records reads back as those records
/// that pass the filters, in the order they were written.
pub proof fn lemma_segment_roundtrip(recs: Seq<RecordModel>, f: RecordFilter)
    requires
        forall|i: int| 0 <= i < recs.len() ==> #[trigger] recs[i].3.len() + 33 <= u32::MAX,
    ensures
        decode_spec(frames_spec(recs), 0, f) == Some(filter_records(recs, f)),
    decreases recs.len(),
{
    if recs.len() == 0 {
        assert(frames_spec(recs) =~= Seq::<u8>::empty());
    } else {
        let r = recs[0];
        let tail = recs.drop_first();
        assert forall|i: int| 0 <= i < tail.len() implies #[trigger] tail[i].3.len() + 33 <= u32::MAX by {
            assert(tail[i] == recs[i + 1]);
        }
        lemma_segment_roundtrip(tail, f);
        assert(recs[0].3.len() + 33 <= u32::MAX);
        lemma_decode_frame(r, frames_spec(tail), f);
    }
}


/// The decimal text of `n` (see `decimal_spec`).
pub fn decimal_u64(n: u64) -> (r: String)
    ensures
        r@ == decimal_spec(n as nat),
    decreases n,
{
    if n < 10 {
        let mut s = String::new();
        push_char(&mut s, digit(n as usize));
        assert(s@ =~= seq![digit_char(n as nat)]);
        s
    } else {
        let mut s = decimal_u64(n / 10);
        push_char(&mut s, digit((n % 10) as usize));
        s
    }
}

/// `{:02}` of a number: at least two digits, zero-padded.
pub open spec fn pad2_spec(n: nat) -> Seq<char> {
    if n < 10 {
        seq!['0'] + decimal_spec(n)
    } else {
        decimal_spec(n)
    }
}

fn pad2(n: u64) -> (r: String)
    ensures
        r@ == pad2_spec(n as nat),
{
    let d = decimal_u64(n);
    if n < 10 {
        let mut s = String::new();
        push_char(&mut s, '0');
        let r = concat(s.as_str(), d.as_str());
        assert(r@ =~= seq!['0'] + decimal_spec(n as nat));
        r
    } else {
        d
    }
}

/// The line that `print_log` prints for an entry:
/// `[Day D HH:MM:SS] [SERVICE:PID] LEVEL: MESSAGE`, the time of day in UTC.
pub open spec fn log_line_spec(
    ts: u64,
    service: Seq<char>,
    pid: u32,
    level: LogLevel,
    message: Seq<char>,
) -> Seq<char> {
    let days = ts / 86400;
    let secs = ts % 86400;
    "[Day "@ + decimal_spec(days as nat) + " "@ + pad2_spec((secs / 3600) as nat) + ":"@ + pad2_spec(
        ((secs % 3600) / 60) as nat,
    ) + ":"@ + pad2_spec((secs % 60) as nat) + "] ["@ + service + ":"@ + decimal_spec(pid as nat)
        + "] "@ + level_name_spec(level) + ": "@ + message
}

/// The printed line of an entry (see `log_line_spec`).
pub fn log_line(entry: &LogEntry) -> (r: String)
    ensures
        r@ == log_line_spec(entry.timestamp, entry.service@, entry.pid, entry.level, entry.message@),
{
    let ts = entry.timestamp;
    let days = ts / 86400;
    let secs = ts % 86400;
    let mut out = concat("[Day ", decimal_u64(days).as_str());
    out = concat(out.as_str(), " ");
    out = concat(out.as_str(), pad2(secs / 3600).as_str());
    out = concat(out.as_str(), ":");
    out = concat(out.as_str(), pad2((secs % 3600) / 60).as_str());
    out = concat(out.as_str(), ":");
    out = concat(out.as_str(), pad2(secs % 60).as_str());
    out = concat(out.as_str(), "] [");
    out = concat(out.as_str(), entry.service.as_str());
    out = concat(out.as_str(), ":");
    out = concat(out.as_str(), decimal_u64(entry.pid as u64).as_str());
    out = concat(out.as_str(), "] ");
    out = concat(out.as_str(), level_name(entry.level));
    out = concat(out.as_str(), ": ");
    out = concat(out.as_str(), entry.message.as_str());
    out
}

/// The record that `write_record` writes for an entry whose encoding is
/// `payload`, stamped with `now` and keyed by the hash of the entry's service
/// (`frame_record` states the bytes for each hash); also the number of bytes written.
pub fn entry_record(entry: &LogEntry, now: u64, payload: &Vec<u8>) -> (r: (Vec<u8>, usize))
    requires
        payload@.len() + 33 <= u32::MAX,
    ensures
        exists|hash: u64| r.0@ == #[trigger] frame_spec(now, level_code_spec(entry.level), hash, payload@),
        r.1 == r.0@.len(),
        r.1 == 33 + payload@.len(),
{
    let hash = service_hash(entry.service.as_str());
    let r = frame_record(now, level_code(entry.level), hash, payload);
    assert(r.0@ == frame_spec(now, level_code_spec(entry.level), hash, payload@));
    r
}

/// The entries stamped no later than `end`, in order; all of them where there
/// is no end (the last filter of `query_logs`).
pub fn entries_until(entries: Vec<LogEntry>, end: Option<u64>) -> (r: Vec<LogEntry>)
    ensures
        match end {
            None => r@ == entries@,
            Some(e) => r@ == entries@.filter(|x: LogEntry| x.timestamp <= e),
        },
{
    let e = match end {
        None => {
            return entries;
        },
        Some(e) => e,
    };
    let ghost src = entries@;
    let ghost pred = |x: LogEntry| x.timestamp <= e;
    let mut out: Vec<LogEntry> = Vec::new();
    let mut rest = entries;
    let mut taken: usize = 0;
    let n = rest.len();
    proof {
        assert(src.subrange(0, 0) =~= Seq::<LogEntry>::empty());
        reveal_with_fuel(Seq::filter, 1);
        assert(rest@ =~= src.subrange(0, src.len() as int));
    }
    while rest.len() > 0
        invariant
            taken + rest@.len() == src.len(),
            src.len() == n,
            pred == (|x: LogEntry| x.timestamp <= e),
            rest@ == src.subrange(taken as int, src.len() as int),
            out@ == src.subrange(0, taken as int).filter(pred),
        decreases rest@.len(),
    {
        let x = rest.remove(0);
        assert(rest@ =~= src.subrange(taken + 1, src.len() as int));
        proof {
            assert(src.subrange(0, taken + 1) =~= src.subrange(0, taken as int).push(x));
            src.subrange(0, taken as int).lemma_filter_push(x, pred);
        }
        if x.timestamp <= e {
            out.push(x);
        }
        taken = taken + 1;
    }
    assert(src.subrange(0, src.len() as int) =~= src);
    out
}

} // verus!
