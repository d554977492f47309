//! The write-ahead log: how records are framed in a segment, how a segment
//! is read back, when the writer moves to a new segment, and how segment and
//! snapshot files are named.
//!
//! A record is its payload's length (four bytes, little endian), the
//! payload, and the CRC-32 of the payload (four bytes, little endian).
use vstd::prelude::*;
use vstd::slice::{slice_subrange, slice_to_vec};

use crate::text::{chars_of, decimal, parse_u64, parse_uint, u64_to_padded_string, zero_pad};

verus! {

/// Segments are rotated once they would grow past this many bytes.
pub const DEFAULT_SEGMENT_SIZE: u64 = 33554432;

/// A position in the log: a segment number and a byte offset inside it.
#[derive(Debug, Clone, Copy, PartialEq, Eq, PartialOrd, Ord)]
pub struct Offset {
    pub segment: u64,
    pub position: u64,
}

impl Offset {
    /// The first position of the log: segment 1, byte 0.
    pub fn start() -> (o: Offset)
        ensures
            o.segment == 1,
            o.position == 0,
    {
        Offset { segment: 1, position: 0 }
    }
}

/// What the store remembers of its last snapshot.
#[derive(Debug, Clone, Default)]
pub struct StoreManifest {
    pub last_snapshot: Option<String>,
    pub wal_segment: u64,
    pub wal_position: u64,
}

// ---------------------------------------------------------------------------
// CRC-32
// ---------------------------------------------------------------------------

/// The reflected CRC-32 (IEEE) polynomial.
pub const CRC32_POLY: u32 = 0xEDB8_8320;

/// The register after `k` shifts of the bitwise CRC-32 loop from `c`.
pub open spec fn crc_shifts(c: u32, k: nat) -> u32
    decreases k,
{
    if k == 0 {
        c
    } else {
        let r = crc_shifts(c, (k - 1) as nat);
        if r & 1 == 1 {
            (r >> 1) ^ CRC32_POLY
        } else {
            r >> 1
        }
    }
}

/// The register after feeding `data` to the bitwise CRC-32 loop from `c`.
pub open spec fn crc_register(c: u32, data: Seq<u8>) -> u32
    decreases data.len(),
{
    if data.len() == 0 {
        c
    } else {
        crc_shifts(crc_register(c, data.drop_last()) ^ (data.last() as u32), 8)
    }
}

/// The CRC-32 (IEEE) of `data`: the reflected polynomial, the register
/// starting at all ones, the result inverted.
pub open spec fn crc32_of(data: Seq<u8>) -> u32 {
    crc_register(0xFFFF_FFFF, data) ^ 0xFFFF_FFFF
}

/// `crc32fast::hash`: the CRC-32 (IEEE) of `data`.
#[verifier::external_body]
fn crc32(data: &[u8]) -> (r: u32)
    ensures
        r == crc32_of(data@),
{
    crc32fast::hash(data)
}

// ---------------------------------------------------------------------------
// Little-endian words
// ---------------------------------------------------------------------------

/// The four little-endian bytes of `v`.
pub open spec fn le32(v: u32) -> Seq<u8> {
    seq![(v & 0xff) as u8, ((v >> 8) & 0xff) as u8, ((v >> 16) & 0xff) as u8, ((v >> 24) & 0xff) as u8]
}

/// The word whose little-endian bytes are `b[0..4]`.
pub open spec fn from_le32(b0: u8, b1: u8, b2: u8, b3: u8) -> u32 {
    (b0 as u32) | ((b1 as u32) << 8) | ((b2 as u32) << 16) | ((b3 as u32) << 24)
}

pub open spec fn word_at(b: Seq<u8>, i: int) -> u32 {
    from_le32(b[i], b[i + 1], b[i + 2], b[i + 3])
}

proof fn lemma_le32_roundtrip(v: u32)
    ensures
        from_le32(le32(v)[0], le32(v)[1], le32(v)[2], le32(v)[3]) == v,
{
    let b0 = (v & 0xff) as u8;
    let b1 = ((v >> 8) & 0xff) as u8;
    let b2 = ((v >> 16) & 0xff) as u8;
    let b3 = ((v >> 24) & 0xff) as u8;
    assert((b0 as u32) | ((b1 as u32) << 8) | ((b2 as u32) << 16) | ((b3 as u32) << 24) == v)
        by (bit_vector)
        requires
            b0 == (v & 0xff) as u8,
            b1 == ((v >> 8) & 0xff) as u8,
            b2 == ((v >> 16) & 0xff) as u8,
            b3 == ((v >> 24) & 0xff) as u8,
    ;
}

fn push_le32(out: &mut Vec<u8>, v: u32)
    ensures
        final(out)@ == old(out)@ + le32(v),
{
    out.push((v & 0xff) as u8);
    out.push(((v >> 8) & 0xff) as u8);
    out.push(((v >> 16) & 0xff) as u8);
    out.push(((v >> 24) & 0xff) as u8);
    assert(final(out)@ =~= old(out)@ + le32(v));
}

fn read_le32(b: &[u8], i: usize) -> (r: u32)
    requires
        i + 4 <= b@.len(),
    ensures
        r == word_at(b@, i as int),
{
    (b[i] as u32) | ((b[i + 1] as u32) << 8) | ((b[i + 2] as u32) << 16) | ((b[i + 3] as u32) << 24)
}

// ---------------------------------------------------------------------------
// Records
// ---------------------------------------------------------------------------

/// The bytes of one record holding `payload`. The length is written as
/// `payload.len() as u32`.
#[verifier::opaque]
pub open spec fn frame(payload: Seq<u8>) -> Seq<u8> {
    le32(payload.len() as u32) + payload + le32(crc32_of(payload))
}

/// Frames `payload` as one record.
pub fn encode_record(payload: &[u8]) -> (out: Vec<u8>)
    ensures
        out@ == frame(payload@),
{
    let mut out: Vec<u8> = Vec::new();
    push_le32(&mut out, payload.len() as u32);
    let mut i: usize = 0;
    while i < payload.len()
        invariant
            i <= payload@.len(),
            out@ == le32(payload@.len() as u32) + payload@.take(i as int),
        decreases payload.len() - i,
    {
        out.push(payload[i]);
        assert(payload@.take(i + 1) =~= payload@.take(i as int).push(payload@[i as int]));
        i += 1;
    }
    assert(payload@.take(payload@.len() as int) =~= payload@);
    let checksum = crc32(payload);
    push_le32(&mut out, checksum);
    proof {
        reveal(frame);
    }
    out
}

/// One step of reading a segment, at its start.
pub enum ReadStep {
    /// Fewer than four bytes are left: the segment ends here.
    End,
    /// A record starts but its payload or checksum is cut off.
    Truncated,
    /// A whole record whose checksum does not match its payload.
    Corrupt,
    /// A whole record: its payload, and the number of bytes it takes.
    Record(Seq<u8>, nat),
}

/// How reading the record at the start of `b` goes.
#[verifier::opaque]
pub open spec fn read_step(b: Seq<u8>) -> ReadStep {
    if b.len() < 4 {
        ReadStep::End
    } else {
        let len = word_at(b, 0) as int;
        if 8 + len > b.len() {
            ReadStep::Truncated
        } else {
            let payload = b.subrange(4, 4 + len);
            if word_at(b, 4 + len) != crc32_of(payload) {
                ReadStep::Corrupt
            } else {
                ReadStep::Record(payload, (8 + len) as nat)
            }
        }
    }
}

/// A record step takes at least its eight framing bytes and no more bytes
/// than there are; fewer than four bytes end the segment.
pub proof fn lemma_read_step_bounds(b: Seq<u8>)
    ensures
        read_step(b) matches ReadStep::Record(p, n) ==> 8 <= n <= b.len() && p.len() + 8 == n,
        b.len() < 4 <==> read_step(b) is End,
{
    reveal(read_step);
}

/// How a segment's reading ends.
#[derive(Debug, Clone, Copy, PartialEq, Eq)]
pub enum SegmentEnd {
    /// At its end (or within a partial length header).
    Clean,
    /// At a record that is cut off.
    Truncated,
    /// At a record whose checksum does not match.
    Corrupt,
}

/// The payloads read from the start of `b`, and how reading ends.
pub open spec fn read_all(b: Seq<u8>) -> (Seq<Seq<u8>>, SegmentEnd)
    decreases b.len(),
{
    match read_step(b) {
        ReadStep::End => (seq![], SegmentEnd::Clean),
        ReadStep::Truncated => (seq![], SegmentEnd::Truncated),
        ReadStep::Corrupt => (seq![], SegmentEnd::Corrupt),
        ReadStep::Record(p, n) => {
            proof {
                lemma_read_step_bounds(b);
            }
            let rest = read_all(b.skip(n as int));
            (seq![p] + rest.0, rest.1)
        },
    }
}

/// The result of reading one record from a buffer.
#[derive(Debug, Clone, PartialEq, Eq)]
pub enum RecordRead {
    End,
    Truncated,
    Corrupt,
    /// The payload and the position just after the record.
    Record(Vec<u8>, usize),
}

/// Reads the record at byte `pos` of `buf`.
pub fn read_record(buf: &[u8], pos: usize) -> (r: RecordRead)
    requires
        pos <= buf@.len(),
    ensures
        match (r, read_step(buf@.skip(pos as int))) {
            (RecordRead::End, ReadStep::End) => true,
            (RecordRead::Truncated, ReadStep::Truncated) => true,
            (RecordRead::Corrupt, ReadStep::Corrupt) => true,
            (RecordRead::Record(p, next), ReadStep::Record(q, n)) => p@ == q && next == pos + n,
            _ => false,
        },
{
    let ghost b = buf@.skip(pos as int);
    proof {
        reveal(read_step);
    }
    if buf.len() - pos < 4 {
        return RecordRead::End;
    }
    let len = read_le32(buf, pos);
    assert(word_at(b, 0) == word_at(buf@, pos as int));
    if ((buf.len() - pos - 4) as u64) < (len as u64) + 4 {
        return RecordRead::Truncated;
    }
    let start = pos + 4;
    let end = start + len as usize;
    let payload = slice_to_vec(slice_subrange(buf, start, end));
    assert(payload@ =~= b.subrange(4, 4 + len as int));
    let stored = read_le32(buf, end);
    assert(word_at(b, 4 + len as int) == word_at(buf@, end as int));
    if stored != crc32(payload.as_slice()) {
        return RecordRead::Corrupt;
    }
    RecordRead::Record(payload, end + 4)
}

/// Reads every record of a segment from byte `start` on. Returns the
/// payloads and how reading ended.
pub fn read_records(buf: &[u8], start: usize) -> (r: (Vec<Vec<u8>>, SegmentEnd))
    requires
        start <= buf@.len(),
    ensures
        r.0@.len() == read_all(buf@.skip(start as int)).0.len(),
        forall|i: int| 0 <= i < r.0@.len() ==> #[trigger] r.0@[i]@ == read_all(buf@.skip(start as int)).0[i],
        r.1 == read_all(buf@.skip(start as int)).1,
{
    let ghost whole = read_all(buf@.skip(start as int));
    let mut out: Vec<Vec<u8>> = Vec::new();
    let mut pos = start;
    loop
        invariant
            start <= pos <= buf@.len(),
            whole == read_all(buf@.skip(start as int)),
            ({
                let done = Seq::new(out@.len(), |k: int| out@[k]@);
                let rest = read_all(buf@.skip(pos as int));
                whole.0 == done + rest.0 && whole.1 == rest.1
            }),
        decreases buf@.len() - pos,
    {
        let ghost done = Seq::new(out@.len(), |k: int| out@[k]@);
        match read_record(buf, pos) {
            RecordRead::Record(p, next) => {
                proof {
                    lemma_read_step_bounds(buf@.skip(pos as int));
                    assert(buf@.skip(pos as int).skip(next - pos) =~= buf@.skip(next as int));
                }
                let ghost pv = p@;
                out.push(p);
                proof {
                    let done2 = Seq::new(out@.len(), |k: int| out@[k]@);
                    assert(done2 =~= done.push(pv));
                    let rest2 = read_all(buf@.skip(next as int));
                    assert(done + (seq![pv] + rest2.0) =~= done2 + rest2.0);
                }
                pos = next;
            },
            RecordRead::End => {
                proof {
                    assert(done + Seq::<Seq<u8>>::empty() =~= done);
                }
                return (out, SegmentEnd::Clean);
            },
            RecordRead::Truncated => {
                proof {
                    assert(done + Seq::<Seq<u8>>::empty() =~= done);
                }
                return (out, SegmentEnd::Truncated);
            },
            RecordRead::Corrupt => {
                proof {
                    assert(done + Seq::<Seq<u8>>::empty() =~= done);
                }
                return (out, SegmentEnd::Corrupt);
            },
        }
    }
}

// ---------------------------------------------------------------------------
// Laws of the framing
// ---------------------------------------------------------------------------

/// The bytes of a log that holds `ps`, in order.
pub open spec fn frames(ps: Seq<Seq<u8>>) -> Seq<u8>
    decreases ps.len(),
{
    if ps.len() == 0 {
        seq![]
    } else {
        frame(ps[0]) + frames(ps.drop_first())
    }
}

/// Reading a framed record gives back its payload, whatever follows it.
pub proof fn lemma_read_frame(p: Seq<u8>, rest: Seq<u8>)
    requires
        p.len() <= u32::MAX,
    ensures
        frame(p).len() == p.len() + 8,
        read_step(frame(p) + rest) == ReadStep::Record(p, (p.len() + 8) as nat),
{
    reveal(frame);
    reveal(read_step);
    let b = frame(p) + rest;
    let n = p.len() as u32;
    lemma_le32_roundtrip(n);
    lemma_le32_roundtrip(crc32_of(p));
    assert(b[0] == le32(n)[0] && b[1] == le32(n)[1] && b[2] == le32(n)[2] && b[3] == le32(n)[3]);
    assert(word_at(b, 0) == n);
    assert(b.subrange(4, 4 + p.len() as int) =~= p);
    let c = crc32_of(p);
    let k: int = 4 + p.len() as int;
    assert(b[k] == le32(c)[0] && b[k + 1] == le32(c)[1] && b[k + 2] == le32(c)[2] && b[k + 3]
        == le32(c)[3]);
    assert(word_at(b, k) == c);
}

/// Reading a log made of framed records gives back every payload, in
/// order, and ends cleanly.
pub proof fn lemma_log_round_trip(ps: Seq<Seq<u8>>)
    requires
        forall|i: int| 0 <= i < ps.len() ==> #[trigger] ps[i].len() <= u32::MAX,
    ensures
        read_all(frames(ps)) == (ps, SegmentEnd::Clean),
    decreases ps.len(),
{
    if ps.len() == 0 {
        assert(frames(ps) =~= Seq::<u8>::empty());
        lemma_read_step_bounds(frames(ps));
        assert(read_all(frames(ps)).0 =~= ps);
    } else {
        let p = ps[0];
        let tail = ps.drop_first();
        let b = frames(ps);
        assert(b == frame(p) + frames(tail));
        lemma_read_frame(p, frames(tail));
        assert forall|i: int| 0 <= i < tail.len() implies #[trigger] tail[i].len() <= u32::MAX by {
            assert(tail[i] == ps[i + 1]);
        }
        lemma_log_round_trip(tail);
        let n = (p.len() + 8) as nat;
        assert(b.skip(n as int) =~= frames(tail));
        assert(read_step(b) == ReadStep::Record(p, n));
        assert(read_all(b) == (seq![p] + read_all(b.skip(n as int)).0, read_all(b.skip(n as int)).1));
        assert(seq![p] + tail =~= ps);
    }
}

/// A record whose stored checksum differs from the CRC-32 of its payload is
/// reported as corrupt, never handed out.
pub proof fn lemma_checksum_mismatch_is_corrupt(p: Seq<u8>, stored: u32, rest: Seq<u8>)
    requires
        p.len() <= u32::MAX,
        stored != crc32_of(p),
    ensures
        read_step(le32(p.len() as u32) + p + le32(stored) + rest) == ReadStep::Corrupt,
{
    reveal(read_step);
    let b = le32(p.len() as u32) + p + le32(stored) + rest;
    let n = p.len() as u32;
    lemma_le32_roundtrip(n);
    lemma_le32_roundtrip(stored);
    assert(b[0] == le32(n)[0] && b[1] == le32(n)[1] && b[2] == le32(n)[2] && b[3] == le32(n)[3]);
    assert(b.subrange(4, 4 + p.len() as int) =~= p);
    let k: int = 4 + p.len() as int;
    assert(b[k] == le32(stored)[0] && b[k + 1] == le32(stored)[1] && b[k + 2] == le32(stored)[2]
        && b[k + 3] == le32(stored)[3]);
}

// ---------------------------------------------------------------------------
// The writer
// ---------------------------------------------------------------------------

/// Where the writer stands: the open segment, its size in bytes, and the
/// size past which it moves to a new segment.
#[derive(Debug, Clone, Copy, PartialEq, Eq)]
pub struct WalWriterState {
    pub segment: u64,
    pub size: u64,
    pub rotation: u64,
}

/// An append of a payload of `len` bytes: the state after it, where the
/// record starts, and whether the writer moved to a new segment first.
pub open spec fn spec_plan_append(st: WalWriterState, len: nat) -> (WalWriterState, Offset, bool) {
    let record = 8 + len;
    if st.size + record > st.rotation {
        (
            WalWriterState { segment: (st.segment + 1) as u64, size: record as u64, ..st },
            Offset { segment: (st.segment + 1) as u64, position: 0 },
            true,
        )
    } else {
        (
            WalWriterState { size: (st.size + record) as u64, ..st },
            Offset { segment: st.segment, position: st.size },
            false,
        )
    }
}

/// Decides where the next record goes and advances the writer past it.
/// Returns the record's offset and whether a new segment was started.
pub fn plan_append(st: &mut WalWriterState, len: usize) -> (r: (Offset, bool))
    requires
        old(st).size + 8 + len <= u64::MAX,
        old(st).segment < u64::MAX,
    ensures
        (*final(st), r.0, r.1) == spec_plan_append(*old(st), len as nat),
{
    let record: u64 = 8 + len as u64;
    if st.size + record > st.rotation {
        st.segment = st.segment + 1;
        st.size = record;
        (Offset { segment: st.segment, position: 0 }, true)
    } else {
        let at = st.size;
        st.size = st.size + record;
        (Offset { segment: st.segment, position: at }, false)
    }
}

/// An append starts a new segment exactly when the record (eight bytes of
/// framing and the payload) would carry the segment past its rotation
/// size: then the record opens the next segment at position 0; otherwise it
/// goes where the segment ends, which grows by the record.
pub proof fn lemma_plan_append_rotation(st: WalWriterState, len: nat)
    requires
        st.size + 8 + len <= u64::MAX,
        st.segment < u64::MAX,
    ensures
        ({
            let (st2, o, rotated) = spec_plan_append(st, len);
            &&& rotated <==> st.size + 8 + len > st.rotation
            &&& rotated ==> (o.segment == st.segment + 1 && o.position == 0 && st2.segment == o.segment && st2.size
                == 8 + len)
            &&& !rotated ==> (o.segment == st.segment && o.position == st.size && st2.segment == st.segment
                && st2.size == st.size + 8 + len)
            &&& st2.rotation == st.rotation
        }),
{
}

/// `a` comes before `b` in the log.
pub open spec fn offset_lt(a: Offset, b: Offset) -> bool {
    a.segment < b.segment || (a.segment == b.segment && a.position < b.position)
}

/// Two appends in a row return offsets in increasing order, and each record
/// ends where the writer then stands.
pub proof fn lemma_appends_increase(st: WalWriterState, len1: nat, len2: nat)
    requires
        st.size + 8 + len1 <= u64::MAX,
        len1 + 8 <= u64::MAX,
        len2 + 8 <= u64::MAX,
        st.segment + 2 <= u64::MAX,
    ensures
        ({
            let (st1, o1, _) = spec_plan_append(st, len1);
            let (st2, o2, _) = spec_plan_append(st1, len2);
            &&& o1.segment == st1.segment
            &&& o1.position + 8 + len1 == st1.size
            &&& offset_lt(o1, o2)
        }),
{
}

// ---------------------------------------------------------------------------
// Files
// ---------------------------------------------------------------------------

/// The file name of a numbered file: the number zero-padded to eight
/// digits, then the extension.
pub open spec fn numbered_name(n: u64, ext: Seq<char>) -> Seq<char> {
    zero_pad(decimal(n as nat), 8) + ext
}

/// The file name of WAL segment `segment`, such as `00000001.wal`.
pub fn wal_file_name(segment: u64) -> (s: String)
    ensures
        s@ == numbered_name(segment, ".wal"@),
{
    let mut s = u64_to_padded_string(segment, 8);
    s.append(".wal");
    s
}

/// The file name of snapshot `id`, such as `00000003.snap`.
pub fn snapshot_file_name(id: u64) -> (s: String)
    ensures
        s@ == numbered_name(id, ".snap"@),
{
    let mut s = u64_to_padded_string(id, 8);
    s.append(".snap");
    s
}

/// The number that a file name `<number><ext>` carries, if it has that
/// shape and its stem reads as a `u64`.
pub open spec fn number_of_name(name: Seq<char>, ext: Seq<char>) -> Option<nat> {
    if name.len() >= ext.len() && name.skip(name.len() - ext.len()) == ext {
        parse_uint(name.take(name.len() - ext.len()), u64::MAX as nat)
    } else {
        None
    }
}

/// Reads the number out of a file name with extension `ext`.
pub fn number_from_file_name(name: &str, ext: &str) -> (r: Option<u64>)
    ensures
        match r {
            Some(v) => number_of_name(name@, ext@) == Some(v as nat),
            None => number_of_name(name@, ext@) is None,
        },
{
    let cs = chars_of(name);
    let es = chars_of(ext);
    if cs.len() < es.len() {
        return None;
    }
    let cut = cs.len() - es.len();
    let mut i: usize = 0;
    while i < es.len()
        invariant
            cs@ == name@,
            es@ == ext@,
            cut + es@.len() == cs@.len(),
            i <= es@.len(),
            forall|j: int| 0 <= j < i ==> cs@[cut + j] == es@[j],
        decreases es.len() - i,
    {
        assert(cut + i < cs.len());
        if cs[cut + i] != es[i] {
            assert(name@.skip(cut as int)[i as int] != ext@[i as int]);
            return None;
        }
        i += 1;
    }
    assert(name@.skip(cut as int) =~= ext@);
    let stem = slice_to_vec(slice_subrange(cs.as_slice(), 0, cut));
    assert(stem@ =~= name@.take(cut as int));
    parse_u64(stem.as_slice())
}

/// The segment number of a WAL file name, if it is one.
pub fn segment_of_file_name(name: &str) -> (r: Option<u64>)
    ensures
        match r {
            Some(v) => number_of_name(name@, ".wal"@) == Some(v as nat),
            None => number_of_name(name@, ".wal"@) is None,
        },
{
    number_from_file_name(name, ".wal")
}

/// The snapshot id of a snapshot file name, if it is one.
pub fn snapshot_of_file_name(name: &str) -> (r: Option<u64>)
    ensures
        match r {
            Some(v) => number_of_name(name@, ".snap"@) == Some(v as nat),
            None => number_of_name(name@, ".snap"@) is None,
        },
{
    number_from_file_name(name, ".snap")
}

pub open spec fn strictly_increasing(s: Seq<u64>) -> bool {
    forall|i: int, j: int| 0 <= i < j < s.len() ==> #[trigger] s[i] < #[trigger] s[j]
}

/// Inserts `x` into a strictly increasing list unless it is already there.
#[verifier::spinoff_prover]
fn insert_sorted(out: &mut Vec<u64>, x: u64)
    requires
        strictly_increasing(old(out)@),
    ensures
        strictly_increasing(final(out)@),
        forall|y: u64| final(out)@.contains(y) <==> (old(out)@.contains(y) || y == x),
{
    let mut p: usize = 0;
    while p < out.len() && out[p] < x
        invariant
            out@ == old(out)@,
            strictly_increasing(out@),
            p <= out@.len(),
            forall|k: int| 0 <= k < p ==> #[trigger] out@[k] < x,
        decreases out.len() - p,
    {
        p += 1;
    }
    if p < out.len() && out[p] == x {
        assert(out@[p as int] == x);
        assert(out@.contains(x));
        assert forall|y: u64| out@.contains(y) <==> (old(out)@.contains(y) || y == x) by {}
        return;
    }
    let ghost before = out@;
    out.insert(p, x);
    assert forall|y: u64| out@.contains(y) <==> (before.contains(y) || y == x) by {
        if out@.contains(y) {
            let k = choose|k: int| 0 <= k < out@.len() && out@[k] == y;
            if k < p {
                assert(before[k] == y);
            } else if k > p {
                assert(before[k - 1] == y);
            }
        }
        if before.contains(y) {
            let k = choose|k: int| 0 <= k < before.len() && before[k] == y;
            if k < p {
                assert(out@[k] == y);
            } else {
                assert(out@[k + 1] == y);
            }
        }
        if y == x {
            assert(out@[p as int] == x);
        }
    }
    assert forall|i: int, j: int| 0 <= i < j < out@.len() implies #[trigger] out@[i] < #[trigger] out@[j] by {
        if j < p {
            assert(out@[i] == before[i] && out@[j] == before[j]);
        } else if j == p {
            assert(out@[i] == before[i]);
        } else if i == p {
            assert(out@[j] == before[j - 1]);
            assert(p < before.len());
            assert(before[p as int] >= x);
            if j - 1 > p {
                assert(before[p as int] < before[j - 1]);
            }
        } else if i < p {
            assert(out@[i] == before[i] && out@[j] == before[j - 1]);
        } else {
            assert(out@[i] == before[i - 1] && out@[j] == before[j - 1]);
        }
    }
    assert(before == old(out)@);
    assert(forall|y: u64| #[trigger] out@.contains(y) <==> (before.contains(y) || y == x));
}

/// The numbers found, sorted, each once; with `default_first`, an empty
/// listing counts as holding segment 1.
pub fn normalize_numbers(found: &Vec<u64>, default_first: bool) -> (out: Vec<u64>)
    ensures
        strictly_increasing(out@),
        found@.len() == 0 && default_first ==> out@ == seq![1u64],
        !(found@.len() == 0 && default_first) ==> forall|y: u64| out@.contains(y) <==> found@.contains(y),
{
    let mut out: Vec<u64> = Vec::new();
    if found.len() == 0 && default_first {
        out.push(1);
        assert(out@ =~= seq![1u64]);
        return out;
    }
    let mut i: usize = 0;
    while i < found.len()
        invariant
            i <= found@.len(),
            strictly_increasing(out@),
            forall|y: u64| out@.contains(y) <==> (exists|k: int| 0 <= k < i && found@[k] == y),
        decreases found.len() - i,
    {
        insert_sorted(&mut out, found[i]);
        i += 1;
    }
    assert forall|y: u64| out@.contains(y) <==> found@.contains(y) by {
        if found@.contains(y) {
            let k = choose|k: int| 0 <= k < found@.len() && found@[k] == y;
            assert(exists|k: int| 0 <= k < i && found@[k] == y);
        }
    }
    out
}

/// The segment the writer continues: the highest one listed, or segment 1
/// when none is.
pub fn writer_segment(segments: &Vec<u64>) -> (s: u64)
    requires
        strictly_increasing(segments@),
    ensures
        segments@.len() == 0 ==> s == 1,
        segments@.len() > 0 ==> segments@.contains(s),
        forall|y: u64| segments@.contains(y) ==> y <= s,
{
    if segments.len() == 0 {
        return 1;
    }
    let s = segments[segments.len() - 1];
    assert(segments@[segments@.len() - 1] == s);
    assert forall|y: u64| segments@.contains(y) implies y <= s by {
        let k = choose|k: int| 0 <= k < segments@.len() && segments@[k] == y;
        if k < segments@.len() - 1 {
            assert(segments@[k] < segments@[segments@.len() - 1]);
        }
    }
    s
}

/// Where a reader that starts at `from` begins in the sorted segment list:
/// the first segment numbered at least `from.segment`, or else the last one.
pub fn stream_start_index(segments: &Vec<u64>, from: Offset) -> (i: usize)
    ensures
        (exists|k: int| 0 <= k < segments@.len() && segments@[k] >= from.segment) ==> {
            &&& i < segments@.len()
            &&& segments@[i as int] >= from.segment
            &&& forall|k: int| 0 <= k < i ==> segments@[k] < from.segment
        },
        !(exists|k: int| 0 <= k < segments@.len() && segments@[k] >= from.segment) ==> i == if segments@.len() == 0 {
            0
        } else {
            segments@.len() - 1
        },
{
    let mut k: usize = 0;
    while k < segments.len()
        invariant
            k <= segments@.len(),
            forall|j: int| 0 <= j < k ==> segments@[j] < from.segment,
        decreases segments.len() - k,
    {
        if segments[k] >= from.segment {
            return k;
        }
        k += 1;
    }
    if segments.len() == 0 {
        0
    } else {
        segments.len() - 1
    }
}

/// The segments that compaction removes: those before `since`'s segment,
/// except the one being written, in listing order.
pub fn gc_victims(segments: &Vec<u64>, since: Offset, current: u64) -> (out: Vec<u64>)
    ensures
        out@ == segments@.filter(|s: u64| s < since.segment && s != current),
{
    let ghost keep = |s: u64| s < since.segment && s != current;
    let mut out: Vec<u64> = Vec::new();
    let mut i: usize = 0;
    while i < segments.len()
        invariant
            i <= segments@.len(),
            keep == (|s: u64| s < since.segment && s != current),
            out@ == segments@.take(i as int).filter(keep),
        decreases segments.len() - i,
    {
        let s = segments[i];
        proof {
            reveal_with_fuel(Seq::<_>::filter, 1);
            assert(segments@.take(i + 1).drop_last() =~= segments@.take(i as int));
        }
        if s < since.segment && s != current {
            out.push(s);
        }
        i += 1;
    }
    assert(segments@.take(segments@.len() as int) =~= segments@);
    out
}

/// The largest snapshot id listed, 0 when there is none.
pub open spec fn max_id(ids: Seq<u64>) -> u64
    decreases ids.len(),
{
    if ids.len() == 0 {
        0
    } else {
        let m = max_id(ids.drop_last());
        if ids.last() > m {
            ids.last()
        } else {
            m
        }
    }
}

/// The highest listed snapshot id, or 0.
pub fn latest_snapshot_id(ids: &Vec<u64>) -> (m: u64)
    ensures
        m == max_id(ids@),
{
    let mut m: u64 = 0;
    let mut i: usize = 0;
    while i < ids.len()
        invariant
            i <= ids@.len(),
            m == max_id(ids@.take(i as int)),
        decreases ids.len() - i,
    {
        assert(ids@.take(i + 1).drop_last() =~= ids@.take(i as int));
        if ids[i] > m {
            m = ids[i];
        }
        i += 1;
    }
    assert(ids@.take(ids@.len() as int) =~= ids@);
    m
}

/// The id the next snapshot gets: one past the highest listed.
pub fn next_snapshot_id(ids: &Vec<u64>) -> (n: u64)
    requires
        max_id(ids@) < u64::MAX,
    ensures
        n == max_id(ids@) + 1,
{
    latest_snapshot_id(ids) + 1
}

/// The largest id is at least every id, and is one of them (0 when there
/// are none).
pub proof fn lemma_max_id_is_largest(ids: Seq<u64>)
    ensures
        forall|i: int| 0 <= i < ids.len() ==> ids[i] <= max_id(ids),
        ids.len() == 0 ==> max_id(ids) == 0,
        ids.len() > 0 ==> ids.contains(max_id(ids)),
    decreases ids.len(),
{
    if ids.len() > 0 {
        let init = ids.drop_last();
        lemma_max_id_is_largest(init);
        assert forall|i: int| 0 <= i < ids.len() implies ids[i] <= max_id(ids) by {
            if i < init.len() {
                assert(ids[i] == init[i]);
            }
        }
        if init.len() > 0 && max_id(ids) == max_id(init) {
            let k = choose|k: int| 0 <= k < init.len() && init[k] == max_id(init);
            assert(ids[k] == init[k]);
        } else {
            assert(ids[ids.len() - 1] == ids.last());
        }
    }
}

/// The last snapshot a journal wrote, where 0 stands for none.
pub fn last_snapshot_id(raw: u64) -> (r: Option<u64>)
    ensures
        r == if raw == 0 { None::<u64> } else { Some(raw) },
{
    if raw == 0 {
        None
    } else {
        Some(raw)
    }
}

/// What a snapshot write produced.
#[derive(Debug, Clone)]
pub struct SnapshotInfo {
    pub id: u64,
    pub path: String,
    pub offset: Offset,
    pub size_bytes: u64,
}

/// The state of a store, for reports.
#[derive(Debug, Clone)]
pub struct StoreStats {
    pub current_segment: u64,
    pub current_position: u64,
    pub wal_segments: Vec<u64>,
    pub last_snapshot: Option<u64>,
    pub delta_since_snapshot: u64,
}

} // verus!
