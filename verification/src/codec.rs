//! The binary frame shared by the write-ahead log and the data log.
//!
//! A framed record is one opcode byte, the key length and the value length as
//! little-endian 32-bit numbers, the key bytes and the value bytes. The two
//! transaction markers of the write-ahead log are bare opcode bytes.

use vstd::prelude::*;
use vstd::slice::slice_to_vec;

verus! {

/// Opcode of the marker that opens a transaction in the write-ahead log.
pub const OP_BEGIN: u8 = 0;

/// Opcode of a record that sets a key to a value.
pub const OP_PUT: u8 = 1;

/// Opcode of a record that removes a key.
pub const OP_DELETE: u8 = 2;

/// Opcode of the marker that closes a transaction in the write-ahead log.
pub const OP_COMMIT: u8 = 3;

/// Bytes of a framed record before its key: the opcode and the two lengths.
pub const HEADER_LEN: usize = 9;

/// The largest key or value length that a frame can carry.
pub const MAX_FIELD_LEN: usize = 0xffff_ffff;

/// The four bytes of `x`, least significant first.
pub open spec fn le32(x: u32) -> Seq<u8> {
    seq![
        (x % 256) as u8,
        ((x / 256) % 256) as u8,
        ((x / 65536) % 256) as u8,
        ((x / 16777216) % 256) as u8,
    ]
}

/// The number whose little-endian bytes are `s[at..at + 4]`.
pub open spec fn le32_at(s: Seq<u8>, at: int) -> int {
    s[at] + 256 * s[at + 1] + 65536 * s[at + 2] + 16777216 * s[at + 3]
}

/// The frame of a record: opcode, both lengths, key, value.
pub open spec fn frame(opcode: u8, key: Seq<u8>, value: Seq<u8>) -> Seq<u8> {
    seq![opcode] + le32(key.len() as u32) + le32(value.len() as u32) + key + value
}

/// The frame that sets `key` to `value`.
pub open spec fn put_frame(key: Seq<u8>, value: Seq<u8>) -> Seq<u8> {
    frame(OP_PUT, key, value)
}

/// The frame that removes `key`: its value length is zero and no value follows.
pub open spec fn delete_frame(key: Seq<u8>) -> Seq<u8> {
    frame(OP_DELETE, key, Seq::empty())
}

/// Whether a field of this length can be framed.
pub open spec fn fits(len: nat) -> bool {
    len <= 0xffff_ffff
}

/// Whether a whole header lies in `s` from `at` on.
pub open spec fn has_header(s: Seq<u8>, at: int) -> bool {
    0 <= at && at + 9 <= s.len()
}

/// The key length that the header at `at` announces.
pub open spec fn key_len_at(s: Seq<u8>, at: int) -> int {
    le32_at(s, at + 1)
}

/// The value length that the header at `at` announces.
pub open spec fn value_len_at(s: Seq<u8>, at: int) -> int {
    le32_at(s, at + 5)
}

/// The offset just behind the frame whose header is at `at`.
pub open spec fn frame_end(s: Seq<u8>, at: int) -> int {
    at + 9 + key_len_at(s, at) + value_len_at(s, at)
}

/// Whether a whole frame, header and payload, lies in `s` from `at` on.
pub open spec fn complete_at(s: Seq<u8>, at: int) -> bool {
    has_header(s, at) && frame_end(s, at) <= s.len()
}

/// What a record holds, as mathematical values.
pub struct RecordView {
    pub opcode: u8,
    pub key: Seq<u8>,
    pub value: Seq<u8>,
}

/// The record whose frame starts at `at`.
pub open spec fn record_at(s: Seq<u8>, at: int) -> RecordView {
    RecordView {
        opcode: s[at],
        key: s.subrange(at + 9, at + 9 + key_len_at(s, at)),
        value: s.subrange(at + 9 + key_len_at(s, at), frame_end(s, at)),
    }
}

/// One decoded record, with owned payload.
#[derive(Debug, PartialEq, Eq)]
pub struct Record {
    pub opcode: u8,
    pub key: Vec<u8>,
    pub value: Vec<u8>,
}

impl View for Record {
    type V = RecordView;

    open spec fn view(&self) -> RecordView {
        RecordView { opcode: self.opcode, key: self.key@, value: self.value@ }
    }
}

/// What decoding at one offset finds.
#[derive(Debug, PartialEq, Eq)]
pub enum Decoded {
    /// A whole record, and the offset just behind it.
    Record { record: Record, next: usize },
    /// Nothing is left to read.
    EndOfStream,
    /// The bytes end inside the header or inside the payload.
    Truncated,
}

/// Reading back the bytes of a number gives the number.
pub proof fn lemma_le32_round_trip(x: u32)
    ensures
        le32(x).len() == 4,
        le32_at(le32(x), 0) == x,
{
}

/// Encoding a record and decoding it wherever it lies gives the record back:
/// the same opcode, the same key and the same value, and the decoder ends
/// exactly behind the frame.
pub proof fn lemma_frame_round_trip(
    before: Seq<u8>,
    opcode: u8,
    key: Seq<u8>,
    value: Seq<u8>,
    after: Seq<u8>,
)
    requires
        fits(key.len()),
        fits(value.len()),
    ensures
        complete_at(before + frame(opcode, key, value) + after, before.len() as int),
        frame_end(before + frame(opcode, key, value) + after, before.len() as int)
            == before.len() + frame(opcode, key, value).len(),
        record_at(before + frame(opcode, key, value) + after, before.len() as int)
            == (RecordView { opcode, key, value }),
{
    let f = frame(opcode, key, value);
    let s = before + f + after;
    let at = before.len() as int;
    lemma_le32_round_trip(key.len() as u32);
    lemma_le32_round_trip(value.len() as u32);
    let kl = le32(key.len() as u32);
    let vl = le32(value.len() as u32);
    assert(s[at] == opcode);
    assert forall|i: int| 0 <= i < 4 implies s[at + 1 + i] == kl[i] by {
        assert(s[at + 1 + i] == f[1 + i]);
    }
    assert forall|i: int| 0 <= i < 4 implies s[at + 5 + i] == vl[i] by {
        assert(s[at + 5 + i] == f[5 + i]);
    }
    assert(s[at + 1] == kl[0] && s[at + 2] == kl[1] && s[at + 3] == kl[2] && s[at + 4] == kl[3]);
    assert(s[at + 5] == vl[0] && s[at + 6] == vl[1] && s[at + 7] == vl[2] && s[at + 8] == vl[3]);
    assert(key_len_at(s, at) == key.len());
    assert(value_len_at(s, at) == value.len());
    assert(record_at(s, at).key =~= key) by {
        assert forall|i: int| 0 <= i < key.len() implies s[at + 9 + i] == key[i] by {
            assert(s[at + 9 + i] == f[9 + i]);
        }
    }
    assert(record_at(s, at).value =~= value) by {
        assert forall|i: int| 0 <= i < value.len() implies s[at + 9 + key.len() + i]
            == value[i] by {
            assert(s[at + 9 + key.len() + i] == f[9 + key.len() + i]);
        }
    }
}

/// Whether a frame is complete at an offset, where it ends and what it holds
/// depend only on the bytes up to its end: a second sequence that holds the
/// same bytes up to there holds the same frame.
pub proof fn lemma_frame_local(s: Seq<u8>, t: Seq<u8>, at: int)
    requires
        complete_at(s, at),
        frame_end(s, at) <= t.len(),
        forall|i: int| 0 <= i < frame_end(s, at) ==> s[i] == t[i],
    ensures
        complete_at(t, at),
        frame_end(t, at) == frame_end(s, at),
        record_at(t, at) == record_at(s, at),
{
    assert(s[at + 1] == t[at + 1] && s[at + 2] == t[at + 2] && s[at + 3] == t[at + 3] && s[at + 4]
        == t[at + 4]);
    assert(s[at + 5] == t[at + 5] && s[at + 6] == t[at + 6] && s[at + 7] == t[at + 7] && s[at + 8]
        == t[at + 8]);
    assert(key_len_at(t, at) == key_len_at(s, at));
    assert(value_len_at(t, at) == value_len_at(s, at));
    assert(record_at(t, at).key =~= record_at(s, at).key);
    assert(record_at(t, at).value =~= record_at(s, at).value);
}

/// The lengths that a whole header announces depend on its bytes alone.
pub proof fn lemma_header_local(s: Seq<u8>, t: Seq<u8>, at: int)
    requires
        has_header(s, at),
        has_header(t, at),
        forall|i: int| at <= i < at + 9 ==> s[i] == t[i],
    ensures
        key_len_at(t, at) == key_len_at(s, at),
        value_len_at(t, at) == value_len_at(s, at),
        frame_end(t, at) == frame_end(s, at),
{
    assert(s[at + 1] == t[at + 1] && s[at + 2] == t[at + 2] && s[at + 3] == t[at + 3] && s[at + 4]
        == t[at + 4]);
    assert(s[at + 5] == t[at + 5] && s[at + 6] == t[at + 6] && s[at + 7] == t[at + 7] && s[at + 8]
        == t[at + 8]);
}

/// The key and the value of a whole frame are short enough to be framed
/// again.
pub proof fn lemma_record_fits(s: Seq<u8>, at: int)
    requires
        complete_at(s, at),
    ensures
        fits(record_at(s, at).key.len()),
        fits(record_at(s, at).value.len()),
        0 <= key_len_at(s, at) <= 0xffff_ffff,
        0 <= value_len_at(s, at) <= 0xffff_ffff,
{
}

/// Bytes appended behind a complete frame change nothing of it.
pub proof fn lemma_frame_stable(s: Seq<u8>, more: Seq<u8>, at: int)
    requires
        complete_at(s, at),
    ensures
        complete_at(s + more, at),
        frame_end(s + more, at) == frame_end(s, at),
        record_at(s + more, at) == record_at(s, at),
{
    lemma_frame_local(s, s + more, at);
}

/// Appends the little-endian bytes of `x` to `out`.
pub fn write_le32(out: &mut Vec<u8>, x: u32)
    ensures
        final(out)@ == old(out)@ + le32(x),
{
    out.push((x % 256) as u8);
    out.push(((x / 256) % 256) as u8);
    out.push(((x / 65536) % 256) as u8);
    out.push(((x / 16777216) % 256) as u8);
    assert(out@ =~= old(out)@ + le32(x));
}

/// Reads the little-endian number stored at `buf[at..at + 4]`.
pub fn read_le32(buf: &[u8], at: usize) -> (x: u32)
    requires
        at + 4 <= buf@.len(),
    ensures
        x == le32_at(buf@, at as int),
{
    let b0: u32 = buf[at] as u32;
    let b1: u32 = buf[at + 1] as u32;
    let b2: u32 = buf[at + 2] as u32;
    let b3: u32 = buf[at + 3] as u32;
    b0 + 256 * b1 + 65536 * b2 + 16777216 * b3
}

/// Appends every byte of `bytes` to `out`.
pub fn write_bytes(out: &mut Vec<u8>, bytes: &[u8])
    ensures
        final(out)@ == old(out)@ + bytes@,
{
    out.extend_from_slice(bytes);
    assert(out@ =~= old(out)@ + bytes@);
}

/// Appends the frame of a record to `out`.
pub fn write_frame(out: &mut Vec<u8>, opcode: u8, key: &[u8], value: &[u8])
    requires
        fits(key@.len()),
        fits(value@.len()),
    ensures
        final(out)@ == old(out)@ + frame(opcode, key@, value@),
{
    out.push(opcode);
    write_le32(out, key.len() as u32);
    write_le32(out, value.len() as u32);
    write_bytes(out, key);
    write_bytes(out, value);
    assert(out@ =~= old(out)@ + frame(opcode, key@, value@));
}

/// The frame that sets `key` to `value`.
pub fn encode_put(key: &[u8], value: &[u8]) -> (out: Vec<u8>)
    requires
        fits(key@.len()),
        fits(value@.len()),
    ensures
        out@ == put_frame(key@, value@),
{
    let mut out: Vec<u8> = Vec::new();
    write_frame(&mut out, OP_PUT, key, value);
    assert(out@ =~= put_frame(key@, value@));
    out
}

/// The frame that removes `key`.
pub fn encode_delete(key: &[u8]) -> (out: Vec<u8>)
    requires
        fits(key@.len()),
    ensures
        out@ == delete_frame(key@),
{
    let mut out: Vec<u8> = Vec::new();
    let none: Vec<u8> = Vec::new();
    write_frame(&mut out, OP_DELETE, key, none.as_slice());
    assert(out@ =~= delete_frame(key@));
    out
}

/// Decodes the record whose frame starts at `at`.
///
/// Every opcode is read as a framed record here; the bare markers of the
/// write-ahead log are told apart by its reader before it calls this.
pub fn decode_next(buf: &[u8], at: usize) -> (d: Decoded)
    ensures
        match d {
            Decoded::EndOfStream => at >= buf@.len(),
            Decoded::Truncated => at < buf@.len() && !complete_at(buf@, at as int),
            Decoded::Record { record, next } => {
                &&& complete_at(buf@, at as int)
                &&& record@ == record_at(buf@, at as int)
                &&& next == frame_end(buf@, at as int)
            },
        },
{
    let len = buf.len();
    if at >= len {
        return Decoded::EndOfStream;
    }
    if len - at < HEADER_LEN {
        return Decoded::Truncated;
    }
    let key_len = read_le32(buf, at + 1) as usize;
    let value_len = read_le32(buf, at + 5) as usize;
    let room = len - at - HEADER_LEN;
    if key_len > room || value_len > room - key_len {
        return Decoded::Truncated;
    }
    let key_at = at + HEADER_LEN;
    let value_at = key_at + key_len;
    let next = value_at + value_len;
    let key = slice_to_vec(&buf[key_at..value_at]);
    let value = slice_to_vec(&buf[value_at..next]);
    Decoded::Record { record: Record { opcode: buf[at], key, value }, next }
}

} // verus!
