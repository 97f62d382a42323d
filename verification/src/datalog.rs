//! The data log: the append-only sequence of committed records.
//!
//! The log is read front to back, frame by frame. The scan stops at the first
//! offset where no whole frame lies; bytes from there on are a torn tail.

use vstd::prelude::*;
use crate::codec::{
    complete_at, decode_next, fits, frame, frame_end, has_header, lemma_frame_local,
    lemma_frame_round_trip, lemma_frame_stable, lemma_header_local, record_at, write_frame,
    Decoded, Record, RecordView, OP_DELETE, OP_PUT,
};
use crate::index::Index;
use crate::ops::{all_fit, apply_ops, ops_frames, ops_view, write_ops, Op, OpView, State};

verus! {

/// A record together with the offset of its first byte.
pub struct Located {
    pub at: int,
    pub record: RecordView,
}

/// The offset at which a scan that starts at `at` stops: the first offset
/// from there on at which no whole frame lies.
pub open spec fn scan_end(s: Seq<u8>, at: int) -> int
    decreases s.len() - at,
{
    if complete_at(s, at) {
        scan_end(s, frame_end(s, at))
    } else {
        at
    }
}

/// The records that a scan from `at` finds, behind those in `found`.
pub open spec fn records_from(s: Seq<u8>, at: int, found: Seq<Located>) -> Seq<Located>
    decreases s.len() - at,
{
    if complete_at(s, at) {
        records_from(
            s,
            frame_end(s, at),
            found.push(Located { at, record: record_at(s, at) }),
        )
    } else {
        found
    }
}

/// The records of a log, first to last.
pub open spec fn records(s: Seq<u8>) -> Seq<Located> {
    records_from(s, 0, Seq::empty())
}

/// Whether the log is a run of whole frames, with no torn tail.
pub open spec fn log_wf(s: Seq<u8>) -> bool {
    scan_end(s, 0) == s.len()
}

/// The log without its torn tail.
pub open spec fn valid_prefix(s: Seq<u8>) -> Seq<u8> {
    s.take(scan_end(s, 0))
}

/// What one record does to the index: a put stores its offset, a delete
/// removes the key, any other opcode is skipped.
pub open spec fn index_step(index: Map<Seq<u8>, u64>, found: Located) -> Map<Seq<u8>, u64> {
    if found.record.opcode == OP_PUT {
        index.insert(found.record.key, found.at as u64)
    } else if found.record.opcode == OP_DELETE {
        index.remove(found.record.key)
    } else {
        index
    }
}

/// What one record does to the key/value state.
pub open spec fn state_step(state: State, record: RecordView) -> State {
    if record.opcode == OP_PUT {
        state.insert(record.key, record.value)
    } else if record.opcode == OP_DELETE {
        state.remove(record.key)
    } else {
        state
    }
}

/// The index after the records, first to last.
pub open spec fn index_fold(found: Seq<Located>) -> Map<Seq<u8>, u64>
    decreases found.len(),
{
    if found.len() == 0 {
        Map::empty()
    } else {
        index_step(index_fold(found.drop_last()), found.last())
    }
}

/// The key/value state after the records, first to last.
pub open spec fn state_fold(found: Seq<Located>) -> State
    decreases found.len(),
{
    if found.len() == 0 {
        Map::empty()
    } else {
        state_step(state_fold(found.drop_last()), found.last().record)
    }
}

/// The index that a log stands for.
pub open spec fn index_of(s: Seq<u8>) -> Map<Seq<u8>, u64> {
    index_fold(records(s))
}

/// The key/value state that a log stands for.
pub open spec fn state_of(s: Seq<u8>) -> State {
    state_fold(records(s))
}

/// The record that stands for an operation.
pub open spec fn op_record(op: OpView) -> RecordView {
    match op {
        OpView::Put(key, value) => RecordView { opcode: OP_PUT, key, value },
        OpView::Delete(key) => RecordView { opcode: OP_DELETE, key, value: Seq::empty() },
    }
}

/// Whether each of the records lies whole in `s` at its offset, and the
/// offset fits the index.
pub open spec fn all_located(s: Seq<u8>, found: Seq<Located>) -> bool {
    forall|i: int|
        0 <= i < found.len() ==> {
            &&& complete_at(s, (#[trigger] found[i]).at)
            &&& record_at(s, found[i].at) == found[i].record
            &&& found[i].at <= u64::MAX
        }
}

/// Whether index and state agree over `s`: they hold the same keys, and the
/// offset of each key is that of a whole put record with that key and with
/// the value that the state holds for it.
pub open spec fn agree(s: Seq<u8>, index: Map<Seq<u8>, u64>, state: State) -> bool {
    &&& index.dom() == state.dom()
    &&& forall|key: Seq<u8>| #[trigger]
        index.contains_key(key) ==> {
            &&& complete_at(s, index[key] as int)
            &&& record_at(s, index[key] as int) == (RecordView {
                opcode: OP_PUT,
                key,
                value: state[key],
            })
        }
}

/// A scan never goes back, and never beyond the end.
pub proof fn lemma_scan_end_bounds(s: Seq<u8>, at: int)
    requires
        0 <= at <= s.len(),
    ensures
        at <= scan_end(s, at) <= s.len(),
        complete_at(s, at) ==> frame_end(s, at) <= scan_end(s, at),
    decreases s.len() - at,
{
    if complete_at(s, at) {
        lemma_scan_end_bounds(s, frame_end(s, at));
    }
}

/// Each record that a scan finds lies whole in the log at its offset.
pub proof fn lemma_records_located(s: Seq<u8>, at: int, found: Seq<Located>)
    requires
        0 <= at,
        s.len() <= u64::MAX,
        all_located(s, found),
    ensures
        all_located(s, records_from(s, at, found)),
    decreases s.len() - at,
{
    if complete_at(s, at) {
        let here = Located { at, record: record_at(s, at) };
        let next = found.push(here);
        assert forall|i: int| 0 <= i < next.len() implies {
            &&& complete_at(s, (#[trigger] next[i]).at)
            &&& record_at(s, next[i].at) == next[i].record
            &&& next[i].at <= u64::MAX
        } by {
            if i < found.len() {
                assert(next[i] == found[i]);
            }
        }
        lemma_records_located(s, frame_end(s, at), next);
    }
}

/// Folding one record more is one step more.
pub proof fn lemma_fold_push(found: Seq<Located>, last: Located)
    ensures
        index_fold(found.push(last)) == index_step(index_fold(found), last),
        state_fold(found.push(last)) == state_step(state_fold(found), last.record),
{
    assert(found.push(last).drop_last() =~= found);
}

/// Index and state that were folded from records of the log agree over it.
pub proof fn lemma_folds_agree(s: Seq<u8>, found: Seq<Located>)
    requires
        all_located(s, found),
    ensures
        agree(s, index_fold(found), state_fold(found)),
    decreases found.len(),
{
    if found.len() == 0 {
        assert(index_fold(found).dom() =~= state_fold(found).dom());
    } else {
        let rest = found.drop_last();
        let last = found.last();
        assert forall|i: int| 0 <= i < rest.len() implies {
            &&& complete_at(s, (#[trigger] rest[i]).at)
            &&& record_at(s, rest[i].at) == rest[i].record
            &&& rest[i].at <= u64::MAX
        } by {
            assert(rest[i] == found[i]);
        }
        lemma_folds_agree(s, rest);
        assert(found[found.len() - 1] == last);
        let index = index_fold(found);
        let state = state_fold(found);
        assert(index.dom() =~= state.dom());
        assert forall|key: Seq<u8>| #[trigger] index.contains_key(key) implies {
            &&& complete_at(s, index[key] as int)
            &&& record_at(s, index[key] as int) == (RecordView {
                opcode: OP_PUT,
                key,
                value: state[key],
            })
        } by {
            if last.record.opcode == OP_PUT && key == last.record.key {
                assert(index[key] == last.at as u64);
            } else {
                assert(index_fold(rest).contains_key(key));
            }
        }
    }
}

/// The index of a log and its key/value state agree: for every key in the
/// index, the record at the stored offset is a whole put record whose key is
/// that key and whose value is the one the state holds; and a key is in the
/// index exactly if it is in the state.
pub proof fn lemma_index_agrees(s: Seq<u8>)
    requires
        s.len() <= u64::MAX,
    ensures
        agree(s, index_of(s), state_of(s)),
{
    lemma_records_located(s, 0, Seq::empty());
    lemma_folds_agree(s, records(s));
}

/// Appending one whole frame to a run of whole frames adds one record, at
/// the old end, and leaves a run of whole frames.
pub proof fn lemma_append_frame(
    s: Seq<u8>,
    at: int,
    found: Seq<Located>,
    opcode: u8,
    key: Seq<u8>,
    value: Seq<u8>,
)
    requires
        0 <= at <= s.len(),
        scan_end(s, at) == s.len(),
        fits(key.len()),
        fits(value.len()),
    ensures
        scan_end(s + frame(opcode, key, value), at) == s.len() + frame(opcode, key, value).len(),
        records_from(s + frame(opcode, key, value), at, found) == records_from(s, at, found).push(
            Located { at: s.len() as int, record: RecordView { opcode, key, value } },
        ),
    decreases s.len() - at,
{
    let f = frame(opcode, key, value);
    let t = s + f;
    if complete_at(s, at) {
        lemma_frame_stable(s, f, at);
        lemma_append_frame(
            s,
            frame_end(s, at),
            found.push(Located { at, record: record_at(s, at) }),
            opcode,
            key,
            value,
        );
    } else {
        assert(at == s.len());
        lemma_frame_round_trip(s, opcode, key, value, Seq::empty());
        assert(t + Seq::<u8>::empty() =~= t);
        assert(frame_end(t, at) == t.len());
        assert(!complete_at(t, t.len() as int));
        let here = Located { at, record: record_at(t, at) };
        assert(scan_end(t, t.len() as int) == t.len());
        assert(records_from(t, t.len() as int, found.push(here)) == found.push(here));
    }
}

/// Appending the records of a run of operations to a run of whole frames
/// leaves a run of whole frames, whose state is the old state after the
/// operations.
pub proof fn lemma_append_ops(s: Seq<u8>, ops: Seq<OpView>)
    requires
        log_wf(s),
        all_fit(ops),
    ensures
        log_wf(s + ops_frames(ops)),
        state_of(s + ops_frames(ops)) == apply_ops(state_of(s), ops),
    decreases ops.len(),
{
    if ops.len() == 0 {
        assert(s + ops_frames(ops) =~= s);
    } else {
        let rest = ops.drop_last();
        let last = ops.last();
        assert forall|i: int| 0 <= i < rest.len() implies (#[trigger] rest[i]).fits() by {
            assert(rest[i] == ops[i]);
        }
        lemma_append_ops(s, rest);
        let mid = s + ops_frames(rest);
        assert(s + ops_frames(ops) =~= mid + last.frame());
        assert(ops[ops.len() - 1] == last);
        let r = op_record(last);
        assert(last.frame() == frame(r.opcode, r.key, r.value));
        lemma_append_frame(mid, 0, Seq::empty(), r.opcode, r.key, r.value);
        lemma_fold_push(records(mid), Located { at: mid.len() as int, record: r });
    }
}

/// Bytes behind a run of whole frames that make up no whole frame are a torn
/// tail: a scan stops before them and finds what it found without them.
pub proof fn lemma_append_torn(s: Seq<u8>, at: int, found: Seq<Located>, tail: Seq<u8>)
    requires
        0 <= at <= s.len(),
        scan_end(s, at) == s.len(),
        !complete_at(s + tail, s.len() as int),
    ensures
        scan_end(s + tail, at) == s.len(),
        records_from(s + tail, at, found) == records_from(s, at, found),
    decreases s.len() - at,
{
    if complete_at(s, at) {
        lemma_frame_stable(s, tail, at);
        lemma_append_torn(
            s,
            frame_end(s, at),
            found.push(Located { at, record: record_at(s, at) }),
            tail,
        );
    }
}

/// A frame that is cut short is no whole frame.
pub proof fn lemma_cut_frame(s: Seq<u8>, opcode: u8, key: Seq<u8>, value: Seq<u8>, x: int)
    requires
        fits(key.len()),
        fits(value.len()),
        0 <= x < frame(opcode, key, value).len(),
    ensures
        !complete_at(s + frame(opcode, key, value).take(x), s.len() as int),
{
    let f = frame(opcode, key, value);
    let whole = s + f;
    let cut = s + f.take(x);
    let at = s.len() as int;
    if has_header(cut, at) {
        lemma_frame_round_trip(s, opcode, key, value, Seq::empty());
        assert(whole + Seq::<u8>::empty() =~= whole);
        assert forall|i: int| at <= i < at + 9 implies whole[i] == cut[i] by {
            assert(cut[i] == f.take(x)[i - at]);
        }
        lemma_header_local(whole, cut, at);
    }
}

/// Where the records of a run of operations were appended to a run of whole
/// frames and the result was cut off `m` bytes behind the old end, the log
/// without its torn tail is the old log with the records of the first `k`
/// operations behind it, for the `k` that is returned.
pub proof fn lemma_torn_ops(s: Seq<u8>, ops: Seq<OpView>, m: int) -> (k: int)
    requires
        log_wf(s),
        all_fit(ops),
        0 <= m <= ops_frames(ops).len(),
    ensures
        0 <= k <= ops.len(),
        valid_prefix(s + ops_frames(ops).take(m)) == s + ops_frames(ops.take(k)),
        m == ops_frames(ops).len() ==> k == ops.len(),
    decreases ops.len(),
{
    if ops.len() == 0 {
        assert(ops.take(0) =~= ops);
        assert(s + ops_frames(ops).take(m) =~= s);
        assert(s + ops_frames(ops) =~= s);
        assert(s.take(s.len() as int) =~= s);
        0
    } else {
        let rest = ops.drop_last();
        let last = ops.last();
        let before = ops_frames(rest);
        let r = op_record(last);
        let f = frame(r.opcode, r.key, r.value);
        assert(ops[ops.len() - 1] == last);
        assert(last.frame() == f);
        assert forall|i: int| 0 <= i < rest.len() implies (#[trigger] rest[i]).fits() by {
            assert(rest[i] == ops[i]);
        }
        if m <= before.len() {
            assert(ops_frames(ops).take(m) =~= before.take(m));
            let k = lemma_torn_ops(s, rest, m);
            assert(rest.take(k) =~= ops.take(k));
            k
        } else if m == ops_frames(ops).len() {
            lemma_append_ops(s, ops);
            let whole = s + ops_frames(ops);
            assert(ops_frames(ops).take(m) =~= ops_frames(ops));
            assert(whole.take(whole.len() as int) =~= whole);
            assert(ops.take(ops.len() as int) =~= ops);
            ops.len() as int
        } else {
            let base = s + before;
            let x = m - before.len();
            lemma_append_ops(s, rest);
            assert(s + ops_frames(ops).take(m) =~= base + f.take(x));
            lemma_cut_frame(base, r.opcode, r.key, r.value, x);
            lemma_append_torn(base, 0, Seq::empty(), f.take(x));
            assert((base + f.take(x)).take(base.len() as int) =~= base);
            assert(ops.take(ops.len() - 1) =~= rest);
            ops.len() - 1
        }
    }
}

/// A scan of the log without its torn tail finds the records of the log and
/// ends at its end.
pub proof fn lemma_valid_prefix(s: Seq<u8>)
    ensures
        log_wf(valid_prefix(s)),
        records(valid_prefix(s)) == records(s),
        valid_prefix(valid_prefix(s)) == valid_prefix(s),
{
    lemma_scan_end_bounds(s, 0);
    lemma_prefix_scan(s, 0, Seq::empty());
    assert(valid_prefix(s).take(valid_prefix(s).len() as int) =~= valid_prefix(s));
}

proof fn lemma_prefix_scan(s: Seq<u8>, at: int, found: Seq<Located>)
    requires
        0 <= at <= s.len(),
        scan_end(s, at) == scan_end(s, 0),
    ensures
        scan_end(valid_prefix(s), at) == valid_prefix(s).len(),
        records_from(valid_prefix(s), at, found) == records_from(s, at, found),
    decreases s.len() - at,
{
    let p = valid_prefix(s);
    lemma_scan_end_bounds(s, 0);
    lemma_scan_end_bounds(s, at);
    if complete_at(s, at) {
        lemma_frame_local(s, p, at);
        lemma_prefix_scan(s, frame_end(s, at), found.push(Located { at, record: record_at(s, at) }));
    } else {
        assert(p.len() == at);
    }
}

/// The length of the log without its torn tail: the offset just behind the
/// last whole record.
pub fn scan_len(data: &[u8]) -> (end: usize)
    ensures
        end == scan_end(data@, 0),
{
    let mut at: usize = 0;
    loop
        invariant
            at <= data@.len(),
            scan_end(data@, at as int) == scan_end(data@, 0),
        decreases data@.len() - at,
    {
        match decode_next(data, at) {
            Decoded::Record { record, next } => {
                at = next;
            },
            _ => {
                return at;
            },
        }
    }
}

/// Scans the log front to back and builds its index: a put stores the
/// offset of its record, a delete removes the key, any other opcode is
/// skipped. The scan stops at the first offset where no whole record lies,
/// and that offset is returned with the index.
pub fn build_index(data: &[u8]) -> (built: (Index, u64))
    ensures
        built.0.wf(),
        built.0@ == index_of(data@),
        built.1 == scan_end(data@, 0),
{
    let mut index = Index::new();
    let mut at: usize = 0;
    let ghost mut found: Seq<Located> = Seq::empty();
    loop
        invariant
            at <= data@.len(),
            index.wf(),
            index@ == index_fold(found),
            records(data@) == records_from(data@, at as int, found),
            scan_end(data@, at as int) == scan_end(data@, 0),
        decreases data@.len() - at,
    {
        match decode_next(data, at) {
            Decoded::Record { record, next } => {
                proof {
                    let here = Located { at: at as int, record: record@ };
                    lemma_fold_push(found, here);
                    found = found.push(here);
                }
                if record.opcode == OP_PUT {
                    index.upsert(record.key, at as u64);
                } else if record.opcode == OP_DELETE {
                    index.remove(record.key.as_slice());
                }
                at = next;
            },
            _ => {
                return (index, at as u64);
            },
        }
    }
}

/// The data log of a store, as a byte image without a torn tail.
pub struct DataLog {
    bytes: Vec<u8>,
}

impl View for DataLog {
    type V = Seq<u8>;

    closed spec fn view(&self) -> Seq<u8> {
        self.bytes@
    }
}

impl DataLog {
    /// The invariant of the log: it is a run of whole records.
    pub open spec fn wf(&self) -> bool {
        log_wf(self@)
    }

    /// Takes the image of a log as it was found, and drops its torn tail.
    pub fn open(bytes: Vec<u8>) -> (log: DataLog)
        ensures
            log.wf(),
            log@ == valid_prefix(bytes@),
    {
        let mut kept = bytes;
        let end = scan_len(kept.as_slice());
        proof {
            lemma_valid_prefix(kept@);
            lemma_scan_end_bounds(kept@, 0);
        }
        kept.truncate(end);
        DataLog { bytes: kept }
    }

    /// The offset at which the next record will be appended: the length of
    /// the log.
    pub fn write_pos(&self) -> (pos: u64)
        ensures
            pos == self@.len(),
    {
        self.bytes.len() as u64
    }

    /// The log is no longer than an offset can tell.
    pub proof fn lemma_len_fits(&self)
        ensures
            self@.len() <= u64::MAX,
    {
        assert(self.bytes.len() <= usize::MAX);
    }

    /// Gives the image of the log back.
    pub fn into_bytes(self) -> (bytes: Vec<u8>)
        ensures
            bytes@ == self@,
    {
        self.bytes
    }

    /// The bytes of the log.
    pub fn as_bytes(&self) -> (bytes: &[u8])
        ensures
            bytes@ == self@,
    {
        self.bytes.as_slice()
    }

    /// Takes the image of a log that is known to be a run of whole records.
    pub fn adopt(bytes: Vec<u8>) -> (log: DataLog)
        requires
            log_wf(bytes@),
        ensures
            log.wf(),
            log@ == bytes@,
    {
        DataLog { bytes }
    }

    /// Appends a record with the given opcode, and returns the offset at
    /// which it was written, which is the length of the log before.
    pub fn append(&mut self, opcode: u8, key: &[u8], value: &[u8]) -> (offset: u64)
        requires
            old(self).wf(),
            fits(key@.len()),
            fits(value@.len()),
        ensures
            final(self).wf(),
            offset == old(self)@.len(),
            final(self)@ == old(self)@ + frame(opcode, key@, value@),
            records(final(self)@) == records(old(self)@).push(
                Located {
                    at: offset as int,
                    record: RecordView { opcode, key: key@, value: value@ },
                },
            ),
    {
        let offset = self.bytes.len() as u64;
        proof {
            lemma_append_frame(self@, 0, Seq::empty(), opcode, key@, value@);
        }
        write_frame(&mut self.bytes, opcode, key, value);
        offset
    }

    /// Appends a put record and returns the offset at which it was written,
    /// which is the length of the log before.
    pub fn append_put(&mut self, key: &[u8], value: &[u8]) -> (offset: u64)
        requires
            old(self).wf(),
            fits(key@.len()),
            fits(value@.len()),
        ensures
            final(self).wf(),
            offset == old(self)@.len(),
            final(self)@ == old(self)@ + frame(OP_PUT, key@, value@),
            state_of(final(self)@) == state_of(old(self)@).insert(key@, value@),
            index_of(final(self)@) == index_of(old(self)@).insert(key@, offset),
    {
        let offset = self.append(OP_PUT, key, value);
        proof {
            lemma_fold_push(
                records(old(self)@),
                Located {
                    at: offset as int,
                    record: RecordView { opcode: OP_PUT, key: key@, value: value@ },
                },
            );
        }
        offset
    }

    /// Appends a delete record: its value length is zero and no value
    /// follows.
    pub fn append_delete(&mut self, key: &[u8])
        requires
            old(self).wf(),
            fits(key@.len()),
        ensures
            final(self).wf(),
            final(self)@ == old(self)@ + frame(OP_DELETE, key@, Seq::empty()),
            state_of(final(self)@) == state_of(old(self)@).remove(key@),
            index_of(final(self)@) == index_of(old(self)@).remove(key@),
    {
        let none: Vec<u8> = Vec::new();
        let offset = self.append(OP_DELETE, key, none.as_slice());
        proof {
            lemma_fold_push(
                records(old(self)@),
                Located {
                    at: offset as int,
                    record: RecordView { opcode: OP_DELETE, key: key@, value: Seq::empty() },
                },
            );
        }
    }

    /// Appends the records of the operations, first to last.
    pub fn append_ops(&mut self, ops: &Vec<Op>)
        requires
            old(self).wf(),
            all_fit(ops_view(ops@)),
        ensures
            final(self).wf(),
            final(self)@ == old(self)@ + ops_frames(ops_view(ops@)),
            state_of(final(self)@) == apply_ops(state_of(old(self)@), ops_view(ops@)),
    {
        proof {
            lemma_append_ops(self@, ops_view(ops@));
        }
        write_ops(&mut self.bytes, ops);
    }

    /// Decodes the record at `offset`. The offset is one at which a whole
    /// record lies, as every offset is that an append has returned.
    pub fn read_at(&self, offset: u64) -> (record: Record)
        requires
            complete_at(self@, offset as int),
        ensures
            record@ == record_at(self@, offset as int),
    {
        assert(offset < self.bytes.len());
        match decode_next(self.bytes.as_slice(), offset as usize) {
            Decoded::Record { record, next } => record,
            _ => Record { opcode: 0, key: Vec::new(), value: Vec::new() },
        }
    }

    /// The records of the log with their offsets, front to back.
    pub fn scan(&self) -> (found: Vec<(u64, Record)>)
        ensures
            found@.len() == records(self@).len(),
            forall|i: int|
                0 <= i < found@.len() ==> {
                    &&& (#[trigger] found@[i]).0 == records(self@)[i].at
                    &&& found@[i].1@ == records(self@)[i].record
                },
    {
        let data = self.bytes.as_slice();
        let mut out: Vec<(u64, Record)> = Vec::new();
        let mut at: usize = 0;
        let ghost mut seen: Seq<Located> = Seq::empty();
        loop
            invariant
                data@ == self@,
                at <= data@.len(),
                records(data@) == records_from(data@, at as int, seen),
                out@.len() == seen.len(),
                forall|i: int|
                    0 <= i < out@.len() ==> {
                        &&& (#[trigger] out@[i]).0 == seen[i].at
                        &&& out@[i].1@ == seen[i].record
                    },
            decreases data@.len() - at,
        {
            match decode_next(data, at) {
                Decoded::Record { record, next } => {
                    proof {
                        seen = seen.push(Located { at: at as int, record: record@ });
                    }
                    out.push((at as u64, record));
                    at = next;
                },
                _ => {
                    return out;
                },
            }
        }
    }
}

} // verus!
