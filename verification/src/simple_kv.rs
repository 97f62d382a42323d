//! The simple store: one data log and its index, without transactions.
//!
//! Keys and values are text, stored as UTF-8. Each put and each delete is
//! appended to the log as one record, with opcodes of its own. A log that
//! ends inside a record cannot be opened.

use vstd::prelude::*;
use vstd::slice::slice_to_vec;
use vstd::utf8::{encode_utf8, valid_utf8};
use crate::codec::{complete_at, decode_next, fits, frame, frame_end, record_at, Decoded, RecordView};
use crate::datalog::{
    all_located, lemma_records_located, log_wf, records, records_from, scan_end, DataLog,
    Located,
};
use crate::index::Index;
use crate::ops::{lookup, State};

verus! {

/// Opcode of a record of the simple store that sets a key to a value.
pub const SIMPLE_PUT: u8 = 0;

/// Opcode of a record of the simple store that removes a key.
pub const SIMPLE_DELETE: u8 = 1;

/// Why a simple store cannot be opened, or a value cannot be read.
#[derive(Debug, Clone, Copy, PartialEq, Eq, Structural)]
pub enum SimpleKvError {
    /// The log ends inside a record.
    Truncated,
    /// The key of a record is no UTF-8 text.
    KeyNotUtf8,
    /// The value of a record is no UTF-8 text.
    ValueNotUtf8,
}

/// What one record of the simple log does to the index.
pub open spec fn simple_index_step(index: Map<Seq<u8>, u64>, found: Located) -> Map<
    Seq<u8>,
    u64,
> {
    if found.record.opcode == SIMPLE_PUT {
        index.insert(found.record.key, found.at as u64)
    } else if found.record.opcode == SIMPLE_DELETE {
        index.remove(found.record.key)
    } else {
        index
    }
}

/// What one record of the simple log does to the key/value state.
pub open spec fn simple_state_step(state: State, record: RecordView) -> State {
    if record.opcode == SIMPLE_PUT {
        state.insert(record.key, record.value)
    } else if record.opcode == SIMPLE_DELETE {
        state.remove(record.key)
    } else {
        state
    }
}

/// The index after the records of a simple log, first to last.
pub open spec fn simple_index_fold(found: Seq<Located>) -> Map<Seq<u8>, u64>
    decreases found.len(),
{
    if found.len() == 0 {
        Map::empty()
    } else {
        simple_index_step(simple_index_fold(found.drop_last()), found.last())
    }
}

/// The key/value state after the records of a simple log, first to last.
pub open spec fn simple_state_fold(found: Seq<Located>) -> State
    decreases found.len(),
{
    if found.len() == 0 {
        Map::empty()
    } else {
        simple_state_step(simple_state_fold(found.drop_last()), found.last().record)
    }
}

/// The index that a simple log stands for.
pub open spec fn simple_index_of(s: Seq<u8>) -> Map<Seq<u8>, u64> {
    simple_index_fold(records(s))
}

/// The key/value state that a simple log stands for, keys and values as
/// their UTF-8 bytes.
pub open spec fn simple_state_of(s: Seq<u8>) -> State {
    simple_state_fold(records(s))
}

/// The first fault that a scan of a simple log meets from `at` on: a record
/// that is cut short, or a key that is no UTF-8 text.
pub open spec fn first_fault(s: Seq<u8>, at: int) -> Option<SimpleKvError>
    decreases s.len() - at,
{
    if at < 0 || at >= s.len() {
        None
    } else if !complete_at(s, at) {
        Some(SimpleKvError::Truncated)
    } else if !valid_utf8(record_at(s, at).key) {
        Some(SimpleKvError::KeyNotUtf8)
    } else {
        first_fault(s, frame_end(s, at))
    }
}

/// Whether index and state agree over a simple log: they hold the same
/// keys, and the offset of each key is that of a whole put record with that
/// key and with the value that the state holds for it.
pub open spec fn simple_agree(s: Seq<u8>, index: Map<Seq<u8>, u64>, state: State) -> bool {
    &&& index.dom() == state.dom()
    &&& forall|key: Seq<u8>| #[trigger]
        index.contains_key(key) ==> {
            &&& complete_at(s, index[key] as int)
            &&& record_at(s, index[key] as int) == (RecordView {
                opcode: SIMPLE_PUT,
                key,
                value: state[key],
            })
        }
}

/// Folding one record more is one step more.
pub proof fn lemma_simple_fold_push(found: Seq<Located>, last: Located)
    ensures
        simple_index_fold(found.push(last)) == simple_index_step(simple_index_fold(found), last),
        simple_state_fold(found.push(last)) == simple_state_step(
            simple_state_fold(found),
            last.record,
        ),
{
    assert(found.push(last).drop_last() =~= found);
}

proof fn lemma_simple_folds_agree(s: Seq<u8>, found: Seq<Located>)
    requires
        all_located(s, found),
    ensures
        simple_agree(s, simple_index_fold(found), simple_state_fold(found)),
    decreases found.len(),
{
    if found.len() == 0 {
        assert(simple_index_fold(found).dom() =~= simple_state_fold(found).dom());
    } else {
        let rest = found.drop_last();
        let last = found.last();
        assert forall|i: int| 0 <= i < rest.len() implies {
            &&& complete_at(s, (#[trigger] rest[i]).at)
            &&& record_at(s, rest[i].at) == rest[i].record
            &&& rest[i].at <= u64::MAX
        } by {
            assert(rest[i] == found[i]);
        }
        lemma_simple_folds_agree(s, rest);
        assert(found[found.len() - 1] == last);
        let index = simple_index_fold(found);
        let state = simple_state_fold(found);
        assert(index.dom() =~= state.dom());
        assert forall|key: Seq<u8>| #[trigger] index.contains_key(key) implies {
            &&& complete_at(s, index[key] as int)
            &&& record_at(s, index[key] as int) == (RecordView {
                opcode: SIMPLE_PUT,
                key,
                value: state[key],
            })
        } by {
            if last.record.opcode == SIMPLE_PUT && key == last.record.key {
                assert(index[key] == last.at as u64);
            } else {
                assert(simple_index_fold(rest).contains_key(key));
            }
        }
    }
}

/// The index of a simple log and its key/value state agree.
pub proof fn lemma_simple_index_agrees(s: Seq<u8>)
    requires
        s.len() <= u64::MAX,
    ensures
        simple_agree(s, simple_index_of(s), simple_state_of(s)),
{
    lemma_records_located(s, 0, Seq::empty());
    lemma_simple_folds_agree(s, records(s));
}

/// A simple log in which a scan meets no fault is a run of whole records.
pub proof fn lemma_faultless_is_whole(s: Seq<u8>, at: int)
    requires
        0 <= at <= s.len(),
        first_fault(s, at) is None,
    ensures
        scan_end(s, at) == s.len(),
    decreases s.len() - at,
{
    if at < s.len() {
        lemma_faultless_is_whole(s, frame_end(s, at));
    }
}

/// `String::from_utf8` of std, with its error dropped. It gives a text
/// exactly for bytes that are valid UTF-8, and the text is the one that these
/// bytes encode: its own UTF-8 bytes are the bytes that were given.
#[verifier::external_body]
fn text_from_utf8(bytes: Vec<u8>) -> (text: Option<String>)
    ensures
        text is Some <==> valid_utf8(bytes@),
        text matches Some(s) ==> encode_utf8(s@) == bytes@,
{
    String::from_utf8(bytes).ok()
}

/// A key/value store for text, without transactions.
pub struct KvStore {
    log: DataLog,
    index: Index,
}

impl View for KvStore {
    type V = State;

    /// The key/value state of the store, keys and values as their UTF-8
    /// bytes.
    open spec fn view(&self) -> State {
        simple_state_of(self.log())
    }
}

impl KvStore {
    /// The image of the log.
    pub closed spec fn log(&self) -> Seq<u8> {
        self.log@
    }

    /// The index, as a mapping from keys to offsets.
    pub closed spec fn index_view(&self) -> Map<Seq<u8>, u64> {
        self.index@
    }

    /// Whether the index keeps its own invariant.
    pub closed spec fn index_ok(&self) -> bool {
        self.index.wf()
    }

    /// The invariant of the store: the log is a run of whole records, and
    /// the index is the one that a scan of the log builds.
    pub open spec fn wf(&self) -> bool {
        &&& log_wf(self.log())
        &&& self.index_ok()
        &&& self.index_view() == simple_index_of(self.log())
    }

    /// Scans the log front to back and builds its index. The scan ends with
    /// the first fault that it meets: a record that is cut short, or a key
    /// that is no UTF-8 text. A record with an opcode that is neither put nor
    /// delete is skipped.
    pub fn build_index(data: &[u8]) -> (built: Result<(Index, u64), SimpleKvError>)
        ensures
            match built {
                Ok((index, end)) => {
                    &&& first_fault(data@, 0) is None
                    &&& index.wf()
                    &&& index@ == simple_index_of(data@)
                    &&& end == data@.len()
                },
                Err(fault) => first_fault(data@, 0) == Some(fault),
            },
    {
        let mut index = Index::new();
        let mut at: usize = 0;
        let ghost mut found: Seq<Located> = Seq::empty();
        loop
            invariant
                at <= data@.len(),
                index.wf(),
                index@ == simple_index_fold(found),
                records(data@) == records_from(data@, at as int, found),
                first_fault(data@, at as int) == first_fault(data@, 0),
            decreases data@.len() - at,
        {
            match decode_next(data, at) {
                Decoded::EndOfStream => {
                    return Ok((index, at as u64));
                },
                Decoded::Truncated => {
                    return Err(SimpleKvError::Truncated);
                },
                Decoded::Record { record, next } => {
                    let opcode = record.opcode;
                    match text_from_utf8(record.key) {
                        None => {
                            return Err(SimpleKvError::KeyNotUtf8);
                        },
                        Some(key) => {
                            proof {
                                let here = Located { at: at as int, record: record@ };
                                lemma_simple_fold_push(found, here);
                                found = found.push(here);
                            }
                            if opcode == SIMPLE_PUT {
                                index.upsert(slice_to_vec(key.as_str().as_bytes()), at as u64);
                            } else if opcode == SIMPLE_DELETE {
                                index.remove(key.as_str().as_bytes());
                            }
                            at = next;
                        },
                    }
                },
            }
        }
    }

    /// Opens a store over the image of its log, as it was found.
    pub fn new(data: Vec<u8>) -> (opened: Result<KvStore, SimpleKvError>)
        ensures
            match opened {
                Ok(store) => {
                    &&& first_fault(data@, 0) is None
                    &&& store.wf()
                    &&& store.log() == data@
                },
                Err(fault) => first_fault(data@, 0) == Some(fault),
            },
    {
        match KvStore::build_index(data.as_slice()) {
            Err(fault) => Err(fault),
            Ok((index, _)) => {
                proof {
                    lemma_faultless_is_whole(data@, 0);
                }
                Ok(KvStore { log: DataLog::adopt(data), index })
            },
        }
    }

    /// The offset at which the next record will be written: the length of
    /// the log.
    pub fn writer_pos(&self) -> (pos: u64)
        ensures
            pos == self.log().len(),
    {
        self.log.write_pos()
    }

    /// The image of the log.
    pub fn data(&self) -> (bytes: &[u8])
        ensures
            bytes@ == self.log(),
    {
        self.log.as_bytes()
    }

    /// Sets `key` to `value`: a put record is appended to the log, and the
    /// index stores its offset.
    pub fn put(&mut self, key: String, value: String)
        requires
            old(self).wf(),
            fits(encode_utf8(key@).len()),
            fits(encode_utf8(value@).len()),
        ensures
            final(self).wf(),
            final(self).log() == old(self).log() + frame(
                SIMPLE_PUT,
                encode_utf8(key@),
                encode_utf8(value@),
            ),
            final(self)@ == old(self)@.insert(encode_utf8(key@), encode_utf8(value@)),
    {
        let key_bytes = key.as_str().as_bytes();
        let value_bytes = value.as_str().as_bytes();
        let offset = self.log.append(SIMPLE_PUT, key_bytes, value_bytes);
        proof {
            lemma_simple_fold_push(
                records(old(self).log()),
                Located {
                    at: offset as int,
                    record: RecordView { opcode: SIMPLE_PUT, key: key_bytes@, value: value_bytes@ },
                },
            );
        }
        self.index.upsert(slice_to_vec(key_bytes), offset);
    }

    /// Removes `key`: a delete record is appended to the log, and the key is
    /// taken out of the index.
    pub fn delete(&mut self, key: String)
        requires
            old(self).wf(),
            fits(encode_utf8(key@).len()),
        ensures
            final(self).wf(),
            final(self).log() == old(self).log() + frame(
                SIMPLE_DELETE,
                encode_utf8(key@),
                Seq::empty(),
            ),
            final(self)@ == old(self)@.remove(encode_utf8(key@)),
    {
        let key_bytes = key.as_str().as_bytes();
        let none: Vec<u8> = Vec::new();
        let offset = self.log.append(SIMPLE_DELETE, key_bytes, none.as_slice());
        proof {
            lemma_simple_fold_push(
                records(old(self).log()),
                Located {
                    at: offset as int,
                    record: RecordView {
                        opcode: SIMPLE_DELETE,
                        key: key_bytes@,
                        value: Seq::empty(),
                    },
                },
            );
        }
        self.index.remove(key_bytes);
    }

    /// The value of `key`, if the key is present. A value that is no UTF-8
    /// text is an error.
    pub fn get(&self, key: &str) -> (value: Result<Option<String>, SimpleKvError>)
        requires
            self.wf(),
        ensures
            match value {
                Ok(Some(text)) => lookup(self@, encode_utf8(key@)) == Some(encode_utf8(text@)),
                Ok(None) => lookup(self@, encode_utf8(key@)) is None,
                Err(fault) => {
                    &&& fault == SimpleKvError::ValueNotUtf8
                    &&& self@.contains_key(encode_utf8(key@))
                    &&& !valid_utf8(self@[encode_utf8(key@)])
                },
            },
    {
        proof {
            self.log.lemma_len_fits();
            lemma_simple_index_agrees(self.log());
        }
        match self.index.lookup(key.as_bytes()) {
            None => Ok(None),
            Some(offset) => {
                assert(self.index_view().contains_key(encode_utf8(key@)));
                let record = self.log.read_at(offset);
                match text_from_utf8(record.value) {
                    Some(text) => Ok(Some(text)),
                    None => Err(SimpleKvError::ValueNotUtf8),
                }
            },
        }
    }
}

} // verus!
