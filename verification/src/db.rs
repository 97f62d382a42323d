//! The store: a data log, a write-ahead log and the index over the data log.
//!
//! Both logs are held as byte images. Opening a store replays the
//! write-ahead log into the data log and rebuilds the index; committing a
//! transaction writes it to the write-ahead log first, then to the data log
//! and the index, and empties the write-ahead log last.

use vstd::prelude::*;
use vstd::slice::slice_to_vec;
use crate::codec::{
    delete_frame, fits, put_frame, write_frame, OP_BEGIN, OP_COMMIT, OP_DELETE, OP_PUT,
};
use crate::datalog::{
    agree, build_index, index_of, lemma_index_agrees, lemma_valid_prefix, log_wf, state_of,
    valid_prefix, DataLog,
};
use crate::index::Index;
use crate::ops::{
    all_fit, apply_ops, lookup, ops_frames, ops_view, value_view, Op, OpView, State,
};
use crate::wal::{
    append_begin, append_commit, process_wal, replay, txn_frame, Corruption,
};

verus! {

/// The data log after recovery: the log as it was found, without its torn
/// tail, and behind it the records of the transactions that the replay of
/// the write-ahead log applied.
pub open spec fn recovered_log(data: Seq<u8>, wal: Seq<u8>) -> Seq<u8> {
    valid_prefix(data) + ops_frames(replay(wal).applied)
}

/// Why a store could not be opened, and the images of its logs as the
/// attempt left them.
#[derive(Debug, PartialEq, Eq)]
pub struct OpenError {
    /// What is wrong with the write-ahead log.
    pub corruption: Corruption,
    /// The data log, with the transactions that were replayed before the
    /// corruption was met.
    pub data: Vec<u8>,
    /// The write-ahead log, as it was found.
    pub wal: Vec<u8>,
}

/// A key/value store with atomic transactions.
pub struct Db {
    wal: Vec<u8>,
    data: DataLog,
    index: Index,
}

impl View for Db {
    type V = State;

    /// The key/value state of the store: that of its data log.
    open spec fn view(&self) -> State {
        state_of(self.log())
    }
}

impl Db {
    /// The image of the data log.
    pub closed spec fn log(&self) -> Seq<u8> {
        self.data@
    }

    /// The image of the write-ahead log.
    pub closed spec fn wal_image(&self) -> Seq<u8> {
        self.wal@
    }

    /// The index, as a mapping from keys to offsets.
    pub closed spec fn index_view(&self) -> Map<Seq<u8>, u64> {
        self.index@
    }

    /// Whether the index keeps its own invariant.
    pub closed spec fn index_ok(&self) -> bool {
        self.index.wf()
    }

    /// The invariant of data log and index, which holds also in the middle
    /// of a commit: the data log is a run of whole records, and the index is
    /// the one that a scan of the data log builds.
    pub open spec fn applied(&self) -> bool {
        &&& log_wf(self.log())
        &&& self.index_ok()
        &&& self.index_view() == index_of(self.log())
    }

    /// The invariant of a store at rest: data log and index stand as said,
    /// and the write-ahead log is empty.
    pub open spec fn wf(&self) -> bool {
        &&& self.applied()
        &&& self.wal_image().len() == 0
    }

    /// Opens a store over the images of its two logs, as they were found.
    ///
    /// The torn tail of the data log is dropped, the write-ahead log is
    /// replayed into the data log and emptied, and the index is rebuilt by a
    /// scan of the data log. A corrupt write-ahead log is an error; the
    /// images are then handed back as the attempt left them.
    pub fn new(data: Vec<u8>, wal: Vec<u8>) -> (opened: Result<Db, OpenError>)
        ensures
            match opened {
                Ok(db) => {
                    &&& db.wf()
                    &&& replay(wal@).error is None
                    &&& db.log() == recovered_log(data@, wal@)
                    &&& db@ == apply_ops(state_of(data@), replay(wal@).applied)
                },
                Err(error) => {
                    &&& replay(wal@).error == Some(error.corruption)
                    &&& error.data@ == recovered_log(data@, wal@)
                    &&& error.wal@ == wal@
                },
            },
    {
        let mut wal_image = wal;
        let mut log = DataLog::open(data);
        proof {
            lemma_valid_prefix(data@);
        }
        match process_wal(&mut wal_image, &mut log) {
            Err(corruption) => Err(
                OpenError { corruption, data: log.into_bytes(), wal: wal_image },
            ),
            Ok(()) => {
                let (index, _) = build_index(log.as_bytes());
                Ok(Db { wal: wal_image, data: log, index })
            },
        }
    }

    /// Index and data log agree. For every key in the index, the record at
    /// the stored offset is a whole put record whose key is that key, and
    /// its value is the one that `get` returns; a key is in the index
    /// exactly if it is present in the store.
    pub proof fn lemma_index_agrees(&self)
        requires
            self.applied(),
        ensures
            agree(self.log(), self.index_view(), self@),
    {
        self.data.lemma_len_fits();
        lemma_index_agrees(self.log());
    }

    /// The offset at which the next record will be written: the length of
    /// the data log.
    pub fn write_pos(&self) -> (pos: u64)
        ensures
            pos == self.log().len(),
    {
        self.data.write_pos()
    }

    /// The image of the data log.
    pub fn data(&self) -> (bytes: &[u8])
        ensures
            bytes@ == self.log(),
    {
        self.data.as_bytes()
    }

    /// The image of the write-ahead log.
    pub fn wal(&self) -> (bytes: &[u8])
        ensures
            bytes@ == self.wal_image(),
    {
        self.wal.as_slice()
    }

    /// The value of `key`, if the key is present.
    ///
    /// The index gives the offset of the latest record of the key, and the
    /// value is decoded from the data log there.
    pub fn get(&self, key: &[u8]) -> (value: Option<Vec<u8>>)
        requires
            self.applied(),
        ensures
            value_view(value) == lookup(self@, key@),
    {
        proof {
            self.data.lemma_len_fits();
            lemma_index_agrees(self.log());
        }
        match self.index.lookup(key) {
            None => None,
            Some(offset) => {
                assert(self.index_view().contains_key(key@));
                let record = self.data.read_at(offset);
                Some(record.value)
            },
        }
    }

    /// Writes the begin marker to the write-ahead log.
    fn append_begin(&mut self)
        ensures
            final(self).wal_image() == old(self).wal_image().push(OP_BEGIN),
            final(self).log() == old(self).log(),
            final(self).index == old(self).index,
    {
        append_begin(&mut self.wal);
    }

    /// Writes the commit marker to the write-ahead log.
    fn append_commit(&mut self)
        ensures
            final(self).wal_image() == old(self).wal_image().push(OP_COMMIT),
            final(self).log() == old(self).log(),
            final(self).index == old(self).index,
    {
        append_commit(&mut self.wal);
    }

    /// Writes a put record to the write-ahead log.
    fn append_wal_set(&mut self, key: &[u8], value: &[u8])
        requires
            fits(key@.len()),
            fits(value@.len()),
        ensures
            final(self).wal_image() == old(self).wal_image() + put_frame(key@, value@),
            final(self).log() == old(self).log(),
            final(self).index == old(self).index,
    {
        write_frame(&mut self.wal, OP_PUT, key, value);
    }

    /// Writes a delete record to the write-ahead log.
    fn append_wal_delete(&mut self, key: &[u8])
        requires
            fits(key@.len()),
        ensures
            final(self).wal_image() == old(self).wal_image() + delete_frame(key@),
            final(self).log() == old(self).log(),
            final(self).index == old(self).index,
    {
        let none: Vec<u8> = Vec::new();
        write_frame(&mut self.wal, OP_DELETE, key, none.as_slice());
    }

    /// Appends a put record to the data log and stores its offset, the
    /// length of the log before, in the index.
    fn append_data_set(&mut self, key: &[u8], value: &[u8])
        requires
            old(self).applied(),
            fits(key@.len()),
            fits(value@.len()),
        ensures
            final(self).applied(),
            final(self).wal_image() == old(self).wal_image(),
            final(self).log() == old(self).log() + put_frame(key@, value@),
            final(self)@ == old(self)@.insert(key@, value@),
    {
        let offset = self.data.append_put(key, value);
        self.index.upsert(slice_to_vec(key), offset);
    }

    /// Appends a delete record to the data log and takes the key out of the
    /// index.
    fn append_data_delete(&mut self, key: &[u8])
        requires
            old(self).applied(),
            fits(key@.len()),
        ensures
            final(self).applied(),
            final(self).wal_image() == old(self).wal_image(),
            final(self).log() == old(self).log() + delete_frame(key@),
            final(self)@ == old(self)@.remove(key@),
    {
        self.data.append_delete(key);
        self.index.remove(key);
    }

    /// The last step of a commit: empties the write-ahead log. Data log and
    /// index stay as they are.
    pub fn clear_wal(&mut self)
        ensures
            final(self).wal_image().len() == 0,
            final(self).log() == old(self).log(),
            final(self).index_view() == old(self).index_view(),
            final(self).index_ok() == old(self).index_ok(),
    {
        self.wal.clear();
    }

    /// The first step of a commit: writes the transaction to the write-ahead
    /// log, as begin marker, the records of the operations in their order,
    /// and commit marker. Data log and index stay as they are. Once the
    /// write-ahead log is durable in this state, so is the transaction.
    pub fn log_transaction(&mut self, ops: &Vec<Op>)
        requires
            all_fit(ops_view(ops@)),
        ensures
            final(self).wal_image() == old(self).wal_image() + txn_frame(ops_view(ops@)),
            final(self).log() == old(self).log(),
            final(self).index_view() == old(self).index_view(),
            final(self).index_ok() == old(self).index_ok(),
    {
        let ghost all = ops_view(ops@);
        self.append_begin();
        let mut i: usize = 0;
        while i < ops.len()
            invariant
                i <= ops.len(),
                all == ops_view(ops@),
                all_fit(all),
                self.wal_image() == old(self).wal_image().push(OP_BEGIN) + ops_frames(
                    all.take(i as int),
                ),
                self.log() == old(self).log(),
                self.index == old(self).index,
            decreases ops.len() - i,
        {
            assert(all[i as int] == ops[i as int]@);
            assert(all.take(i + 1).drop_last() =~= all.take(i as int));
            match &ops[i] {
                Op::Put(key, value) => {
                    self.append_wal_set(key.as_slice(), value.as_slice());
                },
                Op::Delete(key) => {
                    self.append_wal_delete(key.as_slice());
                },
            }
            assert(self.wal_image() =~= old(self).wal_image().push(OP_BEGIN) + ops_frames(
                all.take(i + 1),
            ));
            i = i + 1;
        }
        assert(all.take(i as int) =~= all);
        self.append_commit();
        assert(self.wal_image() =~= old(self).wal_image() + txn_frame(all));
    }

    /// The second step of a commit: applies the operations to the data log
    /// and the index, in their order. A put is appended as a record and the
    /// index stores the offset of that record; a delete is appended as a
    /// record and the key leaves the index. The write-ahead log stays as it
    /// is.
    pub fn apply_transaction(&mut self, ops: &Vec<Op>)
        requires
            old(self).applied(),
            all_fit(ops_view(ops@)),
        ensures
            final(self).applied(),
            final(self).wal_image() == old(self).wal_image(),
            final(self).log() == old(self).log() + ops_frames(ops_view(ops@)),
            final(self)@ == apply_ops(old(self)@, ops_view(ops@)),
    {
        let ghost all = ops_view(ops@);
        let mut i: usize = 0;
        assert(self.log() =~= old(self).log() + ops_frames(all.take(0)));
        while i < ops.len()
            invariant
                i <= ops.len(),
                all == ops_view(ops@),
                all_fit(all),
                self.applied(),
                self.wal_image() == old(self).wal_image(),
                self.log() == old(self).log() + ops_frames(all.take(i as int)),
                self@ == apply_ops(old(self)@, all.take(i as int)),
            decreases ops.len() - i,
        {
            assert(all[i as int] == ops[i as int]@);
            assert(all.take(i + 1).drop_last() =~= all.take(i as int));
            match &ops[i] {
                Op::Put(key, value) => {
                    self.append_data_set(key.as_slice(), value.as_slice());
                },
                Op::Delete(key) => {
                    self.append_data_delete(key.as_slice());
                },
            }
            assert(self.log() =~= old(self).log() + ops_frames(all.take(i + 1)));
            i = i + 1;
        }
        assert(all.take(i as int) =~= all);
    }

    /// Commits the operations as one transaction.
    ///
    /// The transaction is written to the write-ahead log first; from then on
    /// it is durable. Its operations are then applied in their order to the
    /// data log and the index, and the write-ahead log is emptied last.
    pub fn commit(&mut self, ops: Vec<Op>)
        requires
            old(self).wf(),
            all_fit(ops_view(ops@)),
        ensures
            final(self).wf(),
            final(self)@ == apply_ops(old(self)@, ops_view(ops@)),
            final(self).log() == old(self).log() + ops_frames(ops_view(ops@)),
            final(self).wal_image().len() == 0,
    {
        self.log_transaction(&ops);
        assert(self.wal_image() =~= txn_frame(ops_view(ops@)));
        self.apply_transaction(&ops);
        self.clear_wal();
        assert(self.wal_image() =~= Seq::<u8>::empty());
    }

    /// Starts a transaction on the store. The store cannot be used otherwise
    /// until the transaction is committed or dropped.
    pub fn begin_transaction(&mut self) -> (tx: Transaction<'_>)
        requires
            old(self).wf(),
        ensures
            tx.wf(),
            tx.store() == *old(self),
            tx.ops() == Seq::<OpView>::empty(),
            *final(self) == *final(tx.db),
    {
        let tx = Transaction { db: self, operations: Vec::new() };
        assert(tx.ops() =~= Seq::<OpView>::empty());
        tx
    }
}

/// A transaction: operations that are staged, and applied together when the
/// transaction is committed. A transaction that is dropped leaves no trace.
pub struct Transaction<'db> {
    /// The store, borrowed until the transaction is committed or dropped.
    pub db: &'db mut Db,
    /// The operations that are staged, first to last.
    pub operations: Vec<Op>,
}

impl<'db> Transaction<'db> {
    /// The store as it stands while the transaction is staged.
    pub open spec fn store(&self) -> Db {
        *self.db
    }

    /// The operations that are staged, first to last.
    pub open spec fn ops(&self) -> Seq<OpView> {
        ops_view(self.operations@)
    }

    /// The invariant of a transaction: its store is at rest and each of its
    /// operations can be framed.
    pub open spec fn wf(&self) -> bool {
        self.store().wf() && all_fit(self.ops())
    }

    /// Stages an operation that sets `key` to `value`.
    pub fn set(&mut self, key: &[u8], value: &[u8])
        requires
            old(self).wf(),
            fits(key@.len()),
            fits(value@.len()),
        ensures
            final(self).wf(),
            final(self).ops() == old(self).ops().push(OpView::Put(key@, value@)),
            final(self).db == old(self).db,
    {
        let op = Op::Put(slice_to_vec(key), slice_to_vec(value));
        self.operations.push(op);
        assert(self.ops() =~= old(self).ops().push(op@));
    }

    /// Stages an operation that removes `key`.
    pub fn delete(&mut self, key: &[u8])
        requires
            old(self).wf(),
            fits(key@.len()),
        ensures
            final(self).wf(),
            final(self).ops() == old(self).ops().push(OpView::Delete(key@)),
            final(self).db == old(self).db,
    {
        let op = Op::Delete(slice_to_vec(key));
        self.operations.push(op);
        assert(self.ops() =~= old(self).ops().push(op@));
    }

    /// Commits the transaction: its operations are applied to the store in
    /// the order in which they were staged, all of them or none.
    pub fn commit(self)
        requires
            self.wf(),
        ensures
            final(self.db).wf(),
            final(self.db)@ == apply_ops(old(self.db)@, self.ops()),
            final(self.db).log() == old(self.db).log() + ops_frames(self.ops()),
            final(self.db).wal_image().len() == 0,
    {
        self.db.commit(self.operations);
    }
}

} // verus!
