//! What a crash can leave of a store, and what opening makes of it.
//!
//! A commit writes the frame of the transaction to the write-ahead log,
//! then the records of its operations to the data log, and empties the
//! write-ahead log last. A crash cuts either write short. The laws below say
//! that opening what is left gives the state before the transaction or the
//! state after it, never anything between, and the state after it once the
//! write-ahead log holds the whole frame.

use vstd::prelude::*;
use crate::datalog::{
    index_of, lemma_append_ops, lemma_torn_ops, lemma_valid_prefix, log_wf, state_of,
    valid_prefix,
};
use crate::db::{recovered_log, Db};
use crate::ops::{
    all_fit, all_txns_fit, apply_ops, apply_txns, concat_all, lemma_apply_ops_absorbs_prefix,
    lemma_apply_txns, lemma_concat_all_fits, ops_frames, OpView,
};
use crate::wal::{
    lemma_replay_empty, lemma_replay_fits, lemma_replay_torn, lemma_replay_whole, replay,
    txn_frame,
};

verus! {

/// How far a commit has come when the store crashes.
pub enum CrashPoint {
    /// The frame of the transaction is being written to the write-ahead log,
    /// and its first `written` bytes are there. The data log is untouched.
    WritingWal { written: int },
    /// The write-ahead log holds the whole frame. The records are being
    /// appended to the data log, and the first `written` bytes of them are
    /// there.
    WritingData { written: int },
    /// The data log holds all the records and the write-ahead log was
    /// emptied.
    Done,
}

impl CrashPoint {
    /// Whether the point is one that the commit of `ops` passes.
    pub open spec fn within(self, ops: Seq<OpView>) -> bool {
        match self {
            CrashPoint::WritingWal { written } => 0 <= written <= txn_frame(ops).len(),
            CrashPoint::WritingData { written } => 0 <= written <= ops_frames(ops).len(),
            CrashPoint::Done => true,
        }
    }

    /// Whether the write-ahead log held the whole frame of the transaction
    /// before the crash, so that the transaction is durable.
    pub open spec fn durable(self, ops: Seq<OpView>) -> bool {
        match self {
            CrashPoint::WritingWal { written } => written == txn_frame(ops).len(),
            CrashPoint::WritingData { written } => true,
            CrashPoint::Done => true,
        }
    }

    /// The image of the data log that the crash leaves, where the log was
    /// `data` before the commit.
    pub open spec fn data_image(self, data: Seq<u8>, ops: Seq<OpView>) -> Seq<u8> {
        match self {
            CrashPoint::WritingWal { written } => data,
            CrashPoint::WritingData { written } => data + ops_frames(ops).take(written),
            CrashPoint::Done => data + ops_frames(ops),
        }
    }

    /// The image of the write-ahead log that the crash leaves.
    pub open spec fn wal_image(self, ops: Seq<OpView>) -> Seq<u8> {
        match self {
            CrashPoint::WritingWal { written } => txn_frame(ops).take(written),
            CrashPoint::WritingData { written } => txn_frame(ops),
            CrashPoint::Done => Seq::empty(),
        }
    }
}

/// Recovery leaves a data log without a torn tail, whose state is the state
/// of the log as it was found after the operations that the replay applied.
pub proof fn lemma_recovered(data: Seq<u8>, wal: Seq<u8>)
    ensures
        log_wf(recovered_log(data, wal)),
        state_of(recovered_log(data, wal)) == apply_ops(state_of(data), replay(wal).applied),
{
    lemma_valid_prefix(data);
    lemma_replay_fits(wal);
    lemma_append_ops(valid_prefix(data), replay(wal).applied);
}

/// Atomicity and durability. Whatever point the commit of a transaction had
/// reached when the store crashed, the images that are left can be opened,
/// and the store then holds the state after the whole transaction if the
/// write-ahead log had received the whole frame, and the state before the
/// transaction otherwise: no part of a transaction is ever visible alone.
pub proof fn lemma_crash_is_atomic(data: Seq<u8>, ops: Seq<OpView>, point: CrashPoint)
    requires
        log_wf(data),
        all_fit(ops),
        point.within(ops),
    ensures
        replay(point.wal_image(ops)).error is None,
        log_wf(recovered_log(point.data_image(data, ops), point.wal_image(ops))),
        state_of(recovered_log(point.data_image(data, ops), point.wal_image(ops))) == (if point.durable(
            ops,
        ) {
            apply_ops(state_of(data), ops)
        } else {
            state_of(data)
        }),
{
    let d = point.data_image(data, ops);
    let w = point.wal_image(ops);
    lemma_recovered(d, w);
    match point {
        CrashPoint::WritingWal { written } => {
            if written == txn_frame(ops).len() {
                assert(w =~= txn_frame(ops));
                lemma_replay_whole(ops);
            } else {
                lemma_replay_torn(ops, written);
            }
        },
        CrashPoint::WritingData { written } => {
            lemma_replay_whole(ops);
            let k = lemma_torn_ops(data, ops, written);
            let part = ops.take(k);
            assert forall|i: int| 0 <= i < part.len() implies (#[trigger] part[i]).fits() by {
                assert(part[i] == ops[i]);
            }
            lemma_append_ops(data, part);
            lemma_append_ops(valid_prefix(d), ops);
            lemma_apply_ops_absorbs_prefix(state_of(data), ops, k);
        },
        CrashPoint::Done => {
            lemma_replay_empty();
            lemma_append_ops(data, ops);
        },
    }
}

/// Atomicity over a history. A store has committed the first `n` of a run
/// of transactions and crashes at any point of the commit of the next one.
/// Opening what is left gives the state after a prefix of the run, of `n`
/// or of `n + 1` transactions: every transaction is there whole or not at
/// all, and none that was committed is lost.
pub proof fn lemma_crash_leaves_prefix(
    data: Seq<u8>,
    txns: Seq<Seq<OpView>>,
    n: int,
    point: CrashPoint,
)
    requires
        log_wf(data),
        all_txns_fit(txns),
        0 <= n < txns.len(),
        point.within(txns[n]),
    ensures
        ({
            let before = data + ops_frames(concat_all(txns.take(n)));
            let opened = recovered_log(
                point.data_image(before, txns[n]),
                point.wal_image(txns[n]),
            );
            &&& replay(point.wal_image(txns[n])).error is None
            &&& log_wf(opened)
            &&& state_of(opened) == apply_txns(
                state_of(data),
                txns.take(if point.durable(txns[n]) {
                    n + 1
                } else {
                    n
                }),
            )
        }),
{
    let done = txns.take(n);
    let before = data + ops_frames(concat_all(done));
    assert forall|i: int| 0 <= i < done.len() implies all_fit(#[trigger] done[i]) by {
        assert(done[i] == txns[i]);
    }
    lemma_concat_all_fits(done);
    lemma_append_ops(data, concat_all(done));
    lemma_apply_txns(state_of(data), done);
    lemma_crash_is_atomic(before, txns[n], point);
    assert(txns.take(n + 1).drop_last() =~= done);
    assert(txns.take(n + 1).last() == txns[n]);
}

/// Recovery can be interrupted. Opening a store appends what the replay
/// applies to the data log and empties the write-ahead log last. Where a
/// crash cuts that off behind the first `written` bytes, the write-ahead log
/// is still whole, and opening what is left gives the state that the first
/// opening would have given.
pub proof fn lemma_recovery_restarts(data: Seq<u8>, wal: Seq<u8>, written: int)
    requires
        0 <= written <= ops_frames(replay(wal).applied).len(),
    ensures
        log_wf(recovered_log(valid_prefix(data) + ops_frames(replay(wal).applied).take(written), wal)),
        state_of(
            recovered_log(valid_prefix(data) + ops_frames(replay(wal).applied).take(written), wal),
        ) == state_of(recovered_log(data, wal)),
{
    let base = valid_prefix(data);
    let applied = replay(wal).applied;
    let left = base + ops_frames(applied).take(written);
    lemma_valid_prefix(data);
    lemma_replay_fits(wal);
    lemma_recovered(data, wal);
    lemma_recovered(left, wal);
    let k = lemma_torn_ops(base, applied, written);
    let part = applied.take(k);
    assert forall|i: int| 0 <= i < part.len() implies (#[trigger] part[i]).fits() by {
        assert(part[i] == applied[i]);
    }
    lemma_append_ops(base, part);
    lemma_valid_prefix(left);
    assert(state_of(left) == state_of(valid_prefix(left)));
    assert(state_of(data) == state_of(base));
    lemma_apply_ops_absorbs_prefix(state_of(base), applied, k);
}

/// Durability. Once a commit has returned, the store holds the data log with
/// the records of the transaction and an empty write-ahead log; opening these
/// images gives the state after the transaction.
pub proof fn lemma_commit_is_durable(data: Seq<u8>, ops: Seq<OpView>)
    requires
        log_wf(data),
        all_fit(ops),
    ensures
        replay(Seq::empty()).error is None,
        state_of(recovered_log(data + ops_frames(ops), Seq::empty())) == apply_ops(
            state_of(data),
            ops,
        ),
{
    lemma_crash_is_atomic(data, ops, CrashPoint::Done);
}

/// Recovery is idempotent. Opening the images that a first opening left, a
/// data log and an empty write-ahead log, leaves the data log as it is, and
/// with it the index and the key/value state.
pub proof fn lemma_reopen(data: Seq<u8>, wal: Seq<u8>)
    ensures
        replay(Seq::empty()).error is None,
        recovered_log(recovered_log(data, wal), Seq::empty()) == recovered_log(data, wal),
        index_of(recovered_log(recovered_log(data, wal), Seq::empty())) == index_of(
            recovered_log(data, wal),
        ),
        state_of(recovered_log(recovered_log(data, wal), Seq::empty())) == state_of(
            recovered_log(data, wal),
        ),
{
    let first = recovered_log(data, wal);
    lemma_recovered(data, wal);
    lemma_replay_empty();
    assert(first.take(first.len() as int) =~= first);
    assert(recovered_log(first, Seq::empty()) =~= first);
}

/// A store at rest can be opened again from its own images, and is then the
/// store that it was: the same data log, the same index and the same state.
pub proof fn lemma_reopen_store(db: Db)
    requires
        db.wf(),
    ensures
        replay(db.wal_image()).error is None,
        recovered_log(db.log(), db.wal_image()) == db.log(),
        index_of(recovered_log(db.log(), db.wal_image())) == db.index_view(),
        state_of(recovered_log(db.log(), db.wal_image())) == db@,
{
    let log = db.log();
    assert(db.wal_image() =~= Seq::<u8>::empty());
    lemma_replay_empty();
    assert(log.take(log.len() as int) =~= log);
    assert(recovered_log(log, Seq::empty()) =~= log);
}

} // verus!
