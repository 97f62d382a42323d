//! The write-ahead log: how a transaction is framed in it, and how it is
//! replayed when a store is opened.
//!
//! A transaction lies in the log as a begin marker, the records of its
//! operations and a commit marker. Replay applies each transaction whose
//! commit marker it reaches, and drops what follows the last one.

use vstd::prelude::*;
use crate::codec::{
    complete_at, decode_next, frame, frame_end, has_header, lemma_frame_local, lemma_header_local,
    lemma_frame_round_trip, lemma_record_fits, read_le32, record_at, value_len_at, Decoded,
    HEADER_LEN, OP_BEGIN, OP_COMMIT, OP_DELETE, OP_PUT,
};
use crate::datalog::{op_record, state_of, DataLog};
use crate::ops::{
    all_fit, apply_ops, lemma_apply_ops_concat, lemma_ops_frames_concat, ops_frames, ops_view,
    write_ops, Op, OpView,
};

verus! {

/// Why a write-ahead log cannot be replayed.
#[derive(Debug, Clone, Copy, PartialEq, Eq, Structural)]
pub enum Corruption {
    /// An opcode that is none of begin, put, delete, commit.
    UnknownOpcode(u8),
    /// A put record outside a transaction.
    PutOutsideTxn,
    /// A delete record outside a transaction.
    DeleteOutsideTxn,
    /// A commit marker outside a transaction.
    CommitOutsideTxn,
    /// A delete record that announces a value.
    DeleteWithValue,
}

/// Where replay stands between two records.
#[derive(Debug, Clone, Copy, PartialEq, Eq, Structural)]
pub enum ReplayState {
    /// Outside a transaction.
    Idle,
    /// Behind a begin marker whose commit marker was not reached yet.
    InTxn,
}

/// What replay does on an opcode that it accepts.
#[derive(Debug, Clone, Copy, PartialEq, Eq, Structural)]
pub enum Action {
    /// Drop the pending operations; a transaction starts.
    ClearPending,
    /// Read a put record and add it to the pending operations.
    BufferPut,
    /// Read a delete record and add it to the pending operations.
    BufferDelete,
    /// Apply the pending operations to the data log; the transaction ends.
    ApplyPending,
}

/// The transition of replay on one opcode: the next state and the action,
/// or the corruption that the opcode shows in this state.
pub open spec fn transition(state: ReplayState, opcode: u8) -> Result<
    (ReplayState, Action),
    Corruption,
> {
    if opcode == OP_BEGIN {
        Ok((ReplayState::InTxn, Action::ClearPending))
    } else if opcode == OP_PUT {
        if state == ReplayState::InTxn {
            Ok((ReplayState::InTxn, Action::BufferPut))
        } else {
            Err(Corruption::PutOutsideTxn)
        }
    } else if opcode == OP_DELETE {
        if state == ReplayState::InTxn {
            Ok((ReplayState::InTxn, Action::BufferDelete))
        } else {
            Err(Corruption::DeleteOutsideTxn)
        }
    } else if opcode == OP_COMMIT {
        if state == ReplayState::InTxn {
            Ok((ReplayState::Idle, Action::ApplyPending))
        } else {
            Err(Corruption::CommitOutsideTxn)
        }
    } else {
        Err(Corruption::UnknownOpcode(opcode))
    }
}

/// What a replay gives: the operations of the transactions that it applied,
/// first to last, and the corruption at which it stopped, if it met one.
pub struct Replayed {
    pub applied: Seq<OpView>,
    pub error: Option<Corruption>,
}

/// The replay of `w` from offset `at` on, in the given state, with the
/// operations that are pending and those that were applied so far.
///
/// The end of the log and a record that is cut short both end the replay
/// without an error, and the pending operations are dropped.
pub open spec fn replay_from(
    w: Seq<u8>,
    at: int,
    state: ReplayState,
    pending: Seq<OpView>,
    applied: Seq<OpView>,
) -> Replayed
    decreases w.len() - at,
{
    if at < 0 || at >= w.len() {
        Replayed { applied, error: None }
    } else {
        match transition(state, w[at]) {
            Err(corruption) => Replayed { applied, error: Some(corruption) },
            Ok((next, Action::ClearPending)) => replay_from(w, at + 1, next, Seq::empty(), applied),
            Ok((next, Action::ApplyPending)) => replay_from(
                w,
                at + 1,
                next,
                Seq::empty(),
                applied + pending,
            ),
            Ok((next, Action::BufferPut)) => if complete_at(w, at) {
                replay_from(
                    w,
                    frame_end(w, at),
                    next,
                    pending.push(OpView::Put(record_at(w, at).key, record_at(w, at).value)),
                    applied,
                )
            } else {
                Replayed { applied, error: None }
            },
            Ok((next, Action::BufferDelete)) => if !has_header(w, at) {
                Replayed { applied, error: None }
            } else if value_len_at(w, at) != 0 {
                Replayed { applied, error: Some(Corruption::DeleteWithValue) }
            } else if complete_at(w, at) {
                replay_from(
                    w,
                    frame_end(w, at),
                    next,
                    pending.push(OpView::Delete(record_at(w, at).key)),
                    applied,
                )
            } else {
                Replayed { applied, error: None }
            },
        }
    }
}

/// The replay of a whole write-ahead log.
pub open spec fn replay(w: Seq<u8>) -> Replayed {
    replay_from(w, 0, ReplayState::Idle, Seq::empty(), Seq::empty())
}

/// A transaction as it lies in the write-ahead log: begin marker, the
/// records of its operations, commit marker.
pub open spec fn txn_frame(ops: Seq<OpView>) -> Seq<u8> {
    seq![OP_BEGIN] + ops_frames(ops) + seq![OP_COMMIT]
}

impl ReplayState {
    /// The transition on one opcode.
    pub fn on_opcode(self, opcode: u8) -> (next: Result<(ReplayState, Action), Corruption>)
        ensures
            next == transition(self, opcode),
    {
        let in_txn = match self {
            ReplayState::InTxn => true,
            ReplayState::Idle => false,
        };
        if opcode == OP_BEGIN {
            Ok((ReplayState::InTxn, Action::ClearPending))
        } else if opcode == OP_PUT {
            if in_txn {
                Ok((ReplayState::InTxn, Action::BufferPut))
            } else {
                Err(Corruption::PutOutsideTxn)
            }
        } else if opcode == OP_DELETE {
            if in_txn {
                Ok((ReplayState::InTxn, Action::BufferDelete))
            } else {
                Err(Corruption::DeleteOutsideTxn)
            }
        } else if opcode == OP_COMMIT {
            if in_txn {
                Ok((ReplayState::Idle, Action::ApplyPending))
            } else {
                Err(Corruption::CommitOutsideTxn)
            }
        } else {
            Err(Corruption::UnknownOpcode(opcode))
        }
    }
}

/// Appends the begin marker to the log.
pub fn append_begin(wal: &mut Vec<u8>)
    ensures
        final(wal)@ == old(wal)@.push(OP_BEGIN),
{
    wal.push(OP_BEGIN);
}

/// Appends the commit marker to the log.
pub fn append_commit(wal: &mut Vec<u8>)
    ensures
        final(wal)@ == old(wal)@.push(OP_COMMIT),
{
    wal.push(OP_COMMIT);
}

/// Appends a transaction to the log: begin marker, the records of the
/// operations in their order, commit marker.
pub fn append_transaction(wal: &mut Vec<u8>, ops: &Vec<Op>)
    requires
        all_fit(ops_view(ops@)),
    ensures
        final(wal)@ == old(wal)@ + txn_frame(ops_view(ops@)),
{
    append_begin(wal);
    write_ops(wal, ops);
    append_commit(wal);
    assert(wal@ =~= old(wal)@ + txn_frame(ops_view(ops@)));
}

/// The bytes of a transaction as they lie in the log.
pub fn encode_transaction(ops: &Vec<Op>) -> (out: Vec<u8>)
    requires
        all_fit(ops_view(ops@)),
    ensures
        out@ == txn_frame(ops_view(ops@)),
{
    let mut out: Vec<u8> = Vec::new();
    append_transaction(&mut out, ops);
    assert(out@ =~= txn_frame(ops_view(ops@)));
    out
}

/// Replays the write-ahead log into the data log, as a store does when it
/// is opened.
///
/// Each transaction whose commit marker is reached is appended to the data
/// log, in the order of the log. The end of the log and a record that is cut
/// short end the replay; what is pending then is dropped. After a replay
/// without corruption the write-ahead log is empty. On corruption it is left
/// as it was, and the data log holds the transactions that were applied
/// before.
pub fn process_wal(wal: &mut Vec<u8>, data: &mut DataLog) -> (result: Result<(), Corruption>)
    requires
        old(data).wf(),
    ensures
        final(data).wf(),
        final(data)@ == old(data)@ + ops_frames(replay(old(wal)@).applied),
        state_of(final(data)@) == apply_ops(state_of(old(data)@), replay(old(wal)@).applied),
        match result {
            Ok(()) => replay(old(wal)@).error is None && final(wal)@.len() == 0,
            Err(corruption) => replay(old(wal)@).error == Some(corruption) && final(wal)@ == old(
                wal,
            )@,
        },
{
    let mut at: usize = 0;
    let mut state = ReplayState::Idle;
    let mut pending: Vec<Op> = Vec::new();
    let ghost mut applied: Seq<OpView> = Seq::empty();
    proof {
        assert(ops_view(pending@) =~= Seq::<OpView>::empty());
        assert(data@ + ops_frames(applied) =~= data@);
    }
    loop
        invariant_except_break
            at <= wal@.len(),
            replay(wal@) == replay_from(wal@, at as int, state, ops_view(pending@), applied),
            all_fit(ops_view(pending@)),
        invariant
            wal@ == old(wal)@,
            data.wf(),
            data@ == old(data)@ + ops_frames(applied),
            state_of(data@) == apply_ops(state_of(old(data)@), applied),
        ensures
            replay(wal@) == (Replayed { applied, error: None }),
        decreases wal@.len() - at,
    {
        if at >= wal.len() {
            break ;
        }
        let ghost pend = ops_view(pending@);
        match state.on_opcode(wal[at]) {
            Err(corruption) => {
                return Err(corruption);
            },
            Ok((next, Action::ClearPending)) => {
                pending.clear();
                assert(ops_view(pending@) =~= Seq::<OpView>::empty());
                state = next;
                at = at + 1;
            },
            Ok((next, Action::ApplyPending)) => {
                data.append_ops(&pending);
                proof {
                    lemma_ops_frames_concat(applied, pend);
                    lemma_apply_ops_concat(state_of(old(data)@), applied, pend);
                    assert(old(data)@ + ops_frames(applied) + ops_frames(pend) =~= old(data)@ + (
                    ops_frames(applied) + ops_frames(pend)));
                    applied = applied + pend;
                }
                pending.clear();
                assert(ops_view(pending@) =~= Seq::<OpView>::empty());
                state = next;
                at = at + 1;
            },
            Ok((next, Action::BufferPut)) => {
                match decode_next(wal.as_slice(), at) {
                    Decoded::Record { record, next: behind } => {
                        proof {
                            lemma_record_fits(wal@, at as int);
                        }
                        let op = Op::Put(record.key, record.value);
                        pending.push(op);
                        assert(ops_view(pending@) =~= pend.push(op@));
                        state = next;
                        at = behind;
                    },
                    _ => {
                        break ;
                    },
                }
            },
            Ok((next, Action::BufferDelete)) => {
                if wal.len() - at < HEADER_LEN {
                    break ;
                }
                if read_le32(wal.as_slice(), at + 5) != 0 {
                    return Err(Corruption::DeleteWithValue);
                }
                match decode_next(wal.as_slice(), at) {
                    Decoded::Record { record, next: behind } => {
                        proof {
                            lemma_record_fits(wal@, at as int);
                        }
                        let op = Op::Delete(record.key);
                        pending.push(op);
                        assert(ops_view(pending@) =~= pend.push(op@));
                        state = next;
                        at = behind;
                    },
                    _ => {
                        break ;
                    },
                }
            },
        }
    }
    wal.clear();
    Ok(())
}

/// The offset in the frame of a transaction at which the record of its
/// operation `j` starts; for `j` the number of operations, the offset of the
/// commit marker.
#[verifier::opaque]
spec fn op_offset(ops: Seq<OpView>, j: int) -> int {
    1 + ops_frames(ops.take(j)).len() as int
}

/// How the record of operation `j` lies in the frame of its transaction.
proof fn lemma_frame_layout(ops: Seq<OpView>, j: int)
    requires
        all_fit(ops),
        0 <= j < ops.len(),
    ensures
        op_offset(ops, j + 1) == op_offset(ops, j) + ops[j].frame().len(),
        op_offset(ops, j + 1) < txn_frame(ops).len(),
        complete_at(txn_frame(ops), op_offset(ops, j)),
        frame_end(txn_frame(ops), op_offset(ops, j)) == op_offset(ops, j + 1),
        record_at(txn_frame(ops), op_offset(ops, j)) == op_record(ops[j]),
        value_len_at(txn_frame(ops), op_offset(ops, j)) == op_record(ops[j]).value.len(),
        txn_frame(ops)[op_offset(ops, j)] == op_record(ops[j]).opcode,
{
    reveal(op_offset);
    let w = txn_frame(ops);
    let head = ops.take(j);
    let upto = ops.take(j + 1);
    let tail = ops.skip(j + 1);
    let r = op_record(ops[j]);
    let f = ops[j].frame();
    assert(upto.drop_last() =~= head);
    assert(upto.last() == ops[j]);
    assert(ops_frames(upto) == ops_frames(head) + f);
    assert(upto + tail =~= ops);
    lemma_ops_frames_concat(upto, tail);
    let before = seq![OP_BEGIN] + ops_frames(head);
    let after = ops_frames(tail) + seq![OP_COMMIT];
    assert(w =~= before + f + after);
    assert(f == frame(r.opcode, r.key, r.value));
    lemma_frame_round_trip(before, r.opcode, r.key, r.value, after);
    assert(record_at(w, before.len() as int).value.len() == value_len_at(w, before.len() as int));
}

/// Where the frame of a transaction starts and ends.
proof fn lemma_frame_ends(ops: Seq<OpView>)
    ensures
        op_offset(ops, 0) == 1,
        op_offset(ops, ops.len() as int) == txn_frame(ops).len() - 1,
        txn_frame(ops)[0] == OP_BEGIN,
        txn_frame(ops)[txn_frame(ops).len() - 1] == OP_COMMIT,
{
    reveal(op_offset);
    assert(ops.take(0) =~= Seq::<OpView>::empty());
    assert(ops.take(ops.len() as int) =~= ops);
}

/// One step of a replay inside a transaction, over a whole record of an
/// operation.
proof fn lemma_replay_over(
    w: Seq<u8>,
    at: int,
    op: OpView,
    pending: Seq<OpView>,
    applied: Seq<OpView>,
)
    requires
        0 <= at < w.len(),
        w[at] == op_record(op).opcode,
        complete_at(w, at),
        record_at(w, at) == op_record(op),
        value_len_at(w, at) == op_record(op).value.len(),
    ensures
        replay_from(w, at, ReplayState::InTxn, pending, applied) == replay_from(
            w,
            frame_end(w, at),
            ReplayState::InTxn,
            pending.push(op),
            applied,
        ),
{
}

/// One step of a replay inside a transaction, at a record of an operation
/// that is cut short.
proof fn lemma_replay_cut(
    w: Seq<u8>,
    at: int,
    op: OpView,
    pending: Seq<OpView>,
    applied: Seq<OpView>,
)
    requires
        0 <= at < w.len(),
        w[at] == op_record(op).opcode,
        !complete_at(w, at),
        has_header(w, at) ==> value_len_at(w, at) == op_record(op).value.len(),
    ensures
        replay_from(w, at, ReplayState::InTxn, pending, applied) == (Replayed {
            applied,
            error: None,
        }),
{
}

/// Whether the record of operation `j` lies in `w` where the frame of the
/// transaction has it.
spec fn record_lies(w: Seq<u8>, ops: Seq<OpView>, j: int) -> bool {
    let at = op_offset(ops, j);
    &&& 0 < at < w.len()
    &&& op_offset(ops, j + 1) < w.len()
    &&& w[at] == op_record(ops[j]).opcode
    &&& complete_at(w, at)
    &&& frame_end(w, at) == op_offset(ops, j + 1)
    &&& record_at(w, at) == op_record(ops[j])
    &&& value_len_at(w, at) == op_record(ops[j]).value.len()
}

/// Whether `w` is laid out as the frame of the transaction `ops`.
#[verifier::opaque]
spec fn laid_out(w: Seq<u8>, ops: Seq<OpView>) -> bool {
    &&& w.len() >= 2
    &&& w[0] == OP_BEGIN
    &&& w[w.len() - 1] == OP_COMMIT
    &&& op_offset(ops, 0) == 1
    &&& op_offset(ops, ops.len() as int) == w.len() - 1
    &&& forall|j: int| 0 <= j < ops.len() ==> #[trigger] record_lies(w, ops, j)
}

/// The frame of a transaction is laid out as such.
proof fn lemma_laid_out(ops: Seq<OpView>)
    requires
        all_fit(ops),
    ensures
        laid_out(txn_frame(ops), ops),
{
    reveal(laid_out);
    lemma_frame_ends(ops);
    let w = txn_frame(ops);
    assert forall|j: int| 0 <= j < ops.len() implies #[trigger] record_lies(w, ops, j) by {
        lemma_frame_layout(ops, j);
        lemma_offset_positive(ops, j);
    }
}

proof fn lemma_offset_positive(ops: Seq<OpView>, j: int)
    ensures
        op_offset(ops, j) > 0,
{
    reveal(op_offset);
}

/// The replay of a log that is laid out as the frame of a transaction,
/// whole or cut off behind its first `n` bytes, from the record of
/// operation `j` on.
proof fn lemma_replay_tail(w: Seq<u8>, ops: Seq<OpView>, n: int, j: int, applied: Seq<OpView>)
    requires
        laid_out(w, ops),
        0 <= j <= ops.len(),
        op_offset(ops, j) <= n <= w.len(),
    ensures
        replay_from(w.take(n), op_offset(ops, j), ReplayState::InTxn, ops.take(j), applied) == (
        Replayed { applied: if n == w.len() {
            applied + ops
        } else {
            applied
        }, error: None }),
    decreases ops.len() - j,
{
    let cut = w.take(n);
    let at = op_offset(ops, j);
    if j == ops.len() {
        assert(ops.take(j) =~= ops);
        assert(0 <= at && at == w.len() - 1 && w[at] == OP_COMMIT) by {
            reveal(laid_out);
        }
        if n == w.len() {
            assert(cut =~= w);
            lemma_replay_commit(cut, at, ops, applied);
        }
    } else {
        assert(record_lies(w, ops, j)) by {
            reveal(laid_out);
        }
    }
    if j < ops.len() && at < n {
        let end = op_offset(ops, j + 1);
        assert(cut[at] == w[at]);
        assert(ops.take(j + 1) =~= ops.take(j).push(ops[j]));
        if end <= n {
            lemma_frame_local(w, cut, at);
            lemma_header_local(w, cut, at);
            lemma_replay_over(cut, at, ops[j], ops.take(j), applied);
            lemma_replay_tail(w, ops, n, j + 1, applied);
        } else {
            if has_header(cut, at) {
                lemma_header_local(w, cut, at);
            }
            lemma_replay_cut(cut, at, ops[j], ops.take(j), applied);
        }
    }
}

/// The last step of a replay of a transaction: its commit marker.
proof fn lemma_replay_commit(w: Seq<u8>, at: int, pending: Seq<OpView>, applied: Seq<OpView>)
    requires
        0 <= at,
        at == w.len() - 1,
        w[at] == OP_COMMIT,
    ensures
        replay_from(w, at, ReplayState::InTxn, pending, applied) == (Replayed {
            applied: applied + pending,
            error: None,
        }),
{
    assert(replay_from(w, at + 1, ReplayState::Idle, Seq::empty(), applied + pending) == (
    Replayed { applied: applied + pending, error: None }));
}

/// The first step of a replay of a transaction: its begin marker.
proof fn lemma_replay_begin(w: Seq<u8>)
    requires
        w.len() > 0,
        w[0] == OP_BEGIN,
    ensures
        replay(w) == replay_from(w, 1, ReplayState::InTxn, Seq::empty(), Seq::empty()),
{
}

/// The replay of a write-ahead log that holds one whole transaction applies
/// the operations of that transaction, in their order, and meets no
/// corruption.
pub proof fn lemma_replay_whole(ops: Seq<OpView>)
    requires
        all_fit(ops),
    ensures
        replay(txn_frame(ops)) == (Replayed { applied: ops, error: None }),
{
    let w = txn_frame(ops);
    lemma_laid_out(ops);
    lemma_frame_ends(ops);
    assert(ops.take(0) =~= Seq::<OpView>::empty());
    lemma_replay_tail(w, ops, w.len() as int, 0, Seq::empty());
    assert(w.take(w.len() as int) =~= w);
    assert(Seq::<OpView>::empty() + ops =~= ops);
    lemma_replay_begin(w);
}

/// The replay of a write-ahead log that was cut off anywhere inside the
/// frame of a transaction applies nothing of it, and meets no corruption.
pub proof fn lemma_replay_torn(ops: Seq<OpView>, n: int)
    requires
        all_fit(ops),
        0 <= n < txn_frame(ops).len(),
    ensures
        replay(txn_frame(ops).take(n)) == (Replayed { applied: Seq::empty(), error: None }),
{
    let w = txn_frame(ops);
    if n > 0 {
        lemma_laid_out(ops);
        lemma_frame_ends(ops);
        assert(ops.take(0) =~= Seq::<OpView>::empty());
        lemma_replay_tail(w, ops, n, 0, Seq::empty());
        assert(w.take(n)[0] == OP_BEGIN);
        lemma_replay_begin(w.take(n));
    }
}

/// The replay of an empty write-ahead log applies nothing.
pub proof fn lemma_replay_empty()
    ensures
        replay(Seq::empty()) == (Replayed { applied: Seq::empty(), error: None }),
{
}

/// Every operation that a replay applies can be framed again.
pub proof fn lemma_replay_fits(w: Seq<u8>)
    ensures
        all_fit(replay(w).applied),
{
    lemma_replay_from_fits(w, 0, ReplayState::Idle, Seq::empty(), Seq::empty());
}

proof fn lemma_replay_from_fits(
    w: Seq<u8>,
    at: int,
    state: ReplayState,
    pending: Seq<OpView>,
    applied: Seq<OpView>,
)
    requires
        all_fit(pending),
        all_fit(applied),
    ensures
        all_fit(replay_from(w, at, state, pending, applied).applied),
    decreases w.len() - at,
{
    if 0 <= at < w.len() {
        match transition(state, w[at]) {
            Err(_) => {},
            Ok((next, Action::ClearPending)) => {
                lemma_replay_from_fits(w, at + 1, next, Seq::empty(), applied);
            },
            Ok((next, Action::ApplyPending)) => {
                lemma_replay_from_fits(w, at + 1, next, Seq::empty(), applied + pending);
            },
            Ok((next, Action::BufferPut)) => {
                if complete_at(w, at) {
                    lemma_record_fits(w, at);
                    lemma_replay_from_fits(
                        w,
                        frame_end(w, at),
                        next,
                        pending.push(OpView::Put(record_at(w, at).key, record_at(w, at).value)),
                        applied,
                    );
                }
            },
            Ok((next, Action::BufferDelete)) => {
                if has_header(w, at) && value_len_at(w, at) == 0 && complete_at(w, at) {
                    lemma_record_fits(w, at);
                    lemma_replay_from_fits(
                        w,
                        frame_end(w, at),
                        next,
                        pending.push(OpView::Delete(record_at(w, at).key)),
                        applied,
                    );
                }
            },
        }
    }
}

} // verus!
