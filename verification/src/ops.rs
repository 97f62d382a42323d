//! The operations of a transaction and what they do to a key/value state.

use vstd::prelude::*;
use crate::codec::{delete_frame, fits, put_frame, write_frame, OP_DELETE, OP_PUT};

verus! {

/// The key/value state of a store: which keys are present, each with its value.
pub type State = Map<Seq<u8>, Seq<u8>>;

/// One operation of a transaction, with owned bytes.
#[derive(Debug, PartialEq, Eq)]
pub enum Op {
    /// Set the key (first) to the value (second).
    Put(Vec<u8>, Vec<u8>),
    /// Remove the key.
    Delete(Vec<u8>),
}

/// One operation of a transaction, as mathematical values.
pub enum OpView {
    Put(Seq<u8>, Seq<u8>),
    Delete(Seq<u8>),
}

impl View for Op {
    type V = OpView;

    open spec fn view(&self) -> OpView {
        match self {
            Op::Put(key, value) => OpView::Put(key@, value@),
            Op::Delete(key) => OpView::Delete(key@),
        }
    }
}

impl OpView {
    /// The key that the operation is about.
    pub open spec fn key(self) -> Seq<u8> {
        match self {
            OpView::Put(key, _) => key,
            OpView::Delete(key) => key,
        }
    }

    /// Whether key and value are short enough to be framed.
    pub open spec fn fits(self) -> bool {
        match self {
            OpView::Put(key, value) => fits(key.len()) && fits(value.len()),
            OpView::Delete(key) => fits(key.len()),
        }
    }

    /// The record that stands for the operation in either log.
    pub open spec fn frame(self) -> Seq<u8> {
        match self {
            OpView::Put(key, value) => put_frame(key, value),
            OpView::Delete(key) => delete_frame(key),
        }
    }

    /// The state after the operation.
    pub open spec fn apply(self, state: State) -> State {
        match self {
            OpView::Put(key, value) => state.insert(key, value),
            OpView::Delete(key) => state.remove(key),
        }
    }
}

/// The operations of a list, each as mathematical values.
pub open spec fn ops_view(ops: Seq<Op>) -> Seq<OpView> {
    ops.map_values(|op: Op| op@)
}

/// Whether every operation of the list can be framed.
pub open spec fn all_fit(ops: Seq<OpView>) -> bool {
    forall|i: int| 0 <= i < ops.len() ==> (#[trigger] ops[i]).fits()
}

/// The records of the operations, one behind the other.
pub open spec fn ops_frames(ops: Seq<OpView>) -> Seq<u8>
    decreases ops.len(),
{
    if ops.len() == 0 {
        Seq::empty()
    } else {
        ops_frames(ops.drop_last()) + ops.last().frame()
    }
}

/// The state after the operations, applied first to last.
pub open spec fn apply_ops(state: State, ops: Seq<OpView>) -> State
    decreases ops.len(),
{
    if ops.len() == 0 {
        state
    } else {
        ops.last().apply(apply_ops(state, ops.drop_last()))
    }
}

/// The last operation of the list that is about `key`, if there is one.
pub open spec fn last_op_on(ops: Seq<OpView>, key: Seq<u8>) -> Option<OpView>
    decreases ops.len(),
{
    if ops.len() == 0 {
        None
    } else if ops.last().key() == key {
        Some(ops.last())
    } else {
        last_op_on(ops.drop_last(), key)
    }
}

/// What a lookup of `key` gives in `state`.
pub open spec fn lookup(state: State, key: Seq<u8>) -> Option<Seq<u8>> {
    if state.contains_key(key) {
        Some(state[key])
    } else {
        None
    }
}

/// What an optional value holds, as mathematical values.
pub open spec fn value_view(value: Option<Vec<u8>>) -> Option<Seq<u8>> {
    match value {
        Some(bytes) => Some(bytes@),
        None => None,
    }
}

impl Op {
    /// Whether key and value are short enough to be framed.
    pub fn fits(&self) -> (ok: bool)
        ensures
            ok == self@.fits(),
    {
        match self {
            Op::Put(key, value) => key.len() <= 0xffff_ffff && value.len() <= 0xffff_ffff,
            Op::Delete(key) => key.len() <= 0xffff_ffff,
        }
    }

    /// Appends the record of the operation to `out`.
    pub fn write(&self, out: &mut Vec<u8>)
        requires
            self@.fits(),
        ensures
            final(out)@ == old(out)@ + self@.frame(),
    {
        match self {
            Op::Put(key, value) => {
                write_frame(out, OP_PUT, key.as_slice(), value.as_slice());
            },
            Op::Delete(key) => {
                let none: Vec<u8> = Vec::new();
                write_frame(out, OP_DELETE, key.as_slice(), none.as_slice());
            },
        }
    }
}

/// Appends the records of the operations to `out`, first to last.
pub fn write_ops(out: &mut Vec<u8>, ops: &Vec<Op>)
    requires
        all_fit(ops_view(ops@)),
    ensures
        final(out)@ == old(out)@ + ops_frames(ops_view(ops@)),
{
    let ghost all = ops_view(ops@);
    let mut i: usize = 0;
    while i < ops.len()
        invariant
            i <= ops.len(),
            all == ops_view(ops@),
            all_fit(all),
            out@ == old(out)@ + ops_frames(all.take(i as int)),
        decreases ops.len() - i,
    {
        assert(all[i as int] == ops[i as int]@);
        assert(all.take(i + 1).drop_last() =~= all.take(i as int));
        ops[i].write(out);
        i = i + 1;
    }
    assert(all.take(i as int) =~= all);
}

/// Two runs of operations, one after the other, do what their concatenation
/// does.
pub proof fn lemma_apply_ops_concat(state: State, first: Seq<OpView>, second: Seq<OpView>)
    ensures
        apply_ops(apply_ops(state, first), second) == apply_ops(state, first + second),
    decreases second.len(),
{
    if second.len() == 0 {
        assert(first + second =~= first);
    } else {
        lemma_apply_ops_concat(state, first, second.drop_last());
        assert((first + second).drop_last() =~= first + second.drop_last());
    }
}

/// The records of two runs of operations are the records of the first run
/// followed by those of the second.
pub proof fn lemma_ops_frames_concat(first: Seq<OpView>, second: Seq<OpView>)
    ensures
        ops_frames(first + second) == ops_frames(first) + ops_frames(second),
    decreases second.len(),
{
    if second.len() == 0 {
        assert(first + second =~= first);
        assert(ops_frames(first) + ops_frames(second) =~= ops_frames(first));
    } else {
        lemma_ops_frames_concat(first, second.drop_last());
        assert((first + second).drop_last() =~= first + second.drop_last());
        assert(ops_frames(first + second) =~= ops_frames(first) + ops_frames(second));
    }
}

/// After a run of operations, a key holds what the last operation on it left:
/// the value of a set, nothing after a delete. A key that no operation is
/// about holds what it held before.
pub proof fn lemma_last_op_decides(state: State, ops: Seq<OpView>, key: Seq<u8>)
    ensures
        lookup(apply_ops(state, ops), key) == match last_op_on(ops, key) {
            Some(OpView::Put(_, value)) => Some(value),
            Some(OpView::Delete(_)) => None,
            None => lookup(state, key),
        },
    decreases ops.len(),
{
    if ops.len() > 0 {
        lemma_last_op_decides(state, ops.drop_last(), key);
    }
}

/// Where an operation on `key` is followed by no other operation on `key`, it
/// is the last one on that key.
pub proof fn lemma_last_op_on_at(ops: Seq<OpView>, i: int, key: Seq<u8>)
    requires
        0 <= i < ops.len(),
        ops[i].key() == key,
        forall|j: int| i < j < ops.len() ==> (#[trigger] ops[j]).key() != key,
    ensures
        last_op_on(ops, key) == Some(ops[i]),
    decreases ops.len(),
{
    if i < ops.len() - 1 {
        assert(ops.last() == ops[ops.len() - 1]);
        lemma_last_op_on_at(ops.drop_last(), i, key);
    }
}

/// Applying a first part of a run of operations and then the whole run gives
/// what the whole run alone gives.
pub proof fn lemma_apply_ops_absorbs_prefix(state: State, ops: Seq<OpView>, n: int)
    requires
        0 <= n <= ops.len(),
    ensures
        apply_ops(apply_ops(state, ops.take(n)), ops) == apply_ops(state, ops),
{
    let part = apply_ops(state, ops.take(n));
    assert forall|key: Seq<u8>|
        lookup(apply_ops(part, ops), key) == lookup(apply_ops(state, ops), key) by {
        lemma_last_op_decides(part, ops, key);
        lemma_last_op_decides(state, ops, key);
        if last_op_on(ops, key) is None {
            lemma_last_op_decides(state, ops.take(n), key);
            lemma_untouched_in_prefix(ops, n, key);
        }
    }
    lemma_same_lookups(apply_ops(part, ops), apply_ops(state, ops));
}

/// A key that no operation of a run is about is not touched by a first part of
/// it either.
pub proof fn lemma_untouched_in_prefix(ops: Seq<OpView>, n: int, key: Seq<u8>)
    requires
        0 <= n <= ops.len(),
        last_op_on(ops, key) is None,
    ensures
        last_op_on(ops.take(n), key) is None,
    decreases ops.len(),
{
    if n == ops.len() {
        assert(ops.take(n) =~= ops);
    } else {
        assert(ops.drop_last().take(n) =~= ops.take(n));
        lemma_untouched_in_prefix(ops.drop_last(), n, key);
    }
}

/// Two states that answer every lookup alike are the same state.
pub proof fn lemma_same_lookups(a: State, b: State)
    requires
        forall|key: Seq<u8>| lookup(a, key) == lookup(b, key),
    ensures
        a == b,
{
    assert forall|key: Seq<u8>| a.contains_key(key) == b.contains_key(key) by {
        assert(lookup(a, key) == lookup(b, key));
    }
    assert forall|key: Seq<u8>| a.contains_key(key) implies a[key] == b[key] by {
        assert(lookup(a, key) == lookup(b, key));
    }
    assert(a =~= b);
}

/// The operations of a run of transactions, one transaction behind the
/// other.
pub open spec fn concat_all(txns: Seq<Seq<OpView>>) -> Seq<OpView>
    decreases txns.len(),
{
    if txns.len() == 0 {
        Seq::empty()
    } else {
        concat_all(txns.drop_last()) + txns.last()
    }
}

/// The state after a run of transactions, committed first to last.
pub open spec fn apply_txns(state: State, txns: Seq<Seq<OpView>>) -> State
    decreases txns.len(),
{
    if txns.len() == 0 {
        state
    } else {
        apply_ops(apply_txns(state, txns.drop_last()), txns.last())
    }
}

/// Whether every operation of every transaction can be framed.
pub open spec fn all_txns_fit(txns: Seq<Seq<OpView>>) -> bool {
    forall|i: int| 0 <= i < txns.len() ==> all_fit(#[trigger] txns[i])
}

/// Where every operation of every transaction can be framed, so can every
/// operation of their concatenation.
pub proof fn lemma_concat_all_fits(txns: Seq<Seq<OpView>>)
    requires
        all_txns_fit(txns),
    ensures
        all_fit(concat_all(txns)),
    decreases txns.len(),
{
    if txns.len() > 0 {
        let rest = txns.drop_last();
        assert forall|i: int| 0 <= i < rest.len() implies all_fit(#[trigger] rest[i]) by {
            assert(rest[i] == txns[i]);
        }
        lemma_concat_all_fits(rest);
        let all = concat_all(txns);
        assert(all_fit(txns[txns.len() - 1]));
        assert forall|i: int| 0 <= i < all.len() implies (#[trigger] all[i]).fits() by {
            if i < concat_all(rest).len() {
                assert(all[i] == concat_all(rest)[i]);
            } else {
                assert(all[i] == txns.last()[i - concat_all(rest).len()]);
            }
        }
    }
}

/// Committing transactions one after the other does what their operations
/// do, taken as one run.
pub proof fn lemma_apply_txns(state: State, txns: Seq<Seq<OpView>>)
    ensures
        apply_txns(state, txns) == apply_ops(state, concat_all(txns)),
    decreases txns.len(),
{
    if txns.len() > 0 {
        lemma_apply_txns(state, txns.drop_last());
        lemma_apply_ops_concat(state, concat_all(txns.drop_last()), txns.last());
    }
}

/// Read your writes. After any run of committed transactions, a key holds
/// the value of the most recent committed set of that key; it is absent if
/// the most recent operation on it was a delete; and a key that no
/// transaction mentions holds what it held before, which is nothing in a
/// store that started empty.
pub proof fn lemma_read_your_writes(state: State, txns: Seq<Seq<OpView>>, key: Seq<u8>)
    ensures
        lookup(apply_txns(state, txns), key) == match last_op_on(concat_all(txns), key) {
            Some(OpView::Put(_, value)) => Some(value),
            Some(OpView::Delete(_)) => None,
            None => lookup(state, key),
        },
        last_op_on(concat_all(txns), key) is None ==> lookup(
            apply_txns(Map::empty(), txns),
            key,
        ) is None,
{
    lemma_apply_txns(state, txns);
    lemma_last_op_decides(state, concat_all(txns), key);
    lemma_apply_txns(Map::empty(), txns);
    lemma_last_op_decides(Map::empty(), concat_all(txns), key);
}

/// The last write wins. Where a transaction holds several operations on one
/// key, the one that no other operation on that key follows decides what the
/// key holds after the commit.
pub proof fn lemma_last_write_wins(state: State, ops: Seq<OpView>, i: int)
    requires
        0 <= i < ops.len(),
        forall|j: int| i < j < ops.len() ==> (#[trigger] ops[j]).key() != ops[i].key(),
    ensures
        lookup(apply_ops(state, ops), ops[i].key()) == match ops[i] {
            OpView::Put(_, value) => Some(value),
            OpView::Delete(_) => None,
        },
{
    lemma_last_op_on_at(ops, i, ops[i].key());
    lemma_last_op_decides(state, ops, ops[i].key());
}

} // verus!
