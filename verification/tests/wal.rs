use rust_embedded_kv_store::codec::{encode_delete, encode_put};
use rust_embedded_kv_store::datalog::DataLog;
use rust_embedded_kv_store::wal::{
    append_begin, append_commit, append_transaction, encode_transaction, process_wal, Action,
    ReplayState,
};
use rust_embedded_kv_store::{Corruption, Op};

fn put(key: &[u8], value: &[u8]) -> Op {
    Op::Put(key.to_vec(), value.to_vec())
}

fn del(key: &[u8]) -> Op {
    Op::Delete(key.to_vec())
}

fn replay(wal: &[u8]) -> (Result<(), Corruption>, Vec<u8>, Vec<u8>) {
    let mut wal = wal.to_vec();
    let mut data = DataLog::open(Vec::new());
    let result = process_wal(&mut wal, &mut data);
    (result, data.into_bytes(), wal)
}

#[test]
fn markers_are_bare_bytes() {
    let mut wal = Vec::new();
    append_begin(&mut wal);
    append_commit(&mut wal);
    assert_eq!(wal, vec![0, 3]);
}

#[test]
fn transaction_frame_layout() {
    let frame = encode_transaction(&vec![put(b"a", b"1"), del(b"b")]);
    let mut expected = vec![0u8];
    expected.extend_from_slice(&encode_put(b"a", b"1"));
    expected.extend_from_slice(&encode_delete(b"b"));
    expected.push(3);
    assert_eq!(frame, expected);
    assert_eq!(encode_transaction(&Vec::new()), vec![0, 3]);
    let mut wal = vec![0xaa];
    append_transaction(&mut wal, &vec![put(b"a", b"1")]);
    assert_eq!(wal[0], 0xaa);
    assert_eq!(&wal[1..], &encode_transaction(&vec![put(b"a", b"1")])[..]);
}

#[test]
fn transition_table() {
    let idle = ReplayState::Idle;
    let in_txn = ReplayState::InTxn;
    assert_eq!(idle.on_opcode(0), Ok((in_txn, Action::ClearPending)));
    assert_eq!(idle.on_opcode(1), Err(Corruption::PutOutsideTxn));
    assert_eq!(idle.on_opcode(2), Err(Corruption::DeleteOutsideTxn));
    assert_eq!(idle.on_opcode(3), Err(Corruption::CommitOutsideTxn));
    assert_eq!(idle.on_opcode(4), Err(Corruption::UnknownOpcode(4)));
    assert_eq!(in_txn.on_opcode(0), Ok((in_txn, Action::ClearPending)));
    assert_eq!(in_txn.on_opcode(1), Ok((in_txn, Action::BufferPut)));
    assert_eq!(in_txn.on_opcode(2), Ok((in_txn, Action::BufferDelete)));
    assert_eq!(in_txn.on_opcode(3), Ok((idle, Action::ApplyPending)));
    assert_eq!(in_txn.on_opcode(255), Err(Corruption::UnknownOpcode(255)));
}

#[test]
fn empty_wal_applies_nothing() {
    let (result, data, wal) = replay(&[]);
    assert_eq!(result, Ok(()));
    assert!(data.is_empty());
    assert!(wal.is_empty());
}

#[test]
fn whole_transaction_is_applied_and_wal_emptied() {
    let ops = vec![put(b"a", b"1"), del(b"a"), put(b"b", b"2")];
    let (result, data, wal) = replay(&encode_transaction(&ops));
    assert_eq!(result, Ok(()));
    let mut expected = encode_put(b"a", b"1");
    expected.extend_from_slice(&encode_delete(b"a"));
    expected.extend_from_slice(&encode_put(b"b", b"2"));
    assert_eq!(data, expected);
    assert!(wal.is_empty());
}

#[test]
fn replay_appends_behind_existing_records() {
    let mut wal = encode_transaction(&vec![put(b"b", b"2")]);
    let mut data = DataLog::open(encode_put(b"a", b"1"));
    assert_eq!(process_wal(&mut wal, &mut data), Ok(()));
    let mut expected = encode_put(b"a", b"1");
    expected.extend_from_slice(&encode_put(b"b", b"2"));
    assert_eq!(data.into_bytes(), expected);
}

#[test]
fn several_transactions_are_applied_in_order() {
    let mut wal = encode_transaction(&vec![put(b"a", b"1")]);
    wal.extend_from_slice(&encode_transaction(&vec![put(b"a", b"2"), del(b"b")]));
    let (result, data, left) = replay(&wal);
    assert_eq!(result, Ok(()));
    let mut expected = encode_put(b"a", b"1");
    expected.extend_from_slice(&encode_put(b"a", b"2"));
    expected.extend_from_slice(&encode_delete(b"b"));
    assert_eq!(data, expected);
    assert!(left.is_empty());
}

#[test]
fn transaction_cut_anywhere_is_dropped() {
    let frame = encode_transaction(&vec![put(b"key", b"value"), del(b"other")]);
    for cut in 0..frame.len() {
        let (result, data, wal) = replay(&frame[..cut]);
        assert_eq!(result, Ok(()), "cut at {}", cut);
        assert!(data.is_empty(), "cut at {}", cut);
        assert!(wal.is_empty(), "cut at {}", cut);
    }
}

#[test]
fn torn_transaction_behind_whole_one_is_dropped() {
    let mut wal = encode_transaction(&vec![put(b"a", b"1")]);
    let second = encode_transaction(&vec![put(b"b", b"2")]);
    wal.extend_from_slice(&second[..second.len() - 1]);
    let (result, data, left) = replay(&wal);
    assert_eq!(result, Ok(()));
    assert_eq!(data, encode_put(b"a", b"1"));
    assert!(left.is_empty());
}

#[test]
fn begin_inside_transaction_discards_pending() {
    let mut wal = vec![0u8];
    wal.extend_from_slice(&encode_put(b"lost", b"1"));
    wal.extend_from_slice(&encode_transaction(&vec![put(b"kept", b"2")]));
    let (result, data, left) = replay(&wal);
    assert_eq!(result, Ok(()));
    assert_eq!(data, encode_put(b"kept", b"2"));
    assert!(left.is_empty());
}

#[test]
fn put_outside_transaction_is_corruption() {
    let wal = encode_put(b"a", b"1");
    let (result, data, left) = replay(&wal);
    assert_eq!(result, Err(Corruption::PutOutsideTxn));
    assert!(data.is_empty());
    assert_eq!(left, wal);
}

#[test]
fn truncated_put_outside_transaction_is_corruption() {
    let (result, _, _) = replay(&[1, 5, 0]);
    assert_eq!(result, Err(Corruption::PutOutsideTxn));
}

#[test]
fn delete_outside_transaction_is_corruption() {
    let (result, _, _) = replay(&encode_delete(b"a"));
    assert_eq!(result, Err(Corruption::DeleteOutsideTxn));
}

#[test]
fn commit_outside_transaction_is_corruption() {
    let (result, _, _) = replay(&[3]);
    assert_eq!(result, Err(Corruption::CommitOutsideTxn));
    let mut wal = encode_transaction(&vec![put(b"a", b"1")]);
    wal.push(3);
    let (result, data, left) = replay(&wal);
    assert_eq!(result, Err(Corruption::CommitOutsideTxn));
    assert_eq!(data, encode_put(b"a", b"1"));
    assert_eq!(left, wal);
}

#[test]
fn unknown_opcode_is_corruption() {
    let (result, _, _) = replay(&[7]);
    assert_eq!(result, Err(Corruption::UnknownOpcode(7)));
    let (result, _, _) = replay(&[0, 9]);
    assert_eq!(result, Err(Corruption::UnknownOpcode(9)));
}

#[test]
fn delete_with_value_is_corruption() {
    let mut wal = vec![0u8, 2, 1, 0, 0, 0, 1, 0, 0, 0, b'k', b'v', 3];
    let (result, data, left) = replay(&wal);
    assert_eq!(result, Err(Corruption::DeleteWithValue));
    assert!(data.is_empty());
    assert_eq!(left, wal);
    wal.truncate(10);
    let (result, _, _) = replay(&wal);
    assert_eq!(result, Err(Corruption::DeleteWithValue));
    wal.truncate(9);
    let (result, _, _) = replay(&wal);
    assert_eq!(result, Ok(()));
}

#[test]
fn corruption_keeps_earlier_transactions() {
    let mut wal = encode_transaction(&vec![put(b"a", b"1")]);
    wal.extend_from_slice(&[0, 77]);
    let (result, data, left) = replay(&wal);
    assert_eq!(result, Err(Corruption::UnknownOpcode(77)));
    assert_eq!(data, encode_put(b"a", b"1"));
    assert_eq!(left, wal);
}
