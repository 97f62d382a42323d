use rust_embedded_kv_store::codec::{encode_delete, encode_put, write_frame, Record};
use rust_embedded_kv_store::datalog::{build_index, scan_len, DataLog};
use rust_embedded_kv_store::Op;

#[test]
fn empty_log() {
    let log = DataLog::open(Vec::new());
    assert_eq!(log.write_pos(), 0);
    assert_eq!(log.as_bytes().len(), 0);
    assert_eq!(log.scan().len(), 0);
    assert_eq!(scan_len(&[]), 0);
    let (index, end) = build_index(&[]);
    assert_eq!(index.len(), 0);
    assert_eq!(end, 0);
}

#[test]
fn append_put_returns_offset_before() {
    let mut log = DataLog::open(Vec::new());
    assert_eq!(log.append_put(b"a", b"1"), 0);
    assert_eq!(log.write_pos(), 11);
    assert_eq!(log.append_put(b"bb", b"22"), 11);
    assert_eq!(log.write_pos(), 24);
    let mut expected = encode_put(b"a", b"1");
    expected.extend_from_slice(&encode_put(b"bb", b"22"));
    assert_eq!(log.as_bytes(), &expected[..]);
}

#[test]
fn append_delete_writes_delete_frame() {
    let mut log = DataLog::open(Vec::new());
    log.append_put(b"a", b"1");
    log.append_delete(b"a");
    let mut expected = encode_put(b"a", b"1");
    expected.extend_from_slice(&encode_delete(b"a"));
    assert_eq!(log.as_bytes(), &expected[..]);
    assert_eq!(log.write_pos(), 21);
}

#[test]
fn append_ops_writes_each_record() {
    let mut log = DataLog::open(Vec::new());
    log.append_ops(&vec![
        Op::Put(b"a".to_vec(), b"1".to_vec()),
        Op::Delete(b"a".to_vec()),
        Op::Put(b"b".to_vec(), Vec::new()),
    ]);
    let mut expected = encode_put(b"a", b"1");
    expected.extend_from_slice(&encode_delete(b"a"));
    expected.extend_from_slice(&encode_put(b"b", b""));
    assert_eq!(log.as_bytes(), &expected[..]);
}

#[test]
fn read_at_decodes_one_record() {
    let mut log = DataLog::open(Vec::new());
    let first = log.append_put(b"a", b"1");
    let second = log.append_put(b"key", b"value");
    assert_eq!(
        log.read_at(first),
        Record { opcode: 1, key: b"a".to_vec(), value: b"1".to_vec() }
    );
    assert_eq!(
        log.read_at(second),
        Record { opcode: 1, key: b"key".to_vec(), value: b"value".to_vec() }
    );
}

#[test]
fn scan_gives_records_with_offsets() {
    let mut log = DataLog::open(Vec::new());
    log.append_put(b"a", b"1");
    log.append_delete(b"a");
    log.append_put(b"b", b"2");
    let found = log.scan();
    assert_eq!(found.len(), 3);
    assert_eq!(found[0], (0, Record { opcode: 1, key: b"a".to_vec(), value: b"1".to_vec() }));
    assert_eq!(found[1], (11, Record { opcode: 2, key: b"a".to_vec(), value: Vec::new() }));
    assert_eq!(found[2], (21, Record { opcode: 1, key: b"b".to_vec(), value: b"2".to_vec() }));
}

#[test]
fn open_drops_torn_tail() {
    let mut bytes = encode_put(b"a", b"1");
    let whole = bytes.len();
    bytes.extend_from_slice(&encode_put(b"b", b"2")[..7]);
    assert_eq!(scan_len(&bytes), whole);
    let log = DataLog::open(bytes.clone());
    assert_eq!(log.as_bytes(), &bytes[..whole]);
    assert_eq!(log.write_pos(), whole as u64);
}

#[test]
fn open_drops_tail_torn_in_payload() {
    let mut bytes = encode_put(b"a", b"1");
    let whole = bytes.len();
    let next = encode_put(b"key", b"value");
    bytes.extend_from_slice(&next[..next.len() - 1]);
    let log = DataLog::open(bytes);
    assert_eq!(log.write_pos(), whole as u64);
}

#[test]
fn torn_tail_is_overwritten_by_next_append() {
    let mut bytes = encode_put(b"a", b"1");
    bytes.extend_from_slice(&[1, 9, 0]);
    let mut log = DataLog::open(bytes);
    assert_eq!(log.append_put(b"b", b"2"), 11);
    let mut expected = encode_put(b"a", b"1");
    expected.extend_from_slice(&encode_put(b"b", b"2"));
    assert_eq!(log.into_bytes(), expected);
}

#[test]
fn build_index_put_delete_and_unknown() {
    let mut bytes = Vec::new();
    write_frame(&mut bytes, 1, b"a", b"1");
    write_frame(&mut bytes, 1, b"b", b"2");
    write_frame(&mut bytes, 9, b"a", b"skipped");
    write_frame(&mut bytes, 2, b"b", b"");
    write_frame(&mut bytes, 1, b"a", b"3");
    write_frame(&mut bytes, 0, b"c", b"");
    let (index, end) = build_index(&bytes);
    assert_eq!(end, bytes.len() as u64);
    assert_eq!(index.len(), 1);
    assert_eq!(index.lookup(b"a"), Some(11 + 11 + 17 + 10));
    assert_eq!(index.lookup(b"b"), None);
    assert_eq!(index.lookup(b"c"), None);
}

#[test]
fn build_index_stops_at_torn_record() {
    let mut bytes = encode_put(b"a", b"1");
    bytes.extend_from_slice(&encode_put(b"b", b"2")[..10]);
    let (index, end) = build_index(&bytes);
    assert_eq!(end, 11);
    assert_eq!(index.lookup(b"a"), Some(0));
    assert_eq!(index.lookup(b"b"), None);
}
