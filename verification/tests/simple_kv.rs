use rust_embedded_kv_store::codec::write_frame;
use rust_embedded_kv_store::simple_kv::{SimpleKvError, SIMPLE_DELETE, SIMPLE_PUT};
use rust_embedded_kv_store::KvStore;

fn open_empty() -> KvStore {
    KvStore::new(Vec::new()).expect("an empty log opens")
}

#[test]
fn simple_opcodes() {
    assert_eq!(SIMPLE_PUT, 0);
    assert_eq!(SIMPLE_DELETE, 1);
}

#[test]
fn simple_put_then_get() {
    let mut store = open_empty();
    store.put("foo".to_string(), "bar".to_string());
    assert_eq!(store.get("foo"), Ok(Some("bar".to_string())));
    assert_eq!(store.get("missing"), Ok(None));
    assert_eq!(store.data(), &[0, 3, 0, 0, 0, 3, 0, 0, 0, b'f', b'o', b'o', b'b', b'a', b'r'][..]);
    assert_eq!(store.writer_pos(), 15);
}

#[test]
fn simple_overwrite_and_delete() {
    let mut store = open_empty();
    store.put("k".to_string(), "1".to_string());
    store.put("k".to_string(), "2".to_string());
    assert_eq!(store.get("k"), Ok(Some("2".to_string())));
    store.delete("k".to_string());
    assert_eq!(store.get("k"), Ok(None));
    let mut expected = Vec::new();
    write_frame(&mut expected, 0, b"k", b"1");
    write_frame(&mut expected, 0, b"k", b"2");
    write_frame(&mut expected, 1, b"k", b"");
    assert_eq!(store.data(), &expected[..]);
    assert_eq!(store.writer_pos(), 11 + 11 + 10);
}

#[test]
fn simple_text_beyond_ascii() {
    let mut store = open_empty();
    store.put("schlüssel".to_string(), "wert – 値".to_string());
    assert_eq!(store.get("schlüssel"), Ok(Some("wert – 値".to_string())));
    assert_eq!(store.get("schlussel"), Ok(None));
}

#[test]
fn simple_reopen_rebuilds_index() {
    let mut store = open_empty();
    store.put("a".to_string(), "1".to_string());
    store.put("b".to_string(), "2".to_string());
    store.delete("a".to_string());
    store.put("c".to_string(), "".to_string());
    let data = store.data().to_vec();
    let reopened = KvStore::new(data.clone()).expect("a whole log opens");
    assert_eq!(reopened.get("a"), Ok(None));
    assert_eq!(reopened.get("b"), Ok(Some("2".to_string())));
    assert_eq!(reopened.get("c"), Ok(Some(String::new())));
    assert_eq!(reopened.data(), &data[..]);
    assert_eq!(reopened.writer_pos(), data.len() as u64);
}

#[test]
fn simple_build_index_offsets() {
    let mut data = Vec::new();
    write_frame(&mut data, 0, b"a", b"1");
    write_frame(&mut data, 7, b"a", b"skipped");
    write_frame(&mut data, 0, b"b", b"2");
    write_frame(&mut data, 1, b"b", b"");
    let (index, end) = KvStore::build_index(&data).expect("whole");
    assert_eq!(end, data.len() as u64);
    assert_eq!(index.len(), 1);
    assert_eq!(index.lookup(b"a"), Some(0));
    assert_eq!(index.lookup(b"b"), None);
}

#[test]
fn simple_torn_log_does_not_open() {
    let mut data = Vec::new();
    write_frame(&mut data, 0, b"a", b"1");
    let whole = data.len();
    write_frame(&mut data, 0, b"b", b"2");
    for cut in whole + 1..data.len() {
        assert_eq!(KvStore::new(data[..cut].to_vec()).err(), Some(SimpleKvError::Truncated));
    }
    assert!(KvStore::new(data[..whole].to_vec()).is_ok());
    assert!(KvStore::new(data).is_ok());
}

#[test]
fn simple_key_that_is_no_text_does_not_open() {
    let mut data = Vec::new();
    write_frame(&mut data, 0, b"a", b"1");
    write_frame(&mut data, 9, &[0xff, 0xfe], b"1");
    assert_eq!(KvStore::new(data.clone()).err(), Some(SimpleKvError::KeyNotUtf8));
    assert_eq!(KvStore::build_index(&data).err(), Some(SimpleKvError::KeyNotUtf8));
    data.push(3);
    assert_eq!(KvStore::new(data).err(), Some(SimpleKvError::KeyNotUtf8));
}

#[test]
fn simple_first_fault_wins() {
    let mut data = Vec::new();
    write_frame(&mut data, 0, b"a", b"1");
    data.extend_from_slice(&[0, 1, 0]);
    let mut torn_first = data.clone();
    write_frame(&mut torn_first, 0, &[0xff], b"");
    assert_eq!(KvStore::new(torn_first).err(), Some(SimpleKvError::Truncated));
}

#[test]
fn simple_value_that_is_no_text_is_an_error_on_get() {
    let mut data = Vec::new();
    write_frame(&mut data, 0, b"bad", &[0xc3, 0x28]);
    write_frame(&mut data, 0, b"good", b"ok");
    let store = KvStore::new(data).expect("keys are text");
    assert_eq!(store.get("bad"), Err(SimpleKvError::ValueNotUtf8));
    assert_eq!(store.get("good"), Ok(Some("ok".to_string())));
}
