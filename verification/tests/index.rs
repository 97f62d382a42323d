use rust_embedded_kv_store::index::{key_order, Index, KeyOrder};

#[test]
fn key_order_is_lexicographic() {
    assert_eq!(key_order(b"a", b"b"), KeyOrder::Less);
    assert_eq!(key_order(b"b", b"a"), KeyOrder::Greater);
    assert_eq!(key_order(b"abc", b"abc"), KeyOrder::Equal);
    assert_eq!(key_order(b"", b""), KeyOrder::Equal);
    assert_eq!(key_order(b"", b"a"), KeyOrder::Less);
    assert_eq!(key_order(b"ab", b"abc"), KeyOrder::Less);
    assert_eq!(key_order(b"abc", b"ab"), KeyOrder::Greater);
    assert_eq!(key_order(b"abd", b"abc"), KeyOrder::Greater);
    assert_eq!(key_order(&[0, 255], &[1]), KeyOrder::Less);
    assert_eq!(key_order(&[200], &[100, 255]), KeyOrder::Greater);
}

#[test]
fn key_order_agrees_with_slice_order() {
    let keys: [&[u8]; 7] = [b"", b"a", b"aa", b"ab", b"b", &[0], &[255, 0]];
    for a in keys {
        for b in keys {
            let expected = if a < b {
                KeyOrder::Less
            } else if a == b {
                KeyOrder::Equal
            } else {
                KeyOrder::Greater
            };
            assert_eq!(key_order(a, b), expected);
        }
    }
}

#[test]
fn new_index_is_empty() {
    let index = Index::new();
    assert_eq!(index.len(), 0);
    assert_eq!(index.lookup(b"a"), None);
    assert_eq!(index.lookup(b""), None);
}

#[test]
fn upsert_then_lookup() {
    let mut index = Index::new();
    index.upsert(b"m".to_vec(), 10);
    index.upsert(b"a".to_vec(), 20);
    index.upsert(b"z".to_vec(), 30);
    index.upsert(b"mm".to_vec(), 40);
    assert_eq!(index.len(), 4);
    assert_eq!(index.lookup(b"m"), Some(10));
    assert_eq!(index.lookup(b"a"), Some(20));
    assert_eq!(index.lookup(b"z"), Some(30));
    assert_eq!(index.lookup(b"mm"), Some(40));
    assert_eq!(index.lookup(b"b"), None);
}

#[test]
fn upsert_overwrites() {
    let mut index = Index::new();
    index.upsert(b"k".to_vec(), 1);
    index.upsert(b"k".to_vec(), 2);
    assert_eq!(index.len(), 1);
    assert_eq!(index.lookup(b"k"), Some(2));
}

#[test]
fn remove_takes_key_out() {
    let mut index = Index::new();
    index.upsert(b"a".to_vec(), 1);
    index.upsert(b"b".to_vec(), 2);
    index.upsert(b"c".to_vec(), 3);
    index.remove(b"b");
    assert_eq!(index.len(), 2);
    assert_eq!(index.lookup(b"a"), Some(1));
    assert_eq!(index.lookup(b"b"), None);
    assert_eq!(index.lookup(b"c"), Some(3));
}

#[test]
fn remove_of_absent_key_changes_nothing() {
    let mut index = Index::new();
    index.upsert(b"a".to_vec(), 1);
    index.remove(b"zz");
    assert_eq!(index.len(), 1);
    assert_eq!(index.lookup(b"a"), Some(1));
}

#[test]
fn empty_key_is_a_key() {
    let mut index = Index::new();
    index.upsert(Vec::new(), 5);
    index.upsert(b"a".to_vec(), 6);
    assert_eq!(index.lookup(b""), Some(5));
    index.remove(b"");
    assert_eq!(index.lookup(b""), None);
    assert_eq!(index.lookup(b"a"), Some(6));
}

#[test]
fn many_keys_in_any_order() {
    let mut index = Index::new();
    let mut n: u64 = 0;
    for round in 0..3u64 {
        for i in (0..200u64).rev() {
            let key = vec![(i % 7) as u8, (i % 13) as u8, i as u8];
            index.upsert(key, i * 10 + round);
            n += 1;
        }
    }
    assert!(n > 0);
    assert_eq!(index.len(), 200);
    for i in 0..200u64 {
        let key = vec![(i % 7) as u8, (i % 13) as u8, i as u8];
        assert_eq!(index.lookup(&key), Some(i * 10 + 2));
    }
    for i in (0..200u64).filter(|i| i % 2 == 0) {
        let key = vec![(i % 7) as u8, (i % 13) as u8, i as u8];
        index.remove(&key);
    }
    assert_eq!(index.len(), 100);
    for i in 0..200u64 {
        let key = vec![(i % 7) as u8, (i % 13) as u8, i as u8];
        let expected = if i % 2 == 0 { None } else { Some(i * 10 + 2) };
        assert_eq!(index.lookup(&key), expected);
    }
}
