use typed_store::codec::StoreValue;
use typed_store::entry::Entry;
use typed_store::error::StoreError;
use typed_store::key_impl::{Long, StoreKey, StringW};
use typed_store::Store;

fn str_key(s: &str) -> StringW {
    StringW(String::from(s))
}

// Codec round trip: decode(encode(v)) == v for sample values.

#[test]
fn roundtrip_i64() {
    for v in [0i64, 1, -1, 42, i64::MAX, i64::MIN] {
        let bytes = v.encode().unwrap();
        let back = <i64 as StoreValue>::decode(&bytes).unwrap();
        assert_eq!(back, v);
    }
}

#[test]
fn roundtrip_string() {
    for v in ["", "a", "hello", "caf\u{e9} \u{1f600}"] {
        let s = String::from(v);
        let bytes = s.encode().unwrap();
        let back = <String as StoreValue>::decode(&bytes).unwrap();
        assert_eq!(back, s);
    }
}

// The encodings themselves have the stated shape: little-endian fixed
// width for integers, a length prefix plus UTF-8 for strings.

#[test]
fn i64_encoding_is_little_endian() {
    let bytes = 1i64.encode().unwrap();
    assert_eq!(bytes, vec![1, 0, 0, 0, 0, 0, 0, 0]);
    let bytes = (-2i64).encode().unwrap();
    assert_eq!(bytes, vec![0xfe, 0xff, 0xff, 0xff, 0xff, 0xff, 0xff, 0xff]);
}

#[test]
fn string_encoding_is_length_prefixed() {
    let bytes = String::from("ab").encode().unwrap();
    assert_eq!(bytes, vec![2, 0, 0, 0, 0, 0, 0, 0, 0x61, 0x62]);
}

#[test]
fn decode_failure_is_serde_error() {
    let r = <i64 as StoreValue>::decode(&[1, 2, 3]);
    match r {
        Err(StoreError::SerDeError(_)) => {},
        _ => panic!("a truncated record must fail to decode"),
    }
    let r = <String as StoreValue>::decode(&[5, 0, 0, 0, 0, 0, 0, 0, 0x61]);
    match r {
        Err(StoreError::SerDeError(_)) => {},
        _ => panic!("a record shorter than its length prefix must fail to decode"),
    }
    // A length prefix pointing at bytes that are not UTF-8.
    let r = <String as StoreValue>::decode(&[2, 0, 0, 0, 0, 0, 0, 0, 0xff, 0xfe]);
    match r {
        Err(StoreError::SerDeError(_)) => {},
        _ => panic!("non-UTF-8 payload bytes must fail to decode"),
    }
}

// Key byte forms.

#[test]
fn long_key_roundtrip() {
    for v in [0i64, 1, -1, 256, i64::MAX, i64::MIN] {
        let k = Long(v);
        let bytes = k.to_bytes();
        assert_eq!(bytes.len(), 8);
        let back = <Long as StoreKey>::from_bytes(&bytes).unwrap();
        assert_eq!(back.0, v);
    }
}

#[test]
fn long_key_bytes_preserve_numeric_order() {
    // Sign-bit-flipped big endian: the byte form sorts as the value does.
    assert_eq!(Long(1).to_bytes(), vec![0x80, 0, 0, 0, 0, 0, 0, 1]);
    assert_eq!(Long(256).to_bytes(), vec![0x80, 0, 0, 0, 0, 0, 1, 0]);
    assert_eq!(Long(-1).to_bytes(), vec![0x7f, 0xff, 0xff, 0xff, 0xff, 0xff, 0xff, 0xff]);
    let samples = [i64::MIN, -300, -1, 0, 1, 77, i64::MAX];
    for w in samples.windows(2) {
        assert!(Long(w[0]).to_bytes() < Long(w[1]).to_bytes());
    }
}

#[test]
fn long_key_rejects_wrong_width() {
    assert!(<Long as StoreKey>::from_bytes(&[1, 2, 3]).is_none());
}

#[test]
fn string_key_roundtrip() {
    let k = str_key("hello");
    let bytes = k.to_bytes();
    assert_eq!(bytes, vec![0x68, 0x65, 0x6c, 0x6c, 0x6f]);
    let back = <StringW as StoreKey>::from_bytes(&bytes).unwrap();
    assert_eq!(back.0, "hello");
}

#[test]
fn string_key_rejects_invalid_utf8() {
    assert!(<StringW as StoreKey>::from_bytes(&[0xff, 0xfe]).is_none());
}

// Insert/get, absence, overwrite.

#[test]
fn insert_then_get() {
    let mut store: Store<StringW, i64> = Store::new("db").unwrap();
    store.insert(str_key("k"), 7).unwrap();
    assert_eq!(store.get(&str_key("k")).unwrap(), Some(7));
}

#[test]
fn get_on_fresh_store_is_none() {
    let store: Store<StringW, i64> = Store::tmp_store("fresh").unwrap();
    assert_eq!(store.get(&str_key("anything")).unwrap(), None);
    assert_eq!(store.get(&str_key("")).unwrap(), None);
}

#[test]
fn overwrite_keeps_one_value_per_key() {
    let mut store: Store<StringW, i64> = Store::new("db").unwrap();
    store.insert(str_key("k"), 1).unwrap();
    store.insert(str_key("k"), 2).unwrap();
    assert_eq!(store.get(&str_key("k")).unwrap(), Some(2));
    assert_eq!(store.iter_keys().len(), 1);
}

// The entry state machine.

#[test]
fn entry_vacant_or_insert() {
    let mut store: Store<StringW, i64> = Store::new("db").unwrap();
    let entry = store.entry(str_key("k")).unwrap();
    assert!(matches!(entry, Entry::Vacant(_)));
    entry.or_insert(&mut store, 5).unwrap();
    assert_eq!(store.get(&str_key("k")).unwrap(), Some(5));
}

#[test]
fn entry_occupied_or_insert_does_not_clobber() {
    let mut store: Store<StringW, i64> = Store::new("db").unwrap();
    store.insert(str_key("k"), 5).unwrap();
    let entry = store.entry(str_key("k")).unwrap();
    assert!(matches!(entry, Entry::Occupied(_)));
    entry.or_insert(&mut store, 99).unwrap();
    assert_eq!(store.get(&str_key("k")).unwrap(), Some(5));
}

#[test]
fn entry_or_insert_with_runs_only_when_vacant() {
    let mut store: Store<StringW, i64> = Store::new("db").unwrap();
    store.entry(str_key("k")).unwrap().or_insert_with(&mut store, || 3).unwrap();
    assert_eq!(store.get(&str_key("k")).unwrap(), Some(3));
    store.entry(str_key("k")).unwrap().or_insert_with(&mut store, || 100).unwrap();
    assert_eq!(store.get(&str_key("k")).unwrap(), Some(3));
}

#[test]
fn and_modify_applies_to_present_value() {
    let mut store: Store<StringW, i64> = Store::new("db").unwrap();
    store.insert(str_key("k"), 5).unwrap();
    let entry = store.entry(str_key("k")).unwrap();
    let entry = entry.and_modify(&mut store, |v| v + 10).unwrap();
    assert!(matches!(entry, Entry::Occupied(_)));
    entry.or_insert(&mut store, 0).unwrap();
    assert_eq!(store.get(&str_key("k")).unwrap(), Some(15));
}

#[test]
fn and_modify_on_vacant_is_a_no_op_then_or_insert_fills() {
    let mut store: Store<StringW, i64> = Store::new("db").unwrap();
    let entry = store.entry(str_key("k")).unwrap();
    let entry = entry.and_modify(&mut store, |_| panic!("must not run on a vacant entry")).unwrap();
    assert!(matches!(entry, Entry::Vacant(_)));
    entry.or_insert(&mut store, 8).unwrap();
    assert_eq!(store.get(&str_key("k")).unwrap(), Some(8));
}

// Iteration order and completeness.

#[test]
fn iter_keys_is_sorted_for_any_insertion_order() {
    let mut store: Store<StringW, i64> = Store::new("db").unwrap();
    for (k, v) in [("pear", 1i64), ("apple", 2), ("quince", 3), ("banana", 4)] {
        store.insert(str_key(k), v).unwrap();
    }
    let keys: Vec<String> = store.iter_keys().into_iter().map(|k| k.0).collect();
    assert_eq!(keys, vec!["apple", "banana", "pear", "quince"]);
}

#[test]
fn iter_keys_sorted_for_long_keys() {
    let mut store: Store<Long, String> = Store::new("db").unwrap();
    for v in [300i64, -5, 2, -77] {
        store.insert(Long(v), format!("v{}", v)).unwrap();
    }
    let keys: Vec<i64> = store.iter_keys().into_iter().map(|k| k.0).collect();
    assert_eq!(keys, vec![-77, -5, 2, 300]);
}

#[test]
fn iteration_is_complete_when_all_values_decode() {
    let mut store: Store<StringW, i64> = Store::new("db").unwrap();
    for (k, v) in [("a", 1i64), ("b", 2), ("c", 3)] {
        store.insert(str_key(k), v).unwrap();
    }
    assert_eq!(store.iter().len(), 3);
    assert_eq!(store.iter_values().len(), 3);
    assert_eq!(store.iter_keys().len(), 3);
    let pairs: Vec<(String, i64)> = store.iter().into_iter().map(|(k, v)| (k.0, v)).collect();
    assert_eq!(
        pairs,
        vec![
            (String::from("a"), 1),
            (String::from("b"), 2),
            (String::from("c"), 3),
        ]
    );
    let values: Vec<i64> = store.iter_values();
    assert_eq!(values, vec![1, 2, 3]);
}

// The full scenario: an ephemeral store of string keys and i64 values.

#[test]
fn ephemeral_store_scenario() {
    let mut store: Store<StringW, i64> = Store::tmp_store("scenario").unwrap();
    store.insert(str_key("a"), 1).unwrap();
    store.insert(str_key("b"), 2).unwrap();
    assert_eq!(store.get(&str_key("a")).unwrap(), Some(1));

    let entry = store.entry(str_key("a")).unwrap();
    let entry = entry.and_modify(&mut store, |v| v + 10).unwrap();
    entry.or_insert(&mut store, 0).unwrap();
    assert_eq!(store.get(&str_key("a")).unwrap(), Some(11));

    let entry = store.entry(str_key("c")).unwrap();
    entry.or_insert(&mut store, 99).unwrap();
    assert_eq!(store.get(&str_key("c")).unwrap(), Some(99));

    let keys: Vec<String> = store.iter_keys().into_iter().map(|k| k.0).collect();
    assert_eq!(keys, vec!["a", "b", "c"]);
}

// A temporary directory that cannot be created surfaces the filesystem
// error variant: the prefix names a directory whose parent does not exist.

#[test]
fn tmp_store_failure_is_filesystem_error() {
    let r: Result<Store<StringW, i64>, StoreError> =
        Store::tmp_store("no_such_parent_dir/child");
    match r {
        Err(StoreError::FileSystemError(_)) => {},
        Err(_) => panic!("a directory failure must be reported as a filesystem error"),
        Ok(_) => panic!("a prefix naming a missing directory must fail"),
    }
}
