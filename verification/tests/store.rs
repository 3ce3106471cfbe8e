use std::collections::HashMap;

use kvs::error::KvError;
use kvs::kv_store::KvStore;

fn fresh_store() -> KvStore {
    KvStore::open(Vec::new()).expect("empty log replays cleanly")
}

#[test]
fn read_after_write() {
    let mut store = fresh_store();
    store.set("k".to_string(), "v".to_string());
    let (value, _) = store.get("k".to_string());
    assert_eq!(value, Some("v".to_string()));
}

#[test]
fn overwrite_keeps_last_value() {
    let mut store = fresh_store();
    store.set("k".to_string(), "v1".to_string());
    store.set("k".to_string(), "v2".to_string());
    let (value, _) = store.get("k".to_string());
    assert_eq!(value, Some("v2".to_string()));
}

#[test]
fn delete_then_read() {
    let mut store = fresh_store();
    store.set("k".to_string(), "v".to_string());
    store.remove("k".to_string()).expect("key is present");
    let (value, _) = store.get("k".to_string());
    assert_eq!(value, None);
}

#[test]
fn remove_absent_fails() {
    let mut store = fresh_store();
    let before = store.log_pointer();
    assert!(matches!(store.remove("never".to_string()), Err(KvError::KeyNotFound)));
    assert_eq!(store.log_pointer(), before);

    store.set("once".to_string(), "v".to_string());
    store.remove("once".to_string()).expect("key is present");
    let before = store.log_pointer();
    assert!(matches!(store.remove("once".to_string()), Err(KvError::KeyNotFound)));
    assert_eq!(store.log_pointer(), before);
}

#[test]
fn empty_key_and_value() {
    let mut store = fresh_store();
    store.set(String::new(), String::new());
    let (value, _) = store.get(String::new());
    assert_eq!(value, Some(String::new()));
}

#[test]
fn get_appends_audit_record_only() {
    let mut store = fresh_store();
    store.set("k".to_string(), "v".to_string());
    let (_, before_entries) = store.log_pointer();
    let (value, _) = store.get("k".to_string());
    assert_eq!(value, Some("v".to_string()));
    let (_, after_entries) = store.log_pointer();
    assert_eq!(after_entries, before_entries + 1);
    let (value, _) = store.get("k".to_string());
    assert_eq!(value, Some("v".to_string()));
}

#[test]
fn end_to_end_reopen() {
    let mut file: Vec<u8> = Vec::new();
    let mut store = fresh_store();
    file.extend(store.set("a".to_string(), "1".to_string()));
    file.extend(store.set("b".to_string(), "2".to_string()));
    file.extend(store.remove("a".to_string()).expect("key is present"));

    let mut reopened = KvStore::open(file).expect("log replays cleanly");
    let (a, _) = reopened.get("a".to_string());
    assert_eq!(a, None);
    let (b, _) = reopened.get("b".to_string());
    assert_eq!(b, Some("2".to_string()));
}

#[test]
fn reopen_with_no_writes_is_identical() {
    let mut file: Vec<u8> = Vec::new();
    let mut store = fresh_store();
    for i in 0..5u32 {
        file.extend(store.set(format!("k{}", i), format!("v{}", i)));
    }
    file.extend(store.remove("k2".to_string()).expect("key is present"));

    let mut first = KvStore::open(file.clone()).expect("log replays cleanly");
    let mut second = KvStore::open(file).expect("log replays cleanly");
    for i in 0..5u32 {
        let (a, _) = first.get(format!("k{}", i));
        let (b, _) = second.get(format!("k{}", i));
        assert_eq!(a, b);
    }
}

#[test]
fn open_reports_corrupt_log() {
    let mut store = fresh_store();
    let mut file = store.set("a".to_string(), "1".to_string());
    file.pop();
    assert!(matches!(KvStore::open(file), Err(KvError::DecodeError)));
}

#[test]
fn growth_scenario() {
    let mut file: Vec<u8> = Vec::new();
    let mut store = fresh_store();
    let mut reference: HashMap<String, String> = HashMap::new();
    let mut state: u64 = 0x243F_6A88_85A3_08D3;

    for i in 0..1000u32 {
        state = state.wrapping_mul(6364136223846793005).wrapping_add(1442695040888963407);
        let op = (state >> 33) % 3;
        let key = format!("k{}", (state >> 13) % 10);
        match op {
            0 => {
                let value = format!("v{}", i);
                file.extend(store.set(key.clone(), value.clone()));
                reference.insert(key, value);
            },
            1 => {
                let (value, record) = store.get(key.clone());
                file.extend(record);
                assert_eq!(value, reference.get(&key).cloned());
            },
            _ => match store.remove(key.clone()) {
                Ok(record) => {
                    file.extend(record);
                    assert!(reference.remove(&key).is_some());
                },
                Err(KvError::KeyNotFound) => {
                    assert!(!reference.contains_key(&key));
                },
                Err(e) => panic!("unexpected error {:?}", e),
            },
        }
    }

    let mut reopened = KvStore::open(file).expect("log replays cleanly");
    for k in 0..10u32 {
        let key = format!("k{}", k);
        let (value, _) = reopened.get(key.clone());
        assert_eq!(value, reference.get(&key).cloned());
    }
}
