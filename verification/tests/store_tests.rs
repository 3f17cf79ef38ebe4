use kvs::datafile::DataFile;
use kvs::error::DataFileError;
use kvs::error::KvError;
use kvs::kv::KvStore;
use kvs::log_entry::LogEntry;

fn record_count(log: &[u8]) -> usize {
    DataFile::open(log.to_vec()).read_all().len()
}

#[test]
fn scenario_set_then_get() {
    let mut store = KvStore::open(Vec::new());
    store.set("a".to_string(), "1".to_string()).unwrap();
    assert_eq!(store.get("a".to_string()).unwrap(), Some("1".to_string()));
}

#[test]
fn scenario_overwrite() {
    let mut store = KvStore::open(Vec::new());
    store.set("a".to_string(), "1".to_string()).unwrap();
    store.set("a".to_string(), "2".to_string()).unwrap();
    assert_eq!(store.get("a".to_string()).unwrap(), Some("2".to_string()));
    // two live-looking records before compaction, one after
    assert_eq!(record_count(store.log_bytes()), 2);
    let mut df = DataFile::open(store.log_bytes().clone());
    df.compact().unwrap();
    assert_eq!(record_count(df.bytes()), 1);
    let reopened = KvStore::open(df.bytes().clone());
    assert_eq!(reopened.get("a".to_string()).unwrap(), Some("2".to_string()));
}

#[test]
fn scenario_remove_missing() {
    let mut store = KvStore::open(Vec::new());
    let res = store.remove("missing".to_string());
    assert_eq!(res.unwrap_err(), KvError::KeyNotFound);
}

#[test]
fn scenario_empty_value() {
    let mut store = KvStore::open(Vec::new());
    let res = store.set("a".to_string(), "".to_string());
    assert_eq!(res.unwrap_err(), KvError::EmptyValue);
    assert_eq!(store.get("a".to_string()).unwrap(), None);
}

#[test]
fn scenario_remove_then_reopen() {
    let mut store = KvStore::open(Vec::new());
    store.set("a".to_string(), "1".to_string()).unwrap();
    store.remove("a".to_string()).unwrap();
    let log = store.log_bytes().clone();
    drop(store);
    let reopened = KvStore::open(log);
    assert_eq!(reopened.get("a".to_string()).unwrap(), None);
}

#[test]
fn replay_equivalence() {
    let mut store = KvStore::open(Vec::new());
    store.set("a".to_string(), "1".to_string()).unwrap();
    store.set("b".to_string(), "2".to_string()).unwrap();
    store.set("a".to_string(), "3".to_string()).unwrap();
    store.remove("b".to_string()).unwrap();
    store.set("c".to_string(), "4".to_string()).unwrap();
    let reopened = KvStore::open(store.log_bytes().clone());
    for key in ["a", "b", "c", "d"] {
        assert_eq!(
            store.get(key.to_string()).unwrap(),
            reopened.get(key.to_string()).unwrap()
        );
    }
    assert_eq!(reopened.get("a".to_string()).unwrap(), Some("3".to_string()));
    assert_eq!(reopened.get("b".to_string()).unwrap(), None);
    assert_eq!(reopened.get("c".to_string()).unwrap(), Some("4".to_string()));
}

#[test]
fn tombstone_semantics() {
    let mut store = KvStore::open(Vec::new());
    store.set("k".to_string(), "v".to_string()).unwrap();
    store.remove("k".to_string()).unwrap();
    assert_eq!(store.get("k".to_string()).unwrap(), None);
    // a replay never resurrects the key
    let reopened = KvStore::open(store.log_bytes().clone());
    assert_eq!(reopened.get("k".to_string()).unwrap(), None);
    // unless it is set again afterwards
    store.set("k".to_string(), "w".to_string()).unwrap();
    let reopened = KvStore::open(store.log_bytes().clone());
    assert_eq!(reopened.get("k".to_string()).unwrap(), Some("w".to_string()));
}

#[test]
fn compaction_preserves_latest_value_wins() {
    let mut df = DataFile::open(Vec::new());
    df.write("a".as_bytes().to_vec(), "1".as_bytes().to_vec()).unwrap();
    df.write("b".as_bytes().to_vec(), "2".as_bytes().to_vec()).unwrap();
    df.write("a".as_bytes().to_vec(), "3".as_bytes().to_vec()).unwrap();
    df.write("b".as_bytes().to_vec(), Vec::new()).unwrap(); // tombstone
    df.write("c".as_bytes().to_vec(), "5".as_bytes().to_vec()).unwrap();
    let before = KvStore::open(df.bytes().clone());
    df.compact().unwrap();
    let after = KvStore::open(df.bytes().clone());
    for key in ["a", "b", "c"] {
        assert_eq!(
            before.get(key.to_string()).unwrap(),
            after.get(key.to_string()).unwrap()
        );
    }
    // at most one record per live key and zero tombstones
    let entries = df.read_all();
    assert_eq!(entries.len(), 2);
    for e in &entries {
        assert!(e.value_size() > 0);
    }
}

#[test]
fn compaction_shrinks_size() {
    let mut df = DataFile::open(Vec::new());
    df.write("a".as_bytes().to_vec(), "1".as_bytes().to_vec()).unwrap();
    df.write("a".as_bytes().to_vec(), "22".as_bytes().to_vec()).unwrap();
    df.write("b".as_bytes().to_vec(), "3".as_bytes().to_vec()).unwrap();
    df.write("b".as_bytes().to_vec(), Vec::new()).unwrap(); // tombstone
    let before = df.size();
    df.compact().unwrap();
    assert!(df.size() <= before);
    assert_eq!(record_count(df.bytes()), 1);
}

#[test]
fn compaction_trigger_keeps_store_intact() {
    let mut store = KvStore::open(Vec::new());
    let big = "x".repeat(6000);
    store.set("k1".to_string(), big.clone()).unwrap();
    store.set("k1".to_string(), big.clone()).unwrap();
    let before_len = store.log_bytes().len();
    assert!(before_len > 10 * 1024);
    // this set finds the log over the threshold and compacts first
    store.set("k2".to_string(), "v".to_string()).unwrap();
    assert!(store.log_bytes().len() < before_len);
    assert_eq!(store.get("k1".to_string()).unwrap(), Some(big));
    assert_eq!(store.get("k2".to_string()).unwrap(), Some("v".to_string()));
}

#[test]
fn get_malformed_value_bytes() {
    // a live record whose value is not valid text
    let entry = LogEntry {
        key: "k".as_bytes().to_vec(),
        value: vec![0xff, 0xfe],
    };
    let store = KvStore::open(entry.encode());
    let res = store.get("k".to_string());
    assert_eq!(res.unwrap_err(), DataFileError::ErrMalformedRecord);
}

#[test]
fn offset_correctness_through_store_log() {
    let mut df = DataFile::open(Vec::new());
    let off = df.write("key".as_bytes().to_vec(), "value".as_bytes().to_vec()).unwrap();
    assert_eq!(df.read(off, 5).unwrap(), "value".as_bytes().to_vec());
}
