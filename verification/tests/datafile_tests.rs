use std::collections::HashMap;

use rand::distributions::Alphanumeric;
use rand::Rng;

use kvs::datafile::DataFile;
use kvs::datafile::DataFileIterator;

fn rand_string(size: usize) -> String {
    let s = rand::thread_rng()
        .sample_iter(&Alphanumeric)
        .take(size)
        .map(char::from)
        .collect();
    return s;
}

fn rand_key() -> String {
    let rand_ksz = rand::thread_rng().gen_range(10..20) as usize;
    return rand_string(rand_ksz);
}

fn rand_value() -> String {
    let rand_ksz = rand::thread_rng().gen_range(10..200) as usize;
    return rand_string(rand_ksz);
}

#[test]
// Test for creating a new data file
fn test_data_file_new() {
    let df = DataFile::open(Vec::new());
    assert_eq!(df.size(), 0);
}

#[test]
fn test_data_write() {
    let mut df = DataFile::open(Vec::new());
    let value_offset = df.write("key".as_bytes().to_vec(), "value".as_bytes().to_vec());
    assert_eq!(value_offset.is_err(), false);
    assert_eq!(value_offset.unwrap(), 19);
}

#[test]
fn test_bulk_write() {
    let mut df = DataFile::open(Vec::new());
    for _ in 1..=1000 {
        let key = rand_key();
        let value = rand_value();
        let res = df.write(key.as_bytes().to_vec(), value.as_bytes().to_vec());
        assert_eq!(res.is_ok(), true);
    }
}

#[test]
fn test_data_read() {
    let mut df = DataFile::open(Vec::new());
    let key = rand_key();
    let value = rand_value();
    let value_sz = value.len() as u64;
    let res = df.write(key.as_bytes().to_vec(), value.as_bytes().to_vec());
    assert_eq!(res.is_ok(), true);
    // Capture value
    let value_offset = res.unwrap();
    // Test for read
    let res = df.read(value_offset, value_sz);
    assert_eq!(res.is_ok(), true);
    let buf = res.unwrap();
    assert_eq!(value.as_bytes().to_vec(), buf);
}

#[test]
fn test_bulk_read() {
    let mut key_value_map: HashMap<String, (u64, String)> = HashMap::new();
    let mut df = DataFile::open(Vec::new());
    for _ in 1..=1000 {
        let key = rand_key();
        let value = rand_value();
        let res = df.write(key.as_bytes().to_vec(), value.as_bytes().to_vec());
        assert_eq!(res.is_ok(), true);
        key_value_map.insert(key, (res.unwrap(), value));
    }
    for (_key, (offset, value)) in key_value_map.iter() {
        let value_bytes = value.as_bytes().to_vec();
        let res = df.read(offset.clone(), value_bytes.len() as u64);
        assert_eq!(res.is_ok(), true);
        let buf = res.unwrap();
        assert_eq!(buf, value_bytes);
    }
}

#[test]
fn test_datafile_iterator() {
    let mut datafile = DataFile::open(Vec::new());
    let keys = vec!["k1", "k2", "k3"];
    let values = vec!["v1", "v2", "v3"];
    for i in 0..3 {
        let key = keys[i].as_bytes().to_vec();
        let value = values[i].as_bytes().to_vec();
        assert_eq!(datafile.write(key, value).is_ok(), true);
    }
    let datafile_bytes = datafile.bytes().clone();
    drop(datafile);
    let reopened = DataFile::open(datafile_bytes);
    let mut datafile_itr = DataFileIterator::new(&reopened);
    let mut count = 0;
    while let Some(r) = datafile_itr.next() {
        assert_eq!(r.key, keys[count].as_bytes().to_vec());
        assert_eq!(r.value, values[count].as_bytes().to_vec());
        count += 1
    }
    assert_eq!(count, 3);
}
