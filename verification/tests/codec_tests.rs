use kvs::datafile::DataFile;
use kvs::datafile::DataFileIterator;
use kvs::error::DataFileError;
use kvs::log_entry::LogEntry;

#[test]
fn encode_layout_is_fixed_width() {
    let entry = LogEntry {
        key: "key".as_bytes().to_vec(),
        value: "value".as_bytes().to_vec(),
    };
    let bytes = entry.encode();
    assert_eq!(bytes.len(), 16 + 3 + 5);
    // key length, little endian, eight bytes
    assert_eq!(&bytes[0..8], &[3, 0, 0, 0, 0, 0, 0, 0]);
    assert_eq!(&bytes[8..11], "key".as_bytes());
    // value length, little endian, eight bytes
    assert_eq!(&bytes[11..19], &[5, 0, 0, 0, 0, 0, 0, 0]);
    assert_eq!(&bytes[19..24], "value".as_bytes());
}

#[test]
fn encode_matches_bincode_fixed_int() {
    let key = "key".as_bytes().to_vec();
    let value = "value".as_bytes().to_vec();
    let entry = LogEntry { key: key.clone(), value: value.clone() };
    let ours = entry.encode();
    let theirs = bincode::encode_to_vec(
        (key, value),
        bincode::config::standard().with_fixed_int_encoding(),
    )
    .unwrap();
    assert_eq!(ours, theirs);
}

#[test]
fn decode_round_trip() {
    let entry = LogEntry {
        key: "alpha".as_bytes().to_vec(),
        value: "beta".as_bytes().to_vec(),
    };
    let bytes = entry.encode();
    let decoded = LogEntry::decode(&bytes, 0).unwrap();
    assert_eq!(decoded.key, entry.key);
    assert_eq!(decoded.value, entry.value);
}

#[test]
fn decode_round_trip_tombstone() {
    let entry = LogEntry { key: "alpha".as_bytes().to_vec(), value: Vec::new() };
    let bytes = entry.encode();
    let decoded = LogEntry::decode(&bytes, 0).unwrap();
    assert_eq!(decoded.key, entry.key);
    assert_eq!(decoded.value, entry.value);
    assert_eq!(decoded.value_size(), 0);
}

#[test]
fn decode_short_header_is_malformed() {
    let bytes = vec![1, 2, 3];
    let res = LogEntry::decode(&bytes, 0);
    assert_eq!(res.unwrap_err(), DataFileError::ErrMalformedRecord);
}

#[test]
fn decode_truncated_payload_is_malformed() {
    let entry = LogEntry {
        key: "key".as_bytes().to_vec(),
        value: "value".as_bytes().to_vec(),
    };
    let mut bytes = entry.encode();
    bytes.truncate(bytes.len() - 1);
    let res = LogEntry::decode(&bytes, 0);
    assert_eq!(res.unwrap_err(), DataFileError::ErrMalformedRecord);
}

#[test]
fn entry_sizes() {
    let entry = LogEntry {
        key: "key".as_bytes().to_vec(),
        value: "value".as_bytes().to_vec(),
    };
    assert_eq!(entry.key_size(), 3);
    assert_eq!(entry.value_size(), 5);
    assert_eq!(entry.size(), 24);
}

#[test]
fn read_past_end_is_incomplete() {
    let mut df = DataFile::open(Vec::new());
    df.write("key".as_bytes().to_vec(), "value".as_bytes().to_vec()).unwrap();
    let res = df.read(1000, 10);
    assert_eq!(res.unwrap_err(), DataFileError::ErrIncompleteRead);
}

#[test]
fn replay_reports_offsets() {
    let mut df = DataFile::open(Vec::new());
    let off = df.write("key".as_bytes().to_vec(), "value".as_bytes().to_vec()).unwrap();
    assert_eq!(off, 19);
    let mut itr = DataFileIterator::new(&df);
    let first = itr.next().unwrap();
    assert_eq!(first.key_offset, 8);
    assert_eq!(first.value_offset, 19);
    assert!(itr.next().is_none());
}

#[test]
fn open_drops_partial_tail() {
    let entry = LogEntry {
        key: "key".as_bytes().to_vec(),
        value: "value".as_bytes().to_vec(),
    };
    let mut bytes = entry.encode();
    let full = bytes.len() as u64;
    // a partially written record at the tail
    bytes.push(9);
    bytes.push(9);
    bytes.push(9);
    let df = DataFile::open(bytes);
    assert_eq!(df.size(), full);
    let entries = df.read_all();
    assert_eq!(entries.len(), 1);
    assert_eq!(entries[0].key, "key".as_bytes().to_vec());
}

#[test]
fn error_messages() {
    assert_eq!(DataFileError::ErrIncompleteRead.message(), "Incomplete read");
    assert_eq!(DataFileError::ErrIncompleteWrite.message(), "Incomplete write");
    assert_eq!(DataFileError::ErrMalformedRecord.message(), "Malformed record");
    assert_eq!(
        DataFileError::ErrNotADirectory.message(),
        "Invalid path. Require a path to directory"
    );
    assert_eq!(kvs::error::KvError::KeyNotFound.message(), "Key not found");
    assert_eq!(kvs::error::KvError::EmptyValue.message(), "Value cannot be empty");
}
