use std::collections::BTreeMap;

use lsm_tree_kv::{Error, SSTable, SSTableBuilder, Value};

/// The files of the tests, by path.
struct Files {
    held: BTreeMap<String, Vec<u8>>,
}

impl Files {
    fn new() -> Files {
        Files { held: BTreeMap::new() }
    }

    fn write(&mut self, path: &str, image: Vec<u8>) {
        self.held.insert(path.to_string(), image);
    }

    fn read(&self, path: &str) -> Vec<u8> {
        self.held[path].clone()
    }

    fn remove(&mut self, path: &str) -> Option<Vec<u8>> {
        self.held.remove(path)
    }
}

#[test]
fn test_write_read_single_entry() {
    let path = "single_entry.sst";
    let mut files = Files::new();
    let _ = files.remove(path);

    // Write
    {
        let mut builder = SSTableBuilder::new();
        builder.add(b"key1", &Value::Stored(b"value1".to_vec()));
        files.write(path, builder.finish());
    }

    // Read
    {
        let sst = SSTable::open(files.read(path)).unwrap();
        let value = sst.get(b"key1").unwrap();
        assert_eq!(value, Some(Value::Stored(b"value1".to_vec())));
        assert_eq!(sst.num_entries(), 1);
    }

    files.remove(path).unwrap();
}

#[test]
fn test_write_read_multiple_entries() {
    let path = "multiple_entries.sst";
    let mut files = Files::new();
    let _ = files.remove(path);

    // Write
    {
        let mut builder = SSTableBuilder::new();
        for i in 0..100 {
            let key = format!("key{:03}", i);
            let value = format!("value{:03}", i);
            builder.add(key.as_bytes(), &Value::Stored(value.as_bytes().to_vec()));
        }
        files.write(path, builder.finish());
    }

    // Read
    {
        let sst = SSTable::open(files.read(path)).unwrap();
        assert_eq!(sst.num_entries(), 100);

        for i in 0..100 {
            let key = format!("key{:03}", i);
            let expected_value = format!("value{:03}", i);
            let value = sst.get(key.as_bytes()).unwrap();
            assert_eq!(value, Some(Value::Stored(expected_value.as_bytes().to_vec())));
        }
    }

    files.remove(path).unwrap();
}

#[test]
fn test_read_nonexistent_key() {
    let path = "nonexistent.sst";
    let mut files = Files::new();
    let _ = files.remove(path);

    // Write
    {
        let mut builder = SSTableBuilder::new();
        builder.add(b"key1", &Value::Stored(b"value1".to_vec()));
        files.write(path, builder.finish());
    }

    // Read
    {
        let sst = SSTable::open(files.read(path)).unwrap();
        let value = sst.get(b"nonexistent").unwrap();
        assert_eq!(value, None);
    }

    files.remove(path).unwrap();
}

#[test]
fn test_tombstone_persistence() {
    let path = "tombstone.sst";
    let mut files = Files::new();
    let _ = files.remove(path);

    // Write
    {
        let mut builder = SSTableBuilder::new();
        builder.add(b"key1", &Value::Tombstone);
        builder.add(b"key2", &Value::Stored(b"value2".to_vec()));
        files.write(path, builder.finish());
    }

    // Read
    {
        let sst = SSTable::open(files.read(path)).unwrap();
        let value1 = sst.get(b"key1").unwrap();
        assert_eq!(value1, Some(Value::Tombstone));

        let value2 = sst.get(b"key2").unwrap();
        assert_eq!(value2, Some(Value::Stored(b"value2".to_vec())));
    }

    files.remove(path).unwrap();
}

#[test]
fn test_reopen_sstable() {
    let path = "reopen.sst";
    let mut files = Files::new();
    let _ = files.remove(path);

    // Write
    {
        let mut builder = SSTableBuilder::new();
        builder.add(b"key1", &Value::Stored(b"value1".to_vec()));
        builder.add(b"key2", &Value::Stored(b"value2".to_vec()));
        files.write(path, builder.finish());
    }

    // Read, close, and reopen
    {
        let sst = SSTable::open(files.read(path)).unwrap();
        let value = sst.get(b"key1").unwrap();
        assert_eq!(value, Some(Value::Stored(b"value1".to_vec())));
    } // sst is dropped here

    // Reopen
    {
        let sst = SSTable::open(files.read(path)).unwrap();
        let value = sst.get(b"key2").unwrap();
        assert_eq!(value, Some(Value::Stored(b"value2".to_vec())));
    }

    files.remove(path).unwrap();
}

#[test]
fn test_corrupted_magic_number() {
    let path = "corrupted.sst";
    let mut files = Files::new();
    let _ = files.remove(path);

    // Write valid SSTable
    {
        let mut builder = SSTableBuilder::new();
        builder.add(b"key1", &Value::Stored(b"value1".to_vec()));
        files.write(path, builder.finish());
    }

    // Corrupt the magic number
    {
        let mut image = files.read(path);
        let at = image.len() - 16;
        image[at..at + 8].copy_from_slice(&0u64.to_le_bytes()); // corrupt magic
        files.write(path, image);
    }

    // Try to open
    let result = SSTable::open(files.read(path));
    assert!(result.is_err());
    match result {
        Err(Error::Corruption(_)) => {}
        _ => panic!("Expected corruption error"),
    }

    files.remove(path).unwrap();
}

#[test]
fn test_empty_sstable() {
    let path = "empty.sst";
    let mut files = Files::new();
    let _ = files.remove(path);

    // Write empty SSTable
    {
        let builder = SSTableBuilder::new();
        files.write(path, builder.finish());
    }

    // Read
    {
        let sst = SSTable::open(files.read(path)).unwrap();
        assert_eq!(sst.num_entries(), 0);
    }

    files.remove(path).unwrap();
}

#[test]
fn test_image_layout_is_exact() {
    let mut builder = SSTableBuilder::new();
    builder.add(b"a", &Value::Stored(b"xy".to_vec()));
    builder.add(b"bc", &Value::Tombstone);
    let image = builder.finish();

    let mut expected: Vec<u8> = Vec::new();
    // record of "a": key length, key, payload length, payload, flag
    expected.extend_from_slice(&[1, 0, 0, 0, b'a', 2, 0, 0, 0, b'x', b'y', 0]);
    // record of "bc": a deletion marker has no payload and flag 1
    expected.extend_from_slice(&[2, 0, 0, 0, b'b', b'c', 0, 0, 0, 0, 1]);
    // index: key length, key, offset of the record
    expected.extend_from_slice(&[1, 0, 0, 0, b'a', 0, 0, 0, 0, 0, 0, 0, 0]);
    expected.extend_from_slice(&[2, 0, 0, 0, b'b', b'c', 12, 0, 0, 0, 0, 0, 0, 0]);
    // footer: index offset 23, index length 27, two entries, magic, reserved
    expected.extend_from_slice(&[23, 0, 0, 0, 0, 0, 0, 0]);
    expected.extend_from_slice(&[27, 0, 0, 0]);
    expected.extend_from_slice(&[2, 0, 0, 0]);
    expected.extend_from_slice(b"1LEBATSS");
    expected.extend_from_slice(&[0; 8]);

    assert_eq!(image, expected);
    assert_eq!(image.len(), 23 + 27 + 32);
}

#[test]
fn test_open_rejects_short_file() {
    match SSTable::open(vec![0u8; 31]) {
        Err(Error::Corruption(_)) => {}
        _ => panic!("Expected corruption error"),
    }
    match SSTable::open(Vec::new()) {
        Err(Error::Corruption(_)) => {}
        _ => panic!("Expected corruption error"),
    }
}

#[test]
fn test_open_rejects_index_outside_file() {
    let builder = SSTableBuilder::new();
    let mut image = builder.finish();
    // index offset 1000 in a file of 32 bytes
    image[0..8].copy_from_slice(&1000u64.to_le_bytes());
    match SSTable::open(image) {
        Err(Error::Corruption(_)) => {}
        _ => panic!("Expected corruption error"),
    }
}

#[test]
fn test_open_rejects_index_cut_short() {
    let mut builder = SSTableBuilder::new();
    builder.add(b"key1", &Value::Stored(b"value1".to_vec()));
    let mut image = builder.finish();
    // the index is 16 bytes long; the footer now claims 15
    let at = image.len() - 24;
    image[at..at + 4].copy_from_slice(&15u32.to_le_bytes());
    match SSTable::open(image) {
        Err(Error::Corruption(_)) => {}
        _ => panic!("Expected corruption error"),
    }
}

#[test]
fn test_get_detects_key_mismatch() {
    let mut builder = SSTableBuilder::new();
    builder.add(b"key1", &Value::Stored(b"value1".to_vec()));
    let mut image = builder.finish();
    // the record now carries "kex1" while the index still says "key1"
    image[6] = b'x';
    let sst = SSTable::open(image).unwrap();
    match sst.get(b"key1") {
        Err(Error::Corruption(_)) => {}
        _ => panic!("Expected corruption error"),
    }
}

#[test]
fn test_get_detects_record_outside_file() {
    let mut builder = SSTableBuilder::new();
    builder.add(b"key1", &Value::Stored(b"value1".to_vec()));
    let mut image = builder.finish();
    // the index entry starts at 19: key length, key, then the offset
    image[19 + 8..19 + 16].copy_from_slice(&5000u64.to_le_bytes());
    let sst = SSTable::open(image).unwrap();
    match sst.get(b"key1") {
        Err(Error::Corruption(_)) => {}
        _ => panic!("Expected corruption error"),
    }
}

#[test]
fn test_later_index_entry_wins() {
    // two records under one key, written against the builder's rule
    let mut builder = SSTableBuilder::new();
    builder.add(b"k", &Value::Stored(b"old".to_vec()));
    builder.add(b"k", &Value::Stored(b"new".to_vec()));
    let image = builder.finish();
    let sst = SSTable::open(image).unwrap();
    assert_eq!(sst.get(b"k").unwrap(), Some(Value::Stored(b"new".to_vec())));
    assert_eq!(sst.num_entries(), 2);
}

#[test]
fn test_empty_payload_is_not_a_tombstone() {
    let mut builder = SSTableBuilder::new();
    builder.add(b"k", &Value::Stored(Vec::new()));
    let image = builder.finish();
    let sst = SSTable::open(image).unwrap();
    assert_eq!(sst.get(b"k").unwrap(), Some(Value::Stored(Vec::new())));
}
