use lsm_tree_kv::{LSMTree, TableFile, MEMTABLE_SIZE_THRESHOLD};

/// A directory as the tests keep it: its name and the files stored so far.
struct Dir {
    name: String,
    files: Vec<(Vec<u8>, Vec<u8>)>,
}

/// An empty directory of the given name.
fn temp_dir(name: &str) -> Dir {
    Dir { name: name.to_string(), files: Vec::new() }
}

impl Dir {
    fn is_present(&self) -> bool {
        !self.name.is_empty()
    }

    fn listing(&self) -> Vec<TableFile> {
        self.files
            .iter()
            .map(|(name, image)| TableFile { name: name.clone(), image: image.clone() })
            .collect()
    }

    fn open(&self) -> LSMTree {
        LSMTree::open(self.listing()).unwrap()
    }

    /// Stores what a write has flushed and hands the stored bytes back.
    fn store(&mut self, tree: &mut LSMTree, flush: Option<TableFile>) {
        if let Some(file) = flush {
            self.files.push((file.name, file.image.clone()));
            tree.install_table(file.image).unwrap();
        }
    }

    fn put(&mut self, tree: &mut LSMTree, key: &[u8], value: Vec<u8>) {
        let flush = tree.put(key.to_vec(), value);
        self.store(tree, flush);
    }

    fn delete(&mut self, tree: &mut LSMTree, key: &[u8]) {
        let flush = tree.delete(key.to_vec());
        self.store(tree, flush);
    }
}

#[test]
fn test_open_creates_dir() {
    let path = temp_dir("open_creates_dir");
    let tree = LSMTree::open(path.listing()).unwrap();
    assert!(path.is_present());
    assert_eq!(tree.num_sstables(), 0);
    assert!(tree.memtable().is_empty());
}

#[test]
fn test_put_and_get_memtable_only() {
    let mut dir = temp_dir("put_get_memtable");
    let mut tree = dir.open();

    dir.put(&mut tree, b"key1", b"value1".to_vec());
    let val = tree.get(b"key1").unwrap();
    assert_eq!(val, Some(b"value1".to_vec()));
}

#[test]
fn test_memtable_flush() {
    let mut dir = temp_dir("memtable_flush");
    let mut tree = dir.open();

    dir.put(&mut tree, b"key1", b"value1".to_vec());
    assert_eq!(tree.num_sstables(), 0);
    assert_eq!(dir.files.len(), 0);

    let big_value = vec![0u8; MEMTABLE_SIZE_THRESHOLD];
    dir.put(&mut tree, b"key2", big_value);

    assert_eq!(tree.num_sstables(), 1);
    assert!(tree.memtable().is_empty());

    let sst_files: Vec<_> = dir
        .files
        .iter()
        .filter(|(name, _)| name.ends_with(b".sst"))
        .collect();
    assert_eq!(sst_files.len(), 1);
}

#[test]
fn test_get_after_flush() {
    let mut dir = temp_dir("get_after_flush");
    let mut tree = dir.open();

    dir.put(&mut tree, b"key1", b"value1".to_vec());
    dir.put(&mut tree, b"key2", vec![0u8; MEMTABLE_SIZE_THRESHOLD]);

    assert!(tree.memtable().is_empty());
    let val = tree.get(b"key1").unwrap();
    assert_eq!(val, Some(b"value1".to_vec()));
}

#[test]
fn test_multiple_flushes() {
    let mut dir = temp_dir("multiple_flushes");
    let mut tree = dir.open();

    dir.put(&mut tree, b"key1", vec![0u8; MEMTABLE_SIZE_THRESHOLD]);
    assert_eq!(tree.num_sstables(), 1);

    dir.put(&mut tree, b"key2", vec![0u8; MEMTABLE_SIZE_THRESHOLD]);
    assert_eq!(tree.num_sstables(), 2);

    let val1 = tree.get(b"key1").unwrap();
    assert_eq!(val1, Some(vec![0u8; MEMTABLE_SIZE_THRESHOLD]));
    let val2 = tree.get(b"key2").unwrap();
    assert_eq!(val2, Some(vec![0u8; MEMTABLE_SIZE_THRESHOLD]));
}

#[test]
fn test_read_priority_memtable_over_sstable() {
    let mut dir = temp_dir("read_priority");
    let mut tree = dir.open();

    dir.put(&mut tree, b"key1", b"old_value".to_vec());
    dir.put(&mut tree, b"filler", vec![0u8; MEMTABLE_SIZE_THRESHOLD]);
    assert_eq!(tree.num_sstables(), 1);

    dir.put(&mut tree, b"key1", b"new_value".to_vec());

    let val = tree.get(b"key1").unwrap();
    assert_eq!(val, Some(b"new_value".to_vec()));
}

#[test]
fn test_tombstone_in_memtable_masks_sstable() {
    let mut dir = temp_dir("tombstone_mask");
    let mut tree = dir.open();

    dir.put(&mut tree, b"key1", b"value1".to_vec());
    dir.put(&mut tree, b"filler", vec![0u8; MEMTABLE_SIZE_THRESHOLD]);
    assert_eq!(tree.num_sstables(), 1);

    dir.delete(&mut tree, b"key1");

    let val = tree.get(b"key1").unwrap();
    assert_eq!(val, None);
}

#[test]
fn test_restart_recovers_sstables() {
    let mut dir = temp_dir("restart_recovery");

    {
        let mut tree = dir.open();
        dir.put(&mut tree, b"key1", b"value1".to_vec());
        dir.put(&mut tree, b"key2", b"value2".to_vec());
        dir.put(&mut tree, b"filler", vec![0u8; MEMTABLE_SIZE_THRESHOLD]);
        assert_eq!(tree.num_sstables(), 1);
    }

    {
        let tree = dir.open();
        assert_eq!(tree.num_sstables(), 1);
        assert!(tree.memtable().is_empty());

        let val1 = tree.get(b"key1").unwrap();
        assert_eq!(val1, Some(b"value1".to_vec()));
        let val2 = tree.get(b"key2").unwrap();
        assert_eq!(val2, Some(b"value2".to_vec()));
    }
}

#[test]
fn test_flushed_files_are_named_by_number() {
    let mut dir = temp_dir("named_by_number");
    let mut tree = dir.open();
    dir.put(&mut tree, b"a", vec![0u8; MEMTABLE_SIZE_THRESHOLD]);
    dir.put(&mut tree, b"b", vec![0u8; MEMTABLE_SIZE_THRESHOLD]);
    dir.put(&mut tree, b"c", vec![0u8; MEMTABLE_SIZE_THRESHOLD]);
    let names: Vec<Vec<u8>> = dir.files.iter().map(|(name, _)| name.clone()).collect();
    assert_eq!(
        names,
        vec![b"00000001.sst".to_vec(), b"00000002.sst".to_vec(), b"00000003.sst".to_vec()]
    );
}

#[test]
fn test_reopen_continues_numbering() {
    let mut dir = temp_dir("continues_numbering");
    {
        let mut tree = dir.open();
        dir.put(&mut tree, b"a", vec![0u8; MEMTABLE_SIZE_THRESHOLD]);
        dir.put(&mut tree, b"b", vec![0u8; MEMTABLE_SIZE_THRESHOLD]);
    }
    let mut tree = dir.open();
    dir.put(&mut tree, b"c", vec![0u8; MEMTABLE_SIZE_THRESHOLD]);
    assert_eq!(dir.files.last().unwrap().0, b"00000003.sst".to_vec());
    assert_eq!(tree.num_sstables(), 3);
}

#[test]
fn test_tombstone_masks_across_tables() {
    let mut dir = temp_dir("masks_across_tables");
    let mut tree = dir.open();

    // k = v1 goes to the first table
    dir.put(&mut tree, b"k", b"v1".to_vec());
    dir.put(&mut tree, b"filler1", vec![0u8; MEMTABLE_SIZE_THRESHOLD]);
    assert_eq!(tree.num_sstables(), 1);

    // the deletion marker of k goes to a newer table
    dir.delete(&mut tree, b"k");
    dir.put(&mut tree, b"filler2", vec![0u8; MEMTABLE_SIZE_THRESHOLD]);
    assert_eq!(tree.num_sstables(), 2);
    assert!(tree.memtable().is_empty());

    assert_eq!(tree.get(b"k").unwrap(), None);

    // and it still masks after the tree is opened again
    let reopened = dir.open();
    assert_eq!(reopened.num_sstables(), 2);
    assert_eq!(reopened.get(b"k").unwrap(), None);
    assert_eq!(reopened.get(b"filler1").unwrap(), Some(vec![0u8; MEMTABLE_SIZE_THRESHOLD]));
}

#[test]
fn test_newest_table_wins() {
    let mut dir = temp_dir("newest_table_wins");
    let mut tree = dir.open();
    dir.put(&mut tree, b"k", b"v1".to_vec());
    dir.put(&mut tree, b"filler1", vec![0u8; MEMTABLE_SIZE_THRESHOLD]);
    dir.put(&mut tree, b"k", b"v2".to_vec());
    dir.put(&mut tree, b"filler2", vec![0u8; MEMTABLE_SIZE_THRESHOLD]);
    assert_eq!(tree.num_sstables(), 2);
    assert_eq!(tree.get(b"k").unwrap(), Some(b"v2".to_vec()));

    // however the directory lists its files
    dir.files.reverse();
    let reopened = dir.open();
    assert_eq!(reopened.get(b"k").unwrap(), Some(b"v2".to_vec()));
}

#[test]
fn test_threshold_is_reached_exactly() {
    let mut dir = temp_dir("threshold_exactly");
    let mut tree = dir.open();
    // one byte below the threshold: key of 1 byte, value of 4094
    dir.put(&mut tree, b"a", vec![7u8; MEMTABLE_SIZE_THRESHOLD - 2]);
    assert_eq!(tree.memtable().size_bytes(), MEMTABLE_SIZE_THRESHOLD - 1);
    assert_eq!(tree.num_sstables(), 0);
    assert_eq!(dir.files.len(), 0);
    // a deletion of a new key adds the key's length, which reaches it
    dir.delete(&mut tree, b"b");
    assert_eq!(tree.num_sstables(), 1);
    assert_eq!(dir.files.len(), 1);
    assert!(tree.memtable().is_empty());
    assert_eq!(tree.memtable().size_bytes(), 0);
    assert_eq!(tree.get(b"a").unwrap(), Some(vec![7u8; MEMTABLE_SIZE_THRESHOLD - 2]));
    assert_eq!(tree.get(b"b").unwrap(), None);
}

#[test]
fn test_flush_keeps_buffer_until_installed() {
    let mut tree = LSMTree::open(Vec::new()).unwrap();
    let flush = tree.put(b"key".to_vec(), vec![1u8; MEMTABLE_SIZE_THRESHOLD]);
    let file = flush.expect("the threshold is reached");
    assert_eq!(file.name, b"00000001.sst".to_vec());
    // nothing was taken in yet
    assert_eq!(tree.num_sstables(), 0);
    assert_eq!(tree.memtable().len(), 1);
    assert_eq!(tree.get(b"key").unwrap(), Some(vec![1u8; MEMTABLE_SIZE_THRESHOLD]));
    // a second flush of the same buffer gets the next number
    let again = tree.flush_memtable().expect("the buffer is not empty");
    assert_eq!(again.name, b"00000002.sst".to_vec());
    assert_eq!(again.image, file.image);
    tree.install_table(again.image).unwrap();
    assert_eq!(tree.num_sstables(), 1);
    assert!(tree.memtable().is_empty());
    assert!(tree.flush_memtable().is_none());
}

#[test]
fn test_install_refuses_what_is_no_table() {
    let mut tree = LSMTree::open(Vec::new()).unwrap();
    tree.put(b"key".to_vec(), b"value".to_vec());
    match tree.install_table(vec![0u8; 40]) {
        Err(lsm_tree_kv::Error::Corruption(_)) => {}
        _ => panic!("Expected corruption error"),
    }
    assert_eq!(tree.num_sstables(), 0);
    assert_eq!(tree.get(b"key").unwrap(), Some(b"value".to_vec()));
}

#[test]
fn test_open_skips_other_files_and_fails_on_a_broken_table() {
    let mut dir = temp_dir("broken_table");
    let mut tree = dir.open();
    dir.put(&mut tree, b"k", vec![0u8; MEMTABLE_SIZE_THRESHOLD]);
    dir.files.push((b"notes.txt".to_vec(), b"not a table".to_vec()));
    dir.files.push((b".sst".to_vec(), b"no stem".to_vec()));
    let reopened = dir.open();
    assert_eq!(reopened.num_sstables(), 1);

    dir.files.push((b"00000002.sst".to_vec(), b"broken".to_vec()));
    match LSMTree::open(dir.listing()) {
        Err(lsm_tree_kv::Error::Corruption(_)) => {}
        _ => panic!("Expected corruption error"),
    }
}

#[test]
fn test_open_counts_from_the_largest_number() {
    let mut dir = temp_dir("largest_number");
    let mut tree = dir.open();
    dir.put(&mut tree, b"k", vec![0u8; MEMTABLE_SIZE_THRESHOLD]);
    let image = dir.files[0].1.clone();
    // names that carry 41 and 7, and one that carries no number
    dir.files = vec![
        (b"00000041.sst".to_vec(), image.clone()),
        (b"+7.sst".to_vec(), image.clone()),
        (b"backup.sst".to_vec(), image),
    ];
    let mut reopened = dir.open();
    assert_eq!(reopened.num_sstables(), 3);
    let file = reopened.put(b"x".to_vec(), vec![0u8; MEMTABLE_SIZE_THRESHOLD]).unwrap();
    assert_eq!(file.name, b"00000042.sst".to_vec());
}
