use std::collections::BTreeMap;

use lsm_tree_kv::{LSMTree, Memtable, SSTable, SSTableBuilder, TableFile, Value};

/// A small generator of numbers, the same on every run.
struct Numbers(u64);

impl Numbers {
    fn next(&mut self) -> u64 {
        self.0 = self.0.wrapping_mul(6364136223846793005).wrapping_add(1442695040888963407);
        self.0 >> 33
    }

    fn below(&mut self, n: u64) -> u64 {
        self.next() % n
    }

    fn bytes(&mut self, max_len: u64) -> Vec<u8> {
        let len = self.below(max_len + 1);
        (0..len).map(|_| self.below(256) as u8).collect()
    }

    fn key(&mut self) -> Vec<u8> {
        let len = self.below(3);
        (0..len).map(|_| b'a' + self.below(4) as u8).collect()
    }
}

#[test]
fn test_memtable_agrees_with_a_sorted_map() {
    let mut numbers = Numbers(7);
    let mut memtable = Memtable::new();
    let mut model: BTreeMap<Vec<u8>, Value> = BTreeMap::new();
    for _ in 0..2000 {
        let key = numbers.key();
        if numbers.below(3) == 0 {
            memtable.delete(key.clone());
            model.insert(key.clone(), Value::Tombstone);
        } else {
            let value = numbers.bytes(5);
            memtable.put(key.clone(), value.clone());
            model.insert(key.clone(), Value::Stored(value));
        }
        assert_eq!(memtable.get(&key), model.get(&key));
        assert_eq!(memtable.len(), model.len());
        let size: usize = model
            .iter()
            .map(|(k, v)| k.len() + match v {
                Value::Stored(bytes) => bytes.len(),
                Value::Tombstone => 0,
            })
            .sum();
        assert_eq!(memtable.size_bytes(), size);
    }
    let seen: Vec<(Vec<u8>, Value)> = memtable.iter().cloned().collect();
    let expected: Vec<(Vec<u8>, Value)> = model.into_iter().collect();
    assert_eq!(seen, expected);
}

#[test]
fn test_table_reads_back_what_was_written() {
    let mut numbers = Numbers(11);
    for round in 0..20 {
        let mut entries: BTreeMap<Vec<u8>, Value> = BTreeMap::new();
        for _ in 0..round * 5 {
            let key = numbers.bytes(6);
            let value = if numbers.below(4) == 0 {
                Value::Tombstone
            } else {
                Value::Stored(numbers.bytes(300))
            };
            entries.insert(key, value);
        }
        let mut builder = SSTableBuilder::new();
        for (key, value) in &entries {
            builder.add(key, value);
        }
        let table = SSTable::open(builder.finish()).unwrap();
        assert_eq!(table.num_entries() as usize, entries.len());
        for (key, value) in &entries {
            assert_eq!(table.get(key).unwrap().as_ref(), Some(value));
        }
        for _ in 0..50 {
            let key = numbers.bytes(6);
            assert_eq!(table.get(&key).unwrap(), entries.get(&key).cloned());
        }
    }
}

#[test]
fn test_tree_agrees_with_a_map_through_flushes_and_reopening() {
    let mut numbers = Numbers(3);
    let mut stored: Vec<(Vec<u8>, Vec<u8>)> = Vec::new();
    let mut tree = LSMTree::open(Vec::new()).unwrap();
    let mut model: BTreeMap<Vec<u8>, Option<Vec<u8>>> = BTreeMap::new();
    let mut flushes = 0;
    for step in 0..1500 {
        let key = numbers.key();
        let flush = if numbers.below(4) == 0 {
            model.insert(key.clone(), None);
            tree.delete(key.clone())
        } else {
            let value = numbers.bytes(400);
            model.insert(key.clone(), Some(value.clone()));
            tree.put(key.clone(), value)
        };
        if let Some(file) = flush {
            flushes += 1;
            stored.push((file.name, file.image.clone()));
            tree.install_table(file.image).unwrap();
            assert!(tree.memtable().is_empty());
        }
        assert_eq!(tree.num_sstables(), flushes);
        assert_eq!(tree.get(&key).unwrap(), model.get(&key).cloned().flatten());
        if step % 100 == 99 {
            for (k, v) in &model {
                assert_eq!(tree.get(k).unwrap(), v.clone());
            }
            // what a tree opened anew holds is what was flushed: bring the
            // buffer to a table first, then compare
            if let Some(file) = tree.flush_memtable() {
                flushes += 1;
                stored.push((file.name, file.image.clone()));
                tree.install_table(file.image).unwrap();
            }
            let mut listing: Vec<TableFile> = stored
                .iter()
                .map(|(name, image)| TableFile { name: name.clone(), image: image.clone() })
                .collect();
            // a directory lists its files in no particular order
            let turn = numbers.below(listing.len() as u64) as usize;
            listing.rotate_left(turn);
            let reopened = LSMTree::open(listing).unwrap();
            assert_eq!(reopened.num_sstables(), stored.len());
            assert!(reopened.memtable().is_empty());
            for (k, v) in &model {
                assert_eq!(reopened.get(k).unwrap(), v.clone());
            }
        }
    }
    assert!(flushes > 10);
}
