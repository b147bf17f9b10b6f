//! The tree: one write buffer and the tables flushed so far, newest first.
//! Reads go to the buffer and then through the tables in that order; writes
//! go to the buffer, which is laid out as a new table once it has grown to
//! the threshold.
//!
//! The tree touches no file. A flush hands the new table's image out to be
//! stored, and takes in what was stored to read from it.

use std::collections::VecDeque;
use vstd::prelude::*;
use vstd::slice::slice_to_vec;
use crate::directory::{
    by_name, file_views, keep_table_files, largest_number, lemma_by_name_keeps,
    lemma_by_name_restores, lemma_table_files_named, sort_by_name, table_files, FileView,
    TableFile,
};
use crate::format::{table_image, table_lookup, well_framed, Lookup};
use crate::lexical::lex_lt;
use crate::naming::{
    is_table_name, lemma_number_of_table_name, lemma_table_names_ascend, sequence_number,
    table_file_name, table_name, EIGHT_DIGITS,
};
use crate::memtable::{entry_view, Entry, Memtable, Value, ValueView};
use crate::ordered::{as_map, strictly_ascending};
use crate::round_trip::{fits_format, lemma_image_round_trip};
use crate::sstable::{SSTable, SSTableBuilder};
use crate::Error;

verus! {

/// The buffer is flushed once it holds this many bytes.
pub const MEMTABLE_SIZE_THRESHOLD: usize = 4096;

/// What the tables hold for `key`: the answer of the first table, in the
/// order given, that has an entry for it or fails on it.
pub open spec fn read_tables(tables: Seq<Seq<u8>>, key: Seq<u8>) -> Lookup
    decreases tables.len(),
{
    if tables.len() == 0 {
        Lookup::Absent
    } else {
        match table_lookup(tables[0], key) {
            Lookup::Absent => read_tables(tables.drop_first(), key),
            answer => answer,
        }
    }
}

/// What a buffer and the tables behind it hold for `key`: the buffer's entry
/// where it has one, else what the tables hold.
pub open spec fn read_through(
    buffer: Map<Seq<u8>, ValueView>,
    tables: Seq<Seq<u8>>,
    key: Seq<u8>,
) -> Lookup {
    if buffer.contains_key(key) {
        Lookup::Present(buffer[key])
    } else {
        read_tables(tables, key)
    }
}

/// Every file is framed as a table.
pub open spec fn all_framed(files: Seq<FileView>) -> bool {
    forall|i: int| 0 <= i < files.len() ==> well_framed(#[trigger] files[i].1)
}

/// The images of the files, last file first.
pub open spec fn newest_first(files: Seq<FileView>) -> Seq<Seq<u8>> {
    Seq::new(files.len(), |i: int| files[files.len() - 1 - i].1)
}

/// The sequence number that follows `n`. After the largest it starts over.
pub open spec fn number_after(n: usize) -> usize {
    if n == usize::MAX {
        0
    } else {
        (n + 1) as usize
    }
}

/// Lays the entries of a buffer out as a table, in the buffer's order.
fn lay_out(memtable: &Memtable) -> (image: Vec<u8>)
    requires
        memtable.wf(),
    ensures
        image@ == table_image(memtable.entries()),
{
    let ghost all = memtable.entries();
    let mut builder = SSTableBuilder::new();
    for entry in it: memtable.iter()
        invariant
            builder.wf(),
            it.seq().len() == all.len(),
            forall|i: int| 0 <= i < all.len() ==> entry_view(*#[trigger] it.seq()[i]) == all[i],
            builder.entries() == all.take(it.index()),
    {
        builder.add(entry.0.as_slice(), &entry.1);
    }
    proof {
        assert(all.take(all.len() as int) =~= all);
    }
    builder.finish()
}

/// The tree.
pub struct LSMTree {
    /// The write buffer.
    memtable: Memtable,
    /// The tables flushed so far, newest first.
    l0_sstables: VecDeque<SSTable>,
    /// The number that the next table will be stored under.
    sst_counter: usize,
}

impl LSMTree {
    /// The write buffer.
    pub closed spec fn buffer(&self) -> Memtable {
        self.memtable
    }

    /// The tables, newest first.
    pub closed spec fn sstables(&self) -> Seq<SSTable> {
        self.l0_sstables@
    }

    /// The images of the tables, newest first.
    pub open spec fn tables(&self) -> Seq<Seq<u8>> {
        Seq::new(self.sstables().len(), |i: int| self.sstables()[i]@)
    }

    /// The number that the next table will be stored under.
    pub closed spec fn next_number(&self) -> usize {
        self.sst_counter
    }

    /// The buffer is in order and every table is framed.
    pub open spec fn wf(&self) -> bool {
        &&& self.buffer().wf()
        &&& forall|i: int| 0 <= i < self.sstables().len() ==> (#[trigger] self.sstables()[i]).wf()
    }

    /// What the tree holds for `key`.
    pub open spec fn read(&self, key: Seq<u8>) -> Lookup {
        read_through(self.buffer()@, self.tables(), key)
    }

    /// How a flush that started at the number `before` has left the tree:
    /// with no table handed out the number stands; a table handed out is
    /// named by that number and holds the buffer's entries, and the next
    /// number follows.
    pub open spec fn flushed_from(&self, before: usize, flush: Option<TableFile>) -> bool {
        match flush {
            Some(file) => {
                &&& file.name@ == table_name(before)
                &&& file.image@ == table_image(self.buffer().entries())
                &&& self.next_number() == number_after(before)
            },
            None => self.next_number() == before,
        }
    }

    /// A tree over the files of a directory, with an empty buffer. Of the
    /// files given, those with table names are taken in ascending order of
    /// name, which is the order of their making, so that the last made
    /// becomes the newest table. The next sequence number follows the
    /// largest that a name carries. One file that is not framed as a table
    /// fails the whole.
    pub fn open(files: Vec<TableFile>) -> (r: Result<LSMTree, Error>)
        ensures
            r is Ok <==> all_framed(by_name(table_files(file_views(files@)))),
            r matches Ok(tree) ==> {
                let found = by_name(table_files(file_views(files@)));
                &&& tree.wf()
                &&& tree.tables() == newest_first(found)
                &&& tree.buffer().entries() == Seq::<Entry>::empty()
                &&& tree.buffer().counted() == 0
                &&& tree.next_number() == number_after(largest_number(found))
            },
            r matches Err(e) ==> e is Corruption,
    {
        let ghost listed = file_views(files@);
        let arranged = sort_by_name(keep_table_files(files));
        let ghost given = arranged@;
        let ghost found = file_views(arranged@);
        let mut l0_sstables: VecDeque<SSTable> = VecDeque::new();
        let mut max_sst_num: usize = 0;
        proof {
            lemma_table_files_named(listed);
            lemma_by_name_keeps(table_files(listed));
        }
        for file in it: arranged
            invariant
                it.seq() == given,
                found == file_views(given),
                listed == file_views(files@),
                found == by_name(table_files(listed)),
                forall|i: int| 0 <= i < found.len() ==> is_table_name(#[trigger] found[i].0),
                all_framed(found.take(it.index())),
                l0_sstables@.len() == it.index(),
                forall|i: int|
                    0 <= i < it.index() ==> (#[trigger] l0_sstables@[i]).wf() && l0_sstables@[i]@
                        == found[it.index() - 1 - i].1,
                max_sst_num == largest_number(found.take(it.index())),
        {
            let ghost n = it.index();
            proof {
                assert(is_table_name(found[n].0));
                assert(found.take(n + 1).drop_last() =~= found.take(n));
            }
            if let Some(num) = sequence_number(file.name.as_slice()) {
                if num > max_sst_num {
                    max_sst_num = num;
                }
            }
            match SSTable::open(file.image) {
                Err(e) => {
                    proof {
                        assert(!well_framed(found[n].1));
                    }
                    return Err(e);
                },
                Ok(table) => {
                    l0_sstables.push_front(table);
                },
            }
        }
        proof {
            assert(found.take(found.len() as int) =~= found);
        }
        let tree = LSMTree {
            memtable: Memtable::new(),
            l0_sstables,
            sst_counter: if max_sst_num == usize::MAX {
                0
            } else {
                max_sst_num + 1
            },
        };
        Ok(tree)
    }

    /// The value of `key`: the buffer's where it has an entry, else that of
    /// the newest table that has one. A deletion marker found first means
    /// there is no value.
    pub fn get(&self, key: &[u8]) -> (r: Result<Option<Vec<u8>>, Error>)
        requires
            self.wf(),
        ensures
            match self.read(key@) {
                Lookup::Present(ValueView::Stored(bytes)) => r matches Ok(Some(v)) && v@ == bytes,
                Lookup::Present(ValueView::Tombstone) => r matches Ok(None),
                Lookup::Absent => r matches Ok(None),
                Lookup::Corrupt => r matches Err(e) && e is Corruption,
            },
    {
        match self.memtable.get(key) {
            Some(Value::Stored(v)) => {
                return Ok(Some(slice_to_vec(v.as_slice())));
            },
            Some(Value::Tombstone) => {
                return Ok(None);
            },
            None => {},
        }
        let ghost tables = self.tables();
        let n = self.l0_sstables.len();
        let mut i: usize = 0;
        assert(tables.subrange(0, tables.len() as int) =~= tables);
        while i < n
            invariant
                i <= n,
                n == self.l0_sstables@.len(),
                tables == self.tables(),
                self.wf(),
                !self.buffer()@.contains_key(key@),
                read_tables(tables, key@) == read_tables(
                    tables.subrange(i as int, tables.len() as int),
                    key@,
                ),
            decreases n - i,
        {
            let ghost rest = tables.subrange(i as int, tables.len() as int);
            assert(rest.drop_first() =~= tables.subrange(i + 1, tables.len() as int));
            match self.l0_sstables[i].get(key) {
                Err(e) => {
                    return Err(e);
                },
                Ok(Some(Value::Stored(value))) => {
                    return Ok(Some(value));
                },
                Ok(Some(Value::Tombstone)) => {
                    return Ok(None);
                },
                Ok(None) => {},
            }
            i += 1;
        }
        Ok(None)
    }

    /// Gives `key` the value `value` in the buffer. Where the buffer has
    /// then grown to the threshold, it is flushed: the result is the table
    /// to store.
    pub fn put(&mut self, key: Vec<u8>, value: Vec<u8>) -> (flush: Option<TableFile>)
        requires
            old(self).wf(),
            old(self).buffer().size_after_put(key@, value@) <= usize::MAX,
        ensures
            final(self).wf(),
            final(self).buffer()@ == old(self).buffer()@.insert(key@, ValueView::Stored(value@)),
            final(self).buffer().counted() == old(self).buffer().size_after_put(key@, value@),
            final(self).sstables() == old(self).sstables(),
            final(self).read(key@) == Lookup::Present(ValueView::Stored(value@)),
            flush is Some <==> final(self).buffer().counted() >= MEMTABLE_SIZE_THRESHOLD,
            final(self).flushed_from(old(self).next_number(), flush),
    {
        self.memtable.put(key, value);
        proof {
            self.lemma_tables_stay(*old(self));
        }
        if self.memtable.size_bytes() >= MEMTABLE_SIZE_THRESHOLD {
            self.flush_memtable()
        } else {
            None
        }
    }

    /// Marks `key` as deleted in the buffer, which hides whatever the tables
    /// hold for it. Where the buffer has then grown to the threshold, it is
    /// flushed: the result is the table to store.
    pub fn delete(&mut self, key: Vec<u8>) -> (flush: Option<TableFile>)
        requires
            old(self).wf(),
            old(self).buffer().size_after_delete(key@) <= usize::MAX,
        ensures
            final(self).wf(),
            final(self).buffer()@ == old(self).buffer()@.insert(key@, ValueView::Tombstone),
            final(self).buffer().counted() == old(self).buffer().size_after_delete(key@),
            final(self).sstables() == old(self).sstables(),
            final(self).read(key@) == Lookup::Present(ValueView::Tombstone),
            old(self).buffer()@.contains_key(key@) && old(self).buffer()@[key@]
                == ValueView::Tombstone ==> {
                &&& final(self).buffer().entries() == old(self).buffer().entries()
                &&& final(self).buffer().counted() == old(self).buffer().counted()
            },
            flush is Some <==> final(self).buffer().counted() >= MEMTABLE_SIZE_THRESHOLD,
            final(self).flushed_from(old(self).next_number(), flush),
    {
        self.memtable.delete(key);
        proof {
            self.lemma_tables_stay(*old(self));
        }
        if self.memtable.size_bytes() >= MEMTABLE_SIZE_THRESHOLD {
            self.flush_memtable()
        } else {
            None
        }
    }

    /// Lays the buffer out as a new table under the next sequence number and
    /// hands it out to be stored. The buffer stays as it is until the stored
    /// table is taken in by `install_table`. An empty buffer is not flushed.
    pub fn flush_memtable(&mut self) -> (flush: Option<TableFile>)
        requires
            old(self).wf(),
        ensures
            final(self).wf(),
            final(self).buffer() == old(self).buffer(),
            final(self).sstables() == old(self).sstables(),
            flush is Some <==> old(self).buffer().entries().len() > 0,
            final(self).flushed_from(old(self).next_number(), flush),
    {
        if self.memtable.is_empty() {
            return None;
        }
        let number = self.sst_counter;
        self.sst_counter = if number == usize::MAX {
            0
        } else {
            number + 1
        };
        proof {
            self.lemma_tables_stay(*old(self));
        }
        let image = lay_out(&self.memtable);
        Some(TableFile { name: table_file_name(number), image })
    }

    /// Takes in a stored table as the newest one and empties the buffer.
    /// Bytes that are not framed as a table are refused, and the tree stays
    /// as it was.
    pub fn install_table(&mut self, image: Vec<u8>) -> (r: Result<(), Error>)
        requires
            old(self).wf(),
        ensures
            final(self).wf(),
            r is Ok <==> well_framed(image@),
            r is Ok ==> {
                &&& final(self).tables() == seq![image@] + old(self).tables()
                &&& final(self).buffer().entries() == Seq::<Entry>::empty()
                &&& final(self).buffer().counted() == 0
                &&& final(self).next_number() == old(self).next_number()
            },
            r matches Err(e) ==> e is Corruption && *final(self) == *old(self),
    {
        match SSTable::open(image) {
            Err(e) => Err(e),
            Ok(table) => {
                self.l0_sstables.push_front(table);
                self.memtable = Memtable::new();
                assert(self.tables() =~= seq![image@] + old(self).tables());
                Ok(())
            },
        }
    }

    /// The write buffer.
    pub fn memtable(&self) -> (m: &Memtable)
        ensures
            *m == self.buffer(),
    {
        &self.memtable
    }

    /// The number of tables held.
    pub fn num_sstables(&self) -> (n: usize)
        ensures
            n == self.tables().len(),
    {
        self.l0_sstables.len()
    }

    /// A tree whose buffer is in order and whose tables are those of a tree
    /// in order is in order.
    proof fn lemma_tables_stay(self, earlier: LSMTree)
        requires
            earlier.wf(),
            self.sstables() == earlier.sstables(),
            self.buffer().wf(),
        ensures
            self.wf(),
            self.tables() == earlier.tables(),
    {
    }

    /// Taking in the table that a flush has handed out changes no answer of
    /// the tree, as far as the buffer's entries fit the format: `self` is
    /// the tree when the table was laid out, `after` the tree that has
    /// taken it in.
    pub proof fn lemma_install_keeps_reads(self, after: LSMTree, key: Seq<u8>)
        requires
            self.wf(),
            fits_format(self.buffer().entries()),
            after.tables() == seq![table_image(self.buffer().entries())] + self.tables(),
            after.buffer().entries() == Seq::<Entry>::empty(),
        ensures
            after.read(key) == self.read(key),
    {
        lemma_flush_keeps_reads(self.buffer().entries(), self.tables(), key);
    }
}

/// A table laid out from entries answers for every key that the entries
/// hold, whatever older tables stand behind it: a newer payload or deletion
/// marker masks what older tables hold for the key.
pub proof fn lemma_newer_table_masks(newer: Seq<Entry>, older: Seq<Seq<u8>>, key: Seq<u8>)
    requires
        strictly_ascending(newer),
        fits_format(newer),
        as_map(newer).contains_key(key),
    ensures
        read_tables(seq![table_image(newer)] + older, key) == Lookup::Present(as_map(newer)[key]),
{
    lemma_image_round_trip(newer, key);
}

/// A flush changes no answer: with the buffer's entries laid out as the
/// newest table and the buffer emptied, every key reads as before.
pub proof fn lemma_flush_keeps_reads(entries: Seq<Entry>, tables: Seq<Seq<u8>>, key: Seq<u8>)
    requires
        strictly_ascending(entries),
        fits_format(entries),
    ensures
        well_framed(table_image(entries)),
        read_through(Map::empty(), seq![table_image(entries)] + tables, key) == read_through(
            as_map(entries),
            tables,
            key,
        ),
{
    let after = seq![table_image(entries)] + tables;
    lemma_image_round_trip(entries, key);
    assert(after.drop_first() =~= tables);
}

/// The files that flushes have stored, oldest first: the image of each
/// under the name of its sequence number.
pub open spec fn stored_files(numbers: Seq<usize>, images: Seq<Seq<u8>>) -> Seq<FileView> {
    Seq::new(numbers.len(), |i: int| (table_name(numbers[i]), images[i]))
}

/// The largest number among stored files with ascending numbers is the last.
proof fn lemma_largest_is_last(numbers: Seq<usize>, images: Seq<Seq<u8>>)
    requires
        numbers.len() == images.len(),
        forall|i: int, j: int| 0 <= i < j < numbers.len() ==> numbers[i] < numbers[j],
    ensures
        largest_number(stored_files(numbers, images)) == if numbers.len() > 0 {
            numbers.last()
        } else {
            0
        },
    decreases numbers.len(),
{
    let files = stored_files(numbers, images);
    if numbers.len() > 0 {
        let fewer = numbers.drop_last();
        lemma_largest_is_last(fewer, images.drop_last());
        assert(files.drop_last() =~= stored_files(fewer, images.drop_last()));
        lemma_number_of_table_name(numbers.last());
    }
}

/// As long as sequence numbers have eight digits, the files that flushes
/// have stored under ascending numbers have ascending names.
pub proof fn lemma_stored_names_ascend(numbers: Seq<usize>, images: Seq<Seq<u8>>)
    requires
        numbers.len() == images.len(),
        forall|i: int, j: int| 0 <= i < j < numbers.len() ==> numbers[i] < numbers[j],
        forall|i: int| 0 <= i < numbers.len() ==> numbers[i] < EIGHT_DIGITS,
    ensures
        strictly_ascending(stored_files(numbers, images)),
{
    let stored = stored_files(numbers, images);
    assert forall|i: int, j: int| 0 <= i < j < stored.len() implies lex_lt(
        #[trigger] stored[i].0,
        #[trigger] stored[j].0,
    ) by {
        lemma_table_names_ascend(numbers[i], numbers[j]);
    }
}

/// Opening a tree again recovers its tables. Where flushes have stored
/// framed tables under ascending sequence numbers, the names ascend as the
/// numbers do, and the directory lists those files as its table files, in
/// whatever order: sorting by name gives them back oldest first, so that a
/// tree opened over the listing holds every one of them, the newest first,
/// and counts on from the last number.
pub proof fn lemma_reopen_recovers(
    numbers: Seq<usize>,
    images: Seq<Seq<u8>>,
    listed: Seq<FileView>,
)
    requires
        numbers.len() == images.len(),
        forall|i: int, j: int| 0 <= i < j < numbers.len() ==> numbers[i] < numbers[j],
        strictly_ascending(stored_files(numbers, images)),
        forall|i: int| 0 <= i < images.len() ==> well_framed(images[i]),
        table_files(listed).to_multiset() == stored_files(numbers, images).to_multiset(),
    ensures
        by_name(table_files(listed)) == stored_files(numbers, images),
        all_framed(by_name(table_files(listed))),
        newest_first(by_name(table_files(listed))) == images.reverse(),
        largest_number(by_name(table_files(listed))) == if numbers.len() > 0 {
            numbers.last()
        } else {
            0
        },
{
    let stored = stored_files(numbers, images);
    lemma_by_name_restores(table_files(listed), stored);
    lemma_largest_is_last(numbers, images);
    assert(newest_first(stored) =~= images.reverse());
}

} // verus!
