//! Writing a table and reading one: the builder lays entries out in the
//! format's byte layout, the reader frames an image and answers lookups in it.

use vstd::bytes::{
    spec_u32_to_le_bytes, spec_u64_to_le_bytes, u32_from_le_bytes, u32_to_le_bytes,
    u64_from_le_bytes, u64_to_le_bytes,
};
use vstd::prelude::*;
use vstd::slice::{slice_subrange, slice_to_vec};
use crate::format::{
    data_region, footer_of, index_bytes, index_map, index_of, index_region, parse_index,
    record_bytes, table_image, table_index, table_lookup, well_framed, IndexEntry, Lookup,
    FOOTER_SIZE, MAGIC_NUMBER,
};
use crate::lexical::{lex_order, KeyOrder};
use crate::memtable::{Entry, Value};
use crate::ordered::{
    as_map, lemma_as_map_at, lemma_fits_at_absent, lemma_insert_entry, lemma_update_entry, locate,
    strictly_ascending,
};
use crate::Error;

verus! {

/// Appends the bytes of a slice.
fn append_bytes(buf: &mut Vec<u8>, bytes: &[u8])
    ensures
        final(buf)@ == old(buf)@ + bytes@,
{
    let mut copy = slice_to_vec(bytes);
    buf.append(&mut copy);
}

/// Appends a 32-bit integer, low byte first.
fn append_u32(buf: &mut Vec<u8>, x: u32)
    ensures
        final(buf)@ == old(buf)@ + spec_u32_to_le_bytes(x),
{
    let mut bytes = u32_to_le_bytes(x);
    buf.append(&mut bytes);
}

/// Appends a 64-bit integer, low byte first.
fn append_u64(buf: &mut Vec<u8>, x: u64)
    ensures
        final(buf)@ == old(buf)@ + spec_u64_to_le_bytes(x),
{
    let mut bytes = u64_to_le_bytes(x);
    buf.append(&mut bytes);
}

/// The index entries of a builder or a reader as the contracts see them.
pub open spec fn index_view(ix: Seq<(Vec<u8>, u64)>) -> Seq<IndexEntry> {
    Seq::new(ix.len(), |i: int| (ix[i].0@, ix[i].1))
}

/// Lays entries out as a table, one `add` per entry, and hands the finished
/// image over on `finish`. It neither sorts nor checks the order of the keys:
/// whoever adds them gives them in strictly ascending order.
pub struct SSTableBuilder {
    /// The data region written so far.
    buffer: Vec<u8>,
    /// Each key added, with the offset of its record.
    index: Vec<(Vec<u8>, u64)>,
    /// The length of the data region written so far.
    current_offset: u64,
    /// The number of entries added, as far as 32 bits count.
    num_entries: u32,
    /// The entries added, in the order of their coming.
    added: Ghost<Seq<Entry>>,
}

impl SSTableBuilder {
    /// The entries added so far, in the order of their coming.
    pub closed spec fn entries(&self) -> Seq<Entry> {
        self.added@
    }

    /// What has been written agrees with the entries added.
    pub closed spec fn wf(&self) -> bool {
        &&& self.buffer@ == data_region(self.added@)
        &&& index_view(self.index@) == index_of(self.added@)
        &&& self.current_offset == self.buffer@.len()
        &&& self.num_entries == self.added@.len() as u32
    }

    /// A builder that holds no entry yet.
    pub fn new() -> (b: SSTableBuilder)
        ensures
            b.wf(),
            b.entries() == Seq::<Entry>::empty(),
    {
        let b = SSTableBuilder {
            buffer: Vec::new(),
            index: Vec::new(),
            current_offset: 0,
            num_entries: 0,
            added: Ghost(Seq::empty()),
        };
        assert(index_view(b.index@) =~= index_of(b.added@));
        b
    }

    /// Appends the record of one entry and notes where it starts.
    pub fn add(&mut self, key: &[u8], value: &Value)
        requires
            old(self).wf(),
        ensures
            final(self).wf(),
            final(self).entries() == old(self).entries().push((key@, value@)),
    {
        let ghost before = self.added@;
        let ghost e: Entry = (key@, value@);
        let ghost old_index = self.index@;
        let offset = self.current_offset;
        let key_len = #[verifier::truncate]
        (key.len() as u32);
        append_u32(&mut self.buffer, key_len);
        append_bytes(&mut self.buffer, key);
        match value {
            Value::Stored(bytes) => {
                let value_len = #[verifier::truncate]
                (bytes.len() as u32);
                append_u32(&mut self.buffer, value_len);
                append_bytes(&mut self.buffer, bytes.as_slice());
                self.buffer.push(0u8);
            },
            Value::Tombstone => {
                append_u32(&mut self.buffer, 0u32);
                self.buffer.push(1u8);
            },
        }
        self.current_offset = self.buffer.len() as u64;
        self.index.push((slice_to_vec(key), offset));
        self.num_entries = #[verifier::truncate]
        (self.index.len() as u32);
        self.added = Ghost(before.push(e));
        proof {
            let after = before.push(e);
            assert(after.drop_last() =~= before);
            assert(self.buffer@ =~= data_region(before) + record_bytes(e));
            assert forall|i: int| 0 <= i < before.len() implies #[trigger] after.take(i)
                == before.take(i) by {
            }
            assert(index_of(before).len() == before.len());
            assert forall|i: int| 0 <= i < after.len() implies index_view(self.index@)[i]
                == #[trigger] index_of(after)[i] by {
                if i < before.len() {
                    assert(index_view(old_index)[i] == index_of(before)[i]);
                }
            }
            assert(index_view(self.index@) =~= index_of(after));
        }
    }

    /// Writes the index region and the footer after the records, and hands
    /// the whole image over.
    pub fn finish(self) -> (image: Vec<u8>)
        requires
            self.wf(),
        ensures
            image@ == table_image(self.entries()),
    {
        let ghost entries = self.added@;
        let ghost data = self.buffer@;
        let SSTableBuilder { buffer, index, current_offset, num_entries, added: _ } = self;
        let mut out = buffer;
        let index_offset = current_offset;
        let start = out.len();
        let ghost ix = index_view(index@);
        let mut i: usize = 0;
        while i < index.len()
            invariant
                i <= index.len(),
                ix == index_view(index@),
                out@ == data + index_region(ix.take(i as int)),
            decreases index.len() - i,
        {
            let key_len = #[verifier::truncate]
            (index[i].0.len() as u32);
            append_u32(&mut out, key_len);
            append_bytes(&mut out, index[i].0.as_slice());
            append_u64(&mut out, index[i].1);
            proof {
                assert(ix.take(i + 1).drop_last() =~= ix.take(i as int));
            }
            i += 1;
        }
        proof {
            assert(ix.take(i as int) =~= ix);
        }
        let index_len = #[verifier::truncate]
        ((out.len() - start) as u32);
        append_u64(&mut out, index_offset);
        append_u32(&mut out, index_len);
        append_u32(&mut out, num_entries);
        append_u64(&mut out, MAGIC_NUMBER);
        append_u64(&mut out, 0);
        out
    }
}

/// The entries parsed so far followed by what the rest of the bytes spell.
pub open spec fn parsed_then(parsed: Seq<IndexEntry>, rest: Option<Seq<IndexEntry>>) -> Option<
    Seq<IndexEntry>,
> {
    match rest {
        Some(r) => Some(parsed + r),
        None => None,
    }
}

/// A table held as its image, with the index read out of it.
pub struct SSTable {
    /// The bytes of the table, footer included.
    image: Vec<u8>,
    /// Key and record offset of each index entry, keys in ascending order.
    index: Vec<(Vec<u8>, u64)>,
    /// The entry count that the footer gives.
    num_entries: u32,
}

impl View for SSTable {
    type V = Seq<u8>;

    /// The table's image.
    closed spec fn view(&self) -> Seq<u8> {
        self.image@
    }
}

impl SSTable {
    /// The entry count held.
    pub closed spec fn count(&self) -> u32 {
        self.num_entries
    }

    /// The index held is the index that the image spells, in key order.
    pub closed spec fn index_agrees(&self) -> bool {
        &&& strictly_ascending(index_view(self.index@))
        &&& as_map(index_view(self.index@)) == table_index(self.image@)
    }

    /// The image is framed as a table, and index and entry count are those
    /// that it spells.
    pub open spec fn wf(&self) -> bool {
        &&& well_framed(self@)
        &&& self.index_agrees()
        &&& self.count() == footer_of(self@).num_entries
    }

    /// Frames an image: reads the footer, checks the magic number, and reads
    /// the index out of it.
    pub fn open(bytes: Vec<u8>) -> (r: Result<SSTable, Error>)
        ensures
            r is Ok <==> well_framed(bytes@),
            r matches Ok(t) ==> t.wf() && t@ == bytes@,
            r matches Err(e) ==> e is Corruption,
    {
        let len = bytes.len();
        if len < FOOTER_SIZE {
            return Err(Error::Corruption("File is shorter than a footer".to_string()));
        }
        let all = bytes.as_slice();
        let start = len - FOOTER_SIZE;
        let index_offset = u64_from_le_bytes(slice_subrange(all, start, start + 8));
        let index_len = u32_from_le_bytes(slice_subrange(all, start + 8, start + 12));
        let num_entries = u32_from_le_bytes(slice_subrange(all, start + 12, start + 16));
        let magic = u64_from_le_bytes(slice_subrange(all, start + 16, start + 24));
        if magic != MAGIC_NUMBER {
            return Err(Error::Corruption("Invalid magic number".to_string()));
        }
        if index_offset > len as u64 || index_len as u64 > len as u64 - index_offset {
            return Err(Error::Corruption("Index lies outside the file".to_string()));
        }
        let from = index_offset as usize;
        let region = slice_subrange(all, from, from + index_len as usize);
        let mut index: Vec<(Vec<u8>, u64)> = Vec::new();
        let ghost mut parsed: Seq<IndexEntry> = Seq::empty();
        let mut pos: usize = 0;
        assert(region@.subrange(0, region@.len() as int) =~= region@);
        while pos < region.len()
            invariant
                pos <= region.len(),
                region@ == index_bytes(bytes@),
                parse_index(region@) == parsed_then(
                    parsed,
                    parse_index(region@.subrange(pos as int, region@.len() as int)),
                ),
                strictly_ascending(index_view(index@)),
                as_map(index_view(index@)) == index_map(parsed),
            decreases region.len() - pos,
        {
            let ghost tail = region@.subrange(pos as int, region@.len() as int);
            let left = region.len() - pos;
            if left < 4 {
                return Err(Error::Corruption("Index entry is cut short".to_string()));
            }
            let key_len = u32_from_le_bytes(slice_subrange(region, pos, pos + 4)) as usize;
            assert(region@.subrange(pos as int, pos + 4) =~= tail.subrange(0, 4));
            if left - 4 < key_len || left - 4 - key_len < 8 {
                return Err(Error::Corruption("Index entry is cut short".to_string()));
            }
            let key = slice_to_vec(slice_subrange(region, pos + 4, pos + 4 + key_len));
            let offset = u64_from_le_bytes(
                slice_subrange(region, pos + 4 + key_len, pos + 12 + key_len),
            );
            proof {
                assert(key@ =~= tail.subrange(4, 4 + key_len));
                assert(region@.subrange(pos + 4 + key_len, pos + 12 + key_len) =~= tail.subrange(
                    4 + key_len,
                    12 + key_len,
                ));
                assert(region@.subrange(pos + 12 + key_len, region@.len() as int)
                    =~= tail.subrange(12 + key_len, tail.len() as int));
                let rest = parse_index(region@.subrange(pos + 12 + key_len, region@.len() as int));
                if rest is Some {
                    assert(parsed + (seq![(key@, offset)] + rest.unwrap()) =~= parsed.push(
                        (key@, offset),
                    ) + rest.unwrap());
                }
                assert(parsed.push((key@, offset)).drop_last() =~= parsed);
            }
            let ghost held = index_view(index@);
            let (at, found) = locate::<u64, u64>(&index, key.as_slice(), Ghost(held));
            if found {
                proof {
                    lemma_update_entry(held, at as int, offset);
                }
                index.set(at, (key, offset));
                assert(index_view(index@) =~= held.update(at as int, (held[at as int].0, offset)));
            } else {
                proof {
                    lemma_insert_entry(held, at as int, key@, offset);
                }
                index.insert(at, (key, offset));
                assert(index_view(index@) =~= held.insert(at as int, (key@, offset)));
            }
            proof {
                parsed = parsed.push((key@, offset));
            }
            pos = pos + 12 + key_len;
        }
        Ok(SSTable { image: bytes, index, num_entries })
    }

    /// Looks `key` up in the index and, where the index has it, reads its
    /// record. A record that runs past the end of the image, or carries
    /// another key than the index says, is an error.
    pub fn get(&self, key: &[u8]) -> (r: Result<Option<Value>, Error>)
        requires
            self.wf(),
        ensures
            match table_lookup(self@, key@) {
                Lookup::Absent => r matches Ok(None),
                Lookup::Present(v) => r matches Ok(Some(x)) && x@ == v,
                Lookup::Corrupt => r matches Err(e) && e is Corruption,
            },
    {
        let ghost held = index_view(self.index@);
        let (at, found) = locate::<u64, u64>(&self.index, key, Ghost(held));
        if !found {
            proof {
                lemma_fits_at_absent(held, at as int, key@);
            }
            return Ok(None);
        }
        proof {
            lemma_as_map_at(held, at as int);
        }
        let offset = self.index[at].1;
        let all = self.image.as_slice();
        let len = all.len();
        if offset > len as u64 || len as u64 - offset < 4 {
            return Err(Error::Corruption("Record lies outside the file".to_string()));
        }
        let start = offset as usize;
        let at_key = start + 4;
        let key_len = u32_from_le_bytes(slice_subrange(all, start, at_key)) as usize;
        if len - at_key < key_len || len - at_key - key_len < 4 {
            return Err(Error::Corruption("Record lies outside the file".to_string()));
        }
        let at_len = at_key + key_len;
        match lex_order(slice_subrange(all, at_key, at_len), key) {
            KeyOrder::Same => {},
            _ => {
                return Err(Error::Corruption("Key mismatch at indexed offset".to_string()));
            },
        }
        let at_value = at_len + 4;
        let value_len = u32_from_le_bytes(slice_subrange(all, at_len, at_value)) as usize;
        if len - at_value < value_len || len - at_value - value_len < 1 {
            return Err(Error::Corruption("Record lies outside the file".to_string()));
        }
        let at_flag = at_value + value_len;
        if all[at_flag] == 1 {
            Ok(Some(Value::Tombstone))
        } else {
            Ok(Some(Value::Stored(slice_to_vec(slice_subrange(all, at_value, at_flag)))))
        }
    }

    /// The entry count that the footer gives.
    pub fn num_entries(&self) -> (n: u32)
        ensures
            n == self.count(),
    {
        self.num_entries
    }
}

} // verus!
