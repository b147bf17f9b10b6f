//! The byte layout of a table: a data region of records, an index region with
//! one entry per record, and a footer of fixed size. All integers are
//! little-endian.

use vstd::bytes::{
    spec_u32_from_le_bytes, spec_u32_to_le_bytes, spec_u64_from_le_bytes, spec_u64_to_le_bytes,
};
use vstd::prelude::*;
use crate::memtable::{Entry, ValueView};

verus! {

/// Marks a table of this format: "SSTABLE1" in ASCII.
pub const MAGIC_NUMBER: u64 = 0x5353_5441_4245_4c31;

/// The length of the footer in bytes.
pub const FOOTER_SIZE: usize = 32;

/// A key with the offset of its record in the data region.
pub type IndexEntry = (Seq<u8>, u64);

/// The payload that a value is written with: nothing for a deletion marker.
pub open spec fn payload(v: ValueView) -> Seq<u8> {
    match v {
        ValueView::Stored(bytes) => bytes,
        ValueView::Tombstone => Seq::empty(),
    }
}

/// The flag byte that closes a record: 1 for a deletion marker, else 0.
pub open spec fn tombstone_flag(v: ValueView) -> u8 {
    match v {
        ValueView::Stored(_) => 0,
        ValueView::Tombstone => 1,
    }
}

/// One record: key length, key, payload length, payload, flag. A length is
/// written in four bytes, so only its low 32 bits are kept.
pub open spec fn record_bytes(e: Entry) -> Seq<u8> {
    spec_u32_to_le_bytes(e.0.len() as u32) + e.0 + spec_u32_to_le_bytes(payload(e.1).len() as u32)
        + payload(e.1) + seq![tombstone_flag(e.1)]
}

/// The records of all entries, one after another.
pub open spec fn data_region(s: Seq<Entry>) -> Seq<u8>
    decreases s.len(),
{
    if s.len() == 0 {
        Seq::empty()
    } else {
        data_region(s.drop_last()) + record_bytes(s.last())
    }
}

/// One index entry: key length, key, offset.
pub open spec fn index_entry_bytes(e: IndexEntry) -> Seq<u8> {
    spec_u32_to_le_bytes(e.0.len() as u32) + e.0 + spec_u64_to_le_bytes(e.1)
}

/// The index entries, one after another.
pub open spec fn index_region(ix: Seq<IndexEntry>) -> Seq<u8>
    decreases ix.len(),
{
    if ix.len() == 0 {
        Seq::empty()
    } else {
        index_region(ix.drop_last()) + index_entry_bytes(ix.last())
    }
}

/// The index that belongs to the entries: each key with the place where its
/// record starts, which is the length of all records before it.
pub open spec fn index_of(s: Seq<Entry>) -> Seq<IndexEntry> {
    Seq::new(s.len(), |i: int| (s[i].0, data_region(s.take(i)).len() as u64))
}

/// The footer: index offset, index length, entry count, magic, eight
/// reserved bytes of zero.
pub open spec fn footer_bytes(index_offset: u64, index_len: u32, num_entries: u32) -> Seq<u8> {
    spec_u64_to_le_bytes(index_offset) + spec_u32_to_le_bytes(index_len) + spec_u32_to_le_bytes(
        num_entries,
    ) + spec_u64_to_le_bytes(MAGIC_NUMBER) + spec_u64_to_le_bytes(0)
}

/// The whole table that holds the entries `s`, written in that order.
pub open spec fn table_image(s: Seq<Entry>) -> Seq<u8> {
    let data = data_region(s);
    let index = index_region(index_of(s));
    data + index + footer_bytes(data.len() as u64, index.len() as u32, s.len() as u32)
}

/// The fields of a footer.
#[derive(Clone, Copy, Debug, PartialEq, Eq, Structural)]
pub struct Footer {
    pub index_offset: u64,
    pub index_len: u32,
    pub num_entries: u32,
    pub magic: u64,
}

/// The footer that the last 32 bytes of an image spell.
pub open spec fn footer_of(image: Seq<u8>) -> Footer
    recommends
        image.len() >= FOOTER_SIZE,
{
    let start = image.len() - FOOTER_SIZE;
    Footer {
        index_offset: spec_u64_from_le_bytes(image.subrange(start, start + 8)),
        index_len: spec_u32_from_le_bytes(image.subrange(start + 8, start + 12)),
        num_entries: spec_u32_from_le_bytes(image.subrange(start + 12, start + 16)),
        magic: spec_u64_from_le_bytes(image.subrange(start + 16, start + 24)),
    }
}

/// The index entries that a byte string spells, or `None` where it breaks
/// off inside an entry.
pub open spec fn parse_index(b: Seq<u8>) -> Option<Seq<IndexEntry>>
    decreases b.len(),
{
    if b.len() == 0 {
        Some(Seq::empty())
    } else if b.len() < 4 {
        None
    } else {
        let key_len = spec_u32_from_le_bytes(b.subrange(0, 4)) as int;
        if b.len() < 4 + key_len + 8 {
            None
        } else {
            let key = b.subrange(4, 4 + key_len);
            let offset = spec_u64_from_le_bytes(b.subrange(4 + key_len, 12 + key_len));
            match parse_index(b.subrange(12 + key_len, b.len() as int)) {
                Some(rest) => Some(seq![(key, offset)] + rest),
                None => None,
            }
        }
    }
}

/// The index as a map. Where a key stands twice, the later entry counts.
pub open spec fn index_map(ix: Seq<IndexEntry>) -> Map<Seq<u8>, u64>
    decreases ix.len(),
{
    if ix.len() == 0 {
        Map::empty()
    } else {
        index_map(ix.drop_last()).insert(ix.last().0, ix.last().1)
    }
}

/// The bytes of an image where its footer says the index lies.
pub open spec fn index_bytes(image: Seq<u8>) -> Seq<u8> {
    let f = footer_of(image);
    image.subrange(f.index_offset as int, f.index_offset + f.index_len)
}

/// The image is framed as a table: it ends in a footer with the magic
/// number, the index lies inside the image, and the index bytes are whole
/// entries.
pub open spec fn well_framed(image: Seq<u8>) -> bool {
    &&& image.len() >= FOOTER_SIZE
    &&& footer_of(image).magic == MAGIC_NUMBER
    &&& footer_of(image).index_offset + footer_of(image).index_len <= image.len()
    &&& parse_index(index_bytes(image)) is Some
}

/// The index of a framed image, from key to record offset.
pub open spec fn table_index(image: Seq<u8>) -> Map<Seq<u8>, u64> {
    index_map(parse_index(index_bytes(image)).unwrap())
}

/// What the record at `offset` holds for `key`, or `None` where the record
/// runs past the end of the image or carries another key. A flag of 1 makes
/// it a deletion marker, whatever payload stands before the flag.
pub open spec fn read_record(image: Seq<u8>, offset: u64, key: Seq<u8>) -> Option<ValueView> {
    let at_key = offset + 4;
    if at_key > image.len() {
        None
    } else {
        let key_len = spec_u32_from_le_bytes(image.subrange(offset as int, at_key)) as int;
        let at_len = at_key + key_len;
        if at_len + 4 > image.len() || image.subrange(at_key, at_len) != key {
            None
        } else {
            let value_len = spec_u32_from_le_bytes(image.subrange(at_len, at_len + 4)) as int;
            let at_flag = at_len + 4 + value_len;
            if at_flag + 1 > image.len() {
                None
            } else if image[at_flag] == 1 {
                Some(ValueView::Tombstone)
            } else {
                Some(ValueView::Stored(image.subrange(at_len + 4, at_flag)))
            }
        }
    }
}

/// What a lookup in a table comes to.
pub enum Lookup {
    /// The table has no entry for the key.
    Absent,
    /// The table holds this for the key.
    Present(ValueView),
    /// The index names a place where no record of the key stands.
    Corrupt,
}

/// What a framed image holds for `key`.
pub open spec fn table_lookup(image: Seq<u8>, key: Seq<u8>) -> Lookup {
    if !table_index(image).contains_key(key) {
        Lookup::Absent
    } else {
        match read_record(image, table_index(image)[key], key) {
            Some(v) => Lookup::Present(v),
            None => Lookup::Corrupt,
        }
    }
}

} // verus!
