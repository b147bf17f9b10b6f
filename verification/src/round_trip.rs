//! What the builder writes, the reader reads back: the proofs that tie the
//! layout of a table to its framing and lookup.

use vstd::bytes::{
    lemma_auto_spec_u32_to_from_le_bytes, lemma_auto_spec_u64_to_from_le_bytes,
    spec_u32_to_le_bytes, spec_u64_to_le_bytes,
};
use vstd::prelude::*;
use crate::format::{
    data_region, footer_bytes, footer_of, index_bytes, index_entry_bytes, index_map, index_of,
    index_region, parse_index, payload, read_record, record_bytes, table_image, table_index,
    table_lookup, well_framed, Footer, IndexEntry, Lookup, FOOTER_SIZE,
    MAGIC_NUMBER,
};
use crate::memtable::{lemma_total_bytes_bounds, total_bytes, Entry};
use crate::ordered::{as_map, has_key, lemma_as_map_at, lemma_insert_entry, strictly_ascending};

verus! {

/// The entries can be written without loss: every length and offset fits the
/// field that the layout gives it.
pub open spec fn fits_format(s: Seq<Entry>) -> bool {
    &&& forall|i: int|
        0 <= i < s.len() ==> (#[trigger] s[i]).0.len() <= u32::MAX && payload(s[i].1).len()
            <= u32::MAX
    &&& s.len() <= u32::MAX
    &&& data_region(s).len() <= u64::MAX
    &&& index_region(index_of(s)).len() <= u32::MAX
}

/// A part of a part: where `whole` holds `part` from `at` on, a range of
/// `part` is the range of `whole` moved by `at`.
proof fn lemma_subrange_within(whole: Seq<u8>, at: int, part: Seq<u8>, a: int, b: int)
    requires
        0 <= at,
        at + part.len() <= whole.len(),
        whole.subrange(at, at + part.len()) == part,
        0 <= a <= b <= part.len(),
    ensures
        whole.subrange(at + a, at + b) == part.subrange(a, b),
{
}

/// The length of a record.
pub proof fn lemma_record_len(e: Entry)
    ensures
        record_bytes(e).len() == 9 + e.0.len() + payload(e.1).len(),
{
    lemma_auto_spec_u32_to_from_le_bytes();
}

/// The length of an index entry.
pub proof fn lemma_index_entry_len(e: IndexEntry)
    ensures
        index_entry_bytes(e).len() == 12 + e.0.len(),
{
    lemma_auto_spec_u32_to_from_le_bytes();
    lemma_auto_spec_u64_to_from_le_bytes();
}

/// The records of the first `i + 1` entries are those of the first `i`
/// followed by the record of entry `i`.
pub proof fn lemma_data_region_step(s: Seq<Entry>, i: int)
    requires
        0 <= i < s.len(),
    ensures
        data_region(s.take(i + 1)) == data_region(s.take(i)) + record_bytes(s[i]),
{
    assert(s.take(i + 1).drop_last() =~= s.take(i));
}

/// The records of the first `j` entries open the data region.
pub proof fn lemma_data_region_prefix(s: Seq<Entry>, j: int)
    requires
        0 <= j <= s.len(),
    ensures
        data_region(s.take(j)).len() <= data_region(s).len(),
        data_region(s).subrange(0, data_region(s.take(j)).len() as int) == data_region(s.take(j)),
    decreases s.len() - j,
{
    if j == s.len() {
        assert(s.take(j) =~= s);
    } else {
        lemma_data_region_prefix(s, j + 1);
        lemma_data_region_step(s, j);
        let shorter = data_region(s.take(j));
        let longer = data_region(s.take(j + 1));
        assert(data_region(s).subrange(0, shorter.len() as int) =~= longer.subrange(
            0,
            shorter.len() as int,
        ));
    }
}

/// In the data region the record of entry `i` stands where the index says.
pub proof fn lemma_record_in_place(s: Seq<Entry>, i: int)
    requires
        0 <= i < s.len(),
    ensures
        data_region(s.take(i)).len() + record_bytes(s[i]).len() <= data_region(s).len(),
        data_region(s).subrange(
            data_region(s.take(i)).len() as int,
            (data_region(s.take(i)).len() + record_bytes(s[i]).len()) as int,
        ) == record_bytes(s[i]),
{
    lemma_data_region_prefix(s, i + 1);
    lemma_data_region_step(s, i);
    let before = data_region(s.take(i));
    let upto = data_region(s.take(i + 1));
    let rec = record_bytes(s[i]);
    assert(data_region(s).subrange(before.len() as int, (before.len() + rec.len()) as int)
        =~= data_region(s).subrange(0, upto.len() as int).subrange(
        before.len() as int,
        upto.len() as int,
    ));
}

/// An index region begins with its first entry.
pub proof fn lemma_index_region_front(ix: Seq<IndexEntry>)
    requires
        ix.len() > 0,
    ensures
        index_region(ix) == index_entry_bytes(ix[0]) + index_region(ix.drop_first()),
    decreases ix.len(),
{
    if ix.len() == 1 {
        assert(ix.drop_last() =~= Seq::<IndexEntry>::empty());
        assert(ix.drop_first() =~= Seq::<IndexEntry>::empty());
    } else {
        lemma_index_region_front(ix.drop_last());
        assert(ix.drop_last().drop_first() =~= ix.drop_first().drop_last());
    }
}

/// An index region is read back as the entries it was written from.
pub proof fn lemma_parse_index_region(ix: Seq<IndexEntry>)
    requires
        forall|i: int| 0 <= i < ix.len() ==> (#[trigger] ix[i]).0.len() <= u32::MAX,
    ensures
        parse_index(index_region(ix)) == Some(ix),
    decreases ix.len(),
{
    if ix.len() > 0 {
        lemma_auto_spec_u32_to_from_le_bytes();
        lemma_auto_spec_u64_to_from_le_bytes();
        lemma_index_region_front(ix);
        let e = ix[0];
        let rest = ix.drop_first();
        let b = index_region(ix);
        let n = e.0.len() as int;
        assert(b.subrange(0, 4) =~= spec_u32_to_le_bytes(n as u32));
        assert(b.subrange(4, 4 + n) =~= e.0);
        assert(b.subrange(4 + n, 12 + n) =~= spec_u64_to_le_bytes(e.1));
        assert(b.subrange(12 + n, b.len() as int) =~= index_region(rest));
        lemma_parse_index_region(rest);
    }
}

/// An index with ascending keys is, as a map, what its entries say.
pub proof fn lemma_index_map_of_ascending(ix: Seq<IndexEntry>)
    requires
        strictly_ascending(ix),
    ensures
        index_map(ix) == as_map(ix),
    decreases ix.len(),
{
    if ix.len() > 0 {
        let front = ix.drop_last();
        let e = ix.last();
        lemma_index_map_of_ascending(front);
        lemma_insert_entry(front, front.len() as int, e.0, e.1);
        assert(front.insert(front.len() as int, e) =~= ix);
    }
}

/// The footer of a laid-out table gives back what was written into it.
pub proof fn lemma_footer_of_image(s: Seq<Entry>)
    requires
        fits_format(s),
    ensures
        table_image(s).len() == data_region(s).len() + index_region(index_of(s)).len()
            + FOOTER_SIZE,
        footer_of(table_image(s)) == (Footer {
            index_offset: data_region(s).len() as u64,
            index_len: index_region(index_of(s)).len() as u32,
            num_entries: s.len() as u32,
            magic: MAGIC_NUMBER,
        }),
{
    lemma_auto_spec_u32_to_from_le_bytes();
    lemma_auto_spec_u64_to_from_le_bytes();
    let data = data_region(s);
    let index = index_region(index_of(s));
    let off = data.len() as u64;
    let len = index.len() as u32;
    let n = s.len() as u32;
    let footer = footer_bytes(off, len, n);
    let image = table_image(s);
    let start = image.len() - FOOTER_SIZE;
    assert(image.subrange(start, start + 32) =~= footer);
    lemma_subrange_within(image, start, footer, 0, 8);
    lemma_subrange_within(image, start, footer, 8, 12);
    lemma_subrange_within(image, start, footer, 12, 16);
    lemma_subrange_within(image, start, footer, 16, 24);
    assert(footer.subrange(0, 8) =~= spec_u64_to_le_bytes(off));
    assert(footer.subrange(8, 12) =~= spec_u32_to_le_bytes(len));
    assert(footer.subrange(12, 16) =~= spec_u32_to_le_bytes(n));
    assert(footer.subrange(16, 24) =~= spec_u64_to_le_bytes(MAGIC_NUMBER));
}

/// A record that stands whole in an image is read back as the entry it was
/// written from.
pub proof fn lemma_read_record_in_image(image: Seq<u8>, at: int, e: Entry)
    requires
        0 <= at <= u64::MAX,
        at + record_bytes(e).len() <= image.len(),
        image.subrange(at, at + record_bytes(e).len()) == record_bytes(e),
        e.0.len() <= u32::MAX,
        payload(e.1).len() <= u32::MAX,
    ensures
        read_record(image, at as u64, e.0) == Some(e.1),
{
    lemma_auto_spec_u32_to_from_le_bytes();
    lemma_record_len(e);
    let rec = record_bytes(e);
    let k = e.0.len() as int;
    let v = payload(e.1).len() as int;
    lemma_subrange_within(image, at, rec, 0, 4);
    lemma_subrange_within(image, at, rec, 4, 4 + k);
    lemma_subrange_within(image, at, rec, 4 + k, 8 + k);
    lemma_subrange_within(image, at, rec, 8 + k, 8 + k + v);
    assert(rec.subrange(0, 4) =~= spec_u32_to_le_bytes(k as u32));
    assert(rec.subrange(4, 4 + k) =~= e.0);
    assert(rec.subrange(4 + k, 8 + k) =~= spec_u32_to_le_bytes(v as u32));
    assert(rec.subrange(8 + k, 8 + k + v) =~= payload(e.1));
    assert(image.subrange(at, at + rec.len())[8 + k + v] == image[at + 8 + k + v]);
}

/// The index that belongs to ascending entries has the same keys in the
/// same order.
pub proof fn lemma_index_of_ascending(s: Seq<Entry>)
    requires
        strictly_ascending(s),
    ensures
        strictly_ascending(index_of(s)),
        forall|k: Seq<u8>| has_key(index_of(s), k) <==> has_key(s, k),
{
    let ix = index_of(s);
    assert forall|k: Seq<u8>| has_key(ix, k) <==> has_key(s, k) by {
        if has_key(s, k) {
            let i = choose|i: int| 0 <= i < s.len() && #[trigger] s[i].0 == k;
            assert(ix[i].0 == k);
        }
    }
}

/// A table laid out from ascending entries that fit the format is framed as
/// a table, counts its entries, and holds for every key what the entries
/// hold for it.
pub proof fn lemma_image_round_trip(s: Seq<Entry>, key: Seq<u8>)
    requires
        strictly_ascending(s),
        fits_format(s),
    ensures
        well_framed(table_image(s)),
        footer_of(table_image(s)).num_entries == s.len(),
        table_index(table_image(s)) == as_map(index_of(s)),
        table_lookup(table_image(s), key) == (if as_map(s).contains_key(key) {
            Lookup::Present(as_map(s)[key])
        } else {
            Lookup::Absent
        }),
{
    let data = data_region(s);
    let ix = index_of(s);
    let index = index_region(ix);
    let image = table_image(s);
    lemma_footer_of_image(s);
    assert(index_bytes(image) =~= index);
    lemma_parse_index_region(ix);
    lemma_index_of_ascending(s);
    lemma_index_map_of_ascending(ix);
    if as_map(s).contains_key(key) {
        let i = choose|i: int| 0 <= i < s.len() && #[trigger] s[i].0 == key;
        lemma_as_map_at(s, i);
        lemma_as_map_at(ix, i);
        lemma_data_region_prefix(s, i);
        lemma_record_in_place(s, i);
        let at = data_region(s.take(i)).len() as int;
        let rec = record_bytes(s[i]);
        assert(image.subrange(at, at + rec.len()) =~= data.subrange(at, at + rec.len()));
        lemma_read_record_in_image(image, at, s[i]);
    }
}

/// An image with its magic number written over.
pub open spec fn with_magic(image: Seq<u8>, magic: u64) -> Seq<u8>
    recommends
        image.len() >= FOOTER_SIZE,
{
    image.subrange(0, image.len() - 16) + spec_u64_to_le_bytes(magic) + image.subrange(
        image.len() - 8,
        image.len() as int,
    )
}

/// Whatever an image holds, with another magic number written over its own
/// it is not framed as a table.
pub proof fn lemma_other_magic_is_unframed(image: Seq<u8>, magic: u64)
    requires
        image.len() >= FOOTER_SIZE,
        magic != MAGIC_NUMBER,
    ensures
        with_magic(image, magic).len() == image.len(),
        footer_of(with_magic(image, magic)).magic == magic,
        !well_framed(with_magic(image, magic)),
{
    lemma_auto_spec_u64_to_from_le_bytes();
    let changed = with_magic(image, magic);
    let start = changed.len() - FOOTER_SIZE;
    assert(changed.subrange(start + 16, start + 24) =~= spec_u64_to_le_bytes(magic));
}

/// Entries that together hold no more than this many key and payload bytes
/// fit the format, whatever they are.
pub const LARGEST_SURE_FIT: usize = 330_382_098;

/// Ascending entries are at most one more than their bytes: only the first
/// key can be empty.
pub proof fn lemma_count_within_bytes(s: Seq<Entry>)
    requires
        strictly_ascending(s),
    ensures
        s.len() <= total_bytes(s) + 1,
    decreases s.len(),
{
    if s.len() >= 2 {
        let front = s.drop_last();
        lemma_count_within_bytes(front);
    }
}

/// The data region holds nine bytes of framing for each entry, and the
/// entries' bytes.
pub proof fn lemma_data_region_len(s: Seq<Entry>)
    ensures
        data_region(s).len() == 9 * s.len() + total_bytes(s),
    decreases s.len(),
{
    if s.len() > 0 {
        lemma_data_region_len(s.drop_last());
        lemma_record_len(s.last());
    }
}

/// The index region holds twelve bytes of framing for each entry, and the
/// keys.
pub proof fn lemma_index_region_len(s: Seq<Entry>)
    ensures
        index_region(index_of(s)).len() <= 12 * s.len() + total_bytes(s),
    decreases s.len(),
{
    if s.len() > 0 {
        let front = s.drop_last();
        lemma_index_region_len(front);
        assert forall|i: int| 0 <= i < front.len() implies #[trigger] front.take(i) == s.take(
            i,
        ) by {
        }
        assert(index_of(s).drop_last() =~= index_of(front));
        lemma_index_entry_len(index_of(s).last());
    }
}

/// Ascending entries of no more than `LARGEST_SURE_FIT` bytes fit the
/// format.
pub proof fn lemma_bounded_entries_fit(s: Seq<Entry>)
    requires
        strictly_ascending(s),
        total_bytes(s) <= LARGEST_SURE_FIT,
    ensures
        fits_format(s),
{
    lemma_count_within_bytes(s);
    lemma_data_region_len(s);
    lemma_index_region_len(s);
    assert forall|i: int| 0 <= i < s.len() implies (#[trigger] s[i]).0.len() <= u32::MAX
        && payload(s[i].1).len() <= u32::MAX by {
        lemma_total_bytes_bounds(s, i);
    }
}

} // verus!
