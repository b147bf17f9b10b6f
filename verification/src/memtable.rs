//! The in-memory write buffer: keys in ascending byte order, each with a
//! stored payload or a deletion marker, and a running count of the bytes held.

use vstd::prelude::*;
use vstd::std_specs::iter::IteratorSpec;
use crate::ordered::{
    as_map, lemma_as_map_at, lemma_as_map_len, lemma_ascending_is_unique, lemma_fits_at_absent,
    lemma_insert_entry, lemma_update_entry, locate, strictly_ascending,
};

verus! {

/// What a key holds in the buffer or in a table.
#[derive(Debug, Clone, PartialEq, Eq)]
pub enum Value {
    /// A payload.
    Stored(Vec<u8>),
    /// The mark of a deletion.
    Tombstone,
}

/// A `Value` as the contracts see it.
pub enum ValueView {
    Stored(Seq<u8>),
    Tombstone,
}

impl View for Value {
    type V = ValueView;

    open spec fn view(&self) -> ValueView {
        match self {
            Value::Stored(bytes) => ValueView::Stored(bytes@),
            Value::Tombstone => ValueView::Tombstone,
        }
    }
}

/// One key with what it holds.
pub type Entry = (Seq<u8>, ValueView);

/// The payload bytes that a value counts for: none for a deletion marker.
pub open spec fn payload_len(v: ValueView) -> nat {
    match v {
        ValueView::Stored(bytes) => bytes.len(),
        ValueView::Tombstone => 0,
    }
}

/// The key bytes and payload bytes of all entries together.
pub open spec fn total_bytes(s: Seq<Entry>) -> nat
    decreases s.len(),
{
    if s.len() == 0 {
        0
    } else {
        total_bytes(s.drop_last()) + s.last().0.len() + payload_len(s.last().1)
    }
}

/// The byte count after an entry is put in at a position.
pub proof fn lemma_total_bytes_insert(s: Seq<Entry>, pos: int, e: Entry)
    requires
        0 <= pos <= s.len(),
    ensures
        total_bytes(s.insert(pos, e)) == total_bytes(s) + e.0.len() + payload_len(e.1),
    decreases s.len(),
{
    let t = s.insert(pos, e);
    if pos == s.len() {
        assert(t.drop_last() =~= s);
    } else {
        assert(t.drop_last() =~= s.drop_last().insert(pos, e));
        lemma_total_bytes_insert(s.drop_last(), pos, e);
    }
}

/// The byte count after the entry at a position is replaced.
pub proof fn lemma_total_bytes_update(s: Seq<Entry>, pos: int, e: Entry)
    requires
        0 <= pos < s.len(),
    ensures
        total_bytes(s.update(pos, e)) + s[pos].0.len() + payload_len(s[pos].1) == total_bytes(s)
            + e.0.len() + payload_len(e.1),
    decreases s.len(),
{
    let t = s.update(pos, e);
    if pos == s.len() - 1 {
        assert(t.drop_last() =~= s.drop_last());
    } else {
        assert(t.drop_last() =~= s.drop_last().update(pos, e));
        lemma_total_bytes_update(s.drop_last(), pos, e);
    }
}

/// The byte count of a sequence covers each of its entries.
pub proof fn lemma_total_bytes_bounds(s: Seq<Entry>, pos: int)
    requires
        0 <= pos < s.len(),
    ensures
        s[pos].0.len() + payload_len(s[pos].1) <= total_bytes(s),
    decreases s.len(),
{
    if pos < s.len() - 1 {
        lemma_total_bytes_bounds(s.drop_last(), pos);
    }
}

/// An entry of the buffer as the contracts see it.
pub open spec fn entry_view(e: (Vec<u8>, Value)) -> Entry {
    (e.0@, e.1@)
}

/// The write buffer.
pub struct Memtable {
    /// The entries, keys in strictly ascending order.
    data: Vec<(Vec<u8>, Value)>,
    /// The key and payload bytes held.
    size_bytes: usize,
}

impl View for Memtable {
    type V = Map<Seq<u8>, ValueView>;

    /// The buffer as a map from key to what the key holds.
    open spec fn view(&self) -> Map<Seq<u8>, ValueView> {
        as_map(self.entries())
    }
}

impl Memtable {
    /// The entries in the order in which the buffer keeps them.
    pub closed spec fn entries(&self) -> Seq<Entry> {
        self.data@.map_values(|e: (Vec<u8>, Value)| entry_view(e))
    }

    /// The byte count that the buffer reports.
    pub closed spec fn counted(&self) -> nat {
        self.size_bytes as nat
    }

    /// The buffer is in order: keys ascend strictly, and the byte count is
    /// that of the entries held.
    pub open spec fn wf(&self) -> bool {
        &&& strictly_ascending(self.entries())
        &&& self.counted() == total_bytes(self.entries())
    }

    /// The byte count after `key` is given the payload `value`: a key already
    /// held gives up the payload it had, a new key adds its own length.
    pub open spec fn size_after_put(&self, key: Seq<u8>, value: Seq<u8>) -> int {
        if self@.contains_key(key) {
            self.counted() - payload_len(self@[key]) + value.len()
        } else {
            (self.counted() + key.len() + value.len()) as int
        }
    }

    /// The byte count after `key` is deleted: a stored payload is given up, a
    /// key not held before adds its own length, a deleted key changes nothing.
    pub open spec fn size_after_delete(&self, key: Seq<u8>) -> int {
        if self@.contains_key(key) {
            self.counted() - payload_len(self@[key])
        } else {
            (self.counted() + key.len()) as int
        }
    }

    /// An empty buffer.
    pub fn new() -> (m: Memtable)
        ensures
            m.wf(),
            m.entries() == Seq::<Entry>::empty(),
            m.counted() == 0,
    {
        Memtable { data: Vec::new(), size_bytes: 0 }
    }

    /// Gives `key` the payload `value`, whether or not the buffer held the key.
    pub fn put(&mut self, key: Vec<u8>, value: Vec<u8>)
        requires
            old(self).wf(),
            old(self).size_after_put(key@, value@) <= usize::MAX,
        ensures
            final(self).wf(),
            final(self)@ == old(self)@.insert(key@, ValueView::Stored(value@)),
            final(self).counted() == old(self).size_after_put(key@, value@),
    {
        let ghost s = self.entries();
        let ghost e = (key@, ValueView::Stored(value@));
        let (pos, found) = locate::<Value, ValueView>(&self.data, key.as_slice(), Ghost(s));
        if found {
            proof {
                lemma_update_entry(s, pos as int, e.1);
                lemma_as_map_at(s, pos as int);
                lemma_total_bytes_update(s, pos as int, e);
                lemma_total_bytes_bounds(s, pos as int);
            }
            match &self.data[pos].1 {
                Value::Stored(previous) => {
                    self.size_bytes = self.size_bytes - previous.len();
                },
                Value::Tombstone => {},
            }
            self.size_bytes = self.size_bytes + value.len();
            self.data.set(pos, (key, Value::Stored(value)));
            assert(self.entries() =~= s.update(pos as int, e));
        } else {
            proof {
                lemma_insert_entry(s, pos as int, e.0, e.1);
                lemma_total_bytes_insert(s, pos as int, e);
            }
            self.size_bytes = self.size_bytes + (key.len() + value.len());
            self.data.insert(pos, (key, Value::Stored(value)));
            assert(self.entries() =~= s.insert(pos as int, e));
        }
    }

    /// What `key` holds: a payload, a deletion marker, or nothing at all.
    pub fn get(&self, key: &[u8]) -> (r: Option<&Value>)
        requires
            self.wf(),
        ensures
            r is Some <==> self@.contains_key(key@),
            r matches Some(v) ==> v@ == self@[key@],
    {
        let (pos, found) = locate::<Value, ValueView>(&self.data, key, Ghost(self.entries()));
        if found {
            proof {
                lemma_as_map_at(self.entries(), pos as int);
            }
            Some(&self.data[pos].1)
        } else {
            proof {
                lemma_fits_at_absent(self.entries(), pos as int, key@);
            }
            None
        }
    }

    /// Marks `key` as deleted. A key that is marked already stays as it is.
    pub fn delete(&mut self, key: Vec<u8>)
        requires
            old(self).wf(),
            old(self).size_after_delete(key@) <= usize::MAX,
        ensures
            final(self).wf(),
            final(self)@ == old(self)@.insert(key@, ValueView::Tombstone),
            final(self).counted() == old(self).size_after_delete(key@),
            old(self)@.contains_key(key@) && old(self)@[key@] == ValueView::Tombstone ==> {
                &&& final(self).entries() == old(self).entries()
                &&& final(self).counted() == old(self).counted()
            },
    {
        let ghost s = self.entries();
        let ghost e = (key@, ValueView::Tombstone);
        let (pos, found) = locate::<Value, ValueView>(&self.data, key.as_slice(), Ghost(s));
        if found {
            proof {
                lemma_update_entry(s, pos as int, e.1);
                lemma_as_map_at(s, pos as int);
                lemma_total_bytes_update(s, pos as int, e);
                lemma_total_bytes_bounds(s, pos as int);
            }
            match &self.data[pos].1 {
                Value::Stored(previous) => {
                    self.size_bytes = self.size_bytes - previous.len();
                },
                Value::Tombstone => {
                    return;
                },
            }
            self.data.set(pos, (key, Value::Tombstone));
            assert(self.entries() =~= s.update(pos as int, e));
        } else {
            proof {
                lemma_insert_entry(s, pos as int, e.0, e.1);
                lemma_total_bytes_insert(s, pos as int, e);
            }
            self.size_bytes = self.size_bytes + key.len();
            self.data.insert(pos, (key, Value::Tombstone));
            assert(self.entries() =~= s.insert(pos as int, e));
        }
    }

    /// The entries one after another, keys in ascending byte order. The last
    /// two clauses let a `for` loop walk the result.
    pub fn iter(&self) -> (it: std::slice::Iter<'_, (Vec<u8>, Value)>)
        requires
            self.wf(),
        ensures
            it.remaining().len() == self.entries().len(),
            forall|i: int|
                0 <= i < self.entries().len() ==> entry_view(*#[trigger] it.remaining()[i])
                    == self.entries()[i],
            strictly_ascending(self.entries()),
            it.initial_value_relation(&it),
            it.decrease() is Some,
    {
        let items = self.data.as_slice();
        let it = items.iter();
        proof {
            vstd::std_specs::slice::axiom_spec_slice_iter(items);
        }
        it
    }

    /// Whether `put` can count the bytes of this key and value: whether the
    /// byte count stays in the range of `usize`.
    pub fn put_fits(&self, key: &[u8], value: &[u8]) -> (b: bool)
        requires
            self.wf(),
        ensures
            b == (self.size_after_put(key@, value@) <= usize::MAX),
    {
        match self.get(key) {
            Some(previous) => {
                let held: usize = match previous {
                    Value::Stored(bytes) => bytes.len(),
                    Value::Tombstone => 0,
                };
                proof {
                    self.lemma_counted_covers(key@);
                }
                value.len() <= usize::MAX - (self.size_bytes - held)
            },
            None => key.len() <= usize::MAX - self.size_bytes && value.len() <= usize::MAX
                - self.size_bytes - key.len(),
        }
    }

    /// Whether `delete` can count the bytes of this key: whether the byte
    /// count stays in the range of `usize`.
    pub fn delete_fits(&self, key: &[u8]) -> (b: bool)
        requires
            self.wf(),
        ensures
            b == (self.size_after_delete(key@) <= usize::MAX),
    {
        match self.get(key) {
            Some(_) => true,
            None => key.len() <= usize::MAX - self.size_bytes,
        }
    }

    /// The map says all there is to say of a buffer in order: two buffers
    /// with one map hold the same entries in the same order, and count the
    /// same bytes.
    pub proof fn lemma_view_decides(&self, other: &Memtable)
        requires
            self.wf(),
            other.wf(),
            self@ == other@,
        ensures
            self.entries() == other.entries(),
            self.counted() == other.counted(),
    {
        lemma_ascending_is_unique(self.entries(), other.entries());
    }

    /// The byte count covers the payload of every key held.
    pub proof fn lemma_counted_covers(&self, key: Seq<u8>)
        requires
            self.wf(),
            self@.contains_key(key),
        ensures
            key.len() + payload_len(self@[key]) <= self.counted(),
    {
        let s = self.entries();
        let i = choose|i: int| 0 <= i < s.len() && #[trigger] s[i].0 == key;
        lemma_as_map_at(s, i);
        lemma_total_bytes_bounds(s, i);
    }

    /// The number of keys held, deleted ones included.
    pub fn len(&self) -> (n: usize)
        requires
            self.wf(),
        ensures
            n == self.entries().len(),
            n == self@.dom().len(),
    {
        proof {
            lemma_as_map_len(self.entries());
        }
        self.data.len()
    }

    /// Whether the buffer holds no key at all.
    pub fn is_empty(&self) -> (b: bool)
        requires
            self.wf(),
        ensures
            b == (self.entries().len() == 0),
            b == (self@ == Map::<Seq<u8>, ValueView>::empty()),
    {
        proof {
            lemma_as_map_len(self.entries());
            if self.entries().len() == 0 {
                assert(self@ =~= Map::<Seq<u8>, ValueView>::empty());
            } else {
                lemma_as_map_at(self.entries(), 0);
            }
        }
        self.data.is_empty()
    }

    /// The key and payload bytes held.
    pub fn size_bytes(&self) -> (n: usize)
        ensures
            n == self.counted(),
            self.wf() ==> n == total_bytes(self.entries()),
    {
        self.size_bytes
    }
}

impl<'a> IntoIterator for &'a Memtable {
    type Item = &'a (Vec<u8>, Value);

    type IntoIter = std::slice::Iter<'a, (Vec<u8>, Value)>;

    /// The entries one after another, keys in ascending byte order.
    fn into_iter(self) -> (it: std::slice::Iter<'a, (Vec<u8>, Value)>)
        ensures
            it.remaining().len() == self.entries().len(),
            forall|i: int|
                0 <= i < self.entries().len() ==> entry_view(*#[trigger] it.remaining()[i])
                    == self.entries()[i],
    {
        let items = self.data.as_slice();
        let it = items.iter();
        proof {
            vstd::std_specs::slice::axiom_spec_slice_iter(items);
        }
        it
    }
}

impl Default for Memtable {
    /// An empty buffer.
    fn default() -> (m: Memtable)
        ensures
            m.wf(),
            m.entries() == Seq::<Entry>::empty(),
            m.counted() == 0,
    {
        Memtable::new()
    }
}

} // verus!
