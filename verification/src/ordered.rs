//! Sequences of keyed entries kept in ascending key order, and the maps they
//! stand for.

use vstd::prelude::*;
use crate::lexical::{lemma_lex_asymmetric, lemma_lex_transitive, lex_lt, lex_order, KeyOrder};

verus! {

/// Each key sorts strictly before every key after it.
pub open spec fn strictly_ascending<V>(s: Seq<(Seq<u8>, V)>) -> bool {
    forall|i: int, j: int| 0 <= i < j < s.len() ==> lex_lt(#[trigger] s[i].0, #[trigger] s[j].0)
}

/// Some entry of `s` carries the key `k`.
pub open spec fn has_key<V>(s: Seq<(Seq<u8>, V)>, k: Seq<u8>) -> bool {
    exists|i: int| 0 <= i < s.len() && #[trigger] s[i].0 == k
}

/// The position of an entry of `s` that carries the key `k`.
pub open spec fn index_of_key<V>(s: Seq<(Seq<u8>, V)>, k: Seq<u8>) -> int {
    choose|i: int| 0 <= i < s.len() && #[trigger] s[i].0 == k
}

/// The entries as a map from key to what the key holds.
pub open spec fn as_map<V>(s: Seq<(Seq<u8>, V)>) -> Map<Seq<u8>, V> {
    Map::new(|k: Seq<u8>| has_key(s, k), |k: Seq<u8>| s[index_of_key(s, k)].1)
}

/// The key `k` belongs at position `pos` of `s`: every entry before it sorts
/// before `k`, every entry from there on sorts after `k`.
pub open spec fn fits_at<V>(s: Seq<(Seq<u8>, V)>, pos: int, k: Seq<u8>) -> bool {
    &&& 0 <= pos <= s.len()
    &&& forall|i: int| 0 <= i < pos ==> lex_lt(#[trigger] s[i].0, k)
    &&& forall|i: int| pos <= i < s.len() ==> lex_lt(k, #[trigger] s[i].0)
}

/// In an ascending sequence a key stands at one position only.
pub proof fn lemma_key_position_unique<V>(s: Seq<(Seq<u8>, V)>, i: int, j: int)
    requires
        strictly_ascending(s),
        0 <= i < s.len(),
        0 <= j < s.len(),
        s[i].0 == s[j].0,
    ensures
        i == j,
{
    if i < j {
        lemma_lex_asymmetric(s[i].0, s[j].0);
    } else if j < i {
        lemma_lex_asymmetric(s[j].0, s[i].0);
    }
}

/// The map of an ascending sequence holds, for the key at a position, what
/// stands at that position.
pub proof fn lemma_as_map_at<V>(s: Seq<(Seq<u8>, V)>, i: int)
    requires
        strictly_ascending(s),
        0 <= i < s.len(),
    ensures
        as_map(s).contains_key(s[i].0),
        as_map(s)[s[i].0] == s[i].1,
{
    lemma_key_position_unique(s, i, index_of_key(s, s[i].0));
}

/// A key that belongs between two entries is not among them.
pub proof fn lemma_fits_at_absent<V>(s: Seq<(Seq<u8>, V)>, pos: int, k: Seq<u8>)
    requires
        fits_at(s, pos, k),
    ensures
        !has_key(s, k),
{
    if has_key(s, k) {
        let i = index_of_key(s, k);
        if i < pos {
            lemma_lex_asymmetric(s[i].0, k);
        } else {
            lemma_lex_asymmetric(k, s[i].0);
        }
    }
}

/// Putting a new key in at the position where it belongs keeps the order and
/// adds exactly that key to the map.
pub proof fn lemma_insert_entry<V>(s: Seq<(Seq<u8>, V)>, pos: int, k: Seq<u8>, v: V)
    requires
        strictly_ascending(s),
        fits_at(s, pos, k),
    ensures
        strictly_ascending(s.insert(pos, (k, v))),
        !as_map(s).contains_key(k),
        as_map(s.insert(pos, (k, v))) == as_map(s).insert(k, v),
{
    let t = s.insert(pos, (k, v));
    lemma_fits_at_absent(s, pos, k);
    assert forall|q: Seq<u8>| has_key(t, q) <==> (q == k || has_key(s, q)) by {
        if q == k {
            assert(t[pos].0 == q);
        }
        if has_key(s, q) {
            let i = index_of_key(s, q);
            if i < pos {
                assert(t[i].0 == q);
            } else {
                assert(t[i + 1].0 == q);
            }
        }
    }
    assert forall|q: Seq<u8>| has_key(t, q) implies #[trigger] as_map(t)[q] == as_map(s).insert(
        k,
        v,
    )[q] by {
        let it = index_of_key(t, q);
        if q == k {
            lemma_key_position_unique(t, it, pos);
        } else {
            let i = index_of_key(s, q);
            let moved = if i < pos { i } else { i + 1 };
            lemma_key_position_unique(t, it, moved);
        }
    }
}

/// Replacing what a key holds keeps the order and changes the map at that
/// key only.
pub proof fn lemma_update_entry<V>(s: Seq<(Seq<u8>, V)>, pos: int, v: V)
    requires
        strictly_ascending(s),
        0 <= pos < s.len(),
    ensures
        strictly_ascending(s.update(pos, (s[pos].0, v))),
        as_map(s).contains_key(s[pos].0),
        as_map(s.update(pos, (s[pos].0, v))) == as_map(s).insert(s[pos].0, v),
{
    let k = s[pos].0;
    let t = s.update(pos, (k, v));
    lemma_as_map_at(s, pos);
    assert forall|q: Seq<u8>| has_key(t, q) <==> has_key(s, q) by {
        if has_key(s, q) {
            let i = index_of_key(s, q);
            assert(t[i].0 == q);
        }
    }
    assert forall|q: Seq<u8>| has_key(t, q) implies #[trigger] as_map(t)[q] == as_map(s).insert(
        k,
        v,
    )[q] by {
        let it = index_of_key(t, q);
        let i = index_of_key(s, q);
        lemma_key_position_unique(t, it, i);
    }
}

/// The map of an ascending sequence has as many keys as the sequence has
/// entries.
pub proof fn lemma_as_map_len<V>(s: Seq<(Seq<u8>, V)>)
    requires
        strictly_ascending(s),
    ensures
        as_map(s).dom().finite(),
        as_map(s).dom().len() == s.len(),
    decreases s.len(),
{
    if s.len() == 0 {
        assert(as_map(s).dom() =~= Set::<Seq<u8>>::empty());
    } else {
        let front = s.drop_last();
        let e = s.last();
        lemma_as_map_len(front);
        lemma_insert_entry(front, front.len() as int, e.0, e.1);
        assert(front.insert(front.len() as int, e) =~= s);
    }
}

/// What is left of an ascending sequence without its first entry is
/// ascending, and its map is the map without the first key.
pub proof fn lemma_as_map_drop_first<V>(s: Seq<(Seq<u8>, V)>)
    requires
        strictly_ascending(s),
        s.len() > 0,
    ensures
        strictly_ascending(s.drop_first()),
        as_map(s.drop_first()) == as_map(s).remove(s[0].0),
{
    let rest = s.drop_first();
    assert forall|q: Seq<u8>| has_key(rest, q) <==> (q != s[0].0 && has_key(s, q)) by {
        if has_key(rest, q) {
            let i = index_of_key(rest, q);
            if q == s[0].0 {
                lemma_key_position_unique(s, 0, i + 1);
            }
        }
        if q != s[0].0 && has_key(s, q) {
            let i = index_of_key(s, q);
            assert(rest[i - 1].0 == q);
        }
    }
    assert forall|q: Seq<u8>| has_key(rest, q) implies #[trigger] as_map(rest)[q] == as_map(
        s,
    )[q] by {
        let i = index_of_key(rest, q);
        lemma_as_map_at(s, i + 1);
    }
}

/// An ascending sequence is the only one that stands for its map: two
/// ascending sequences with one map are one sequence.
pub proof fn lemma_ascending_is_unique<V>(a: Seq<(Seq<u8>, V)>, b: Seq<(Seq<u8>, V)>)
    requires
        strictly_ascending(a),
        strictly_ascending(b),
        as_map(a) == as_map(b),
    ensures
        a == b,
    decreases a.len(),
{
    lemma_as_map_len(a);
    lemma_as_map_len(b);
    if a.len() > 0 {
        lemma_as_map_at(a, 0);
        lemma_as_map_at(b, 0);
        let j = index_of_key(b, a[0].0);
        if j > 0 {
            lemma_lex_asymmetric(b[0].0, a[0].0);
        }
        lemma_as_map_drop_first(a);
        lemma_as_map_drop_first(b);
        lemma_ascending_is_unique(a.drop_first(), b.drop_first());
        assert(b =~= seq![b[0]] + b.drop_first());
    }
}

/// Finds by bisection where `key` stands among the entries of `data`, or
/// where it belongs if no entry carries it. `s` is `data` as the caller's
/// contracts see it: the same keys in the same order.
pub(crate) fn locate<T, V>(
    data: &Vec<(Vec<u8>, T)>,
    key: &[u8],
    Ghost(s): Ghost<Seq<(Seq<u8>, V)>>,
) -> (r: (usize, bool))
    requires
        s.len() == data.len(),
        forall|i: int| 0 <= i < s.len() ==> #[trigger] s[i].0 == data@[i].0@,
        strictly_ascending(s),
    ensures
        r.0 <= s.len(),
        r.1 ==> r.0 < s.len() && s[r.0 as int].0 == key@,
        !r.1 ==> fits_at(s, r.0 as int, key@),
{
    let mut lo: usize = 0;
    let mut hi: usize = data.len();
    while lo < hi
        invariant
            lo <= hi <= data.len(),
            s.len() == data.len(),
            forall|i: int| 0 <= i < s.len() ==> #[trigger] s[i].0 == data@[i].0@,
            strictly_ascending(s),
            forall|i: int| 0 <= i < lo ==> lex_lt(#[trigger] s[i].0, key@),
            forall|i: int| hi <= i < s.len() ==> lex_lt(key@, #[trigger] s[i].0),
        decreases hi - lo,
    {
        let mid: usize = lo + (hi - lo) / 2;
        match lex_order(data[mid].0.as_slice(), key) {
            KeyOrder::Same => {
                return (mid, true);
            },
            KeyOrder::Before => {
                proof {
                    assert forall|i: int| 0 <= i < mid + 1 implies lex_lt(
                        #[trigger] s[i].0,
                        key@,
                    ) by {
                        if i < mid {
                            lemma_lex_transitive(s[i].0, s[mid as int].0, key@);
                        }
                    }
                }
                lo = mid + 1;
            },
            KeyOrder::After => {
                proof {
                    assert forall|i: int| mid <= i < s.len() implies lex_lt(
                        key@,
                        #[trigger] s[i].0,
                    ) by {
                        if mid < i {
                            lemma_lex_transitive(key@, s[mid as int].0, s[i].0);
                        }
                    }
                }
                hi = mid;
            },
        }
    }
    (lo, false)
}

} // verus!
