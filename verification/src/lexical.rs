//! Byte-lexicographic order on keys.

use vstd::prelude::*;

verus! {

/// `a` and `b` agree before position `i`, and at `i` the order is decided in
/// favour of `a`: either `a` ends there while `b` goes on, or `a` holds the
/// smaller byte.
pub open spec fn is_split(a: Seq<u8>, b: Seq<u8>, i: int) -> bool {
    &&& 0 <= i <= a.len()
    &&& i < b.len()
    &&& a.subrange(0, i) == b.subrange(0, i)
    &&& (i < a.len() ==> a[i] < b[i])
}

/// `a` sorts strictly before `b` in byte-lexicographic order.
pub open spec fn lex_lt(a: Seq<u8>, b: Seq<u8>) -> bool {
    exists|i: int| is_split(a, b, i)
}

/// How one key stands to another.
#[derive(Clone, Copy, Debug, PartialEq, Eq, Structural)]
pub enum KeyOrder {
    Before,
    Same,
    After,
}

/// Two keys that agree before a position agree at every index below it.
proof fn lemma_prefix_index(a: Seq<u8>, b: Seq<u8>, i: int, k: int)
    requires
        0 <= k < i <= a.len(),
        i <= b.len(),
        a.subrange(0, i) == b.subrange(0, i),
    ensures
        a[k] == b[k],
{
    assert(b.subrange(0, i)[k] == b[k]);
}

/// Two positions cannot decide the order in opposite directions.
proof fn lemma_splits_exclude(a: Seq<u8>, b: Seq<u8>, i: int, j: int)
    requires
        is_split(a, b, i),
    ensures
        !is_split(b, a, j),
{
    if is_split(b, a, j) {
        if i < j {
            lemma_prefix_index(b, a, j, i);
        } else if j < i {
            lemma_prefix_index(a, b, i, j);
        }
    }
}

/// The order is strict: no key sorts before itself.
pub proof fn lemma_lex_irreflexive(a: Seq<u8>)
    ensures
        !lex_lt(a, a),
{
    if lex_lt(a, a) {
        let i = choose|i: int| is_split(a, a, i);
        lemma_splits_exclude(a, a, i, i);
    }
}

/// The order is asymmetric: of two keys at most one sorts before the other.
pub proof fn lemma_lex_asymmetric(a: Seq<u8>, b: Seq<u8>)
    requires
        lex_lt(a, b),
    ensures
        !lex_lt(b, a),
        a != b,
{
    let i = choose|i: int| is_split(a, b, i);
    if lex_lt(b, a) {
        let j = choose|j: int| is_split(b, a, j);
        lemma_splits_exclude(a, b, i, j);
    }
    if a == b {
        lemma_lex_irreflexive(a);
    }
}

/// The order is transitive.
pub proof fn lemma_lex_transitive(a: Seq<u8>, b: Seq<u8>, c: Seq<u8>)
    requires
        lex_lt(a, b),
        lex_lt(b, c),
    ensures
        lex_lt(a, c),
{
    let i = choose|i: int| is_split(a, b, i);
    let j = choose|j: int| is_split(b, c, j);
    let k = if i <= j { i } else { j };
    assert(a.subrange(0, k) =~= c.subrange(0, k)) by {
        assert forall|n: int| 0 <= n < k implies a[n] == c[n] by {
            lemma_prefix_index(a, b, i, n);
            lemma_prefix_index(b, c, j, n);
        }
    }
    if i < j {
        lemma_prefix_index(b, c, j, i);
    } else if j < i {
        lemma_prefix_index(a, b, i, j);
    }
    assert(is_split(a, c, k));
}

/// The order is total: two different keys are ordered one way or the other.
pub proof fn lemma_lex_total(a: Seq<u8>, b: Seq<u8>)
    ensures
        lex_lt(a, b) || a == b || lex_lt(b, a),
    decreases a.len(),
{
    assert(a.subrange(0, 0) =~= b.subrange(0, 0));
    if a.len() == 0 {
        if b.len() > 0 {
            assert(is_split(a, b, 0));
        }
    } else if b.len() == 0 {
        assert(is_split(b, a, 0));
    } else if a[0] < b[0] {
        assert(is_split(a, b, 0));
    } else if b[0] < a[0] {
        assert(is_split(b, a, 0));
    } else {
        let ta = a.subrange(1, a.len() as int);
        let tb = b.subrange(1, b.len() as int);
        lemma_lex_total(ta, tb);
        if lex_lt(ta, tb) {
            let i = choose|i: int| is_split(ta, tb, i);
            lemma_split_shift(a, b, i);
        } else if lex_lt(tb, ta) {
            let i = choose|i: int| is_split(tb, ta, i);
            lemma_split_shift(b, a, i);
        } else {
            assert(ta.len() == a.len() - 1 && tb.len() == b.len() - 1);
            assert(a =~= b) by {
                assert forall|n: int| 0 <= n < a.len() implies a[n] == b[n] by {
                    if n > 0 {
                        assert(tb[n - 1] == b[n]);
                    }
                }
            }
        }
    }
}

/// A split of the tails of two keys with the same first byte is a split of
/// the keys, one position further on.
proof fn lemma_split_shift(a: Seq<u8>, b: Seq<u8>, i: int)
    requires
        a.len() > 0,
        b.len() > 0,
        a[0] == b[0],
        is_split(a.subrange(1, a.len() as int), b.subrange(1, b.len() as int), i),
    ensures
        is_split(a, b, i + 1),
{
    let ta = a.subrange(1, a.len() as int);
    let tb = b.subrange(1, b.len() as int);
    assert(a.subrange(0, i + 1) =~= b.subrange(0, i + 1)) by {
        assert forall|n: int| 0 <= n < i + 1 implies a[n] == b[n] by {
            if n > 0 {
                lemma_prefix_index(ta, tb, i, n - 1);
            }
        }
    }
}

/// Compares two keys byte by byte.
pub fn lex_order(a: &[u8], b: &[u8]) -> (r: KeyOrder)
    ensures
        r == KeyOrder::Before <==> lex_lt(a@, b@),
        r == KeyOrder::Same <==> a@ == b@,
        r == KeyOrder::After <==> lex_lt(b@, a@),
{
    let mut i: usize = 0;
    while i < a.len() && i < b.len()
        invariant
            i <= a.len(),
            i <= b.len(),
            a@.subrange(0, i as int) == b@.subrange(0, i as int),
        decreases a.len() - i,
    {
        if a[i] < b[i] {
            proof {
                assert(is_split(a@, b@, i as int));
                lemma_lex_asymmetric(a@, b@);
            }
            return KeyOrder::Before;
        }
        if b[i] < a[i] {
            proof {
                assert(is_split(b@, a@, i as int));
                lemma_lex_asymmetric(b@, a@);
            }
            return KeyOrder::After;
        }
        i += 1;
    }
    if i < b.len() {
        proof {
            assert(is_split(a@, b@, i as int));
            lemma_lex_asymmetric(a@, b@);
        }
        KeyOrder::Before
    } else if i < a.len() {
        proof {
            assert(is_split(b@, a@, i as int));
            lemma_lex_asymmetric(b@, a@);
        }
        KeyOrder::After
    } else {
        proof {
            assert(a@ =~= a@.subrange(0, i as int));
            assert(b@ =~= b@.subrange(0, i as int));
            lemma_lex_irreflexive(a@);
        }
        KeyOrder::Same
    }
}

} // verus!
