//! Longest-prefix matching over a map from component sequences to values,
//! and the laws the trie's two operations obey through it.
//!
//! A [`DirectoryTrie`](crate::DirectoryTrie) abstracts to a map from trie
//! keys (the components after the root component) to values; `insert` is map
//! insertion and `get` is [`lpm`]. The proof functions here pin down how the
//! two interact: what an insertion makes a later lookup return, and which
//! lookups it cannot change.

use vstd::prelude::*;

verus! {

/// The longest-prefix match: the value stored at the longest prefix of
/// `key` that the map holds, or nothing if no prefix of `key` (the empty
/// prefix, the root, included) is present.
pub open spec fn lpm<T>(m: Map<Seq<Seq<char>>, T>, key: Seq<Seq<char>>) -> Option<T>
    decreases key.len(),
{
    if m.contains_key(key) {
        Some(m[key])
    } else if key.len() == 0 {
        None
    } else {
        lpm(m, key.drop_last())
    }
}

/// A lookup in the empty map finds nothing, whatever the path.
pub proof fn lemma_lpm_empty<T>(key: Seq<Seq<char>>)
    ensures
        lpm(Map::<Seq<Seq<char>>, T>::empty(), key) is None,
    decreases key.len(),
{
    if key.len() > 0 {
        lemma_lpm_empty::<T>(key.drop_last());
    }
}

/// When `key.take(j)` is the longest prefix of `key` the map holds, the
/// lookup returns exactly its value.
pub proof fn lemma_lpm_longest<T>(m: Map<Seq<Seq<char>>, T>, key: Seq<Seq<char>>, j: int)
    requires
        0 <= j <= key.len(),
        m.contains_key(key.take(j)),
        forall|t: int| j < t <= key.len() ==> !m.contains_key(#[trigger] key.take(t)),
    ensures
        lpm(m, key) == Some(m[key.take(j)]),
    decreases key.len(),
{
    assert(key.take(key.len() as int) =~= key);
    if j == key.len() {
    } else {
        assert(!m.contains_key(key));
        let kd = key.drop_last();
        assert(kd =~= key.take(key.len() - 1));
        assert(kd.take(j) =~= key.take(j));
        assert forall|t: int| j < t <= kd.len() implies !m.contains_key(#[trigger] kd.take(t)) by {
            assert(kd.take(t) =~= key.take(t));
        }
        lemma_lpm_longest(m, kd, j);
    }
}

/// Exact round-trip: after associating `v` with a path, looking that very
/// path up returns `v`.
pub proof fn lemma_insert_then_get_exact<T>(m: Map<Seq<Seq<char>>, T>, key: Seq<Seq<char>>, v: T)
    ensures
        lpm(m.insert(key, v), key) == Some(v),
{
}

/// Longest-prefix inheritance: after associating `v` with a directory `d`,
/// any path below `d` with no more specific value present returns `v`.
pub proof fn lemma_value_inherited_below<T>(
    m: Map<Seq<Seq<char>>, T>,
    d: Seq<Seq<char>>,
    v: T,
    key: Seq<Seq<char>>,
)
    requires
        d.len() <= key.len(),
        key.take(d.len() as int) == d,
        forall|t: int| d.len() < t <= key.len() ==> !m.insert(d, v).contains_key(
            #[trigger] key.take(t),
        ),
    ensures
        lpm(m.insert(d, v), key) == Some(v),
{
    lemma_lpm_longest(m.insert(d, v), key, d.len() as int);
}

/// Absent ancestor yields nothing: when no prefix of the path (itself
/// included) is present, the lookup returns nothing.
pub proof fn lemma_no_ancestor_yields_none<T>(m: Map<Seq<Seq<char>>, T>, key: Seq<Seq<char>>)
    requires
        forall|t: int| 0 <= t <= key.len() ==> !m.contains_key(#[trigger] key.take(t)),
    ensures
        lpm(m, key) is None,
    decreases key.len(),
{
    assert(key.take(key.len() as int) =~= key);
    if key.len() == 0 {
    } else {
        let kd = key.drop_last();
        assert(kd =~= key.take(key.len() - 1));
        assert forall|t: int| 0 <= t <= kd.len() implies !m.contains_key(#[trigger] kd.take(t)) by {
            assert(kd.take(t) =~= key.take(t));
        }
        lemma_no_ancestor_yields_none(m, kd);
    }
}

/// The root is its own path: associating a value with any non-root path
/// leaves the root's lookup unchanged.
pub proof fn lemma_root_value_independent<T>(m: Map<Seq<Seq<char>>, T>, key: Seq<Seq<char>>, v: T)
    requires
        key.len() > 0,
    ensures
        lpm(m.insert(key, v), Seq::empty()) == lpm(m, Seq::empty()),
{
}

/// Insertion order does not matter for distinct paths: inserting at `a`
/// then `b` answers every lookup as inserting at `b` then `a` does.
pub proof fn lemma_disjoint_insert_order<T>(
    m: Map<Seq<Seq<char>>, T>,
    a: Seq<Seq<char>>,
    va: T,
    b: Seq<Seq<char>>,
    vb: T,
    key: Seq<Seq<char>>,
)
    requires
        a != b,
    ensures
        lpm(m.insert(a, va).insert(b, vb), key) == lpm(m.insert(b, vb).insert(a, va), key),
{
    assert(m.insert(a, va).insert(b, vb) =~= m.insert(b, vb).insert(a, va));
}

/// Re-insertion at an ancestor preserves descendants: when some strictly
/// longer prefix of the path is present, associating a value with the
/// shorter path `p` cannot change what the path's lookup returns.
pub proof fn lemma_deeper_entry_shadows_insert<T>(
    m: Map<Seq<Seq<char>>, T>,
    p: Seq<Seq<char>>,
    v: T,
    key: Seq<Seq<char>>,
    j: int,
)
    requires
        p.len() < j <= key.len(),
        m.contains_key(key.take(j)),
    ensures
        lpm(m.insert(p, v), key) == lpm(m, key),
    decreases key.len(),
{
    let m2 = m.insert(p, v);
    assert(key.take(j).len() == j);
    if j == key.len() {
        assert(key.take(j) =~= key);
        assert(key != p);
    } else {
        assert(key.take(j) != key);
        if m.contains_key(key) {
            assert(key != p);
        } else {
            assert(p != key);
            assert(!m2.contains_key(key));
            let kd = key.drop_last();
            assert(kd =~= key.take(key.len() - 1));
            assert(kd.take(j) =~= key.take(j));
            lemma_deeper_entry_shadows_insert(m, p, v, kd, j);
        }
    }
}

} // verus!
