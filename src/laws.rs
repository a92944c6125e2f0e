//! Laws relating construction, insertion, lookup and emptiness, stated over
//! the model that the operations' contracts use: `t@` is the map from stored
//! paths to values, and `t.child_keys()` the keys of the root's children.
//!
//! `Trie::new` yields a trie with `t@` and `t.child_keys()` empty;
//! `t.insert(p, v)` turns `t@` into `t@.insert(p, v)` and adds `p[0]` to
//! `t.child_keys()` when `p` is not empty; `t.get(p)` returns the value that
//! `t@` holds at `p`; `t.is_empty()` is `t.child_keys().is_empty()`.
use crate::trie::Trie;
use std::hash::Hash;
use vstd::prelude::*;

verus! {

/// A fresh trie is empty, and it is no longer empty after a value has been
/// inserted at a path of at least one key.
pub proof fn lemma_fresh_then_insert_not_empty<K: Eq + Hash, V: Clone>(
    t: Trie<K, V>,
    path: Seq<K>,
    value: V,
)
    requires
        t@ == Map::<Seq<K>, V>::empty(),
        t.child_keys() == Set::<K>::empty(),
        path.len() > 0,
    ensures
        t.child_keys().is_empty(),
        !t.child_keys().insert(path[0]).is_empty(),
        exists|q: Seq<K>| q.len() > 0 && (#[trigger] t@.insert(path, value).contains_key(q)),
{
    assert(t.child_keys().insert(path[0]).contains(path[0]));
    assert(t@.insert(path, value).contains_key(path));
}

/// Getting a path right after inserting a value there yields that value.
pub proof fn lemma_insert_then_get<K: Eq + Hash, V: Clone>(t: Trie<K, V>, path: Seq<K>, value: V)
    ensures
        t@.insert(path, value).contains_key(path),
        t@.insert(path, value)[path] == value,
{
}

/// Inserting twice at one path keeps only the second value, for every path,
/// the empty one included.
pub proof fn lemma_insert_overwrites<K: Eq + Hash, V: Clone>(
    t: Trie<K, V>,
    path: Seq<K>,
    first: V,
    second: V,
)
    ensures
        t@.insert(path, first).insert(path, second) == t@.insert(path, second),
        t@.insert(path, first).insert(path, second)[path] == second,
{
    assert(t@.insert(path, first).insert(path, second) =~= t@.insert(path, second));
}

/// Inserting at one path leaves the lookup of every other path unchanged:
/// its prefixes, its extensions and the paths that branch off it.
pub proof fn lemma_insert_leaves_other_paths<K: Eq + Hash, V: Clone>(
    t: Trie<K, V>,
    path: Seq<K>,
    value: V,
    other: Seq<K>,
)
    requires
        other != path,
    ensures
        t@.insert(path, value).contains_key(other) == t@.contains_key(other),
        t@.contains_key(other) ==> t@.insert(path, value)[other] == t@[other],
{
}

/// A fresh trie holds no value at any path, the empty one included.
pub proof fn lemma_fresh_holds_nothing<K: Eq + Hash, V: Clone>(t: Trie<K, V>, path: Seq<K>)
    requires
        t@ == Map::<Seq<K>, V>::empty(),
    ensures
        !t@.contains_key(path),
{
}

/// Inserting at the empty path of a fresh trie stores a value at its root but
/// creates no child, so the trie is still reported empty.
pub proof fn lemma_root_value_keeps_empty<K: Eq + Hash, V: Clone>(t: Trie<K, V>, value: V)
    requires
        t@ == Map::<Seq<K>, V>::empty(),
        t.child_keys() == Set::<K>::empty(),
    ensures
        t.child_keys().is_empty(),
        t@.insert(Seq::empty(), value).contains_key(Seq::empty()),
        t@.insert(Seq::empty(), value)[Seq::empty()] == value,
{
}

} // verus!
