use std::collections::HashMap;
use std::hash::Hash;
use vstd::prelude::*;
use vstd::std_specs::hash::obeys_key_model;

verus! {

/// A node of the trie: the children keyed by the next segment of a path, and
/// the value stored for the path that ends here.
pub struct Trie<K, V> where K: Eq + Hash, V: Clone {
    nodes: HashMap<K, Trie<K, V>>,
    value: Option<V>,
}

impl<K, V> Trie<K, V> where K: Eq + Hash, V: Clone {
    /// The node reached by following `path` from this one, if every step exists.
    pub closed spec fn node_at(self, path: Seq<K>) -> Option<Trie<K, V>>
        decreases path.len(),
    {
        if path.len() == 0 {
            Some(self)
        } else if self.nodes@.contains_key(path[0]) {
            self.nodes@[path[0]].node_at(path.drop_first())
        } else {
            None
        }
    }

    /// The value stored for exactly `path`.
    pub closed spec fn lookup(self, path: Seq<K>) -> Option<V> {
        match self.node_at(path) {
            Some(n) => n.value,
            None => None,
        }
    }

    /// The keys of the immediate children of this node.
    pub closed spec fn child_keys(self) -> Set<K> {
        self.nodes@.dom()
    }

    /// Every node below this one lies on the way to some stored value, and the
    /// key type hashes and compares consistently.
    pub closed spec fn wf(self) -> bool {
        &&& obeys_key_model::<K>()
        &&& forall|p: Seq<K>|
            p.len() > 0 && (#[trigger] self.node_at(p)) is Some ==> exists|q: Seq<K>|
                (#[trigger] self.lookup(p + q)) is Some
    }

    /// Following `k` and then `p` is following `p` from the child at `k`.
    proof fn lemma_cons(self, k: K, p: Seq<K>)
        ensures
            self.node_at(seq![k] + p) == (if self.nodes@.contains_key(k) {
                self.nodes@[k].node_at(p)
            } else {
                None
            }),
            self.lookup(seq![k] + p) == (if self.nodes@.contains_key(k) {
                self.nodes@[k].lookup(p)
            } else {
                None
            }),
    {
        assert((seq![k] + p)[0] == k);
        assert((seq![k] + p).drop_first() =~= p);
    }

    /// A well-formed node's children are well-formed, and each holds a value
    /// somewhere below it.
    proof fn lemma_child_wf(self, k: K)
        requires
            self.wf(),
            self.nodes@.contains_key(k),
        ensures
            self.nodes@[k].wf(),
            exists|q: Seq<K>| (#[trigger] self.nodes@[k].lookup(q)) is Some,
    {
        let child = self.nodes@[k];
        assert forall|p: Seq<K>|
            p.len() > 0 && (#[trigger] child.node_at(p)) is Some implies exists|q: Seq<K>|
                (#[trigger] child.lookup(p + q)) is Some by {
            self.lemma_cons(k, p);
            assert(self.node_at(seq![k] + p) is Some);
            let q = choose|q: Seq<K>| (#[trigger] self.lookup((seq![k] + p) + q)) is Some;
            assert((seq![k] + p) + q =~= seq![k] + (p + q));
            self.lemma_cons(k, p + q);
            assert(child.lookup(p + q) is Some);
        }
        self.lemma_cons(k, Seq::empty());
        assert(seq![k] + Seq::<K>::empty() =~= seq![k]);
        assert(self.node_at(seq![k]) is Some);
        let q = choose|q: Seq<K>| (#[trigger] self.lookup(seq![k] + q)) is Some;
        self.lemma_cons(k, q);
        assert(child.lookup(q) is Some);
    }

    /// A node is well-formed when its children are well-formed and each holds
    /// a value somewhere below it.
    #[verifier::spinoff_prover]
    proof fn lemma_wf_from_children(self)
        requires
            obeys_key_model::<K>(),
            forall|k: K|
                #![trigger self.nodes@[k]]
                self.nodes@.contains_key(k) ==> {
                    &&& self.nodes@[k].wf()
                    &&& exists|q: Seq<K>| (#[trigger] self.nodes@[k].lookup(q)) is Some
                },
        ensures
            self.wf(),
    {
        assert forall|p: Seq<K>|
            p.len() > 0 && (#[trigger] self.node_at(p)) is Some implies exists|q: Seq<K>|
                (#[trigger] self.lookup(p + q)) is Some by {
            let k = p[0];
            let rest = p.drop_first();
            assert(p =~= seq![k] + rest);
            self.lemma_cons(k, rest);
            let child = self.nodes@[k];
            if rest.len() == 0 {
                let q = choose|q: Seq<K>| (#[trigger] child.lookup(q)) is Some;
                self.lemma_cons(k, q);
                assert(p + q =~= seq![k] + q);
                assert(self.lookup(p + q) is Some);
            } else {
                assert(child.node_at(rest) is Some);
                let q = choose|q: Seq<K>| (#[trigger] child.lookup(rest + q)) is Some;
                self.lemma_cons(k, rest + q);
                assert(p + q =~= seq![k] + (rest + q));
                assert(self.lookup(p + q) is Some);
            }
        }
    }

    /// Replacing the child at `k` by one that stores `value` at `rest` stores
    /// `value` at `k` followed by `rest`, and changes no other path.
    proof fn lemma_replace_child_lookup(
        old_t: Self,
        t: Self,
        k: K,
        old_child: Self,
        new_child: Self,
        rest: Seq<K>,
        value: V,
    )
        requires
            t.value == old_t.value,
            t.nodes@ == old_t.nodes@.insert(k, new_child),
            old_t.nodes@.contains_key(k) ==> old_child == old_t.nodes@[k],
            !old_t.nodes@.contains_key(k) ==> old_child@ == Map::<Seq<K>, V>::empty(),
            forall|q: Seq<K>|
                #[trigger] new_child.lookup(q) == (if q == rest {
                    Some(value)
                } else {
                    old_child.lookup(q)
                }),
        ensures
            forall|q: Seq<K>|
                #[trigger] t.lookup(q) == (if q == seq![k] + rest {
                    Some(value)
                } else {
                    old_t.lookup(q)
                }),
    {
        let path = seq![k] + rest;
        assert forall|q: Seq<K>|
            #[trigger] t.lookup(q) == (if q == path {
                Some(value)
            } else {
                old_t.lookup(q)
            }) by {
            if q.len() > 0 {
                let j = q[0];
                let tail = q.drop_first();
                assert(q =~= seq![j] + tail);
                t.lemma_cons(j, tail);
                old_t.lemma_cons(j, tail);
                if j == k {
                    if !old_t.nodes@.contains_key(k) {
                        assert(!old_child@.contains_key(tail));
                    }
                    if q == path {
                        assert(path.drop_first() =~= rest);
                    } else {
                        assert(tail != rest);
                    }
                } else {
                    assert(path[0] == k);
                }
            } else {
                assert(path.len() > 0);
            }
        }
    }

    /// Replacing a child of a well-formed node by a well-formed child that
    /// holds a value keeps the node well-formed.
    proof fn lemma_replace_child_wf(old_t: Self, t: Self, k: K, new_child: Self, rest: Seq<K>)
        requires
            old_t.wf(),
            t.nodes@ == old_t.nodes@.insert(k, new_child),
            new_child.wf(),
            new_child.lookup(rest) is Some,
        ensures
            t.wf(),
    {
        assert forall|j: K|
            #![trigger t.nodes@[j]]
            t.nodes@.contains_key(j) implies {
                &&& t.nodes@[j].wf()
                &&& exists|q: Seq<K>| (#[trigger] t.nodes@[j].lookup(q)) is Some
            } by {
            if j != k {
                old_t.lemma_child_wf(j);
            } else {
                assert(t.nodes@[j].lookup(rest) is Some);
            }
        }
        t.lemma_wf_from_children();
    }

    /// An empty trie: no children and no value.
    pub fn new() -> (t: Trie<K, V>)
        requires
            obeys_key_model::<K>(),
        ensures
            t.wf(),
            t@ == Map::<Seq<K>, V>::empty(),
            t.child_keys() == Set::<K>::empty(),
    {
        let t = Trie { nodes: HashMap::new(), value: None };
        proof {
            assert forall|p: Seq<K>| p.len() > 0 implies t.node_at(p) is None by {}
            assert(t@ =~= Map::<Seq<K>, V>::empty());
        }
        t
    }

    /// True when this node has no children. A value stored at this node itself
    /// does not count: only paths of one key or more do.
    pub fn is_empty(&self) -> (r: bool)
        requires
            self.wf(),
        ensures
            r == self.child_keys().is_empty(),
            r == (forall|p: Seq<K>| p.len() > 0 ==> !(#[trigger] self@.contains_key(p))),
    {
        let r = self.nodes.is_empty();
        proof {
            if !r {
                let k = self.nodes@.dom().choose();
                assert(self.nodes@.dom().contains(k));
                self.lemma_cons(k, Seq::empty());
                assert(seq![k] + Seq::<K>::empty() =~= seq![k]);
                let q = choose|q: Seq<K>| (#[trigger] self.lookup(seq![k] + q)) is Some;
                assert(self@.contains_key(seq![k] + q));
            } else {
                assert forall|p: Seq<K>| p.len() > 0 implies !(#[trigger] self@.contains_key(p)) by {
                    assert(!self.nodes@.contains_key(p[0]));
                }
            }
        }
        r
    }

    /// Stores `value` at the path held in reverse by `rev`, consuming it.
    fn insert_iter(&mut self, rev: &mut Vec<K>, value: V)
        requires
            old(self).wf(),
        ensures
            final(self).wf(),
            forall|q: Seq<K>|
                #[trigger] final(self).lookup(q) == (if q == old(rev)@.reverse() {
                    Some(value)
                } else {
                    old(self).lookup(q)
                }),
            final(self).child_keys() == (if old(rev)@.len() == 0 {
                old(self).child_keys()
            } else {
                old(self).child_keys().insert(old(rev)@.last())
            }),
        decreases old(rev)@.len(),
    {
        let ghost old_self = *self;
        let ghost path = rev@.reverse();
        match rev.pop() {
            None => {
                self.value = Some(value);
                proof {
                    assert(path =~= Seq::<K>::empty());
                    assert forall|q: Seq<K>|
                        #[trigger] self.lookup(q) == (if q == path {
                            Some(value)
                        } else {
                            old_self.lookup(q)
                        }) by {
                        if q.len() > 0 {
                            assert(self.node_at(q) == old_self.node_at(q));
                        } else {
                            assert(q =~= path);
                        }
                    }
                    assert forall|p: Seq<K>|
                        p.len() > 0 && (#[trigger] self.node_at(p)) is Some implies exists|
                            q: Seq<K>,
                        | (#[trigger] self.lookup(p + q)) is Some by {
                        assert(old_self.node_at(p) is Some);
                        let q = choose|q: Seq<K>| (#[trigger] old_self.lookup(p + q)) is Some;
                        assert(self.lookup(p + q) is Some);
                    }
                }
            },
            Some(k) => {
                proof {
                    assert(path =~= seq![k] + rev@.reverse());
                    if old_self.nodes@.contains_key(k) {
                        old_self.lemma_child_wf(k);
                    }
                }
                let mut child = match self.nodes.remove(&k) {
                    Some(c) => c,
                    None => Trie::new(),
                };
                let ghost old_child = child;
                let ghost rest = rev@.reverse();
                child.insert_iter(rev, value);
                let ghost new_child = child;
                self.nodes.insert(k, child);
                proof {
                    assert(self.nodes@ == old_self.nodes@.insert(k, new_child));
                    assert(self.child_keys() =~= old_self.child_keys().insert(k));
                    Self::lemma_replace_child_lookup(old_self, *self, k, old_child, new_child, rest, value);
                    Self::lemma_replace_child_wf(old_self, *self, k, new_child, rest);
                }
            },
        }
    }

    /// Stores `value` at `path`, replacing any value already stored there.
    /// Nodes missing along the path are created; no other node changes.
    pub fn insert(&mut self, path: Vec<K>, value: V)
        requires
            old(self).wf(),
        ensures
            final(self).wf(),
            final(self)@ == old(self)@.insert(path@, value),
            final(self).child_keys() == (if path@.len() == 0 {
                old(self).child_keys()
            } else {
                old(self).child_keys().insert(path@[0])
            }),
    {
        let ghost full = path@;
        let mut rev = reversed(path);
        proof {
            assert(rev@.reverse() =~= full);
            if full.len() > 0 {
                assert(full[0] == rev@[rev@.len() - 1]);
            }
        }
        let ghost pre = *self;
        self.insert_iter(&mut rev, value);
        assert(self@ =~= pre@.insert(full, value));
    }

    /// A trie that holds the given entries, inserted in order, so that a later
    /// entry overwrites an earlier one at the same path.
    pub fn from_entries(entries: Vec<(Vec<K>, V)>) -> (t: Trie<K, V>)
        requires
            obeys_key_model::<K>(),
        ensures
            t.wf(),
            t@ == entries_map(entries_view(entries@)),
    {
        let ghost full = entries_view(entries@);
        let ghost n = entries@.len();
        let mut rev = reversed(entries);
        let mut t = Trie::new();
        assert(full.take(0) =~= Seq::<(Seq<K>, V)>::empty());
        while rev.len() > 0
            invariant
                t.wf(),
                rev@.len() <= n,
                full.len() == n,
                forall|j: int|
                    0 <= j < rev@.len() ==> #[trigger] entries_view(rev@)[j] == full[n - 1 - j],
                t@ == entries_map(full.take(n - rev@.len())),
            decreases rev.len(),
        {
            let ghost i = n - rev@.len();
            let ghost before = rev@;
            match rev.pop() {
                Some(e) => {
                    proof {
                        assert(entries_view(before)[before.len() - 1] == full[i]);
                        assert(full.take(i + 1).drop_last() =~= full.take(i));
                        assert forall|j: int| 0 <= j < rev@.len() implies #[trigger] entries_view(
                            rev@,
                        )[j] == full[n - 1 - j] by {
                            assert(entries_view(before)[j] == full[n - 1 - j]);
                        }
                    }
                    let (path, value) = e;
                    t.insert(path, value);
                },
                None => {},
            }
        }
        assert(full.take(n as int) =~= full);
        t
    }

    /// The value stored for the remainder of `path` from position `i`.
    fn get_iter(&self, path: &[K], i: usize) -> (r: Option<V>)
        requires
            obeys_key_model::<K>(),
            i <= path@.len(),
        ensures
            match r {
                None => self.lookup(path@.skip(i as int)) is None,
                Some(v) => self.lookup(path@.skip(i as int)) is Some && cloned(
                    self.lookup(path@.skip(i as int))->0,
                    v,
                ),
            },
        decreases path@.len() - i,
    {
        if i == path.len() {
            assert(path@.skip(i as int).len() == 0);
            match &self.value {
                Some(v) => Some(v.clone()),
                None => None,
            }
        } else {
            proof {
                assert(path@.skip(i as int) =~= seq![path@[i as int]] + path@.skip(i + 1));
                self.lemma_cons(path@[i as int], path@.skip(i + 1));
            }
            match self.nodes.get(&path[i]) {
                Some(child) => child.get_iter(path, i + 1),
                None => None,
            }
        }
    }

    /// The value stored for exactly `path`, cloned.
    pub fn get(&self, path: Vec<K>) -> (r: Option<V>)
        requires
            self.wf(),
        ensures
            match r {
                None => !self@.contains_key(path@),
                Some(v) => self@.contains_key(path@) && cloned(self@[path@], v),
            },
    {
        assert(path@.skip(0) =~= path@);
        self.get_iter(path.as_slice(), 0)
    }
}

/// The elements of `v` in reverse order.
fn reversed<T>(v: Vec<T>) -> (r: Vec<T>)
    ensures
        r@ == v@.reverse(),
{
    let ghost full = v@;
    let mut rest = v;
    let mut rev: Vec<T> = Vec::new();
    while rest.len() > 0
        invariant
            rest@ + rev@.reverse() == full,
        decreases rest.len(),
    {
        match rest.pop() {
            Some(x) => {
                let ghost before = rev@;
                rev.push(x);
                assert(rev@.reverse() =~= seq![x] + before.reverse());
                assert(rest@ + rev@.reverse() =~= full);
            },
            None => {},
        }
    }
    assert(rest@ + rev@.reverse() =~= rev@.reverse());
    assert(rev@ =~= full.reverse());
    rev
}

/// The paths and values of `entries` as spec values.
pub open spec fn entries_view<K, V>(entries: Seq<(Vec<K>, V)>) -> Seq<(Seq<K>, V)> {
    entries.map_values(|e: (Vec<K>, V)| (e.0@, e.1))
}

/// The map that inserting each entry in turn, first to last, into an empty
/// trie yields: a later entry wins over an earlier one at the same path.
pub open spec fn entries_map<K, V>(entries: Seq<(Seq<K>, V)>) -> Map<Seq<K>, V>
    decreases entries.len(),
{
    if entries.len() == 0 {
        Map::empty()
    } else {
        entries_map(entries.drop_last()).insert(entries.last().0, entries.last().1)
    }
}

impl<K, V> View for Trie<K, V> where K: Eq + Hash, V: Clone {
    type V = Map<Seq<K>, V>;

    /// The map from each path that holds a value to that value.
    closed spec fn view(&self) -> Map<Seq<K>, V> {
        Map::new(|p: Seq<K>| self.lookup(p) is Some, |p: Seq<K>| self.lookup(p)->0)
    }
}

} // verus!
