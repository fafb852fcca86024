//! The trie node: one optional value plus the set of named children.
//!
//! A node owns its children outright: they sit in a vector, and a
//! [`ChildIndex`] maps each path component to the slot of the child it
//! routes to. A node with no value is an intermediate node, existing only to
//! route traversal to deeper components.

use crate::child_index::{child_entries, ChildIndex};
use vstd::pervasive::VecAdditionalExecFns;
use vstd::prelude::*;

verus! {

#[derive(Debug)]
pub struct DirectoryTrieNode<T> {
    pub(crate) index: ChildIndex,
    pub(crate) children: Vec<DirectoryTrieNode<T>>,
    pub(crate) value: Option<T>,
}

impl<T> DirectoryTrieNode<T> {
    /// The child this node routes component `c` to, if any.
    pub(crate) open spec fn spec_child(self, c: Seq<char>) -> Option<DirectoryTrieNode<T>> {
        let m = child_entries(self.index);
        if m.dom().contains(c) && (m[c] as int) < self.children@.len() {
            Some(self.children@[m[c] as int])
        } else {
            None
        }
    }

    /// The value stored at exactly `key` below this node, if any.
    pub(crate) open spec fn node_get(self, key: Seq<Seq<char>>) -> Option<T>
        decreases key.len(),
    {
        if key.len() == 0 {
            self.value
        } else {
            match self.spec_child(key[0]) {
                Some(child) => child.node_get(key.drop_first()),
                None => None,
            }
        }
    }

    /// The value of the deepest prefix of `key` that stores one: the
    /// longest-prefix match within this node's subtree.
    pub(crate) open spec fn node_lpm(self, key: Seq<Seq<char>>) -> Option<T>
        decreases key.len(),
    {
        if self.node_get(key) is Some {
            self.node_get(key)
        } else if key.len() == 0 {
            None
        } else {
            self.node_lpm(key.drop_last())
        }
    }

    /// A walk that tracks the most recent value seen: the value of this node
    /// if it has one, else `prior`, refined by the child the first component
    /// routes to.
    pub(crate) open spec fn walk_from(self, key: Seq<Seq<char>>, prior: Option<T>) -> Option<T>
        decreases key.len(),
    {
        let best = if self.value is Some {
            self.value
        } else {
            prior
        };
        if key.len() == 0 {
            best
        } else {
            match self.spec_child(key[0]) {
                Some(child) => child.walk_from(key.drop_first(), best),
                None => best,
            }
        }
    }

    /// Well-formed: the index names only existing child slots, no two
    /// components share a slot, and every child is itself well-formed.
    pub(crate) open spec fn node_wf(self) -> bool
        decreases self,
    {
        let m = child_entries(self.index);
        &&& forall|c: Seq<char>| #[trigger] m.dom().contains(c) ==> (m[c] as int)
            < self.children@.len()
        &&& forall|c1: Seq<char>, c2: Seq<char>|
            m.dom().contains(c1) && m.dom().contains(c2) && m[c1] == m[c2] ==> c1 == c2
        &&& forall|j: int|
            0 <= j < self.children@.len() ==> (#[trigger] self.children@[j]).node_wf()
    }

    /// Creates a node holding `value`, with no children.
    pub(crate) fn new(value: T) -> (r: Self)
        ensures
            r.node_wf(),
            forall|c: Seq<char>| #[trigger] r.spec_child(c) is None,
            forall|k: Seq<Seq<char>>| #[trigger] r.node_get(k) == if k.len() == 0 {
                Some(value)
            } else {
                None::<T>
            },
    {
        let r = DirectoryTrieNode { index: ChildIndex::new(), children: Vec::new(), value: Some(value) };
        proof {
            assert forall|k: Seq<Seq<char>>| #[trigger] r.node_get(k) == if k.len() == 0 {
                Some(value)
            } else {
                None::<T>
            } by {
                if k.len() > 0 {
                    assert(r.spec_child(k[0]) is None);
                }
            }
        }
        r
    }

    /// Creates an intermediate node: no children and no value.
    pub(crate) fn new_intermediate() -> (r: Self)
        ensures
            r.node_wf(),
            r.value is None,
            forall|c: Seq<char>| #[trigger] r.spec_child(c) is None,
            forall|k: Seq<Seq<char>>| #[trigger] r.node_get(k) == None::<T>,
    {
        let r = DirectoryTrieNode { index: ChildIndex::new(), children: Vec::new(), value: None };
        proof {
            assert forall|k: Seq<Seq<char>>| #[trigger] r.node_get(k) == None::<T> by {
                if k.len() > 0 {
                    assert(r.spec_child(k[0]) is None);
                }
            }
        }
        r
    }

    /// Returns the child for exactly this component, or nothing if absent.
    pub(crate) fn get<'a>(&'a self, component: &String) -> (r: Option<&'a DirectoryTrieNode<T>>)
        ensures
            match self.spec_child(component@) {
                Some(c) => r matches Some(rr) && *rr == c,
                None => r is None,
            },
    {
        match self.index.get(component) {
            Some(slot) => {
                // A slot the index names but the vector lacks routes nowhere;
                // a well-formed node never holds one.
                if slot < self.children.len() {
                    Some(&self.children[slot])
                } else {
                    None
                }
            },
            None => None,
        }
    }

    /// Attaches `child` under `component`, in a fresh slot at the end.
    pub(crate) fn insert(&mut self, component: String, child: DirectoryTrieNode<T>)
        ensures
            child_entries(final(self).index) == child_entries(old(self).index).insert(
                component@,
                old(self).children@.len() as usize,
            ),
            final(self).children@ == old(self).children@.push(child),
            final(self).value == old(self).value,
    {
        let slot: usize = self.children.len();
        self.children.push(child);
        self.index.insert(component, slot);
    }

    /// Associates `value` with the path `comps[i..]` below this node,
    /// creating intermediate nodes on demand, reusing any already present,
    /// and never discarding a value or a child elsewhere in the subtree.
    pub(crate) fn insert_from(self, comps: &Vec<String>, i: usize, value: T) -> (r: Self)
        requires
            self.node_wf(),
            i <= comps@.len(),
        ensures
            r.node_wf(),
            forall|k: Seq<Seq<char>>| #[trigger] r.node_get(k) == if k == comps.deep_view().skip(
                i as int,
            ) {
                Some(value)
            } else {
                self.node_get(k)
            },
        decreases comps@.len() - i,
    {
        let ghost suffix = comps.deep_view().skip(i as int);
        let mut node = self;
        if i == comps.len() {
            node.value = Some(value);
            proof {
                assert(suffix =~= Seq::<Seq<char>>::empty());
                assert forall|k: Seq<Seq<char>>| #[trigger] node.node_get(k) == if k == suffix {
                    Some(value)
                } else {
                    self.node_get(k)
                } by {
                    if k.len() == 0 {
                        assert(k =~= suffix);
                    } else {
                        assert(node.spec_child(k[0]) == self.spec_child(k[0]));
                    }
                }
                assert forall|j: int|
                    0 <= j < node.children@.len() implies (
                #[trigger] node.children@[j]).node_wf() by {
                    assert(self.children@[j].node_wf());
                }
                assert(node.node_wf());
            }
            node
        } else {
            let component: &String = &comps[i];
            let ghost csuffix = comps.deep_view().skip(i as int + 1);
            proof {
                assert(suffix[0] == component@);
                assert(suffix.drop_first() =~= csuffix);
            }
            match node.index.get(component) {
                Some(slot) => {
                    let ghost m = child_entries(self.index);
                    let ghost child = self.children@[slot as int];
                    proof {
                        assert(m.dom().contains(component@) && slot == m[component@]);
                        assert((slot as int) < self.children@.len());
                        assert(child.node_wf());
                    }
                    let mut tmp = DirectoryTrieNode::new_intermediate();
                    node.children.set_and_swap(slot, &mut tmp);
                    let updated = tmp.insert_from(comps, i + 1, value);
                    node.children.set(slot, updated);
                    proof {
                        assert(node.children@ =~= self.children@.update(slot as int, updated));
                        assert forall|k: Seq<Seq<char>>| #[trigger] node.node_get(k) == if k
                            == suffix {
                            Some(value)
                        } else {
                            self.node_get(k)
                        } by {
                            if k.len() == 0 {
                                assert(k != suffix);
                            } else {
                                let c0 = k[0];
                                if c0 == component@ {
                                    assert(node.spec_child(c0) == Some(updated));
                                    assert(self.spec_child(c0) == Some(child));
                                    assert(node.node_get(k) == updated.node_get(k.drop_first()));
                                    assert(self.node_get(k) == child.node_get(k.drop_first()));
                                    if k == suffix {
                                        assert(k.drop_first() =~= csuffix);
                                    } else {
                                        if k.drop_first() == csuffix {
                                            lemma_first_rest(k, suffix);
                                        }
                                    }
                                } else {
                                    assert(k != suffix);
                                    if m.dom().contains(c0) && (m[c0] as int)
                                        < self.children@.len() {
                                        assert(m[c0] != m[component@]);
                                        assert(node.spec_child(c0) == self.spec_child(c0));
                                    } else {
                                        assert(node.spec_child(c0) is None);
                                        assert(self.spec_child(c0) is None);
                                    }
                                }
                            }
                        }
                        assert forall|j: int|
                            0 <= j < node.children@.len() implies (
                        #[trigger] node.children@[j]).node_wf() by {
                            if j == slot as int {
                                assert(node.children@[j] == updated);
                            } else {
                                assert(node.children@[j] == self.children@[j]);
                                assert(self.children@[j].node_wf());
                            }
                        }
                        assert(node.node_wf());
                    }
                    node
                },
                None => {
                    let ghost m = child_entries(self.index);
                    let child = if i + 1 == comps.len() {
                        DirectoryTrieNode::new(value)
                    } else {
                        let fresh = DirectoryTrieNode::new_intermediate();
                        fresh.insert_from(comps, i + 1, value)
                    };
                    proof {
                        assert(!m.dom().contains(component@));
                        assert forall|k2: Seq<Seq<char>>| #[trigger] child.node_get(k2) == if k2
                            == csuffix {
                            Some(value)
                        } else {
                            None::<T>
                        } by {
                            if i + 1 == comps.len() {
                                assert(csuffix =~= Seq::<Seq<char>>::empty());
                                if k2.len() == 0 {
                                    assert(k2 =~= csuffix);
                                }
                            }
                        }
                    }
                    let len0: usize = node.children.len();
                    node.insert(component.clone(), child);
                    proof {
                        let m2 = child_entries(node.index);
                        assert(m2 == m.insert(component@, len0));
                        assert(node.children@.len() == len0 + 1);
                        assert(node.children@[len0 as int] == child);
                        assert forall|k: Seq<Seq<char>>| #[trigger] node.node_get(k) == if k
                            == suffix {
                            Some(value)
                        } else {
                            self.node_get(k)
                        } by {
                            if k.len() == 0 {
                                assert(k != suffix);
                            } else {
                                let c0 = k[0];
                                if c0 == component@ {
                                    assert(node.spec_child(c0) == Some(child));
                                    assert(self.spec_child(c0) is None);
                                    assert(node.node_get(k) == child.node_get(k.drop_first()));
                                    if k == suffix {
                                        assert(k.drop_first() =~= csuffix);
                                    } else {
                                        if k.drop_first() == csuffix {
                                            lemma_first_rest(k, suffix);
                                        }
                                    }
                                } else {
                                    assert(k != suffix);
                                    if m.dom().contains(c0) {
                                        assert((m[c0] as int) < len0 as int);
                                        assert(node.children@[m[c0] as int] == self.children@[m[
                                            c0] as int]);
                                        assert(node.spec_child(c0) == self.spec_child(c0));
                                    } else {
                                        assert(node.spec_child(c0) is None);
                                        assert(self.spec_child(c0) is None);
                                    }
                                }
                            }
                        }
                        assert forall|j: int|
                            0 <= j < node.children@.len() implies (
                        #[trigger] node.children@[j]).node_wf() by {
                            if j == len0 as int {
                                assert(node.children@[j] == child);
                            } else {
                                assert(node.children@[j] == self.children@[j]);
                                assert(self.children@[j].node_wf());
                            }
                        }
                        assert forall|c1: Seq<char>, c2: Seq<char>|
                            m2.dom().contains(c1) && m2.dom().contains(c2) && m2[c1] == m2[c2]
                            implies c1 == c2 by {
                            if c1 != component@ && c2 != component@ {
                                assert(m.dom().contains(c1));
                                assert(m.dom().contains(c2));
                                assert(m[c1] == m[c2]);
                            } else if c1 == component@ && c2 != component@ {
                                assert((m[c2] as int) < len0 as int);
                            } else if c1 != component@ && c2 == component@ {
                                assert((m[c1] as int) < len0 as int);
                            }
                        }
                        assert(node.node_wf());
                    }
                    node
                },
            }
        }
    }

    /// The walk [`walk_from`] lands on the longest-prefix match if the
    /// subtree holds one, and on the prior best answer otherwise.
    pub(crate) proof fn lemma_walk_is_lpm(self, key: Seq<Seq<char>>, prior: Option<T>)
        ensures
            self.walk_from(key, prior) == match self.node_lpm(key) {
                Some(v) => Some(v),
                None => prior,
            },
        decreases key.len(),
    {
        if key.len() == 0 {
        } else {
            match self.spec_child(key[0]) {
                Some(child) => {
                    let best = if self.value is Some {
                        self.value
                    } else {
                        prior
                    };
                    child.lemma_walk_is_lpm(key.drop_first(), best);
                    self.lemma_lpm_child(key);
                },
                None => {
                    self.lemma_lpm_no_child(key);
                },
            }
        }
    }

    /// With no child for the first component, the subtree's longest-prefix
    /// match is this node's own value.
    proof fn lemma_lpm_no_child(self, key: Seq<Seq<char>>)
        requires
            key.len() > 0,
            self.spec_child(key[0]) is None,
        ensures
            self.node_lpm(key) == self.value,
        decreases key.len(),
    {
        assert(self.node_get(key) is None);
        if key.len() == 1 {
            assert(key.drop_last() =~= Seq::<Seq<char>>::empty());
            assert(self.node_get(Seq::<Seq<char>>::empty()) == self.value);
            assert(self.node_lpm(Seq::<Seq<char>>::empty()) == self.value);
        } else {
            assert(key.drop_last()[0] == key[0]);
            self.lemma_lpm_no_child(key.drop_last());
        }
    }

    /// The subtree's longest-prefix match descends into the child the first
    /// component routes to, falling back to this node's own value.
    proof fn lemma_lpm_child(self, key: Seq<Seq<char>>)
        requires
            key.len() > 0,
            self.spec_child(key[0]) is Some,
        ensures
            self.node_lpm(key) == match self.spec_child(key[0]).unwrap().node_lpm(
                key.drop_first(),
            ) {
                Some(v) => Some(v),
                None => self.value,
            },
        decreases key.len(),
    {
        let child = self.spec_child(key[0]).unwrap();
        assert(self.node_get(key) == child.node_get(key.drop_first()));
        if key.len() == 1 {
            assert(key.drop_first() =~= Seq::<Seq<char>>::empty());
            assert(key.drop_last() =~= Seq::<Seq<char>>::empty());
            assert(child.node_get(Seq::<Seq<char>>::empty()) == child.value);
            assert(child.node_lpm(Seq::<Seq<char>>::empty()) == child.value);
            assert(self.node_get(Seq::<Seq<char>>::empty()) == self.value);
            assert(self.node_lpm(Seq::<Seq<char>>::empty()) == self.value);
        } else {
            assert(key.drop_last()[0] == key[0]);
            self.lemma_lpm_child(key.drop_last());
            assert(key.drop_last().drop_first() =~= key.drop_first().drop_last());
        }
    }
}

impl<T: Clone> DirectoryTrieNode<T> {
    /// Returns a copy of the stored value, if any.
    pub(crate) fn value(&self) -> (r: Option<T>)
        ensures
            r is Some <==> self.value is Some,
            r is Some ==> cloned::<T>(self.value.unwrap(), r.unwrap()),
    {
        self.value.as_ref().cloned()
    }

    /// Walks `comps[i..]` below this node, returning a reference to the most
    /// recent value seen, starting from `prior`.
    pub(crate) fn lookup_from<'a>(
        &'a self,
        comps: &Vec<String>,
        i: usize,
        prior: Option<&'a T>,
    ) -> (r: Option<&'a T>)
        requires
            i <= comps@.len(),
        ensures
            opt_deref(r) == self.walk_from(comps.deep_view().skip(i as int), opt_deref(prior)),
        decreases comps@.len() - i,
    {
        let best = match self.value.as_ref() {
            Some(v) => Some(v),
            None => prior,
        };
        if i == comps.len() {
            proof {
                assert(comps.deep_view().skip(i as int) =~= Seq::<Seq<char>>::empty());
            }
            best
        } else {
            proof {
                assert(comps.deep_view().skip(i as int)[0] == comps@[i as int]@);
            }
            match self.get(&comps[i]) {
                Some(child) => {
                    let r = child.lookup_from(comps, i + 1, best);
                    proof {
                        assert(comps.deep_view().skip(i as int).drop_first() =~= comps.deep_view()
                            .skip(i as int + 1));
                    }
                    r
                },
                None => best,
            }
        }
    }
}

/// Two sequences with the same first element and the same rest are equal.
proof fn lemma_first_rest<A>(a: Seq<A>, b: Seq<A>)
    requires
        a.len() > 0,
        b.len() > 0,
        a[0] == b[0],
        a.drop_first() == b.drop_first(),
    ensures
        a == b,
{
    assert(a.drop_first().len() == a.len() - 1);
    assert(b.drop_first().len() == b.len() - 1);
    assert(a.len() == b.len());
    assert forall|t: int| 0 <= t < a.len() implies a[t] == b[t] by {
        if t > 0 {
            assert(a[t] == a.drop_first()[t - 1]);
            assert(b[t] == b.drop_first()[t - 1]);
        }
    }
    assert(a =~= b);
}

/// The value an optional reference points at, if any.
pub(crate) open spec fn opt_deref<T>(o: Option<&T>) -> Option<T> {
    match o {
        Some(x) => Some(*x),
        None => None,
    }
}

} // verus!
