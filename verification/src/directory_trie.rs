//! The trie: a hierarchical map from filesystem-style paths to values,
//! answering lookups by longest-prefix match.
//!
//! A trie abstracts to a map from trie keys to values, where a path's trie
//! key is its components after the root component (see
//! [`key_of`](crate::paths::key_of); the root path keys the empty sequence).
//! `insert` is insertion into that map, and `get` is the longest-prefix
//! match [`lpm`] over it.

use crate::directory_trie_node::{opt_deref, DirectoryTrieNode};
use crate::longest_prefix::lpm;
use crate::paths::{components_of, key_of, parse_components};
use vstd::prelude::*;

verus! {

/// The errors the trie can report. Every other outcome, the "nothing found"
/// answer included, is a normal result.
#[derive(Debug, Clone, Copy, PartialEq, Eq)]
pub enum TrieError {
    /// The given path decomposes to zero components.
    InvalidPath,
}

/// A map from paths to values of type `T`, answering by longest-prefix
/// match: a lookup returns the value of the deepest ancestor directory (the
/// looked-up path itself included) that holds one.
#[derive(Debug)]
pub struct DirectoryTrie<T> {
    head: Option<DirectoryTrieNode<T>>,
}

/// The map a subtree stands for: each key below `root` that stores a value,
/// mapped to that value.
pub(crate) open spec fn node_map<T>(root: DirectoryTrieNode<T>) -> Map<Seq<Seq<char>>, T> {
    Map::new(
        |k: Seq<Seq<char>>| root.node_get(k) is Some,
        |k: Seq<Seq<char>>| root.node_get(k).unwrap(),
    )
}

/// Holds when a trie abstraction maps no path at all.
pub open spec fn empty_paths<T>(m: Map<Seq<Seq<char>>, T>) -> bool {
    m == Map::<Seq<Seq<char>>, T>::empty()
}

impl<T> View for DirectoryTrie<T> {
    type V = Map<Seq<Seq<char>>, T>;

    closed spec fn view(&self) -> Map<Seq<Seq<char>>, T> {
        match self.head {
            Some(root) => node_map(root),
            None => Map::empty(),
        }
    }
}

/// The longest-prefix match over a subtree's map is the subtree's own
/// longest-prefix walk.
proof fn lemma_node_lpm_is_lpm<T>(root: DirectoryTrieNode<T>, key: Seq<Seq<char>>)
    ensures
        lpm(node_map(root), key) == root.node_lpm(key),
    decreases key.len(),
{
    let m = node_map(root);
    if root.node_get(key) is Some {
        assert(m.contains_key(key));
        assert(m[key] == root.node_get(key).unwrap());
    } else {
        assert(!m.contains_key(key));
        if key.len() > 0 {
            lemma_node_lpm_is_lpm(root, key.drop_last());
        }
    }
}

impl<T> DirectoryTrie<T> {
    /// Well-formed: whatever root the trie holds is a well-formed node.
    #[verifier::type_invariant]
    spec fn wf(self) -> bool {
        match self.head {
            Some(root) => root.node_wf(),
            None => true,
        }
    }
}

impl<T: Clone> DirectoryTrie<T> {
    /// Constructs an empty trie: no path maps to anything.
    pub fn new() -> (r: Self)
        ensures
            empty_paths(r@),
    {
        DirectoryTrie { head: None }
    }

    /// Associates `value` with `path`, replacing the value `path` held
    /// before, if any. Ancestor directories that did not exist yet are
    /// created empty on demand; no other path's value is touched. A path
    /// with zero components is rejected as invalid, and the trie is left
    /// unchanged.
    pub fn insert(&mut self, path: &str, value: T) -> (r: Result<(), TrieError>)
        ensures
            components_of(path@).len() == 0 ==> r is Err && r->Err_0 == TrieError::InvalidPath
                && final(self)@ == old(self)@,
            components_of(path@).len() > 0 ==> r is Ok && final(self)@ == old(self)@.insert(
                key_of(path@),
                value,
            ),
    {
        proof {
            use_type_invariant(&*self);
        }
        let comps = parse_components(path);
        if comps.len() == 0 {
            return Err(TrieError::InvalidPath);
        }
        let ghost key = key_of(path@);
        let ghost old_head = self.head;
        let mut head: Option<DirectoryTrieNode<T>> = None;
        std::mem::swap(&mut head, &mut self.head);
        let root = match head {
            Some(n) => n,
            None => DirectoryTrieNode::new_intermediate(),
        };
        let new_root = root.insert_from(&comps, 1, value);
        self.head = Some(new_root);
        proof {
            assert(comps.deep_view().skip(1) =~= key);
            assert(self@ == node_map(new_root));
            match old_head {
                Some(r0) => {
                    assert(old(self)@ == node_map(r0));
                    assert forall|k: Seq<Seq<char>>| #[trigger] node_map(new_root).contains_key(k)
                        <==> old(self)@.insert(key, value).contains_key(k) by {
                        assert(new_root.node_get(k) == if k == key {
                            Some(value)
                        } else {
                            r0.node_get(k)
                        });
                    }
                    assert forall|k: Seq<Seq<char>>|
                        #[trigger] node_map(new_root).contains_key(k) implies node_map(new_root)[k]
                        == old(self)@.insert(key, value)[k] by {
                        assert(new_root.node_get(k) == if k == key {
                            Some(value)
                        } else {
                            r0.node_get(k)
                        });
                    }
                    assert(self@ =~= old(self)@.insert(key, value));
                },
                None => {
                    assert forall|k: Seq<Seq<char>>| #[trigger] node_map(new_root).contains_key(k)
                        <==> old(self)@.insert(key, value).contains_key(k) by {
                        assert(new_root.node_get(k) == if k == key {
                            Some(value)
                        } else {
                            root.node_get(k)
                        });
                        assert(root.node_get(k) is None);
                    }
                    assert forall|k: Seq<Seq<char>>|
                        #[trigger] node_map(new_root).contains_key(k) implies node_map(new_root)[k]
                        == old(self)@.insert(key, value)[k] by {
                        assert(new_root.node_get(k) == if k == key {
                            Some(value)
                        } else {
                            root.node_get(k)
                        });
                        assert(root.node_get(k) is None);
                    }
                    assert(self@ =~= old(self)@.insert(key, value));
                },
            }
        }
        Ok(())
    }

    /// Returns a copy of the value of the deepest ancestor of `path` (the
    /// path itself included) that holds one, or nothing if no ancestor does.
    pub fn get(&self, path: &str) -> (r: Option<T>)
        ensures
            match lpm(self@, key_of(path@)) {
                Some(v) => r matches Some(rv) && cloned::<T>(v, rv),
                None => r is None,
            },
    {
        let comps = parse_components(path);
        let ghost key = key_of(path@);
        match &self.head {
            None => {
                proof {
                    crate::longest_prefix::lemma_lpm_empty::<T>(key);
                }
                None
            },
            Some(root) => {
                if comps.len() <= 1 {
                    // The root path itself: answer from the root node, no
                    // walk needed.
                    proof {
                        assert(key =~= Seq::<Seq<char>>::empty());
                        assert(root.node_get(key) == root.value);
                        assert(self@.contains_key(key) <==> root.value is Some);
                    }
                    root.value()
                } else {
                    let best = root.lookup_from(&comps, 1, None);
                    let r = best.cloned();
                    proof {
                        assert(comps.deep_view().skip(1) =~= key);
                        assert(opt_deref(best) == root.walk_from(key, opt_deref(None)));
                        root.lemma_walk_is_lpm(key, None);
                        lemma_node_lpm_is_lpm(*root, key);
                        assert(lpm(self@, key) == opt_deref(best));
                    }
                    r
                }
            },
        }
    }
}

impl<T: Clone> Default for DirectoryTrie<T> {
    /// The default trie is the empty trie.
    fn default() -> (r: Self)
        ensures
            empty_paths(r@),
    {
        Self::new()
    }
}

} // verus!
