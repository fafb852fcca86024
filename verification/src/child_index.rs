//! The per-node index of children: a hash map from path component to the
//! slot of the child node, held behind a small trusted boundary.
//!
//! The map itself is `hashbrown::HashMap<String, usize>`. Verus cannot look
//! inside it, so its contents are named by the uninterpreted function
//! [`child_entries`], and each operation the trie performs states over that
//! name what hashbrown's source shows: `new` starts empty, `get` returns the
//! slot stored for exactly this key, `insert` adds or replaces the entry for
//! the given key and leaves every other key alone.

use vstd::prelude::*;

verus! {

/// A mapping from path component to child slot, backed by a hashbrown map.
#[verifier::external_body]
#[derive(Debug)]
pub(crate) struct ChildIndex {
    map: hashbrown::HashMap<String, usize>,
}

/// The entries a [`ChildIndex`] holds, keyed by the component's characters.
pub uninterp spec fn child_entries(index: ChildIndex) -> Map<Seq<char>, usize>;

/// Holds when a component-to-slot mapping has no entries at all.
pub(crate) open spec fn no_entries(m: Map<Seq<char>, usize>) -> bool {
    m == Map::<Seq<char>, usize>::empty()
}

impl ChildIndex {
    /// Relies on `hashbrown::HashMap::new`: the new map contains no entries.
    #[verifier::external_body]
    pub(crate) fn new() -> (r: ChildIndex)
        ensures
            no_entries(child_entries(r)),
    {
        ChildIndex { map: hashbrown::HashMap::new() }
    }

    /// Relies on `hashbrown::HashMap::get`: returns the value stored for
    /// exactly this key, or nothing if the key is absent.
    #[verifier::external_body]
    pub(crate) fn get(&self, component: &String) -> (r: Option<usize>)
        ensures
            r == if child_entries(*self).dom().contains(component@) {
                Some(child_entries(*self)[component@])
            } else {
                None::<usize>
            },
    {
        self.map.get(component).copied()
    }

    /// Relies on `hashbrown::HashMap::insert`: stores the value under the
    /// key, replacing any earlier value for it and leaving other keys alone.
    #[verifier::external_body]
    pub(crate) fn insert(&mut self, component: String, slot: usize)
        ensures
            child_entries(*final(self)) == child_entries(*old(self)).insert(component@, slot),
    {
        self.map.insert(component, slot);
    }
}

} // verus!
