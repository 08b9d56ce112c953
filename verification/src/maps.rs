//! The map that holds the children of a node.
use vstd::prelude::*;
use crate::node::LedgerNode;

verus! {

/// Entries of a [`SmallMap`]: event codes with the nodes they lead to, oldest first.
pub type Entries = Seq<(u32, LedgerNode)>;

pub open spec fn has_key(s: Entries, key: u32) -> bool {
    exists|k: int| 0 <= k < s.len() && (#[trigger] s[k]).0 == key
}

pub open spec fn key_index(s: Entries, key: u32) -> int {
    choose|k: int| 0 <= k < s.len() && (#[trigger] s[k]).0 == key
}

/// The node stored under `key`.
pub open spec fn lookup(s: Entries, key: u32) -> Option<LedgerNode> {
    if has_key(s, key) {
        Some(s[key_index(s, key)].1)
    } else {
        None
    }
}

/// The entries without the one under `key`; the others keep their order.
pub open spec fn without_key(s: Entries, key: u32) -> Entries {
    if has_key(s, key) {
        s.remove(key_index(s, key))
    } else {
        s
    }
}

/// No key occurs twice.
pub open spec fn distinct_keys(s: Entries) -> bool {
    forall|j: int, k: int|
        0 <= j < k < s.len() ==> (#[trigger] s[j]).0 != (#[trigger] s[k]).0
}

/// The nodes of the entries, in order.
pub open spec fn nodes_of(s: Entries) -> Seq<LedgerNode> {
    Seq::new(s.len(), |k: int| s[k].1)
}

/// Where keys are distinct, an entry is the one that its key is looked up by.
pub proof fn lemma_lookup_entry(s: Entries, k: int)
    requires
        distinct_keys(s),
        0 <= k < s.len(),
    ensures
        key_index(s, s[k].0) == k,
        lookup(s, s[k].0) == Some(s[k].1),
{
    assert(has_key(s, s[k].0));
    let j = key_index(s, s[k].0);
    assert(s[j].0 == s[k].0);
}

/// A map from event codes to nodes that keeps its entries in the order of insertion.
#[derive(Debug)]
pub struct SmallMap {
    pub entries: Vec<(u32, LedgerNode)>,
}

impl View for SmallMap {
    type V = Entries;

    open spec fn view(&self) -> Entries {
        self.entries@
    }
}

impl SmallMap {
    pub fn new() -> (map: SmallMap)
        ensures
            map@ == Entries::empty(),
    {
        SmallMap { entries: Vec::new() }
    }

    pub fn is_empty(&self) -> (empty: bool)
        ensures
            empty == (self@.len() == 0),
    {
        self.entries.len() == 0
    }

    fn find(&self, key: u32) -> (index: Option<usize>)
        requires
            distinct_keys(self@),
        ensures
            match index {
                Some(k) => has_key(self@, key) && k == key_index(self@, key) && k < self@.len(),
                None => !has_key(self@, key),
            },
    {
        let mut k: usize = 0;
        while k < self.entries.len()
            invariant
                k <= self.entries.len(),
                distinct_keys(self@),
                forall|j: int| 0 <= j < k ==> (#[trigger] self@[j]).0 != key,
            decreases self.entries.len() - k,
        {
            if self.entries[k].0 == key {
                proof {
                    lemma_lookup_entry(self@, k as int);
                    assert(self@[k as int].0 == key);
                }
                return Some(k);
            }
            k += 1;
        }
        None
    }

    pub fn get(&self, key: u32) -> (node: Option<LedgerNode>)
        requires
            distinct_keys(self@),
        ensures
            node == lookup(self@, key),
    {
        match self.find(key) {
            Some(k) => Some(self.entries[k].1),
            None => None,
        }
    }

    /// Adds an entry under a key that has none yet.
    pub fn append(&mut self, key: u32, node: LedgerNode)
        requires
            distinct_keys(old(self)@),
            !has_key(old(self)@, key),
        ensures
            final(self)@ == old(self)@.push((key, node)),
            distinct_keys(final(self)@),
    {
        self.entries.push((key, node));
    }

    pub fn remove(&mut self, key: u32)
        requires
            distinct_keys(old(self)@),
        ensures
            final(self)@ == without_key(old(self)@, key),
            distinct_keys(final(self)@),
    {
        if let Some(k) = self.find(key) {
            let _ = self.entries.remove(k);
        }
    }

    pub fn clear(&mut self)
        ensures
            final(self)@ == Entries::empty(),
    {
        self.entries.clear();
    }

    /// The nodes, in the order in which they were inserted.
    pub fn values(&self) -> (nodes: Vec<LedgerNode>)
        ensures
            nodes@ == nodes_of(self@),
    {
        let mut nodes: Vec<LedgerNode> = Vec::new();
        let mut k: usize = 0;
        while k < self.entries.len()
            invariant
                k <= self.entries.len(),
                nodes@ == nodes_of(self@).take(k as int),
            decreases self.entries.len() - k,
        {
            nodes.push(self.entries[k].1);
            k += 1;
        }
        proof {
            assert(nodes_of(self@).take(k as int) == nodes_of(self@));
        }
        nodes
    }
}

impl Clone for SmallMap {
    fn clone(&self) -> (copy: SmallMap)
        ensures
            copy@ == self@,
    {
        let mut entries: Vec<(u32, LedgerNode)> = Vec::new();
        let mut k: usize = 0;
        while k < self.entries.len()
            invariant
                k <= self.entries.len(),
                entries@ == self@.take(k as int),
            decreases self.entries.len() - k,
        {
            entries.push(self.entries[k]);
            k += 1;
        }
        proof {
            assert(self@.take(k as int) == self@);
        }
        SmallMap { entries }
    }
}

} // verus!
