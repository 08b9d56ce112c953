//! Nodes of event trees, and the arena that keeps them.
//!
//! A node is reached through a [`LedgerNode`] handle. Its data stays in the [`NodeArena`] for as
//! long as the arena lives, also after the node was taken out of its tree, so a handle never
//! dangles and the parent of a node can always be visited.
use std::collections::HashMap;
use vstd::prelude::*;
use crate::maps::SmallMap;
use crate::maps::{Entries, distinct_keys, has_key, key_index, without_key};
use crate::model::{
    ArenaView, NodeView, keeps_numbers, lemma_fewer_children, lemma_inserted_wf, lemma_occurrences,
    lemma_settled, lemma_with_next_seq_no, lemma_with_node_wf, lemma_with_root_wf,
    lemma_without_key, same_nodes, same_shape, tally,
};
use crate::uid::Uid;

verus! {

/// A handle to a node of a [`NodeArena`].
#[derive(Clone, Copy, PartialEq, Eq, Structural, Debug, Hash)]
pub struct LedgerNode {
    pub index: usize,
}

/// The data of a node.
#[derive(Debug)]
pub struct NodeRecord {
    pub parent: Option<LedgerNode>,
    pub seq_no: Option<u32>,
    pub event: u32,
    pub next_seq_no: Option<u32>,
    pub children: SmallMap,
}

impl View for NodeRecord {
    type V = NodeView;

    open spec fn view(&self) -> NodeView {
        NodeView {
            parent: self.parent,
            seq_no: self.seq_no,
            event: self.event,
            next_seq_no: self.next_seq_no,
            children: self.children@,
        }
    }
}

/// Keeps the nodes of event trees, and the counter from which they take sequence numbers.
#[derive(Debug)]
pub struct NodeArena {
    pub nodes: Vec<NodeRecord>,
    pub next_avail_seq_no: u32,
}

impl View for NodeArena {
    type V = ArenaView;

    open spec fn view(&self) -> ArenaView {
        ArenaView {
            nodes: Seq::new(self.nodes@.len(), |i: int| self.nodes@[i]@),
            next_avail_seq_no: self.next_avail_seq_no,
        }
    }
}

impl NodeArena {
    pub fn new() -> (arena: NodeArena)
        ensures
            arena@.wf(),
            arena@ == (ArenaView { nodes: Seq::empty(), next_avail_seq_no: 0 }),
    {
        NodeArena { nodes: Vec::new(), next_avail_seq_no: 0 }
    }

    fn add(&mut self, record: NodeRecord) -> (node: LedgerNode)
        ensures
            final(self)@ == old(self)@.push(record@),
            node == old(self)@.fresh(),
            final(self)@.nodes.len() <= usize::MAX,
    {
        let index = self.nodes.len();
        self.nodes.push(record);
        assert(self.nodes.len() == self.nodes@.len());
        LedgerNode { index }
    }

    pub fn parent_of(&self, n: LedgerNode) -> (parent: Option<LedgerNode>)
        requires
            self@.has(n),
        ensures
            parent == self@.at(n).parent,
    {
        self.nodes[n.index].parent
    }

    pub fn seq_no_of(&self, n: LedgerNode) -> (seq_no: Option<u32>)
        requires
            self@.has(n),
        ensures
            seq_no == self@.at(n).seq_no,
    {
        self.nodes[n.index].seq_no
    }

    pub fn next_seq_no_of(&self, n: LedgerNode) -> (next_seq_no: Option<u32>)
        requires
            self@.has(n),
        ensures
            next_seq_no == self@.at(n).next_seq_no,
    {
        self.nodes[n.index].next_seq_no
    }

    /// The child of `n` under `event`.
    pub fn child_of(&self, n: LedgerNode, event: u32) -> (child: Option<LedgerNode>)
        requires
            self@.wf(),
            self@.has(n),
        ensures
            child == self@.child(n, event),
            child matches Some(c) ==> self@.has(c),
    {
        assert(self@.links_wf(n));
        let child = self.nodes[n.index].children.get(event);
        proof {
            if child is Some {
                let k = key_index(self@.at(n).children, event);
                assert(self@.entry_wf(n, self@.at(n).children[k]));
            }
        }
        child
    }

    pub fn is_leaf(&self, n: LedgerNode) -> (leaf: bool)
        requires
            self@.has(n),
        ensures
            leaf == self@.at(n).is_leaf(),
    {
        self.nodes[n.index].children.is_empty()
    }

    fn clear_children(&mut self, n: LedgerNode)
        requires
            old(self)@.has(n),
        ensures
            final(self)@ == old(self)@.set(n, old(self)@.at(n).with_children(Entries::empty())),
    {
        self.nodes[n.index].children.clear();
    }

    fn link(&mut self, n: LedgerNode, event: u32, child: LedgerNode)
        requires
            old(self)@.has(n),
            distinct_keys(old(self)@.at(n).children),
            !has_key(old(self)@.at(n).children, event),
        ensures
            final(self)@ == old(self)@.set(
                n,
                old(self)@.at(n).with_children(old(self)@.at(n).children.push((event, child))),
            ),
    {
        self.nodes[n.index].children.append(event, child);
    }

    fn unlink(&mut self, n: LedgerNode, event: u32)
        requires
            old(self)@.has(n),
            distinct_keys(old(self)@.at(n).children),
        ensures
            final(self)@ == old(self)@.set(
                n,
                old(self)@.at(n).with_children(without_key(old(self)@.at(n).children, event)),
            ),
    {
        self.nodes[n.index].children.remove(event);
    }

    pub(crate) fn set_seq_no(&mut self, n: LedgerNode, seq_no: u32)
        requires
            old(self)@.has(n),
        ensures
            final(self)@ == old(self)@.set(n, old(self)@.at(n).with_seq_no(seq_no)),
    {
        self.nodes[n.index].seq_no = Some(seq_no);
    }

    fn set_next_seq_no(&mut self, n: LedgerNode, next_seq_no: u32)
        requires
            old(self)@.has(n),
        ensures
            final(self)@ == old(self)@.set(n, old(self)@.at(n).with_next_seq_no(next_seq_no)),
    {
        self.nodes[n.index].next_seq_no = Some(next_seq_no);
    }

    /// Hands out the number for the children of `n`, unless it has been handed out before.
    pub fn number(&mut self, n: LedgerNode) -> (next_seq_no: u32)
        requires
            old(self)@.has(n),
        ensures
            final(self)@ == old(self)@.numbered(n),
            final(self)@.at(n).next_seq_no == Some(next_seq_no),
    {
        match self.nodes[n.index].next_seq_no {
            Some(next_seq_no) => next_seq_no,
            None => {
                let next_seq_no = self.next_avail_seq_no;
                self.set_next_seq_no(n, next_seq_no);
                self.next_avail_seq_no = next_seq_no.wrapping_add(1);
                next_seq_no
            },
        }
    }
}

impl LedgerNode {
    /// Adds a root: the start of a tree, with no event that led to it.
    pub fn root(arena: &mut NodeArena) -> (node: LedgerNode)
        requires
            old(arena)@.wf(),
        ensures
            final(arena)@ == old(arena)@.with_root(),
            final(arena)@.wf(),
            final(arena)@.has(node),
            node == old(arena)@.fresh(),
    {
        let record = NodeRecord {
            parent: None,
            seq_no: None,
            event: 0,
            next_seq_no: None,
            children: SmallMap::new(),
        };
        let node = arena.add(record);
        proof {
            lemma_with_root_wf(old(arena)@);
        }
        node
    }

    /// Adds a node that knows `parent`, and has the number that `parent` hands out. It is not yet
    /// among the children of `parent`.
    pub fn from_parent(arena: &mut NodeArena, parent: LedgerNode, event: u32) -> (node: LedgerNode)
        requires
            old(arena)@.wf(),
            old(arena)@.has(parent),
        ensures
            final(arena)@ == old(arena)@.with_node(parent, event),
            final(arena)@.wf(),
            final(arena)@.has(node),
            node == old(arena)@.fresh(),
    {
        let seq_no = arena.next_seq_no_of(parent);
        let record = NodeRecord {
            parent: Some(parent),
            seq_no,
            event,
            next_seq_no: None,
            children: SmallMap::new(),
        };
        let node = arena.add(record);
        proof {
            lemma_with_node_wf(old(arena)@, parent, event);
        }
        node
    }

    /// The child of the node under `event`, which is added where there is none.
    pub fn new_children(self, arena: &mut NodeArena, event: u32) -> (node: LedgerNode)
        requires
            old(arena)@.wf(),
            old(arena)@.has(self),
        ensures
            final(arena)@ == old(arena)@.inserted(self, event),
            node == old(arena)@.insert_result(self, event),
            final(arena)@.wf(),
            final(arena)@.has(node),
    {
        assert(arena@.links_wf(self));
        match arena.nodes[self.index].children.get(event) {
            Some(child) => {
                proof {
                    let k = key_index(arena@.at(self).children, event);
                    assert(arena@.entry_wf(self, arena@.at(self).children[k]));
                }
                child
            },
            None => {
                let node = LedgerNode::from_parent(arena, self, event);
                assert(arena@.at(self) == old(arena)@.at(self));
                arena.link(self, event, node);
                proof {
                    lemma_inserted_wf(old(arena)@, self, event);
                }
                node
            },
        }
    }

    /// Records that `event` followed the node.
    pub fn insert(self, arena: &mut NodeArena, event: u32) -> (node: LedgerNode)
        requires
            old(arena)@.wf(),
            old(arena)@.has(self),
        ensures
            final(arena)@ == old(arena)@.inserted(self, event),
            node == old(arena)@.insert_result(self, event),
            final(arena)@.wf(),
            final(arena)@.has(node),
    {
        self.new_children(arena, event)
    }

    /// The children, in the order in which they were inserted.
    pub fn children(self, arena: &NodeArena) -> (nodes: Vec<LedgerNode>)
        requires
            arena@.has(self),
        ensures
            nodes@ == arena@.kids(self),
    {
        arena.nodes[self.index].children.values()
    }

    pub fn event(self, arena: &NodeArena) -> (event: u32)
        requires
            arena@.has(self),
        ensures
            event == arena@.at(self).event,
    {
        arena.nodes[self.index].event
    }

    /// The identifier of the node, once it is resolved.
    pub fn uid(self, arena: &NodeArena) -> (uid: Option<Uid>)
        requires
            arena@.has(self),
        ensures
            uid == arena@.at(self).uid(),
    {
        match arena.seq_no_of(self) {
            Some(seq_no) => Some(Uid::new(seq_no, self.event(arena))),
            None => None,
        }
    }

    /// Sets the number for the children of a node that has not handed one out yet.
    pub(crate) fn with_next_seq_no(self, arena: &mut NodeArena, next_seq_no: u32)
        requires
            old(arena)@.wf(),
            old(arena)@.has(self),
            old(arena)@.at(self).next_seq_no is None,
            old(arena)@.at(self).parent is None || old(arena)@.at(self).seq_no is Some,
        ensures
            final(arena)@ == old(arena)@.set(
                self,
                old(arena)@.at(self).with_next_seq_no(next_seq_no),
            ),
            final(arena)@.wf(),
    {
        arena.set_next_seq_no(self, next_seq_no);
        proof {
            lemma_with_next_seq_no(old(arena)@, self, next_seq_no);
        }
    }

    /// Gives the node, and those that led to it, their sequence numbers.
    pub fn resolve(self, arena: &mut NodeArena)
        requires
            old(arena)@.wf(),
            old(arena)@.has(self),
        ensures
            final(arena)@ == old(arena)@.resolved_node(self),
            final(arena)@.wf(),
            same_shape(old(arena)@, final(arena)@),
            keeps_numbers(old(arena)@, final(arena)@),
            old(arena)@.at(self).parent is Some ==> final(arena)@.at(self).uid() is Some,
    {
        if arena.seq_no_of(self).is_some() {
            return;
        }
        let ghost start = arena@;
        // The nodes to resolve, youngest first.
        let mut pending: Vec<LedgerNode> = Vec::new();
        let mut top = self;
        let mut climbing = true;
        while climbing
            invariant
                arena@ == start,
                start.wf(),
                start.has(top),
                top.index <= self.index,
                start.at(self).seq_no is None,
                start.unresolved_path(self, pending@, top),
                !climbing ==> start.at(top).seq_no is Some || start.at(top).parent is None,
            decreases top.index, if climbing { 1nat } else { 0 },
        {
            assert(start.links_wf(top));
            if arena.seq_no_of(top).is_some() {
                climbing = false;
            } else {
                match arena.parent_of(top) {
                    Some(parent) => {
                        let ghost before = pending@;
                        pending.push(top);
                        assert(pending@.drop_last() == before);
                        top = parent;
                    },
                    None => {
                        climbing = false;
                    },
                }
            }
        }
        let mut next_seq_no = arena.number(top);
        proof {
            lemma_settled(start, top);
        }
        while pending.len() > 0
            invariant
                start.wf(),
                start.has(self),
                start.has(top),
                arena@ == start.settled(top),
                arena@.at(top).next_seq_no == Some(next_seq_no),
                start.unresolved_path(self, pending@, top),
            decreases pending.len(),
        {
            let ghost before = pending@;
            let node = pending.pop().unwrap();
            proof {
                assert(node == before.last());
                assert(pending@ == before.drop_last());
                assert(start.links_wf(node));
                lemma_settled(start, top);
                assert(arena@.has(node));
            }
            arena.set_seq_no(node, next_seq_no);
            next_seq_no = arena.number(node);
            top = node;
        }
        proof {
            lemma_settled(start, self);
        }
    }

    /// The identifiers of the events that led to the node, oldest first, and of the node itself.
    pub fn get_chain(self, arena: &NodeArena) -> (chain: Vec<Uid>)
        requires
            arena@.wf(),
            arena@.has(self),
            arena@.at(self).uid() is Some,
        ensures
            chain@ == arena@.chain(self),
    {
        // Youngest first.
        let mut upwards: Vec<Uid> = Vec::new();
        let mut node = self;
        let mut climbing = true;
        while climbing
            invariant
                arena@.wf(),
                arena@.has(node),
                climbing ==> arena@.at(node).uid() is Some,
                arena@.chain(self) == (if climbing {
                    arena@.chain(node)
                } else {
                    Seq::empty()
                }) + upwards@.reverse(),
            decreases node.index, if climbing { 1nat } else { 0 },
        {
            assert(arena@.links_wf(node));
            let ghost before = upwards@;
            let uid = node.uid(arena).unwrap();
            upwards.push(uid);
            assert(upwards@.reverse() == seq![uid] + before.reverse());
            match arena.parent_of(node) {
                Some(parent) => {
                    if arena.seq_no_of(parent).is_some() {
                        node = parent;
                    } else {
                        climbing = false;
                    }
                },
                None => {
                    climbing = false;
                },
            }
            proof {
                if climbing {
                    assert(arena@.chain(node).push(uid) + before.reverse() == arena@.chain(node)
                        + upwards@.reverse());
                }
            }
        }
        let mut chain: Vec<Uid> = Vec::new();
        let mut k = upwards.len();
        while k > 0
            invariant
                k <= upwards@.len(),
                chain@ == upwards@.reverse().take(upwards@.len() - k),
            decreases k,
        {
            k -= 1;
            chain.push(upwards[k]);
            assert(upwards@.reverse()[upwards@.len() - 1 - k] == upwards@[k as int]);
        }
        assert(upwards@.reverse().take(upwards@.len() as int) == upwards@.reverse());
        chain
    }

    /// Cuts the node off from its children and from its tree, together with those of its
    /// ancestors that are left without children. Meant for nodes that stand in a tree: the way up
    /// from a node that was cut off before leads into the tree all the same, and takes from it
    /// what stands under the same events there.
    pub fn prune(self, arena: &mut NodeArena)
        requires
            old(arena)@.wf(),
            old(arena)@.has(self),
            old(arena)@.at(self).parent is Some,
        ensures
            final(arena)@ == old(arena)@.pruned(self),
            final(arena)@.wf(),
            same_nodes(old(arena)@, final(arena)@),
    {
        let ghost start = arena@;
        assert(start.links_wf(self));
        arena.clear_children(self);
        proof {
            lemma_fewer_children(start, self, Entries::empty());
        }
        let mut event = self.event(arena);
        let mut node = arena.parent_of(self).unwrap();
        let mut climbing = true;
        while climbing
            invariant
                arena@.wf(),
                arena@.has(node),
                same_nodes(start, arena@),
                start.pruned(self) == (if climbing {
                    arena@.detached(node, event)
                } else {
                    arena@
                }),
            decreases node.index, if climbing { 1nat } else { 0 },
        {
            assert(arena@.links_wf(node));
            let ghost before = arena@;
            arena.unlink(node, event);
            proof {
                lemma_without_key(before.at(node).children, event);
                lemma_fewer_children(
                    before,
                    node,
                    without_key(before.at(node).children, event),
                );
            }
            event = node.event(arena);
            if !arena.is_leaf(node) {
                climbing = false;
            } else {
                match arena.parent_of(node) {
                    Some(parent) => {
                        node = parent;
                    },
                    None => {
                        climbing = false;
                    },
                }
            }
        }
    }

    /// How often each event occurs on the way from the root to the node.
    pub fn count_events(self, arena: &NodeArena) -> (counts: HashMap<u32, usize>)
        requires
            arena@.wf(),
            arena@.has(self),
        ensures
            counts@ == tally(arena@.path_events(self)),
    {
        let mut counts: HashMap<u32, usize> = HashMap::new();
        let mut node = self;
        let ghost mut seen: Seq<u32> = Seq::empty();
        let mut climbing = true;
        assert(counts@ == tally(seen));
        assert(arena@.path_events(self) == arena@.path_events(node) + seen);
        while climbing
            invariant
                arena@.wf(),
                arena@.has(node),
                arena@.path_events(self) == arena@.path_events(node) + seen,
                !climbing ==> arena@.path_events(self) == seen,
                seen.len() + node.index <= self.index,
                counts@ == tally(seen),
            decreases node.index, if climbing { 1nat } else { 0 },
        {
            assert(arena@.links_wf(node));
            match arena.parent_of(node) {
                Some(parent) => {
                    let event = node.event(arena);
                    let ghost before = seen;
                    proof {
                        lemma_occurrences(before, event);
                    }
                    let count = match counts.get(&event) {
                        Some(count) => *count + 1,
                        None => 1,
                    };
                    counts.insert(event, count);
                    proof {
                        seen = seq![event] + before;
                        assert(seen.drop_first() == before);
                        assert(arena@.path_events(parent).push(event) + before
                            == arena@.path_events(parent) + seen);
                        assert forall|e: u32| seen.contains(e) <==> before.contains(e) || e
                            == event by {
                            lemma_occurrences(seen, e);
                            lemma_occurrences(before, e);
                        }
                        assert(counts@ =~= tally(seen));
                    }
                    node = parent;
                },
                None => {
                    climbing = false;
                    assert(arena@.path_events(node) + seen == seen);
                },
            }
        }
        counts
    }
}

impl Clone for NodeRecord {
    fn clone(&self) -> (copy: NodeRecord)
        ensures
            copy@ == self@,
    {
        NodeRecord {
            parent: self.parent,
            seq_no: self.seq_no,
            event: self.event,
            next_seq_no: self.next_seq_no,
            children: self.children.clone(),
        }
    }
}

impl Clone for NodeArena {
    fn clone(&self) -> (copy: NodeArena)
        ensures
            copy@ == self@,
    {
        let mut nodes: Vec<NodeRecord> = Vec::new();
        let mut k: usize = 0;
        while k < self.nodes.len()
            invariant
                k <= self.nodes@.len(),
                nodes@.len() == k,
                forall|j: int| 0 <= j < k ==> (#[trigger] nodes@[j])@ == self.nodes@[j]@,
            decreases self.nodes.len() - k,
        {
            nodes.push(self.nodes[k].clone());
            k += 1;
        }
        let copy = NodeArena { nodes, next_avail_seq_no: self.next_avail_seq_no };
        assert(copy@.nodes =~= self@.nodes);
        copy
    }
}

} // verus!
