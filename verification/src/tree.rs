//! The tree in which events are recorded while a simulation runs.
use std::collections::{HashMap, VecDeque};
use vstd::prelude::*;
use vstd::std_specs::iter::IteratorSpec;
use crate::filter::{BitsProperty, matching, par_matching};
use crate::model::{ArenaView, keeps_numbers, same_shape, tally};
use crate::node::{LedgerNode, NodeArena};
use crate::reach::{lemma_walk_distinct, lemma_walk_parent};
use crate::source::{SrcId, SrcName};
use crate::sources::{
    IdOverlap, SourceTable, SourceView, dict_distinct, dict_has, dict_sound, text_of,
};
use crate::uid::{Uid, uid_code};
use crate::walk::{
    lemma_filter_push, lemma_kids, lemma_leaf_nodes, lemma_walk, lemma_walk_all_concat,
    lemma_walk_has, lemma_walk_single, lemma_walk_step,
};

verus! {

impl ArenaView {
    /// The nodes that can be reached from `queue`, in the order in which a queue passes them on:
    /// each node is followed, after all that were waiting, by its children.
    pub open spec fn level_order(self, queue: Seq<LedgerNode>) -> Seq<LedgerNode>
        decreases self.walk_all(queue).len(),
        when self.wf() && self.has_all(queue)
    {
        if queue.len() == 0 {
            Seq::empty()
        } else {
            proof {
                lemma_queue_step(self, queue);
            }
            seq![queue[0]] + self.level_order(queue.drop_first() + self.kids(queue[0]))
        }
    }

    /// The first node of `order` that hands out the number `seq_id`.
    pub open spec fn first_with_next(self, order: Seq<LedgerNode>, seq_id: u32) -> Option<
        LedgerNode,
    >
        decreases order.len(),
    {
        if order.len() == 0 {
            None
        } else if self.at(order[0]).next_seq_no == Some(seq_id) {
            Some(order[0])
        } else {
            self.first_with_next(order.drop_first(), seq_id)
        }
    }

    /// The node that `uid` stands for in the tree with root `root`.
    pub open spec fn node_of(self, root: LedgerNode, uid: Uid) -> Option<LedgerNode> {
        match self.first_with_next(self.level_order(seq![root]), uid.seq_id) {
            Some(n) => self.child(n, uid.event),
            None => None,
        }
    }

    /// The identifiers of `nodes`.
    pub open spec fn uids(self, nodes: Seq<LedgerNode>) -> Seq<Uid> {
        Seq::new(nodes.len(), |k: int| self.at(nodes[k]).uid().unwrap())
    }

    pub open spec fn all_resolved(self, nodes: Seq<LedgerNode>) -> bool {
        forall|k: int| 0 <= k < nodes.len() ==> self.at(#[trigger] nodes[k]).uid() is Some
    }

    /// `nodes` with the event of each.
    pub open spec fn with_events(self, nodes: Seq<LedgerNode>) -> Seq<(LedgerNode, u32)> {
        Seq::new(nodes.len(), |k: int| (nodes[k], self.at(nodes[k]).event))
    }

    /// By event, and by the code of the identifier of the node that ends it: how often the event
    /// occurs in a chain that ends in one of `leaves`.
    pub open spec fn chain_counts(self, leaves: Seq<LedgerNode>) -> Map<u32, Map<u64, usize>>
        decreases leaves.len(),
    {
        if leaves.len() == 0 {
            Map::empty()
        } else {
            add_tally(
                self.chain_counts(leaves.drop_last()),
                uid_code(self.at(leaves.last()).uid().unwrap()),
                tally(self.path_events(leaves.last())),
            )
        }
    }
}

pub open spec fn counts_at(counts: Map<u32, Map<u64, usize>>, event: u32) -> Map<u64, usize> {
    if counts.contains_key(event) {
        counts[event]
    } else {
        Map::empty()
    }
}

/// `counts` with those of one chain added, under the code of the chain's end.
pub open spec fn add_tally(
    counts: Map<u32, Map<u64, usize>>,
    code: u64,
    chain: Map<u32, usize>,
) -> Map<u32, Map<u64, usize>> {
    Map::new(
        |e: u32| counts.contains_key(e) || chain.contains_key(e),
        |e: u32|
            if chain.contains_key(e) {
                counts_at(counts, e).insert(code, chain[e])
            } else {
                counts[e]
            },
    )
}

pub open spec fn counts_view(counts: Map<u32, HashMap<u64, usize>>) -> Map<u32, Map<u64, usize>> {
    Map::new(|e: u32| counts.contains_key(e), |e: u32| counts[e]@)
}

/// Passing on the head of a queue leaves less to walk.
pub proof fn lemma_queue_step(a: ArenaView, queue: Seq<LedgerNode>)
    requires
        a.wf(),
        a.has_all(queue),
        queue.len() > 0,
    ensures
        a.has_all(queue.drop_first() + a.kids(queue[0])),
        a.walk_all(queue).len() == 1 + a.walk_all(queue.drop_first() + a.kids(queue[0])).len(),
{
    let head = queue[0];
    let rest = queue.drop_first();
    assert(a.has(head));
    lemma_kids(a, head);
    let later = rest + a.kids(head);
    assert forall|k: int| 0 <= k < later.len() implies a.has(#[trigger] later[k]) by {
        if k < rest.len() {
            assert(later[k] == queue[k + 1]);
        } else {
            assert(later[k] == a.kids(head)[k - rest.len()]);
        }
    }
    assert(queue == seq![head] + rest);
    lemma_walk_all_concat(a, seq![head], rest);
    lemma_walk_all_concat(a, rest, a.kids(head));
    lemma_walk_single(a, head);
    lemma_walk(a, head);
}

/// To choose among nodes paired with their events is to choose among the nodes.
proof fn lemma_matching(a: ArenaView, nodes: Seq<LedgerNode>, property: BitsProperty)
    ensures
        matching(a.with_events(nodes), property) == nodes.filter(
            |n: LedgerNode| property.holds(a.at(n).event),
        ),
    decreases nodes.len(),
{
    reveal(Seq::filter);
    let pairs = a.with_events(nodes);
    let test = |pair: (LedgerNode, u32)| property.holds(pair.1);
    if nodes.len() > 0 {
        let rest = nodes.drop_last();
        lemma_matching(a, rest, property);
        assert(pairs.drop_last() == a.with_events(rest));
        if test(pairs.last()) {
            assert(matching(pairs, property) =~= matching(a.with_events(rest), property).push(
                nodes.last(),
            ));
        } else {
            assert(matching(pairs, property) =~= matching(a.with_events(rest), property));
        }
    } else {
        assert(matching(pairs, property) =~= Seq::<LedgerNode>::empty());
    }
}

/// The mathematical model of a [`LedgerTree`].
#[verifier::ext_equal]
pub struct TreeView {
    pub sources: SourceView,
    pub arena: ArenaView,
    pub root: LedgerNode,
}

impl TreeView {
    /// The tree of a new ledger: a root, and nothing else.
    pub open spec fn initial() -> TreeView {
        TreeView {
            sources: SourceView::initial(),
            arena: ArenaView { nodes: Seq::empty(), next_avail_seq_no: 0 }.with_root(),
            root: LedgerNode { index: 0 },
        }
    }

    pub open spec fn wf(self) -> bool {
        &&& self.arena.wf()
        &&& self.arena.has(self.root)
        &&& self.arena.at(self.root).parent is None
    }

    /// `n` stands for an event of the tree: it can be reached from the root, and is not the root.
    pub open spec fn is_event(self, n: LedgerNode) -> bool {
        self.arena.walk(self.root).contains(n) && n != self.root
    }

    /// Some event of the tree is not resolved.
    pub open spec fn dirty(self) -> bool {
        exists|n: LedgerNode| #[trigger] self.is_event(n) && self.arena.at(n).uid() is None
    }

    pub open spec fn leaf_nodes(self) -> Seq<LedgerNode> {
        self.arena.leaf_nodes(self.root)
    }

    pub open spec fn node_of(self, uid: Uid) -> Option<LedgerNode> {
        self.arena.node_of(self.root, uid)
    }

    /// The chain of `uid` can be told: `uid` stands for no node or for one that is resolved.
    pub open spec fn has_chain(self, uid: Uid) -> bool {
        self.node_of(uid) matches Some(n) ==> self.arena.at(n).uid() is Some
    }

    /// The chain that ends in `uid`; empty where `uid` stands for no node.
    pub open spec fn chain(self, uid: Uid) -> Seq<Uid> {
        match self.node_of(uid) {
            Some(n) => self.arena.chain(n),
            None => Seq::empty(),
        }
    }
}

/// Records events in the order in which they lead to each other.
///
/// Events are added below [`LedgerTree::root`] with [`LedgerNode::insert`].
#[derive(Debug)]
pub struct LedgerTree {
    pub sources: SourceTable,
    pub arena: NodeArena,
    pub root: LedgerNode,
}

impl View for LedgerTree {
    type V = TreeView;

    open spec fn view(&self) -> TreeView {
        TreeView {
            sources: self.sources@,
            arena: self.arena@,
            root: self.root,
        }
    }
}

impl LedgerTree {
    pub open spec fn wf(&self) -> bool {
        self.sources.wf() && self@.wf()
    }

    pub fn new() -> (tree: LedgerTree)
        ensures
            tree@ == TreeView::initial(),
            tree.wf(),
    {
        let mut arena = NodeArena::new();
        let root = LedgerNode::root(&mut arena);
        LedgerTree { sources: SourceTable::new(), arena, root }
    }

    pub fn root(&self) -> (root: LedgerNode)
        ensures
            root == self@.root,
    {
        self.root
    }

    pub fn check_ids(&self) -> (overlap: IdOverlap)
        ensures
            overlap.mat == (self@.sources.next_mat_id >= self@.sources.next_matsurf_id),
            overlap.surf == (self@.sources.next_surf_id >= self@.sources.next_matsurf_id),
    {
        self.sources.check_ids()
    }

    pub fn with_light(&mut self, light_name: String) -> (id: SrcId)
        requires
            old(self).wf(),
            old(self)@.sources.accepts_light(),
        ensures
            final(self)@ == (TreeView {
                sources: old(self)@.sources.with_light(light_name@),
                ..old(self)@
            }),
            id == SrcId::Light(old(self)@.sources.next_light_id),
            final(self).wf(),
    {
        self.sources.with_light(light_name)
    }

    pub fn with_surf(&mut self, obj_name: String, grp: Option<String>) -> (id: SrcId)
        requires
            old(self).wf(),
            old(self)@.sources.accepts_surf(text_of(grp)),
        ensures
            final(self)@ == (TreeView {
                sources: old(self)@.sources.with_surf(obj_name@, text_of(grp)),
                ..old(self)@
            }),
            id == old(self)@.sources.surf_id(text_of(grp)),
            final(self).wf(),
    {
        self.sources.with_surf(obj_name, grp)
    }

    pub fn with_mat(&mut self, mat_name: String) -> (id: SrcId)
        requires
            old(self).wf(),
            old(self)@.sources.accepts_mat(),
        ensures
            final(self)@ == (TreeView {
                sources: old(self)@.sources.with_mat(mat_name@),
                ..old(self)@
            }),
            id == SrcId::Mat(old(self)@.sources.next_mat_id),
            final(self).wf(),
    {
        self.sources.with_mat(mat_name)
    }

    pub fn with_matsurf(
        &mut self,
        obj_name: String,
        mat_name: String,
        grp: Option<String>,
    ) -> (id: SrcId)
        requires
            old(self).wf(),
            old(self)@.sources.accepts_matsurf(text_of(grp)),
        ensures
            final(self)@ == (TreeView {
                sources: old(self)@.sources.with_matsurf(obj_name@, mat_name@, text_of(grp)),
                ..old(self)@
            }),
            id == old(self)@.sources.matsurf_id(text_of(grp)),
            final(self).wf(),
    {
        self.sources.with_matsurf(obj_name, mat_name, grp)
    }

    /// All nodes of the tree, the root first.
    pub(crate) fn nodes(&self) -> (nodes: Vec<LedgerNode>)
        requires
            self.wf(),
        ensures
            nodes@ == self@.arena.walk(self@.root),
    {
        let ghost a = self@.arena;
        let mut nodes: Vec<LedgerNode> = Vec::new();
        let mut stack: Vec<LedgerNode> = Vec::new();
        stack.push(self.root);
        proof {
            assert(stack@ == seq![self.root]);
            lemma_walk_single(a, self.root);
            assert(nodes@ + a.walk(self.root) == a.walk(self.root));
        }
        while stack.len() > 0
            invariant
                self.wf(),
                a == self@.arena,
                a.has_all(stack@),
                a.walk(self.root) == nodes@ + a.walk_all(stack@),
            decreases a.walk_all(stack@).len(),
        {
            let ghost before = stack@;
            let ghost done = nodes@;
            let node = stack.pop().unwrap();
            proof {
                assert(node == before.last() && stack@ == before.drop_last());
                assert(a.has(before[before.len() - 1]));
                lemma_walk_step(a, before);
                lemma_kids(a, node);
            }
            nodes.push(node);
            let mut children = node.children(&self.arena);
            stack.append(&mut children);
            assert(nodes@ + a.walk_all(stack@) == done + (seq![node] + a.walk_all(stack@)));
        }
        assert(nodes@ + a.walk_all(stack@) == nodes@);
        nodes
    }

    /// Whether chains may be incomplete because events were added that are not resolved.
    pub fn check_dirty(&self) -> (dirty: bool)
        requires
            self.wf(),
        ensures
            dirty == exists|n: LedgerNode| #[trigger]
                self@.is_event(n) && self@.arena.at(n).uid() is None,
    {
        let ghost a = self@.arena;
        let nodes = self.nodes();
        let mut k: usize = 1;
        proof {
            lemma_walk(a, self.root);
            lemma_walk_has(a, self.root);
            lemma_walk_distinct(a, self.root);
            assert(nodes@[0] == self.root);
        }
        while k < nodes.len()
            invariant
                self.wf(),
                a == self@.arena,
                1 <= k <= nodes@.len(),
                nodes@ == a.walk(self.root),
                a.has_all(nodes@),
                nodes@.no_duplicates(),
                nodes@[0] == self.root,
                forall|i: int| 1 <= i < k ==> a.at(#[trigger] nodes@[i]).uid() is Some,
            decreases nodes.len() - k,
        {
            proof {
                assert(a.has(nodes@[k as int]));
                assert(nodes@.contains(nodes@[k as int]));
                assert(nodes@[k as int] != nodes@[0]);
                assert(self@.is_event(nodes@[k as int]));
            }
            if nodes[k].uid(&self.arena).is_none() {
                return true;
            }
            k += 1;
        }
        proof {
            assert forall|n: LedgerNode| #[trigger] self@.is_event(n) implies a.at(n).uid()
                is Some by {
                let i = choose|i: int| 0 <= i < nodes@.len() && nodes@[i] == n;
                assert(i != 0);
            }
        }
        false
    }

    /// Gives every node of the tree its sequence number.
    pub fn resolve(&mut self)
        requires
            old(self).wf(),
        ensures
            final(self)@ == (TreeView {
                arena: old(self)@.arena.resolved_tree(old(self)@.root),
                ..old(self)@
            }),
            final(self).wf(),
            !final(self)@.dirty(),
            same_shape(old(self)@.arena, final(self)@.arena),
            keeps_numbers(old(self)@.arena, final(self)@.arena),
            forall|n: LedgerNode| #[trigger]
                final(self)@.arena.walk(final(self)@.root).contains(n)
                    ==> final(self)@.arena.is_settled(n),
    {
        let root = self.root;
        assert(self@.arena.has(root));
        self.arena.resolve_tree(root);
        proof {
            assert forall|n: LedgerNode| #[trigger] self@.is_event(n) implies self@.arena.at(
                n,
            ).uid() is Some by {
                lemma_walk_parent(self@.arena, n, root);
                assert(self@.arena.is_settled(n));
            }
        }
    }

    /// The node that `uid` stands for: the child under its event of the node that hands out its
    /// sequence number.
    pub fn get_node(&self, uid: &Uid) -> (node: Option<LedgerNode>)
        requires
            self.wf(),
        ensures
            node == self@.node_of(*uid),
            node matches Some(n) ==> self@.arena.has(n),
    {
        let ghost a = self@.arena;
        let mut queue: VecDeque<LedgerNode> = VecDeque::new();
        queue.push_back(self.root);
        assert(queue@ == seq![self.root]);
        while queue.len() > 0
            invariant
                self.wf(),
                a == self@.arena,
                a.has_all(queue@),
                a.first_with_next(a.level_order(seq![self.root]), uid.seq_id) == a.first_with_next(
                    a.level_order(queue@),
                    uid.seq_id,
                ),
            decreases a.walk_all(queue@).len(),
        {
            let ghost before = queue@;
            let node = queue.pop_front().unwrap();
            proof {
                assert(a.has(before[0]));
                lemma_queue_step(a, before);
                let order = a.level_order(before);
                assert(order.drop_first() == a.level_order(before.drop_first() + a.kids(node)));
                assert(queue@ == before.drop_first());
            }
            if self.arena.next_seq_no_of(node) == Some(uid.seq_id) {
                let child = self.arena.child_of(node, uid.event);
                return child;
            }
            let mut children = node.children(&self.arena);
            let mut k: usize = 0;
            while k < children.len()
                invariant
                    k <= children@.len(),
                    queue@ == before.drop_first() + children@.take(k as int),
                decreases children.len() - k,
            {
                queue.push_back(children[k]);
                k += 1;
            }
            assert(children@.take(k as int) == children@);
        }
        None
    }

    /// The identifiers of the events that led to `uid`, oldest first, and `uid` itself.
    pub fn get_chain(&self, uid: &Uid) -> (chain: Vec<Uid>)
        requires
            self.wf(),
            self@.has_chain(*uid),
        ensures
            chain@ == self@.chain(*uid),
    {
        match self.get_node(uid) {
            Some(node) => node.get_chain(&self.arena),
            None => Vec::new(),
        }
    }

    /// The source of each name. A name that several sources share leads to one of them.
    pub fn get_src_dict(&self) -> (dict: Vec<(SrcName, SrcId)>)
        requires
            self.wf(),
        ensures
            dict_distinct(dict@),
            dict_sound(dict@, self@.sources.names),
            forall|id: SrcId, k: int|
                self@.sources.names.contains_key(id) && 0 <= k < self@.sources.names[id].len()
                    ==> dict_has(dict@, #[trigger] self@.sources.names[id][k]),
    {
        self.sources.get_src_dict()
    }

    /// Cuts `node` off from the tree, see [`LedgerNode::prune`].
    pub fn prune_node(&mut self, node: LedgerNode)
        requires
            old(self).wf(),
            old(self)@.arena.has(node),
            old(self)@.arena.at(node).parent is Some,
        ensures
            final(self)@ == (TreeView { arena: old(self)@.arena.pruned(node), ..old(self)@ }),
            final(self).wf(),
    {
        node.prune(&mut self.arena);
    }

    /// The ends of all chains.
    pub fn get_leaf_nodes(&self) -> (leaves: Vec<LedgerNode>)
        requires
            self.wf(),
        ensures
            leaves@ == self@.leaf_nodes(),
    {
        self.root.get_leaf_nodes(&self.arena)
    }

    /// The identifiers of the ends of all chains.
    pub fn get_leaf_uids(&self) -> (uids: Vec<Uid>)
        requires
            self.wf(),
            self@.arena.all_resolved(self@.leaf_nodes()),
        ensures
            uids@ == self@.arena.uids(self@.leaf_nodes()),
    {
        let leaves = self.get_leaf_nodes();
        let mut uids: Vec<Uid> = Vec::new();
        let mut k: usize = 0;
        proof {
            lemma_leaf_nodes(self@.arena, self@.root);
        }
        while k < leaves.len()
            invariant
                k <= leaves@.len(),
                self@.arena.has_all(leaves@),
                self@.arena.all_resolved(leaves@),
                uids@ == self@.arena.uids(leaves@).take(k as int),
            decreases leaves.len() - k,
        {
            assert(self@.arena.has(leaves@[k as int]));
            let uid = leaves[k].uid(&self.arena).unwrap();
            uids.push(uid);
            k += 1;
        }
        assert(self@.arena.uids(leaves@).take(k as int) == self@.arena.uids(leaves@));
        uids
    }

    /// The nodes without children that nothing outside the tree uses: those that are not among
    /// `held`.
    pub fn get_dangling_nodes(&self, held: &Vec<LedgerNode>) -> (dangling: Vec<LedgerNode>)
        requires
            self.wf(),
        ensures
            dangling@ == self@.arena.dangling_nodes(self@.root, held@),
    {
        self.root.get_dangling_nodes(&self.arena, held)
    }

    /// The ends of chains whose event has the property.
    pub fn get_matching_nodes(&self, bits_property: BitsProperty) -> (nodes: Vec<LedgerNode>)
        requires
            self.wf(),
        ensures
            nodes@ == self@.leaf_nodes().filter(
                |n: LedgerNode| bits_property.holds(self@.arena.at(n).event),
            ),
    {
        let leaves = self.get_leaf_nodes();
        let mut pairs: Vec<(LedgerNode, u32)> = Vec::new();
        let mut k: usize = 0;
        proof {
            lemma_leaf_nodes(self@.arena, self@.root);
        }
        while k < leaves.len()
            invariant
                k <= leaves@.len(),
                self@.arena.has_all(leaves@),
                pairs@ == self@.arena.with_events(leaves@).take(k as int),
            decreases leaves.len() - k,
        {
            assert(self@.arena.has(leaves@[k as int]));
            pairs.push((leaves[k], leaves[k].event(&self.arena)));
            k += 1;
        }
        proof {
            assert(self@.arena.with_events(leaves@).take(k as int) == self@.arena.with_events(
                leaves@,
            ));
            lemma_matching(self@.arena, leaves@, bits_property);
        }
        par_matching(&pairs, &bits_property)
    }

    /// The identifiers of the ends of chains whose event has the property.
    pub fn get_matching_uids(&self, bits_property: BitsProperty) -> (uids: Vec<Uid>)
        requires
            self.wf(),
            self@.arena.all_resolved(self@.leaf_nodes()),
        ensures
            uids@ == self@.arena.uids(self@.leaf_nodes()).filter(
                |uid: Uid| bits_property.holds(uid.event),
            ),
    {
        let all = self.get_leaf_uids();
        let mut uids: Vec<Uid> = Vec::new();
        let mut k: usize = 0;
        let ghost keep = |uid: Uid| bits_property.holds(uid.event);
        proof {
            reveal(Seq::filter);
            assert(all@.take(0) == Seq::<Uid>::empty());
        }
        while k < all.len()
            invariant
                k <= all@.len(),
                keep == (|uid: Uid| bits_property.holds(uid.event)),
                uids@ == all@.take(k as int).filter(keep),
            decreases all.len() - k,
        {
            proof {
                assert(all@.take(k + 1) == all@.take(k as int).push(all@[k as int]));
                lemma_filter_push(all@.take(k as int), all@[k as int], keep);
            }
            if bits_property.matches(all[k].event) {
                uids.push(all[k]);
            }
            k += 1;
        }
        assert(all@.take(k as int) == all@);
        uids
    }

    /// How often each event occurs in each chain: by event, and by the code of the identifier of
    /// the end of the chain.
    pub fn count_events(&self) -> (counts: HashMap<u32, HashMap<u64, usize>>)
        requires
            self.wf(),
            self@.arena.all_resolved(self@.leaf_nodes()),
        ensures
            counts_view(counts@) == self@.arena.chain_counts(self@.leaf_nodes()),
    {
        let leaves = self.get_leaf_nodes();
        let mut counts: HashMap<u32, HashMap<u64, usize>> = HashMap::new();
        let mut k: usize = 0;
        proof {
            lemma_leaf_nodes(self@.arena, self@.root);
            assert(leaves@.take(0) == Seq::<LedgerNode>::empty());
            assert(counts_view(counts@) =~= Map::<u32, Map<u64, usize>>::empty());
        }
        while k < leaves.len()
            invariant
                k <= leaves@.len(),
                self.wf(),
                self@.arena.has_all(leaves@),
                self@.arena.all_resolved(leaves@),
                counts_view(counts@) == self@.arena.chain_counts(leaves@.take(k as int)),
            decreases leaves.len() - k,
        {
            let leaf = leaves[k];
            proof {
                assert(self@.arena.has(leaves@[k as int]));
                assert(leaves@.take(k + 1).drop_last() == leaves@.take(k as int));
                assert(leaves@.take(k + 1).last() == leaf);
            }
            let uid = leaf.uid(&self.arena).unwrap();
            let chain = leaf.count_events(&self.arena);
            add_chain(&mut counts, uid.encode(), &chain);
            k += 1;
        }
        assert(leaves@.take(k as int) == leaves@);
        counts
    }
}

/// The entries of a map that come before position `k` of its listing.
spec fn listed(chain: Map<u32, usize>, entries: Seq<(&u32, &usize)>, k: int) -> Map<u32, usize> {
    Map::new(
        |e: u32| exists|i: int| 0 <= i < k && *(#[trigger] entries[i]).0 == e,
        |e: u32| chain[e],
    )
}

fn add_chain(
    counts: &mut HashMap<u32, HashMap<u64, usize>>,
    code: u64,
    chain: &HashMap<u32, usize>,
)
    ensures
        counts_view(final(counts)@) == add_tally(counts_view(old(counts)@), code, chain@),
{
    let ghost start = counts_view(counts@);
    let ghost entries = chain.iter().remaining();
    assert(counts_view(counts@) =~= add_tally(start, code, listed(chain@, entries, 0)));
    for entry in it: chain.iter()
        invariant
            it.seq() == entries,
            forall|i: int| 0 <= i < entries.len() ==> chain@.contains_key(
                *(#[trigger] entries[i]).0,
            ) && chain@[*entries[i].0] == *entries[i].1,
            counts_view(counts@) == add_tally(
                start,
                code,
                listed(chain@, entries, it.index() as int),
            ),
    {
        let (event, count) = entry;
        let ghost before = counts_view(counts@);
        let ghost k = it.index() as int;
        let mut by_uid = match counts.remove(event) {
            Some(by_uid) => by_uid,
            None => HashMap::new(),
        };
        assert(by_uid@ =~= counts_at(before, *event));
        by_uid.insert(code, *count);
        counts.insert(*event, by_uid);
        proof {
            let now = listed(chain@, entries, k + 1);
            let earlier = listed(chain@, entries, k);
            assert forall|e: u32| #[trigger] now.contains_key(e) <==> earlier.contains_key(e) || e
                == *event by {
                if e == *event {
                    assert(*entries[k].0 == e);
                }
            }
            assert(counts_view(counts@) =~= before.insert(
                *event,
                counts_at(before, *event).insert(code, *count),
            ));
            assert forall|e: u32| #[trigger] add_tally(start, code, now).contains_key(e) implies
                add_tally(start, code, now)[e] == counts_view(counts@)[e] by {
                assert(counts_at(start, e).insert(code, chain@[e]).insert(code, chain@[e])
                    =~= counts_at(start, e).insert(code, chain@[e]));
            }
            assert forall|e: u32| add_tally(start, code, now).contains_key(e) <==> #[trigger]
                counts_view(counts@).contains_key(e) by {
                assert(now.contains_key(e) <==> earlier.contains_key(e) || e == *event);
            }
            assert(counts_view(counts@) =~= add_tally(start, code, now));
        }
    }
    proof {
        assert(listed(chain@, entries, entries.len() as int) =~= chain@) by {
            assert forall|e: u32| chain@.contains_key(e) implies listed(
                chain@,
                entries,
                entries.len() as int,
            ).contains_key(e) by {
                let i = choose|i: int| 0 <= i < entries.len() && entries[i] == (&e, &chain@[e]);
                assert(*entries[i].0 == e);
            }
        }
    }
}

impl Clone for LedgerTree {
    /// A copy of the tree. Changes to the nodes of one do not show in the other.
    fn clone(&self) -> (copy: LedgerTree)
        ensures
            copy@ == self@,
            self.wf() ==> copy.wf(),
    {
        LedgerTree {
            sources: self.sources.clone(),
            arena: self.arena.clone(),
            root: self.root,
        }
    }
}

impl Default for LedgerTree {
    fn default() -> (tree: LedgerTree)
        ensures
            tree@ == TreeView::initial(),
            tree.wf(),
    {
        LedgerTree::new()
    }
}

} // verus!
