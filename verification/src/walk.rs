//! Walking through the nodes of a tree.
use vstd::prelude::*;
use crate::model::{ArenaView, same_shape};
use crate::node::{LedgerNode, NodeArena};

verus! {

impl ArenaView {
    /// The nodes that can be reached from `n`, in the order of a depth-first walk that takes the
    /// youngest child first.
    pub open spec fn walk(self, n: LedgerNode) -> Seq<LedgerNode>
        decreases self.nodes.len() - n.index, 1nat, 0nat,
    {
        if self.has(n) {
            seq![n] + self.walk_kids(n, self.kids(n).len())
        } else {
            Seq::empty()
        }
    }

    /// The part of the walk that leads through the oldest `count` children of `n`.
    pub open spec fn walk_kids(self, n: LedgerNode, count: nat) -> Seq<LedgerNode>
        decreases self.nodes.len() - n.index, 0nat, count,
    {
        if count == 0 {
            Seq::empty()
        } else {
            let kid = self.kids(n)[count - 1];
            let rest = self.walk_kids(n, (count - 1) as nat);
            if n.index < kid.index && self.has(kid) {
                self.walk(kid) + rest
            } else {
                rest
            }
        }
    }

    /// The walks from each of `starts`, from the last of them to the first.
    pub open spec fn walk_all(self, starts: Seq<LedgerNode>) -> Seq<LedgerNode>
        decreases starts.len(),
    {
        if starts.len() == 0 {
            Seq::empty()
        } else {
            self.walk(starts.last()) + self.walk_all(starts.drop_last())
        }
    }

    pub open spec fn has_all(self, nodes: Seq<LedgerNode>) -> bool {
        forall|k: int| 0 <= k < nodes.len() ==> self.has(#[trigger] nodes[k])
    }

    /// A node that ends a chain of events: one with no children that is not a root.
    pub open spec fn ends_chain(self, n: LedgerNode) -> bool {
        self.at(n).is_leaf() && self.at(n).parent is Some
    }

    /// The ends of all chains that lead through `n`.
    pub open spec fn leaf_nodes(self, n: LedgerNode) -> Seq<LedgerNode> {
        self.walk(n).filter(|m: LedgerNode| self.ends_chain(m))
    }

    /// The nodes without children below `n` that are not among `held`.
    pub open spec fn dangling_nodes(self, n: LedgerNode, held: Seq<LedgerNode>) -> Seq<LedgerNode> {
        self.walk(n).filter(|m: LedgerNode| self.at(m).is_leaf() && !held.contains(m))
    }
}

pub proof fn lemma_kids(a: ArenaView, n: LedgerNode)
    requires
        a.wf(),
        a.has(n),
    ensures
        a.has_all(a.kids(n)),
        forall|k: int|
            0 <= k < a.kids(n).len() ==> {
                &&& n.index < (#[trigger] a.kids(n)[k]).index
                &&& a.at(a.kids(n)[k]).parent == Some(n)
            },
{
    assert(a.links_wf(n));
    assert forall|k: int| 0 <= k < a.kids(n).len() implies {
        &&& a.has(#[trigger] a.kids(n)[k])
        &&& n.index < a.kids(n)[k].index
        &&& a.at(a.kids(n)[k]).parent == Some(n)
    } by {
        assert(a.entry_wf(n, a.at(n).children[k]));
    }
}

proof fn lemma_walk_kids(a: ArenaView, n: LedgerNode, count: nat)
    requires
        a.wf(),
        a.has(n),
        count <= a.kids(n).len(),
    ensures
        a.walk_kids(n, count) == a.walk_all(a.kids(n).take(count as int)),
    decreases count,
{
    if count > 0 {
        lemma_kids(a, n);
        lemma_walk_kids(a, n, (count - 1) as nat);
        let s = a.kids(n).take(count as int);
        assert(s.drop_last() == a.kids(n).take(count - 1));
        assert(s.last() == a.kids(n)[count - 1]);
    }
}

/// A walk from a node is the node, followed by the walks from its children.
pub proof fn lemma_walk(a: ArenaView, n: LedgerNode)
    requires
        a.wf(),
        a.has(n),
    ensures
        a.walk(n) == seq![n] + a.walk_all(a.kids(n)),
{
    lemma_walk_kids(a, n, a.kids(n).len());
    assert(a.kids(n).take(a.kids(n).len() as int) == a.kids(n));
}

pub proof fn lemma_walk_all_concat(a: ArenaView, s: Seq<LedgerNode>, t: Seq<LedgerNode>)
    ensures
        a.walk_all(s + t) == a.walk_all(t) + a.walk_all(s),
    decreases t.len(),
{
    if t.len() == 0 {
        assert(s + t == s);
        assert(a.walk_all(t) + a.walk_all(s) == a.walk_all(s));
    } else {
        lemma_walk_all_concat(a, s, t.drop_last());
        assert((s + t).drop_last() == s + t.drop_last());
        assert((s + t).last() == t.last());
        assert(a.walk(t.last()) + (a.walk_all(t.drop_last()) + a.walk_all(s)) == (a.walk(t.last())
            + a.walk_all(t.drop_last())) + a.walk_all(s));
    }
}

/// What is left to walk when the last of the starting points is replaced by its children.
pub proof fn lemma_walk_step(a: ArenaView, starts: Seq<LedgerNode>)
    requires
        a.wf(),
        starts.len() > 0,
        a.has(starts.last()),
    ensures
        a.walk_all(starts) == seq![starts.last()] + a.walk_all(
            starts.drop_last() + a.kids(starts.last()),
        ),
{
    let n = starts.last();
    lemma_walk(a, n);
    lemma_walk_all_concat(a, starts.drop_last(), a.kids(n));
    assert((seq![n] + a.walk_all(a.kids(n))) + a.walk_all(starts.drop_last()) == seq![n] + (
    a.walk_all(a.kids(n)) + a.walk_all(starts.drop_last())));
}

/// The walk from one node, seen as a walk from a list of starting points.
pub proof fn lemma_walk_single(a: ArenaView, n: LedgerNode)
    ensures
        a.walk_all(seq![n]) == a.walk(n),
{
    let s = seq![n];
    assert(s.drop_last() == Seq::<LedgerNode>::empty());
    assert(a.walk_all(s.drop_last()) == Seq::<LedgerNode>::empty());
    assert(a.walk(n) + Seq::<LedgerNode>::empty() == a.walk(n));
}

pub proof fn lemma_filter_push<A>(s: Seq<A>, x: A, keep: spec_fn(A) -> bool)
    ensures
        s.push(x).filter(keep) == if keep(x) {
            s.filter(keep).push(x)
        } else {
            s.filter(keep)
        },
{
    reveal(Seq::filter);
    assert(s.push(x).drop_last() == s);
}

/// Walks depend only on the shape of the trees.
pub proof fn lemma_walk_same_shape(a: ArenaView, b: ArenaView, n: LedgerNode)
    requires
        a.wf(),
        b.wf(),
        same_shape(a, b),
    ensures
        a.walk(n) == b.walk(n),
    decreases a.nodes.len() - n.index, 1nat, 0nat,
{
    if a.has(n) {
        assert(a.kids(n) == b.kids(n));
        lemma_walk_kids_same_shape(a, b, n, a.kids(n).len());
    }
}

proof fn lemma_walk_kids_same_shape(a: ArenaView, b: ArenaView, n: LedgerNode, count: nat)
    requires
        a.wf(),
        b.wf(),
        same_shape(a, b),
        a.has(n),
        count <= a.kids(n).len(),
    ensures
        a.walk_kids(n, count) == b.walk_kids(n, count),
    decreases a.nodes.len() - n.index, 0nat, count,
{
    assert(a.kids(n) == b.kids(n));
    if count > 0 {
        lemma_kids(a, n);
        lemma_walk_kids_same_shape(a, b, n, (count - 1) as nat);
        lemma_walk_same_shape(a, b, a.kids(n)[count - 1]);
    }
}

/// A walk stays among the nodes of the arena.
pub proof fn lemma_walk_has(a: ArenaView, n: LedgerNode)
    requires
        a.wf(),
    ensures
        a.has_all(a.walk(n)),
    decreases a.nodes.len() - n.index, 1nat, 0nat,
{
    if a.has(n) {
        lemma_walk_kids_has(a, n, a.kids(n).len());
        let w = a.walk(n);
        let t = a.walk_kids(n, a.kids(n).len());
        assert forall|k: int| 0 <= k < w.len() implies a.has(#[trigger] w[k]) by {
            if k > 0 {
                assert(w[k] == t[k - 1]);
            }
        }
    }
}

proof fn lemma_walk_kids_has(a: ArenaView, n: LedgerNode, count: nat)
    requires
        a.wf(),
        a.has(n),
        count <= a.kids(n).len(),
    ensures
        a.has_all(a.walk_kids(n, count)),
    decreases a.nodes.len() - n.index, 0nat, count,
{
    if count > 0 {
        lemma_kids(a, n);
        lemma_walk_kids_has(a, n, (count - 1) as nat);
        let kid = a.kids(n)[count - 1];
        lemma_walk_has(a, kid);
        let w = a.walk_kids(n, count);
        let s = a.walk(kid);
        let t = a.walk_kids(n, (count - 1) as nat);
        assert forall|k: int| 0 <= k < w.len() implies a.has(#[trigger] w[k]) by {
            if k < s.len() {
                assert(w[k] == s[k]);
            } else {
                assert(w[k] == t[k - s.len()]);
            }
        }
    }
}

/// What a filter keeps, it takes from the sequence, and it passes the test.
pub proof fn lemma_filter_from<A>(s: Seq<A>, keep: spec_fn(A) -> bool)
    ensures
        forall|k: int|
            0 <= k < s.filter(keep).len() ==> s.contains(#[trigger] s.filter(keep)[k]) && keep(
                s.filter(keep)[k],
            ),
    decreases s.len(),
{
    reveal(Seq::filter);
    if s.len() > 0 {
        let t = s.drop_last();
        lemma_filter_from(t, keep);
        assert forall|k: int| 0 <= k < s.filter(keep).len() implies s.contains(
            #[trigger] s.filter(keep)[k],
        ) && keep(s.filter(keep)[k]) by {
            if k < t.filter(keep).len() {
                assert(s.filter(keep)[k] == t.filter(keep)[k]);
                let i = choose|i: int| 0 <= i < t.len() && t[i] == t.filter(keep)[k];
                assert(s[i] == t[i]);
            } else {
                assert(s[s.len() - 1] == s.filter(keep)[k]);
            }
        }
    }
}

/// The ends of chains are nodes of the walk.
pub proof fn lemma_leaf_nodes(a: ArenaView, n: LedgerNode)
    requires
        a.wf(),
    ensures
        a.has_all(a.leaf_nodes(n)),
        forall|k: int|
            0 <= k < a.leaf_nodes(n).len() ==> a.ends_chain(#[trigger] a.leaf_nodes(n)[k])
                && a.walk(n).contains(a.leaf_nodes(n)[k]),
{
    lemma_walk_has(a, n);
    let keep = |m: LedgerNode| a.ends_chain(m);
    let leaves = a.leaf_nodes(n);
    assert forall|k: int| 0 <= k < leaves.len() implies a.has(#[trigger] leaves[k])
        && a.ends_chain(leaves[k]) && a.walk(n).contains(leaves[k]) by {
        lemma_filter_from(a.walk(n), keep);
    }
}

impl LedgerNode {
    /// The ends of all chains that lead through the node.
    pub fn get_leaf_nodes(self, arena: &NodeArena) -> (leaves: Vec<LedgerNode>)
        requires
            arena@.wf(),
            arena@.has(self),
        ensures
            leaves@ == arena@.leaf_nodes(self),
    {
        let mut leaves: Vec<LedgerNode> = Vec::new();
        let mut stack: Vec<LedgerNode> = Vec::new();
        stack.push(self);
        let ghost mut visited: Seq<LedgerNode> = Seq::empty();
        let ghost keep = |m: LedgerNode| arena@.ends_chain(m);
        proof {
            reveal(Seq::filter);
            assert(stack@ == seq![self]);
            lemma_walk_single(arena@, self);
            assert(visited + arena@.walk(self) == arena@.walk(self));
        }
        while stack.len() > 0
            invariant
                arena@.wf(),
                arena@.has_all(stack@),
                arena@.walk(self) == visited + arena@.walk_all(stack@),
                keep == (|m: LedgerNode| arena@.ends_chain(m)),
                leaves@ == visited.filter(keep),
            decreases arena@.walk_all(stack@).len(),
        {
            let ghost before = stack@;
            let node = stack.pop().unwrap();
            proof {
                assert(node == before.last() && stack@ == before.drop_last());
                assert(arena@.has(before[before.len() - 1]));
                lemma_walk_step(arena@, before);
                lemma_kids(arena@, node);
                lemma_filter_push(visited, node, keep);
            }
            if arena.is_leaf(node) {
                if arena.parent_of(node).is_some() {
                    leaves.push(node);
                }
                assert(stack@ == before.drop_last() + arena@.kids(node));
            } else {
                let mut children = node.children(arena);
                stack.append(&mut children);
            }
            proof {
                assert(visited.push(node) + arena@.walk_all(stack@) == visited + (seq![node]
                    + arena@.walk_all(stack@)));
                visited = visited.push(node);
            }
        }
        assert(visited + arena@.walk_all(stack@) == visited);
        leaves
    }

    /// The nodes without children below the node that nothing outside the tree uses: those that
    /// are not among `held`.
    pub fn get_dangling_nodes(self, arena: &NodeArena, held: &Vec<LedgerNode>) -> (dangling: Vec<
        LedgerNode,
    >)
        requires
            arena@.wf(),
            arena@.has(self),
        ensures
            dangling@ == arena@.dangling_nodes(self, held@),
    {
        let mut dangling: Vec<LedgerNode> = Vec::new();
        let mut stack: Vec<LedgerNode> = Vec::new();
        stack.push(self);
        let ghost mut visited: Seq<LedgerNode> = Seq::empty();
        let ghost keep = |m: LedgerNode| arena@.at(m).is_leaf() && !held@.contains(m);
        proof {
            reveal(Seq::filter);
            assert(stack@ == seq![self]);
            lemma_walk_single(arena@, self);
            assert(visited + arena@.walk(self) == arena@.walk(self));
        }
        while stack.len() > 0
            invariant
                arena@.wf(),
                arena@.has_all(stack@),
                arena@.walk(self) == visited + arena@.walk_all(stack@),
                keep == (|m: LedgerNode| arena@.at(m).is_leaf() && !held@.contains(m)),
                dangling@ == visited.filter(keep),
            decreases arena@.walk_all(stack@).len(),
        {
            let ghost before = stack@;
            let node = stack.pop().unwrap();
            proof {
                assert(node == before.last() && stack@ == before.drop_last());
                assert(arena@.has(before[before.len() - 1]));
                lemma_walk_step(arena@, before);
                lemma_kids(arena@, node);
                lemma_filter_push(visited, node, keep);
            }
            if arena.is_leaf(node) {
                if !is_among(node, held) {
                    dangling.push(node);
                }
                assert(stack@ == before.drop_last() + arena@.kids(node));
            } else {
                let mut children = node.children(arena);
                stack.append(&mut children);
            }
            proof {
                assert(visited.push(node) + arena@.walk_all(stack@) == visited + (seq![node]
                    + arena@.walk_all(stack@)));
                visited = visited.push(node);
            }
        }
        assert(visited + arena@.walk_all(stack@) == visited);
        dangling
    }
}

fn is_among(node: LedgerNode, nodes: &Vec<LedgerNode>) -> (found: bool)
    ensures
        found == nodes@.contains(node),
{
    let mut k: usize = 0;
    while k < nodes.len()
        invariant
            k <= nodes.len(),
            forall|j: int| 0 <= j < k ==> nodes@[j] != node,
        decreases nodes.len() - k,
    {
        if nodes[k] == node {
            assert(nodes@[k as int] == node);
            return true;
        }
        k += 1;
    }
    false
}

} // verus!
