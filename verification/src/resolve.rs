//! Giving all nodes of a tree their sequence numbers.
use vstd::prelude::*;
use crate::model::{ArenaView, keeps_numbers, lemma_numbered, lemma_take_seq_no, same_shape};
use crate::node::{LedgerNode, NodeArena};
use crate::walk::{lemma_kids, lemma_walk_same_shape, lemma_walk_single, lemma_walk_step};

verus! {

impl ArenaView {
    /// The arena after each of `nodes` was given `number` as its sequence number.
    pub open spec fn with_seq_nos(self, nodes: Seq<LedgerNode>, number: u32) -> ArenaView
        decreases nodes.len(),
    {
        if nodes.len() == 0 {
            self
        } else {
            let rest = self.with_seq_nos(nodes.drop_last(), number);
            rest.set(nodes.last(), rest.at(nodes.last()).with_seq_no(number))
        }
    }

    /// The arena after `n` was given a number for its children, unless it had one, and handed it
    /// to them.
    pub open spec fn shared(self, n: LedgerNode) -> ArenaView {
        let next = self.numbered(n);
        next.with_seq_nos(next.kids(n), next.at(n).next_seq_no.unwrap())
    }

    /// The arena after each node of `order`, from first to last, handed a number to its children.
    pub open spec fn all_shared(self, order: Seq<LedgerNode>) -> ArenaView
        decreases order.len(),
    {
        if order.len() == 0 {
            self
        } else {
            self.all_shared(order.drop_last()).shared(order.last())
        }
    }

    /// The arena after the tree with root `root` was resolved.
    pub open spec fn resolved_tree(self, root: LedgerNode) -> ArenaView {
        self.all_shared(self.walk(root))
    }

    /// The node can hand out numbers: it is a root or has a number of its own.
    pub open spec fn may_number(self, n: LedgerNode) -> bool {
        self.at(n).parent is None || self.at(n).seq_no is Some
    }

    /// The node has all the numbers that resolving gives it.
    pub open spec fn is_settled(self, n: LedgerNode) -> bool {
        self.may_number(n) && self.at(n).next_seq_no is Some
    }
}

pub proof fn lemma_with_seq_nos(a: ArenaView, n: LedgerNode, nodes: Seq<LedgerNode>, number: u32)
    requires
        a.wf(),
        a.has(n),
        a.at(n).next_seq_no == Some(number),
        forall|k: int|
            0 <= k < nodes.len() ==> a.has(#[trigger] nodes[k]) && a.at(nodes[k]).parent == Some(n),
    ensures
        a.with_seq_nos(nodes, number).wf(),
        same_shape(a, a.with_seq_nos(nodes, number)),
        keeps_numbers(a, a.with_seq_nos(nodes, number)),
        a.with_seq_nos(nodes, number).next_avail_seq_no == a.next_avail_seq_no,
        forall|k: int|
            0 <= k < nodes.len() ==> a.with_seq_nos(nodes, number).at(
                #[trigger] nodes[k],
            ).seq_no == Some(number),
        forall|m: LedgerNode| #[trigger]
            a.has(m) ==> {
                &&& a.with_seq_nos(nodes, number).at(m).next_seq_no == a.at(m).next_seq_no
                &&& nodes.contains(m) || a.with_seq_nos(nodes, number).at(m) == a.at(m)
            },
    decreases nodes.len(),
{
    if nodes.len() > 0 {
        let before = nodes.drop_last();
        let m = nodes.last();
        assert(a.has(nodes[nodes.len() - 1]));
        assert forall|k: int| 0 <= k < before.len() implies a.has(#[trigger] before[k]) && a.at(
            before[k],
        ).parent == Some(n) by {
            assert(before[k] == nodes[k]);
        }
        lemma_with_seq_nos(a, n, before, number);
        let rest = a.with_seq_nos(before, number);
        let done = a.with_seq_nos(nodes, number);
        assert(rest.has(m));
        assert(a.numbers_wf(m));
        assert(rest.has(n));
        lemma_seq_no_of_child(rest, m, n, number);
        lemma_take_seq_no(rest, m, n, number);
        assert forall|k: int| 0 <= k < nodes.len() implies done.at(#[trigger] nodes[k]).seq_no
            == Some(number) by {
            if k < before.len() {
                assert(before[k] == nodes[k]);
            }
        }
        assert forall|x: LedgerNode| #[trigger] a.has(x) implies {
            &&& done.at(x).next_seq_no == a.at(x).next_seq_no
            &&& nodes.contains(x) || done.at(x) == a.at(x)
        } by {
            assert(rest.has(x));
            if before.contains(x) {
                let k = choose|k: int| 0 <= k < before.len() && before[k] == x;
                assert(nodes[k] == x);
            }
            if x == m {
                assert(nodes[nodes.len() - 1] == x);
            }
        }
    }
}

proof fn lemma_seq_no_of_child(a: ArenaView, m: LedgerNode, n: LedgerNode, number: u32)
    requires
        a.wf(),
        a.has(m),
        a.at(m).parent == Some(n),
        a.at(n).next_seq_no == Some(number),
    ensures
        a.at(m).seq_no is None || a.at(m).seq_no == Some(number),
{
    assert(a.numbers_wf(m));
}

pub proof fn lemma_shared(a: ArenaView, n: LedgerNode)
    requires
        a.wf(),
        a.has(n),
        a.may_number(n),
    ensures
        a.shared(n).wf(),
        same_shape(a, a.shared(n)),
        keeps_numbers(a, a.shared(n)),
        a.shared(n).is_settled(n),
        forall|k: int|
            0 <= k < a.kids(n).len() ==> a.shared(n).at(#[trigger] a.kids(n)[k]).seq_no is Some,
        a.shared(n).next_avail_seq_no == a.numbered(n).next_avail_seq_no,
        forall|m: LedgerNode| #[trigger]
            a.has(m) ==> a.shared(n).at(m).next_seq_no == a.numbered(n).at(m).next_seq_no,
{
    lemma_numbered(a, n);
    let next = a.numbered(n);
    assert(next.has(n));
    assert(next.kids(n) == a.kids(n));
    lemma_kids(next, n);
    lemma_with_seq_nos(next, n, next.kids(n), next.at(n).next_seq_no.unwrap());
    lemma_shape_trans(a, next, a.shared(n));
    assert forall|m: LedgerNode| #[trigger] a.has(m) implies a.shared(n).at(m).next_seq_no
        == a.numbered(n).at(m).next_seq_no by {
        assert(next.has(m));
    }
}

impl NodeArena {
    /// Hands a number to the children of `n`.
    fn share(&mut self, n: LedgerNode, children: &Vec<LedgerNode>)
        requires
            old(self)@.wf(),
            old(self)@.has(n),
            old(self)@.may_number(n),
            children@ == old(self)@.kids(n),
        ensures
            final(self)@ == old(self)@.shared(n),
    {
        let number = self.number(n);
        let ghost next = self@;
        proof {
            lemma_numbered(old(self)@, n);
            assert(next.has(n));
            assert(next.kids(n) == children@);
            lemma_kids(next, n);
        }
        let mut k: usize = 0;
        assert(children@.take(0) == Seq::<LedgerNode>::empty());
        while k < children.len()
            invariant
                next.wf(),
                next.has(n),
                next.at(n).next_seq_no == Some(number),
                k <= children@.len(),
                forall|j: int|
                    0 <= j < children@.len() ==> next.has(#[trigger] children@[j]) && next.at(
                        children@[j],
                    ).parent == Some(n),
                self@ == next.with_seq_nos(children@.take(k as int), number),
            decreases children.len() - k,
        {
            let ghost done = children@.take(k as int);
            proof {
                assert(next.has(children@[k as int]));
                lemma_with_seq_nos(next, n, done, number);
                assert(children@.take(k + 1).drop_last() == done);
                assert(children@.take(k + 1).last() == children@[k as int]);
            }
            self.set_seq_no(children[k], number);
            k += 1;
        }
        assert(children@.take(k as int) == children@);
    }

    /// Gives every node that can be reached from `root` its sequence number, and one for its
    /// children.
    pub fn resolve_tree(&mut self, root: LedgerNode)
        requires
            old(self)@.wf(),
            old(self)@.has(root),
            old(self)@.may_number(root),
        ensures
            final(self)@ == old(self)@.resolved_tree(root),
            final(self)@.wf(),
            same_shape(old(self)@, final(self)@),
            keeps_numbers(old(self)@, final(self)@),
            forall|n: LedgerNode| #[trigger]
                final(self)@.walk(root).contains(n) ==> final(self)@.is_settled(n),
    {
        let ghost start = self@;
        let mut stack: Vec<LedgerNode> = Vec::new();
        stack.push(root);
        let ghost mut visited: Seq<LedgerNode> = Seq::empty();
        proof {
            assert(stack@ == seq![root]);
            lemma_walk_single(start, root);
            assert(visited + start.walk(root) == start.walk(root));
        }
        while stack.len() > 0
            invariant
                start.wf(),
                self@.wf(),
                same_shape(start, self@),
                keeps_numbers(start, self@),
                self@.has_all(stack@),
                forall|k: int| 0 <= k < stack@.len() ==> self@.may_number(#[trigger] stack@[k]),
                self@.has_all(visited),
                forall|k: int| 0 <= k < visited.len() ==> self@.is_settled(#[trigger] visited[k]),
                start.walk(root) == visited + start.walk_all(stack@),
                self@ == start.all_shared(visited),
            decreases start.walk_all(stack@).len(),
        {
            let ghost before = stack@;
            let ghost current = self@;
            let node = stack.pop().unwrap();
            proof {
                assert(node == before.last() && stack@ == before.drop_last());
                assert(current.has(before[before.len() - 1]));
                assert(current.may_number(before[before.len() - 1]));
                assert(start.has(node));
                lemma_walk_step(start, before);
                lemma_kids(current, node);
                lemma_shared(current, node);
                assert(start.kids(node) == current.kids(node));
            }
            let mut children = node.children(self);
            self.share(node, &children);
            let ghost kids = children@;
            stack.append(&mut children);
            proof {
                assert(stack@ == before.drop_last() + kids);
                assert forall|k: int| 0 <= k < stack@.len() implies self@.may_number(
                    #[trigger] stack@[k],
                ) && self@.has(stack@[k]) by {
                    if k < before.len() - 1 {
                        assert(stack@[k] == before[k]);
                        assert(current.has(before[k]));
                    } else {
                        assert(stack@[k] == kids[k - (before.len() - 1)]);
                    }
                }
                assert(visited.push(node).drop_last() == visited);
                assert(visited.push(node) + start.walk_all(stack@) == visited + (seq![node]
                    + start.walk_all(stack@)));
                let later = visited.push(node);
                assert forall|k: int| 0 <= k < later.len() implies self@.is_settled(
                    #[trigger] later[k],
                ) && self@.has(later[k]) by {
                    if k < visited.len() {
                        assert(later[k] == visited[k]);
                        assert(current.has(visited[k]));
                        assert(current.is_settled(visited[k]));
                    }
                }
                lemma_shape_trans(start, current, self@);
                visited = later;
            }
        }
        proof {
            assert(visited + start.walk_all(stack@) == visited);
            lemma_walk_same_shape(start, self@, root);
        }
    }
}

pub proof fn lemma_shape_trans(a: ArenaView, b: ArenaView, c: ArenaView)
    requires
        same_shape(a, b),
        same_shape(b, c),
        keeps_numbers(a, b),
        keeps_numbers(b, c),
    ensures
        same_shape(a, c),
        keeps_numbers(a, c),
{
    assert forall|n: LedgerNode| #[trigger] a.has(n) implies b.has(n) by {}
}

} // verus!
