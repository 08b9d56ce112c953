//! Ledgers from trees, and trees from ledgers.
use std::collections::HashSet;
use vstd::prelude::*;
use crate::ledger::{Ledger, LedgerView};
use crate::maps::{Entries, without_key};
use crate::model::{ArenaView, same_nodes};
use crate::node::{LedgerNode, NodeArena};
use crate::reach::{
    lemma_contains_concat, lemma_distinct_concat, lemma_kids_distinct, lemma_linked,
    lemma_walk_closed, lemma_walk_distinct, lemma_walk_parent,
};
use crate::tree::{LedgerTree, TreeView};
use crate::uid::{Uid, uid_code, uid_code_is_injective};
use crate::walk::{lemma_kids, lemma_walk, lemma_walk_has, lemma_walk_step};

verus! {

impl ArenaView {
    /// The children of each node of `order`, from first to last.
    pub open spec fn kids_of_all(self, order: Seq<LedgerNode>) -> Seq<LedgerNode>
        decreases order.len(),
    {
        if order.len() == 0 {
            Seq::empty()
        } else {
            self.kids_of_all(order.drop_last()) + self.kids(order.last())
        }
    }
}

impl LedgerView {
    /// The ledger after identifiers were entered, each with the number of its follow-ups.
    pub open spec fn with_entries(self, entries: Seq<(Uid, u32)>) -> LedgerView
        decreases entries.len(),
    {
        if entries.len() == 0 {
            self
        } else {
            self.with_entries(entries.drop_last()).with_entry(entries.last().0, entries.last().1)
        }
    }
}

impl TreeView {
    pub open spec fn is_start(self, n: LedgerNode) -> bool {
        self.arena.at(n).parent == Some(self.root)
    }

    /// The number that a ledger has for the follow-ups of `n`. For a start event that is always
    /// 1.
    pub open spec fn recorded_number(self, n: LedgerNode) -> u32 {
        if self.is_start(n) {
            1
        } else {
            self.arena.at(n).next_seq_no.unwrap()
        }
    }

    /// The nodes of the tree, in the order in which a ledger takes them in.
    pub open spec fn entered(self) -> Seq<LedgerNode> {
        self.arena.kids_of_all(self.arena.walk(self.root))
    }

    /// What a ledger takes in.
    pub open spec fn entries(self) -> Seq<(Uid, u32)> {
        Seq::new(
            self.entered().len(),
            |k: int|
                (
                    self.arena.at(self.entered()[k]).uid().unwrap(),
                    self.recorded_number(self.entered()[k]),
                ),
        )
    }

    /// `n` has the numbers that a ledger needs: its own, and one for its children. A start event
    /// that has follow-ups gives them the number that is recorded for it.
    pub open spec fn has_numbers(self, n: LedgerNode) -> bool {
        &&& self.arena.at(n).uid() is Some
        &&& if self.is_start(n) {
            self.arena.at(n).is_leaf() || self.arena.at(n).next_seq_no == Some(1u32)
        } else {
            self.arena.at(n).next_seq_no is Some
        }
    }

    /// A ledger can take the tree in: all nodes have their numbers, and different nodes have
    /// different identifiers.
    pub open spec fn convertible(self) -> bool {
        &&& forall|n: LedgerNode| #[trigger] self.is_event(n) ==> self.has_numbers(n)
        &&& forall|m: LedgerNode, n: LedgerNode| #[trigger]
            self.is_event(m) && #[trigger] self.is_event(n) && m != n ==> self.arena.at(m).uid()
                != self.arena.at(n).uid()
    }

    /// The ledger of the tree.
    pub open spec fn to_ledger(self) -> LedgerView {
        LedgerView {
            sources: self.sources,
            start_events: self.arena.uids(self.arena.kids(self.root)),
            next_seq_id: self.arena.next_avail_seq_no,
            ..LedgerView::initial().with_entries(self.entries())
        }
    }
}

pub proof fn lemma_kids_of_all_concat(a: ArenaView, s: Seq<LedgerNode>, t: Seq<LedgerNode>)
    ensures
        a.kids_of_all(s + t) == a.kids_of_all(s) + a.kids_of_all(t),
    decreases t.len(),
{
    if t.len() == 0 {
        assert(s + t == s);
        assert(a.kids_of_all(s) + a.kids_of_all(t) == a.kids_of_all(s));
    } else {
        lemma_kids_of_all_concat(a, s, t.drop_last());
        assert((s + t).drop_last() == s + t.drop_last());
        assert((s + t).last() == t.last());
        assert(a.kids_of_all(s + t) =~= a.kids_of_all(s) + a.kids_of_all(t));
    }
}

proof fn lemma_kids_of_all(a: ArenaView, order: Seq<LedgerNode>)
    requires
        a.wf(),
        a.has_all(order),
        order.no_duplicates(),
    ensures
        a.kids_of_all(order).no_duplicates(),
        forall|n: LedgerNode| #[trigger]
            a.kids_of_all(order).contains(n) ==> a.at(n).parent is Some && order.contains(
                a.at(n).parent.unwrap(),
            ) && a.kids(a.at(n).parent.unwrap()).contains(n),
        forall|p: LedgerNode, n: LedgerNode|
            order.contains(p) && #[trigger] a.kids(p).contains(n) ==> a.kids_of_all(
                order,
            ).contains(n),
    decreases order.len(),
{
    if order.len() > 0 {
        let rest = order.drop_last();
        let last = order.last();
        assert(a.has(order[order.len() - 1]));
        assert(a.has_all(rest)) by {
            assert forall|k: int| 0 <= k < rest.len() implies a.has(#[trigger] rest[k]) by {
                assert(rest[k] == order[k]);
            }
        }
        assert(rest.no_duplicates()) by {
            assert forall|i: int, j: int|
                0 <= i < rest.len() && 0 <= j < rest.len() && i != j implies rest[i]
                != rest[j] by {
                assert(order[i] != order[j]);
            }
        }
        lemma_kids_of_all(a, rest);
        lemma_kids(a, last);
        lemma_kids_distinct(a, last);
        let s = a.kids_of_all(rest);
        let t = a.kids(last);
        assert(!rest.contains(last)) by {
            if rest.contains(last) {
                let i = choose|i: int| 0 <= i < rest.len() && rest[i] == last;
                assert(order[i] != order[order.len() - 1]);
            }
        }
        assert forall|x: LedgerNode| !(s.contains(x) && #[trigger] t.contains(x)) by {
            if t.contains(x) {
                let k = choose|k: int| 0 <= k < t.len() && t[k] == x;
                assert(a.at(a.kids(last)[k]).parent == Some(last));
            }
        }
        lemma_distinct_concat(s, t);
        assert forall|n: LedgerNode| #[trigger] a.kids_of_all(order).contains(n) implies a.at(
            n,
        ).parent is Some && order.contains(a.at(n).parent.unwrap()) && a.kids(
            a.at(n).parent.unwrap(),
        ).contains(n) by {
            lemma_contains_concat(s, t, n);
            if s.contains(n) {
                let p = a.at(n).parent.unwrap();
                let i = choose|i: int| 0 <= i < rest.len() && rest[i] == p;
                assert(order[i] == p);
            } else {
                let k = choose|k: int| 0 <= k < t.len() && t[k] == n;
                assert(a.at(a.kids(last)[k]).parent == Some(last));
                assert(order[order.len() - 1] == last);
            }
        }
        assert forall|p: LedgerNode, n: LedgerNode|
            order.contains(p) && #[trigger] a.kids(p).contains(n) implies a.kids_of_all(
            order,
        ).contains(n) by {
            lemma_contains_concat(s, t, n);
            let i = choose|i: int| 0 <= i < order.len() && order[i] == p;
            if i < rest.len() {
                assert(rest[i] == p);
                assert(rest.contains(p));
            }
        }
    }
}

/// A ledger takes in each event of the tree once.
pub proof fn lemma_entered(t: TreeView)
    requires
        t.wf(),
    ensures
        t.entered().no_duplicates(),
        forall|n: LedgerNode| #[trigger] t.entered().contains(n) <==> t.is_event(n),
{
    let a = t.arena;
    let order = a.walk(t.root);
    lemma_walk_distinct(a, t.root);
    lemma_walk_has(a, t.root);
    lemma_kids_of_all(a, order);
    assert forall|n: LedgerNode| #[trigger] t.entered().contains(n) <==> t.is_event(n) by {
        if t.entered().contains(n) {
            lemma_walk_closed(a, t.root, a.at(n).parent.unwrap(), n);
        }
        if t.is_event(n) {
            lemma_walk_parent(a, n, t.root);
            assert(order.contains(a.at(n).parent.unwrap()));
        }
    }
}

/// What is entered can be looked up, and nothing else comes in.
pub proof fn lemma_with_entries(l: LedgerView, entries: Seq<(Uid, u32)>)
    requires
        forall|i: int, j: int|
            0 <= i < j < entries.len() ==> (#[trigger] entries[i]).0 != (#[trigger] entries[j]).0,
    ensures
        forall|k: int|
            0 <= k < entries.len() ==> l.with_entries(entries).next_of(
                (#[trigger] entries[k]).0,
            ) == Some(entries[k].1),
        forall|uid: Uid|
            (forall|k: int| 0 <= k < entries.len() ==> (#[trigger] entries[k]).0 != uid)
                ==> #[trigger] l.with_entries(entries).next_of(uid) == l.next_of(uid),
    decreases entries.len(),
{
    if entries.len() > 0 {
        let rest = entries.drop_last();
        assert forall|i: int, j: int| 0 <= i < j < rest.len() implies (#[trigger] rest[i]).0 != (
        #[trigger] rest[j]).0 by {
            assert(entries[i].0 != entries[j].0);
        }
        lemma_with_entries(l, rest);
        let before = l.with_entries(rest);
        let after = l.with_entries(entries);
        let (last, number) = entries.last();
        assert forall|uid: Uid| uid != last implies #[trigger] after.next_of(uid)
            == before.next_of(uid) by {}
        assert forall|k: int| 0 <= k < entries.len() implies after.next_of(
            (#[trigger] entries[k]).0,
        ) == Some(entries[k].1) by {
            if k < rest.len() {
                assert(rest[k] == entries[k]);
                assert(entries[k].0 != entries[entries.len() - 1].0);
            }
        }
        assert forall|uid: Uid|
            (forall|k: int| 0 <= k < entries.len() ==> (#[trigger] entries[k]).0
                != uid) implies #[trigger] after.next_of(uid) == l.next_of(uid) by {
            assert(entries[entries.len() - 1].0 != uid);
            assert forall|k: int| 0 <= k < rest.len() implies (#[trigger] rest[k]).0 != uid by {
                assert(rest[k] == entries[k]);
            }
            assert(before.next_of(uid) == l.next_of(uid));
        }
    }
}

/// The entries of a convertible tree have different identifiers.
pub proof fn lemma_entries_distinct(t: TreeView)
    requires
        t.wf(),
        t.convertible(),
    ensures
        forall|i: int, j: int|
            0 <= i < j < t.entries().len() ==> (#[trigger] t.entries()[i]).0 != (
            #[trigger] t.entries()[j]).0,
{
    lemma_entered(t);
    assert forall|i: int, j: int| 0 <= i < j < t.entries().len() implies (
    #[trigger] t.entries()[i]).0 != (#[trigger] t.entries()[j]).0 by {
        assert(t.entered().contains(t.entered()[i]));
        assert(t.entered().contains(t.entered()[j]));
        assert(t.is_event(t.entered()[i]) && t.is_event(t.entered()[j]));
    }
}

/// The ledger has taken in the first `count` events of the tree.
spec fn has_taken(l: LedgerView, t: TreeView, count: int) -> bool {
    &&& l.sources == t.sources
    &&& l.next_seq_id == t.arena.next_avail_seq_no
    &&& l.next == LedgerView::initial().with_entries(t.entries().take(count)).next
    &&& l.prev == LedgerView::initial().with_entries(t.entries().take(count)).prev
}

/// The root and its children have been passed on, and nothing else.
pub proof fn lemma_first_visit(t: TreeView)
    requires
        t.wf(),
    ensures
        t.arena.kids_of_all(seq![t.root]) == t.arena.kids(t.root),
        t.arena.walk(t.root) == seq![t.root] + t.arena.walk_all(t.arena.kids(t.root)),
        t.arena.has_all(t.arena.kids(t.root)),
        t.entered().len() >= t.arena.kids(t.root).len(),
        forall|k: int|
            0 <= k < t.arena.kids(t.root).len() ==> t.entered()[k] == #[trigger] t.arena.kids(
                t.root,
            )[k],
{
    let a = t.arena;
    let visited = seq![t.root];
    lemma_walk(a, t.root);
    lemma_kids(a, t.root);
    assert(visited.drop_last() == Seq::<LedgerNode>::empty());
    assert(a.kids_of_all(visited.drop_last()) == Seq::<LedgerNode>::empty());
    assert(visited.last() == t.root);
    assert(a.kids_of_all(visited) =~= a.kids(t.root));
    lemma_kids_of_all_concat(a, visited, a.walk_all(a.kids(t.root)));
}

/// Passing on one more node, and its children after it.
proof fn lemma_visit(t: TreeView, visited: Seq<LedgerNode>, stack: Seq<LedgerNode>)
    requires
        t.wf(),
        t.arena.walk(t.root) == visited + t.arena.walk_all(stack),
        t.arena.has_all(stack),
        stack.len() > 0,
        forall|i: int|
            0 <= i < stack.len() ==> t.arena.kids_of_all(visited).contains(#[trigger] stack[i]),
    ensures
        ({
            let a = t.arena;
            let node = stack.last();
            let later = visited.push(node);
            let waiting = stack.drop_last() + a.kids(node);
            let start = a.kids_of_all(visited).len();
            &&& a.has(node)
            &&& a.walk(t.root) == later + a.walk_all(waiting)
            &&& a.walk_all(waiting).len() < a.walk_all(stack).len()
            &&& a.has_all(waiting)
            &&& a.kids_of_all(later) == a.kids_of_all(visited) + a.kids(node)
            &&& start + a.kids(node).len() <= t.entered().len()
            &&& forall|k: int|
                0 <= k < a.kids(node).len() ==> t.entered()[start + k] == #[trigger] a.kids(node)[k]
            &&& exists|own: int| 0 <= own < start && #[trigger] t.entered()[own] == node
            &&& forall|i: int|
                0 <= i < waiting.len() ==> a.kids_of_all(later).contains(#[trigger] waiting[i])
        }),
{
    let a = t.arena;
    let node = stack.last();
    let later = visited.push(node);
    let waiting = stack.drop_last() + a.kids(node);
    let start = a.kids_of_all(visited).len();
    assert(a.has(stack[stack.len() - 1]));
    lemma_walk_step(a, stack);
    lemma_kids(a, node);
    assert(later.drop_last() == visited);
    assert(later + a.walk_all(waiting) == visited + (seq![node] + a.walk_all(waiting)));
    lemma_kids_of_all_concat(a, later, a.walk_all(waiting));
    assert(t.entered() =~= a.kids_of_all(visited) + a.kids(node) + a.kids_of_all(
        a.walk_all(waiting),
    ));
    assert forall|k: int| 0 <= k < a.kids(node).len() implies t.entered()[start + k]
        == #[trigger] a.kids(node)[k] by {}
    assert(a.kids_of_all(visited).contains(stack[stack.len() - 1]));
    let own = choose|i: int|
        0 <= i < a.kids_of_all(visited).len() && a.kids_of_all(visited)[i] == node;
    assert(t.entered()[own] == node);
    assert forall|i: int| 0 <= i < waiting.len() implies a.kids_of_all(later).contains(
        #[trigger] waiting[i],
    ) && a.has(waiting[i]) by {
        lemma_contains_concat(a.kids_of_all(visited), a.kids(node), waiting[i]);
        if i < stack.len() - 1 {
            assert(waiting[i] == stack[i]);
        } else {
            assert(waiting[i] == a.kids(node)[i - (stack.len() - 1)]);
        }
    }
}

impl Ledger {
    /// A ledger that has taken over all but the events of a tree.
    fn with_sources_of(tree: &LedgerTree) -> (ledger: Ledger)
        requires
            tree.wf(),
        ensures
            ledger.wf(),
            has_taken(ledger@, tree@, 0),
            ledger@.start_events == Seq::<Uid>::empty(),
    {
        let mut ledger = Ledger::new();
        ledger.sources = tree.sources.clone();
        ledger.next_seq_id = tree.arena.next_avail_seq_no;
        assert(tree@.entries().take(0) == Seq::<(Uid, u32)>::empty());
        ledger
    }

    /// Takes in the start events of a tree.
    fn take_starts(&mut self, arena: &NodeArena, children: &Vec<LedgerNode>, Ghost(t): Ghost<
        TreeView,
    >)
        requires
            old(self).wf(),
            t.wf(),
            t.convertible(),
            arena@ == t.arena,
            children@ == t.arena.kids(t.root),
            has_taken(old(self)@, t, 0),
            old(self)@.start_events == Seq::<Uid>::empty(),
        ensures
            final(self).wf(),
            has_taken(final(self)@, t, children@.len() as int),
            final(self)@.start_events == t.arena.uids(children@),
    {
        let ghost a = t.arena;
        let mut k: usize = 0;
        assert(a.uids(children@.take(0)) =~= Seq::<Uid>::empty());
        while k < children.len()
            invariant
                t.wf(),
                t.convertible(),
                a == t.arena,
                arena@ == a,
                k <= children@.len(),
                children@ == a.kids(t.root),
                self.wf(),
                has_taken(self@, t, k as int),
                self@.start_events == a.uids(children@.take(k as int)),
            decreases children.len() - k,
        {
            let child = children[k];
            proof {
                lemma_first_visit(t);
                lemma_kids(a, t.root);
                assert(a.kids(t.root)[k as int] == child);
                assert(t.entered()[k as int] == child);
                lemma_next_entry(t, k as int);
            }
            let uid = child.uid(arena).unwrap();
            self.insert_start(uid);
            k += 1;
            assert(a.uids(children@.take(k as int)) =~= a.uids(children@.take(k - 1)).push(uid));
        }
        assert(children@.take(k as int) == children@);
    }

    /// Takes in the children of a node of a tree.
    fn take_children(
        &mut self,
        arena: &NodeArena,
        node: LedgerNode,
        children: &Vec<LedgerNode>,
        Ghost(t): Ghost<TreeView>,
        Ghost(start): Ghost<int>,
    )
        requires
            old(self).wf(),
            t.wf(),
            t.convertible(),
            same_nodes(t.arena, arena@),
            t.arena.has(node),
            children@ == t.arena.kids(node),
            0 <= start,
            start + children@.len() <= t.entered().len(),
            exists|own: int| 0 <= own < start && #[trigger] t.entered()[own] == node,
            forall|k: int| 0 <= k < children@.len() ==> t.entered()[start + k] == children@[k],
            has_taken(old(self)@, t, start),
        ensures
            final(self).wf(),
            has_taken(final(self)@, t, start + children@.len()),
            final(self)@.start_events == old(self)@.start_events,
    {
        let ghost own = choose|own: int| 0 <= own < start && #[trigger] t.entered()[own] == node;
        let ghost starts = self@.start_events;
        let mut k: usize = 0;
        while k < children.len()
            invariant
                t.wf(),
                t.convertible(),
                same_nodes(t.arena, arena@),
                k <= children@.len(),
                t.arena.has(node),
                children@ == t.arena.kids(node),
                0 <= own < start,
                start + children@.len() <= t.entered().len(),
                t.entered()[own] == node,
                forall|k: int| 0 <= k < children@.len() ==> t.entered()[start + k] == children@[k],
                self.wf(),
                has_taken(self@, t, start + k),
                self@.start_events == starts,
            decreases children.len() - k,
        {
            let child = children[k];
            proof {
                assert(t.entered()[start + k] == child);
                lemma_next_entry(t, start + k);
                lemma_recorded(t, own, start + k);
            }
            let prev_uid = node.uid(arena).unwrap();
            let uid = child.uid(arena).unwrap();
            let next_seq_no = arena.next_seq_no_of(child).unwrap();
            self.insert(prev_uid, uid, next_seq_no);
            k += 1;
        }
    }

    /// The ledger of a tree.
    pub fn from(tree: &LedgerTree) -> (ledger: Ledger)
        requires
            tree.wf(),
            tree@.convertible(),
        ensures
            ledger@ == tree@.to_ledger(),
            ledger.wf(),
            ledger.sources@ == tree.sources@,
    {
        let ghost t = tree@;
        let mut ledger = Ledger::with_sources_of(tree);
        let mut stack = tree.root.children(&tree.arena);
        ledger.take_starts(&tree.arena, &stack, Ghost(t));
        let ghost mut visited: Seq<LedgerNode> = seq![t.root];
        proof {
            lemma_first_visit(t);
        }
        while stack.len() > 0
            invariant
                t == tree@,
                tree.wf(),
                t.convertible(),
                t.arena.walk(t.root) == visited + t.arena.walk_all(stack@),
                t.arena.has_all(stack@),
                forall|i: int|
                    0 <= i < stack@.len() ==> t.arena.kids_of_all(visited).contains(
                        #[trigger] stack@[i],
                    ),
                ledger.wf(),
                has_taken(ledger@, t, t.arena.kids_of_all(visited).len() as int),
                ledger@.start_events == t.arena.uids(t.arena.kids(t.root)),
            decreases t.arena.walk_all(stack@).len(),
        {
            let ghost before = stack@;
            let ghost start = t.arena.kids_of_all(visited).len() as int;
            let node = stack.pop().unwrap();
            proof {
                assert(node == before.last() && stack@ == before.drop_last());
                lemma_visit(t, visited, before);
            }
            let mut children = node.children(&tree.arena);
            ledger.take_children(&tree.arena, node, &children, Ghost(t), Ghost(start));
            stack.append(&mut children);
            proof {
                visited = visited.push(node);
            }
        }
        proof {
            assert(visited + t.arena.walk_all(stack@) == visited);
            assert(t.entries().take(t.entries().len() as int) == t.entries());
        }
        ledger
    }

    /// The ledger of a tree that is not needed any more. Chains are taken out of the tree as
    /// soon as they are in the ledger.
    pub fn from_tree(tree: LedgerTree) -> (ledger: Ledger)
        requires
            tree.wf(),
            tree@.convertible(),
        ensures
            ledger@ == tree@.to_ledger(),
            ledger.wf(),
            ledger.sources@ == tree.sources@,
    {
        let ghost t = tree@;
        let mut ledger = Ledger::with_sources_of(&tree);
        let mut stack = tree.root.children(&tree.arena);
        ledger.take_starts(&tree.arena, &stack, Ghost(t));
        let mut arena = tree.arena;
        let ghost mut visited: Seq<LedgerNode> = seq![t.root];
        proof {
            lemma_first_visit(t);
            assert(visited[0] == t.root);
        }
        while stack.len() > 0
            invariant
                t.wf(),
                t.convertible(),
                arena@.wf(),
                same_nodes(t.arena, arena@),
                t.arena.walk(t.root) == visited + t.arena.walk_all(stack@),
                t.arena.has_all(stack@),
                forall|i: int|
                    0 <= i < stack@.len() ==> t.arena.kids_of_all(visited).contains(
                        #[trigger] stack@[i],
                    ),
                upwards_closed(t, visited),
                forall|m: LedgerNode| #[trigger]
                    t.arena.has(m) && !visited.contains(m) ==> arena@.at(m) == t.arena.at(m),
                ledger.wf(),
                has_taken(ledger@, t, t.arena.kids_of_all(visited).len() as int),
                ledger@.start_events == t.arena.uids(t.arena.kids(t.root)),
            decreases t.arena.walk_all(stack@).len(),
        {
            let ghost before = stack@;
            let ghost start = t.arena.kids_of_all(visited).len() as int;
            let node = stack.pop().unwrap();
            proof {
                assert(node == before.last() && stack@ == before.drop_last());
                lemma_visit(t, visited, before);
                lemma_visit_upwards(t, visited, before);
            }
            let mut children = node.children(&arena);
            assert(children@ == t.arena.kids(node));
            ledger.take_children(&arena, node, &children, Ghost(t), Ghost(start));
            let ghost later = visited.push(node);
            assert forall|m: LedgerNode| !later.contains(m) implies !visited.contains(m) by {
                lemma_contains_concat(visited, seq![node], m);
                assert(later == visited + seq![node]);
            }
            if children.len() == 0 {
                let ghost current = arena@;
                assert(later[visited.len() as int] == node);
                node.prune(&mut arena);
                proof {
                    lemma_pruned_visited(t, current, later, node);
                    assert forall|m: LedgerNode| #[trigger]
                        t.arena.has(m) && !later.contains(m) implies arena@.at(m) == t.arena.at(
                        m,
                    ) by {
                        assert(current.has(m));
                    }
                    assert forall|n: LedgerNode| #[trigger] t.arena.has(n) implies arena@.at(n)
                        == t.arena.at(n).with_children(arena@.at(n).children) by {
                        assert(current.has(n));
                    }
                }
            }
            stack.append(&mut children);
            proof {
                visited = later;
            }
        }
        proof {
            assert(visited + t.arena.walk_all(stack@) == visited);
            assert(t.entries().take(t.entries().len() as int) == t.entries());
        }
        ledger
    }
}

impl LedgerTree {
    /// Whether a node has the numbers that a ledger needs.
    fn has_numbers(&self, node: LedgerNode) -> (has: bool)
        requires
            self.wf(),
            self@.arena.has(node),
        ensures
            has == self@.has_numbers(node),
    {
        if node.uid(&self.arena).is_none() {
            false
        } else {
            let next_seq_no = self.arena.next_seq_no_of(node);
            if self.arena.parent_of(node) == Some(self.root) {
                self.arena.is_leaf(node) || next_seq_no == Some(1u32)
            } else {
                next_seq_no.is_some()
            }
        }
    }

    /// Whether the tree can be made into a ledger.
    pub fn is_convertible(&self) -> (convertible: bool)
        requires
            self.wf(),
        ensures
            convertible == self@.convertible(),
    {
        let ghost t = self@;
        let nodes = self.nodes();
        let mut codes: HashSet<u64> = HashSet::new();
        let mut k: usize = 1;
        proof {
            lemma_walk(t.arena, t.root);
            lemma_walk_has(t.arena, t.root);
            lemma_walk_distinct(t.arena, t.root);
            assert(nodes@[0] == t.root);
        }
        while k < nodes.len()
            invariant
                self.wf(),
                t == self@,
                1 <= k <= nodes@.len(),
                nodes@ == t.arena.walk(t.root),
                t.arena.has_all(nodes@),
                nodes@.no_duplicates(),
                nodes@[0] == t.root,
                forall|i: int| 1 <= i < k ==> t.has_numbers(#[trigger] nodes@[i]),
                forall|i: int, j: int|
                    1 <= i < j < k ==> t.arena.at(#[trigger] nodes@[i]).uid() != t.arena.at(
                        #[trigger] nodes@[j],
                    ).uid(),
                forall|uid: Uid| #[trigger]
                    codes@.contains(uid_code(uid)) <==> exists|i: int|
                        1 <= i < k && t.arena.at(#[trigger] nodes@[i]).uid() == Some(uid),
            decreases nodes.len() - k,
        {
            let node = nodes[k];
            proof {
                assert(t.arena.has(nodes@[k as int]));
                assert(nodes@.contains(nodes@[k as int]));
                assert(nodes@[k as int] != nodes@[0]);
                assert(t.is_event(node));
            }
            if !self.has_numbers(node) {
                return false;
            }
            let uid = node.uid(&self.arena).unwrap();
            if codes.contains(&uid.encode()) {
                proof {
                    let i = choose|i: int|
                        1 <= i < k && t.arena.at(#[trigger] nodes@[i]).uid() == Some(uid);
                    assert(nodes@.contains(nodes@[i]));
                    assert(nodes@[i] != nodes@[0]);
                    assert(t.is_event(nodes@[i]));
                    assert(nodes@[i] != nodes@[k as int]);
                }
                return false;
            }
            let ghost before = codes@;
            codes.insert(uid.encode());
            proof {
                assert forall|i: int| 1 <= i < k implies t.arena.at(#[trigger] nodes@[i]).uid()
                    != Some(uid) by {
                    assert(!before.contains(uid_code(uid)));
                }
                assert forall|v: Uid| #[trigger] codes@.contains(uid_code(v)) <==> exists|i: int|
                    1 <= i < k + 1 && t.arena.at(#[trigger] nodes@[i]).uid() == Some(v) by {
                    uid_code_is_injective(v, uid);
                    if v == uid {
                        assert(t.arena.at(nodes@[k as int]).uid() == Some(v));
                    }
                    assert(before.contains(uid_code(v)) <==> exists|i: int|
                        1 <= i < k && t.arena.at(#[trigger] nodes@[i]).uid() == Some(v));
                }
            }
            k += 1;
        }
        proof {
            assert forall|n: LedgerNode| #[trigger] t.is_event(n) implies t.has_numbers(n) by {
                let i = choose|i: int| 0 <= i < nodes@.len() && nodes@[i] == n;
                assert(i != 0);
            }
            assert forall|m: LedgerNode, n: LedgerNode| #[trigger]
                t.is_event(m) && #[trigger] t.is_event(n) && m != n implies t.arena.at(m).uid()
                != t.arena.at(n).uid() by {
                let i = choose|i: int| 0 <= i < nodes@.len() && nodes@[i] == m;
                let j = choose|j: int| 0 <= j < nodes@.len() && nodes@[j] == n;
                assert(i != 0 && j != 0);
                if i < j {
                    assert(t.arena.at(nodes@[i]).uid() != t.arena.at(nodes@[j]).uid());
                } else {
                    assert(t.arena.at(nodes@[j]).uid() != t.arena.at(nodes@[i]).uid());
                }
            }
        }
        true
    }
}

/// With a node, `visited` holds the nodes that led to it.
spec fn upwards_closed(t: TreeView, visited: Seq<LedgerNode>) -> bool {
    forall|m: LedgerNode| #[trigger]
        visited.contains(m) ==> t.arena.has(m) && (t.arena.at(m).parent matches Some(p)
            ==> visited.contains(p))
}

/// Nodes are visited after those that led to them, and only once.
proof fn lemma_visit_upwards(t: TreeView, visited: Seq<LedgerNode>, stack: Seq<LedgerNode>)
    requires
        t.wf(),
        t.arena.walk(t.root) == visited + t.arena.walk_all(stack),
        t.arena.has_all(stack),
        stack.len() > 0,
        upwards_closed(t, visited),
        forall|i: int|
            0 <= i < stack.len() ==> t.arena.kids_of_all(visited).contains(#[trigger] stack[i]),
    ensures
        !visited.contains(stack.last()),
        t.arena.at(stack.last()).parent is Some,
        upwards_closed(t, visited.push(stack.last())),
{
    let a = t.arena;
    let node = stack.last();
    let later = visited.push(node);
    lemma_visit(t, visited, stack);
    lemma_walk_distinct(a, t.root);
    assert(a.walk(t.root)[visited.len() as int] == node);
    if visited.contains(node) {
        let i = choose|i: int| 0 <= i < visited.len() && visited[i] == node;
        assert(a.walk(t.root)[i] == node);
    }
    assert(visited.no_duplicates()) by {
        assert forall|i: int, j: int|
            0 <= i < visited.len() && 0 <= j < visited.len() && i != j implies visited[i]
            != visited[j] by {
            assert(a.walk(t.root)[i] != a.walk(t.root)[j]);
        }
    }
    assert(a.has_all(visited)) by {
        assert forall|k: int| 0 <= k < visited.len() implies a.has(#[trigger] visited[k]) by {
            assert(visited.contains(visited[k]));
        }
    }
    lemma_kids_of_all(a, visited);
    assert(a.kids_of_all(visited).contains(stack[stack.len() - 1]));
    assert(later == visited + seq![node]);
    assert forall|m: LedgerNode| #[trigger] later.contains(m) implies a.has(m) && (a.at(
        m,
    ).parent matches Some(p) ==> later.contains(p)) by {
        lemma_contains_concat(visited, seq![node], m);
        if let Some(p) = a.at(m).parent {
            lemma_contains_concat(visited, seq![node], p);
        }
        if m != node {
            assert(visited.contains(m));
        }
    }
}

/// Taking an entry out changes no node that is not above the entry.
proof fn lemma_detached_visited(
    t: TreeView,
    current: ArenaView,
    visited: Seq<LedgerNode>,
    n: LedgerNode,
    event: u32,
)
    requires
        same_nodes(t.arena, current),
        upwards_closed(t, visited),
        visited.contains(n),
    ensures
        forall|m: LedgerNode| #[trigger]
            current.has(m) && !visited.contains(m) ==> current.detached(n, event).at(m)
                == current.at(m),
    decreases n.index,
{
    let rest = without_key(current.at(n).children, event);
    let next = current.set(n, current.at(n).with_children(rest));
    assert(t.arena.has(n));
    match current.at(n).parent {
        Some(p) if rest.len() == 0 && p.index < n.index => {
            lemma_detached_visited(t, next, visited, p, current.at(n).event);
            assert forall|m: LedgerNode| #[trigger]
                current.has(m) && !visited.contains(m) implies current.detached(n, event).at(m)
                == current.at(m) by {
                assert(next.has(m));
            }
        },
        _ => {},
    }
}

/// Pruning a visited node changes no node that is yet to be visited.
proof fn lemma_pruned_visited(
    t: TreeView,
    current: ArenaView,
    visited: Seq<LedgerNode>,
    node: LedgerNode,
)
    requires
        same_nodes(t.arena, current),
        upwards_closed(t, visited),
        visited.contains(node),
        t.arena.at(node).parent is Some,
    ensures
        forall|m: LedgerNode| #[trigger]
            current.has(m) && !visited.contains(m) ==> current.pruned(node).at(m) == current.at(m),
{
    assert(t.arena.has(node));
    let cleared = current.set(node, current.at(node).with_children(Entries::empty()));
    let p = current.at(node).parent.unwrap();
    assert(same_nodes(t.arena, cleared));
    lemma_detached_visited(t, cleared, visited, p, current.at(node).event);
    assert forall|m: LedgerNode| #[trigger]
        current.has(m) && !visited.contains(m) implies current.pruned(node).at(m) == current.at(
        m,
    ) by {
        assert(cleared.has(m));
    }
}

/// The next event that a ledger takes in is not there yet.
proof fn lemma_next_entry(t: TreeView, k: int)
    requires
        t.wf(),
        t.convertible(),
        0 <= k < t.entered().len(),
    ensures
        t.is_event(t.entered()[k]),
        t.arena.has(t.entered()[k]),
        t.entries().take(k + 1).drop_last() == t.entries().take(k),
        t.entries().take(k + 1).last() == t.entries()[k],
        LedgerView::initial().with_entries(t.entries().take(k)).next_of(t.entries()[k].0) is None,
{
    let part = t.entries().take(k);
    lemma_entered(t);
    assert(t.entered().contains(t.entered()[k]));
    lemma_linked(t.arena, t.entered()[k], t.root);
    lemma_entries_distinct(t);
    assert forall|i: int, j: int| 0 <= i < j < part.len() implies (#[trigger] part[i]).0 != (
    #[trigger] part[j]).0 by {
        assert(t.entries()[i].0 != t.entries()[j].0);
    }
    lemma_with_entries(LedgerView::initial(), part);
    assert forall|i: int| 0 <= i < part.len() implies (#[trigger] part[i]).0
        != t.entries()[k].0 by {
        assert(t.entries()[i].0 != t.entries()[k].0);
    }
}

/// When a ledger takes in a child, the number recorded for the parent is that of the child.
proof fn lemma_recorded(t: TreeView, own: int, k: int)
    requires
        t.wf(),
        t.convertible(),
        0 <= own < k < t.entered().len(),
        t.arena.kids(t.entered()[own]).contains(t.entered()[k]),
    ensures
        t.is_event(t.entered()[own]),
        t.arena.has(t.entered()[own]),
        !t.is_start(t.entered()[k]),
        LedgerView::initial().with_entries(t.entries().take(k)).next_of(t.entries()[own].0)
            == Some(t.entries()[k].0.seq_id),
{
    let a = t.arena;
    let node = t.entered()[own];
    let child = t.entered()[k];
    let part = t.entries().take(k);
    lemma_entered(t);
    assert(t.entered().contains(node));
    assert(t.entered().contains(child));
    lemma_linked(a, node, t.root);
    lemma_linked(a, child, t.root);
    lemma_kids(a, node);
    let i = choose|i: int| 0 <= i < a.kids(node).len() && a.kids(node)[i] == child;
    assert(a.at(a.kids(node)[i]).parent == Some(node));
    assert(a.numbers_wf(child));
    assert(t.is_event(node) && t.is_event(child));
    lemma_entries_distinct(t);
    assert forall|i: int, j: int| 0 <= i < j < part.len() implies (#[trigger] part[i]).0 != (
    #[trigger] part[j]).0 by {
        assert(t.entries()[i].0 != t.entries()[j].0);
    }
    lemma_with_entries(LedgerView::initial(), part);
    assert(part[own] == t.entries()[own]);
}

} // verus!
