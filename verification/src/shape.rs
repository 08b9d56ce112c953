//! What nodes, chains and walks are, node by node.
use vstd::prelude::*;
use crate::laws::chain_grows;
use crate::maps::{Entries, distinct_keys, has_key, key_index, lemma_lookup_entry, without_key};
use crate::model::{ArenaView, NodeView, lemma_inserted_fresh, lemma_settled};
use crate::node::{LedgerNode, NodeArena};
use crate::reach::{lemma_linked, lemma_walk_closed, lemma_walk_distinct, lemma_walk_parent};
use crate::tree::{LedgerTree, TreeView};
use crate::uid::Uid;
use crate::walk::{lemma_walk, lemma_walk_all_concat, lemma_walk_single};

verus! {

/// A handle leads to the node that stands at its index.
pub proof fn handles_are_indices(a: ArenaView, n: LedgerNode)
    ensures
        a.has(n) <==> n.index < a.nodes.len(),
        a.has(n) ==> a.at(n) == a.nodes[n.index as int],
        a.fresh().index == a.nodes.len() as usize,
{
}

/// The model of an arena has the data of each node in its place, and the same counter.
pub proof fn model_of_arena(arena: NodeArena, i: int)
    requires
        0 <= i < arena.nodes@.len(),
    ensures
        arena@.nodes.len() == arena.nodes@.len(),
        arena@.nodes[i].parent == arena.nodes@[i].parent,
        arena@.nodes[i].seq_no == arena.nodes@[i].seq_no,
        arena@.nodes[i].event == arena.nodes@[i].event,
        arena@.nodes[i].next_seq_no == arena.nodes@[i].next_seq_no,
        arena@.nodes[i].children == arena.nodes@[i].children.entries@,
        arena@.next_avail_seq_no == arena.next_avail_seq_no,
{
}

/// A node has an identifier once it has a sequence number: that number, and its event. It is a
/// leaf where it has no children.
pub proof fn identifier_of_node(node: NodeView)
    ensures
        node.uid() is Some <==> node.seq_no is Some,
        node.uid() matches Some(uid) ==> node.seq_no == Some(uid.seq_id) && uid.event
            == node.event,
        node.is_leaf() <==> node.children == Entries::empty(),
{
    if node.is_leaf() {
        assert(node.children =~= Entries::empty());
    }
}

/// The child under an event is the one of the entry with that event.
pub proof fn child_is_entry(a: ArenaView, n: LedgerNode, event: u32, c: LedgerNode)
    requires
        a.wf(),
        a.has(n),
    ensures
        a.child(n, event) == Some(c) <==> a.nodes[n.index as int].children.contains((event, c)),
        a.child(n, event) is None <==> forall|k: int|
            0 <= k < a.nodes[n.index as int].children.len() ==> (
            #[trigger] a.nodes[n.index as int].children[k]).0 != event,
{
    let entries = a.nodes[n.index as int].children;
    assert(a.links_wf(n));
    if entries.contains((event, c)) {
        let k = choose|k: int| 0 <= k < entries.len() && entries[k] == (event, c);
        lemma_lookup_entry(entries, k);
    }
    if a.child(n, event) == Some(c) {
        assert(entries[key_index(entries, event)] == (event, c));
    }
}

/// The children of a node are those of its entries, in order.
pub proof fn children_are_entries(a: ArenaView, n: LedgerNode)
    ensures
        a.kids(n).len() == a.nodes[n.index as int].children.len(),
        forall|k: int|
            0 <= k < a.kids(n).len() ==> #[trigger] a.kids(n)[k]
                == a.nodes[n.index as int].children[k].1,
{
}

/// Where a node has an entry for an event, recording the event changes nothing and leads to the
/// node of the entry.
pub proof fn known_event_is_found(a: ArenaView, n: LedgerNode, event: u32, k: int)
    requires
        a.wf(),
        a.has(n),
        0 <= k < a.nodes[n.index as int].children.len(),
        a.nodes[n.index as int].children[k].0 == event,
    ensures
        a.inserted(n, event) == a,
        a.insert_result(n, event) == a.nodes[n.index as int].children[k].1,
{
    assert(a.links_wf(n));
    lemma_lookup_entry(a.nodes[n.index as int].children, k);
}

/// Where a node has no entry for an event, recording the event adds a node behind all others. It
/// has the event, the node as its parent, the number that the parent hands out if it has one, and
/// no children. The parent gets an entry for it, behind those it has; no other node changes.
pub proof fn new_event_is_added(a: ArenaView, n: LedgerNode, event: u32)
    requires
        a.wf(),
        a.has(n),
        a.nodes.len() < usize::MAX,
        forall|k: int|
            0 <= k < a.nodes[n.index as int].children.len() ==> (
            #[trigger] a.nodes[n.index as int].children[k]).0 != event,
    ensures
        ({
            let b = a.inserted(n, event);
            let c = a.insert_result(n, event);
            let i = n.index as int;
            &&& c.index == a.nodes.len()
            &&& b.nodes.len() == a.nodes.len() + 1
            &&& b.nodes[c.index as int].parent == Some(n)
            &&& b.nodes[c.index as int].event == event
            &&& b.nodes[c.index as int].seq_no == a.nodes[i].next_seq_no
            &&& b.nodes[c.index as int].next_seq_no is None
            &&& b.nodes[c.index as int].children == Entries::empty()
            &&& b.nodes[i].children == a.nodes[i].children.push((event, c))
            &&& b.nodes[i].parent == a.nodes[i].parent
            &&& b.nodes[i].event == a.nodes[i].event
            &&& b.nodes[i].seq_no == a.nodes[i].seq_no
            &&& b.nodes[i].next_seq_no == a.nodes[i].next_seq_no
            &&& forall|j: int| 0 <= j < a.nodes.len() && j != i ==> #[trigger] b.nodes[j]
                == a.nodes[j]
            &&& b.next_avail_seq_no == a.next_avail_seq_no
        }),
{
    assert(!has_key(a.at(n).children, event));
    lemma_inserted_fresh(a, n, event);
    let b = a.inserted(n, event);
    assert(b.at(n) == b.nodes[n.index as int]);
    assert(b.at(a.fresh()) == b.nodes[a.nodes.len() as int]);
    assert forall|j: int| 0 <= j < a.nodes.len() && j != n.index implies #[trigger] b.nodes[j]
        == a.nodes[j] by {
        let m = LedgerNode { index: j as usize };
        assert(a.has(m) && m != n);
        assert(b.at(m) == a.at(m));
    }
}

/// A new root has event 0, no parent, no numbers and no children. A new node that no parent knows
/// of has the event and the parent it was given, and the number that the parent hands out. Both
/// are added behind all other nodes, which stay as they are.
pub proof fn single_nodes_are_added(a: ArenaView, p: LedgerNode, event: u32)
    ensures
        a.with_root().nodes == a.nodes.push(
            NodeView {
                parent: None,
                seq_no: None,
                event: 0,
                next_seq_no: None,
                children: Seq::empty(),
            },
        ),
        a.with_root().next_avail_seq_no == a.next_avail_seq_no,
        a.with_node(p, event).nodes == a.nodes.push(
            NodeView {
                parent: Some(p),
                seq_no: a.nodes[p.index as int].next_seq_no,
                event,
                next_seq_no: None,
                children: Seq::empty(),
            },
        ),
        a.with_node(p, event).next_avail_seq_no == a.next_avail_seq_no,
{
}

/// A new tree is a root, and its first number is 0.
pub proof fn new_tree_is_a_root()
    ensures
        TreeView::initial().root.index == 0,
        TreeView::initial().arena.nodes.len() == 1,
        TreeView::initial().arena.nodes[0].parent is None,
        TreeView::initial().arena.nodes[0].seq_no is None,
        TreeView::initial().arena.nodes[0].next_seq_no is None,
        TreeView::initial().arena.nodes[0].children.len() == 0,
        TreeView::initial().arena.next_avail_seq_no == 0,
{
}

/// A node that has no number for its children is given the number of the counter, which goes on by
/// one, from the largest number to zero. Nothing else changes.
pub proof fn number_is_handed_out(a: ArenaView, n: LedgerNode)
    requires
        a.has(n),
    ensures
        ({
            let b = a.numbered(n);
            let i = n.index as int;
            &&& a.nodes[i].next_seq_no is Some ==> b == a
            &&& a.nodes[i].next_seq_no is None ==> {
                &&& b.nodes[i].next_seq_no == Some(a.next_avail_seq_no)
                &&& b.nodes[i].seq_no == a.nodes[i].seq_no
                &&& b.nodes[i].parent == a.nodes[i].parent
                &&& b.nodes[i].event == a.nodes[i].event
                &&& b.nodes[i].children == a.nodes[i].children
                &&& b.nodes.len() == a.nodes.len()
                &&& forall|j: int| 0 <= j < a.nodes.len() && j != i ==> #[trigger] b.nodes[j]
                    == a.nodes[j]
                &&& a.next_avail_seq_no < u32::MAX ==> b.next_avail_seq_no == a.next_avail_seq_no
                    + 1
                &&& a.next_avail_seq_no == u32::MAX ==> b.next_avail_seq_no == 0
            }
        }),
{
}

/// The way from a root to a node: the root first, each node the parent of the next. The events on
/// the way are those of its nodes but the root, in order.
pub proof fn events_on_the_way(a: ArenaView, n: LedgerNode) -> (way: Seq<LedgerNode>)
    requires
        a.wf(),
        a.has(n),
    ensures
        way.len() > 0,
        way.last() == n,
        way[0].index < a.nodes.len(),
        a.nodes[way[0].index as int].parent is None,
        forall|k: int|
            0 < k < way.len() ==> (#[trigger] way[k]).index < a.nodes.len() && a.nodes[(
            way[k]).index as int].parent == Some(way[k - 1]),
        a.path_events(n).len() == way.len() - 1,
        forall|k: int|
            0 < k < way.len() ==> a.path_events(n)[k - 1] == a.nodes[(
            #[trigger] way[k]).index as int].event,
    decreases n.index,
{
    assert(a.links_wf(n));
    match a.at(n).parent {
        None => seq![n],
        Some(p) => {
            assert(a.has(p));
            let upper = events_on_the_way(a, p);
            let way = upper.push(n);
            assert forall|k: int| 0 < k < way.len() implies (#[trigger] way[k]).index
                < a.nodes.len() && a.nodes[(way[k]).index as int].parent == Some(way[k - 1])
                && a.path_events(n)[k - 1] == a.nodes[(way[k]).index as int].event by {
                if k < upper.len() {
                    assert(way[k] == upper[k]);
                    assert(way[k - 1] == upper[k - 1]);
                    assert(a.path_events(n)[k - 1] == a.path_events(p)[k - 1]);
                } else {
                    assert(way[k - 1] == upper.last());
                }
            }
            way
        },
    }
}

/// The chain of a resolved node has an identifier for each node on the way to it from the root,
/// without the root: its number and its event. Each node hands out the number that the next one
/// has.
pub proof fn chain_on_the_way(a: ArenaView, n: LedgerNode) -> (way: Seq<LedgerNode>)
    requires
        a.wf(),
        a.has(n),
        a.nodes[n.index as int].seq_no is Some,
    ensures
        way.len() == a.chain(n).len() + 1,
        way.last() == n,
        way[0].index < a.nodes.len(),
        a.nodes[way[0].index as int].parent is None,
        forall|k: int|
            0 < k < way.len() ==> (#[trigger] way[k]).index < a.nodes.len() && a.nodes[(
            way[k]).index as int].parent == Some(way[k - 1]) && a.nodes[(
            way[k]).index as int].seq_no == Some(a.chain(n)[k - 1].seq_id) && a.nodes[(way[k]).index as int].event
                == a.chain(n)[k - 1].event && a.nodes[(way[k - 1]).index as int].next_seq_no
                == Some(a.chain(n)[k - 1].seq_id),
    decreases n.index,
{
    assert(a.links_wf(n) && a.numbers_wf(n));
    chain_grows(a, n);
    let p = a.at(n).parent.unwrap();
    assert(a.has(p));
    if a.at(p).parent is None {
        seq![p, n]
    } else {
        let upper = chain_on_the_way(a, p);
        let way = upper.push(n);
        assert forall|k: int| 0 < k < way.len() implies (#[trigger] way[k]).index < a.nodes.len()
            && a.nodes[(way[k]).index as int].parent == Some(way[k - 1]) && a.nodes[(
        way[k]).index as int].seq_no == Some(a.chain(n)[k - 1].seq_id) && a.nodes[(
        way[k]).index as int].event == a.chain(n)[k - 1].event && a.nodes[(
        way[k - 1]).index as int].next_seq_no == Some(a.chain(n)[k - 1].seq_id) by {
            if k < upper.len() {
                assert(way[k] == upper[k]);
                assert(way[k - 1] == upper[k - 1]);
                assert(a.chain(n)[k - 1] == a.chain(p)[k - 1]);
            } else {
                assert(way[k - 1] == upper.last());
                assert(way[k] == n);
            }
        }
        way
    }
}

/// A walk comes to everything below its start: to the start, and to the children of what it comes
/// to.
pub proof fn walk_goes_down(a: ArenaView, n: LedgerNode, way: Seq<LedgerNode>)
    requires
        a.wf(),
        a.has(n),
        way.len() > 0,
        way[0] == n,
        forall|k: int|
            0 < k < way.len() ==> a.nodes[(way[k - 1]).index as int].children.contains(
                (a.nodes[(#[trigger] way[k]).index as int].event, way[k]),
            ),
    ensures
        a.walk(n).contains(way.last()),
    decreases way.len(),
{
    if way.len() == 1 {
        lemma_linked(a, n, n);
    } else {
        let upper = way.drop_last();
        assert forall|k: int| 0 < k < upper.len() implies a.nodes[(
        upper[k - 1]).index as int].children.contains(
            (a.nodes[(#[trigger] upper[k]).index as int].event, upper[k]),
        ) by {
            assert(upper[k] == way[k] && upper[k - 1] == way[k - 1]);
        }
        walk_goes_down(a, n, upper);
        let k = way.len() - 1;
        let p = way[k - 1];
        let m = way[k];
        assert(upper.last() == p);
        let entry = (a.nodes[m.index as int].event, m);
        assert(a.at(p).children.contains(entry));
        let i = choose|i: int| 0 <= i < a.at(p).children.len() && a.at(p).children[i] == entry;
        assert(a.kids(p)[i] == m);
        lemma_walk_closed(a, n, p, m);
    }
}

/// A walk comes to nothing else: a way down leads from its start to each node that it comes to.
/// It comes to each node once.
pub proof fn walk_comes_from_above(a: ArenaView, n: LedgerNode, m: LedgerNode) -> (way: Seq<
    LedgerNode,
>)
    requires
        a.wf(),
        a.has(n),
        a.walk(n).contains(m),
    ensures
        way.len() > 0,
        way[0] == n,
        way.last() == m,
        forall|k: int|
            0 < k < way.len() ==> a.nodes[(#[trigger] way[k]).index as int].parent == Some(
                way[k - 1],
            ) && a.nodes[(way[k - 1]).index as int].children.contains(
                (a.nodes[(way[k]).index as int].event, way[k]),
            ),
        a.walk(n).no_duplicates(),
    decreases m.index,
{
    lemma_walk_distinct(a, n);
    if m == n {
        seq![n]
    } else {
        lemma_walk_parent(a, m, n);
        let p = a.at(m).parent.unwrap();
        let upper = walk_comes_from_above(a, n, p);
        let way = upper.push(m);
        let i = choose|i: int| 0 <= i < a.kids(p).len() && a.kids(p)[i] == m;
        assert(a.links_wf(p));
        assert(a.entry_wf(p, a.at(p).children[i]));
        assert(a.at(p).children[i] == (a.at(m).event, m));
        assert forall|k: int| 0 < k < way.len() implies a.nodes[(
        #[trigger] way[k]).index as int].parent == Some(way[k - 1]) && a.nodes[(
        way[k - 1]).index as int].children.contains(
            (a.nodes[(way[k]).index as int].event, way[k]),
        ) by {
            if k < upper.len() {
                assert(way[k] == upper[k] && way[k - 1] == upper[k - 1]);
            } else {
                assert(way[k - 1] == upper.last());
            }
        }
        way
    }
}

/// A walk starts with its first node, and goes on with the walks from the children of the node,
/// the youngest child first.
pub proof fn walk_takes_youngest_first(a: ArenaView, n: LedgerNode, k: int)
    requires
        a.wf(),
        a.has(n),
        0 <= k <= a.nodes[n.index as int].children.len(),
    ensures
        a.walk(n) == seq![n] + a.walk_all(a.kids(n)),
        a.walk_all(a.kids(n)) == a.walk_all(a.kids(n).skip(k)) + a.walk_all(a.kids(n).take(k)),
        a.walk_all(seq![n]) == a.walk(n),
        a.walk_all(Seq::empty()) == Seq::<LedgerNode>::empty(),
{
    lemma_walk(a, n);
    lemma_walk_single(a, n);
    lemma_walk_all_concat(a, a.kids(n).take(k), a.kids(n).skip(k));
    assert(a.kids(n).take(k) + a.kids(n).skip(k) =~= a.kids(n));
}

/// The ends of chains are the nodes of a walk, in the order of the walk, that have no children and
/// are no roots. Nodes without children dangle where they are not held.
pub proof fn ends_of_chains(a: ArenaView, n: LedgerNode, held: Seq<LedgerNode>, m: LedgerNode)
    requires
        a.wf(),
        a.has(n),
    ensures
        a.leaf_nodes(n) == a.walk(n).filter(
            |x: LedgerNode|
                a.nodes[x.index as int].children.len() == 0 && a.nodes[x.index as int].parent
                    is Some,
        ),
        a.leaf_nodes(n).contains(m) <==> a.walk(n).contains(m) && a.nodes[m.index as int].children
            == Entries::empty() && a.nodes[m.index as int].parent is Some,
        a.leaf_nodes(n).no_duplicates(),
        a.dangling_nodes(n, held) == a.walk(n).filter(
            |x: LedgerNode| a.nodes[x.index as int].children.len() == 0 && !held.contains(x),
        ),
        a.dangling_nodes(n, held).contains(m) <==> a.walk(n).contains(m)
            && a.nodes[m.index as int].children == Entries::empty() && !held.contains(m),
        a.dangling_nodes(n, held).no_duplicates(),
{
    let w = a.walk(n);
    let ends = |x: LedgerNode| a.ends_chain(x);
    let raw_ends = |x: LedgerNode|
        a.nodes[x.index as int].children.len() == 0 && a.nodes[x.index as int].parent is Some;
    let loose = |x: LedgerNode| a.at(x).is_leaf() && !held.contains(x);
    let raw_loose = |x: LedgerNode|
        a.nodes[x.index as int].children.len() == 0 && !held.contains(x);
    assert(ends =~= raw_ends);
    assert(loose =~= raw_loose);
    lemma_walk_distinct(a, n);
    lemma_filtered(w, raw_ends, m);
    lemma_filtered(w, raw_loose, m);
    if a.nodes[m.index as int].children.len() == 0 {
        assert(a.nodes[m.index as int].children =~= Entries::empty());
    }
}

proof fn lemma_filtered(s: Seq<LedgerNode>, f: spec_fn(LedgerNode) -> bool, x: LedgerNode)
    requires
        s.no_duplicates(),
    ensures
        s.filter(f).contains(x) <==> s.contains(x) && f(x),
        s.filter(f).no_duplicates(),
    decreases s.len(),
{
    reveal(Seq::filter);
    if s.len() > 0 {
        let rest = s.drop_last();
        let last = s.last();
        assert(rest.no_duplicates()) by {
            assert forall|i: int, j: int|
                0 <= i < rest.len() && 0 <= j < rest.len() && i != j implies rest[i]
                != rest[j] by {
                assert(s[i] != s[j]);
            }
        }
        lemma_filtered(rest, f, x);
        lemma_filtered(rest, f, last);
        assert(!rest.contains(last)) by {
            if rest.contains(last) {
                let i = choose|i: int| 0 <= i < rest.len() && rest[i] == last;
                assert(s[i] != s[s.len() - 1]);
            }
        }
        assert(s.contains(x) <==> rest.contains(x) || x == last) by {
            if s.contains(x) && x != last {
                let i = choose|i: int| 0 <= i < s.len() && s[i] == x;
                assert(rest[i] == x);
            }
            if rest.contains(x) {
                let i = choose|i: int| 0 <= i < rest.len() && rest[i] == x;
                assert(s[i] == x);
            }
            assert(s[s.len() - 1] == last);
        }
        let kept = rest.filter(f);
        if f(last) {
            assert(s.filter(f) == kept.push(last));
            assert(kept.push(last).contains(x) <==> kept.contains(x) || x == last) by {
                if kept.contains(x) {
                    let i = choose|i: int| 0 <= i < kept.len() && kept[i] == x;
                    assert(kept.push(last)[i] == x);
                }
                assert(kept.push(last)[kept.len() as int] == last);
                if kept.push(last).contains(x) && x != last {
                    let i = choose|i: int|
                        0 <= i < kept.push(last).len() && kept.push(last)[i] == x;
                    assert(kept[i] == x);
                }
            }
        }
    }
}

/// The events of a tree are the nodes that a walk from the root comes to, but the root. The tree
/// is dirty where one of them has no number.
pub proof fn events_of_tree(t: TreeView, n: LedgerNode)
    ensures
        t.is_event(n) <==> n != t.root && t.arena.walk(t.root).contains(n),
        t.dirty() <==> exists|m: LedgerNode|
            m != t.root && #[trigger] t.arena.walk(t.root).contains(m)
                && t.arena.nodes[m.index as int].seq_no is None,
{
    if t.dirty() {
        let m = choose|m: LedgerNode| #[trigger] t.is_event(m) && t.arena.at(m).uid() is None;
        assert(t.arena.walk(t.root).contains(m));
    }
    if exists|m: LedgerNode|
        m != t.root && #[trigger] t.arena.walk(t.root).contains(m)
            && t.arena.nodes[m.index as int].seq_no is None {
        let m = choose|m: LedgerNode|
            m != t.root && #[trigger] t.arena.walk(t.root).contains(m)
                && t.arena.nodes[m.index as int].seq_no is None;
        assert(t.is_event(m));
    }
}

/// The identifiers of a list of resolved nodes are theirs, one by one. The ends of the chains of a
/// tree are those of all chains through its root.
pub proof fn identifiers_of_nodes(t: TreeView, nodes: Seq<LedgerNode>)
    requires
        t.arena.all_resolved(nodes),
    ensures
        t.arena.uids(nodes).len() == nodes.len(),
        forall|k: int|
            0 <= k < nodes.len() ==> t.arena.nodes[(#[trigger] nodes[k]).index as int].seq_no
                == Some(t.arena.uids(nodes)[k].seq_id) && t.arena.nodes[nodes[k].index as int].event
                == t.arena.uids(nodes)[k].event,
        t.leaf_nodes() == t.arena.leaf_nodes(t.root),
{
    assert forall|k: int| 0 <= k < nodes.len() implies t.arena.nodes[(
    #[trigger] nodes[k]).index as int].seq_no == Some(t.arena.uids(nodes)[k].seq_id)
        && t.arena.nodes[nodes[k].index as int].event == t.arena.uids(nodes)[k].event by {
        assert(t.arena.at(nodes[k]).uid() is Some);
    }
}

/// Taking an entry out leaves the others, in order.
pub proof fn entry_is_taken_out(s: Entries, event: u32)
    requires
        distinct_keys(s),
    ensures
        without_key(s, event) == s.filter(|entry: (u32, LedgerNode)| entry.0 != event),
    decreases s.len(),
{
    reveal(Seq::filter);
    let keep = |entry: (u32, LedgerNode)| entry.0 != event;
    if s.len() > 0 {
        let rest = s.drop_last();
        assert(distinct_keys(rest)) by {
            assert forall|j: int, k: int| 0 <= j < k < rest.len() implies (#[trigger] rest[j]).0
                != (#[trigger] rest[k]).0 by {
                assert(s[j].0 != s[k].0);
            }
        }
        entry_is_taken_out(rest, event);
        if has_key(s, event) {
            let k = key_index(s, event);
            if k < rest.len() {
                assert(rest[k].0 == event);
                assert(has_key(rest, event));
                lemma_lookup_entry(rest, k);
                assert(key_index(rest, event) == k);
                assert(s[k].0 != s[s.len() - 1].0);
                assert(s.remove(k) =~= rest.remove(k).push(s.last()));
            } else {
                assert(!has_key(rest, event)) by {
                    if has_key(rest, event) {
                        let j = key_index(rest, event);
                        assert(s[j].0 != s[k].0);
                    }
                }
                assert(s.remove(k) =~= rest);
            }
        } else {
            assert(!has_key(rest, event)) by {
                if has_key(rest, event) {
                    let j = key_index(rest, event);
                    assert(s[j].0 == event);
                }
            }
            assert(s[s.len() - 1].0 != event);
            assert(rest.push(s.last()) =~= s);
        }
    } else {
        assert(s.filter(keep) =~= s);
    }
}

/// Pruning a node takes all children from it, and then the entry under its event from its parent.
pub proof fn pruning_goes_up(a: ArenaView, n: LedgerNode, p: LedgerNode)
    requires
        a.wf(),
        a.has(n),
        a.nodes[n.index as int].parent == Some(p),
    ensures
        ({
            let cleared = ArenaView {
                nodes: a.nodes.update(
                    n.index as int,
                    NodeView { children: Seq::empty(), ..a.nodes[n.index as int] },
                ),
                ..a
            };
            a.pruned(n) == cleared.detached(p, a.nodes[n.index as int].event)
        }),
{
}

/// Taking the entry under an event from a node goes on, with the event of the node, at the parent
/// of the node where the node is left without entries, and else ends there.
pub proof fn detaching_goes_up(a: ArenaView, n: LedgerNode, event: u32)
    requires
        a.wf(),
        a.has(n),
    ensures
        ({
            let i = n.index as int;
            let rest = a.nodes[i].children.filter(|entry: (u32, LedgerNode)| entry.0 != event);
            let less = ArenaView {
                nodes: a.nodes.update(i, NodeView { children: rest, ..a.nodes[i] }),
                ..a
            };
            a.detached(n, event) == match a.nodes[i].parent {
                Some(p) if rest.len() == 0 => less.detached(p, a.nodes[i].event),
                _ => less,
            }
        }),
{
    assert(a.links_wf(n));
    entry_is_taken_out(a.at(n).children, event);
}

/// Resolving a node that has no number resolves its parent first, and gives the node the number
/// that the parent hands out. The node then hands out a number too, the next of the counter if it
/// has none. No other node changes.
pub proof fn resolving_goes_down(a: ArenaView, n: LedgerNode, p: LedgerNode)
    requires
        a.wf(),
        a.has(n),
        a.nodes[n.index as int].parent == Some(p),
        a.nodes[n.index as int].seq_no is None,
    ensures
        ({
            let upper = a.settled(p);
            let b = a.resolved_node(n);
            let i = n.index as int;
            &&& b == a.settled(n)
            &&& upper.nodes[p.index as int].next_seq_no is Some
            &&& b.nodes[i].seq_no == upper.nodes[p.index as int].next_seq_no
            &&& b.nodes[i].next_seq_no == Some(upper.next_avail_seq_no)
            &&& b.nodes[i].event == a.nodes[i].event
            &&& b.nodes[i].parent == Some(p)
            &&& b.nodes[i].children == a.nodes[i].children
            &&& b.nodes.len() == a.nodes.len()
            &&& forall|j: int| 0 <= j < a.nodes.len() && j != i ==> #[trigger] b.nodes[j]
                == upper.nodes[j]
            &&& upper.next_avail_seq_no < u32::MAX ==> b.next_avail_seq_no
                == upper.next_avail_seq_no + 1
        }),
{
    assert(a.links_wf(n) && a.numbers_wf(n));
    assert(a.has(p));
    lemma_settled(a, p);
    let upper = a.settled(p);
    assert(upper.at(n) == a.at(n));
}

/// A root, or a node that has a number, is where resolving starts: it is given a number for its
/// children if it has none. A node that has a number is not resolved again.
pub proof fn resolving_starts(a: ArenaView, n: LedgerNode)
    requires
        a.wf(),
        a.has(n),
        a.nodes[n.index as int].parent is None || a.nodes[n.index as int].seq_no is Some,
    ensures
        a.settled(n) == a.numbered(n),
        a.nodes[n.index as int].seq_no is Some ==> a.resolved_node(n) == a,
{
}

/// The chain of an identifier can be told where it leads to no node, or to one that has a number.
/// The identifiers of nodes can be told where each of them has a number.
pub proof fn what_is_resolved(t: TreeView, uid: Uid, nodes: Seq<LedgerNode>)
    ensures
        t.has_chain(uid) <==> (t.node_of(uid) matches Some(n)
            ==> t.arena.nodes[n.index as int].seq_no is Some),
        t.arena.all_resolved(nodes) <==> forall|k: int|
            0 <= k < nodes.len() ==> t.arena.nodes[(#[trigger] nodes[k]).index as int].seq_no
                is Some,
{
    if t.arena.all_resolved(nodes) {
        assert forall|k: int| 0 <= k < nodes.len() implies t.arena.nodes[(
        #[trigger] nodes[k]).index as int].seq_no is Some by {
            assert(t.arena.at(nodes[k]).uid() is Some);
        }
    }
}

/// The model of a tree has the sources, the nodes and the root of the tree.
pub proof fn model_of_tree(tree: LedgerTree)
    ensures
        tree@.sources == tree.sources@,
        tree@.arena == tree.arena@,
        tree@.root == tree.root,
{
}

} // verus!
