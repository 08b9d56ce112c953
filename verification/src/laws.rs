//! What the operations on trees promise of each other.
use vstd::prelude::*;
use crate::filter::BitsProperty;
use crate::model::{
    ArenaView, keeps_numbers, lemma_inserted_fresh, lemma_inserted_wf, occurrences, same_shape,
    tally,
};
use crate::node::LedgerNode;
use crate::numbering::{lemma_all_shared, lemma_walk_order, uids_are_unique};
use crate::reach::{lemma_linked, lemma_walk_closed, lemma_walk_distinct, lemma_walk_parent};
use crate::tree::{TreeView, add_tally, counts_at};
use crate::uid::{Uid, uid_code, uid_code_is_injective};
use crate::walk::{lemma_kids, lemma_walk, lemma_walk_has, lemma_walk_same_shape};

verus! {

/// Recording the same event at the same node again changes nothing, and leads to the same node.
pub proof fn insert_twice(a: ArenaView, n: LedgerNode, event: u32)
    requires
        a.wf(),
        a.has(n),
        a.nodes.len() < usize::MAX,
    ensures
        a.inserted(n, event).inserted(n, event) == a.inserted(n, event),
        a.inserted(n, event).insert_result(n, event) == a.insert_result(n, event),
{
    lemma_inserted_wf(a, n, event);
}

/// Recording an event changes no chain.
pub proof fn insert_keeps_chains(a: ArenaView, n: LedgerNode, event: u32, m: LedgerNode)
    requires
        a.wf(),
        a.has(n),
        a.has(m),
    ensures
        a.inserted(n, event).at(m).uid() == a.at(m).uid(),
        a.inserted(n, event).chain(m) == a.chain(m),
        a.inserted(n, event).path_events(m) == a.path_events(m),
    decreases m.index,
{
    if a.child(n, event) is None {
        lemma_inserted_fresh(a, n, event);
    }
    assert(a.links_wf(m));
    if let Some(p) = a.at(m).parent {
        insert_keeps_chains(a, n, event, p);
    }
}

/// Resolving changes no chain that is resolved already.
pub proof fn resolve_keeps_chains(a: ArenaView, b: ArenaView, n: LedgerNode)
    requires
        a.wf(),
        b.wf(),
        same_shape(a, b),
        keeps_numbers(a, b),
        a.has(n),
        a.at(n).uid() is Some,
    ensures
        b.at(n).uid() == a.at(n).uid(),
        b.chain(n) == a.chain(n),
    decreases n.index,
{
    assert(a.links_wf(n) && a.numbers_wf(n));
    let p = a.at(n).parent.unwrap();
    assert(a.has(p));
    assert(a.numbers_wf(p) && b.has(p));
    assert(b.numbers_wf(p));
    if a.at(p).seq_no is Some {
        resolve_keeps_chains(a, b, p);
    }
}

/// A chain goes through all events that led to its end: every event on the way is resolved, and
/// stands in the chain in its place.
pub proof fn chain_is_complete(a: ArenaView, n: LedgerNode)
    requires
        a.wf(),
        a.has(n),
        a.at(n).uid() is Some,
    ensures
        a.chain(n).len() == a.path_events(n).len(),
        forall|k: int|
            0 <= k < a.chain(n).len() ==> (#[trigger] a.chain(n)[k]).event == a.path_events(n)[k],
        a.chain(n).last() == a.at(n).uid().unwrap(),
    decreases n.index,
{
    assert(a.links_wf(n) && a.numbers_wf(n));
    let p = a.at(n).parent.unwrap();
    assert(a.has(p));
    assert(a.links_wf(p) && a.numbers_wf(p));
    if a.at(p).seq_no is Some {
        chain_is_complete(a, p);
    } else {
        assert(a.path_events(p) == Seq::<u32>::empty());
        assert(a.path_events(n) =~= seq![a.at(n).event]);
    }
}

/// Each event of a chain hands out the sequence number of the next one: a chain is the chain of
/// the parent and the end itself, or the end alone where it is a start event.
pub proof fn chain_grows(a: ArenaView, n: LedgerNode)
    requires
        a.wf(),
        a.has(n),
        a.at(n).uid() is Some,
    ensures
        a.at(n).parent matches Some(p) && {
            &&& a.at(p).next_seq_no == Some(a.at(n).uid().unwrap().seq_id)
            &&& if a.at(p).parent is None {
                a.chain(n) == seq![a.at(n).uid().unwrap()]
            } else {
                a.at(p).uid() is Some && a.chain(n) == a.chain(p).push(a.at(n).uid().unwrap())
            }
        },
{
    assert(a.links_wf(n) && a.numbers_wf(n));
    let p = a.at(n).parent.unwrap();
    assert(a.has(p));
    assert(a.links_wf(p) && a.numbers_wf(p));
}

/// What leads to an event of a chain is the chain of that event: every event of a chain is the end
/// of a chain of its own, which is the part of the chain up to it, and lies on the way to the end.
pub proof fn chain_prefix(t: TreeView, n: LedgerNode, k: int)
    requires
        t.wf(),
        t.is_event(n),
        t.arena.at(n).uid() is Some,
        0 <= k < t.arena.chain(n).len(),
    ensures
        exists|m: LedgerNode| #[trigger]
            t.is_event(m) && t.arena.at(m).uid() == Some(t.arena.chain(n)[k]) && t.arena.chain(m)
                == t.arena.chain(n).take(k + 1) && t.arena.walk(m).contains(n),
    decreases n.index,
{
    let a = t.arena;
    let chain = a.chain(n);
    lemma_walk_parent(a, n, t.root);
    chain_is_complete(a, n);
    chain_grows(a, n);
    if k == chain.len() - 1 {
        assert(chain.take(k + 1) == chain);
        lemma_linked(a, n, n);
    } else {
        let p = a.at(n).parent.unwrap();
        assert(a.links_wf(n));
        chain_prefix(t, p, k);
        assert(chain.take(k + 1) == a.chain(p).take(k + 1));
        let m = choose|m: LedgerNode| #[trigger]
            t.is_event(m) && a.at(m).uid() == Some(chain[k]) && a.chain(m) == chain.take(k + 1)
                && a.walk(m).contains(p);
        lemma_linked(a, m, t.root);
        lemma_walk_closed(a, m, p, n);
    }
}

/// The chain of an event on the way to another one is the beginning of the chain of the other.
pub proof fn chain_of_ancestor(t: TreeView, m: LedgerNode, n: LedgerNode)
    requires
        t.wf(),
        t.is_event(m),
        t.is_event(n),
        t.arena.walk(m).contains(n),
        t.arena.at(n).uid() is Some,
    ensures
        t.arena.at(m).uid() is Some,
        t.arena.chain(m).len() <= t.arena.chain(n).len(),
        t.arena.chain(m) == t.arena.chain(n).take(t.arena.chain(m).len() as int),
    decreases n.index,
{
    let a = t.arena;
    lemma_walk_parent(a, n, t.root);
    lemma_walk_parent(a, m, t.root);
    if m == n {
        assert(a.chain(n).take(a.chain(n).len() as int) == a.chain(n));
    } else {
        let p = a.at(n).parent.unwrap();
        lemma_walk_parent(a, n, m);
        chain_grows(a, n);
        lemma_linked(a, p, m);
        lemma_linked(a, m, t.root);
        assert(p != t.root);
        lemma_walk_parent(a, p, t.root);
        chain_of_ancestor(t, m, p);
        let len = a.chain(m).len() as int;
        assert(a.chain(p).take(len) == a.chain(n).take(len));
    }
}

/// Resolving a tree leaves no event without an identifier.
pub proof fn resolve_settles_tree(t: TreeView)
    requires
        t.wf(),
    ensures
        forall|n: LedgerNode| #[trigger]
            t.is_event(n) ==> t.arena.resolved_tree(t.root).at(n).uid() is Some
                && t.arena.resolved_tree(t.root).at(n).next_seq_no is Some,
{
    let a = t.arena;
    let order = a.walk(t.root);
    lemma_walk_order(a, t.root);
    lemma_walk_distinct(a, t.root);
    lemma_walk_has(a, t.root);
    lemma_all_shared(a, t.root, order);
    let b = a.resolved_tree(t.root);
    assert forall|n: LedgerNode| #[trigger] t.is_event(n) implies b.at(n).uid() is Some && b.at(
        n,
    ).next_seq_no is Some by {
        lemma_walk_parent(a, n, t.root);
        assert(b.is_settled(n));
    }
}

proof fn lemma_same_seq_nos(a: ArenaView, nodes: Seq<LedgerNode>, number: u32)
    requires
        a.has_all(nodes),
        forall|k: int| 0 <= k < nodes.len() ==> a.at(#[trigger] nodes[k]).seq_no == Some(number),
    ensures
        a.with_seq_nos(nodes, number) == a,
    decreases nodes.len(),
{
    if nodes.len() > 0 {
        let rest = nodes.drop_last();
        assert forall|k: int| 0 <= k < rest.len() implies a.has(#[trigger] rest[k]) && a.at(
            rest[k],
        ).seq_no == Some(number) by {
            assert(rest[k] == nodes[k]);
        }
        lemma_same_seq_nos(a, rest, number);
        assert(a.has(nodes[nodes.len() - 1]));
        assert(a.at(nodes[nodes.len() - 1]).seq_no == Some(number));
        assert(a.set(nodes.last(), a.at(nodes.last()).with_seq_no(number)).nodes =~= a.nodes);
    }
}

proof fn lemma_settled_shared(a: ArenaView, order: Seq<LedgerNode>)
    requires
        a.wf(),
        a.has_all(order),
        forall|k: int|
            0 <= k < order.len() ==> a.at(#[trigger] order[k]).next_seq_no is Some && forall|
                i: int,
            |
                0 <= i < a.kids(order[k]).len() ==> a.at(#[trigger] a.kids(order[k])[i]).seq_no
                    is Some,
    ensures
        a.all_shared(order) == a,
    decreases order.len(),
{
    if order.len() > 0 {
        let rest = order.drop_last();
        let n = order.last();
        assert(a.has(order[order.len() - 1]));
        assert forall|k: int| 0 <= k < rest.len() implies a.has(#[trigger] rest[k]) && a.at(
            rest[k],
        ).next_seq_no is Some && forall|i: int|
            0 <= i < a.kids(rest[k]).len() ==> a.at(#[trigger] a.kids(rest[k])[i]).seq_no
                is Some by {
            assert(rest[k] == order[k]);
        }
        lemma_settled_shared(a, rest);
        let number = a.at(n).next_seq_no.unwrap();
        assert(a.at(order[order.len() - 1]).next_seq_no is Some);
        lemma_kids(a, n);
        assert forall|i: int| 0 <= i < a.kids(n).len() implies a.at(
            #[trigger] a.kids(n)[i],
        ).seq_no == Some(number) by {
            assert(a.has(a.kids(n)[i]));
            assert(a.numbers_wf(a.kids(n)[i]));
            assert(a.at(a.kids(order[order.len() - 1])[i]).seq_no is Some);
        }
        lemma_same_seq_nos(a, a.kids(n), number);
    }
}

/// Resolving a tree all of whose nodes have their numbers changes nothing, whichever way they
/// got them.
pub proof fn resolve_settled_tree(t: TreeView)
    requires
        t.wf(),
        t.arena.at(t.root).next_seq_no is Some,
        forall|n: LedgerNode| #[trigger]
            t.is_event(n) ==> t.arena.at(n).uid() is Some && t.arena.at(n).next_seq_no is Some,
    ensures
        t.arena.resolved_tree(t.root) == t.arena,
{
    let a = t.arena;
    let order = a.walk(t.root);
    lemma_walk_has(a, t.root);
    assert forall|k: int| 0 <= k < order.len() implies a.at(
        #[trigger] order[k],
    ).next_seq_no is Some && forall|i: int|
        0 <= i < a.kids(order[k]).len() ==> a.at(#[trigger] a.kids(order[k])[i]).seq_no
            is Some by {
        assert(order.contains(order[k]));
        if order[k] != t.root {
            assert(t.is_event(order[k]));
        }
        assert(a.has(order[k]));
        lemma_kids(a, order[k]);
        assert forall|i: int| 0 <= i < a.kids(order[k]).len() implies a.at(
            #[trigger] a.kids(order[k])[i],
        ).seq_no is Some by {
            let kid = a.kids(order[k])[i];
            lemma_walk_closed(a, t.root, order[k], kid);
            lemma_linked(a, order[k], t.root);
            assert(t.is_event(kid));
        }
    }
    lemma_settled_shared(a, order);
}

/// Resolving a tree a second time changes nothing.
pub proof fn resolve_twice(t: TreeView)
    requires
        t.wf(),
    ensures
        t.arena.resolved_tree(t.root).resolved_tree(t.root) == t.arena.resolved_tree(t.root),
{
    let a = t.arena;
    let order = a.walk(t.root);
    lemma_walk_order(a, t.root);
    lemma_walk_distinct(a, t.root);
    lemma_walk_has(a, t.root);
    lemma_all_shared(a, t.root, order);
    let b = a.resolved_tree(t.root);
    lemma_walk_same_shape(a, b, t.root);
    let u = TreeView { arena: b, ..t };
    assert(b.has(t.root)) by {
        assert(a.has(t.root));
    }
    assert(u.wf());
    resolve_settles_tree(t);
    assert(order.contains(t.root)) by {
        lemma_walk(a, t.root);
        assert(order[0] == t.root);
    }
    assert(b.is_settled(t.root));
    assert forall|n: LedgerNode| #[trigger] u.is_event(n) implies u.arena.at(n).uid() is Some
        && u.arena.at(n).next_seq_no is Some by {
        assert(t.is_event(n));
    }
    resolve_settled_tree(u);
}

/// The identifiers of the matching ends of chains are the matching ones among the identifiers of
/// the ends of chains.
pub proof fn matching_uids_of_matching_nodes(t: TreeView, property: BitsProperty)
    requires
        t.wf(),
        t.arena.all_resolved(t.leaf_nodes()),
    ensures
        t.arena.uids(
            t.leaf_nodes().filter(|n: LedgerNode| property.holds(t.arena.at(n).event)),
        ) == t.arena.uids(t.leaf_nodes()).filter(|uid: Uid| property.holds(uid.event)),
{
    lemma_matching_uids(t.arena, t.leaf_nodes(), property);
}

proof fn lemma_matching_uids(a: ArenaView, nodes: Seq<LedgerNode>, property: BitsProperty)
    requires
        a.all_resolved(nodes),
    ensures
        a.uids(nodes.filter(|n: LedgerNode| property.holds(a.at(n).event))) == a.uids(
            nodes,
        ).filter(|uid: Uid| property.holds(uid.event)),
    decreases nodes.len(),
{
    reveal(Seq::filter);
    let on_nodes = |n: LedgerNode| property.holds(a.at(n).event);
    let on_uids = |uid: Uid| property.holds(uid.event);
    if nodes.len() > 0 {
        let rest = nodes.drop_last();
        assert(a.at(nodes[nodes.len() - 1]).uid() is Some);
        assert(a.all_resolved(rest)) by {
            assert forall|k: int| 0 <= k < rest.len() implies a.at(
                #[trigger] rest[k],
            ).uid() is Some by {
                assert(rest[k] == nodes[k]);
            }
        }
        lemma_matching_uids(a, rest, property);
        assert(a.uids(nodes).drop_last() =~= a.uids(rest));
        if on_nodes(nodes.last()) {
            assert(a.uids(rest.filter(on_nodes).push(nodes.last())) =~= a.uids(
                rest.filter(on_nodes),
            ).push(a.at(nodes.last()).uid().unwrap()));
        }
    } else {
        assert(a.uids(nodes.filter(on_nodes)) =~= Seq::<Uid>::empty());
        assert(a.uids(nodes) =~= Seq::<Uid>::empty());
    }
}

/// Where the ends of chains can be told apart, the counts of a tree hold, for each event and each
/// end of a chain, how often the event occurs in the chain.
pub proof fn counts_are_per_chain(a: ArenaView, leaves: Seq<LedgerNode>, k: int, event: u32)
    requires
        0 <= k < leaves.len(),
        a.all_resolved(leaves),
        forall|i: int, j: int|
            0 <= i < j < leaves.len() ==> a.at(#[trigger] leaves[i]).uid() != a.at(
                #[trigger] leaves[j],
            ).uid(),
    ensures
        ({
            let code = uid_code(a.at(leaves[k]).uid().unwrap());
            let counts = counts_at(a.chain_counts(leaves), event);
            let path = a.path_events(leaves[k]);
            &&& counts.contains_key(code) <==> path.contains(event)
            &&& counts.contains_key(code) ==> counts[code] == occurrences(path, event) as usize
        }),
    decreases leaves.len(),
{
    let rest = leaves.drop_last();
    let last = leaves.last();
    let code = uid_code(a.at(leaves[k]).uid().unwrap());
    let last_code = uid_code(a.at(last).uid().unwrap());
    let chain = tally(a.path_events(last));
    let before = a.chain_counts(rest);
    let after = a.chain_counts(leaves);
    assert(after == add_tally(before, last_code, chain));
    if k == leaves.len() - 1 {
        lemma_no_counts(a, rest, a.at(last).uid().unwrap(), event);
    } else {
        assert(rest[k] == leaves[k]);
        assert forall|i: int, j: int| 0 <= i < j < rest.len() implies a.at(
            #[trigger] rest[i],
        ).uid() != a.at(#[trigger] rest[j]).uid() by {
            assert(rest[i] == leaves[i] && rest[j] == leaves[j]);
        }
        assert(a.all_resolved(rest)) by {
            assert forall|i: int| 0 <= i < rest.len() implies a.at(
                #[trigger] rest[i],
            ).uid() is Some by {
                assert(rest[i] == leaves[i]);
            }
        }
        counts_are_per_chain(a, rest, k, event);
        assert(a.at(leaves[k]).uid() != a.at(leaves[leaves.len() - 1]).uid());
        assert(a.at(leaves[k]).uid() is Some);
        assert(a.at(leaves[leaves.len() - 1]).uid() is Some);
        uid_code_is_injective(a.at(leaves[k]).uid().unwrap(), a.at(last).uid().unwrap());
    }
}

/// The counts hold nothing for an identifier that no chain ends in.
proof fn lemma_no_counts(a: ArenaView, leaves: Seq<LedgerNode>, uid: Uid, event: u32)
    requires
        forall|i: int| 0 <= i < leaves.len() ==> a.at(#[trigger] leaves[i]).uid() is Some,
        forall|i: int| 0 <= i < leaves.len() ==> a.at(#[trigger] leaves[i]).uid() != Some(uid),
    ensures
        !counts_at(a.chain_counts(leaves), event).contains_key(uid_code(uid)),
    decreases leaves.len(),
{
    if leaves.len() > 0 {
        let rest = leaves.drop_last();
        assert forall|i: int| 0 <= i < rest.len() implies a.at(#[trigger] rest[i]).uid() is Some
            && a.at(rest[i]).uid() != Some(uid) by {
            assert(rest[i] == leaves[i]);
        }
        lemma_no_counts(a, rest, uid, event);
        assert(a.at(leaves[leaves.len() - 1]).uid() is Some);
        assert(a.at(leaves[leaves.len() - 1]).uid() != Some(uid));
        uid_code_is_injective(uid, a.at(leaves.last()).uid().unwrap());
    }
}

/// A tree whose nodes have their numbers, all different, can be made into a ledger, if each of
/// its start events is followed by nothing or hands out number 1.
pub proof fn resolved_tree_is_convertible(t: TreeView)
    requires
        t.wf(),
        t.arena.well_numbered(),
        forall|n: LedgerNode| #[trigger]
            t.is_event(n) ==> t.arena.at(n).uid() is Some && t.arena.at(n).next_seq_no is Some,
        forall|n: LedgerNode| #[trigger]
            t.is_event(n) && t.is_start(n) ==> t.arena.at(n).is_leaf() || t.arena.at(n).next_seq_no
                == Some(1u32),
    ensures
        t.convertible(),
{
    assert forall|m: LedgerNode, n: LedgerNode| #[trigger]
        t.is_event(m) && #[trigger] t.is_event(n) && m != n implies t.arena.at(m).uid()
        != t.arena.at(n).uid() by {
        if t.arena.at(m).uid() == t.arena.at(n).uid() {
            uids_are_unique(t, m, n);
        }
    }
}

} // verus!
