//! A ledger keeps what a tree holds: the tree that it records has the same ledger again.
use vstd::prelude::*;
use crate::convert::{lemma_entered, lemma_entries_distinct, lemma_first_visit, lemma_with_entries};
use crate::laws::{chain_grows, resolved_tree_is_convertible};
use crate::ledger::{LedgerView, entry_links_both_ways, lemma_first_past_unique};
use crate::node::LedgerNode;
use crate::numbering::lemma_same_child;
use crate::reach::{lemma_linked, lemma_walk_closed, lemma_walk_parent};
use crate::rebuild::{
    distinct_events, lemma_follow_ups, lemma_roots, rebuilt_tree_is_well_numbered,
};
use crate::tree::TreeView;
use crate::uid::Uid;
use crate::walk::lemma_kids;

verus! {

impl TreeView {
    /// The number that a ledger has for what follows `n`; for the root, that of start events.
    pub open spec fn ledger_number(self, n: LedgerNode) -> u32 {
        if n == self.root {
            0
        } else {
            self.recorded_number(n)
        }
    }

    /// The ledger of the tree tells from their numbers which events follow which: start events
    /// have number 0, and where something follows a node, no event shares its number.
    pub open spec fn kept_by_ledger(self) -> bool {
        &&& !self.arena.at(self.root).is_leaf() ==> self.arena.at(self.root).next_seq_no == Some(
            0u32,
        )
        &&& forall|m: LedgerNode, n: LedgerNode|
            (self.is_event(m) || m == self.root) && #[trigger] self.is_event(n) && m != n
                && !self.arena.at(m).is_leaf() ==> #[trigger] self.ledger_number(m)
                != self.recorded_number(n)
    }

    /// No two events but start events share a number.
    pub open spec fn numbers_differ(self) -> bool {
        forall|m: LedgerNode, n: LedgerNode| #[trigger]
            self.is_event(m) && #[trigger] self.is_event(n) && !self.is_start(m) && !self.is_start(
                n,
            ) && m != n ==> self.recorded_number(m) != self.recorded_number(n)
    }
}

/// What is under a sequence number in `next` after entering, and that nothing is left empty.
proof fn lemma_with_entries_next(entries: Seq<(Uid, u32)>)
    ensures
        ({
            let l = LedgerView::initial().with_entries(entries);
            forall|s: u32| #[trigger]
                l.next.contains_key(s) ==> l.next[s].dom().finite() && exists|e: u32|
                    l.next_of(Uid { seq_id: s, event: e }) is Some
        }),
    decreases entries.len(),
{
    let l = LedgerView::initial().with_entries(entries);
    if entries.len() > 0 {
        let rest = entries.drop_last();
        lemma_with_entries_next(rest);
        let before = LedgerView::initial().with_entries(rest);
        let (uid, number) = entries.last();
        assert forall|s: u32| #[trigger] l.next.contains_key(s) implies l.next[s].dom().finite()
            && exists|e: u32| l.next_of(Uid { seq_id: s, event: e }) is Some by {
            if s == uid.seq_id {
                assert(before.events_at(s).dom().finite());
                assert(l.next_of(Uid { seq_id: s, event: uid.event }) is Some);
            } else {
                assert(before.next.contains_key(s));
                let e = choose|e: u32| before.next_of(Uid { seq_id: s, event: e }) is Some;
                assert(l.next_of(Uid { seq_id: s, event: e }) is Some);
            }
        }
    }
}

/// No entry after `entries[k]` has its number.
#[verifier::opaque]
spec fn is_last(entries: Seq<(Uid, u32)>, k: int) -> bool {
    forall|j: int| k < j < entries.len() ==> (#[trigger] entries[j]).1 != entries[k].1
}

spec fn has_number(entries: Seq<(Uid, u32)>, s: u32) -> bool {
    exists|k: int| 0 <= k < entries.len() && (#[trigger] entries[k]).1 == s
}

/// `prev` leads to what was entered last with a number.
proof fn lemma_with_entries_prev(entries: Seq<(Uid, u32)>, s: u32)
    ensures
        LedgerView::initial().with_entries(entries).prev.contains_key(s) ==> has_number(entries, s),
        forall|k: int|
            0 <= k < entries.len() && #[trigger] is_last(entries, k) && entries[k].1 == s ==> {
                let prev = LedgerView::initial().with_entries(entries).prev;
                prev.contains_key(s) && prev[s] == entries[k].0
            },
    decreases entries.len(),
{
    let l = LedgerView::initial().with_entries(entries);
    if entries.len() > 0 {
        let rest = entries.drop_last();
        lemma_with_entries_prev(rest, s);
        let before = LedgerView::initial().with_entries(rest);
        if l.prev.contains_key(s) {
            if before.prev.contains_key(s) {
                let k = choose|k: int| 0 <= k < rest.len() && (#[trigger] rest[k]).1 == s;
                assert(entries[k].1 == s);
            } else {
                assert(entries[entries.len() - 1].1 == s);
            }
        }
        assert forall|k: int|
            0 <= k < entries.len() && #[trigger] is_last(entries, k) && entries[k].1
                == s implies l.prev.contains_key(s) && l.prev[s] == entries[k].0 by {
            if k < rest.len() {
                reveal(is_last);
                assert(rest[k] == entries[k]);
                assert(entries[entries.len() - 1].1 != entries[k].1);
                assert(is_last(rest, k)) by {
                    assert forall|j: int| k < j < rest.len() implies (#[trigger] rest[j]).1
                        != rest[k].1 by {
                        assert(rest[j] == entries[j]);
                    }
                }
            }
        }
    }
}

/// The ledger of a tree has all events of the tree, and no others.
pub proof fn ledger_has_all_events(t: TreeView)
    requires
        t.wf(),
        t.convertible(),
    ensures
        t.to_ledger().wf(),
        forall|k: int|
            0 <= k < t.to_ledger().start_events.len() ==> t.to_ledger().next_of(
                #[trigger] t.to_ledger().start_events[k],
            ) is Some,
        forall|n: LedgerNode| #[trigger]
            t.is_event(n) ==> t.to_ledger().next_of(t.arena.at(n).uid().unwrap()) == Some(
                t.recorded_number(n),
            ),
        forall|uid: Uid| #[trigger]
            t.to_ledger().next_of(uid) is Some ==> exists|n: LedgerNode| #[trigger]
                t.is_event(n) && t.arena.at(n).uid() == Some(uid),
{
    let l = t.to_ledger();
    let base = LedgerView::initial();
    lemma_entered(t);
    lemma_entries_distinct(t);
    lemma_with_entries(base, t.entries());
    lemma_with_entries_next(t.entries());
    let full = base.with_entries(t.entries());
    assert(l.next == full.next);
    assert forall|uid: Uid| #[trigger] l.next_of(uid) == full.next_of(uid) by {}
    assert forall|n: LedgerNode| #[trigger] t.is_event(n) implies l.next_of(
        t.arena.at(n).uid().unwrap(),
    ) == Some(t.recorded_number(n)) by {
        assert(t.entered().contains(n));
        let k = choose|k: int| 0 <= k < t.entered().len() && t.entered()[k] == n;
        assert(full.next_of(t.entries()[k].0) == Some(t.entries()[k].1));
    }
    assert forall|uid: Uid| #[trigger] l.next_of(uid) is Some implies exists|n: LedgerNode|
        #[trigger] t.is_event(n) && t.arena.at(n).uid() == Some(uid) by {
        if forall|k: int| 0 <= k < t.entries().len() ==> (#[trigger] t.entries()[k]).0 != uid {
            assert(full.next_of(uid) == base.next_of(uid));
        }
        let k = choose|k: int|
            0 <= k < t.entries().len() && (#[trigger] t.entries()[k]).0 == uid;
        let n = t.entered()[k];
        assert(t.entered().contains(n));
        assert(t.is_event(n));
    }
    lemma_first_visit(t);
    lemma_kids(t.arena, t.root);
    assert forall|k: int| 0 <= k < l.start_events.len() implies l.next_of(
        #[trigger] l.start_events[k],
    ) is Some by {
        let kid = t.arena.kids(t.root)[k];
        assert(t.entered()[k] == kid);
        assert(t.entered().contains(kid));
        assert(t.is_event(kid));
    }
}

/// The parent of an event, and that it hands out the event's number.
proof fn lemma_parent_number(t: TreeView, c: LedgerNode)
    requires
        t.wf(),
        t.convertible(),
        t.is_event(c),
    ensures
        t.arena.at(c).uid() is Some,
        t.arena.at(c).parent is Some,
        t.arena.has(c),
        t.arena.has(t.arena.at(c).parent.unwrap()),
        t.arena.at(c).parent.unwrap().index < c.index,
        t.arena.kids(t.arena.at(c).parent.unwrap()).contains(c),
        !t.arena.at(t.arena.at(c).parent.unwrap()).is_leaf(),
        t.arena.at(t.arena.at(c).parent.unwrap()).next_seq_no == t.arena.at(c).seq_no,
        t.arena.at(c).parent == Some(t.root) || (t.is_event(t.arena.at(c).parent.unwrap())
            && t.recorded_number(t.arena.at(c).parent.unwrap()) == t.arena.at(
            c,
        ).uid().unwrap().seq_id),
{
    let a = t.arena;
    lemma_walk_parent(a, c, t.root);
    assert(a.numbers_wf(c));
    let p = a.at(c).parent.unwrap();
    assert(a.kids(p).contains(c));
    if p != t.root {
        assert(t.is_event(p));
    }
}

/// What follows an event in the ledger are the children of its node.
proof fn lemma_follow_ups_are_kids(t: TreeView, n: LedgerNode)
    requires
        t.wf(),
        t.convertible(),
        t.kept_by_ledger(),
        t.is_event(n),
    ensures
        forall|v: Uid| #[trigger]
            t.to_ledger().follow_ups(t.arena.at(n).uid().unwrap()).contains(v) ==> exists|
                c: LedgerNode,
            |
                t.is_event(c) && #[trigger] t.arena.kids(n).contains(c) && t.arena.at(c).uid()
                    == Some(v),
        forall|c: LedgerNode| #[trigger]
            t.arena.kids(n).contains(c) ==> t.is_event(c) && t.to_ledger().follow_ups(
                t.arena.at(n).uid().unwrap(),
            ).contains(t.arena.at(c).uid().unwrap()),
{
    let a = t.arena;
    let l = t.to_ledger();
    let uid = a.at(n).uid().unwrap();
    ledger_has_all_events(t);
    lemma_follow_ups(l, uid);
    assert(l.next_of(uid) == Some(t.recorded_number(n)));
    assert forall|v: Uid| #[trigger] l.follow_ups(uid).contains(v) implies exists|c: LedgerNode|
        t.is_event(c) && #[trigger] a.kids(n).contains(c) && a.at(c).uid() == Some(v) by {
        let k = choose|k: int| 0 <= k < l.follow_ups(uid).len() && l.follow_ups(uid)[k] == v;
        assert(l.next_of(uid) == Some(l.follow_ups(uid)[k].seq_id));
        assert(l.next_of(v) is Some);
        let c = choose|c: LedgerNode| #[trigger] t.is_event(c) && a.at(c).uid() == Some(v);
        lemma_parent_number(t, c);
        let p = a.at(c).parent.unwrap();
        if p == t.root {
            assert(t.ledger_number(t.root) == 0);
            assert(t.ledger_number(t.root) != t.recorded_number(n));
        } else if p != n {
            assert(t.ledger_number(p) != t.recorded_number(n));
        }
        assert(a.kids(n).contains(c));
    }
    assert forall|c: LedgerNode| #[trigger] a.kids(n).contains(c) implies t.is_event(c)
        && l.follow_ups(uid).contains(a.at(c).uid().unwrap()) by {
        lemma_linked(a, n, t.root);
        lemma_walk_closed(a, t.root, n, c);
        lemma_kids(a, n);
        let i = choose|i: int| 0 <= i < a.kids(n).len() && a.kids(n)[i] == c;
        assert(a.at(a.kids(n)[i]).parent == Some(n));
        assert(t.is_event(c));
        lemma_parent_number(t, c);
        assert(l.next_of(a.at(c).uid().unwrap()) is Some);
    }
}

/// The chains in the ledger of a tree come to an end.
proof fn lemma_bounded(t: TreeView, n: LedgerNode)
    requires
        t.wf(),
        t.convertible(),
        t.kept_by_ledger(),
        t.is_event(n),
    ensures
        t.arena.has(n),
        t.to_ledger().bounded(
            t.arena.at(n).uid().unwrap(),
            (t.arena.nodes.len() - n.index) as nat,
        ),
    decreases t.arena.nodes.len() - n.index,
{
    let a = t.arena;
    let l = t.to_ledger();
    let uid = a.at(n).uid().unwrap();
    lemma_linked(a, n, t.root);
    lemma_follow_ups_are_kids(t, n);
    assert forall|k: int| 0 <= k < l.follow_ups(uid).len() implies l.bounded(
        #[trigger] l.follow_ups(uid)[k],
        (a.nodes.len() - n.index - 1) as nat,
    ) by {
        let v = l.follow_ups(uid)[k];
        assert(l.follow_ups(uid).contains(v));
        let c = choose|c: LedgerNode|
            t.is_event(c) && #[trigger] a.kids(n).contains(c) && a.at(c).uid() == Some(v);
        lemma_parent_number(t, c);
        lemma_kids(a, n);
        let i = choose|i: int| 0 <= i < a.kids(n).len() && a.kids(n)[i] == c;
        assert(n.index < a.kids(n)[i].index);
        lemma_bounded(t, c);
        lemma_bounded_more(l, v, (a.nodes.len() - c.index) as nat, (a.nodes.len() - n.index
            - 1) as nat);
    }
}

proof fn lemma_bounded_more(l: LedgerView, uid: Uid, depth: nat, more: nat)
    requires
        l.bounded(uid, depth),
        depth <= more,
    ensures
        l.bounded(uid, more),
    decreases depth,
{
    if l.follow_ups(uid).len() > 0 {
        assert forall|k: int| 0 <= k < l.follow_ups(uid).len() implies l.bounded(
            #[trigger] l.follow_ups(uid)[k],
            (more - 1) as nat,
        ) by {
            assert(l.bounded(l.follow_ups(uid)[k], (depth - 1) as nat));
            lemma_bounded_more(
                l,
                l.follow_ups(uid)[k],
                (depth - 1) as nat,
                (more - 1) as nat,
            );
        }
    }
}

/// The ledger of such a tree can be made into a tree again.
pub proof fn ledger_records_tree(t: TreeView)
    requires
        t.wf(),
        t.convertible(),
        t.kept_by_ledger(),
    ensures
        t.to_ledger().wf(),
        t.to_ledger().records_tree(),
{
    let a = t.arena;
    let l = t.to_ledger();
    ledger_has_all_events(t);
    lemma_first_visit(t);
    lemma_entered(t);
    assert forall|k: int| 0 <= k < l.start_events.len() implies l.ends(
        #[trigger] l.start_events[k],
    ) by {
        let kid = a.kids(t.root)[k];
        assert(t.entered()[k] == kid);
        assert(t.entered().contains(kid));
        lemma_bounded(t, kid);
    }
    lemma_start_codes(t);
    assert forall|j: int, k: int|
        0 <= j < k < l.start_events.len() implies (#[trigger] l.start_events[j]).event != (
    #[trigger] l.start_events[k]).event by {}
}

/// The start events of a tree have different codes.
proof fn lemma_start_codes(t: TreeView)
    requires
        t.wf(),
        t.convertible(),
    ensures
        distinct_events(t.to_ledger().start_events),
        t.to_ledger().roots() == t.to_ledger().start_events,
{
    let a = t.arena;
    let l = t.to_ledger();
    lemma_first_visit(t);
    lemma_entered(t);
    assert forall|j: int, k: int| 0 <= j < k < l.start_events.len() implies (
    #[trigger] l.start_events[j]).event != (#[trigger] l.start_events[k]).event by {
        let x = a.kids(t.root)[j];
        let y = a.kids(t.root)[k];
        assert(t.entered()[j] == x && t.entered()[k] == y);
        assert(t.entered().contains(x) && t.entered().contains(y));
        assert(t.is_event(x) && t.is_event(y));
        lemma_parent_number(t, x);
        lemma_parent_number(t, y);
        if a.at(x).event == a.at(y).event {
            lemma_kids(a, t.root);
            assert(a.kids(t.root).contains(x) && a.kids(t.root).contains(y));
            lemma_same_child(a, t.root, x, y);
        }
    }
    lemma_roots(l, l.start_events);
}

/// A node of the tree that a ledger records, by what it mirrors.
proof fn lemma_mirror_uid(l: LedgerView, u: TreeView, n: LedgerNode)
    requires
        l.wf(),
        u.wf(),
        u.mirrors(l),
        l.roots() == l.start_events,
        forall|k: int|
            0 <= k < l.start_events.len() ==> (#[trigger] l.start_events[k]).seq_id == 0
                && l.next_of(l.start_events[k]) is Some,
        u.is_event(n),
    ensures
        u.arena.at(n).uid() is Some,
        l.next_of(u.arena.at(n).uid().unwrap()) is Some,
        u.arena.mirrors(l, n, u.arena.at(n).uid().unwrap()),
    decreases n.index,
{
    let b = u.arena;
    lemma_walk_parent(b, n, u.root);
    let p = b.at(n).parent.unwrap();
    let i = choose|i: int| 0 <= i < b.kids(p).len() && b.kids(p)[i] == n;
    if p == u.root {
        assert(b.at(b.kids(u.root)[i]).seq_no == Some(0u32));
        assert(b.mirrors(l, b.kids(u.root)[i], l.start_events[i]));
        assert(l.start_events[i].seq_id == 0);
        assert(l.next_of(l.start_events[i]) is Some);
        assert(b.at(n).uid() == Some(l.start_events[i]));
    } else {
        assert(u.is_event(p));
        lemma_mirror_uid(l, u, p);
        let uid = b.at(p).uid().unwrap();
        lemma_follow_ups(l, uid);
        let v = l.follow_ups(uid)[i];
        assert(b.at(b.kids(p)[i]).seq_no == Some(v.seq_id));
        assert(b.mirrors(l, b.kids(p)[i], v));
        assert(b.at(n).uid() == Some(v));
    }
}

/// In the tree that the ledger of `t` records, identifiers are unique.
proof fn lemma_mirror_unique(t: TreeView, u: TreeView, m: LedgerNode, n: LedgerNode)
    requires
        t.wf(),
        t.convertible(),
        t.kept_by_ledger(),
        u.wf(),
        u.mirrors(t.to_ledger()),
        u.is_event(m),
        u.is_event(n),
        u.arena.at(m).uid() == u.arena.at(n).uid(),
    ensures
        m == n,
    decreases m.index,
{
    let b = u.arena;
    let l = t.to_ledger();
    ledger_has_all_events(t);
    lemma_start_numbers(t);
    lemma_mirror_uid(l, u, m);
    lemma_mirror_uid(l, u, n);
    lemma_walk_parent(b, m, u.root);
    lemma_walk_parent(b, n, u.root);
    assert(b.numbers_wf(m) && b.numbers_wf(n));
    let p = b.at(m).parent.unwrap();
    let q = b.at(n).parent.unwrap();
    if p != q {
        if p == u.root {
            lemma_mirror_number(t, u, n);
        } else if q == u.root {
            lemma_mirror_number(t, u, m);
        } else {
            assert(u.is_event(p) && u.is_event(q));
            lemma_mirror_number(t, u, m);
            lemma_mirror_number(t, u, n);
            lemma_mirror_uid(l, u, p);
            lemma_mirror_uid(l, u, q);
            let x = choose|x: LedgerNode| #[trigger]
                t.is_event(x) && t.arena.at(x).uid() == b.at(p).uid();
            let y = choose|y: LedgerNode| #[trigger]
                t.is_event(y) && t.arena.at(y).uid() == b.at(q).uid();
            assert(l.next_of(b.at(p).uid().unwrap()) == Some(t.recorded_number(x)));
            assert(l.next_of(b.at(q).uid().unwrap()) == Some(t.recorded_number(y)));
            if x != y {
                assert(t.ledger_number(x) != t.recorded_number(y));
            }
            lemma_mirror_unique(t, u, p, q);
        }
    }
    lemma_same_child(b, p, m, n);
}

/// Start events have number 0 in the ledger of such a tree.
proof fn lemma_start_numbers(t: TreeView)
    requires
        t.wf(),
        t.convertible(),
        t.kept_by_ledger(),
    ensures
        t.to_ledger().roots() == t.to_ledger().start_events,
        forall|k: int|
            0 <= k < t.to_ledger().start_events.len() ==> (
            #[trigger] t.to_ledger().start_events[k]).seq_id == 0,
        forall|k: int|
            0 <= k < t.arena.kids(t.root).len() ==> t.is_event(#[trigger] t.arena.kids(t.root)[k])
                && t.is_start(t.arena.kids(t.root)[k]),
        forall|n: LedgerNode| #[trigger]
            t.is_event(n) && t.is_start(n) ==> t.arena.kids(t.root).contains(n),
{
    lemma_first_visit(t);
    lemma_entered(t);
    lemma_start_codes(t);
    lemma_kids(t.arena, t.root);
    assert forall|k: int| 0 <= k < t.arena.kids(t.root).len() implies t.is_event(
        #[trigger] t.arena.kids(t.root)[k],
    ) && t.is_start(t.arena.kids(t.root)[k]) && t.arena.at(
        t.arena.kids(t.root)[k],
    ).uid().unwrap().seq_id == 0 by {
        let kid = t.arena.kids(t.root)[k];
        assert(t.entered()[k] == kid);
        assert(t.entered().contains(kid));
        assert(t.is_event(kid));
        lemma_parent_number(t, kid);
    }
    assert forall|n: LedgerNode| #[trigger] t.is_event(n) && t.is_start(n) implies t.arena.kids(
        t.root,
    ).contains(n) by {
        lemma_parent_number(t, n);
    }
}

/// Below a start event, the number of a node is that which the ledger has for its parent. It is
/// not 0, and the parent is a node with children in the tree of the ledger.
proof fn lemma_mirror_number(t: TreeView, u: TreeView, n: LedgerNode)
    requires
        t.wf(),
        t.convertible(),
        t.kept_by_ledger(),
        u.wf(),
        u.mirrors(t.to_ledger()),
        u.is_event(n),
        !u.is_start(n),
    ensures
        ({
            let p = u.arena.at(n).parent.unwrap();
            &&& u.is_event(p)
            &&& t.to_ledger().next_of(u.arena.at(p).uid().unwrap()) == Some(
                u.arena.at(n).uid().unwrap().seq_id,
            )
            &&& u.arena.at(n).uid().unwrap().seq_id != 0
            &&& exists|x: LedgerNode| #[trigger]
                t.is_event(x) && t.arena.at(x).uid() == u.arena.at(p).uid() && !t.arena.at(
                    x,
                ).is_leaf()
            &&& forall|x: LedgerNode| #[trigger]
                t.is_event(x) && t.arena.at(x).uid() == u.arena.at(p).uid() ==> !t.arena.at(
                    x,
                ).is_leaf()
        }),
{
    let b = u.arena;
    let l = t.to_ledger();
    ledger_has_all_events(t);
    lemma_start_numbers(t);
    lemma_walk_parent(b, n, u.root);
    let p = b.at(n).parent.unwrap();
    assert(u.is_event(p));
    lemma_mirror_uid(l, u, p);
    lemma_mirror_uid(l, u, n);
    let uid = b.at(p).uid().unwrap();
    lemma_follow_ups(l, uid);
    let i = choose|i: int| 0 <= i < b.kids(p).len() && b.kids(p)[i] == n;
    let v = l.follow_ups(uid)[i];
    assert(b.at(b.kids(p)[i]).seq_no == Some(v.seq_id));
    assert(b.mirrors(l, b.kids(p)[i], v));
    assert(l.follow_ups(uid).contains(v));
    assert forall|x: LedgerNode| #[trigger]
        t.is_event(x) && t.arena.at(x).uid() == b.at(p).uid() implies !t.arena.at(x).is_leaf()
        && t.recorded_number(x) != 0 by {
        lemma_follow_ups_are_kids(t, x);
        let c = choose|c: LedgerNode|
            t.is_event(c) && #[trigger] t.arena.kids(x).contains(c) && t.arena.at(c).uid() == Some(
                v,
            );
        assert(t.arena.kids(x).len() > 0);
        lemma_walk_parent(t.arena, x, t.root);
        lemma_root_has_kids(t, x);
        assert(t.ledger_number(t.root) != t.recorded_number(x));
    }
    let x = choose|x: LedgerNode| #[trigger] t.is_event(x) && t.arena.at(x).uid() == Some(uid);
    assert(l.next_of(uid) == Some(t.recorded_number(x)));
}

/// A tree with an event has a start event.
proof fn lemma_root_has_kids(t: TreeView, n: LedgerNode)
    requires
        t.wf(),
        t.is_event(n),
    ensures
        !t.arena.at(t.root).is_leaf(),
    decreases n.index,
{
    lemma_walk_parent(t.arena, n, t.root);
    let p = t.arena.at(n).parent.unwrap();
    if p != t.root {
        lemma_root_has_kids(t, p);
    } else {
        assert(t.arena.kids(t.root).len() > 0);
    }
}

/// Every event of `t` is in the tree that its ledger records.
proof fn lemma_mirror_all(t: TreeView, u: TreeView, n: LedgerNode)
    requires
        t.wf(),
        t.convertible(),
        t.kept_by_ledger(),
        u.wf(),
        u.mirrors(t.to_ledger()),
        t.is_event(n),
    ensures
        exists|x: LedgerNode| #[trigger]
            u.is_event(x) && u.arena.at(x).uid() == t.arena.at(n).uid() && u.is_start(x)
                == t.is_start(n),
    decreases n.index,
{
    let a = t.arena;
    let b = u.arena;
    let l = t.to_ledger();
    ledger_has_all_events(t);
    lemma_start_numbers(t);
    lemma_parent_number(t, n);
    let p = a.at(n).parent.unwrap();
    if p == t.root {
        let i = choose|i: int| 0 <= i < a.kids(p).len() && a.kids(p)[i] == n;
        let x = b.kids(u.root)[i];
        assert(b.at(b.kids(u.root)[i]).seq_no == Some(0u32));
        assert(b.mirrors(l, b.kids(u.root)[i], l.start_events[i]));
        assert(l.start_events[i].seq_id == 0);
        lemma_child_is_event(u, u.root, i);
    } else {
        lemma_mirror_all(t, u, p);
        let y = choose|y: LedgerNode| #[trigger]
            u.is_event(y) && b.at(y).uid() == a.at(p).uid() && u.is_start(y) == t.is_start(p);
        lemma_mirror_uid(l, u, y);
        let uid = a.at(p).uid().unwrap();
        lemma_follow_ups_are_kids(t, p);
        let v = a.at(n).uid().unwrap();
        assert(l.follow_ups(uid).contains(v));
        let i = choose|i: int| 0 <= i < l.follow_ups(uid).len() && l.follow_ups(uid)[i] == v;
        assert(b.at(b.kids(y)[i]).seq_no == Some(v.seq_id));
        assert(b.mirrors(l, b.kids(y)[i], v));
        lemma_child_is_event(u, y, i);
        assert(u.is_event(b.kids(y)[i]));
    }
}

proof fn lemma_child_is_event(u: TreeView, p: LedgerNode, i: int)
    requires
        u.wf(),
        u.is_event(p) || p == u.root,
        0 <= i < u.arena.kids(p).len(),
    ensures
        u.is_event(u.arena.kids(p)[i]),
        u.arena.at(u.arena.kids(p)[i]).parent == Some(p),
{
    let b = u.arena;
    let x = b.kids(p)[i];
    crate::walk::lemma_walk(b, u.root);
    assert(b.walk(u.root)[0] == u.root);
    lemma_linked(b, p, u.root);
    lemma_kids(b, p);
    assert(b.kids(p).contains(x));
    lemma_walk_closed(b, u.root, p, x);
}

/// The tree that the ledger of `t` records can be made into a ledger, and records the same
/// numbers.
proof fn lemma_mirror_convertible(t: TreeView, u: TreeView)
    requires
        t.wf(),
        t.convertible(),
        t.kept_by_ledger(),
        u.wf(),
        u.mirrors(t.to_ledger()),
    ensures
        u.convertible(),
        forall|n: LedgerNode| #[trigger]
            u.is_event(n) ==> u.arena.at(n).uid() is Some && t.to_ledger().next_of(
                u.arena.at(n).uid().unwrap(),
            ) == Some(u.recorded_number(n)),
{
    let b = u.arena;
    let l = t.to_ledger();
    ledger_has_all_events(t);
    lemma_start_numbers(t);
    assert forall|n: LedgerNode| #[trigger] u.is_event(n) implies {
        &&& b.at(n).uid() is Some
        &&& if u.is_start(n) {
            b.at(n).next_seq_no == Some(1u32)
        } else {
            b.at(n).next_seq_no is Some
        }
        &&& l.next_of(b.at(n).uid().unwrap()) == Some(u.recorded_number(n))
    } by {
        lemma_mirror_uid(l, u, n);
        if u.is_start(n) {
            lemma_walk_parent(b, n, u.root);
            let i = choose|i: int| 0 <= i < b.kids(u.root).len() && b.kids(u.root)[i] == n;
            assert(b.at(b.kids(u.root)[i]).seq_no == Some(0u32));
            assert(b.mirrors(l, b.kids(u.root)[i], l.start_events[i]));
            assert(l.start_events[i].seq_id == 0);
            let x = t.arena.kids(t.root)[i];
            assert(t.is_event(x) && t.is_start(x));
        }
    }
    assert forall|m: LedgerNode, n: LedgerNode| #[trigger]
        u.is_event(m) && #[trigger] u.is_event(n) && m != n implies b.at(m).uid() != b.at(
        n,
    ).uid() by {
        if b.at(m).uid() == b.at(n).uid() {
            lemma_mirror_unique(t, u, m, n);
        }
    }
}

/// The start events come first among the entries of a tree, and no others are start events.
proof fn lemma_starts_first(t: TreeView)
    requires
        t.wf(),
    ensures
        t.entries().len() == t.entered().len(),
        t.arena.kids(t.root).len() <= t.entered().len(),
        forall|k: int|
            0 <= k < t.entered().len() ==> (t.is_start(#[trigger] t.entered()[k]) <==> k
                < t.arena.kids(t.root).len()),
{
    lemma_first_visit(t);
    lemma_entered(t);
    lemma_kids(t.arena, t.root);
    assert forall|k: int| 0 <= k < t.entered().len() implies (t.is_start(
        #[trigger] t.entered()[k],
    ) <==> k < t.arena.kids(t.root).len()) by {
        let n = t.entered()[k];
        assert(t.entered().contains(n));
        if k < t.arena.kids(t.root).len() {
            assert(t.entered()[k] == t.arena.kids(t.root)[k]);
        } else if t.is_start(n) {
            lemma_walk_parent(t.arena, n, t.root);
            let i = choose|i: int|
                0 <= i < t.arena.kids(t.root).len() && t.arena.kids(t.root)[i] == n;
            assert(t.entered()[i] == t.arena.kids(t.root)[i]);
            assert(t.entered()[i] != t.entered()[k]);
        }
    }
}

/// Which event `prev` has for a number.
proof fn lemma_prev(t: TreeView, s: u32)
    requires
        t.wf(),
        t.convertible(),
        t.numbers_differ(),
    ensures
        t.to_ledger().prev.contains_key(s) <==> exists|n: LedgerNode| #[trigger]
            t.is_event(n) && t.recorded_number(n) == s,
        forall|n: LedgerNode| #[trigger]
            t.is_event(n) && !t.is_start(n) && t.recorded_number(n) == s ==> t.to_ledger().prev[s]
                == t.arena.at(n).uid().unwrap(),
        t.to_ledger().prev.contains_key(s) && (forall|n: LedgerNode| #[trigger]
            t.is_event(n) && t.recorded_number(n) == s ==> t.is_start(n)) ==> {
            &&& s == 1
            &&& t.to_ledger().start_events.len() > 0
            &&& t.to_ledger().prev[s] == t.to_ledger().start_events.last()
        },
{
    let l = t.to_ledger();
    let e = t.entries();
    lemma_with_entries_prev(e, s);
    lemma_starts_first(t);
    lemma_entered(t);
    lemma_first_visit(t);
    let full = LedgerView::initial().with_entries(e);
    assert(l.prev == full.prev);
    assert forall|n: LedgerNode| #[trigger]
        t.is_event(n) && !t.is_start(n) && t.recorded_number(n) == s implies l.prev.contains_key(s)
        && l.prev[s] == t.arena.at(n).uid().unwrap() by {
        assert(t.entered().contains(n));
        let k = choose|k: int| 0 <= k < t.entered().len() && t.entered()[k] == n;
        assert(is_last(e, k)) by {
            reveal(is_last);
            assert forall|j: int| k < j < e.len() implies (#[trigger] e[j]).1 != e[k].1 by {
                assert(t.entered()[j] != t.entered()[k]);
                assert(t.entered().contains(t.entered()[j]));
                assert(t.is_event(t.entered()[j]));
                assert(!t.is_start(t.entered()[k]));
                assert(!t.is_start(t.entered()[j]));
            }
        }
    }
    if l.prev.contains_key(s) {
        let k = choose|k: int| 0 <= k < e.len() && (#[trigger] e[k]).1 == s;
        let n = t.entered()[k];
        assert(t.entered().contains(n));
        assert(t.is_event(n) && t.recorded_number(n) == s);
    }
    let count = t.arena.kids(t.root).len();
    assert(l.start_events.len() == count);
    if count > 0 && forall|n: LedgerNode| #[trigger]
        t.is_event(n) && t.recorded_number(n) == s ==> t.is_start(n) {
        let last = count - 1;
        if s == 1 {
            let n = t.entered()[last];
            assert(t.is_start(n));
            assert(e[last].1 == 1);
            assert(is_last(e, last)) by {
                reveal(is_last);
                assert forall|j: int| last < j < e.len() implies (#[trigger] e[j]).1
                    != e[last].1 by {
                    let m = t.entered()[j];
                    assert(t.entered().contains(m));
                    assert(!t.is_start(m));
                    assert(t.is_event(m));
                }
            }
            assert(t.entered()[last] == t.arena.kids(t.root)[last]);
        }
    }
    if exists|n: LedgerNode| #[trigger] t.is_event(n) && t.recorded_number(n) == s {
        let n = choose|n: LedgerNode| #[trigger] t.is_event(n) && t.recorded_number(n) == s;
        if t.is_start(n) {
            assert(t.entered().contains(n));
            let k = choose|k: int| 0 <= k < t.entered().len() && t.entered()[k] == n;
            assert(t.is_start(t.entered()[k]));
            assert(count > 0);
            if exists|m: LedgerNode| #[trigger]
                t.is_event(m) && t.recorded_number(m) == s && !t.is_start(m) {
                let m = choose|m: LedgerNode| #[trigger]
                    t.is_event(m) && t.recorded_number(m) == s && !t.is_start(m);
                assert(l.prev.contains_key(s));
            }
        }
    }
}

/// A tree that a ledger records, made into a ledger, gives that ledger again.
///
/// This holds of the ledgers of trees in which the numbers of nodes tell which events follow
/// which. It fails where a tree has two start events and one of them is followed by others: the
/// ledger has number 1 for both.
pub proof fn ledger_round_trip(t: TreeView, u: TreeView)
    requires
        t.wf(),
        t.convertible(),
        t.kept_by_ledger(),
        u.wf(),
        u.mirrors(t.to_ledger()),
    ensures
        u.convertible(),
        u.to_ledger().sources == t.to_ledger().sources,
        u.to_ledger().start_events == t.to_ledger().start_events,
        u.to_ledger().next == t.to_ledger().next,
        t.to_ledger().is_counter(t.to_ledger().next_seq_id) ==> u.to_ledger().next_seq_id
            == t.to_ledger().next_seq_id,
        t.numbers_differ() ==> u.to_ledger().prev == t.to_ledger().prev,
{
    let l = t.to_ledger();
    lemma_mirror_convertible(t, u);
    let k = u.to_ledger();
    ledger_has_all_events(t);
    ledger_has_all_events(u);
    lemma_start_numbers(t);
    assert forall|uid: Uid| #[trigger] k.next_of(uid) == l.next_of(uid) by {
        if k.next_of(uid) is Some {
            let n = choose|n: LedgerNode| #[trigger]
                u.is_event(n) && u.arena.at(n).uid() == Some(uid);
            assert(k.next_of(uid) == Some(u.recorded_number(n)));
        }
        if l.next_of(uid) is Some {
            let n = choose|n: LedgerNode| #[trigger]
                t.is_event(n) && t.arena.at(n).uid() == Some(uid);
            lemma_mirror_all(t, u, n);
            let x = choose|x: LedgerNode| #[trigger]
                u.is_event(x) && u.arena.at(x).uid() == t.arena.at(n).uid() && u.is_start(x)
                    == t.is_start(n);
            assert(k.next_of(uid) == Some(u.recorded_number(x)));
        }
    }
    assert forall|uid: Uid| #[trigger]
        LedgerView::initial().with_entries(u.entries()).next_of(uid)
            == LedgerView::initial().with_entries(t.entries()).next_of(uid) by {
        assert(k.next_of(uid) == l.next_of(uid));
    }
    lemma_same_next(t.entries(), u.entries());
    assert(k.start_events =~= l.start_events) by {
        assert forall|i: int| 0 <= i < l.start_events.len() implies k.start_events[i]
            == l.start_events[i] by {
            let x = u.arena.kids(u.root)[i];
            assert(u.arena.at(u.arena.kids(u.root)[i]).seq_no == Some(0u32));
            assert(u.arena.mirrors(l, u.arena.kids(u.root)[i], l.start_events[i]));
            assert(l.start_events[i].seq_id == 0);
        }
    }
    if l.is_counter(l.next_seq_id) {
        lemma_first_past_unique(
            l.next_seq_id,
            u.arena.next_avail_seq_no,
            l.next_seq_id,
            l.numbers(),
        );
    }
    if t.numbers_differ() {
        lemma_mirror_numbers_differ(t, u);
        assert forall|s: u32| l.prev.contains_key(s) <==> #[trigger] k.prev.contains_key(s) by {
            lemma_same_numbers(t, u, s);
            lemma_prev(t, s);
            lemma_prev(u, s);
        }
        assert forall|s: u32| l.prev.contains_key(s) implies l.prev[s]
            == #[trigger] k.prev[s] by {
            lemma_same_numbers(t, u, s);
            lemma_prev(t, s);
            lemma_prev(u, s);
            if exists|n: LedgerNode| #[trigger]
                t.is_event(n) && !t.is_start(n) && t.recorded_number(n) == s {
                let n = choose|n: LedgerNode| #[trigger]
                    t.is_event(n) && !t.is_start(n) && t.recorded_number(n) == s;
                lemma_mirror_all(t, u, n);
                let x = choose|x: LedgerNode| #[trigger]
                    u.is_event(x) && u.arena.at(x).uid() == t.arena.at(n).uid() && u.is_start(x)
                        == t.is_start(n);
                assert(l.next_of(t.arena.at(n).uid().unwrap()) == Some(t.recorded_number(n)));
                assert(u.recorded_number(x) == s);
            } else {
                assert forall|n: LedgerNode| #[trigger]
                    u.is_event(n) && u.recorded_number(n) == s implies u.is_start(n) by {
                    if !u.is_start(n) {
                        lemma_back(t, u, n);
                    }
                }
            }
        }
        assert(k.prev =~= l.prev);
    }
}

/// Equal look-ups make equal maps.
proof fn lemma_same_next(e: Seq<(Uid, u32)>, f: Seq<(Uid, u32)>)
    requires
        forall|uid: Uid| #[trigger]
            LedgerView::initial().with_entries(f).next_of(uid)
                == LedgerView::initial().with_entries(e).next_of(uid),
    ensures
        LedgerView::initial().with_entries(f).next == LedgerView::initial().with_entries(e).next,
{
    let l = LedgerView::initial().with_entries(e);
    let k = LedgerView::initial().with_entries(f);
    lemma_with_entries_next(e);
    lemma_with_entries_next(f);
    assert forall|s: u32| l.next.contains_key(s) <==> #[trigger] k.next.contains_key(s) by {
        if l.next.contains_key(s) {
            let x = choose|x: u32| l.next_of(Uid { seq_id: s, event: x }) is Some;
            assert(k.next_of(Uid { seq_id: s, event: x }) is Some);
        }
        if k.next.contains_key(s) {
            let x = choose|x: u32| k.next_of(Uid { seq_id: s, event: x }) is Some;
            assert(l.next_of(Uid { seq_id: s, event: x }) is Some);
        }
    }
    assert forall|s: u32| #[trigger] k.next.contains_key(s) implies k.next[s] == l.next[s] by {
        assert forall|x: u32| #[trigger] k.next[s].contains_key(x) <==> l.next[s].contains_key(
            x,
        ) by {
            assert(k.next_of(Uid { seq_id: s, event: x }) == l.next_of(
                Uid { seq_id: s, event: x },
            ));
        }
        assert forall|x: u32| #[trigger] k.next[s].contains_key(x) implies k.next[s][x]
            == l.next[s][x] by {
            assert(k.next_of(Uid { seq_id: s, event: x }) == l.next_of(
                Uid { seq_id: s, event: x },
            ));
        }
        assert(k.next[s] =~= l.next[s]);
    }
    assert(k.next =~= l.next);
}

/// An event of the tree that the ledger of `t` records is one of `t`.
proof fn lemma_back(t: TreeView, u: TreeView, n: LedgerNode)
    requires
        t.wf(),
        t.convertible(),
        t.kept_by_ledger(),
        u.wf(),
        u.mirrors(t.to_ledger()),
        u.is_event(n),
    ensures
        exists|x: LedgerNode| #[trigger]
            t.is_event(x) && t.arena.at(x).uid() == u.arena.at(n).uid() && t.is_start(x)
                == u.is_start(n) && t.recorded_number(x) == u.recorded_number(n),
{
    let l = t.to_ledger();
    ledger_has_all_events(t);
    lemma_start_numbers(t);
    lemma_mirror_convertible(t, u);
    lemma_mirror_uid(l, u, n);
    let x = choose|x: LedgerNode| #[trigger]
        t.is_event(x) && t.arena.at(x).uid() == u.arena.at(n).uid();
    assert(l.next_of(u.arena.at(n).uid().unwrap()) == Some(t.recorded_number(x)));
    lemma_mirror_all(t, u, x);
    let y = choose|y: LedgerNode| #[trigger]
        u.is_event(y) && u.arena.at(y).uid() == t.arena.at(x).uid() && u.is_start(y) == t.is_start(
            x,
        );
    lemma_mirror_unique(t, u, y, n);
}

/// Both trees record the same numbers.
proof fn lemma_same_numbers(t: TreeView, u: TreeView, s: u32)
    requires
        t.wf(),
        t.convertible(),
        t.kept_by_ledger(),
        u.wf(),
        u.mirrors(t.to_ledger()),
    ensures
        (exists|n: LedgerNode| #[trigger] t.is_event(n) && t.recorded_number(n) == s) <==> (exists|
            n: LedgerNode,
        | #[trigger] u.is_event(n) && u.recorded_number(n) == s),
{
    let l = t.to_ledger();
    ledger_has_all_events(t);
    lemma_mirror_convertible(t, u);
    if exists|n: LedgerNode| #[trigger] t.is_event(n) && t.recorded_number(n) == s {
        let n = choose|n: LedgerNode| #[trigger] t.is_event(n) && t.recorded_number(n) == s;
        lemma_mirror_all(t, u, n);
        let x = choose|x: LedgerNode| #[trigger]
            u.is_event(x) && u.arena.at(x).uid() == t.arena.at(n).uid() && u.is_start(x)
                == t.is_start(n);
        assert(l.next_of(t.arena.at(n).uid().unwrap()) == Some(t.recorded_number(n)));
        assert(u.recorded_number(x) == s);
    }
    if exists|n: LedgerNode| #[trigger] u.is_event(n) && u.recorded_number(n) == s {
        let n = choose|n: LedgerNode| #[trigger] u.is_event(n) && u.recorded_number(n) == s;
        lemma_back(t, u, n);
    }
}

proof fn lemma_mirror_numbers_differ(t: TreeView, u: TreeView)
    requires
        t.wf(),
        t.convertible(),
        t.kept_by_ledger(),
        t.numbers_differ(),
        u.wf(),
        u.mirrors(t.to_ledger()),
    ensures
        u.numbers_differ(),
{
    assert forall|m: LedgerNode, n: LedgerNode| #[trigger]
        u.is_event(m) && #[trigger] u.is_event(n) && !u.is_start(m) && !u.is_start(n) && m
            != n implies u.recorded_number(m) != u.recorded_number(n) by {
        lemma_back(t, u, m);
        lemma_back(t, u, n);
        let x = choose|x: LedgerNode| #[trigger]
            t.is_event(x) && t.arena.at(x).uid() == u.arena.at(m).uid() && t.is_start(x)
                == u.is_start(m) && t.recorded_number(x) == u.recorded_number(m);
        let y = choose|y: LedgerNode| #[trigger]
            t.is_event(y) && t.arena.at(y).uid() == u.arena.at(n).uid() && t.is_start(y)
                == u.is_start(n) && t.recorded_number(y) == u.recorded_number(n);
        if x == y {
            lemma_mirror_unique(t, u, m, n);
        }
    }
}

/// The tree that the ledger of a tree records has the same chains.
pub proof fn rebuilt_tree_keeps_chains(t: TreeView, u: TreeView, n: LedgerNode)
    requires
        t.wf(),
        t.convertible(),
        t.kept_by_ledger(),
        u.wf(),
        u.mirrors(t.to_ledger()),
        t.is_event(n),
    ensures
        exists|x: LedgerNode| #[trigger]
            u.is_event(x) && u.arena.at(x).uid() == t.arena.at(n).uid() && u.arena.chain(x)
                == t.arena.chain(n),
    decreases n.index,
{
    let a = t.arena;
    let b = u.arena;
    let l = t.to_ledger();
    ledger_has_all_events(t);
    lemma_start_numbers(t);
    lemma_parent_number(t, n);
    lemma_mirror_all(t, u, n);
    let x = choose|x: LedgerNode| #[trigger]
        u.is_event(x) && b.at(x).uid() == a.at(n).uid() && u.is_start(x) == t.is_start(n);
    lemma_walk_parent(b, x, u.root);
    chain_grows(a, n);
    chain_grows(b, x);
    let p = a.at(n).parent.unwrap();
    let q = b.at(x).parent.unwrap();
    if p != t.root {
        rebuilt_tree_keeps_chains(t, u, p);
        let y = choose|y: LedgerNode| #[trigger]
            u.is_event(y) && b.at(y).uid() == a.at(p).uid() && b.chain(y) == a.chain(p);
        lemma_mirror_number(t, u, x);
        lemma_mirror_uid(l, u, q);
        let z = choose|z: LedgerNode| #[trigger]
            t.is_event(z) && a.at(z).uid() == b.at(q).uid();
        assert(l.next_of(b.at(q).uid().unwrap()) == Some(t.recorded_number(z)));
        if z != p {
            assert(t.ledger_number(p) != t.recorded_number(z));
        }
        lemma_mirror_unique(t, u, q, y);
        lemma_walk_parent(b, q, u.root);
        lemma_walk_parent(a, p, t.root);
    }
}

/// The numbers in the ledger of a well-numbered tree.
proof fn lemma_ledger_numbers(t: TreeView)
    requires
        t.wf(),
        t.convertible(),
        t.kept_by_ledger(),
        t.arena.well_numbered(),
        t.arena.at(t.root).next_seq_no == Some(0u32),
        forall|n: LedgerNode| #[trigger]
            t.is_event(n) ==> t.arena.has(n) && t.arena.at(n).next_seq_no == Some(
                t.recorded_number(n),
            ),
    ensures
        t.to_ledger().is_counter(t.to_ledger().next_seq_id),
        t.to_ledger().tells_apart(),
{
    let a = t.arena;
    let l = t.to_ledger();
    ledger_has_all_events(t);
    lemma_start_numbers(t);
    lemma_with_entries_next(t.entries());
    let full = LedgerView::initial().with_entries(t.entries());
    assert(l.next == full.next);
    assert(a.has(t.root));
    assert forall|s: u32| #[trigger] l.hands_out(s) implies exists|n: LedgerNode| #[trigger]
        t.is_event(n) && a.at(n).next_seq_no == Some(s) by {
        let uid = choose|uid: Uid| #[trigger] l.next_of(uid) == Some(s);
        let n = choose|n: LedgerNode| #[trigger] t.is_event(n) && a.at(n).uid() == Some(uid);
        assert(l.next_of(a.at(n).uid().unwrap()) == Some(t.recorded_number(n)));
    }
    assert forall|s: u32| #[trigger] l.numbers().contains(s) implies s < l.next_seq_id by {
        if l.next.contains_key(s) {
            assert(full.next.contains_key(s));
            let e = choose|e: u32| full.next_of(Uid { seq_id: s, event: e }) is Some;
            let uid = Uid { seq_id: s, event: e };
            assert(l.next_of(uid) is Some);
            let n = choose|n: LedgerNode| #[trigger] t.is_event(n) && a.at(n).uid() == Some(uid);
            lemma_parent_number(t, n);
            assert(a.has(a.at(n).parent.unwrap()));
        } else {
            assert(l.hands_out(s));
            let n = choose|n: LedgerNode| #[trigger]
                t.is_event(n) && a.at(n).next_seq_no == Some(s);
            assert(a.has(n));
        }
    }
    if l.hands_out(0) {
        let n = choose|n: LedgerNode| #[trigger] t.is_event(n) && a.at(n).next_seq_no == Some(0u32);
        assert(a.has(n) && a.has(t.root));
    }
    assert forall|k: int| 0 <= k < l.start_events.len() implies !l.hands_out(
        (#[trigger] l.start_events[k]).seq_id,
    ) by {}
    assert forall|u: Uid, v: Uid| #[trigger]
        l.next_of(u) is Some && #[trigger] l.next_of(v) is Some && u != v implies l.next_of(u)
        != l.next_of(v) by {
        let m = choose|m: LedgerNode| #[trigger] t.is_event(m) && a.at(m).uid() == Some(u);
        let n = choose|n: LedgerNode| #[trigger] t.is_event(n) && a.at(n).uid() == Some(v);
        assert(l.next_of(a.at(m).uid().unwrap()) == Some(t.recorded_number(m)));
        assert(l.next_of(a.at(n).uid().unwrap()) == Some(t.recorded_number(n)));
        assert(a.has(m) && a.has(n));
    }
}

/// Identifiers are unique in a tree that went through a ledger: where the nodes of a tree have
/// their numbers, all different, and its start event has number 0 and hands out number 1, the
/// tree that its ledger records hands out no number twice, now or later.
pub proof fn round_trip_is_well_numbered(t: TreeView, u: TreeView)
    requires
        t.wf(),
        t.arena.well_numbered(),
        t.arena.at(t.root).next_seq_no == Some(0u32),
        forall|n: LedgerNode| #[trigger]
            t.is_event(n) ==> t.arena.at(n).uid() is Some && t.arena.at(n).next_seq_no is Some,
        forall|n: LedgerNode| #[trigger]
            t.is_event(n) && t.is_start(n) ==> t.arena.at(n).next_seq_no == Some(1u32),
        u.wf(),
        u.mirrors(t.to_ledger()),
    ensures
        u.arena.well_numbered(),
        u.arena.next_avail_seq_no == t.arena.next_avail_seq_no,
{
    resolved_tree_is_kept(t);
    ledger_has_all_events(t);
    rebuilt_tree_is_well_numbered(t.to_ledger(), u);
    ledger_round_trip(t, u);
}

/// A tree whose nodes all have their numbers, all different, and whose start event has number 0
/// and hands out number 1, is kept by its ledger, which goes on counting where the tree does.
pub proof fn resolved_tree_is_kept(t: TreeView)
    requires
        t.wf(),
        t.arena.well_numbered(),
        t.arena.at(t.root).next_seq_no == Some(0u32),
        forall|n: LedgerNode| #[trigger]
            t.is_event(n) ==> t.arena.at(n).uid() is Some && t.arena.at(n).next_seq_no is Some,
        forall|n: LedgerNode| #[trigger]
            t.is_event(n) && t.is_start(n) ==> t.arena.at(n).next_seq_no == Some(1u32),
    ensures
        t.convertible(),
        t.kept_by_ledger(),
        t.numbers_differ(),
        t.to_ledger().is_counter(t.to_ledger().next_seq_id),
        t.to_ledger().tells_apart(),
{
    let a = t.arena;
    resolved_tree_is_convertible(t);
    assert forall|n: LedgerNode| #[trigger] t.is_event(n) implies a.has(n) && a.at(n).next_seq_no
        == Some(t.recorded_number(n)) by {
        lemma_linked(a, n, t.root);
    }
    assert forall|m: LedgerNode, n: LedgerNode|
        (t.is_event(m) || m == t.root) && #[trigger] t.is_event(n) && m != n && !a.at(
            m,
        ).is_leaf() implies #[trigger] t.ledger_number(m) != t.recorded_number(n) by {
        assert(a.has(m) && a.has(n));
    }
    assert forall|m: LedgerNode, n: LedgerNode| #[trigger]
        t.is_event(m) && #[trigger] t.is_event(n) && !t.is_start(m) && !t.is_start(n) && m
            != n implies t.recorded_number(m) != t.recorded_number(n) by {
        assert(a.has(m) && a.has(n));
    }
    lemma_ledger_numbers(t);
}

proof fn lemma_with_entries_sound(entries: Seq<(Uid, u32)>)
    requires
        forall|i: int, j: int|
            0 <= i < j < entries.len() ==> (#[trigger] entries[i]).0 != (#[trigger] entries[j]).0,
    ensures
        LedgerView::initial().with_entries(entries).prev_sound(),
        forall|k: int|
            0 <= k < entries.len() ==> LedgerView::initial().with_entries(
                entries,
            ).prev.contains_key((#[trigger] entries[k]).1),
    decreases entries.len(),
{
    if entries.len() > 0 {
        let rest = entries.drop_last();
        assert forall|i: int, j: int| 0 <= i < j < rest.len() implies (#[trigger] rest[i]).0 != (
        #[trigger] rest[j]).0 by {
            assert(entries[i].0 != entries[j].0);
        }
        lemma_with_entries_sound(rest);
        lemma_with_entries(LedgerView::initial(), rest);
        let (uid, number) = entries.last();
        assert forall|k: int| 0 <= k < rest.len() implies (#[trigger] rest[k]).0 != uid by {
            assert(entries[k].0 != entries[entries.len() - 1].0);
        }
        entry_links_both_ways(LedgerView::initial().with_entries(rest), uid, number);
        assert forall|k: int| 0 <= k < entries.len() implies LedgerView::initial().with_entries(
            entries,
        ).prev.contains_key((#[trigger] entries[k]).1) by {
            if k < rest.len() {
                assert(rest[k] == entries[k]);
            }
        }
    }
}

/// From every number in the ledger of a tree the way back leads to an event that hands it out.
pub proof fn tree_ledger_leads_back(t: TreeView)
    requires
        t.wf(),
        t.convertible(),
    ensures
        t.to_ledger().prev_sound(),
        forall|n: LedgerNode| #[trigger]
            t.is_event(n) ==> t.to_ledger().prev.contains_key(t.recorded_number(n)),
{
    let l = t.to_ledger();
    lemma_entries_distinct(t);
    lemma_with_entries_sound(t.entries());
    lemma_entered(t);
    let full = LedgerView::initial().with_entries(t.entries());
    assert(l.next == full.next && l.prev == full.prev);
    assert forall|s: u32| #[trigger] l.prev.contains_key(s) implies l.next_of(l.prev[s]) == Some(
        s,
    ) by {
        assert(full.next_of(full.prev[s]) == Some(s));
    }
    assert forall|n: LedgerNode| #[trigger] t.is_event(n) implies l.prev.contains_key(
        t.recorded_number(n),
    ) by {
        assert(t.entered().contains(n));
        let k = choose|k: int| 0 <= k < t.entered().len() && t.entered()[k] == n;
        assert(full.prev.contains_key(t.entries()[k].1));
    }
}

/// The ledger of a tree has the sources of the tree: names, groups and identifiers alike. It has
/// the start events in the order of the tree, and goes on counting where the tree does.
pub proof fn ledger_has_sources_of_tree(t: TreeView)
    ensures
        t.to_ledger().sources == t.sources,
        t.to_ledger().sources.groups == t.sources.groups,
        t.to_ledger().sources.names == t.sources.names,
        t.to_ledger().sources.next_mat_id == t.sources.next_mat_id,
        t.to_ledger().sources.next_surf_id == t.sources.next_surf_id,
        t.to_ledger().sources.next_matsurf_id == t.sources.next_matsurf_id,
        t.to_ledger().sources.next_light_id == t.sources.next_light_id,
        t.to_ledger().next_seq_id == t.arena.next_avail_seq_no,
{
}

/// The start events of the ledger of a tree are the children of its root, in order.
pub proof fn ledger_has_starts_of_tree(t: TreeView, k: int)
    requires
        t.wf(),
        t.convertible(),
        0 <= k < t.arena.nodes[t.root.index as int].children.len(),
    ensures
        ({
            let l = t.to_ledger();
            let n = t.arena.nodes[t.root.index as int].children[k].1;
            &&& l.start_events.len() == t.arena.nodes[t.root.index as int].children.len()
            &&& t.arena.nodes[n.index as int].seq_no == Some(l.start_events[k].seq_id)
            &&& t.arena.nodes[n.index as int].event == l.start_events[k].event
            &&& l.next.contains_key(l.start_events[k].seq_id)
            &&& l.next[l.start_events[k].seq_id].contains_key(l.start_events[k].event)
            &&& l.next[l.start_events[k].seq_id][l.start_events[k].event] == 1
        }),
{
    let n = t.arena.kids(t.root)[k];
    lemma_first_visit(t);
    lemma_entered(t);
    ledger_has_all_events(t);
    assert(t.entered()[k] == n);
    assert(t.entered().contains(n));
    assert(t.is_event(n));
    lemma_kids(t.arena, t.root);
    assert(t.is_start(t.arena.kids(t.root)[k]));
    assert(t.to_ledger().next_of(t.to_ledger().start_events[k]) == Some(1u32));
}

/// The ledger of a tree has, for every event of the tree but the start events, the number that the
/// event hands out, and the event can be found back from some event with that number.
pub proof fn ledger_has_numbers_of_tree(t: TreeView, n: LedgerNode)
    requires
        t.wf(),
        t.convertible(),
        t.is_event(n),
        t.arena.nodes[n.index as int].parent != Some(t.root),
    ensures
        ({
            let l = t.to_ledger();
            let node = t.arena.nodes[n.index as int];
            &&& node.seq_no is Some
            &&& node.next_seq_no is Some
            &&& l.next.contains_key(node.seq_no.unwrap())
            &&& l.next[node.seq_no.unwrap()].contains_key(node.event)
            &&& l.next[node.seq_no.unwrap()][node.event] == node.next_seq_no.unwrap()
            &&& l.prev.contains_key(node.next_seq_no.unwrap())
        }),
{
    ledger_has_all_events(t);
    tree_ledger_leads_back(t);
    assert(t.has_numbers(n));
    assert(t.to_ledger().next_of(t.arena.at(n).uid().unwrap()) == Some(t.recorded_number(n)));
}

/// Where the numbers of a tree tell which events follow which, the ledger leads from an event to
/// the events that follow it in the tree, and to no others; and back from an event to the one that
/// it follows.
pub proof fn ledger_leads_both_ways(t: TreeView, p: LedgerNode, c: LedgerNode, v: Uid)
    requires
        t.wf(),
        t.convertible(),
        t.kept_by_ledger(),
        t.is_event(p),
    ensures
        t.is_event(c) && t.arena.nodes[c.index as int].parent == Some(p) ==> ({
            let l = t.to_ledger();
            let s = t.arena.nodes[c.index as int].seq_no;
            let uid = Uid { seq_id: s.unwrap(), event: t.arena.nodes[c.index as int].event };
            &&& s is Some
            &&& t.arena.nodes[p.index as int].seq_no is Some
            &&& l.follow_ups(
                Uid {
                    seq_id: t.arena.nodes[p.index as int].seq_no.unwrap(),
                    event: t.arena.nodes[p.index as int].event,
                },
            ).contains(uid)
            &&& l.prev.contains_key(uid.seq_id)
            &&& l.prev[uid.seq_id] == (Uid {
                seq_id: t.arena.nodes[p.index as int].seq_no.unwrap(),
                event: t.arena.nodes[p.index as int].event,
            })
        }),
        t.to_ledger().follow_ups(t.arena.at(p).uid().unwrap()).contains(v) ==> exists|
            x: LedgerNode,
        |
            #[trigger] t.is_event(x) && t.arena.nodes[x.index as int].parent == Some(p)
                && t.arena.nodes[x.index as int].seq_no == Some(v.seq_id)
                && t.arena.nodes[x.index as int].event == v.event,
{
    let a = t.arena;
    let l = t.to_ledger();
    lemma_follow_ups_are_kids(t, p);
    lemma_walk_parent(a, p, t.root);
    lemma_kids(a, p);
    assert(t.has_numbers(p));
    if l.follow_ups(a.at(p).uid().unwrap()).contains(v) {
        let x = choose|x: LedgerNode|
            t.is_event(x) && #[trigger] a.kids(p).contains(x) && a.at(x).uid() == Some(v);
        let i = choose|i: int| 0 <= i < a.kids(p).len() && a.kids(p)[i] == x;
        assert(a.at(a.kids(p)[i]).parent == Some(p));
    }
    if t.is_event(c) && a.at(c).parent == Some(p) {
        lemma_parent_number(t, c);
        assert(a.kids(p).contains(c));
        ledger_has_all_events(t);
        tree_ledger_leads_back(t);
        let s = a.at(c).uid().unwrap().seq_id;
        assert(p != t.root);
        assert(t.recorded_number(p) == s);
        assert(l.prev.contains_key(s));
        assert(l.next_of(l.prev[s]) == Some(s));
        let x = choose|x: LedgerNode| #[trigger]
            t.is_event(x) && a.at(x).uid() == Some(l.prev[s]);
        assert(l.next_of(a.at(x).uid().unwrap()) == Some(t.recorded_number(x)));
        if x != p {
            assert(t.ledger_number(p) != t.recorded_number(x));
        }
    }
}

/// A ledger can take a tree in just where all events have their numbers, where something follows
/// a start event the number 1, and no two events have the same number and code.
pub proof fn what_a_ledger_takes_in(t: TreeView)
    ensures
        t.convertible() <==> {
            &&& forall|n: LedgerNode| #[trigger]
                t.is_event(n) ==> {
                    let node = t.arena.nodes[n.index as int];
                    &&& node.seq_no is Some
                    &&& node.parent != Some(t.root) ==> node.next_seq_no is Some
                    &&& node.parent == Some(t.root) && node.children.len() > 0 ==> node.next_seq_no
                        == Some(1u32)
                }
            &&& forall|m: LedgerNode, n: LedgerNode| #[trigger]
                t.is_event(m) && #[trigger] t.is_event(n) && m != n
                    ==> t.arena.nodes[m.index as int].seq_no != t.arena.nodes[n.index as int].seq_no
                    || t.arena.nodes[m.index as int].event != t.arena.nodes[n.index as int].event
        },
{
    if t.convertible() {
        assert forall|n: LedgerNode| #[trigger] t.is_event(n) implies {
            let node = t.arena.nodes[n.index as int];
            &&& node.seq_no is Some
            &&& node.parent != Some(t.root) ==> node.next_seq_no is Some
            &&& node.parent == Some(t.root) && node.children.len() > 0 ==> node.next_seq_no == Some(
                1u32,
            )
        } by {
            assert(t.has_numbers(n));
        }
    } else if forall|n: LedgerNode| #[trigger]
        t.is_event(n) ==> {
            let node = t.arena.nodes[n.index as int];
            &&& node.seq_no is Some
            &&& node.parent != Some(t.root) ==> node.next_seq_no is Some
            &&& node.parent == Some(t.root) && node.children.len() > 0 ==> node.next_seq_no == Some(
                1u32,
            )
        } {
        assert forall|n: LedgerNode| #[trigger] t.is_event(n) implies t.has_numbers(n) by {}
    }
}

/// A tree that went through a ledger has the sources of the first tree: names, groups and
/// identifiers alike.
pub proof fn round_trip_keeps_sources(t: TreeView, u: TreeView)
    requires
        u.mirrors(t.to_ledger()),
    ensures
        u.sources == t.sources,
        u.sources.groups == t.sources.groups,
        u.sources.names == t.sources.names,
{
}

/// A tree that went through a ledger has the events and chains of the first tree, and no others.
pub proof fn round_trip_keeps_chains(t: TreeView, u: TreeView, n: LedgerNode, x: LedgerNode)
    requires
        t.wf(),
        t.convertible(),
        t.kept_by_ledger(),
        u.wf(),
        u.mirrors(t.to_ledger()),
    ensures
        t.is_event(n) ==> exists|y: LedgerNode| #[trigger]
            u.is_event(y) && u.arena.at(y).uid() == t.arena.at(n).uid() && u.arena.chain(y)
                == t.arena.chain(n),
        u.is_event(x) ==> exists|m: LedgerNode| #[trigger]
            t.is_event(m) && t.arena.at(m).uid() == u.arena.at(x).uid() && t.arena.chain(m)
                == u.arena.chain(x),
{
    if t.is_event(n) {
        rebuilt_tree_keeps_chains(t, u, n);
    }
    if u.is_event(x) {
        lemma_back(t, u, x);
        let m = choose|m: LedgerNode| #[trigger]
            t.is_event(m) && t.arena.at(m).uid() == u.arena.at(x).uid() && t.is_start(m)
                == u.is_start(x) && t.recorded_number(m) == u.recorded_number(x);
        rebuilt_tree_keeps_chains(t, u, m);
        let y = choose|y: LedgerNode| #[trigger]
            u.is_event(y) && u.arena.at(y).uid() == t.arena.at(m).uid() && u.arena.chain(y)
                == t.arena.chain(m);
        lemma_mirror_unique(t, u, x, y);
    }
}

/// From number 1 the ledger of a tree leads back to the last of the start events, unless another
/// event hands out number 1.
pub proof fn ledger_leads_back_to_last_start(t: TreeView)
    requires
        t.wf(),
        t.convertible(),
        t.arena.nodes[t.root.index as int].children.len() > 0,
        forall|n: LedgerNode| #[trigger]
            t.is_event(n) && t.arena.nodes[n.index as int].parent != Some(t.root)
                ==> t.arena.nodes[n.index as int].next_seq_no != Some(1u32),
    ensures
        t.to_ledger().prev.contains_key(1),
        t.to_ledger().prev[1] == t.to_ledger().start_events.last(),
{
    let count = t.arena.kids(t.root).len() as int;
    let entries = t.entries();
    let k = count - 1;
    lemma_first_visit(t);
    lemma_entered(t);
    lemma_kids(t.arena, t.root);
    assert(t.entered()[k] == t.arena.kids(t.root)[k]);
    assert(t.is_start(t.arena.kids(t.root)[k]));
    assert(is_last(entries, k)) by {
        reveal(is_last);
        assert forall|j: int| k < j < entries.len() implies (#[trigger] entries[j]).1
            != entries[k].1 by {
            let n = t.entered()[j];
            assert(t.entered().contains(n));
            assert(t.is_event(n));
            if t.is_start(n) {
                lemma_walk_parent(t.arena, n, t.root);
                let i = choose|i: int| 0 <= i < count && t.arena.kids(t.root)[i] == n;
                assert(t.entered()[i] == n);
                assert(i != j);
            }
            assert(t.has_numbers(n));
        }
    }
    lemma_with_entries_prev(entries, 1);
    let full = LedgerView::initial().with_entries(entries);
    assert(t.to_ledger().prev == full.prev);
}

} // verus!
