//! The tree that a ledger records.
use vstd::prelude::*;
use crate::ledger::{Ledger, LedgerView, ascending, lemma_ascending};
use crate::maps::key_index;
use crate::model::{ArenaView, lemma_inserted_fresh};
use crate::node::{LedgerNode, NodeArena};
use crate::numbering::lemma_same_child;
use crate::reach::{lemma_linked, lemma_walk_parent};
use crate::tree::{LedgerTree, TreeView};
use crate::uid::Uid;
use crate::walk::lemma_kids;

verus! {

impl LedgerView {
    /// No chain of follow-ups that starts with `uid` goes on for more than `depth` steps.
    pub open spec fn bounded(self, uid: Uid, depth: nat) -> bool
        decreases depth,
    {
        self.follow_ups(uid).len() == 0 || (depth > 0 && forall|k: int|
            0 <= k < self.follow_ups(uid).len() ==> self.bounded(
                #[trigger] self.follow_ups(uid)[k],
                (depth - 1) as nat,
            ))
    }

    /// The chains that start with `uid` come to an end.
    pub open spec fn ends(self, uid: Uid) -> bool {
        exists|depth: nat| self.bounded(uid, depth)
    }

    /// The ledger records a tree: its chains come to an end, and of the start events with the
    /// same code at most one is entered.
    pub open spec fn records_tree(self) -> bool {
        &&& forall|k: int|
            0 <= k < self.start_events.len() ==> self.ends(#[trigger] self.start_events[k])
        &&& forall|j: int, k: int|
            0 <= j < k < self.start_events.len() && (#[trigger] self.start_events[j]).event == (
            #[trigger] self.start_events[k]).event ==> self.next_of(self.start_events[j]) is None
                || self.next_of(self.start_events[k]) is None
    }

    /// One of `starts` for each code among them, in the order in which the codes first occur. Of
    /// those with the same code it is the one that is entered, if there is one.
    pub open spec fn roots_of(self, starts: Seq<Uid>) -> Seq<Uid>
        decreases starts.len(),
    {
        if starts.len() == 0 {
            Seq::empty()
        } else {
            let before = self.roots_of(starts.drop_last());
            let last = starts.last();
            if !has_event(before, last.event) {
                before.push(last)
            } else if self.next_of(last) is Some {
                before.update(event_index(before, last.event), last)
            } else {
                before
            }
        }
    }

    /// What the children of the root stand for in the tree of the ledger: the start events.
    pub open spec fn roots(self) -> Seq<Uid> {
        self.roots_of(self.start_events)
    }

    /// The numbers of the ledger tell its events apart: no two events hand out the same, none
    /// hands out 0 or the number of a start event, and there are numbers left.
    pub open spec fn tells_apart(self) -> bool {
        &&& self.numbers_unique()
        &&& !self.hands_out(0)
        &&& forall|k: int|
            0 <= k < self.start_events.len() ==> !self.hands_out(
                (#[trigger] self.start_events[k]).seq_id,
            )
        &&& !self.numbers().contains(u32::MAX)
    }
}

pub open spec fn has_event(uids: Seq<Uid>, event: u32) -> bool {
    exists|k: int| 0 <= k < uids.len() && (#[trigger] uids[k]).event == event
}

pub open spec fn event_index(uids: Seq<Uid>, event: u32) -> int {
    choose|k: int| 0 <= k < uids.len() && (#[trigger] uids[k]).event == event
}

pub open spec fn distinct_events(uids: Seq<Uid>) -> bool {
    forall|j: int, k: int|
        0 <= j < k < uids.len() ==> (#[trigger] uids[j]).event != (#[trigger] uids[k]).event
}

/// Roots have different codes, and are start events. Start events with different codes are all
/// roots.
pub proof fn lemma_roots(l: LedgerView, starts: Seq<Uid>)
    ensures
        distinct_events(l.roots_of(starts)),
        forall|k: int|
            0 <= k < l.roots_of(starts).len() ==> starts.contains(#[trigger] l.roots_of(starts)[k]),
        distinct_events(starts) ==> l.roots_of(starts) == starts,
    decreases starts.len(),
{
    if starts.len() > 0 {
        let rest = starts.drop_last();
        let last = starts.last();
        lemma_roots(l, rest);
        let before = l.roots_of(rest);
        let after = l.roots_of(starts);
        assert forall|k: int| 0 <= k < after.len() implies starts.contains(#[trigger] after[k]) by {
            if k < before.len() && after[k] == before[k] {
                let i = choose|i: int| 0 <= i < rest.len() && rest[i] == before[k];
                assert(starts[i] == after[k]);
            } else {
                assert(starts[starts.len() - 1] == after[k]);
            }
        }
        if distinct_events(starts) {
            assert(distinct_events(rest)) by {
                assert forall|j: int, k: int| 0 <= j < k < rest.len() implies (
                #[trigger] rest[j]).event != (#[trigger] rest[k]).event by {
                    assert(starts[j].event != starts[k].event);
                }
            }
            if has_event(rest, last.event) {
                let k = event_index(rest, last.event);
                assert(starts[k].event != starts[starts.len() - 1].event);
            }
            assert(rest.push(last) =~= starts);
        }
    }
}

impl Ledger {
    fn find_event(uids: &Vec<Uid>, event: u32) -> (index: Option<usize>)
        requires
            distinct_events(uids@),
        ensures
            match index {
                Some(k) => has_event(uids@, event) && k == event_index(uids@, event) && k
                    < uids@.len(),
                None => !has_event(uids@, event),
            },
    {
        let mut k: usize = 0;
        while k < uids.len()
            invariant
                k <= uids@.len(),
                distinct_events(uids@),
                forall|j: int| 0 <= j < k ==> (#[trigger] uids@[j]).event != event,
            decreases uids.len() - k,
        {
            if uids[k].event == event {
                assert(uids@[k as int].event == event);
                return Some(k);
            }
            k += 1;
        }
        None
    }

    /// What the children of the root stand for in the tree of the ledger.
    fn roots(&self) -> (roots: Vec<Uid>)
        ensures
            roots@ == self@.roots(),
            distinct_events(roots@),
    {
        let mut roots: Vec<Uid> = Vec::new();
        let mut k: usize = 0;
        let ghost starts = self@.start_events;
        assert(starts.take(0) == Seq::<Uid>::empty());
        while k < self.start_events.len()
            invariant
                k <= starts.len(),
                starts == self@.start_events,
                distinct_events(roots@),
                roots@ == self@.roots_of(starts.take(k as int)),
            decreases self.start_events.len() - k,
        {
            let uid = self.start_events[k];
            proof {
                assert(starts.take(k + 1).drop_last() == starts.take(k as int));
                assert(starts.take(k + 1).last() == uid);
                lemma_roots(self@, starts.take(k + 1));
            }
            match Ledger::find_event(&roots, uid.event) {
                None => {
                    roots.push(uid);
                },
                Some(i) => {
                    if self.get_next_seq_id(&uid).is_some() {
                        roots.set(i, uid);
                    }
                },
            }
            k += 1;
        }
        assert(starts.take(k as int) == starts);
        roots
    }
}

impl ArenaView {
    /// `n` stands for `uid` as the ledger has it: it has the event and the number for its
    /// children, and its children stand for the follow-ups, in ascending order.
    pub open spec fn mirrors(self, l: LedgerView, n: LedgerNode, uid: Uid) -> bool
        decreases self.nodes.len() - n.index,
    {
        &&& self.has(n)
        &&& self.at(n).event == uid.event
        &&& self.at(n).next_seq_no == l.next_of(uid)
        &&& self.kids(n).len() == l.follow_ups(uid).len()
        &&& forall|k: int|
            0 <= k < self.kids(n).len() ==> {
                let kid = #[trigger] self.kids(n)[k];
                if n.index < kid.index && self.has(kid) {
                    &&& self.at(kid).seq_no == Some(l.follow_ups(uid)[k].seq_id)
                    &&& self.mirrors(l, kid, l.follow_ups(uid)[k])
                } else {
                    false
                }
            }
    }
}

impl TreeView {
    /// The tree is the one that the ledger records. Its start events all have number 0, and the
    /// numbers that are handed out next are past all that the ledger records.
    pub open spec fn mirrors(self, l: LedgerView) -> bool {
        &&& self.sources == l.sources
        &&& l.is_counter(self.arena.next_avail_seq_no)
        &&& self.arena.at(self.root).event == 0
        &&& self.arena.at(self.root).next_seq_no == Some(0u32)
        &&& self.arena.kids(self.root).len() == l.roots().len()
        &&& forall|k: int|
            0 <= k < l.roots().len() ==> {
                &&& self.arena.at(#[trigger] self.arena.kids(self.root)[k]).seq_no == Some(0u32)
                &&& self.arena.mirrors(l, self.arena.kids(self.root)[k], l.roots()[k])
            }
        &&& forall|n: LedgerNode| #[trigger]
            self.arena.has(n) ==> self.arena.walk(self.root).contains(n)
    }
}

/// The follow-ups of an event are the events that have the number it hands out.
pub proof fn lemma_follow_ups(l: LedgerView, uid: Uid)
    requires
        l.wf(),
    ensures
        l.next_of(uid) is None ==> l.follow_ups(uid).len() == 0,
        forall|j: int, k: int|
            0 <= j < k < l.follow_ups(uid).len() ==> (#[trigger] l.follow_ups(uid)[j]).event < (
            #[trigger] l.follow_ups(uid)[k]).event,
        forall|k: int|
            0 <= k < l.follow_ups(uid).len() ==> l.next_of(uid) == Some(
                (#[trigger] l.follow_ups(uid)[k]).seq_id,
            ) && l.next_of(l.follow_ups(uid)[k]) is Some,
        forall|v: Uid| #[trigger]
            l.next_of(v) is Some && l.next_of(uid) == Some(v.seq_id) ==> l.follow_ups(
                uid,
            ).contains(v),
{
    if let Some(s) = l.next_of(uid) {
        if l.next.contains_key(s) {
            let dom = l.next[s].dom();
            let events = ascending(dom);
            lemma_ascending(dom);
            assert forall|k: int| 0 <= k < events.len() implies dom.contains(
                #[trigger] events[k],
            ) by {
                assert(events.contains(events[k]));
            }
            assert forall|v: Uid| #[trigger]
                l.next_of(v) is Some && l.next_of(uid) == Some(v.seq_id) implies l.follow_ups(
                uid,
            ).contains(v) by {
                assert(events.contains(v.event));
                let k = choose|k: int| 0 <= k < events.len() && events[k] == v.event;
                assert(l.follow_ups(uid)[k] == v);
            }
        }
    }
}

/// How many nodes it takes to stand for `uid` and what follows, up to `depth` steps.
spec fn size(l: LedgerView, uid: Uid, depth: nat) -> nat
    decreases depth, 1nat, 0nat,
{
    if depth == 0 {
        1
    } else {
        1 + size_of_all(l, l.follow_ups(uid), (depth - 1) as nat)
    }
}

spec fn size_of_all(l: LedgerView, uids: Seq<Uid>, depth: nat) -> nat
    decreases depth, 2nat, uids.len(),
{
    if uids.len() == 0 {
        0
    } else {
        size_of_all(l, uids.drop_last(), depth) + size(l, uids.last(), depth)
    }
}

/// How many nodes are left to add for a list of identifiers, each with its depth.
spec fn work(l: LedgerView, todo: Seq<(Uid, nat)>) -> nat
    decreases todo.len(),
{
    if todo.len() == 0 {
        0
    } else {
        work(l, todo.drop_last()) + size(l, todo.last().0, todo.last().1)
    }
}

/// The root of a tree that is being built.
spec fn first() -> LedgerNode {
    LedgerNode { index: 0 }
}

/// The children of `n` stand for `uids`, where `who` says what each node stands for.
spec fn kids_match(a: ArenaView, who: Seq<Uid>, n: LedgerNode, uids: Seq<Uid>) -> bool {
    &&& a.kids(n).len() == uids.len()
    &&& forall|k: int|
        0 <= k < uids.len() ==> who[(#[trigger] a.kids(n)[k]).index as int] == uids[k]
}

/// `n` and its children are complete.
spec fn built(a: ArenaView, l: LedgerView, who: Seq<Uid>, n: LedgerNode) -> bool {
    &&& a.at(n).next_seq_no == l.next_of(who[n.index as int])
    &&& kids_match(a, who, n, l.follow_ups(who[n.index as int]))
}

/// `n` is new, and stands for `uid`.
spec fn pending(a: ArenaView, who: Seq<Uid>, uid: Uid, n: LedgerNode) -> bool {
    &&& a.has(n)
    &&& n.index > 0
    &&& who[n.index as int] == uid
    &&& a.at(n).next_seq_no is None
    &&& a.at(n).is_leaf()
}

spec fn on_stack(stack: Seq<(Uid, LedgerNode)>, n: LedgerNode) -> bool {
    exists|j: int| 0 <= j < stack.len() && (#[trigger] stack[j]).1 == n
}

/// Every node but the root and `current` is complete, or waits on the stack.
spec fn partial(
    a: ArenaView,
    l: LedgerView,
    who: Seq<Uid>,
    stack: Seq<(Uid, LedgerNode)>,
    current: LedgerNode,
) -> bool {
    &&& a.wf()
    &&& who.len() == a.nodes.len()
    &&& a.has(first())
    &&& a.has(current)
    &&& a.at(first()).parent is None
    &&& a.at(first()).event == 0
    &&& a.at(first()).next_seq_no == Some(0u32)
    &&& l.is_counter(a.next_avail_seq_no)
    &&& forall|m: LedgerNode| #[trigger]
        a.has(m) && m.index > 0 ==> a.at(m).seq_no is Some && a.at(m).event
            == who[m.index as int].event
    &&& forall|m: LedgerNode| #[trigger]
        a.has(m) && m.index > 0 ==> a.at(m).parent is Some && a.kids(
            a.at(m).parent.unwrap(),
        ).contains(m)
    &&& forall|j: int|
        0 <= j < stack.len() ==> pending(a, who, (#[trigger] stack[j]).0, stack[j].1) && stack[j].1
            != current
    &&& forall|i: int, j: int|
        0 <= i < j < stack.len() ==> (#[trigger] stack[i]).1 != (#[trigger] stack[j]).1
    &&& forall|m: LedgerNode| #[trigger]
        a.has(m) && m.index > 0 && m != current ==> built(a, l, who, m) || on_stack(stack, m)
}

/// No child has an event that none of the identifiers has.
proof fn lemma_no_child(a: ArenaView, who: Seq<Uid>, n: LedgerNode, uids: Seq<Uid>, event: u32)
    requires
        a.wf(),
        a.has(n),
        kids_match(a, who, n, uids),
        forall|m: LedgerNode| #[trigger]
            a.has(m) && m.index > 0 ==> a.at(m).event == who[m.index as int].event,
        forall|k: int| 0 <= k < uids.len() ==> (#[trigger] uids[k]).event != event,
    ensures
        a.child(n, event) is None,
{
    assert(a.links_wf(n));
    if a.child(n, event) is Some {
        let k = key_index(a.at(n).children, event);
        assert(a.entry_wf(n, a.at(n).children[k]));
        let kid = a.kids(n)[k];
        assert(a.has(kid));
        assert(who[kid.index as int] == uids[k]);
    }
}

/// What `kids_match` says of a node, it still says when another node gets a child.
proof fn lemma_kids_match_grow(
    a: ArenaView,
    who: Seq<Uid>,
    current: LedgerNode,
    uid: Uid,
    n: LedgerNode,
    uids: Seq<Uid>,
)
    requires
        a.wf(),
        a.has(current),
        a.has(n),
        n != current,
        who.len() == a.nodes.len(),
        a.child(current, uid.event) is None,
        kids_match(a, who, n, uids),
    ensures
        kids_match(a.inserted(current, uid.event), who.push(uid), n, uids),
{
    lemma_inserted_fresh(a, current, uid.event);
    let b = a.inserted(current, uid.event);
    assert(b.kids(n) == a.kids(n));
    lemma_kids(a, n);
    assert forall|k: int| 0 <= k < uids.len() implies who.push(uid)[(
    #[trigger] b.kids(n)[k]).index as int] == uids[k] by {
        assert(a.has(a.kids(n)[k]));
    }
}

/// Adding a child to the current node, to wait on the stack.
proof fn lemma_add_child(
    a: ArenaView,
    l: LedgerView,
    who: Seq<Uid>,
    stack: Seq<(Uid, LedgerNode)>,
    current: LedgerNode,
    uids: Seq<Uid>,
    uid: Uid,
)
    requires
        partial(a, l, who, stack, current),
        a.at(current).next_seq_no is Some,
        a.child(current, uid.event) is None,
        a.inserted(current, uid.event).wf(),
        kids_match(a, who, current, uids),
    ensures
        partial(
            a.inserted(current, uid.event),
            l,
            who.push(uid),
            stack.push((uid, a.fresh())),
            current,
        ),
        kids_match(a.inserted(current, uid.event), who.push(uid), current, uids.push(uid)),
{
    lemma_inserted_fresh(a, current, uid.event);
    let b = a.inserted(current, uid.event);
    let who2 = who.push(uid);
    let fresh = a.fresh();
    let stack2 = stack.push((uid, fresh));
    assert forall|m: LedgerNode| #[trigger] b.has(m) && m.index > 0 implies b.at(m).seq_no is Some
        && b.at(m).event == who2[m.index as int].event by {
        if m != fresh {
            assert(a.has(m));
        }
    }
    assert forall|m: LedgerNode| #[trigger] b.has(m) && m.index > 0 implies b.at(m).parent is Some
        && b.kids(b.at(m).parent.unwrap()).contains(m) by {
        if m == fresh {
            assert(b.kids(current)[a.kids(current).len() as int] == fresh);
        } else {
            assert(a.has(m));
            assert(a.links_wf(m));
            let p = a.at(m).parent.unwrap();
            assert(a.has(p));
            let i = choose|i: int| 0 <= i < a.kids(p).len() && a.kids(p)[i] == m;
            assert(b.kids(p)[i] == m);
        }
    }
    assert forall|j: int| 0 <= j < stack2.len() implies pending(
        b,
        who2,
        (#[trigger] stack2[j]).0,
        stack2[j].1,
    ) && stack2[j].1 != current by {
        if j < stack.len() {
            assert(stack2[j] == stack[j]);
            assert(a.has(stack[j].1));
        }
    }
    assert forall|i: int, j: int| 0 <= i < j < stack2.len() implies (#[trigger] stack2[i]).1 != (
    #[trigger] stack2[j]).1 by {
        assert(stack2[i] == stack[i]);
        assert(a.has(stack[i].1));
    }
    assert forall|m: LedgerNode| #[trigger] b.has(m) && m.index > 0 && m != current implies built(
        b,
        l,
        who2,
        m,
    ) || on_stack(stack2, m) by {
        if m == fresh {
            assert(stack2[stack.len() as int].1 == m);
        } else {
            assert(a.has(m));
            if on_stack(stack, m) {
                let j = choose|j: int| 0 <= j < stack.len() && (#[trigger] stack[j]).1 == m;
                assert(stack2[j].1 == m);
            } else {
                lemma_kids_match_grow(
                    a,
                    who,
                    current,
                    uid,
                    m,
                    l.follow_ups(who[m.index as int]),
                );
            }
        }
    }
    lemma_kids(a, current);
    assert forall|k: int| 0 <= k < uids.push(uid).len() implies who2[(
    #[trigger] b.kids(current)[k]).index as int] == uids.push(uid)[k] by {
        if k < uids.len() {
            assert(b.kids(current)[k] == a.kids(current)[k]);
            assert(a.has(a.kids(current)[k]));
        }
    }
}

/// Giving the current node its number.
proof fn lemma_set_number(
    a: ArenaView,
    l: LedgerView,
    who: Seq<Uid>,
    stack: Seq<(Uid, LedgerNode)>,
    current: LedgerNode,
    number: u32,
)
    requires
        partial(a, l, who, stack, current),
        current != first(),
        a.set(current, a.at(current).with_next_seq_no(number)).wf(),
    ensures
        partial(
            a.set(current, a.at(current).with_next_seq_no(number)),
            l,
            who,
            stack,
            current,
        ),
        forall|n: LedgerNode, uids: Seq<Uid>| #[trigger]
            kids_match(a, who, n, uids) && a.has(n) ==> kids_match(
                a.set(current, a.at(current).with_next_seq_no(number)),
                who,
                n,
                uids,
            ),
{
    let b = a.set(current, a.at(current).with_next_seq_no(number));
    assert forall|n: LedgerNode| #[trigger] a.has(n) implies b.kids(n) == a.kids(n) by {}
    assert forall|n: LedgerNode, uids: Seq<Uid>| #[trigger]
        kids_match(a, who, n, uids) && a.has(n) implies kids_match(b, who, n, uids) by {
        assert(b.kids(n) == a.kids(n));
    }
    assert forall|m: LedgerNode| #[trigger] b.has(m) && m.index > 0 && m != current implies built(
        b,
        l,
        who,
        m,
    ) || on_stack(stack, m) by {
        assert(a.has(m));
    }
    assert forall|m: LedgerNode| #[trigger] b.has(m) && m.index > 0 implies b.at(m).seq_no is Some
        && b.at(m).event == who[m.index as int].event by {
        assert(a.has(m));
    }
    assert forall|m: LedgerNode| #[trigger] b.has(m) && m.index > 0 implies b.at(m).parent is Some
        && b.kids(b.at(m).parent.unwrap()).contains(m) by {
        assert(a.has(m));
        assert(a.links_wf(m));
        assert(a.has(a.at(m).parent.unwrap()));
    }
    assert forall|j: int| 0 <= j < stack.len() implies pending(
        b,
        who,
        (#[trigger] stack[j]).0,
        stack[j].1,
    ) by {
        assert(a.has(stack[j].1));
    }
}

/// Taking the last node from the stack makes it the current one.
proof fn lemma_pop(
    a: ArenaView,
    l: LedgerView,
    who: Seq<Uid>,
    stack: Seq<(Uid, LedgerNode)>,
)
    requires
        partial(a, l, who, stack, first()),
        stack.len() > 0,
    ensures
        partial(a, l, who, stack.drop_last(), stack.last().1),
        pending(a, who, stack.last().0, stack.last().1),
{
    let rest = stack.drop_last();
    let n = stack.last().1;
    assert(stack[stack.len() - 1].1 == n);
    assert forall|j: int| 0 <= j < rest.len() implies pending(
        a,
        who,
        (#[trigger] rest[j]).0,
        rest[j].1,
    ) && rest[j].1 != n by {
        assert(rest[j] == stack[j]);
    }
    assert forall|i: int, j: int| 0 <= i < j < rest.len() implies (#[trigger] rest[i]).1 != (
    #[trigger] rest[j]).1 by {
        assert(rest[i] == stack[i] && rest[j] == stack[j]);
    }
    assert forall|m: LedgerNode| #[trigger] a.has(m) && m.index > 0 && m != n implies built(
        a,
        l,
        who,
        m,
    ) || on_stack(rest, m) by {
        if on_stack(stack, m) {
            let j = choose|j: int| 0 <= j < stack.len() && (#[trigger] stack[j]).1 == m;
            assert(rest[j].1 == m);
        }
    }
}

/// Once the current node is complete, only the root is left out.
proof fn lemma_close(
    a: ArenaView,
    l: LedgerView,
    who: Seq<Uid>,
    stack: Seq<(Uid, LedgerNode)>,
    current: LedgerNode,
)
    requires
        partial(a, l, who, stack, current),
        built(a, l, who, current),
    ensures
        partial(a, l, who, stack, first()),
{
    assert forall|j: int| 0 <= j < stack.len() implies (#[trigger] stack[j]).1 != first() by {
        assert(pending(a, who, stack[j].0, stack[j].1));
    }
}

/// A complete node, all of whose successors are complete, stands for what the ledger has.
proof fn lemma_mirrors(a: ArenaView, l: LedgerView, who: Seq<Uid>, n: LedgerNode)
    requires
        l.wf(),
        partial(a, l, who, Seq::empty(), first()),
        a.has(n),
        n.index > 0,
    ensures
        a.mirrors(l, n, who[n.index as int]),
    decreases a.nodes.len() - n.index,
{
    let uid = who[n.index as int];
    assert(!on_stack(Seq::empty(), n));
    assert(built(a, l, who, n));
    lemma_kids(a, n);
    lemma_follow_ups(l, uid);
    assert forall|k: int| 0 <= k < a.kids(n).len() implies {
        let kid = #[trigger] a.kids(n)[k];
        &&& n.index < kid.index
        &&& a.at(kid).seq_no == Some(l.follow_ups(uid)[k].seq_id)
        &&& a.mirrors(l, kid, l.follow_ups(uid)[k])
    } by {
        let kid = a.kids(n)[k];
        assert(a.has(kid));
        assert(a.numbers_wf(kid));
        lemma_mirrors(a, l, who, kid);
    }
}

/// Every node of a complete tree can be reached.
proof fn lemma_all_linked(a: ArenaView, l: LedgerView, who: Seq<Uid>, n: LedgerNode)
    requires
        partial(a, l, who, Seq::empty(), first()),
        a.has(n),
    ensures
        a.linked(n, first()),
    decreases n.index,
{
    if n.index > 0 {
        assert(a.links_wf(n));
        let p = a.at(n).parent.unwrap();
        assert(a.has(p));
        lemma_all_linked(a, l, who, p);
    }
}

/// What a node of the tree of a ledger stands for.
spec fn stands_for(l: LedgerView, u: TreeView, n: LedgerNode) -> Uid
    decreases n.index,
{
    match u.arena.at(n).parent {
        Some(p) if p.index < n.index => {
            let k = u.arena.kids(p).index_of(n);
            if p == u.root {
                l.roots()[k]
            } else {
                l.follow_ups(stands_for(l, u, p))[k]
            }
        },
        _ => arbitrary(),
    }
}

proof fn lemma_stands_for(l: LedgerView, u: TreeView, n: LedgerNode)
    requires
        l.wf(),
        u.wf(),
        u.mirrors(l),
        u.is_event(n),
    ensures
        u.arena.mirrors(l, n, stands_for(l, u, n)),
    decreases n.index,
{
    let b = u.arena;
    lemma_walk_parent(b, n, u.root);
    let p = b.at(n).parent.unwrap();
    let k = b.kids(p).index_of(n);
    assert(0 <= k < b.kids(p).len() && b.kids(p)[k] == n);
    if p == u.root {
        assert(b.mirrors(l, b.kids(u.root)[k], l.roots()[k]));
    } else {
        assert(u.is_event(p));
        lemma_stands_for(l, u, p);
    }
}

/// Where the numbers of a ledger tell its events apart, so do the nodes of its tree.
proof fn lemma_stands_for_one(l: LedgerView, u: TreeView, m: LedgerNode, n: LedgerNode)
    requires
        l.wf(),
        l.tells_apart(),
        u.wf(),
        u.mirrors(l),
        u.is_event(m),
        u.is_event(n),
        stands_for(l, u, m) == stands_for(l, u, n),
    ensures
        m == n,
    decreases m.index,
{
    let b = u.arena;
    lemma_walk_parent(b, m, u.root);
    lemma_walk_parent(b, n, u.root);
    lemma_stands_for(l, u, m);
    lemma_stands_for(l, u, n);
    lemma_roots(l, l.start_events);
    let p = b.at(m).parent.unwrap();
    let q = b.at(n).parent.unwrap();
    let i = b.kids(p).index_of(m);
    let j = b.kids(q).index_of(n);
    assert(0 <= i < b.kids(p).len() && b.kids(p)[i] == m);
    assert(0 <= j < b.kids(q).len() && b.kids(q)[j] == n);
    if p != u.root {
        assert(u.is_event(p));
        lemma_stands_for(l, u, p);
        lemma_follow_ups(l, stands_for(l, u, p));
        assert(l.next_of(stands_for(l, u, p)) == Some(stands_for(l, u, m).seq_id));
        assert(l.hands_out(stands_for(l, u, m).seq_id));
    } else {
        lemma_root_number(l, i);
    }
    if q != u.root {
        assert(u.is_event(q));
        lemma_stands_for(l, u, q);
        lemma_follow_ups(l, stands_for(l, u, q));
        assert(l.next_of(stands_for(l, u, q)) == Some(stands_for(l, u, n).seq_id));
        assert(l.hands_out(stands_for(l, u, n).seq_id));
    } else {
        lemma_root_number(l, j);
    }
    if p != u.root && q != u.root {
        lemma_stands_for_one(l, u, p, q);
    }
    lemma_same_child(b, p, m, n);
}

proof fn lemma_root_number(l: LedgerView, k: int)
    requires
        l.tells_apart(),
        0 <= k < l.roots().len(),
    ensures
        !l.hands_out(l.roots()[k].seq_id),
{
    lemma_roots(l, l.start_events);
    assert(l.start_events.contains(l.roots()[k]));
    let i = choose|i: int| 0 <= i < l.start_events.len() && l.start_events[i] == l.roots()[k];
    assert(!l.hands_out(l.start_events[i].seq_id));
}

/// The tree of a ledger whose numbers tell its events apart hands out each number once, and has
/// its counter past all of them.
pub proof fn rebuilt_tree_is_well_numbered(l: LedgerView, u: TreeView)
    requires
        l.wf(),
        l.tells_apart(),
        u.wf(),
        u.mirrors(l),
    ensures
        u.arena.well_numbered(),
{
    let b = u.arena;
    assert forall|n: LedgerNode| #[trigger] b.has(n) && n != u.root implies u.is_event(n)
        && b.at(n).next_seq_no == l.next_of(stands_for(l, u, n)) by {
        assert(b.walk(u.root).contains(n));
        lemma_stands_for(l, u, n);
    }
    assert forall|n: LedgerNode| #[trigger] b.has(n) implies (b.at(n).next_seq_no matches Some(s)
        ==> s < b.next_avail_seq_no) by {
        if let Some(s) = b.at(n).next_seq_no {
            if n != u.root {
                assert(l.next_of(stands_for(l, u, n)) == Some(s));
                assert(l.hands_out(s));
                assert(l.numbers().contains(s));
            }
        }
    }
    assert forall|m: LedgerNode, n: LedgerNode| #[trigger]
        b.has(m) && #[trigger] b.has(n) && m != n && b.at(m).next_seq_no is Some implies b.at(
        m,
    ).next_seq_no != b.at(n).next_seq_no by {
        if b.at(m).next_seq_no == b.at(n).next_seq_no {
            if m != u.root && n != u.root {
                let x = stands_for(l, u, m);
                let y = stands_for(l, u, n);
                assert(l.next_of(x) is Some && l.next_of(y) is Some);
                lemma_stands_for_one(l, u, m, n);
            } else {
                let x = if m == u.root {
                    n
                } else {
                    m
                };
                assert(b.has(x) && x != u.root);
                assert(l.next_of(stands_for(l, u, x)) == Some(0u32));
                assert(l.hands_out(0));
            }
        }
    }
}

impl LedgerTree {
    /// The tree that a ledger records.
    pub fn from(ledger: &Ledger) -> (tree: LedgerTree)
        requires
            ledger.wf(),
            ledger@.records_tree(),
        ensures
            tree@.mirrors(ledger@),
            tree.wf(),
            ledger@.tells_apart() ==> tree@.arena.well_numbered(),
            tree.sources@ == ledger.sources@,
    {
        let ghost l = ledger@;
        let mut arena = NodeArena::new();
        arena.next_avail_seq_no = ledger.first_free_number();
        let root = LedgerNode::root(&mut arena);
        root.with_next_seq_no(&mut arena, 0);
        let starts = ledger.roots();
        let mut stack: Vec<(Uid, LedgerNode)> = Vec::new();
        let ghost mut todo: Seq<(Uid, nat)> = Seq::empty();
        let ghost mut who: Seq<Uid> = seq![Uid { seq_id: 0, event: 0 }];
        let mut k: usize = 0;
        proof {
            assert(root == first());
            assert(partial(arena@, l, who, stack@, root));
            assert(kids_match(arena@, who, root, starts@.take(0)));
        }
        while k < starts.len()
            invariant
                l == ledger@,
                ledger.wf(),
                l.records_tree(),
                starts@ == l.roots(),
                distinct_events(starts@),
                k <= starts@.len(),
                root == first(),
                partial(arena@, l, who, stack@, root),
                kids_match(arena@, who, root, starts@.take(k as int)),
                todo.len() == stack@.len(),
                forall|j: int|
                    0 <= j < todo.len() ==> (#[trigger] todo[j]).0 == stack@[j].0 && l.bounded(
                        todo[j].0,
                        todo[j].1,
                    ),
            decreases starts.len() - k,
        {
            let uid = starts[k];
            let ghost before = arena@;
            proof {
                lemma_roots(l, l.start_events);
                assert(l.start_events.contains(l.roots()[k as int]));
                let i = choose|i: int|
                    0 <= i < l.start_events.len() && l.start_events[i] == uid;
                assert(l.ends(l.start_events[i]));
                assert forall|j: int| 0 <= j < starts@.take(k as int).len() implies (
                #[trigger] starts@.take(k as int)[j]).event != uid.event by {
                    assert(starts@[j].event != starts@[k as int].event);
                }
                lemma_no_child(
                    before,
                    who,
                    root,
                    starts@.take(k as int),
                    uid.event,
                );
            }
            let node = root.new_children(&mut arena, uid.event);
            proof {
                lemma_add_child(
                    before,
                    l,
                    who,
                    stack@,
                    root,
                    starts@.take(k as int),
                    uid,
                );
                let depth = choose|depth: nat| l.bounded(uid, depth);
                who = who.push(uid);
                todo = todo.push((uid, depth));
                assert(starts@.take(k + 1) == starts@.take(k as int).push(uid));
            }
            stack.push((uid, node));
            k += 1;
        }
        assert(starts@.take(k as int) == starts@);
        while stack.len() > 0
            invariant
                l == ledger@,
                ledger.wf(),
                root == first(),
                partial(arena@, l, who, stack@, root),
                kids_match(arena@, who, root, starts@),
                todo.len() == stack@.len(),
                forall|j: int|
                    0 <= j < todo.len() ==> (#[trigger] todo[j]).0 == stack@[j].0 && l.bounded(
                        todo[j].0,
                        todo[j].1,
                    ),
            decreases work(l, todo),
        {
            let ghost waiting = stack@;
            let ghost depth = todo.last().1;
            let ghost rest = todo.drop_last();
            let (uid, node) = stack.pop().unwrap();
            proof {
                lemma_pop(arena@, l, who, waiting);
                assert(stack@ == waiting.drop_last());
                assert((uid, node) == waiting.last());
                assert(todo[todo.len() - 1].0 == uid);
                lemma_follow_ups(l, uid);
                assert(arena@.has(node));
            }
            if let Some(next_seq_no) = ledger.get_next_seq_id(&uid) {
                let ghost before = arena@;
                node.with_next_seq_no(&mut arena, next_seq_no);
                proof {
                    lemma_set_number(before, l, who, stack@, node, next_seq_no);
                }
            }
            let uids = ledger.get_next(&uid);
            let ghost below = if depth > 0 {
                (depth - 1) as nat
            } else {
                0
            };
            proof {
                todo = rest;
                assert(uids@.take(0) == Seq::<Uid>::empty());
                assert(kids_match(arena@, who, node, uids@.take(0)));
                assert forall|j: int| 0 <= j < todo.len() implies (#[trigger] todo[j]).0
                    == stack@[j].0 && l.bounded(todo[j].0, todo[j].1) by {
                    assert(todo[j] == rest[j]);
                    assert(waiting[j] == stack@[j]);
                }
            }
            let mut k: usize = 0;
            while k < uids.len()
                invariant
                    l == ledger@,
                    ledger.wf(),
                    k <= uids@.len(),
                    uids@ == l.follow_ups(uid),
                    l.bounded(uid, depth),
                    depth > 0 ==> below == depth - 1,
                    root == first(),
                    node != root,
                    arena@.at(node).next_seq_no == l.next_of(uid),
                    who[node.index as int] == uid,
                    partial(arena@, l, who, stack@, node),
                    kids_match(arena@, who, root, starts@),
                    kids_match(arena@, who, node, uids@.take(k as int)),
                    todo.len() == stack@.len(),
                    forall|j: int|
                        0 <= j < todo.len() ==> (#[trigger] todo[j]).0 == stack@[j].0 && l.bounded(
                            todo[j].0,
                            todo[j].1,
                        ),
                    work(l, todo) == work(l, rest) + size_of_all(l, uids@.take(k as int), below),
                decreases uids.len() - k,
            {
                let next = uids[k];
                let ghost before = arena@;
                proof {
                    lemma_follow_ups(l, uid);
                    assert(l.bounded(l.follow_ups(uid)[k as int], below));
                    assert forall|j: int| 0 <= j < uids@.take(k as int).len() implies (
                    #[trigger] uids@.take(k as int)[j]).event != next.event by {
                        assert(l.follow_ups(uid)[j].event < l.follow_ups(uid)[k as int].event);
                    }
                    lemma_no_child(before, who, node, uids@.take(k as int), next.event);
                }
                let child = node.new_children(&mut arena, next.event);
                proof {
                    lemma_inserted_fresh(before, node, next.event);
                    lemma_add_child(before, l, who, stack@, node, uids@.take(k as int), next);
                    lemma_kids_match_grow(before, who, node, next, root, starts@);
                    who = who.push(next);
                    let longer = todo.push((next, below));
                    assert(longer.drop_last() == todo);
                    todo = longer;
                    assert(uids@.take(k + 1) == uids@.take(k as int).push(next));
                    assert(uids@.take(k + 1).drop_last() == uids@.take(k as int));
                }
                stack.push((next, child));
                k += 1;
            }
            proof {
                assert(uids@.take(k as int) == uids@);
                lemma_close(arena@, l, who, stack@, node);
            }
        }
        proof {
            assert(stack@ == Seq::<(Uid, LedgerNode)>::empty());
            lemma_kids(arena@, root);
            assert forall|k: int| 0 <= k < starts@.len() implies {
                &&& arena@.at(#[trigger] arena@.kids(root)[k]).seq_no == Some(0u32)
                &&& arena@.mirrors(l, arena@.kids(root)[k], starts@[k])
            } by {
                let kid = arena@.kids(root)[k];
                assert(arena@.has(kid));
                assert(arena@.numbers_wf(kid));
                lemma_mirrors(arena@, l, who, kid);
            }
        }
        let tree = LedgerTree { sources: ledger.sources.clone(), arena, root };
        proof {
            assert forall|n: LedgerNode| #[trigger] arena@.has(n) implies arena@.walk(
                root,
            ).contains(n) by {
                lemma_all_linked(arena@, l, who, n);
                lemma_linked(arena@, n, root);
            }
            if l.tells_apart() {
                rebuilt_tree_is_well_numbered(l, tree@);
            }
        }
        tree
    }

    /// The tree that a ledger records, where the ledger is not needed any more.
    pub fn from_ledger(ledger: Ledger) -> (tree: LedgerTree)
        requires
            ledger.wf(),
            ledger@.records_tree(),
        ensures
            tree@.mirrors(ledger@),
            tree.wf(),
            ledger@.tells_apart() ==> tree@.arena.well_numbered(),
            tree.sources@ == ledger.sources@,
    {
        LedgerTree::from(&ledger)
    }
}

/// The tree of a ledger has the sources of the ledger, and one child of the root for each root of
/// the ledger, in order, with its code and number 0. It goes on counting past all numbers of the
/// ledger, and has no nodes that cannot be reached.
pub proof fn tree_has_starts_of_ledger(l: LedgerView, u: TreeView, k: int)
    requires
        u.wf(),
        u.mirrors(l),
    ensures
        u.sources == l.sources,
        u.sources.groups == l.sources.groups,
        u.sources.names == l.sources.names,
        u.arena.nodes[u.root.index as int].next_seq_no == Some(0u32),
        u.arena.nodes[u.root.index as int].children.len() == l.roots().len(),
        l.is_counter(u.arena.next_avail_seq_no),
        0 <= k < u.arena.nodes.len() ==> u.arena.walk(u.root).contains(
            LedgerNode { index: k as usize },
        ),
        0 <= k < l.roots().len() ==> ({
            let n = u.arena.nodes[u.root.index as int].children[k].1;
            &&& u.arena.nodes[n.index as int].event == l.roots()[k].event
            &&& u.arena.nodes[n.index as int].seq_no == Some(0u32)
            &&& u.arena.mirrors(l, n, l.roots()[k])
        }),
{
    if 0 <= k < u.arena.nodes.len() {
        assert(u.arena.has(LedgerNode { index: k as usize }));
    }
    if 0 <= k < l.roots().len() {
        assert(u.arena.mirrors(l, u.arena.kids(u.root)[k], l.roots()[k]));
    }
}

/// A node of the tree of a ledger hands out the number that the ledger has for its event, and has
/// a child for each event that follows it in the ledger, in ascending order, with its number and
/// its code.
pub proof fn tree_has_events_of_ledger(l: LedgerView, b: ArenaView, n: LedgerNode, uid: Uid, k: int)
    requires
        b.mirrors(l, n, uid),
    ensures
        n.index < b.nodes.len(),
        b.nodes[n.index as int].event == uid.event,
        b.nodes[n.index as int].next_seq_no is Some <==> l.next.contains_key(uid.seq_id)
            && l.next[uid.seq_id].contains_key(uid.event),
        b.nodes[n.index as int].next_seq_no matches Some(s) ==> s
            == l.next[uid.seq_id][uid.event],
        b.nodes[n.index as int].children.len() == l.follow_ups(uid).len(),
        0 <= k < l.follow_ups(uid).len() ==> ({
            let v = l.follow_ups(uid)[k];
            let c = b.nodes[n.index as int].children[k].1;
            &&& c.index < b.nodes.len()
            &&& b.nodes[c.index as int].event == v.event
            &&& b.nodes[c.index as int].seq_no == Some(v.seq_id)
            &&& b.mirrors(l, c, v)
        }),
{
    if 0 <= k < l.follow_ups(uid).len() {
        let c = b.kids(n)[k];
        assert(b.mirrors(l, c, l.follow_ups(uid)[k]));
    }
}

/// The roots of a ledger are start events with different codes, one for each code of a start
/// event. Where one of those with a code is entered, it is one of the entered ones. Start events
/// with different codes are all roots.
pub proof fn roots_are_start_events(l: LedgerView, starts: Seq<Uid>, k: int)
    ensures
        forall|i: int, j: int|
            0 <= i < j < l.roots_of(starts).len() ==> (#[trigger] l.roots_of(starts)[i]).event != (
            #[trigger] l.roots_of(starts)[j]).event,
        forall|i: int|
            0 <= i < l.roots_of(starts).len() ==> starts.contains(#[trigger] l.roots_of(starts)[i]),
        0 <= k < starts.len() ==> exists|i: int|
            0 <= i < l.roots_of(starts).len() && (#[trigger] l.roots_of(starts)[i]).event
                == starts[k].event && (l.next_of(starts[k]) is Some ==> l.next_of(
                l.roots_of(starts)[i],
            ) is Some),
        (forall|i: int, j: int|
            0 <= i < j < starts.len() ==> (#[trigger] starts[i]).event != (
            #[trigger] starts[j]).event) ==> l.roots_of(starts) == starts,
        l.roots() == l.roots_of(l.start_events),
    decreases starts.len(),
{
    lemma_roots(l, starts);
    if 0 <= k < starts.len() {
        let rest = starts.drop_last();
        let last = starts.last();
        let before = l.roots_of(rest);
        let after = l.roots_of(starts);
        if k < rest.len() {
            roots_are_start_events(l, rest, k);
            assert(rest[k] == starts[k]);
            let i = choose|i: int|
                0 <= i < before.len() && (#[trigger] before[i]).event == rest[k].event && (
                l.next_of(rest[k]) is Some ==> l.next_of(before[i]) is Some);
            assert(after[i].event == starts[k].event);
        } else if !has_event(before, last.event) {
            assert(after[before.len() as int] == last);
        } else {
            let i = event_index(before, last.event);
            assert(before[i].event == last.event);
            assert(after[i].event == last.event);
        }
    }
}

/// The chains of a ledger come to an end where steps can be counted down: no event has fewer steps
/// left than it takes to go through all that follows it.
pub proof fn counted_chains_end(l: LedgerView, steps: spec_fn(Uid) -> nat, uid: Uid)
    requires
        forall|u: Uid, k: int|
            0 <= k < l.follow_ups(u).len() ==> steps(#[trigger] l.follow_ups(u)[k]) < steps(u),
    ensures
        l.ends(uid),
{
    lemma_counted(l, steps, uid, steps(uid));
}

proof fn lemma_counted(l: LedgerView, steps: spec_fn(Uid) -> nat, uid: Uid, depth: nat)
    requires
        forall|u: Uid, k: int|
            0 <= k < l.follow_ups(u).len() ==> steps(#[trigger] l.follow_ups(u)[k]) < steps(u),
        steps(uid) <= depth,
    ensures
        l.bounded(uid, depth),
    decreases depth,
{
    assert forall|k: int| 0 <= k < l.follow_ups(uid).len() implies l.bounded(
        #[trigger] l.follow_ups(uid)[k],
        (depth - 1) as nat,
    ) by {
        lemma_counted(l, steps, l.follow_ups(uid)[k], (depth - 1) as nat);
    }
    if l.follow_ups(uid).len() > 0 {
        assert(steps(l.follow_ups(uid)[0]) < steps(uid));
    }
}

/// A chain that leads back to where it came from does not come to an end.
pub proof fn circles_do_not_end(l: LedgerView, circle: Seq<Uid>, i: int)
    requires
        circle.len() > 0,
        forall|k: int|
            0 <= k < circle.len() ==> l.follow_ups(#[trigger] circle[k]).contains(
                circle[(k + 1) % circle.len() as int],
            ),
        0 <= i < circle.len(),
    ensures
        !l.ends(circle[i]),
{
    if l.ends(circle[i]) {
        let depth = choose|depth: nat| l.bounded(circle[i], depth);
        lemma_circle(l, circle, i, depth);
    }
}

proof fn lemma_circle(l: LedgerView, circle: Seq<Uid>, i: int, depth: nat)
    requires
        circle.len() > 0,
        forall|k: int|
            0 <= k < circle.len() ==> l.follow_ups(#[trigger] circle[k]).contains(
                circle[(k + 1) % circle.len() as int],
            ),
        0 <= i < circle.len(),
    ensures
        !l.bounded(circle[i], depth),
    decreases depth,
{
    let next = (i + 1) % circle.len() as int;
    let ups = l.follow_ups(circle[i]);
    assert(ups.contains(circle[next]));
    let k = choose|k: int| 0 <= k < ups.len() && ups[k] == circle[next];
    assert(ups[k] == circle[next]);
    if depth > 0 {
        lemma_circle(l, circle, next, (depth - 1) as nat);
    }
}

/// A ledger records a tree just where the chains from its start events come to an end and no two
/// of its start events with the same code are both entered.
pub proof fn what_records_a_tree(l: LedgerView)
    ensures
        l.records_tree() <==> {
            &&& forall|k: int|
                0 <= k < l.start_events.len() ==> l.ends(#[trigger] l.start_events[k])
            &&& forall|j: int, k: int|
                0 <= j < k < l.start_events.len() && (#[trigger] l.start_events[j]).event == (
                #[trigger] l.start_events[k]).event ==> !(l.next_of(l.start_events[j]) is Some
                    && l.next_of(l.start_events[k]) is Some)
        },
{
}

/// The numbers of a ledger tell its events apart just where no two events hand out the same number,
/// none hands out 0 or the number of a start event, and the largest number is not in use.
pub proof fn what_tells_events_apart(l: LedgerView)
    ensures
        l.tells_apart() <==> {
            &&& forall|u: Uid, v: Uid| #[trigger]
                l.next_of(u) is Some && #[trigger] l.next_of(v) is Some && u != v ==> l.next_of(u)
                    != l.next_of(v)
            &&& forall|u: Uid| #[trigger] l.next_of(u) != Some(0u32) && l.next_of(u) != Some(
                u32::MAX,
            )
            &&& forall|u: Uid, k: int|
                0 <= k < l.start_events.len() ==> #[trigger] l.next_of(u) != Some(
                    (#[trigger] l.start_events[k]).seq_id,
                )
            &&& !l.next.contains_key(u32::MAX)
        },
{
    if l.tells_apart() {
        assert forall|u: Uid| #[trigger] l.next_of(u) != Some(0u32) && l.next_of(u) != Some(
            u32::MAX,
        ) by {
            if l.next_of(u) == Some(u32::MAX) {
                assert(l.hands_out(u32::MAX));
            }
        }
        assert forall|u: Uid, k: int| 0 <= k < l.start_events.len() implies #[trigger] l.next_of(u)
            != Some((#[trigger] l.start_events[k]).seq_id) by {
            assert(!l.hands_out(l.start_events[k].seq_id));
        }
    }
}

} // verus!
