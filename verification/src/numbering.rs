//! Sequence numbers tell events apart.
use vstd::prelude::*;
use crate::maps::{key_index, without_key};
use crate::model::{
    ArenaView, keeps_numbers, lemma_numbered, lemma_settled, same_nodes, same_shape,
};
use crate::node::LedgerNode;
use crate::reach::{
    lemma_contains_concat, lemma_kids_distinct, lemma_linked, lemma_walk_closed,
    lemma_walk_distinct, lemma_walk_parent,
};
use crate::resolve::{lemma_shape_trans, lemma_shared, lemma_with_seq_nos};
use crate::tree::{TreeView, lemma_queue_step};
use crate::uid::Uid;
use crate::walk::{lemma_kids, lemma_walk, lemma_walk_all_concat, lemma_walk_has, lemma_walk_single};

verus! {

impl ArenaView {
    /// No two nodes hand out the same number, and the counter is past all that are handed out.
    pub open spec fn well_numbered(self) -> bool {
        &&& forall|n: LedgerNode| #[trigger]
            self.has(n) ==> (self.at(n).next_seq_no matches Some(s) ==> s < self.next_avail_seq_no)
        &&& forall|m: LedgerNode, n: LedgerNode| #[trigger]
            self.has(m) && #[trigger] self.has(n) && m != n && self.at(m).next_seq_no is Some
                ==> self.at(m).next_seq_no != self.at(n).next_seq_no
    }

    /// How many of the nodes have no number for their children yet.
    pub open spec fn unnumbered(self, nodes: Seq<LedgerNode>) -> nat
        decreases nodes.len(),
    {
        if nodes.len() == 0 {
            0
        } else {
            self.unnumbered(nodes.drop_last()) + if self.at(nodes.last()).next_seq_no is None {
                1nat
            } else {
                0
            }
        }
    }

    /// How many nodes without a number for their children there are on the way up from `n`, as
    /// far as it is unresolved.
    pub open spec fn unnumbered_above(self, n: LedgerNode) -> nat
        decreases n.index,
    {
        (if self.at(n).next_seq_no is None {
            1nat
        } else {
            0
        }) + match self.at(n).parent {
            Some(p) if self.at(n).seq_no is None && p.index < n.index => self.unnumbered_above(p),
            _ => 0,
        }
    }
}

/// In a new tree no numbers are handed out.
pub proof fn initial_tree_is_well_numbered()
    ensures
        TreeView::initial().arena.well_numbered(),
{
}

/// Recording an event hands out no number.
pub proof fn insert_keeps_well_numbered(a: ArenaView, n: LedgerNode, event: u32)
    requires
        a.wf(),
        a.has(n),
        a.well_numbered(),
    ensures
        a.inserted(n, event).well_numbered(),
{
    let b = a.inserted(n, event);
    if a.child(n, event) is None {
        assert forall|m: LedgerNode| #[trigger] b.has(m) implies if a.has(m) {
            b.at(m).next_seq_no == a.at(m).next_seq_no
        } else {
            b.at(m).next_seq_no is None
        } by {}
    }
}

/// Cutting nodes off changes no number.
pub proof fn prune_keeps_well_numbered(a: ArenaView, n: LedgerNode)
    requires
        a.wf(),
        a.has(n),
        a.at(n).parent is Some,
        a.well_numbered(),
    ensures
        a.pruned(n).well_numbered(),
{
    let cleared = a.set(n, a.at(n).with_children(Seq::empty()));
    assert(a.links_wf(n));
    assert(same_nodes(a, cleared));
    lemma_detached_nodes(cleared, a.at(n).parent.unwrap(), a.at(n).event);
    let b = a.pruned(n);
    assert forall|m: LedgerNode| #[trigger] b.has(m) implies a.has(m) && b.at(m).next_seq_no
        == a.at(m).next_seq_no by {
        assert(cleared.has(m));
    }
}

/// Taking entries out changes nothing but children.
pub proof fn lemma_detached_nodes(a: ArenaView, n: LedgerNode, event: u32)
    requires
        a.has(n),
    ensures
        same_nodes(a, a.detached(n, event)),
    decreases n.index,
{
    let rest = without_key(a.at(n).children, event);
    let next = a.set(n, a.at(n).with_children(rest));
    assert(same_nodes(a, next));
    match a.at(n).parent {
        Some(p) if rest.len() == 0 && p.index < n.index => {
            lemma_detached_nodes(next, p, a.at(n).event);
            let b = a.detached(n, event);
            assert forall|m: LedgerNode| #[trigger] a.has(m) implies b.at(m) == a.at(
                m,
            ).with_children(b.at(m).children) by {
                assert(next.has(m));
            }
        },
        _ => {},
    }
}

/// Numbers stay distinct when one more is handed out.
pub proof fn lemma_numbered_distinct(a: ArenaView, n: LedgerNode)
    requires
        a.has(n),
        a.well_numbered(),
        a.at(n).next_seq_no is None ==> a.next_avail_seq_no < u32::MAX,
    ensures
        a.numbered(n).well_numbered(),
        a.numbered(n).next_avail_seq_no == a.next_avail_seq_no + if a.at(n).next_seq_no is None {
            1int
        } else {
            0
        },
{
    let b = a.numbered(n);
    assert forall|m: LedgerNode| #[trigger] b.has(m) implies a.has(m) && (m != n ==> b.at(
        m,
    ).next_seq_no == a.at(m).next_seq_no) by {}
}

/// Resolving a node keeps numbers distinct, as long as the counter does not run over.
pub proof fn resolve_node_keeps_well_numbered(a: ArenaView, n: LedgerNode)
    requires
        a.wf(),
        a.has(n),
        a.well_numbered(),
        a.next_avail_seq_no + a.unnumbered_above(n) <= u32::MAX,
    ensures
        a.resolved_node(n).well_numbered(),
{
    if a.at(n).seq_no is None {
        lemma_settled_distinct(a, n);
    }
}

proof fn lemma_settled_distinct(a: ArenaView, n: LedgerNode)
    requires
        a.wf(),
        a.has(n),
        a.well_numbered(),
        a.next_avail_seq_no + a.unnumbered_above(n) <= u32::MAX,
    ensures
        a.settled(n).well_numbered(),
        a.settled(n).next_avail_seq_no == a.next_avail_seq_no + a.unnumbered_above(n),
    decreases n.index,
{
    assert(a.links_wf(n) && a.numbers_wf(n));
    match a.at(n).parent {
        Some(p) if a.at(n).seq_no is None => {
            assert(a.has(p));
            lemma_settled_distinct(a, p);
            lemma_settled(a, p);
            let upper = a.settled(p);
            let number = upper.at(p).next_seq_no.unwrap();
            assert(upper.has(n));
            assert(upper.at(n) == a.at(n));
            let middle = upper.set(n, upper.at(n).with_seq_no(number));
            assert forall|m: LedgerNode| #[trigger] middle.has(m) implies upper.has(m)
                && middle.at(m).next_seq_no == upper.at(m).next_seq_no by {}
            assert(middle.well_numbered());
            lemma_numbered_distinct(middle, n);
        },
        _ => {
            lemma_numbered_distinct(a, n);
        },
    }
}

/// `order[k]` is a child, and its parent comes before it.
#[verifier::opaque]
pub open spec fn parent_before(a: ArenaView, order: Seq<LedgerNode>, k: int) -> bool {
    a.at(order[k]).parent matches Some(p) && a.kids(p).contains(order[k]) && order.take(
        k,
    ).contains(p)
}

/// The parent of each node of `order` but `root` comes before the node.
pub open spec fn parents_first(a: ArenaView, root: LedgerNode, order: Seq<LedgerNode>) -> bool {
    forall|k: int|
        0 <= k < order.len() ==> #[trigger] order[k] == root || parent_before(a, order, k)
}

proof fn lemma_shorter_order(a: ArenaView, root: LedgerNode, order: Seq<LedgerNode>)
    requires
        a.has_all(order),
        order.no_duplicates(),
        parents_first(a, root, order),
        order.len() > 0,
    ensures
        a.has(order.last()),
        a.has_all(order.drop_last()),
        order.drop_last().no_duplicates(),
        parents_first(a, root, order.drop_last()),
        !order.drop_last().contains(order.last()),
        forall|m: LedgerNode| #[trigger]
            order.contains(m) <==> order.drop_last().contains(m) || m == order.last(),
{
    let rest = order.drop_last();
    let n = order.last();
    assert(a.has(order[order.len() - 1]));
    assert forall|k: int| 0 <= k < rest.len() implies a.has(#[trigger] rest[k]) by {
        assert(rest[k] == order[k]);
    }
    assert forall|i: int, j: int|
        0 <= i < rest.len() && 0 <= j < rest.len() && i != j implies rest[i] != rest[j] by {
        assert(order[i] != order[j]);
    }
    assert forall|k: int| 0 <= k < rest.len() implies #[trigger] rest[k] == root || parent_before(
        a,
        rest,
        k,
    ) by {
        assert(rest[k] == order[k]);
        if rest[k] != root {
            assert(parent_before(a, order, k));
            reveal(parent_before);
            assert(rest.take(k) == order.take(k));
        }
    }
    if rest.contains(n) {
        let i = choose|i: int| 0 <= i < rest.len() && rest[i] == n;
        assert(order[i] != order[order.len() - 1]);
    }
    assert forall|m: LedgerNode| #[trigger] order.contains(m) <==> rest.contains(m) || m == n by {
        assert(order == rest + seq![n]);
        lemma_contains_concat(rest, seq![n], m);
        assert(seq![n][0] == n);
    }
}

/// What handing numbers to children does, node by node, where each node comes after its parent.
pub proof fn lemma_all_shared(a: ArenaView, root: LedgerNode, order: Seq<LedgerNode>)
    requires
        a.wf(),
        a.may_number(root),
        a.has_all(order),
        order.no_duplicates(),
        parents_first(a, root, order),
    ensures
        a.all_shared(order).wf(),
        same_shape(a, a.all_shared(order)),
        keeps_numbers(a, a.all_shared(order)),
        forall|n: LedgerNode| #[trigger]
            a.has(n) && !order.contains(n) ==> a.all_shared(order).at(n).next_seq_no == a.at(
                n,
            ).next_seq_no,
        forall|p: LedgerNode, c: LedgerNode|
            order.contains(p) && #[trigger] a.kids(p).contains(c) ==> a.all_shared(order).at(
                c,
            ).seq_no is Some,
        forall|n: LedgerNode| #[trigger]
            order.contains(n) ==> a.all_shared(order).is_settled(n),
    decreases order.len(),
{
    if order.len() > 0 {
        let rest = order.drop_last();
        let n = order.last();
        lemma_shorter_order(a, root, order);
        lemma_all_shared(a, root, rest);
        let b = a.all_shared(rest);
        lemma_may_number(a, root, order);
        assert(b.has(n));
        lemma_shared(b, n);
        let c = a.all_shared(order);
        lemma_shape_trans(a, b, c);
        assert forall|m: LedgerNode| #[trigger] a.has(m) && !order.contains(m) implies c.at(
            m,
        ).next_seq_no == a.at(m).next_seq_no by {
            assert(b.has(m));
        }
        assert forall|p: LedgerNode, x: LedgerNode|
            order.contains(p) && #[trigger] a.kids(p).contains(x) implies c.at(
            x,
        ).seq_no is Some by {
            let k = choose|k: int| 0 <= k < order.len() && order[k] == p;
            assert(a.has(order[k]));
            let i = choose|i: int| 0 <= i < a.kids(p).len() && a.kids(p)[i] == x;
            lemma_kids(a, p);
            assert(a.has(a.kids(p)[i]));
            assert(b.has(x));
            if p == n {
                assert(b.kids(n) == a.kids(n));
                assert(c.at(b.kids(n)[i]).seq_no is Some);
            }
        }
        assert forall|m: LedgerNode| #[trigger] order.contains(m) implies c.is_settled(m) by {
            let k = choose|k: int| 0 <= k < order.len() && order[k] == m;
            assert(a.has(order[k]));
            if m != n {
                assert(rest.contains(m));
                assert(b.has(m));
            }
        }
    }
}

/// When its turn comes, a node has its number.
proof fn lemma_may_number(a: ArenaView, root: LedgerNode, order: Seq<LedgerNode>)
    requires
        a.wf(),
        a.may_number(root),
        a.has_all(order),
        order.no_duplicates(),
        parents_first(a, root, order),
        order.len() > 0,
        same_shape(a, a.all_shared(order.drop_last())),
        keeps_numbers(a, a.all_shared(order.drop_last())),
        forall|p: LedgerNode, c: LedgerNode|
            order.drop_last().contains(p) && #[trigger] a.kids(p).contains(c) ==> a.all_shared(
                order.drop_last(),
            ).at(c).seq_no is Some,
    ensures
        a.all_shared(order.drop_last()).may_number(order.last()),
{
    let rest = order.drop_last();
    let n = order.last();
    let b = a.all_shared(rest);
    assert(order[order.len() - 1] == n);
    assert(a.has(order[order.len() - 1]));
    if n != root {
        assert(parent_before(a, order, order.len() - 1));
        reveal(parent_before);
        let p = a.at(n).parent.unwrap();
        assert(order.take(order.len() - 1) == rest);
        assert(rest.contains(p));
        assert(a.kids(p).contains(n));
    }
}

/// Handing numbers to children, node by node, keeps numbers distinct.
proof fn lemma_all_shared_distinct(a: ArenaView, root: LedgerNode, order: Seq<LedgerNode>)
    requires
        a.wf(),
        a.may_number(root),
        a.has_all(order),
        order.no_duplicates(),
        parents_first(a, root, order),
        a.well_numbered(),
        a.next_avail_seq_no + a.unnumbered(order) <= u32::MAX,
    ensures
        a.all_shared(order).well_numbered(),
        a.all_shared(order).next_avail_seq_no == a.next_avail_seq_no + a.unnumbered(order),
    decreases order.len(),
{
    if order.len() > 0 {
        let rest = order.drop_last();
        let n = order.last();
        lemma_shorter_order(a, root, order);
        lemma_all_shared_distinct(a, root, rest);
        lemma_all_shared(a, root, rest);
        lemma_may_number(a, root, order);
        let b = a.all_shared(rest);
        assert(b.has(n));
        lemma_shared(b, n);
        assert(b.at(n).next_seq_no == a.at(n).next_seq_no);
        lemma_numbered_distinct(b, n);
        let next = b.numbered(n);
        let c = a.all_shared(order);
        assert forall|m: LedgerNode| #[trigger] c.has(m) implies next.has(m) && c.at(m).next_seq_no
            == next.at(m).next_seq_no by {
            assert(b.has(m));
        }
    }
}

/// Numbers are handed out one by one, in order, to the nodes that have none.
proof fn lemma_all_shared_order(a: ArenaView, root: LedgerNode, order: Seq<LedgerNode>, k: int)
    requires
        a.wf(),
        a.may_number(root),
        a.has_all(order),
        order.no_duplicates(),
        parents_first(a, root, order),
        a.well_numbered(),
        a.next_avail_seq_no + a.unnumbered(order) <= u32::MAX,
        0 <= k < order.len(),
        a.at(order[k]).next_seq_no is None,
    ensures
        a.all_shared(order).at(order[k]).next_seq_no == Some(
            (a.next_avail_seq_no + a.unnumbered(order.take(k))) as u32,
        ),
    decreases order.len(),
{
    let rest = order.drop_last();
    let n = order.last();
    lemma_shorter_order(a, root, order);
    lemma_all_shared(a, root, rest);
    lemma_all_shared_distinct(a, root, rest);
    lemma_may_number(a, root, order);
    let b = a.all_shared(rest);
    assert(b.has(n));
    lemma_shared(b, n);
    assert(a.has(order[k]));
    assert(b.has(order[k]));
    if k < rest.len() {
        assert(rest[k] == order[k]);
        assert(rest.contains(rest[k]));
        assert(rest.take(k) == order.take(k));
        lemma_all_shared_order(a, root, rest, k);
    } else {
        assert(order.take(k) == rest);
    }
}

/// Resolving a tree hands out numbers one by one, in the order of the walk, to the nodes that
/// have none for their children yet.
pub proof fn resolve_numbers_in_order(a: ArenaView, root: LedgerNode, k: int)
    requires
        a.wf(),
        a.has(root),
        a.may_number(root),
        a.well_numbered(),
        a.next_avail_seq_no + a.unnumbered(a.walk(root)) <= u32::MAX,
        0 <= k < a.walk(root).len(),
        a.at(a.walk(root)[k]).next_seq_no is None,
    ensures
        a.resolved_tree(root).at(a.walk(root)[k]).next_seq_no == Some(
            (a.next_avail_seq_no + a.unnumbered(a.walk(root).take(k))) as u32,
        ),
{
    lemma_walk_order(a, root);
    lemma_walk_distinct(a, root);
    lemma_walk_has(a, root);
    lemma_all_shared_order(a, root, a.walk(root), k);
}

/// Where a tree with one start event is resolved for the first time, the start event has number
/// 0, and what follows it has number 1.
pub proof fn resolve_numbers_start(t: TreeView)
    requires
        t.wf(),
        t.arena.well_numbered(),
        t.arena.next_avail_seq_no == 0,
        t.arena.kids(t.root).len() == 1,
        t.arena.unnumbered(t.arena.walk(t.root)) <= u32::MAX,
    ensures
        ({
            let start = t.arena.kids(t.root)[0];
            let b = t.arena.resolved_tree(t.root);
            &&& b.at(t.root).next_seq_no == Some(0u32)
            &&& b.at(start).seq_no == Some(0u32)
            &&& b.at(start).next_seq_no == Some(1u32)
        }),
{
    let a = t.arena;
    let start = a.kids(t.root)[0];
    let order = a.walk(t.root);
    lemma_walk(a, t.root);
    lemma_kids(a, t.root);
    assert(a.has(a.kids(t.root)[0]));
    assert(a.kids(t.root) =~= seq![start]);
    lemma_walk_single(a, start);
    lemma_walk(a, start);
    assert(order[0] == t.root);
    assert(order[1] == start);
    assert(a.at(t.root).next_seq_no is None) by {
        assert(a.has(t.root));
    }
    assert(a.at(start).next_seq_no is None);
    resolve_numbers_in_order(a, t.root, 0);
    resolve_numbers_in_order(a, t.root, 1);
    assert(order.take(0) == Seq::<LedgerNode>::empty());
    assert(order.take(1).drop_last() == Seq::<LedgerNode>::empty());
    assert(order.take(1).last() == t.root);
    assert(a.unnumbered(order.take(1).drop_last()) == 0);
    lemma_walk_order(a, t.root);
    lemma_walk_distinct(a, t.root);
    lemma_walk_has(a, t.root);
    lemma_all_shared(a, t.root, order);
    let b = a.resolved_tree(t.root);
    assert(order.contains(t.root) && a.kids(t.root).contains(start));
    assert(b.has(start)) by {
        assert(a.has(start));
    }
    assert(b.numbers_wf(start));
}

/// In a walk, the parent of a node comes before the node.
pub proof fn lemma_walk_order(a: ArenaView, root: LedgerNode)
    requires
        a.wf(),
        a.has(root),
    ensures
        parents_first(a, root, a.walk(root)),
    decreases a.nodes.len() - root.index, 1nat, 0nat,
{
    let w = a.walk(root);
    lemma_walk(a, root);
    lemma_kids(a, root);
    let t = a.walk_all(a.kids(root));
    lemma_walk_all_order(a, root, a.kids(root).len());
    assert(a.kids(root).take(a.kids(root).len() as int) == a.kids(root));
    assert forall|k: int| 0 <= k < w.len() implies #[trigger] w[k] == root || parent_before(
        a,
        w,
        k,
    ) by {
        if k > 0 {
            reveal(parent_before);
            assert(w[k] == t[k - 1]);
            assert(below_before(a, root, t, k - 1));
            reveal(below_before);
            let p = a.at(t[k - 1]).parent.unwrap();
            assert(w.take(k) == seq![root] + t.take(k - 1));
            lemma_contains_concat(seq![root], t.take(k - 1), p);
            assert(seq![root][0] == root);
        }
    }
}

/// `order[k]` is a child of `n`, or a child whose parent comes before it.
#[verifier::opaque]
spec fn below_before(a: ArenaView, n: LedgerNode, order: Seq<LedgerNode>, k: int) -> bool {
    a.at(order[k]).parent matches Some(p) && a.kids(p).contains(order[k]) && (p == n || order.take(
        k,
    ).contains(p))
}

proof fn lemma_walk_all_order(a: ArenaView, n: LedgerNode, count: nat)
    requires
        a.wf(),
        a.has(n),
        count <= a.kids(n).len(),
    ensures
        ({
            let t = a.walk_all(a.kids(n).take(count as int));
            forall|k: int| 0 <= k < t.len() ==> #[trigger] below_before(a, n, t, k)
        }),
    decreases a.nodes.len() - n.index, 0nat, count,
{
    let starts = a.kids(n).take(count as int);
    let t = a.walk_all(starts);
    if count > 0 {
        lemma_kids(a, n);
        let kid = a.kids(n)[count - 1];
        assert(a.has(a.kids(n)[count - 1]));
        let rest = a.kids(n).take(count - 1);
        assert(starts.drop_last() == rest);
        assert(starts.last() == kid);
        lemma_walk_order(a, kid);
        lemma_walk_all_order(a, n, (count - 1) as nat);
        let s = a.walk(kid);
        let u = a.walk_all(rest);
        assert forall|k: int| 0 <= k < t.len() implies #[trigger] below_before(a, n, t, k) by {
            reveal(parent_before);
            reveal(below_before);
            if k < s.len() {
                assert(t[k] == s[k]);
                assert(t.take(k) == s.take(k));
                if s[k] == kid {
                    assert(a.kids(n)[count - 1] == kid);
                } else {
                    assert(parent_before(a, s, k));
                }
            } else {
                assert(below_before(a, n, u, k - s.len()));
                assert(t[k] == u[k - s.len()]);
                assert(t.take(k) == s + u.take(k - s.len()));
                let p = a.at(t[k]).parent.unwrap();
                lemma_contains_concat(s, u.take(k - s.len()), p);
            }
        }
    }
}

/// Resolving a tree keeps numbers distinct, as long as the counter does not run over.
pub proof fn resolve_tree_keeps_well_numbered(a: ArenaView, root: LedgerNode)
    requires
        a.wf(),
        a.has(root),
        a.may_number(root),
        a.well_numbered(),
        a.next_avail_seq_no + a.unnumbered(a.walk(root)) <= u32::MAX,
    ensures
        a.resolved_tree(root).well_numbered(),
{
    lemma_walk_order(a, root);
    lemma_walk_distinct(a, root);
    lemma_walk_has(a, root);
    lemma_all_shared_distinct(a, root, a.walk(root));
}

/// Identifiers are unique: two events of a tree with the same identifier are the same.
pub proof fn uids_are_unique(t: TreeView, m: LedgerNode, n: LedgerNode)
    requires
        t.wf(),
        t.arena.well_numbered(),
        t.is_event(m),
        t.is_event(n),
        t.arena.at(m).uid() is Some,
        t.arena.at(m).uid() == t.arena.at(n).uid(),
    ensures
        m == n,
{
    let a = t.arena;
    lemma_walk_parent(a, m, t.root);
    lemma_walk_parent(a, n, t.root);
    assert(a.numbers_wf(m) && a.numbers_wf(n));
    let p = a.at(m).parent.unwrap();
    let q = a.at(n).parent.unwrap();
    assert(p == q);
    lemma_same_child(a, p, m, n);
}

/// Two children of a node with the same event are the same.
pub proof fn lemma_same_child(a: ArenaView, p: LedgerNode, m: LedgerNode, n: LedgerNode)
    requires
        a.wf(),
        a.has(p),
        a.kids(p).contains(m),
        a.kids(p).contains(n),
        a.at(m).event == a.at(n).event,
    ensures
        m == n,
{
    lemma_kids_distinct(a, p);
    let i = choose|i: int| 0 <= i < a.kids(p).len() && a.kids(p)[i] == m;
    let j = choose|j: int| 0 <= j < a.kids(p).len() && a.kids(p)[j] == n;
    assert(a.child(p, a.at(a.kids(p)[i]).event) == Some(m));
    assert(a.child(p, a.at(a.kids(p)[j]).event) == Some(n));
}

/// A queue passes on what a walk comes to.
pub proof fn lemma_level_order(a: ArenaView, queue: Seq<LedgerNode>, m: LedgerNode)
    requires
        a.wf(),
        a.has_all(queue),
    ensures
        a.level_order(queue).contains(m) <==> a.walk_all(queue).contains(m),
    decreases a.walk_all(queue).len(),
{
    if queue.len() > 0 {
        let head = queue[0];
        let rest = queue.drop_first();
        let later = rest + a.kids(head);
        lemma_queue_step(a, queue);
        lemma_level_order(a, later, m);
        assert(a.has(queue[0]));
        assert(queue == seq![head] + rest);
        lemma_walk_all_concat(a, seq![head], rest);
        lemma_walk_all_concat(a, rest, a.kids(head));
        lemma_walk_single(a, head);
        lemma_walk(a, head);
        lemma_contains_concat(a.walk_all(rest), a.walk(head), m);
        lemma_contains_concat(seq![head], a.walk_all(a.kids(head)), m);
        lemma_contains_concat(a.walk_all(a.kids(head)), a.walk_all(rest), m);
        lemma_contains_concat(seq![head], a.level_order(later), m);
    }
}

proof fn lemma_first_with_next(a: ArenaView, order: Seq<LedgerNode>, p: LedgerNode, seq_id: u32)
    requires
        a.well_numbered(),
        a.has_all(order),
        a.has(p),
        order.contains(p),
        a.at(p).next_seq_no == Some(seq_id),
    ensures
        a.first_with_next(order, seq_id) == Some(p),
    decreases order.len(),
{
    assert(a.has(order[0]));
    if order[0] != p {
        let rest = order.drop_first();
        let i = choose|i: int| 0 <= i < order.len() && order[i] == p;
        assert(rest[i - 1] == p);
        assert(a.has_all(rest)) by {
            assert forall|k: int| 0 <= k < rest.len() implies a.has(#[trigger] rest[k]) by {
                assert(rest[k] == order[k + 1]);
            }
        }
        lemma_first_with_next(a, rest, p, seq_id);
    }
}

/// The identifier of an event leads back to the event, and to its chain.
pub proof fn uid_leads_to_node(t: TreeView, n: LedgerNode)
    requires
        t.wf(),
        t.arena.well_numbered(),
        t.is_event(n),
        t.arena.at(n).uid() is Some,
    ensures
        t.node_of(t.arena.at(n).uid().unwrap()) == Some(n),
        t.has_chain(t.arena.at(n).uid().unwrap()),
        t.chain(t.arena.at(n).uid().unwrap()) == t.arena.chain(n),
{
    let a = t.arena;
    let uid = a.at(n).uid().unwrap();
    lemma_walk_parent(a, n, t.root);
    let p = a.at(n).parent.unwrap();
    assert(a.numbers_wf(n));
    let order = a.level_order(seq![t.root]);
    lemma_walk_single(a, t.root);
    lemma_level_order(a, seq![t.root], p);
    assert(a.has_all(order)) by {
        assert forall|k: int| 0 <= k < order.len() implies a.has(#[trigger] order[k]) by {
            assert(order.contains(order[k]));
            lemma_level_order(a, seq![t.root], order[k]);
            lemma_linked(a, order[k], t.root);
        }
    }
    lemma_first_with_next(a, order, p, uid.seq_id);
    lemma_kids_distinct(a, p);
    let i = choose|i: int| 0 <= i < a.kids(p).len() && a.kids(p)[i] == n;
    assert(a.child(p, a.at(a.kids(p)[i]).event) == Some(n));
}

/// A node that an identifier leads to is an event of the tree with the code of the identifier,
/// and, once it is resolved, with its sequence number.
pub proof fn node_has_uid(t: TreeView, uid: Uid)
    requires
        t.wf(),
    ensures
        t.node_of(uid) matches Some(n) ==> {
            &&& t.is_event(n)
            &&& t.arena.at(n).event == uid.event
            &&& t.arena.at(n).uid() is Some ==> t.arena.at(n).uid() == Some(uid)
        },
{
    let a = t.arena;
    if let Some(n) = t.node_of(uid) {
        let order = a.level_order(seq![t.root]);
        lemma_first_found(a, order, uid.seq_id);
        let p = a.first_with_next(order, uid.seq_id).unwrap();
        lemma_walk_single(a, t.root);
        lemma_level_order(a, seq![t.root], p);
        lemma_linked(a, p, t.root);
        assert(a.links_wf(p));
        let k = key_index(a.at(p).children, uid.event);
        assert(a.entry_wf(p, a.at(p).children[k]));
        assert(a.kids(p)[k] == n);
        lemma_walk_closed(a, t.root, p, n);
        assert(a.numbers_wf(n));
    }
}

proof fn lemma_first_found(a: ArenaView, order: Seq<LedgerNode>, seq_id: u32)
    ensures
        a.first_with_next(order, seq_id) matches Some(p) ==> order.contains(p) && a.at(
            p,
        ).next_seq_no == Some(seq_id),
    decreases order.len(),
{
    if order.len() > 0 {
        let rest = order.drop_first();
        lemma_first_found(a, rest, seq_id);
        if let Some(p) = a.first_with_next(order, seq_id) {
            if a.at(order[0]).next_seq_no == Some(seq_id) {
                assert(order[0] == p);
            } else {
                let i = choose|i: int| 0 <= i < rest.len() && rest[i] == p;
                assert(order[i + 1] == p);
            }
        }
    }
}

/// The nodes without a number for their children are counted one by one.
pub proof fn unnumbered_are_counted(a: ArenaView, nodes: Seq<LedgerNode>)
    ensures
        a.unnumbered(nodes) == nodes.filter(
            |m: LedgerNode| a.nodes[m.index as int].next_seq_no is None,
        ).len(),
    decreases nodes.len(),
{
    reveal(Seq::filter);
    if nodes.len() > 0 {
        unnumbered_are_counted(a, nodes.drop_last());
    }
}

/// Resolving a tree gives the nodes that have no number for their children the next numbers, one
/// by one in the order of the walk: each gets the number of the counter plus that of the nodes
/// before it that had none. The counter goes on past the last.
pub proof fn resolve_hands_out_next_numbers(a: ArenaView, root: LedgerNode, k: int)
    requires
        a.wf(),
        a.has(root),
        a.nodes[root.index as int].parent is None,
        a.well_numbered(),
        a.next_avail_seq_no + a.walk(root).filter(
            |m: LedgerNode| a.nodes[m.index as int].next_seq_no is None,
        ).len() <= u32::MAX,
        0 <= k < a.walk(root).len(),
    ensures
        ({
            let b = a.resolved_tree(root);
            let i = a.walk(root)[k].index as int;
            &&& b.nodes[i].next_seq_no == if a.nodes[i].next_seq_no is Some {
                a.nodes[i].next_seq_no
            } else {
                Some(
                    (a.next_avail_seq_no + a.walk(root).take(k).filter(
                        |m: LedgerNode| a.nodes[m.index as int].next_seq_no is None,
                    ).len()) as u32,
                )
            }
            &&& b.next_avail_seq_no == a.next_avail_seq_no + a.walk(root).filter(
                |m: LedgerNode| a.nodes[m.index as int].next_seq_no is None,
            ).len()
        }),
{
    unnumbered_are_counted(a, a.walk(root));
    unnumbered_are_counted(a, a.walk(root).take(k));
    lemma_walk_order(a, root);
    lemma_walk_distinct(a, root);
    lemma_walk_has(a, root);
    lemma_all_shared_distinct(a, root, a.walk(root));
    lemma_all_shared(a, root, a.walk(root));
    assert(a.has(a.walk(root)[k]));
    if a.at(a.walk(root)[k]).next_seq_no is None {
        resolve_numbers_in_order(a, root, k);
    }
}

/// Resolving a tree gives every event the number that its parent hands out, and changes neither
/// events, parents nor children.
pub proof fn resolve_passes_numbers_on(t: TreeView, n: LedgerNode, p: LedgerNode)
    requires
        t.wf(),
        t.is_event(n),
        t.arena.nodes[n.index as int].parent == Some(p),
    ensures
        ({
            let b = t.arena.resolved_tree(t.root);
            let i = n.index as int;
            &&& b.nodes[i].seq_no is Some
            &&& b.nodes[i].seq_no == b.nodes[p.index as int].next_seq_no
            &&& b.nodes[i].event == t.arena.nodes[i].event
            &&& b.nodes[i].parent == Some(p)
            &&& b.nodes[i].children == t.arena.nodes[i].children
            &&& b.nodes.len() == t.arena.nodes.len()
            &&& t.arena.nodes[i].seq_no is Some ==> b.nodes[i].seq_no == t.arena.nodes[i].seq_no
            &&& t.arena.nodes[i].next_seq_no is Some ==> b.nodes[i].next_seq_no
                == t.arena.nodes[i].next_seq_no
        }),
{
    let a = t.arena;
    let order = a.walk(t.root);
    lemma_walk_order(a, t.root);
    lemma_walk_distinct(a, t.root);
    lemma_walk_has(a, t.root);
    lemma_all_shared(a, t.root, order);
    let b = a.resolved_tree(t.root);
    lemma_walk_parent(a, n, t.root);
    assert(b.has(n));
    assert(b.numbers_wf(n));
    assert(order.contains(p) && a.kids(p).contains(n));
}

/// Resolving a tree leaves nodes that are not in the tree as they are.
pub proof fn resolve_leaves_others(t: TreeView, m: LedgerNode)
    requires
        t.wf(),
        t.arena.has(m),
        !t.arena.walk(t.root).contains(m),
    ensures
        t.arena.resolved_tree(t.root).nodes[m.index as int] == t.arena.nodes[m.index as int],
{
    let a = t.arena;
    let order = a.walk(t.root);
    lemma_walk_order(a, t.root);
    lemma_walk_distinct(a, t.root);
    lemma_walk_has(a, t.root);
    assert forall|p: LedgerNode| #[trigger] order.contains(p) implies !a.kids(p).contains(m) by {
        if a.kids(p).contains(m) {
            lemma_walk_closed(a, t.root, p, m);
        }
    }
    lemma_all_shared_others(a, t.root, order, m);
}

proof fn lemma_all_shared_others(
    a: ArenaView,
    root: LedgerNode,
    order: Seq<LedgerNode>,
    m: LedgerNode,
)
    requires
        a.wf(),
        a.may_number(root),
        a.has_all(order),
        order.no_duplicates(),
        parents_first(a, root, order),
        a.has(m),
        !order.contains(m),
        forall|p: LedgerNode| #[trigger] order.contains(p) ==> !a.kids(p).contains(m),
    ensures
        a.all_shared(order).at(m) == a.at(m),
    decreases order.len(),
{
    if order.len() > 0 {
        let rest = order.drop_last();
        let n = order.last();
        lemma_shorter_order(a, root, order);
        lemma_all_shared(a, root, rest);
        lemma_may_number(a, root, order);
        assert forall|p: LedgerNode| #[trigger] rest.contains(p) implies !a.kids(p).contains(
            m,
        ) by {
            assert(order.contains(p));
        }
        lemma_all_shared_others(a, root, rest, m);
        let b = a.all_shared(rest);
        assert(order.contains(n));
        assert(b.has(n) && b.has(m));
        lemma_numbered(b, n);
        let next = b.numbered(n);
        assert(next.has(n) && next.has(m));
        assert(next.kids(n) == a.kids(n));
        lemma_kids(next, n);
        lemma_with_seq_nos(next, n, next.kids(n), next.at(n).next_seq_no.unwrap());
    }
}

/// A node is found by number where it is the first that hands out the number.
pub proof fn found_by_number(a: ArenaView, order: Seq<LedgerNode>, seq_id: u32, k: int)
    ensures
        0 <= k < order.len() && a.nodes[order[k].index as int].next_seq_no == Some(seq_id) && (
        forall|i: int|
            0 <= i < k ==> a.nodes[(#[trigger] order[i]).index as int].next_seq_no != Some(seq_id))
            ==> a.first_with_next(order, seq_id) == Some(order[k]),
        (forall|i: int|
            0 <= i < order.len() ==> a.nodes[(#[trigger] order[i]).index as int].next_seq_no
                != Some(seq_id)) ==> a.first_with_next(order, seq_id) is None,
    decreases order.len(),
{
    if order.len() > 0 {
        let rest = order.drop_first();
        found_by_number(a, rest, seq_id, k - 1);
        assert forall|i: int| 0 <= i < rest.len() implies #[trigger] rest[i] == order[i + 1] by {}
        if 0 <= k < order.len() && a.nodes[order[k].index as int].next_seq_no == Some(seq_id) && (
        forall|i: int|
            0 <= i < k ==> a.nodes[(#[trigger] order[i]).index as int].next_seq_no != Some(
                seq_id,
            )) {
            if k > 0 {
                assert(a.nodes[order[0].index as int].next_seq_no != Some(seq_id));
                assert(rest[k - 1] == order[k]);
                assert forall|i: int| 0 <= i < k - 1 implies a.nodes[(
                #[trigger] rest[i]).index as int].next_seq_no != Some(seq_id) by {
                    assert(rest[i] == order[i + 1]);
                }
            }
        }
        if forall|i: int|
            0 <= i < order.len() ==> a.nodes[(#[trigger] order[i]).index as int].next_seq_no
                != Some(seq_id) {
            assert(a.nodes[order[0].index as int].next_seq_no != Some(seq_id));
            assert forall|i: int| 0 <= i < rest.len() implies a.nodes[(
            #[trigger] rest[i]).index as int].next_seq_no != Some(seq_id) by {
                assert(rest[i] == order[i + 1]);
            }
        }
    }
}

/// An identifier leads to the child under its event of the first node, level by level from the
/// root, that hands out its number. Levels are passed through from the oldest node to the youngest.
pub proof fn identifier_is_looked_up(t: TreeView, uid: Uid, queue: Seq<LedgerNode>)
    requires
        t.wf(),
        t.arena.has_all(queue),
    ensures
        ({
            let order = t.arena.level_order(seq![t.root]);
            match t.arena.first_with_next(order, uid.seq_id) {
                Some(p) => t.node_of(uid) == t.arena.child(p, uid.event),
                None => t.node_of(uid) is None,
            }
        }),
        queue.len() > 0 ==> t.arena.level_order(queue) == seq![queue[0]] + t.arena.level_order(
            queue.subrange(1, queue.len() as int) + t.arena.kids(queue[0]),
        ),
        queue.len() == 0 ==> t.arena.level_order(queue) == Seq::<LedgerNode>::empty(),
{
    if queue.len() > 0 {
        assert(queue.subrange(1, queue.len() as int) =~= queue.drop_first());
    }
}

/// An identifier leads to no node where no event has it, in a tree whose events are resolved and
/// whose numbers are all different; and where it leads to a node, the parent of the node hands out
/// its number, and the node has its code.
pub proof fn identifier_leads_to_its_event(t: TreeView, uid: Uid, n: LedgerNode)
    requires
        t.wf(),
    ensures
        t.node_of(uid) == Some(n) ==> {
            &&& t.is_event(n)
            &&& t.arena.nodes[n.index as int].event == uid.event
            &&& t.arena.nodes[n.index as int].parent matches Some(p)
            &&& t.arena.nodes[p.index as int].next_seq_no == Some(uid.seq_id)
        },
        t.arena.well_numbered() && t.is_event(n) && t.arena.nodes[n.index as int].seq_no == Some(
            uid.seq_id,
        ) && t.arena.nodes[n.index as int].event == uid.event ==> t.node_of(uid) == Some(n),
{
    let a = t.arena;
    if t.node_of(uid) == Some(n) {
        node_has_uid(t, uid);
        let order = a.level_order(seq![t.root]);
        lemma_first_found(a, order, uid.seq_id);
        let p = a.first_with_next(order, uid.seq_id).unwrap();
        lemma_walk_single(a, t.root);
        lemma_level_order(a, seq![t.root], p);
        lemma_linked(a, p, t.root);
        assert(a.links_wf(p));
        let k = key_index(a.at(p).children, uid.event);
        assert(a.entry_wf(p, a.at(p).children[k]));
    }
    if a.well_numbered() && t.is_event(n) && a.at(n).uid() == Some(uid) {
        uid_leads_to_node(t, n);
    }
}

/// Numbers are well kept just where no two nodes hand out the same, and the counter is past all
/// that are handed out.
pub proof fn what_is_well_numbered(a: ArenaView)
    requires
        a.nodes.len() <= usize::MAX,
    ensures
        a.well_numbered() <==> {
            &&& forall|i: int|
                0 <= i < a.nodes.len() ==> ((#[trigger] a.nodes[i]).next_seq_no matches Some(s)
                    ==> s < a.next_avail_seq_no)
            &&& forall|i: int, j: int|
                0 <= i < j < a.nodes.len() && (#[trigger] a.nodes[i]).next_seq_no is Some
                    ==> a.nodes[i].next_seq_no != (#[trigger] a.nodes[j]).next_seq_no
        },
{
    if a.well_numbered() {
        assert forall|i: int| 0 <= i < a.nodes.len() implies ((
        #[trigger] a.nodes[i]).next_seq_no matches Some(s) ==> s < a.next_avail_seq_no) by {
            assert(a.has(LedgerNode { index: i as usize }));
        }
        assert forall|i: int, j: int|
            0 <= i < j < a.nodes.len() && (#[trigger] a.nodes[i]).next_seq_no
                is Some implies a.nodes[i].next_seq_no != (#[trigger] a.nodes[j]).next_seq_no by {
            let m = LedgerNode { index: i as usize };
            let n = LedgerNode { index: j as usize };
            assert(a.has(m) && a.has(n) && m != n);
        }
    }
}

} // verus!
