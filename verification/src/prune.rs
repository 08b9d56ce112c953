//! What pruning takes out of a tree.
use vstd::prelude::*;
use crate::maps::{Entries, has_key, lemma_lookup_entry, without_key};
use crate::model::{ArenaView, lemma_fewer_children, lemma_without_key, same_nodes};
use crate::node::LedgerNode;
use crate::numbering::lemma_detached_nodes;
use crate::reach::{
    lemma_kids_distinct, lemma_linked, lemma_linked_index, lemma_linked_trans, lemma_walk_contains,
    lemma_walk_parent,
};
use crate::tree::TreeView;
use crate::walk::{lemma_filter_from, lemma_kids, lemma_walk};

verus! {

/// Filtering twice is filtering by both tests.
proof fn lemma_filter_both<A>(s: Seq<A>, f: spec_fn(A) -> bool, g: spec_fn(A) -> bool)
    ensures
        s.filter(f).filter(g) == s.filter(|x: A| f(x) && g(x)),
    decreases s.len(),
{
    reveal(Seq::filter);
    if s.len() > 0 {
        lemma_filter_both(s.drop_last(), f, g);
        if f(s.last()) {
            assert(s.filter(f).drop_last() == s.drop_last().filter(f));
        }
    }
}

/// Tests that agree on the items of a sequence keep the same items.
proof fn lemma_filter_same<A>(s: Seq<A>, f: spec_fn(A) -> bool, g: spec_fn(A) -> bool)
    requires
        forall|x: A| #[trigger] s.contains(x) ==> f(x) == g(x),
    ensures
        s.filter(f) == s.filter(g),
    decreases s.len(),
{
    reveal(Seq::filter);
    if s.len() > 0 {
        let rest = s.drop_last();
        assert forall|x: A| #[trigger] rest.contains(x) implies f(x) == g(x) by {
            let i = choose|i: int| 0 <= i < rest.len() && rest[i] == x;
            assert(s[i] == x);
            assert(s.contains(x));
        }
        lemma_filter_same(rest, f, g);
        assert(s.contains(s[s.len() - 1]));
    }
}

proof fn lemma_filter_nothing<A>(s: Seq<A>, f: spec_fn(A) -> bool)
    requires
        forall|x: A| #[trigger] s.contains(x) ==> !f(x),
    ensures
        s.filter(f) == Seq::<A>::empty(),
{
    lemma_filter_from(s, f);
    if s.filter(f).len() > 0 {
        assert(s.contains(s.filter(f)[0]));
    }
}

/// Taking an item out of a sequence without repetitions is keeping all others.
proof fn lemma_remove_is_filter<A>(s: Seq<A>, i: int)
    requires
        s.no_duplicates(),
        0 <= i < s.len(),
    ensures
        s.remove(i) == s.filter(|x: A| x != s[i]),
    decreases s.len(),
{
    reveal(Seq::filter);
    let keep = |x: A| x != s[i];
    let rest = s.drop_last();
    assert(rest.no_duplicates()) by {
        assert forall|j: int, k: int|
            0 <= j < rest.len() && 0 <= k < rest.len() && j != k implies rest[j] != rest[k] by {
            assert(s[j] != s[k]);
        }
    }
    if i < s.len() - 1 {
        lemma_remove_is_filter(rest, i);
        assert(s[i] != s[s.len() - 1]);
        assert(rest.filter(|x: A| x != rest[i]) == rest.filter(keep));
        assert(s.remove(i) =~= rest.remove(i).push(s.last()));
    } else {
        assert forall|x: A| #[trigger] rest.contains(x) implies keep(x) by {
            let j = choose|j: int| 0 <= j < rest.len() && rest[j] == x;
            assert(s[j] != s[i]);
        }
        lemma_filter_all(rest, keep);
        assert(s.remove(i) =~= rest);
    }
}

proof fn lemma_filter_all<A>(s: Seq<A>, f: spec_fn(A) -> bool)
    requires
        forall|x: A| #[trigger] s.contains(x) ==> f(x),
    ensures
        s.filter(f) == s,
    decreases s.len(),
{
    reveal(Seq::filter);
    if s.len() > 0 {
        let rest = s.drop_last();
        assert forall|x: A| #[trigger] rest.contains(x) implies f(x) by {
            let i = choose|i: int| 0 <= i < rest.len() && rest[i] == x;
            assert(s[i] == x);
            assert(s.contains(x));
        }
        lemma_filter_all(rest, f);
        assert(s.contains(s[s.len() - 1]));
        assert(rest.push(s.last()) =~= s);
    }
}

/// `b` is `a` with some of the children of `p` left out.
spec fn loses_children(a: ArenaView, b: ArenaView, p: LedgerNode) -> bool {
    &&& a.wf()
    &&& b.wf()
    &&& a.has(p)
    &&& same_nodes(a, b)
    &&& forall|m: LedgerNode| #[trigger] a.has(m) && m != p ==> b.at(m) == a.at(m)
    &&& b.kids(p) == a.kids(p).filter(|k: LedgerNode| b.kids(p).contains(k))
}

/// A node below `k` that can still be reached from the parent of `k`, can be reached through `k`.
proof fn lemma_linked_through(
    a: ArenaView,
    b: ArenaView,
    p: LedgerNode,
    m: LedgerNode,
    k: LedgerNode,
    x: LedgerNode,
)
    requires
        loses_children(a, b, p),
        a.has(m),
        a.linked(m, k),
        a.at(k).parent == Some(x),
        x.index < k.index,
        b.linked(m, x),
    ensures
        b.linked(m, k),
        b.kids(x).contains(k),
    decreases m.index,
{
    assert(b.at(m).parent == a.at(m).parent);
    assert(m != x) by {
        lemma_linked_index(a, m, k);
    }
    if m != k {
        let q = a.at(m).parent.unwrap();
        lemma_linked_through(a, b, p, q, k, x);
    }
}

/// The walks from the children of a node, after some nodes are lost.
proof fn lemma_lost_walk_all(
    a: ArenaView,
    b: ArenaView,
    kids: Seq<LedgerNode>,
    stay: spec_fn(LedgerNode) -> bool,
    keep: spec_fn(LedgerNode) -> bool,
)
    requires
        forall|k: LedgerNode| #[trigger]
            kids.contains(k) ==> a.walk(k).filter(keep) == if stay(k) {
                b.walk(k)
            } else {
                Seq::empty()
            },
    ensures
        b.walk_all(kids.filter(stay)) == a.walk_all(kids).filter(keep),
    decreases kids.len(),
{
    reveal(Seq::filter);
    if kids.len() > 0 {
        let rest = kids.drop_last();
        let last = kids.last();
        assert forall|k: LedgerNode| #[trigger] rest.contains(k) implies a.walk(k).filter(keep)
            == if stay(k) {
            b.walk(k)
        } else {
            Seq::empty()
        } by {
            let i = choose|i: int| 0 <= i < rest.len() && rest[i] == k;
            assert(kids[i] == k);
            assert(kids.contains(k));
        }
        lemma_lost_walk_all(a, b, rest, stay, keep);
        assert(kids.contains(kids[kids.len() - 1]));
        Seq::filter_distributes_over_add(a.walk(last), a.walk_all(rest), keep);
        if stay(last) {
            assert(rest.filter(stay).push(last).drop_last() == rest.filter(stay));
        } else {
            assert(Seq::<LedgerNode>::empty() + a.walk_all(rest).filter(keep) == a.walk_all(
                rest,
            ).filter(keep));
        }
    } else {
        assert(b.walk_all(kids.filter(stay)) == Seq::<LedgerNode>::empty());
    }
}

/// A walk passes what is left in the same order as before.
proof fn lemma_lost_walk(a: ArenaView, b: ArenaView, p: LedgerNode, x: LedgerNode)
    requires
        loses_children(a, b, p),
        a.has(x),
    ensures
        b.walk(x) == a.walk(x).filter(|m: LedgerNode| b.linked(m, x)),
    decreases a.nodes.len() - x.index,
{
    let keep = |m: LedgerNode| b.linked(m, x);
    let stay = |k: LedgerNode| b.kids(x).contains(k);
    let kids = a.kids(x);
    lemma_walk(a, x);
    lemma_walk(b, x);
    lemma_kids(a, x);
    assert(b.kids(x) == kids.filter(stay)) by {
        if x != p {
            assert(b.at(x) == a.at(x));
            lemma_filter_all(kids, stay);
        }
    }
    assert forall|k: LedgerNode| #[trigger] kids.contains(k) implies a.walk(k).filter(keep)
        == if stay(k) {
        b.walk(k)
    } else {
        Seq::empty()
    } by {
        let i = choose|i: int| 0 <= i < kids.len() && kids[i] == k;
        assert(a.has(kids[i]));
        assert(x.index < kids[i].index);
        assert(a.at(kids[i]).parent == Some(x));
        let w = a.walk(k);
        if stay(k) {
            lemma_lost_walk(a, b, p, k);
            let below = |m: LedgerNode| b.linked(m, k);
            assert forall|m: LedgerNode| #[trigger] w.contains(m) implies keep(m) == below(m) by {
                lemma_linked(a, m, k);
                if keep(m) {
                    lemma_linked_through(a, b, p, m, k, x);
                }
                if below(m) {
                    assert(b.at(k).parent == Some(x));
                    assert(b.linked(x, x));
                    assert(b.linked(k, x));
                    lemma_linked_trans(b, m, k, x);
                }
            }
            lemma_filter_same(w, keep, below);
        } else {
            assert forall|m: LedgerNode| #[trigger] w.contains(m) implies !keep(m) by {
                lemma_linked(a, m, k);
                if keep(m) {
                    lemma_linked_through(a, b, p, m, k, x);
                }
            }
            lemma_filter_nothing(w, keep);
        }
    }
    lemma_lost_walk_all(a, b, kids, stay, keep);
    Seq::filter_distributes_over_add(seq![x], a.walk_all(kids), keep);
    assert(seq![x].filter(keep) == seq![x]) by {
        reveal(Seq::filter);
        assert(b.linked(x, x));
        assert(seq![x].drop_last() == Seq::<LedgerNode>::empty());
        assert(seq![x].drop_last().filter(keep) == Seq::<LedgerNode>::empty());
        assert(Seq::<LedgerNode>::empty().push(x) == seq![x]);
    }
}

/// Without the entry of `x`, all nodes but `x` can still be reached.
proof fn lemma_still_linked(
    a: ArenaView,
    b: ArenaView,
    q: LedgerNode,
    x: LedgerNode,
    root: LedgerNode,
    m: LedgerNode,
)
    requires
        loses_children(a, b, q),
        a.has(m),
        a.at(x).is_leaf(),
        forall|k: LedgerNode| #[trigger] a.kids(q).contains(k) && k != x ==> b.kids(q).contains(k),
        a.linked(m, root),
        m != x,
    ensures
        b.linked(m, root),
    decreases m.index,
{
    if m != root {
        let p = a.at(m).parent.unwrap();
        assert(a.kids(p).contains(m));
        assert(a.kids(x).len() == 0);
        assert(p != x);
        lemma_still_linked(a, b, q, x, root, p);
        assert(a.has(p));
        assert(b.kids(p).contains(m));
    }
}

/// The arena without the entry of `x` among the children of its parent.
spec fn without_entry(a: ArenaView, x: LedgerNode) -> ArenaView {
    let q = a.at(x).parent.unwrap();
    a.set(q, a.at(q).with_children(without_key(a.at(q).children, a.at(x).event)))
}

/// Taking out the entry of a node leaves the others.
proof fn lemma_without_entry(a: ArenaView, q: LedgerNode, x: LedgerNode)
    requires
        a.wf(),
        a.has(q),
        a.has(x),
        a.at(x).parent == Some(q),
        a.kids(q).contains(x),
    ensures
        loses_children(a, without_entry(a, x), q),
        forall|k: LedgerNode| #[trigger]
            a.kids(q).contains(k) ==> (without_entry(a, x).kids(q).contains(k) <==> k != x),
{
    let event = a.at(x).event;
    let kids = a.kids(q);
    let b = without_entry(a, x);
    let others = |k: LedgerNode| k != x;
    lemma_kids_distinct(a, q);
    let i = choose|i: int| 0 <= i < kids.len() && kids[i] == x;
    assert(a.links_wf(q));
    assert(a.entry_wf(q, a.at(q).children[i]));
    lemma_lookup_entry(a.at(q).children, i);
    assert(has_key(a.at(q).children, event)) by {
        assert(a.at(q).children[i].0 == event);
    }
    let rest = without_key(a.at(q).children, event);
    lemma_without_key(a.at(q).children, event);
    lemma_fewer_children(a, q, rest);
    assert(b.kids(q) =~= kids.remove(i));
    lemma_remove_is_filter(kids, i);
    lemma_filter_same(kids, |k: LedgerNode| k != kids[i], others);
    assert forall|k: LedgerNode| #[trigger] kids.contains(k) implies (b.kids(q).contains(k) <==> k
        != x) by {
        lemma_filter_from(kids, others);
        let j = choose|j: int| 0 <= j < kids.len() && kids[j] == k;
        if k != x {
            kids.lemma_filter_contains(others, j);
        }
    }
    lemma_filter_same(kids, others, |k: LedgerNode| b.kids(q).contains(k));
}

/// Taking out the entry of a leaf takes the leaf out of walks.
proof fn lemma_walk_without_leaf(a: ArenaView, root: LedgerNode, x: LedgerNode)
    requires
        a.wf(),
        a.has(root),
        a.walk(root).contains(x),
        x != root,
        a.at(x).is_leaf(),
    ensures
        without_entry(a, x).walk(root) == a.walk(root).filter(|m: LedgerNode| m != x),
{
    let q = a.at(x).parent.unwrap();
    let b = without_entry(a, x);
    let w = a.walk(root);
    let others = |m: LedgerNode| m != x;
    lemma_walk_parent(a, x, root);
    lemma_without_entry(a, q, x);
    lemma_lost_walk(a, b, q, root);
    assert forall|m: LedgerNode| #[trigger] w.contains(m) implies b.linked(m, root) == (m
        != x) by {
        lemma_linked(a, m, root);
        if m != x {
            lemma_still_linked(a, b, q, x, root, m);
        } else {
            assert(!b.kids(q).contains(x));
            assert(b.at(x).parent == Some(q));
        }
    }
    lemma_filter_same(w, |m: LedgerNode| b.linked(m, root), others);
}

/// Taking the entry of a leaf out of the tree, and upwards all that is left without children,
/// takes the leaf away from the ends of chains, and no other.
proof fn lemma_detached_leaf(a: ArenaView, root: LedgerNode, x: LedgerNode)
    requires
        a.wf(),
        a.has(root),
        a.at(root).parent is None,
        a.walk(root).contains(x),
        x != root,
        a.at(x).is_leaf(),
    ensures
        a.detached(a.at(x).parent.unwrap(), a.at(x).event).leaf_nodes(root) == a.leaf_nodes(
            root,
        ).filter(|m: LedgerNode| m != x),
    decreases x.index,
{
    let q = a.at(x).parent.unwrap();
    let b = without_entry(a, x);
    let w = a.walk(root);
    let others = |m: LedgerNode| m != x;
    lemma_walk_parent(a, x, root);
    lemma_without_entry(a, q, x);
    lemma_walk_without_leaf(a, root, x);
    let ends = |m: LedgerNode| a.ends_chain(m);
    let ends_b = |m: LedgerNode| b.ends_chain(m);
    let goal = |m: LedgerNode| ends(m) && others(m);
    let now = |m: LedgerNode| others(m) && ends_b(m);
    lemma_filter_both(w, others, ends_b);
    lemma_filter_both(w, ends, others);
    assert(a.kids(q).len() > 0);
    assert(!a.at(q).is_leaf());
    lemma_linked(a, q, root);
    match a.at(q).parent {
        Some(p) if b.at(q).is_leaf() => {
            assert(q != x);
            assert(a.links_wf(q));
            assert(b.walk(root).contains(q)) by {
                let k = choose|k: int| 0 <= k < w.len() && w[k] == q;
                w.lemma_filter_contains(others, k);
            }
            assert(b.at(root) == a.at(root).with_children(b.at(root).children));
            lemma_detached_leaf(b, root, q);
            let not_q = |m: LedgerNode| m != q;
            lemma_filter_both(w, now, not_q);
            let both = |m: LedgerNode| now(m) && not_q(m);
            assert forall|m: LedgerNode| #[trigger] w.contains(m) implies both(m) == goal(m) by {
                lemma_linked(a, m, root);
            }
            lemma_filter_same(w, both, goal);
        },
        _ => {
            assert forall|m: LedgerNode| #[trigger] w.contains(m) implies now(m) == goal(m) by {
                lemma_linked(a, m, root);
            }
            lemma_filter_same(w, now, goal);
        },
    }
}

/// What is reached once a node has lost its children: the node, and what is not below it.
proof fn lemma_cleared_linked(
    a: ArenaView,
    b: ArenaView,
    n: LedgerNode,
    root: LedgerNode,
    m: LedgerNode,
)
    requires
        loses_children(a, b, n),
        b.at(n).is_leaf(),
        a.has(m),
        a.linked(m, root),
        a.linked(n, root),
    ensures
        b.linked(m, root) <==> m == n || !a.linked(m, n),
    decreases m.index,
{
    assert(b.kids(n).len() == 0);
    if m == root {
        if a.linked(m, n) {
            lemma_linked_index(a, m, n);
            lemma_linked_index(a, n, root);
        }
    } else {
        let p = a.at(m).parent.unwrap();
        assert(a.has(p));
        lemma_cleared_linked(a, b, n, root, p);
        assert(b.at(m).parent == a.at(m).parent);
        if m == n {
            if a.linked(p, n) {
                lemma_linked_index(a, p, n);
            }
            assert(b.kids(p).contains(m));
        } else if p == n {
            assert(a.linked(n, n));
            assert(a.linked(m, n));
        } else {
            assert(b.kids(p) == a.kids(p));
        }
    }
}

/// Pruning a node takes the ends of the chains that lead through the node away from the ends of
/// chains of the tree. All others stay, in the same order.
pub proof fn prune_removes_chains(t: TreeView, n: LedgerNode)
    requires
        t.wf(),
        t.is_event(n),
    ensures
        t.arena.pruned(n).leaf_nodes(t.root) == t.leaf_nodes().filter(
            |m: LedgerNode| !t.arena.walk(n).contains(m),
        ),
{
    let a = t.arena;
    let root = t.root;
    lemma_walk_parent(a, n, root);
    let b = a.set(n, a.at(n).with_children(Entries::empty()));
    lemma_fewer_children(a, n, Entries::empty());
    assert(b.kids(n) =~= Seq::<LedgerNode>::empty());
    lemma_filter_nothing(a.kids(n), |k: LedgerNode| b.kids(n).contains(k));
    assert(loses_children(a, b, n));
    lemma_lost_walk(a, b, n, root);
    lemma_linked(a, n, root);
    let w = a.walk(root);
    let reached = |m: LedgerNode| b.linked(m, root);
    let ends = |m: LedgerNode| a.ends_chain(m);
    let ends_b = |m: LedgerNode| b.ends_chain(m);
    let apart = |m: LedgerNode| !a.walk(n).contains(m);
    let not_n = |m: LedgerNode| m != n;
    assert(b.walk(root).contains(n)) by {
        lemma_linked(b, n, root);
        lemma_cleared_linked(a, b, n, root, n);
    }
    lemma_detached_leaf(b, root, n);
    lemma_filter_both(w, reached, ends_b);
    let now = |m: LedgerNode| reached(m) && ends_b(m);
    lemma_filter_both(w, now, not_n);
    let after = |m: LedgerNode| now(m) && not_n(m);
    lemma_filter_both(w, ends, apart);
    let goal = |m: LedgerNode| ends(m) && apart(m);
    assert forall|m: LedgerNode| #[trigger] w.contains(m) implies after(m) == goal(m) by {
        lemma_linked(a, m, root);
        lemma_linked(a, m, n);
        lemma_cleared_linked(a, b, n, root, m);
        assert(a.linked(n, n));
    }
    lemma_filter_same(w, after, goal);
}

/// Apart from a root without children, dangling nodes are the ends of chains that are not held.
pub proof fn dangling_nodes_end_chains(t: TreeView, held: Seq<LedgerNode>)
    requires
        t.wf(),
    ensures
        t.arena.dangling_nodes(t.root, held).filter(|m: LedgerNode| m != t.root)
            == t.leaf_nodes().filter(|m: LedgerNode| !held.contains(m)),
{
    let a = t.arena;
    let w = a.walk(t.root);
    let loose = |m: LedgerNode| a.at(m).is_leaf() && !held.contains(m);
    let inner = |m: LedgerNode| m != t.root;
    let ends = |m: LedgerNode| a.ends_chain(m);
    let free = |m: LedgerNode| !held.contains(m);
    lemma_filter_both(w, loose, inner);
    lemma_filter_both(w, ends, free);
    let f = |m: LedgerNode| loose(m) && inner(m);
    let g = |m: LedgerNode| ends(m) && free(m);
    assert forall|m: LedgerNode| #[trigger] w.contains(m) implies f(m) == g(m) by {
        if m != t.root {
            lemma_walk_parent(a, m, t.root);
        }
    }
    lemma_filter_same(w, f, g);
}

proof fn lemma_detached_wf(a: ArenaView, n: LedgerNode, event: u32)
    requires
        a.wf(),
        a.has(n),
    ensures
        a.detached(n, event).wf(),
    decreases n.index,
{
    assert(a.links_wf(n));
    let rest = without_key(a.at(n).children, event);
    let next = a.set(n, a.at(n).with_children(rest));
    lemma_without_key(a.at(n).children, event);
    lemma_fewer_children(a, n, rest);
    match a.at(n).parent {
        Some(p) if rest.len() == 0 => {
            assert(next.has(p));
            lemma_detached_wf(next, p, a.at(n).event);
        },
        _ => {},
    }
}

/// Pruning a node that dangles leaves the other dangling nodes, in the same order; the root may
/// come to be one of them.
pub proof fn prune_removes_dangling(t: TreeView, n: LedgerNode, held: Seq<LedgerNode>)
    requires
        t.wf(),
        t.is_event(n),
        t.arena.at(n).is_leaf(),
    ensures
        t.arena.pruned(n).dangling_nodes(t.root, held).filter(|m: LedgerNode| m != t.root)
            == t.arena.dangling_nodes(t.root, held).filter(
            |m: LedgerNode| m != t.root,
        ).filter(|m: LedgerNode| m != n),
{
    let a = t.arena;
    let b = a.pruned(n);
    let u = TreeView { arena: b, ..t };
    lemma_walk_parent(a, n, t.root);
    let cleared = a.set(n, a.at(n).with_children(Entries::empty()));
    assert(same_nodes(a, cleared));
    lemma_detached_nodes(cleared, a.at(n).parent.unwrap(), a.at(n).event);
    lemma_fewer_children(a, n, Entries::empty());
    lemma_detached_wf(cleared, a.at(n).parent.unwrap(), a.at(n).event);
    assert(b.has(t.root) && b.at(t.root).parent is None) by {
        assert(a.has(t.root));
        assert(cleared.has(t.root));
    }
    dangling_nodes_end_chains(t, held);
    dangling_nodes_end_chains(u, held);
    prune_removes_chains(t, n);
    let leaves = t.leaf_nodes();
    let free = |m: LedgerNode| !held.contains(m);
    let apart = |m: LedgerNode| !a.walk(n).contains(m);
    let others = |m: LedgerNode| m != n;
    assert forall|m: LedgerNode| #[trigger] leaves.contains(m) implies apart(m) == others(m) by {
        lemma_walk_contains(a, n, m);
        assert(a.kids(n).len() == 0);
    }
    lemma_filter_same(leaves, apart, others);
    lemma_filter_both(leaves, others, free);
    lemma_filter_both(leaves, free, others);
    lemma_filter_same(
        leaves,
        |m: LedgerNode| others(m) && free(m),
        |m: LedgerNode| free(m) && others(m),
    );
}

/// A way up that both arenas share from below leads over the same nodes.
proof fn lemma_same_way(a: ArenaView, b: ArenaView, x: LedgerNode, m: LedgerNode, root: LedgerNode)
    requires
        same_nodes(a, b),
        a.wf(),
        a.has(x),
        a.at(root).parent is None,
        b.linked(x, root),
        a.linked(x, m),
    ensures
        b.linked(m, root),
        b.linked(x, m),
    decreases x.index,
{
    assert(b.at(x).parent == a.at(x).parent);
    if x != m {
        let p = a.at(x).parent.unwrap();
        assert(a.links_wf(x));
        assert(x != root);
        lemma_same_way(a, b, p, m, root);
    }
}

proof fn lemma_end_below(a: ArenaView, m: LedgerNode) -> (x: LedgerNode)
    requires
        a.wf(),
        a.has(m),
    ensures
        a.has(x),
        a.linked(x, m),
        a.at(x).is_leaf(),
    decreases a.nodes.len() - m.index,
{
    if a.at(m).is_leaf() {
        m
    } else {
        let k = a.kids(m)[0];
        lemma_kids(a, m);
        assert(a.has(a.kids(m)[0]));
        assert(a.kids(m).contains(k));
        let x = lemma_end_below(a, k);
        assert(a.linked(m, m));
        assert(a.linked(k, m));
        lemma_linked_trans(a, x, k, m);
        x
    }
}

/// After a node of a tree is pruned, the events that stay in the tree are those that still lead to
/// an end of a chain: the ones with an end below them that is not below the pruned node.
pub proof fn prune_keeps_what_leads_on(t: TreeView, n: LedgerNode, m: LedgerNode)
    requires
        t.wf(),
        t.is_event(n),
        t.is_event(m),
    ensures
        t.arena.pruned(n).walk(t.root).contains(m) <==> exists|x: LedgerNode|
            t.leaf_nodes().contains(x) && #[trigger] t.arena.walk(m).contains(x)
                && !t.arena.walk(n).contains(x),
{
    let a = t.arena;
    let root = t.root;
    let b = a.pruned(n);
    lemma_walk_parent(a, n, root);
    lemma_walk_parent(a, m, root);
    let p = a.at(n).parent.unwrap();
    let cleared = a.set(n, a.at(n).with_children(Entries::empty()));
    lemma_fewer_children(a, n, Entries::empty());
    lemma_detached_nodes(cleared, p, a.at(n).event);
    lemma_detached_wf(cleared, p, a.at(n).event);
    assert(same_nodes(a, b)) by {
        assert forall|y: LedgerNode| #[trigger] a.has(y) implies b.at(y) == a.at(y).with_children(
            b.at(y).children,
        ) by {
            assert(cleared.has(y));
        }
    }
    prune_removes_chains(t, n);
    let w = a.walk(root);
    let ends = |y: LedgerNode| a.ends_chain(y);
    let others = |y: LedgerNode| !a.walk(n).contains(y);
    if exists|x: LedgerNode|
        t.leaf_nodes().contains(x) && #[trigger] a.walk(m).contains(x) && !a.walk(n).contains(x) {
        let x = choose|x: LedgerNode|
            t.leaf_nodes().contains(x) && #[trigger] a.walk(m).contains(x) && !a.walk(n).contains(
                x,
            );
        lemma_filter_has(t.leaf_nodes(), others, x);
        assert(b.leaf_nodes(root).contains(x));
        lemma_filter_has(b.walk(root), |y: LedgerNode| b.ends_chain(y), x);
        lemma_linked(b, x, root);
        lemma_linked(a, x, m);
        lemma_same_way(a, b, x, m, root);
        lemma_linked(b, m, root);
    }
    if b.walk(root).contains(m) {
        let x = lemma_end_below(b, m);
        lemma_linked(b, m, root);
        lemma_linked_trans(b, x, m, root);
        lemma_linked(b, x, root);
        lemma_linked_index(b, x, m);
        assert(b.at(x).parent is Some) by {
            assert(a.has(x));
            if x != m {
                assert(b.linked(x, m));
            }
        }
        assert(b.ends_chain(x));
        lemma_filter_has(b.walk(root), |y: LedgerNode| b.ends_chain(y), x);
        assert(b.leaf_nodes(root).contains(x));
        lemma_filter_has(t.leaf_nodes(), others, x);
        lemma_filter_has(w, ends, x);
        lemma_linked(a, x, root);
        assert(b.at(root).parent is None) by {
            assert(a.has(root));
        }
        assert(same_nodes(b, a)) by {
            assert forall|y: LedgerNode| #[trigger] b.has(y) implies a.at(y) == b.at(
                y,
            ).with_children(a.at(y).children) by {
                assert(a.has(y));
            }
        }
        lemma_same_way(b, a, x, m, root);
        lemma_linked(a, x, m);
    }
}

proof fn lemma_filter_has<A>(s: Seq<A>, f: spec_fn(A) -> bool, x: A)
    ensures
        s.filter(f).contains(x) <==> s.contains(x) && f(x),
    decreases s.len(),
{
    reveal(Seq::filter);
    if s.len() > 0 {
        let rest = s.drop_last();
        lemma_filter_has(rest, f, x);
        assert(s =~= rest.push(s.last()));
        lemma_push_has(rest, s.last(), x);
        lemma_push_has(rest.filter(f), s.last(), x);
    }
}

proof fn lemma_push_has<A>(s: Seq<A>, y: A, x: A)
    ensures
        s.push(y).contains(x) <==> s.contains(x) || x == y,
{
    assert(s.push(y)[s.len() as int] == y);
    if s.contains(x) {
        let i = choose|i: int| 0 <= i < s.len() && s[i] == x;
        assert(s.push(y)[i] == x);
    }
    if s.push(y).contains(x) && x != y {
        let i = choose|i: int| 0 <= i < s.push(y).len() && s.push(y)[i] == x;
        assert(s[i] == x);
    }
}

} // verus!
