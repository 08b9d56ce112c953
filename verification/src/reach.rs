//! Which nodes a walk comes to, and that it comes to each of them once.
use vstd::prelude::*;
use crate::maps::lemma_lookup_entry;
use crate::model::ArenaView;
use crate::node::LedgerNode;
use crate::walk::{lemma_kids, lemma_walk};

verus! {

impl ArenaView {
    /// `m` is `n`, or one of its children, or one of theirs, and so on.
    pub open spec fn linked(self, m: LedgerNode, n: LedgerNode) -> bool
        decreases m.index,
    {
        m == n || match self.at(m).parent {
            Some(p) => p.index < m.index && self.kids(p).contains(m) && self.linked(p, n),
            None => false,
        }
    }
}

pub proof fn lemma_contains_concat<A>(s: Seq<A>, t: Seq<A>, x: A)
    ensures
        (s + t).contains(x) <==> s.contains(x) || t.contains(x),
{
    if s.contains(x) {
        let i = choose|i: int| 0 <= i < s.len() && s[i] == x;
        assert((s + t)[i] == x);
    }
    if t.contains(x) {
        let i = choose|i: int| 0 <= i < t.len() && t[i] == x;
        assert((s + t)[s.len() + i] == x);
    }
    if (s + t).contains(x) {
        let i = choose|i: int| 0 <= i < (s + t).len() && (s + t)[i] == x;
        if i < s.len() {
            assert(s[i] == x);
        } else {
            assert(t[i - s.len()] == x);
        }
    }
}

/// A walk from several starting points comes to what a walk from one of them comes to.
pub proof fn lemma_walk_all_contains(a: ArenaView, starts: Seq<LedgerNode>, m: LedgerNode)
    ensures
        a.walk_all(starts).contains(m) <==> exists|k: int|
            0 <= k < starts.len() && a.walk(#[trigger] starts[k]).contains(m),
    decreases starts.len(),
{
    if starts.len() > 0 {
        let rest = starts.drop_last();
        lemma_walk_all_contains(a, rest, m);
        lemma_contains_concat(a.walk(starts.last()), a.walk_all(rest), m);
        if a.walk_all(rest).contains(m) {
            let k = choose|k: int| 0 <= k < rest.len() && a.walk(#[trigger] rest[k]).contains(m);
            assert(a.walk(starts[k]).contains(m));
        }
        if exists|k: int| 0 <= k < starts.len() && a.walk(#[trigger] starts[k]).contains(m) {
            let k = choose|k: int|
                0 <= k < starts.len() && a.walk(#[trigger] starts[k]).contains(m);
            if k < rest.len() {
                assert(a.walk(rest[k]).contains(m));
            }
        }
    }
}

/// A walk comes to its start and to what the walks from the children of the start come to.
pub proof fn lemma_walk_contains(a: ArenaView, n: LedgerNode, m: LedgerNode)
    requires
        a.wf(),
        a.has(n),
    ensures
        a.walk(n).contains(m) <==> m == n || exists|k: int|
            0 <= k < a.kids(n).len() && a.walk(#[trigger] a.kids(n)[k]).contains(m),
{
    lemma_walk(a, n);
    lemma_walk_all_contains(a, a.kids(n), m);
    lemma_contains_concat(seq![n], a.walk_all(a.kids(n)), m);
    assert(seq![n][0] == n);
}

/// Links lead on from each other.
pub proof fn lemma_linked_trans(a: ArenaView, m: LedgerNode, k: LedgerNode, n: LedgerNode)
    requires
        a.linked(m, k),
        a.linked(k, n),
    ensures
        a.linked(m, n),
    decreases m.index,
{
    if m != k {
        lemma_linked_trans(a, a.at(m).parent.unwrap(), k, n);
    }
}

/// The children of a node that a walk comes to, it comes to as well.
pub proof fn lemma_walk_closed(a: ArenaView, n: LedgerNode, p: LedgerNode, m: LedgerNode)
    requires
        a.wf(),
        a.has(n),
        a.walk(n).contains(p),
        a.kids(p).contains(m),
    ensures
        a.walk(n).contains(m),
    decreases a.nodes.len() - n.index,
{
    lemma_walk_contains(a, n, p);
    lemma_walk_contains(a, n, m);
    lemma_kids(a, n);
    if p == n {
        let k = choose|k: int| 0 <= k < a.kids(n).len() && a.kids(n)[k] == m;
        assert(a.has(a.kids(n)[k]));
        lemma_walk_contains(a, m, m);
        assert(a.walk(a.kids(n)[k]).contains(m));
    } else {
        let k = choose|k: int|
            0 <= k < a.kids(n).len() && a.walk(#[trigger] a.kids(n)[k]).contains(p);
        assert(a.has(a.kids(n)[k]));
        lemma_walk_closed(a, a.kids(n)[k], p, m);
    }
}

/// A walk from `n` comes to just the nodes that are linked to `n`.
pub proof fn lemma_linked(a: ArenaView, m: LedgerNode, n: LedgerNode)
    requires
        a.wf(),
        a.has(n),
    ensures
        a.walk(n).contains(m) <==> a.linked(m, n),
        a.walk(n).contains(m) ==> a.has(m) && n.index <= m.index,
{
    if a.walk(n).contains(m) {
        lemma_walk_to_linked(a, m, n);
    }
    if a.linked(m, n) {
        lemma_linked_to_walk(a, m, n);
    }
}

proof fn lemma_walk_to_linked(a: ArenaView, m: LedgerNode, n: LedgerNode)
    requires
        a.wf(),
        a.has(n),
        a.walk(n).contains(m),
    ensures
        a.linked(m, n),
        a.has(m),
        n.index <= m.index,
    decreases a.nodes.len() - n.index,
{
    lemma_walk_contains(a, n, m);
    if m != n {
        lemma_kids(a, n);
        let k = choose|k: int|
            0 <= k < a.kids(n).len() && a.walk(#[trigger] a.kids(n)[k]).contains(m);
        let kid = a.kids(n)[k];
        assert(a.has(kid));
        lemma_walk_to_linked(a, m, kid);
        assert(a.linked(n, n));
        assert(a.linked(kid, n));
        lemma_linked_trans(a, m, kid, n);
    }
}

proof fn lemma_linked_to_walk(a: ArenaView, m: LedgerNode, n: LedgerNode)
    requires
        a.wf(),
        a.has(n),
        a.linked(m, n),
    ensures
        a.walk(n).contains(m),
    decreases m.index,
{
    if m == n {
        lemma_walk_contains(a, n, m);
    } else {
        let p = a.at(m).parent.unwrap();
        lemma_linked_to_walk(a, p, n);
        lemma_walk_closed(a, n, p, m);
    }
}

/// What a walk comes to besides its start has a parent that it comes to, and is a child of it.
pub proof fn lemma_walk_parent(a: ArenaView, m: LedgerNode, n: LedgerNode)
    requires
        a.wf(),
        a.has(n),
        a.walk(n).contains(m),
        m != n,
    ensures
        a.has(m),
        a.at(m).parent is Some,
        a.has(a.at(m).parent.unwrap()),
        a.at(m).parent.unwrap().index < m.index,
        a.walk(n).contains(a.at(m).parent.unwrap()),
        a.kids(a.at(m).parent.unwrap()).contains(m),
{
    lemma_linked(a, m, n);
    lemma_linked(a, a.at(m).parent.unwrap(), n);
}

/// A node can be linked to only one of the children of a node.
proof fn lemma_one_branch(a: ArenaView, m: LedgerNode, j: LedgerNode, k: LedgerNode, n: LedgerNode)
    requires
        a.wf(),
        a.has(m),
        a.linked(m, j),
        a.linked(m, k),
        a.at(j).parent == Some(n),
        a.at(k).parent == Some(n),
        n.index < j.index,
        n.index < k.index,
    ensures
        j == k,
    decreases m.index,
{
    if m == j && m != k {
        lemma_linked_index(a, n, k);
    } else if m == k && m != j {
        lemma_linked_index(a, n, j);
    } else if m != j {
        lemma_one_branch(a, a.at(m).parent.unwrap(), j, k, n);
    }
}

/// A node is not older than one that it is linked to.
pub proof fn lemma_linked_index(a: ArenaView, m: LedgerNode, n: LedgerNode)
    ensures
        a.linked(m, n) ==> n.index <= m.index,
    decreases m.index,
{
    if a.linked(m, n) && m != n {
        lemma_linked_index(a, a.at(m).parent.unwrap(), n);
    }
}

/// The children of a node are all different.
pub proof fn lemma_kids_distinct(a: ArenaView, n: LedgerNode)
    requires
        a.wf(),
        a.has(n),
    ensures
        a.kids(n).no_duplicates(),
        forall|k: int|
            0 <= k < a.kids(n).len() ==> a.child(n, a.at(#[trigger] a.kids(n)[k]).event) == Some(
                a.kids(n)[k],
            ),
{
    assert(a.links_wf(n));
    assert forall|k: int| 0 <= k < a.kids(n).len() implies a.child(
        n,
        a.at(#[trigger] a.kids(n)[k]).event,
    ) == Some(a.kids(n)[k]) by {
        assert(a.entry_wf(n, a.at(n).children[k]));
        lemma_lookup_entry(a.at(n).children, k);
    }
    assert forall|j: int, k: int|
        0 <= j < a.kids(n).len() && 0 <= k < a.kids(n).len() && j != k implies a.kids(n)[j]
        != a.kids(n)[k] by {
        assert(a.entry_wf(n, a.at(n).children[j]));
        assert(a.entry_wf(n, a.at(n).children[k]));
        assert(a.at(n).children[j].0 != a.at(n).children[k].0);
    }
}

pub proof fn lemma_distinct_concat<A>(s: Seq<A>, t: Seq<A>)
    requires
        s.no_duplicates(),
        t.no_duplicates(),
        forall|x: A| !(s.contains(x) && #[trigger] t.contains(x)),
    ensures
        (s + t).no_duplicates(),
{
    let u = s + t;
    assert forall|i: int, j: int| 0 <= i < u.len() && 0 <= j < u.len() && i != j implies u[i]
        != u[j] by {
        if i < s.len() {
            assert(s.contains(s[i]));
        } else {
            assert(t.contains(t[i - s.len()]));
        }
        if j < s.len() {
            assert(s.contains(s[j]));
        } else {
            assert(t.contains(t[j - s.len()]));
        }
    }
}

/// A walk comes to no node twice.
pub proof fn lemma_walk_distinct(a: ArenaView, n: LedgerNode)
    requires
        a.wf(),
        a.has(n),
    ensures
        a.walk(n).no_duplicates(),
    decreases a.nodes.len() - n.index, 1nat, 0nat,
{
    lemma_walk(a, n);
    lemma_kids(a, n);
    lemma_walk_all_distinct(a, n, a.kids(n).len());
    let t = a.walk_all(a.kids(n));
    assert(a.kids(n).take(a.kids(n).len() as int) == a.kids(n));
    assert forall|x: LedgerNode| !(seq![n].contains(x) && #[trigger] t.contains(x)) by {
        if t.contains(x) {
            lemma_walk_all_contains(a, a.kids(n), x);
            let k = choose|k: int|
                0 <= k < a.kids(n).len() && a.walk(#[trigger] a.kids(n)[k]).contains(x);
            assert(a.has(a.kids(n)[k]));
            lemma_linked(a, x, a.kids(n)[k]);
        }
    }
    lemma_distinct_concat(seq![n], t);
}

proof fn lemma_walk_all_distinct(a: ArenaView, n: LedgerNode, count: nat)
    requires
        a.wf(),
        a.has(n),
        count <= a.kids(n).len(),
    ensures
        a.walk_all(a.kids(n).take(count as int)).no_duplicates(),
    decreases a.nodes.len() - n.index, 0nat, count,
{
    let starts = a.kids(n).take(count as int);
    if count > 0 {
        lemma_kids(a, n);
        lemma_kids_distinct(a, n);
        let kid = a.kids(n)[count - 1];
        assert(a.has(a.kids(n)[count - 1]));
        let rest = a.kids(n).take(count - 1);
        assert(starts.drop_last() == rest);
        assert(starts.last() == kid);
        lemma_walk_distinct(a, kid);
        lemma_walk_all_distinct(a, n, (count - 1) as nat);
        let s = a.walk(kid);
        let t = a.walk_all(rest);
        assert forall|x: LedgerNode| !(s.contains(x) && #[trigger] t.contains(x)) by {
            if s.contains(x) && t.contains(x) {
                lemma_walk_all_contains(a, rest, x);
                let k = choose|k: int|
                    0 <= k < rest.len() && a.walk(#[trigger] rest[k]).contains(x);
                assert(rest[k] == a.kids(n)[k]);
                assert(a.has(a.kids(n)[k]));
                lemma_linked(a, x, kid);
                lemma_linked(a, x, rest[k]);
                lemma_one_branch(a, x, kid, rest[k], n);
            }
        }
        lemma_distinct_concat(s, t);
    }
}

} // verus!
