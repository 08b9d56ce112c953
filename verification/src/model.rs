//! The mathematical model of nodes and arenas, and what the operations on them keep.
use vstd::prelude::*;
use crate::maps::{Entries, distinct_keys, has_key, lookup, nodes_of, without_key};
use crate::node::LedgerNode;
use crate::uid::Uid;

verus! {

/// The mathematical model of a node.
#[verifier::ext_equal]
pub struct NodeView {
    /// The node this one follows; roots follow none.
    pub parent: Option<LedgerNode>,
    /// The sequence number of the node, once it is resolved.
    pub seq_no: Option<u32>,
    pub event: u32,
    /// The sequence number that all children of the node have, once it is handed out.
    pub next_seq_no: Option<u32>,
    pub children: Entries,
}

/// The mathematical model of a [`NodeArena`].
#[verifier::ext_equal]
pub struct ArenaView {
    pub nodes: Seq<NodeView>,
    pub next_avail_seq_no: u32,
}

impl NodeView {
    pub open spec fn with_children(self, children: Entries) -> NodeView {
        NodeView { children, ..self }
    }

    pub open spec fn with_seq_no(self, seq_no: u32) -> NodeView {
        NodeView { seq_no: Some(seq_no), ..self }
    }

    pub open spec fn with_next_seq_no(self, next_seq_no: u32) -> NodeView {
        NodeView { next_seq_no: Some(next_seq_no), ..self }
    }

    pub open spec fn uid(self) -> Option<Uid> {
        match self.seq_no {
            Some(seq_id) => Some(Uid { seq_id, event: self.event }),
            None => None,
        }
    }

    pub open spec fn is_leaf(self) -> bool {
        self.children.len() == 0
    }
}

impl ArenaView {
    pub open spec fn has(self, n: LedgerNode) -> bool {
        n.index < self.nodes.len()
    }

    pub open spec fn at(self, n: LedgerNode) -> NodeView {
        self.nodes[n.index as int]
    }

    pub open spec fn set(self, n: LedgerNode, node: NodeView) -> ArenaView {
        ArenaView { nodes: self.nodes.update(n.index as int, node), ..self }
    }

    /// The handle that the next new node gets.
    pub open spec fn fresh(self) -> LedgerNode {
        LedgerNode { index: self.nodes.len() as usize }
    }

    pub open spec fn push(self, node: NodeView) -> ArenaView {
        ArenaView { nodes: self.nodes.push(node), ..self }
    }

    pub open spec fn kids(self, n: LedgerNode) -> Seq<LedgerNode> {
        nodes_of(self.at(n).children)
    }

    /// An entry of the children of `n` leads to a younger node that knows `n` as its parent and
    /// has the entry's key as its event.
    pub open spec fn entry_wf(self, n: LedgerNode, entry: (u32, LedgerNode)) -> bool {
        &&& n.index < entry.1.index
        &&& self.has(entry.1)
        &&& self.at(entry.1).parent == Some(n)
        &&& self.at(entry.1).event == entry.0
    }

    pub open spec fn links_wf(self, n: LedgerNode) -> bool {
        &&& self.at(n).parent matches Some(p) ==> p.index < n.index
        &&& distinct_keys(self.at(n).children)
        &&& forall|k: int| 0 <= k < self.at(n).children.len() ==> self.entry_wf(
            n,
            #[trigger] self.at(n).children[k],
        )
    }

    /// A node has the sequence number that its parent hands out, and hands one out itself only
    /// once it has its own. Roots have none.
    pub open spec fn numbers_wf(self, n: LedgerNode) -> bool {
        &&& self.at(n).seq_no matches Some(s) ==> {
            &&& self.at(n).parent matches Some(p)
            &&& self.at(p).next_seq_no == Some(s)
        }
        &&& self.at(n).next_seq_no is Some ==> self.at(n).parent is None || self.at(
            n,
        ).seq_no is Some
    }

    pub open spec fn wf(self) -> bool {
        &&& self.nodes.len() <= usize::MAX
        &&& forall|n: LedgerNode| #[trigger]
            self.has(n) ==> self.links_wf(n) && self.numbers_wf(n)
    }

    /// The arena after a root was added.
    pub open spec fn with_root(self) -> ArenaView {
        self.push(
            NodeView {
                parent: None,
                seq_no: None,
                event: 0,
                next_seq_no: None,
                children: Entries::empty(),
            },
        )
    }

    /// The arena after a node that follows `parent` was added, before `parent` knows of it.
    pub open spec fn with_node(self, parent: LedgerNode, event: u32) -> ArenaView {
        self.push(
            NodeView {
                parent: Some(parent),
                seq_no: self.at(parent).next_seq_no,
                event,
                next_seq_no: None,
                children: Entries::empty(),
            },
        )
    }

    pub open spec fn child(self, n: LedgerNode, event: u32) -> Option<LedgerNode> {
        lookup(self.at(n).children, event)
    }

    /// The arena after `event` was recorded as a follow-up of `n`.
    pub open spec fn inserted(self, n: LedgerNode, event: u32) -> ArenaView {
        if self.child(n, event) is Some {
            self
        } else {
            self.with_node(n, event).set(
                n,
                self.at(n).with_children(self.at(n).children.push((event, self.fresh()))),
            )
        }
    }

    /// The node that stands for `event` as a follow-up of `n` in `self.inserted(n, event)`.
    pub open spec fn insert_result(self, n: LedgerNode, event: u32) -> LedgerNode {
        match self.child(n, event) {
            Some(c) => c,
            None => self.fresh(),
        }
    }

    /// The arena after `n` was given the number for its children, unless it had one.
    pub open spec fn numbered(self, n: LedgerNode) -> ArenaView {
        if self.at(n).next_seq_no is Some {
            self
        } else {
            ArenaView {
                nodes: self.nodes.update(
                    n.index as int,
                    self.at(n).with_next_seq_no(self.next_avail_seq_no),
                ),
                next_avail_seq_no: self.next_avail_seq_no.wrapping_add(1),
            }
        }
    }

    /// The arena after `n` and its unresolved ancestors were resolved, oldest first, and each of
    /// them, as well as the ancestor they start from, was given a number for its children.
    pub open spec fn settled(self, n: LedgerNode) -> ArenaView
        decreases n.index,
    {
        match self.at(n).parent {
            Some(p) if self.at(n).seq_no is None && p.index < n.index => {
                let upper = self.settled(p);
                let number = upper.at(p).next_seq_no.unwrap();
                upper.set(n, upper.at(n).with_seq_no(number)).numbered(n)
            },
            _ => self.numbered(n),
        }
    }

    /// Going up from `bottom` along parents passes the unresolved nodes of `path`, in order, and
    /// then comes to `top`.
    pub open spec fn unresolved_path(
        self,
        bottom: LedgerNode,
        path: Seq<LedgerNode>,
        top: LedgerNode,
    ) -> bool
        decreases path.len(),
    {
        if path.len() == 0 {
            bottom == top
        } else {
            &&& self.has(path.last())
            &&& self.at(path.last()).seq_no is None
            &&& self.at(path.last()).parent == Some(top)
            &&& self.unresolved_path(bottom, path.drop_last(), path.last())
        }
    }

    /// The arena after `n` was resolved.
    pub open spec fn resolved_node(self, n: LedgerNode) -> ArenaView {
        if self.at(n).seq_no is Some {
            self
        } else {
            self.settled(n)
        }
    }

    /// The identifiers of the resolved nodes on the way to `n`, oldest first, up to and
    /// including `n`.
    pub open spec fn chain(self, n: LedgerNode) -> Seq<Uid>
        decreases n.index,
    {
        let own = self.at(n).uid().unwrap();
        match self.at(n).parent {
            Some(p) if self.at(p).seq_no is Some && p.index < n.index => self.chain(p).push(own),
            _ => seq![own],
        }
    }

    /// The events on the way from the root to `n`, without that of the root.
    pub open spec fn path_events(self, n: LedgerNode) -> Seq<u32>
        decreases n.index,
    {
        match self.at(n).parent {
            Some(p) if p.index < n.index => self.path_events(p).push(self.at(n).event),
            _ => Seq::empty(),
        }
    }

    /// The arena after the entry under `event` was taken from `n`, and `n` in turn from its
    /// parent where that left it without children, and so on upwards. A node without such an
    /// entry is treated alike: it goes on upwards where the node has no children.
    pub open spec fn detached(self, n: LedgerNode, event: u32) -> ArenaView
        decreases n.index,
    {
        let rest = without_key(self.at(n).children, event);
        let next = self.set(n, self.at(n).with_children(rest));
        match self.at(n).parent {
            Some(p) if rest.len() == 0 && p.index < n.index => next.detached(p, self.at(n).event),
            _ => next,
        }
    }

    /// The arena after `n` was cut off from its children and from its tree.
    pub open spec fn pruned(self, n: LedgerNode) -> ArenaView {
        self.set(n, self.at(n).with_children(Entries::empty())).detached(
            self.at(n).parent.unwrap(),
            self.at(n).event,
        )
    }
}

/// How often `e` occurs in `s`.
pub open spec fn occurrences(s: Seq<u32>, e: u32) -> nat
    decreases s.len(),
{
    if s.len() == 0 {
        0
    } else {
        occurrences(s.drop_first(), e) + if s[0] == e {
            1nat
        } else {
            0
        }
    }
}

/// How often each event of `s` occurs in it.
pub open spec fn tally(s: Seq<u32>) -> Map<u32, usize> {
    Map::new(|e: u32| s.contains(e), |e: u32| occurrences(s, e) as usize)
}

pub proof fn lemma_occurrences(s: Seq<u32>, e: u32)
    ensures
        occurrences(s, e) <= s.len(),
        s.contains(e) <==> occurrences(s, e) > 0,
    decreases s.len(),
{
    if s.len() > 0 {
        let rest = s.drop_first();
        lemma_occurrences(rest, e);
        if s.contains(e) && s[0] != e {
            let i = choose|i: int| 0 <= i < s.len() && s[i] == e;
            assert(rest[i - 1] == e);
        }
        if rest.contains(e) {
            let i = choose|i: int| 0 <= i < rest.len() && rest[i] == e;
            assert(s[i + 1] == e);
        }
    }
}

/// Both arenas hold the same trees; they may differ in the numbers of the nodes.
pub open spec fn same_shape(a: ArenaView, b: ArenaView) -> bool {
    &&& a.nodes.len() == b.nodes.len()
    &&& forall|n: LedgerNode| #[trigger]
        a.has(n) ==> {
            &&& a.at(n).parent == b.at(n).parent
            &&& a.at(n).event == b.at(n).event
            &&& a.at(n).children == b.at(n).children
        }
}

/// The numbers that nodes of `a` have, they still have in `b`.
pub open spec fn keeps_numbers(a: ArenaView, b: ArenaView) -> bool {
    forall|n: LedgerNode| #[trigger]
        a.has(n) ==> {
            &&& a.at(n).seq_no is Some ==> b.at(n).seq_no == a.at(n).seq_no
            &&& a.at(n).next_seq_no is Some ==> b.at(n).next_seq_no == a.at(n).next_seq_no
        }
}

/// The nodes of both arenas differ in nothing but their children.
pub open spec fn same_nodes(a: ArenaView, b: ArenaView) -> bool {
    &&& a.nodes.len() == b.nodes.len()
    &&& a.next_avail_seq_no == b.next_avail_seq_no
    &&& forall|n: LedgerNode| #[trigger]
        a.has(n) ==> b.at(n) == a.at(n).with_children(b.at(n).children)
}

pub proof fn lemma_with_root_wf(a: ArenaView)
    requires
        a.wf(),
        a.nodes.len() < usize::MAX,
    ensures
        a.with_root().wf(),
{
    let b = a.with_root();
    assert forall|n: LedgerNode| #[trigger] b.has(n) implies b.links_wf(n) && b.numbers_wf(n) by {
        if a.has(n) {
            assert(b.at(n) == a.at(n));
            assert(a.links_wf(n) && a.numbers_wf(n));
            assert forall|k: int| 0 <= k < b.at(n).children.len() implies b.entry_wf(
                n,
                #[trigger] b.at(n).children[k],
            ) by {
                assert(a.entry_wf(n, a.at(n).children[k]));
            }
        }
    }
}

pub proof fn lemma_with_node_wf(a: ArenaView, parent: LedgerNode, event: u32)
    requires
        a.wf(),
        a.has(parent),
        a.nodes.len() < usize::MAX,
    ensures
        a.with_node(parent, event).wf(),
{
    let b = a.with_node(parent, event);
    assert(b.at(parent) == a.at(parent));
    assert forall|n: LedgerNode| #[trigger] b.has(n) implies b.links_wf(n) && b.numbers_wf(n) by {
        if a.has(n) {
            assert(b.at(n) == a.at(n));
            assert(a.links_wf(n) && a.numbers_wf(n));
            assert forall|k: int| 0 <= k < b.at(n).children.len() implies b.entry_wf(
                n,
                #[trigger] b.at(n).children[k],
            ) by {
                assert(a.entry_wf(n, a.at(n).children[k]));
            }
        }
    }
}

pub proof fn lemma_inserted_wf(a: ArenaView, parent: LedgerNode, event: u32)
    requires
        a.wf(),
        a.has(parent),
        a.nodes.len() < usize::MAX,
    ensures
        a.inserted(parent, event).wf(),
        a.inserted(parent, event).has(a.insert_result(parent, event)),
        a.inserted(parent, event).child(parent, event) == Some(a.insert_result(parent, event)),
{
    let b = a.inserted(parent, event);
    let c = a.insert_result(parent, event);
    assert(a.links_wf(parent));
    if a.child(parent, event) is Some {
        let k = crate::maps::key_index(a.at(parent).children, event);
        assert(a.entry_wf(parent, a.at(parent).children[k]));
    } else {
        let mid = a.with_node(parent, event);
        lemma_with_node_wf(a, parent, event);
        assert(mid.at(parent) == a.at(parent));
        assert forall|n: LedgerNode| #[trigger] b.has(n) implies b.links_wf(n) && b.numbers_wf(
            n,
        ) by {
            assert(mid.has(n));
            assert(mid.links_wf(n) && mid.numbers_wf(n));
            assert forall|k: int| 0 <= k < b.at(n).children.len() implies b.entry_wf(
                n,
                #[trigger] b.at(n).children[k],
            ) by {
                if k < mid.at(n).children.len() {
                    assert(mid.entry_wf(n, mid.at(n).children[k]));
                }
            }
        }
        crate::maps::lemma_lookup_entry(
            b.at(parent).children,
            b.at(parent).children.len() - 1,
        );
    }
}

/// A node without a child under `event` gets a new one.
pub proof fn lemma_inserted_fresh(a: ArenaView, n: LedgerNode, event: u32)
    requires
        a.wf(),
        a.has(n),
        a.child(n, event) is None,
    ensures
        a.insert_result(n, event) == a.fresh(),
        a.inserted(n, event).nodes.len() == a.nodes.len() + 1,
        a.inserted(n, event).next_avail_seq_no == a.next_avail_seq_no,
        a.inserted(n, event).at(a.fresh()) == (NodeView {
            parent: Some(n),
            seq_no: a.at(n).next_seq_no,
            event,
            next_seq_no: None,
            children: Entries::empty(),
        }),
        a.inserted(n, event).at(n) == a.at(n).with_children(
            a.at(n).children.push((event, a.fresh())),
        ),
        a.inserted(n, event).kids(n) == a.kids(n).push(a.fresh()),
        forall|m: LedgerNode| #[trigger]
            a.has(m) && m != n ==> a.inserted(n, event).at(m) == a.at(m),
{
    assert(a.inserted(n, event).kids(n) =~= a.kids(n).push(a.fresh()));
}

/// A number for children can be set where none was handed out yet.
pub proof fn lemma_with_next_seq_no(a: ArenaView, n: LedgerNode, number: u32)
    requires
        a.wf(),
        a.has(n),
        a.at(n).next_seq_no is None,
        a.at(n).parent is None || a.at(n).seq_no is Some,
    ensures
        a.set(n, a.at(n).with_next_seq_no(number)).wf(),
{
    let b = a.set(n, a.at(n).with_next_seq_no(number));
    assert forall|m: LedgerNode| #[trigger] b.has(m) implies b.links_wf(m) && b.numbers_wf(m) by {
        assert(a.has(m));
        assert(a.links_wf(m) && a.numbers_wf(m));
        assert forall|k: int| 0 <= k < b.at(m).children.len() implies b.entry_wf(
            m,
            #[trigger] b.at(m).children[k],
        ) by {
            assert(a.entry_wf(m, a.at(m).children[k]));
        }
    }
}

/// Numbers for children can be handed out by roots and by nodes that are resolved.
pub proof fn lemma_numbered(a: ArenaView, n: LedgerNode)
    requires
        a.wf(),
        a.has(n),
        a.at(n).parent is None || a.at(n).seq_no is Some,
    ensures
        a.numbered(n).wf(),
        same_shape(a, a.numbered(n)),
        keeps_numbers(a, a.numbered(n)),
        a.numbered(n).at(n).next_seq_no is Some,
        forall|m: LedgerNode| #![auto] a.has(m) && m != n ==> a.numbered(n).at(m) == a.at(m),
        a.numbered(n).at(n).seq_no == a.at(n).seq_no,
{
    let b = a.numbered(n);
    assert forall|m: LedgerNode| #[trigger] b.has(m) implies b.links_wf(m) && b.numbers_wf(m) by {
        assert(a.has(m));
        assert(a.links_wf(m) && a.numbers_wf(m));
        assert forall|k: int| 0 <= k < b.at(m).children.len() implies b.entry_wf(
            m,
            #[trigger] b.at(m).children[k],
        ) by {
            assert(a.entry_wf(m, a.at(m).children[k]));
        }
    }
}

/// An unresolved node can take the number that its parent hands out.
pub proof fn lemma_take_seq_no(a: ArenaView, n: LedgerNode, p: LedgerNode, number: u32)
    requires
        a.wf(),
        a.has(n),
        a.at(n).parent == Some(p),
        a.at(n).seq_no is None || a.at(n).seq_no == Some(number),
        a.at(p).next_seq_no == Some(number),
    ensures
        a.set(n, a.at(n).with_seq_no(number)).wf(),
        same_shape(a, a.set(n, a.at(n).with_seq_no(number))),
        keeps_numbers(a, a.set(n, a.at(n).with_seq_no(number))),
{
    let b = a.set(n, a.at(n).with_seq_no(number));
    assert(a.links_wf(n) && a.numbers_wf(n));
    assert forall|m: LedgerNode| #[trigger] b.has(m) implies b.links_wf(m) && b.numbers_wf(m) by {
        assert(a.has(m));
        assert(a.links_wf(m) && a.numbers_wf(m));
        assert forall|k: int| 0 <= k < b.at(m).children.len() implies b.entry_wf(
            m,
            #[trigger] b.at(m).children[k],
        ) by {
            assert(a.entry_wf(m, a.at(m).children[k]));
        }
    }
}

pub proof fn lemma_settled(a: ArenaView, n: LedgerNode)
    requires
        a.wf(),
        a.has(n),
    ensures
        a.settled(n).wf(),
        same_shape(a, a.settled(n)),
        keeps_numbers(a, a.settled(n)),
        a.settled(n).at(n).next_seq_no is Some,
        a.at(n).parent is Some ==> a.settled(n).at(n).seq_no is Some,
        forall|m: LedgerNode|
            #![trigger a.settled(n).at(m)]
            a.has(m) && m.index > n.index ==> a.settled(n).at(m) == a.at(m),
    decreases n.index,
{
    assert(a.links_wf(n) && a.numbers_wf(n));
    match a.at(n).parent {
        Some(p) if a.at(n).seq_no is None => {
            assert(a.has(p));
            lemma_settled(a, p);
            let upper = a.settled(p);
            let number = upper.at(p).next_seq_no.unwrap();
            assert(upper.has(n));
            assert(upper.at(n) == a.at(n));
            lemma_take_seq_no(upper, n, p, number);
            lemma_numbered(upper.set(n, upper.at(n).with_seq_no(number)), n);
        },
        _ => {
            lemma_numbered(a, n);
        },
    }
}

pub proof fn lemma_without_key(s: Entries, key: u32)
    requires
        distinct_keys(s),
    ensures
        distinct_keys(without_key(s, key)),
        !has_key(without_key(s, key), key),
        forall|k: int|
            0 <= k < without_key(s, key).len() ==> s.contains(#[trigger] without_key(s, key)[k]),
        without_key(s, key).len() <= s.len(),
{
    let t = without_key(s, key);
    if has_key(s, key) {
        let j = crate::maps::key_index(s, key);
        assert forall|k: int| 0 <= k < t.len() implies s.contains(#[trigger] t[k]) && t[k].0
            != key by {
            if k < j {
                assert(t[k] == s[k]);
            } else {
                assert(t[k] == s[k + 1]);
            }
        }
    } else {
        assert forall|k: int| 0 <= k < t.len() implies s.contains(#[trigger] t[k]) by {
            assert(t[k] == s[k]);
        }
    }
}

/// A node may lose any of its children.
pub proof fn lemma_fewer_children(a: ArenaView, n: LedgerNode, children: Entries)
    requires
        a.wf(),
        a.has(n),
        distinct_keys(children),
        forall|k: int|
            0 <= k < children.len() ==> a.at(n).children.contains(#[trigger] children[k]),
    ensures
        a.set(n, a.at(n).with_children(children)).wf(),
{
    let b = a.set(n, a.at(n).with_children(children));
    assert forall|m: LedgerNode| #[trigger] b.has(m) implies b.links_wf(m) && b.numbers_wf(m) by {
        assert(a.has(m));
        assert(a.links_wf(m) && a.numbers_wf(m));
        assert forall|k: int| 0 <= k < b.at(m).children.len() implies b.entry_wf(
            m,
            #[trigger] b.at(m).children[k],
        ) by {
            if m == n {
                let j = choose|j: int|
                    0 <= j < a.at(n).children.len() && a.at(n).children[j] == children[k];
                assert(a.entry_wf(m, a.at(m).children[j]));
            } else {
                assert(a.entry_wf(m, a.at(m).children[k]));
            }
        }
    }
}

} // verus!
