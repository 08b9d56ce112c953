//! Drawings of event chains, in the DOT language of Graphviz.
use std::collections::{HashMap, HashSet};
use vstd::prelude::*;
use vstd::string::*;
use crate::laws::{chain_of_ancestor, chain_prefix};
use crate::node::LedgerNode;
use crate::numbering::{node_has_uid, uid_leads_to_node};
use crate::reach::{lemma_contains_concat, lemma_distinct_concat};
use crate::text::{
    decimal, escape_bars, hex, push_decimal, push_escaped, push_hex, separate_with_commas,
    with_commas,
};
use crate::tree::{LedgerTree, TreeView};
use crate::uid::{Uid, uid_code, uid_code_is_injective};

verus! {

/// `label` gives a text for every event, and always the same.
pub open spec fn labels_events<F: Fn(u32) -> String>(label: F) -> bool {
    &&& forall|event: u32| #[trigger] call_requires(label, (event,))
    &&& forall|event: u32, s: String, t: String| #[trigger]
        call_ensures(label, (event,), s) && #[trigger] call_ensures(label, (event,), t) ==> s@ == t@
}

pub open spec fn has_label<F: Fn(u32) -> String>(label: F, event: u32) -> bool {
    exists|s: String| call_ensures(label, (event,), s)
}

/// The text that `label` gives for an event.
pub open spec fn label_text<F: Fn(u32) -> String>(label: F, event: u32) -> Seq<char> {
    (choose|s: String| call_ensures(label, (event,), s))@
}

/// The text that `label` gives for each event.
pub open spec fn label_texts<F: Fn(u32) -> String>(label: F) -> spec_fn(u32) -> Seq<char> {
    |event: u32| label_text(label, event)
}

pub open spec fn count_of(freq: Map<u64, usize>, uid: Uid) -> Option<usize> {
    freq.get(uid_code(uid))
}

/// The line that draws an event: its sequence number, its label and, where it is known, how
/// often it was counted.
pub open spec fn node_line(uid: Uid, label: Seq<char>, count: Option<usize>) -> Seq<char> {
    "  n"@ + hex(uid_code(uid) as nat, 16) + " [label=\"{<l>"@ + decimal(uid.seq_id as nat)
        + match count {
        Some(n) => "|"@ + escape_bars(label) + "|<r>cnt("@ + with_commas(n as nat) + ")}\"];\n"@,
        None => "|<r>"@ + escape_bars(label) + "}\"];\n"@,
    }
}

/// The line that draws that one event led to another.
pub open spec fn pair_line(pair: (Uid, Uid)) -> Seq<char> {
    "  n"@ + hex(uid_code(pair.0) as nat, 16) + ":r -> n"@ + hex(uid_code(pair.1) as nat, 16)
        + ":l;\n"@
}

/// The items that are not among `seen`, each where it first occurs.
pub open spec fn fresh<A>(items: Seq<A>, seen: Set<A>) -> Seq<A>
    decreases items.len(),
{
    if items.len() == 0 {
        Seq::empty()
    } else {
        let rest = fresh(items.drop_last(), seen);
        if seen.contains(items.last()) || items.drop_last().contains(items.last()) {
            rest
        } else {
            rest.push(items.last())
        }
    }
}

pub open spec fn node_lines(
    uids: Seq<Uid>,
    freq: Map<u64, usize>,
    labels: spec_fn(u32) -> Seq<char>,
) -> Seq<char>
    decreases uids.len(),
{
    if uids.len() == 0 {
        Seq::empty()
    } else {
        node_lines(uids.drop_last(), freq, labels) + node_line(
            uids.last(),
            labels(uids.last().event),
            count_of(freq, uids.last()),
        )
    }
}

pub open spec fn pair_lines(pairs: Seq<(Uid, Uid)>) -> Seq<char>
    decreases pairs.len(),
{
    if pairs.len() == 0 {
        Seq::empty()
    } else {
        pair_lines(pairs.drop_last()) + pair_line(pairs.last())
    }
}

/// Each event of a chain with the one it led to.
pub open spec fn pairs_of(chain: Seq<Uid>) -> Seq<(Uid, Uid)> {
    Seq::new(
        if chain.len() == 0 {
            0
        } else {
            (chain.len() - 1) as nat
        },
        |k: int| (chain[k], chain[k + 1]),
    )
}

/// The events that occur in one of the chains.
pub open spec fn uids_in(chains: Seq<Seq<Uid>>) -> Set<Uid>
    decreases chains.len(),
{
    if chains.len() == 0 {
        Set::empty()
    } else {
        uids_in(chains.drop_last()).union(chains.last().to_set())
    }
}

/// The pairs of subsequent events that occur in one of the chains.
pub open spec fn pairs_in(chains: Seq<Seq<Uid>>) -> Set<(Uid, Uid)>
    decreases chains.len(),
{
    if chains.len() == 0 {
        Set::empty()
    } else {
        pairs_in(chains.drop_last()).union(pairs_of(chains.last()).to_set())
    }
}

/// The lines for all chains. An event or a pair of events that occurs more than once is drawn
/// with the first chain it occurs in.
pub open spec fn chain_lines(
    chains: Seq<Seq<Uid>>,
    freq: Map<u64, usize>,
    labels: spec_fn(u32) -> Seq<char>,
) -> Seq<char>
    decreases chains.len(),
{
    if chains.len() == 0 {
        Seq::empty()
    } else {
        let earlier = chains.drop_last();
        chain_lines(earlier, freq, labels) + node_lines(
            fresh(chains.last(), uids_in(earlier)),
            freq,
            labels,
        ) + pair_lines(fresh(pairs_of(chains.last()), pairs_in(earlier)))
    }
}

/// The drawing of a list of chains.
pub open spec fn dot_text(
    chains: Seq<Seq<Uid>>,
    freq: Map<u64, usize>,
    labels: spec_fn(u32) -> Seq<char>,
) -> Seq<char> {
    "digraph Ledger {\n  rankdir=LR;\n  node [shape=record];\n"@ + chain_lines(chains, freq, labels)
        + "}\n"@
}

impl TreeView {
    pub open spec fn chains(self, uids: Seq<Uid>) -> Seq<Seq<Uid>> {
        Seq::new(uids.len(), |k: int| self.chain(uids[k]))
    }
}

/// The code of a pair of identifiers.
spec fn pair_code(pair: (Uid, Uid)) -> u128 {
    (uid_code(pair.0) * 0x1_0000_0000_0000_0000 + uid_code(pair.1)) as u128
}

proof fn lemma_pair_code(p: (Uid, Uid), q: (Uid, Uid))
    ensures
        pair_code(p) == uid_code(p.0) * 0x1_0000_0000_0000_0000 + uid_code(p.1),
        pair_code(p) == pair_code(q) ==> p == q,
{
    assert(pair_code(p) == uid_code(p.0) * 0x1_0000_0000_0000_0000 + uid_code(p.1));
    assert(pair_code(q) == uid_code(q.0) * 0x1_0000_0000_0000_0000 + uid_code(q.1));
    uid_code_is_injective(p.0, q.0);
    uid_code_is_injective(p.1, q.1);
}

/// The set holds the codes of these identifiers, and no others.
spec fn codes_of(set: Set<u64>, uids: Set<Uid>) -> bool {
    forall|uid: Uid| uids.contains(uid) <==> set.contains(#[trigger] uid_code(uid))
}

/// The set holds the codes of these pairs, and no others.
spec fn pair_codes_of(set: Set<u128>, pairs: Set<(Uid, Uid)>) -> bool {
    forall|pair: (Uid, Uid)| pairs.contains(pair) <==> set.contains(#[trigger] pair_code(pair))
}

proof fn lemma_to_set_push<A>(s: Seq<A>, x: A)
    ensures
        s.push(x).to_set() == s.to_set().insert(x),
{
    assert forall|y: A| #[trigger] s.push(x).to_set().contains(y) <==> s.to_set().contains(y) || y
        == x by {
        if s.contains(y) {
            let i = choose|i: int| 0 <= i < s.len() && s[i] == y;
            assert(s.push(x)[i] == y);
        }
        assert(s.push(x)[s.len() as int] == x);
        if s.push(x).contains(y) && y != x {
            let i = choose|i: int| 0 <= i < s.push(x).len() && s.push(x)[i] == y;
            assert(s[i] == y);
        }
    }
    assert(s.push(x).to_set() =~= s.to_set().insert(x));
}

fn push_node<F: Fn(u32) -> String>(
    dot: &mut String,
    uid: &Uid,
    freq: &HashMap<u64, usize>,
    label: &F,
)
    requires
        labels_events(*label),
    ensures
        final(dot)@ == old(dot)@ + node_line(
            *uid,
            label_text(*label, uid.event),
            count_of(freq@, *uid),
        ),
        has_label(*label, uid.event),
{
    let ghost start = dot@;
    let text = label(uid.event);
    assert(text@ == label_text(*label, uid.event));
    dot.append("  n");
    push_hex(dot, uid.encode(), 16);
    dot.append(" [label=\"{<l>");
    push_decimal(dot, uid.seq_id as u64);
    match freq.get(&uid.encode()) {
        Some(count) => {
            dot.append("|");
            push_escaped(dot, &text);
            dot.append("|<r>cnt(");
            dot.append(separate_with_commas(*count).as_str());
            dot.append(")}\"];\n");
        },
        None => {
            dot.append("|<r>");
            push_escaped(dot, &text);
            dot.append("}\"];\n");
        },
    }
    assert(dot@ =~= start + node_line(*uid, label_text(*label, uid.event), count_of(freq@, *uid)));
}

fn push_nodes<F: Fn(u32) -> String>(
    dot: &mut String,
    chain: &Vec<Uid>,
    nodes: &mut HashSet<u64>,
    freq: &HashMap<u64, usize>,
    label: &F,
    Ghost(seen): Ghost<Set<Uid>>,
)
    requires
        labels_events(*label),
        codes_of(old(nodes)@, seen),
        forall|uid: Uid| #[trigger] seen.contains(uid) ==> has_label(*label, uid.event),
    ensures
        final(dot)@ == old(dot)@ + node_lines(fresh(chain@, seen), freq@, label_texts(*label)),
        codes_of(final(nodes)@, seen.union(chain@.to_set())),
        forall|uid: Uid| #[trigger]
            seen.union(chain@.to_set()).contains(uid) ==> has_label(*label, uid.event),
{
    let ghost start = dot@;
    let mut k: usize = 0;
    proof {
        assert(chain@.take(0) == Seq::<Uid>::empty());
        assert(seen.union(chain@.take(0).to_set()) =~= seen);
        assert(start + node_lines(fresh(chain@.take(0), seen), freq@, label_texts(*label))
            =~= start);
    }
    while k < chain.len()
        invariant
            k <= chain@.len(),
            labels_events(*label),
            dot@ == start + node_lines(
                fresh(chain@.take(k as int), seen),
                freq@,
                label_texts(*label),
            ),
            codes_of(nodes@, seen.union(chain@.take(k as int).to_set())),
            forall|uid: Uid| #[trigger]
                seen.union(chain@.take(k as int).to_set()).contains(uid) ==> has_label(
                    *label,
                    uid.event,
                ),
        decreases chain.len() - k,
    {
        let uid = chain[k];
        let ghost done = chain@.take(k as int);
        let ghost next = chain@.take(k + 1);
        proof {
            assert(next == done.push(uid));
            assert(next.drop_last() == done);
            lemma_to_set_push(done, uid);
            assert(seen.union(next.to_set()) =~= seen.union(done.to_set()).insert(uid));
            assert forall|x: Uid| #[trigger] uid_code(x) == uid_code(uid) implies x == uid by {
                uid_code_is_injective(x, uid);
            }
        }
        if !nodes.contains(&uid.encode()) {
            push_node(dot, &uid, freq, label);
            nodes.insert(uid.encode());
            proof {
                assert(!seen.union(done.to_set()).contains(uid));
                let shown = fresh(done, seen);
                assert(fresh(next, seen) == shown.push(uid));
                assert(shown.push(uid).drop_last() == shown);
                assert(dot@ =~= start + node_lines(fresh(next, seen), freq@, label_texts(*label)));
            }
        } else {
            assert(seen.union(done.to_set()).contains(uid));
            assert(seen.union(next.to_set()) =~= seen.union(done.to_set()));
        }
        k += 1;
    }
    assert(chain@.take(k as int) == chain@);
}

fn push_pairs(
    dot: &mut String,
    chain: &Vec<Uid>,
    pairs: &mut HashSet<u128>,
    Ghost(seen): Ghost<Set<(Uid, Uid)>>,
)
    requires
        pair_codes_of(old(pairs)@, seen),
    ensures
        final(dot)@ == old(dot)@ + pair_lines(fresh(pairs_of(chain@), seen)),
        pair_codes_of(final(pairs)@, seen.union(pairs_of(chain@).to_set())),
{
    let ghost start = dot@;
    let ghost all = pairs_of(chain@);
    let mut k: usize = 0;
    proof {
        assert(all.take(0) == Seq::<(Uid, Uid)>::empty());
        assert(seen.union(all.take(0).to_set()) =~= seen);
        assert(start + pair_lines(fresh(all.take(0), seen)) =~= start);
    }
    while chain.len() - k > 1
        invariant
            k <= all.len(),
            all == pairs_of(chain@),
            dot@ == start + pair_lines(fresh(all.take(k as int), seen)),
            pair_codes_of(pairs@, seen.union(all.take(k as int).to_set())),
        decreases chain.len() - k,
    {
        let from = chain[k];
        let to = chain[k + 1];
        let ghost pair = (from, to);
        let ghost done = all.take(k as int);
        let ghost next = all.take(k + 1);
        proof {
            assert(all[k as int] == pair);
            assert(next == done.push(pair));
            assert(next.drop_last() == done);
            lemma_to_set_push(done, pair);
            assert(seen.union(next.to_set()) =~= seen.union(done.to_set()).insert(pair));
            lemma_pair_code(pair, pair);
            assert forall|x: (Uid, Uid)| #[trigger] pair_code(x) == pair_code(pair) implies x
                == pair by {
                lemma_pair_code(x, pair);
            }
        }
        let code = from.encode() as u128 * 0x1_0000_0000_0000_0000u128 + to.encode() as u128;
        if !pairs.contains(&code) {
            dot.append("  n");
            push_hex(dot, from.encode(), 16);
            dot.append(":r -> n");
            push_hex(dot, to.encode(), 16);
            dot.append(":l;\n");
            pairs.insert(code);
            proof {
                assert(!seen.union(done.to_set()).contains(pair));
                let shown = fresh(done, seen);
                assert(fresh(next, seen) == shown.push(pair));
                assert(shown.push(pair).drop_last() == shown);
                assert(dot@ =~= start + pair_lines(fresh(next, seen)));
            }
        } else {
            assert(seen.union(done.to_set()).contains(pair));
            assert(seen.union(next.to_set()) =~= seen.union(done.to_set()));
        }
        k += 1;
    }
    assert(all.take(k as int) == all);
}

impl LedgerTree {
    /// Draws the chains that end in `uids`. The label of an event is what `label` gives for its
    /// code.
    pub fn emit_dot<F: Fn(u32) -> String>(&self, uids: &Vec<Uid>, label: F) -> (dot: String)
        requires
            self.wf(),
            forall|k: int| 0 <= k < uids@.len() ==> self@.has_chain(#[trigger] uids@[k]),
            labels_events(label),
        ensures
            dot@ == dot_text(self@.chains(uids@), Map::empty(), label_texts(label)),
            forall|uid: Uid| #[trigger]
                uids_in(self@.chains(uids@)).contains(uid) ==> has_label(label, uid.event),
    {
        let freq: HashMap<u64, usize> = HashMap::new();
        self.emit_dot_with_freq(uids, &freq, label)
    }

    /// Draws the chains that end in `uids`, and shows at each event how often it was counted,
    /// where `freq_dict` has a count under the code of its identifier.
    pub fn emit_dot_with_freq<F: Fn(u32) -> String>(
        &self,
        uids: &Vec<Uid>,
        freq_dict: &HashMap<u64, usize>,
        label: F,
    ) -> (dot: String)
        requires
            self.wf(),
            forall|k: int| 0 <= k < uids@.len() ==> self@.has_chain(#[trigger] uids@[k]),
            labels_events(label),
        ensures
            dot@ == dot_text(self@.chains(uids@), freq_dict@, label_texts(label)),
            forall|uid: Uid| #[trigger]
                uids_in(self@.chains(uids@)).contains(uid) ==> has_label(label, uid.event),
    {
        let ghost all = self@.chains(uids@);
        let mut dot = String::from_str(
            "digraph Ledger {\n  rankdir=LR;\n  node [shape=record];\n",
        );
        let ghost head = dot@;
        let mut nodes: HashSet<u64> = HashSet::new();
        let mut pairs: HashSet<u128> = HashSet::new();
        let mut k: usize = 0;
        proof {
            assert(all.take(0) == Seq::<Seq<Uid>>::empty());
            assert(head + chain_lines(all.take(0), freq_dict@, label_texts(label)) =~= head);
        }
        while k < uids.len()
            invariant
                k <= uids@.len(),
                self.wf(),
                forall|k: int| 0 <= k < uids@.len() ==> self@.has_chain(#[trigger] uids@[k]),
                labels_events(label),
                all == self@.chains(uids@),
                dot@ == head + chain_lines(all.take(k as int), freq_dict@, label_texts(label)),
                codes_of(nodes@, uids_in(all.take(k as int))),
                pair_codes_of(pairs@, pairs_in(all.take(k as int))),
                forall|uid: Uid| #[trigger]
                    uids_in(all.take(k as int)).contains(uid) ==> has_label(label, uid.event),
            decreases uids.len() - k,
        {
            let ghost before = dot@;
            let ghost earlier = all.take(k as int);
            let ghost next = all.take(k + 1);
            assert(self@.has_chain(uids@[k as int]));
            let chain = self.get_chain(&uids[k]);
            proof {
                assert(next.drop_last() == earlier);
                assert(next.last() == chain@);
            }
            push_nodes(&mut dot, &chain, &mut nodes, freq_dict, &label, Ghost(uids_in(earlier)));
            push_pairs(&mut dot, &chain, &mut pairs, Ghost(pairs_in(earlier)));
            assert(dot@ =~= head + chain_lines(next, freq_dict@, label_texts(label)));
            k += 1;
        }
        assert(all.take(k as int) == all);
        dot.append("}\n");
        dot
    }
}

/// The events that a drawing of the chains shows, in order.
pub open spec fn drawn_uids(chains: Seq<Seq<Uid>>) -> Seq<Uid>
    decreases chains.len(),
{
    if chains.len() == 0 {
        Seq::empty()
    } else {
        drawn_uids(chains.drop_last()) + fresh(chains.last(), uids_in(chains.drop_last()))
    }
}

/// The pairs of subsequent events that a drawing of the chains shows, in order.
pub open spec fn drawn_pairs(chains: Seq<Seq<Uid>>) -> Seq<(Uid, Uid)>
    decreases chains.len(),
{
    if chains.len() == 0 {
        Seq::empty()
    } else {
        drawn_pairs(chains.drop_last()) + fresh(
            pairs_of(chains.last()),
            pairs_in(chains.drop_last()),
        )
    }
}

pub proof fn lemma_fresh<A>(items: Seq<A>, seen: Set<A>)
    ensures
        fresh(items, seen).no_duplicates(),
        forall|x: A| #[trigger]
            fresh(items, seen).contains(x) <==> items.contains(x) && !seen.contains(x),
    decreases items.len(),
{
    let new = fresh(items, seen);
    if items.len() > 0 {
        let rest = items.drop_last();
        let last = items.last();
        lemma_fresh(rest, seen);
        assert(items == rest + seq![last]);
        assert(seq![last][0] == last);
        if !(seen.contains(last) || rest.contains(last)) {
            assert(new == fresh(rest, seen) + seq![last]);
            assert forall|x: A| !(fresh(rest, seen).contains(x) && #[trigger] seq![last].contains(
                x,
            )) by {}
            lemma_distinct_concat(fresh(rest, seen), seq![last]);
        }
        assert forall|x: A| #[trigger] new.contains(x) <==> items.contains(x) && !seen.contains(
            x,
        ) by {
            lemma_contains_concat(rest, seq![last], x);
            lemma_contains_concat(fresh(rest, seen), seq![last], x);
        }
    }
}

/// Every event of the chains is drawn once, and so is every pair of events that follow each
/// other.
pub proof fn drawn_once(chains: Seq<Seq<Uid>>)
    ensures
        drawn_uids(chains).no_duplicates(),
        drawn_uids(chains).to_set() == uids_in(chains),
        drawn_pairs(chains).no_duplicates(),
        drawn_pairs(chains).to_set() == pairs_in(chains),
    decreases chains.len(),
{
    if chains.len() > 0 {
        let earlier = chains.drop_last();
        drawn_once(earlier);
        let new = fresh(chains.last(), uids_in(earlier));
        lemma_fresh(chains.last(), uids_in(earlier));
        assert forall|x: Uid| !(drawn_uids(earlier).contains(x) && #[trigger] new.contains(x)) by {
            assert(drawn_uids(earlier).to_set().contains(x) <==> drawn_uids(earlier).contains(x));
        }
        lemma_distinct_concat(drawn_uids(earlier), new);
        assert forall|x: Uid| #[trigger] drawn_uids(chains).to_set().contains(x) <==> uids_in(
            chains,
        ).contains(x) by {
            lemma_contains_concat(drawn_uids(earlier), new, x);
            assert(drawn_uids(earlier).to_set().contains(x) <==> drawn_uids(earlier).contains(x));
            assert(new.contains(x) <==> chains.last().contains(x) && !uids_in(earlier).contains(x));
        }
        assert(drawn_uids(chains).to_set() =~= uids_in(chains));
        let pairs = pairs_of(chains.last());
        let new_pairs = fresh(pairs, pairs_in(earlier));
        lemma_fresh(pairs, pairs_in(earlier));
        assert forall|x: (Uid, Uid)| !(drawn_pairs(earlier).contains(x)
            && #[trigger] new_pairs.contains(x)) by {
            assert(drawn_pairs(earlier).to_set().contains(x) <==> drawn_pairs(earlier).contains(x));
        }
        lemma_distinct_concat(drawn_pairs(earlier), new_pairs);
        assert forall|x: (Uid, Uid)| #[trigger]
            drawn_pairs(chains).to_set().contains(x) <==> pairs_in(chains).contains(x) by {
            lemma_contains_concat(drawn_pairs(earlier), new_pairs, x);
            assert(drawn_pairs(earlier).to_set().contains(x) <==> drawn_pairs(earlier).contains(x));
            assert(new_pairs.contains(x) <==> pairs.contains(x) && !pairs_in(earlier).contains(x));
        }
        assert(drawn_pairs(chains).to_set() =~= pairs_in(chains));
    } else {
        assert(drawn_uids(chains).to_set() =~= uids_in(chains));
        assert(drawn_pairs(chains).to_set() =~= pairs_in(chains));
    }
}

proof fn lemma_chains_have(chains: Seq<Seq<Uid>>, k: int)
    requires
        0 <= k < chains.len(),
    ensures
        forall|x: Uid| #[trigger] chains[k].contains(x) ==> uids_in(chains).contains(x),
        forall|x: (Uid, Uid)| #[trigger]
            pairs_of(chains[k]).contains(x) ==> pairs_in(chains).contains(x),
    decreases chains.len(),
{
    if k < chains.len() - 1 {
        assert(chains.drop_last()[k] == chains[k]);
        lemma_chains_have(chains.drop_last(), k);
    } else {
        assert forall|x: Uid| #[trigger] chains[k].contains(x) implies uids_in(chains).contains(
            x,
        ) by {
            assert(chains.last().to_set().contains(x));
        }
        assert forall|x: (Uid, Uid)| #[trigger] pairs_of(chains[k]).contains(x) implies pairs_in(
            chains,
        ).contains(x) by {
            assert(pairs_of(chains.last()).to_set().contains(x));
        }
    }
}

/// A chain that is the beginning of another one adds nothing to a drawing that shows the other.
proof fn lemma_nothing_new(
    chains: Seq<Seq<Uid>>,
    k: int,
    part: Seq<Uid>,
    freq: Map<u64, usize>,
    labels: spec_fn(u32) -> Seq<char>,
)
    requires
        0 <= k < chains.len(),
        part.len() <= chains[k].len(),
        part == chains[k].take(part.len() as int),
    ensures
        chain_lines(chains.push(part), freq, labels) == chain_lines(chains, freq, labels),
{
    let all = chains.push(part);
    let whole = chains[k];
    let pairs = pairs_of(part);
    assert(all.drop_last() == chains);
    lemma_chains_have(chains, k);
    let new = fresh(part, uids_in(chains));
    lemma_fresh(part, uids_in(chains));
    if new.len() > 0 {
        assert(new.contains(new[0]));
        let i = choose|i: int| 0 <= i < part.len() && part[i] == new[0];
        assert(whole[i] == new[0]);
        assert(whole.contains(new[0]));
    }
    let new_pairs = fresh(pairs, pairs_in(chains));
    lemma_fresh(pairs, pairs_in(chains));
    if new_pairs.len() > 0 {
        assert(new_pairs.contains(new_pairs[0]));
        let i = choose|i: int| 0 <= i < pairs.len() && pairs[i] == new_pairs[0];
        assert(pairs_of(whole)[i] == new_pairs[0]);
        assert(pairs_of(whole).contains(new_pairs[0]));
    }
    assert(chain_lines(all, freq, labels) =~= chain_lines(chains, freq, labels));
}

impl TreeView {
    /// `v` tells an event of the tree: it leads to every event that has it as identifier.
    pub open spec fn tells_event(self, v: Uid) -> bool {
        forall|m: LedgerNode| #[trigger]
            self.is_event(m) && self.arena.at(m).uid() == Some(v) ==> self.node_of(v) == Some(m)
    }

    /// The node of `v` lies on the way to that of `u`, or is the same.
    pub open spec fn on_way(self, v: Uid, u: Uid) -> bool {
        self.node_of(v) is Some && self.node_of(u) is Some && self.arena.walk(
            self.node_of(v).unwrap(),
        ).contains(self.node_of(u).unwrap())
    }
}

/// Where an event is asked for that the tree does not know, that is asked for already, or that
/// lies on a chain that is drawn already, the drawing stays as it is. In a tree whose numbers do
/// not tell all events apart, an event lies on a chain where its identifier tells it, or where
/// what the identifier leads to is on the way.
pub proof fn nothing_drawn_twice(
    t: TreeView,
    uids: Seq<Uid>,
    v: Uid,
    freq: Map<u64, usize>,
    labels: spec_fn(u32) -> Seq<char>,
)
    requires
        t.wf(),
        forall|k: int| 0 <= k < uids.len() ==> t.has_chain(#[trigger] uids[k]),
        t.node_of(v) is None || uids.contains(v) || exists|k: int|
            0 <= k < uids.len() && t.chain(#[trigger] uids[k]).contains(v) && (t.tells_event(v)
                || t.on_way(v, uids[k])),
    ensures
        chain_lines(t.chains(uids.push(v)), freq, labels) == chain_lines(
            t.chains(uids),
            freq,
            labels,
        ),
        dot_text(t.chains(uids.push(v)), freq, labels) == dot_text(t.chains(uids), freq, labels),
{
    let chains = t.chains(uids);
    let all = t.chains(uids.push(v));
    assert(all == chains.push(t.chain(v)));
    if t.node_of(v) is None {
        assert(all.drop_last() == chains);
        assert(pairs_of(all.last()) == Seq::<(Uid, Uid)>::empty());
        assert(chain_lines(all, freq, labels) =~= chain_lines(chains, freq, labels));
    } else if uids.contains(v) {
        let k = choose|k: int| 0 <= k < uids.len() && uids[k] == v;
        assert(chains[k].take(chains[k].len() as int) == chains[k]);
        lemma_nothing_new(chains, k, t.chain(v), freq, labels);
    } else {
        let k = choose|k: int|
            0 <= k < uids.len() && t.chain(#[trigger] uids[k]).contains(v) && (t.tells_event(v)
                || t.on_way(v, uids[k]));
        assert(chains[k] == t.chain(uids[k]));
        assert(t.has_chain(uids[k]));
        node_has_uid(t, uids[k]);
        node_has_uid(t, v);
        let n = t.node_of(uids[k]).unwrap();
        if !t.on_way(v, uids[k]) {
            let i = choose|i: int| 0 <= i < chains[k].len() && chains[k][i] == v;
            chain_prefix(t, n, i);
            let m = choose|m: LedgerNode| #[trigger]
                t.is_event(m) && t.arena.at(m).uid() == Some(v) && t.arena.chain(m)
                    == chains[k].take(i + 1) && t.arena.walk(m).contains(n);
            assert(t.node_of(v) == Some(m));
        }
        chain_of_ancestor(t, t.node_of(v).unwrap(), n);
        lemma_nothing_new(chains, k, t.chain(v), freq, labels);
    }
}

/// In a tree whose numbers are all different, an event that the tree does not know, that is asked
/// for already, or that lies on a chain that is drawn already, adds nothing to a drawing.
pub proof fn nothing_drawn_twice_if_numbered(
    t: TreeView,
    uids: Seq<Uid>,
    v: Uid,
    freq: Map<u64, usize>,
    labels: spec_fn(u32) -> Seq<char>,
)
    requires
        t.wf(),
        t.arena.well_numbered(),
        forall|k: int| 0 <= k < uids.len() ==> t.has_chain(#[trigger] uids[k]),
        t.node_of(v) is None || uids.contains(v) || exists|k: int|
            0 <= k < uids.len() && t.chain(#[trigger] uids[k]).contains(v),
    ensures
        chain_lines(t.chains(uids.push(v)), freq, labels) == chain_lines(
            t.chains(uids),
            freq,
            labels,
        ),
        dot_text(t.chains(uids.push(v)), freq, labels) == dot_text(t.chains(uids), freq, labels),
{
    assert forall|m: LedgerNode| #[trigger]
        t.is_event(m) && t.arena.at(m).uid() == Some(v) implies t.node_of(v) == Some(m) by {
        uid_leads_to_node(t, m);
    }
    assert(t.tells_event(v));
    nothing_drawn_twice(t, uids, v, freq, labels);
}

} // verus!
