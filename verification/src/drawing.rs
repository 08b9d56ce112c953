//! What a drawing of chains shows.
use vstd::prelude::*;
use crate::dot::{
    chain_lines, count_of, dot_text, drawn_once, drawn_pairs, drawn_uids, fresh, has_label,
    label_text, label_texts, labels_events, lemma_fresh, node_line, node_lines, pair_line,
    pair_lines, pairs_in, pairs_of, uids_in,
};
use crate::text::{decimal, escape_bars, hex, with_commas};
use crate::tree::TreeView;
use crate::uid::{Uid, uid_code};

verus! {

/// The pairs of a chain are its neighbours: each event but the last, with the next one.
pub proof fn pairs_are_neighbours(chain: Seq<Uid>)
    ensures
        chain.len() == 0 ==> pairs_of(chain).len() == 0,
        chain.len() > 0 ==> pairs_of(chain).len() == chain.len() - 1,
        forall|k: int|
            0 <= k && k + 1 < chain.len() ==> #[trigger] pairs_of(chain)[k] == (
                chain[k],
                chain[k + 1],
            ),
{
}

/// The events of a list of chains are those that stand at some position of some chain. The pairs
/// are those of two neighbouring positions of some chain.
pub proof fn events_and_pairs_of_chains(chains: Seq<Seq<Uid>>, u: Uid, v: Uid)
    ensures
        uids_in(chains).contains(u) <==> exists|i: int, k: int|
            0 <= i < chains.len() && 0 <= k < chains[i].len() && #[trigger] chains[i][k] == u,
        pairs_in(chains).contains((u, v)) <==> exists|i: int, k: int|
            0 <= i < chains.len() && 0 <= k && k + 1 < chains[i].len() && #[trigger] chains[i][k]
                == u && chains[i][k + 1] == v,
    decreases chains.len(),
{
    if chains.len() > 0 {
        let rest = chains.drop_last();
        let last = chains.last();
        let pairs = pairs_of(last);
        events_and_pairs_of_chains(rest, u, v);
        assert(chains[chains.len() - 1] == last);
        if uids_in(rest).contains(u) {
            let (i, k) = choose|i: int, k: int|
                0 <= i < rest.len() && 0 <= k < rest[i].len() && #[trigger] rest[i][k] == u;
            assert(chains[i][k] == u);
        }
        if last.contains(u) {
            let k = choose|k: int| 0 <= k < last.len() && last[k] == u;
            assert(chains[chains.len() - 1][k] == u);
        }
        if exists|i: int, k: int|
            0 <= i < chains.len() && 0 <= k < chains[i].len() && #[trigger] chains[i][k] == u {
            let (i, k) = choose|i: int, k: int|
                0 <= i < chains.len() && 0 <= k < chains[i].len() && #[trigger] chains[i][k] == u;
            if i < rest.len() {
                assert(rest[i][k] == u);
            } else {
                assert(last[k] == u);
                assert(last.to_set().contains(u));
            }
        }
        if pairs_in(rest).contains((u, v)) {
            let (i, k) = choose|i: int, k: int|
                0 <= i < rest.len() && 0 <= k && k + 1 < rest[i].len() && #[trigger] rest[i][k]
                    == u && rest[i][k + 1] == v;
            assert(chains[i][k] == u);
        }
        if pairs.contains((u, v)) {
            let k = choose|k: int| 0 <= k < pairs.len() && pairs[k] == (u, v);
            assert(chains[chains.len() - 1][k] == u);
        }
        if exists|i: int, k: int|
            0 <= i < chains.len() && 0 <= k && k + 1 < chains[i].len() && #[trigger] chains[i][k]
                == u && chains[i][k + 1] == v {
            let (i, k) = choose|i: int, k: int|
                0 <= i < chains.len() && 0 <= k && k + 1 < chains[i].len()
                    && #[trigger] chains[i][k] == u && chains[i][k + 1] == v;
            if i < rest.len() {
                assert(rest[i][k] == u);
            } else {
                assert(pairs[k] == (u, v));
                assert(pairs.to_set().contains((u, v)));
            }
        }
    }
}

/// A drawing shows every event of every chain, and for every two neighbours of a chain that one
/// led to the other. It shows each of them once.
pub proof fn neighbours_are_drawn(chains: Seq<Seq<Uid>>, i: int, k: int)
    requires
        0 <= i < chains.len(),
        0 <= k < chains[i].len(),
    ensures
        drawn_uids(chains).contains(chains[i][k]),
        k + 1 < chains[i].len() ==> drawn_pairs(chains).contains((chains[i][k], chains[i][k + 1])),
        drawn_uids(chains).no_duplicates(),
        drawn_pairs(chains).no_duplicates(),
{
    drawn_once(chains);
    events_and_pairs_of_chains(chains, chains[i][k], chains[i][k]);
    assert(uids_in(chains).contains(chains[i][k]));
    assert(drawn_uids(chains).to_set().contains(chains[i][k]));
    if k + 1 < chains[i].len() {
        events_and_pairs_of_chains(chains, chains[i][k], chains[i][k + 1]);
        assert(drawn_pairs(chains).to_set().contains((chains[i][k], chains[i][k + 1])));
    }
}

/// What a drawing shows comes from a chain: each event stands in one, and the events of each pair
/// are neighbours in one.
pub proof fn drawn_from_chains(chains: Seq<Seq<Uid>>, u: Uid, v: Uid)
    ensures
        drawn_uids(chains).contains(u) ==> exists|i: int, k: int|
            0 <= i < chains.len() && 0 <= k < chains[i].len() && #[trigger] chains[i][k] == u,
        drawn_pairs(chains).contains((u, v)) ==> exists|i: int, k: int|
            0 <= i < chains.len() && 0 <= k && k + 1 < chains[i].len() && #[trigger] chains[i][k]
                == u && chains[i][k + 1] == v,
{
    drawn_once(chains);
    events_and_pairs_of_chains(chains, u, v);
    assert(drawn_uids(chains).contains(u) ==> drawn_uids(chains).to_set().contains(u));
    assert(drawn_pairs(chains).contains((u, v)) ==> drawn_pairs(chains).to_set().contains((u, v)));
}

/// The line of an event has the code of its identifier in hexadecimal notation, its sequence
/// number, its label with bars escaped and, where there is one, its count.
pub proof fn line_of_event(uid: Uid, label: Seq<char>, count: usize)
    ensures
        node_line(uid, label, None) == "  n"@ + hex(
            (uid.seq_id * 0x1_0000_0000 + uid.event) as nat,
            16,
        ) + " [label=\"{<l>"@ + decimal(uid.seq_id as nat) + "|<r>"@ + escape_bars(label)
            + "}\"];\n"@,
        node_line(uid, label, Some(count)) == "  n"@ + hex(
            (uid.seq_id * 0x1_0000_0000 + uid.event) as nat,
            16,
        ) + " [label=\"{<l>"@ + decimal(uid.seq_id as nat) + "|"@ + escape_bars(label)
            + "|<r>cnt("@ + with_commas(count as nat) + ")}\"];\n"@,
{
    assert(uid_code(uid) == uid.seq_id * 0x1_0000_0000 + uid.event);
    assert(node_line(uid, label, None) =~= "  n"@ + hex(
        (uid.seq_id * 0x1_0000_0000 + uid.event) as nat,
        16,
    ) + " [label=\"{<l>"@ + decimal(uid.seq_id as nat) + "|<r>"@ + escape_bars(label)
        + "}\"];\n"@);
    assert(node_line(uid, label, Some(count)) =~= "  n"@ + hex(
        (uid.seq_id * 0x1_0000_0000 + uid.event) as nat,
        16,
    ) + " [label=\"{<l>"@ + decimal(uid.seq_id as nat) + "|"@ + escape_bars(label) + "|<r>cnt("@
        + with_commas(count as nat) + ")}\"];\n"@);
}

/// The line of a pair leads from the code of the first event to that of the second.
pub proof fn line_of_pair(u: Uid, v: Uid)
    ensures
        pair_line((u, v)) == "  n"@ + hex((u.seq_id * 0x1_0000_0000 + u.event) as nat, 16)
            + ":r -> n"@ + hex((v.seq_id * 0x1_0000_0000 + v.event) as nat, 16) + ":l;\n"@,
{
    assert(uid_code(u) == u.seq_id * 0x1_0000_0000 + u.event);
    assert(uid_code(v) == v.seq_id * 0x1_0000_0000 + v.event);
}

/// Lists of events and of pairs are drawn line by line.
pub proof fn lines_follow_each_other(
    uids: Seq<Uid>,
    more: Seq<Uid>,
    pairs: Seq<(Uid, Uid)>,
    more_pairs: Seq<(Uid, Uid)>,
    freq: Map<u64, usize>,
    labels: spec_fn(u32) -> Seq<char>,
)
    ensures
        node_lines(uids + more, freq, labels) == node_lines(uids, freq, labels) + node_lines(
            more,
            freq,
            labels,
        ),
        pair_lines(pairs + more_pairs) == pair_lines(pairs) + pair_lines(more_pairs),
    decreases more.len() + more_pairs.len(),
{
    if more.len() > 0 {
        lines_follow_each_other(uids, more.drop_last(), pairs, more_pairs, freq, labels);
        assert((uids + more).drop_last() =~= uids + more.drop_last());
        assert(node_lines(uids + more, freq, labels) =~= node_lines(uids, freq, labels)
            + node_lines(more, freq, labels));
    } else {
        assert(uids + more =~= uids);
        assert(node_lines(uids, freq, labels) + node_lines(more, freq, labels) =~= node_lines(
            uids,
            freq,
            labels,
        ));
        if more_pairs.len() > 0 {
            lines_follow_each_other(uids, more, pairs, more_pairs.drop_last(), freq, labels);
            assert((pairs + more_pairs).drop_last() =~= pairs + more_pairs.drop_last());
            assert(pair_lines(pairs + more_pairs) =~= pair_lines(pairs) + pair_lines(more_pairs));
        } else {
            assert(pairs + more_pairs =~= pairs);
            assert(pair_lines(pairs) + pair_lines(more_pairs) =~= pair_lines(pairs));
        }
    }
}

/// The line of a single event is the one for its label and for the count under the code of its
/// identifier, if there is one. Nothing is drawn of nothing.
pub proof fn single_lines(
    u: Uid,
    v: Uid,
    freq: Map<u64, usize>,
    labels: spec_fn(u32) -> Seq<char>,
)
    ensures
        ({
            let code = (u.seq_id * 0x1_0000_0000 + u.event) as u64;
            node_lines(seq![u], freq, labels) == node_line(
                u,
                labels(u.event),
                if freq.contains_key(code) {
                    Some(freq[code])
                } else {
                    None
                },
            )
        }),
        pair_lines(seq![(u, v)]) == pair_line((u, v)),
        node_lines(Seq::empty(), freq, labels) == Seq::<char>::empty(),
        pair_lines(Seq::empty()) == Seq::<char>::empty(),
{
    assert(seq![u].drop_last() =~= Seq::<Uid>::empty());
    assert(seq![(u, v)].drop_last() =~= Seq::<(Uid, Uid)>::empty());
    assert(uid_code(u) == u.seq_id * 0x1_0000_0000 + u.event);
    let line = node_line(u, labels(u.event), count_of(freq, u));
    assert(node_lines(seq![u].drop_last(), freq, labels) + line =~= line);
    assert(pair_lines(seq![(u, v)].drop_last()) + pair_line((u, v)) =~= pair_line((u, v)));
}

/// `a` occurs in the list before the first place of `b`.
pub open spec fn comes_first<A>(items: Seq<A>, a: A, b: A) -> bool {
    exists|x: int|
        0 <= x < items.len() && #[trigger] items[x] == a && forall|y: int|
            0 <= y < items.len() && #[trigger] items[y] == b ==> x < y
}

/// `new` has items of a list in the order in which they first occur, none of them twice.
pub open spec fn first_occurrences<A>(items: Seq<A>, new: Seq<A>) -> bool {
    &&& new.no_duplicates()
    &&& forall|j: int, k: int|
        0 <= j < k < new.len() ==> comes_first(items, #[trigger] new[j], #[trigger] new[k])
}

/// One more chain adds to a drawing the lines of those of its events that no earlier chain has, in
/// the order of the chain, and then the lines of those of its pairs of neighbours that no earlier
/// chain has.
pub proof fn drawing_grows(
    chains: Seq<Seq<Uid>>,
    chain: Seq<Uid>,
    freq: Map<u64, usize>,
    labels: spec_fn(u32) -> Seq<char>,
) -> (new: (Seq<Uid>, Seq<(Uid, Uid)>))
    ensures
        chain_lines(chains.push(chain), freq, labels) == chain_lines(chains, freq, labels)
            + node_lines(new.0, freq, labels) + pair_lines(new.1),
        chain_lines(Seq::empty(), freq, labels) == Seq::<char>::empty(),
        first_occurrences(chain, new.0),
        first_occurrences(pairs_of(chain), new.1),
        forall|u: Uid| #[trigger]
            new.0.contains(u) <==> chain.contains(u) && forall|i: int|
                0 <= i < chains.len() ==> !(#[trigger] chains[i]).contains(u),
        forall|u: Uid, v: Uid| #[trigger]
            new.1.contains((u, v)) <==> (exists|k: int|
                0 <= k && k + 1 < chain.len() && #[trigger] chain[k] == u && chain[k + 1] == v)
                && forall|i: int, k: int|
                0 <= i < chains.len() && 0 <= k && k + 1 < chains[i].len()
                    && #[trigger] chains[i][k] == u ==> chains[i][k + 1] != v,
{
    let all = chains.push(chain);
    assert(all.drop_last() =~= chains);
    assert(all.last() == chain);
    let pairs = pairs_of(chain);
    let uids = fresh(chain, uids_in(chains));
    let edges = fresh(pairs, pairs_in(chains));
    lemma_fresh(chain, uids_in(chains));
    lemma_fresh(pairs, pairs_in(chains));
    lemma_fresh_order(chain, uids_in(chains));
    lemma_fresh_order(pairs, pairs_in(chains));
    assert forall|u: Uid| #[trigger] uids.contains(u) <==> chain.contains(u) && forall|i: int|
        0 <= i < chains.len() ==> !(#[trigger] chains[i]).contains(u) by {
        events_and_pairs_of_chains(chains, u, u);
        if uids_in(chains).contains(u) {
            let (i, k) = choose|i: int, k: int|
                0 <= i < chains.len() && 0 <= k < chains[i].len() && #[trigger] chains[i][k] == u;
            assert(chains[i].contains(u));
        } else {
            assert forall|i: int| 0 <= i < chains.len() implies !(
            #[trigger] chains[i]).contains(u) by {
                if chains[i].contains(u) {
                    let k = choose|k: int| 0 <= k < chains[i].len() && chains[i][k] == u;
                    assert(chains[i][k] == u);
                }
            }
        }
    }
    assert forall|u: Uid, v: Uid| #[trigger] edges.contains((u, v)) <==> (exists|k: int|
        0 <= k && k + 1 < chain.len() && #[trigger] chain[k] == u && chain[k + 1] == v) && forall|
        i: int,
        k: int,
    |
        0 <= i < chains.len() && 0 <= k && k + 1 < chains[i].len() && #[trigger] chains[i][k] == u
            ==> chains[i][k + 1] != v by {
        events_and_pairs_of_chains(chains, u, v);
        if pairs.contains((u, v)) {
            let k = choose|k: int| 0 <= k < pairs.len() && pairs[k] == (u, v);
            assert(chain[k] == u && chain[k + 1] == v);
        }
        if exists|k: int|
            0 <= k && k + 1 < chain.len() && #[trigger] chain[k] == u && chain[k + 1] == v {
            let k = choose|k: int|
                0 <= k && k + 1 < chain.len() && #[trigger] chain[k] == u && chain[k + 1] == v;
            assert(pairs[k] == (u, v));
        }
    }
    (uids, edges)
}

proof fn lemma_fresh_order<A>(items: Seq<A>, seen: Set<A>)
    ensures
        first_occurrences(items, fresh(items, seen)),
    decreases items.len(),
{
    lemma_fresh(items, seen);
    if items.len() > 0 {
        let rest = items.drop_last();
        let last = items.last();
        let before = fresh(rest, seen);
        let new = fresh(items, seen);
        lemma_fresh(rest, seen);
        lemma_fresh_order(rest, seen);
        assert forall|j: int, k: int| 0 <= j < k < new.len() implies comes_first(
            items,
            #[trigger] new[j],
            #[trigger] new[k],
        ) by {
            assert(new[j] == before[j]);
            if k < before.len() {
                assert(comes_first(rest, before[j], before[k]));
                let x = choose|x: int|
                    0 <= x < rest.len() && #[trigger] rest[x] == before[j] && forall|y: int|
                        0 <= y < rest.len() && #[trigger] rest[y] == before[k] ==> x < y;
                assert(items[x] == new[j]);
                assert forall|y: int|
                    0 <= y < items.len() && #[trigger] items[y] == new[k] implies x < y by {
                    if y < rest.len() {
                        assert(rest[y] == before[k]);
                    }
                }
            } else {
                assert(new[k] == last);
                assert(before.contains(before[j]));
                assert(rest.contains(before[j]));
                let x = choose|x: int| 0 <= x < rest.len() && rest[x] == before[j];
                assert(items[x] == new[j]);
                assert forall|y: int|
                    0 <= y < items.len() && #[trigger] items[y] == new[k] implies x < y by {
                    if y < rest.len() {
                        assert(rest[y] == last);
                        assert(rest.contains(last));
                    }
                }
            }
        }
    }
}

/// A drawing is a directed graph from left to right whose nodes are records, with the lines of its
/// chains.
pub proof fn frame_of_drawing(
    chains: Seq<Seq<Uid>>,
    freq: Map<u64, usize>,
    labels: spec_fn(u32) -> Seq<char>,
)
    ensures
        dot_text(chains, freq, labels)
            == "digraph Ledger {\n  rankdir=LR;\n  node [shape=record];\n"@ + chain_lines(
            chains,
            freq,
            labels,
        ) + "}\n"@,
{
}

proof fn lemma_line_in_lines(
    uids: Seq<Uid>,
    pairs: Seq<(Uid, Uid)>,
    u: Uid,
    p: (Uid, Uid),
    freq: Map<u64, usize>,
    labels: spec_fn(u32) -> Seq<char>,
) -> (parts: (Seq<char>, Seq<char>, Seq<char>, Seq<char>))
    ensures
        uids.contains(u) ==> node_lines(uids, freq, labels) == parts.0 + node_line(
            u,
            labels(u.event),
            count_of(freq, u),
        ) + parts.1,
        pairs.contains(p) ==> pair_lines(pairs) == parts.2 + pair_line(p) + parts.3,
{
    let (a, b) = if uids.contains(u) {
        let k = choose|k: int| 0 <= k < uids.len() && uids[k] == u;
        let head = uids.take(k);
        let tail = uids.skip(k + 1);
        assert(uids =~= head + seq![u] + tail);
        lines_follow_each_other(head + seq![u], tail, pairs, Seq::empty(), freq, labels);
        lines_follow_each_other(head, seq![u], pairs, Seq::empty(), freq, labels);
        single_lines(u, u, freq, labels);
        assert(uid_code(u) == u.seq_id * 0x1_0000_0000 + u.event);
        (node_lines(head, freq, labels), node_lines(tail, freq, labels))
    } else {
        (Seq::empty(), Seq::empty())
    };
    let (c, d) = if pairs.contains(p) {
        let k = choose|k: int| 0 <= k < pairs.len() && pairs[k] == p;
        let head = pairs.take(k);
        let tail = pairs.skip(k + 1);
        assert(pairs =~= head + seq![p] + tail);
        lines_follow_each_other(uids, Seq::empty(), head + seq![p], tail, freq, labels);
        lines_follow_each_other(uids, Seq::empty(), head, seq![p], freq, labels);
        single_lines(p.0, p.1, freq, labels);
        (pair_lines(head), pair_lines(tail))
    } else {
        (Seq::empty(), Seq::empty())
    };
    (a, b, c, d)
}

proof fn lemma_within(x: Seq<char>, a: Seq<char>, line: Seq<char>, b: Seq<char>, y: Seq<char>)
    ensures
        x + (a + line + b) + y == (x + a) + line + (b + y),
{
    assert(x + (a + line + b) + y =~= (x + a) + line + (b + y));
}

proof fn lemma_event_in_drawing(
    chains: Seq<Seq<Uid>>,
    i: int,
    k: int,
    freq: Map<u64, usize>,
    labels: spec_fn(u32) -> Seq<char>,
) -> (parts: (Seq<char>, Seq<char>))
    requires
        0 <= i < chains.len(),
        0 <= k < chains[i].len(),
    ensures
        chain_lines(chains, freq, labels) == parts.0 + node_line(
            chains[i][k],
            labels(chains[i][k].event),
            count_of(freq, chains[i][k]),
        ) + parts.1,
    decreases chains.len(),
{
    let rest = chains.drop_last();
    let last = chains.last();
    assert(rest.push(last) =~= chains);
    let new = drawing_grows(rest, last, freq, labels);
    let before = chain_lines(rest, freq, labels);
    let nodes = node_lines(new.0, freq, labels);
    let edges = pair_lines(new.1);
    let u = chains[i][k];
    let line = node_line(u, labels(u.event), count_of(freq, u));
    if i == rest.len() && new.0.contains(u) {
        let q = lemma_line_in_lines(new.0, new.1, u, (u, u), freq, labels);
        lemma_within(before, q.0, line, q.1, edges);
        (before + q.0, q.1 + edges)
    } else {
        let (j, y) = if i < rest.len() {
            (i, k)
        } else {
            assert(last[k] == u);
            assert(last.contains(u));
            let j = choose|j: int| 0 <= j < rest.len() && (#[trigger] rest[j]).contains(u);
            (j, choose|y: int| 0 <= y < rest[j].len() && rest[j][y] == u)
        };
        assert(rest[j][y] == u);
        let q = lemma_event_in_drawing(rest, j, y, freq, labels);
        lemma_within(Seq::empty(), q.0, line, q.1, nodes + edges);
        assert(before + nodes + edges =~= Seq::empty() + before + (nodes + edges));
        (Seq::empty() + q.0, q.1 + (nodes + edges))
    }
}

proof fn lemma_edge_in_drawing(
    chains: Seq<Seq<Uid>>,
    i: int,
    k: int,
    freq: Map<u64, usize>,
    labels: spec_fn(u32) -> Seq<char>,
) -> (parts: (Seq<char>, Seq<char>))
    requires
        0 <= i < chains.len(),
        0 <= k,
        k + 1 < chains[i].len(),
    ensures
        chain_lines(chains, freq, labels) == parts.0 + pair_line(
            (chains[i][k], chains[i][k + 1]),
        ) + parts.1,
    decreases chains.len(),
{
    let rest = chains.drop_last();
    let last = chains.last();
    assert(rest.push(last) =~= chains);
    let new = drawing_grows(rest, last, freq, labels);
    let before = chain_lines(rest, freq, labels);
    let nodes = node_lines(new.0, freq, labels);
    let edges = pair_lines(new.1);
    let u = chains[i][k];
    let v = chains[i][k + 1];
    let line = pair_line((u, v));
    if i == rest.len() && new.1.contains((u, v)) {
        let q = lemma_line_in_lines(new.0, new.1, u, (u, v), freq, labels);
        lemma_within(before + nodes, q.2, line, q.3, Seq::empty());
        assert(before + nodes + edges =~= before + nodes + edges + Seq::<char>::empty());
        (before + nodes + q.2, q.3 + Seq::empty())
    } else {
        let (j, y) = if i < rest.len() {
            (i, k)
        } else {
            assert(last[k] == u && last[k + 1] == v);
            choose|j: int, y: int|
                0 <= j < rest.len() && 0 <= y && y + 1 < rest[j].len() && #[trigger] rest[j][y]
                    == u && rest[j][y + 1] == v
        };
        assert(rest[j][y] == u && rest[j][y + 1] == v);
        let q = lemma_edge_in_drawing(rest, j, y, freq, labels);
        lemma_within(Seq::empty(), q.0, line, q.1, nodes + edges);
        assert(before + nodes + edges =~= Seq::empty() + before + (nodes + edges));
        (Seq::empty() + q.0, q.1 + (nodes + edges))
    }
}

/// The text of a drawing has the line of every event of every chain.
pub proof fn event_is_in_text(
    chains: Seq<Seq<Uid>>,
    i: int,
    k: int,
    freq: Map<u64, usize>,
    labels: spec_fn(u32) -> Seq<char>,
) -> (parts: (Seq<char>, Seq<char>))
    requires
        0 <= i < chains.len(),
        0 <= k < chains[i].len(),
    ensures
        ({
            let u = chains[i][k];
            let code = (u.seq_id * 0x1_0000_0000 + u.event) as u64;
            dot_text(chains, freq, labels) == parts.0 + node_line(
                u,
                labels(u.event),
                if freq.contains_key(code) {
                    Some(freq[code])
                } else {
                    None
                },
            ) + parts.1
        }),
{
    let u = chains[i][k];
    assert(uid_code(u) == u.seq_id * 0x1_0000_0000 + u.event);
    let q = lemma_event_in_drawing(chains, i, k, freq, labels);
    let head = "digraph Ledger {\n  rankdir=LR;\n  node [shape=record];\n"@;
    lemma_within(head, q.0, node_line(u, labels(u.event), count_of(freq, u)), q.1, "}\n"@);
    (head + q.0, q.1 + "}\n"@)
}

/// The text of a drawing has, for every two neighbours of a chain, the line that leads from one to
/// the other.
pub proof fn edge_is_in_text(
    chains: Seq<Seq<Uid>>,
    i: int,
    k: int,
    freq: Map<u64, usize>,
    labels: spec_fn(u32) -> Seq<char>,
) -> (parts: (Seq<char>, Seq<char>))
    requires
        0 <= i < chains.len(),
        0 <= k,
        k + 1 < chains[i].len(),
    ensures
        ({
            let u = chains[i][k];
            let v = chains[i][k + 1];
            dot_text(chains, freq, labels) == parts.0 + ("  n"@ + hex(
                (u.seq_id * 0x1_0000_0000 + u.event) as nat,
                16,
            ) + ":r -> n"@ + hex((v.seq_id * 0x1_0000_0000 + v.event) as nat, 16) + ":l;\n"@)
                + parts.1
        }),
{
    let p = (chains[i][k], chains[i][k + 1]);
    line_of_pair(p.0, p.1);
    let q = lemma_edge_in_drawing(chains, i, k, freq, labels);
    let head = "digraph Ledger {\n  rankdir=LR;\n  node [shape=record];\n"@;
    lemma_within(head, q.0, pair_line(p), q.1, "}\n"@);
    (head + q.0, q.1 + "}\n"@)
}

/// The chains that are drawn for a list of identifiers are those that end in them, one by one.
pub proof fn chains_of_identifiers(t: TreeView, uids: Seq<Uid>, k: int)
    requires
        0 <= k < uids.len(),
    ensures
        t.chains(uids).len() == uids.len(),
        t.chains(uids)[k] == t.chain(uids[k]),
        t.node_of(uids[k]) is None ==> t.chain(uids[k]).len() == 0,
        t.node_of(uids[k]) matches Some(n) ==> t.chain(uids[k]) == t.arena.chain(n),
{
}

/// The label of an event is the text that is given for its code.
pub proof fn label_is_what_is_given<F: Fn(u32) -> String>(label: F, event: u32, text: String)
    requires
        labels_events(label),
        call_ensures(label, (event,), text),
    ensures
        label_texts(label)(event) == text@,
        label_text(label, event) == text@,
        has_label(label, event),
{
    let s = choose|s: String| call_ensures(label, (event,), s);
    assert(s@ == text@);
}

/// A function labels events where it can be called for every event, and never gives two texts for
/// the same event.
pub proof fn what_labels_events<F: Fn(u32) -> String>(label: F)
    ensures
        labels_events(label) <==> {
            &&& forall|event: u32| #[trigger] call_requires(label, (event,))
            &&& forall|event: u32, s: String, t: String| #[trigger]
                call_ensures(label, (event,), s) && #[trigger] call_ensures(label, (event,), t)
                    ==> s@ == t@
        },
{
}

} // verus!
