//! What is counted: the positions at which an event stands in a chain.
use std::collections::HashMap;
use vstd::prelude::*;
use crate::laws::counts_are_per_chain;
use crate::model::{ArenaView, lemma_occurrences, occurrences, tally};
use crate::node::LedgerNode;
use crate::tree::counts_view;
use crate::uid::uid_code;

verus! {

/// An event occurs as often as there are positions at which it stands.
pub proof fn occurrences_are_positions(s: Seq<u32>, e: u32)
    ensures
        occurrences(s, e) == s.filter(|x: u32| x == e).len(),
        occurrences(s, e) == s.to_multiset().count(e),
    decreases s.len(),
{
    reveal(Seq::filter);
    broadcast use vstd::seq_lib::group_to_multiset_ensures;

    let test = |x: u32| x == e;
    if s.len() > 0 {
        let rest = s.drop_last();
        let last = s.last();
        occurrences_are_positions(rest, e);
        lemma_occurrences_push(rest, last, e);
        assert(rest.push(last) =~= s);
    } else {
        assert(s.filter(test).len() == 0);
    }
}

proof fn lemma_occurrences_push(s: Seq<u32>, x: u32, e: u32)
    ensures
        occurrences(s.push(x), e) == occurrences(s, e) + if x == e {
            1nat
        } else {
            0
        },
    decreases s.len(),
{
    let t = s.push(x);
    if s.len() == 0 {
        assert(t.drop_first() =~= Seq::<u32>::empty());
        assert(occurrences(t.drop_first(), e) == 0);
    } else {
        lemma_occurrences_push(s.drop_first(), x, e);
        assert(t.drop_first() =~= s.drop_first().push(x));
    }
}

/// The events of a sequence are all counted, and no others. Each is counted as often as it occurs.
pub proof fn tally_counts_positions(s: Seq<u32>, e: u32)
    requires
        s.len() <= usize::MAX,
    ensures
        tally(s).contains_key(e) <==> exists|i: int| 0 <= i < s.len() && s[i] == e,
        tally(s).contains_key(e) ==> tally(s)[e] == s.filter(|x: u32| x == e).len(),
        tally(s).contains_key(e) ==> tally(s)[e] == s.to_multiset().count(e),
{
    occurrences_are_positions(s, e);
    lemma_filter_len(s, e);
}

proof fn lemma_filter_len(s: Seq<u32>, e: u32)
    ensures
        s.filter(|x: u32| x == e).len() <= s.len(),
    decreases s.len(),
{
    reveal(Seq::filter);
    if s.len() > 0 {
        lemma_filter_len(s.drop_last(), e);
    }
}

/// Counting one more event at the end raises its count by one, from nothing where it was not
/// counted, and leaves all other counts.
pub proof fn tally_grows(s: Seq<u32>, e: u32, other: u32)
    requires
        s.len() < usize::MAX,
    ensures
        tally(s.push(e)).contains_key(e),
        tally(s.push(e))[e] == if tally(s).contains_key(e) {
            tally(s)[e] + 1
        } else {
            1
        },
        other != e ==> (tally(s.push(e)).contains_key(other) <==> tally(s).contains_key(other)),
        other != e && tally(s).contains_key(other) ==> tally(s.push(e))[other] == tally(s)[other],
{
    let t = s.push(e);
    lemma_occurrences_push(s, e, e);
    lemma_occurrences_push(s, e, other);
    occurrences_are_positions(s, e);
    occurrences_are_positions(s, other);
    lemma_filter_len(s, e);
    lemma_filter_len(s, other);
    lemma_occurrences(s, e);
    lemma_occurrences(s, other);
    lemma_occurrences(t, e);
    lemma_occurrences(t, other);
}

proof fn lemma_path_len(a: ArenaView, n: LedgerNode)
    ensures
        a.path_events(n).len() <= n.index,
    decreases n.index,
{
    match a.at(n).parent {
        Some(p) if p.index < n.index => {
            lemma_path_len(a, p);
        },
        _ => {},
    }
}

/// The counts of a node are those of the positions at which an event stands on the way to it from
/// the root.
pub proof fn node_counts_positions(a: ArenaView, n: LedgerNode, e: u32)
    ensures
        tally(a.path_events(n)).contains_key(e) <==> a.path_events(n).contains(e),
        a.path_events(n).contains(e) ==> tally(a.path_events(n))[e] == a.path_events(n).filter(
            |x: u32| x == e,
        ).len(),
{
    lemma_path_len(a, n);
    tally_counts_positions(a.path_events(n), e);
}

/// Where the ends of chains can be told apart, the counts of a tree hold, for each event and each
/// end of a chain, the number of positions at which the event stands in the chain.
pub proof fn tree_counts_positions(a: ArenaView, leaves: Seq<LedgerNode>, k: int, e: u32)
    requires
        0 <= k < leaves.len(),
        a.all_resolved(leaves),
        forall|i: int, j: int|
            0 <= i < j < leaves.len() ==> a.at(#[trigger] leaves[i]).uid() != a.at(
                #[trigger] leaves[j],
            ).uid(),
    ensures
        ({
            let uid = a.at(leaves[k]).uid().unwrap();
            let code = (uid.seq_id * 0x1_0000_0000 + uid.event) as u64;
            let path = a.path_events(leaves[k]);
            let counts = a.chain_counts(leaves);
            &&& path.contains(e) <==> counts.contains_key(e) && counts[e].contains_key(code)
            &&& path.contains(e) ==> counts[e][code] == path.filter(|x: u32| x == e).len()
        }),
{
    counts_are_per_chain(a, leaves, k, e);
    node_counts_positions(a, leaves[k], e);
    lemma_path_len(a, leaves[k]);
    occurrences_are_positions(a.path_events(leaves[k]), e);
}

/// The counts of a tree are of its chains: what is counted for an event stands under the code of
/// the end of a chain in which the event occurs.
pub proof fn tree_counts_only_chains(a: ArenaView, leaves: Seq<LedgerNode>, e: u32, code: u64)
    requires
        a.all_resolved(leaves),
        a.chain_counts(leaves).contains_key(e),
    ensures
        a.chain_counts(leaves)[e].contains_key(code) ==> exists|k: int|
            0 <= k < leaves.len() && uid_code(a.at(#[trigger] leaves[k]).uid().unwrap()) == code
                && a.path_events(leaves[k]).contains(e),
        exists|k: int| 0 <= k < leaves.len() && a.path_events(#[trigger] leaves[k]).contains(e),
    decreases leaves.len(),
{
    if leaves.len() > 0 {
        let rest = leaves.drop_last();
        let last = leaves.last();
        assert(leaves[leaves.len() - 1] == last);
        assert(a.all_resolved(rest)) by {
            assert forall|i: int| 0 <= i < rest.len() implies a.at(
                #[trigger] rest[i],
            ).uid() is Some by {
                assert(rest[i] == leaves[i]);
            }
        }
        if a.chain_counts(rest).contains_key(e) {
            tree_counts_only_chains(a, rest, e, code);
            let k = choose|k: int|
                0 <= k < rest.len() && a.path_events(#[trigger] rest[k]).contains(e);
            assert(leaves[k] == rest[k]);
            if a.chain_counts(rest)[e].contains_key(code) {
                let i = choose|i: int|
                    0 <= i < rest.len() && uid_code(a.at(#[trigger] rest[i]).uid().unwrap())
                        == code && a.path_events(rest[i]).contains(e);
                assert(leaves[i] == rest[i]);
            }
        }
    }
}

/// Counting one more chain sets the counts of its events under the code of its end, and leaves all
/// other counts.
pub proof fn tree_counts_grow(
    a: ArenaView,
    leaves: Seq<LedgerNode>,
    n: LedgerNode,
    e: u32,
    code: u64,
)
    requires
        a.at(n).uid() is Some,
    ensures
        ({
            let before = a.chain_counts(leaves);
            let after = a.chain_counts(leaves.push(n));
            let uid = a.at(n).uid().unwrap();
            let own = (uid.seq_id * 0x1_0000_0000 + uid.event) as u64;
            let path = a.path_events(n);
            &&& after.contains_key(e) <==> before.contains_key(e) || path.contains(e)
            &&& path.contains(e) ==> after[e].contains_key(own) && after[e][own] == path.filter(
                |x: u32| x == e,
            ).len()
            &&& after.contains_key(e) && (code != own || !path.contains(e)) ==> (
            after[e].contains_key(code) <==> before.contains_key(e) && before[e].contains_key(code))
            &&& before.contains_key(e) && before[e].contains_key(code) && (code != own
                || !path.contains(e)) ==> after[e][code] == before[e][code]
        }),
{
    assert(leaves.push(n).drop_last() =~= leaves);
    node_counts_positions(a, n, e);
}

/// The model of the counts of a tree has, under each event, the counts that are kept for it.
pub proof fn model_of_counts(counts: Map<u32, HashMap<u64, usize>>, e: u32)
    ensures
        counts_view(counts).contains_key(e) <==> counts.contains_key(e),
        counts.contains_key(e) ==> counts_view(counts)[e] == counts[e]@,
{
}

} // verus!
