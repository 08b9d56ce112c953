use events_ledger::filter::{BitsPattern, BitsProperty};
use events_ledger::ledger::Ledger;
use events_ledger::node::{LedgerNode, NodeArena};
use events_ledger::tree::LedgerTree;
use events_ledger::uid::Uid;

/// 7 -> 20, 7 -> 10 -> 30, 7 -> 10 -> 40
fn forked() -> (LedgerTree, Vec<LedgerNode>) {
    let mut tree = LedgerTree::new();
    let root = tree.root();
    let start = root.insert(&mut tree.arena, 7);
    let a = start.insert(&mut tree.arena, 20);
    let b = start.insert(&mut tree.arena, 10);
    let c = b.insert(&mut tree.arena, 30);
    let d = b.insert(&mut tree.arena, 40);
    (tree, vec![start, a, b, c, d])
}

#[test]
fn inserting_twice_gives_the_same_node() {
    let (mut tree, nodes) = forked();
    let count = tree.arena.nodes.len();
    let again = nodes[0].insert(&mut tree.arena, 20);
    assert_eq!(again, nodes[1]);
    assert_eq!(tree.arena.nodes.len(), count);
    assert_eq!(nodes[0].children(&tree.arena), vec![nodes[1], nodes[2]]);
}

#[test]
fn new_trees_are_empty() {
    let tree = LedgerTree::new();
    assert!(tree.get_leaf_nodes().is_empty());
    assert!(tree.get_leaf_uids().is_empty());
    assert!(tree.count_events().is_empty());
    assert_eq!(tree.root().uid(&tree.arena), None);
    assert_eq!(tree.root().event(&tree.arena), 0);
    assert!(!tree.check_dirty());
    assert_eq!(tree.get_dangling_nodes(&vec![]), vec![tree.root()]);
    assert!(tree.get_dangling_nodes(&vec![tree.root()]).is_empty());
    let other = LedgerTree::default();
    assert_eq!(other.arena.nodes.len(), 1);
}

#[test]
fn resolving_numbers_in_walk_order() {
    let (mut tree, nodes) = forked();
    tree.resolve();
    let numbers: Vec<Option<u32>> =
        nodes.iter().map(|n| tree.arena.next_seq_no_of(*n)).collect();
    // The walk takes the youngest child first: start, b, d, c, a.
    assert_eq!(numbers, vec![Some(1), Some(5), Some(2), Some(4), Some(3)]);
    assert_eq!(nodes[1].uid(&tree.arena), Some(Uid::new(1, 20)));
    assert_eq!(nodes[4].uid(&tree.arena), Some(Uid::new(2, 40)));
    assert_eq!(tree.arena.next_avail_seq_no, 6);
}

#[test]
fn resolving_again_changes_nothing() {
    let (mut tree, nodes) = forked();
    tree.resolve();
    let before: Vec<Option<Uid>> = nodes.iter().map(|n| n.uid(&tree.arena)).collect();
    tree.resolve();
    nodes[3].resolve(&mut tree.arena);
    let after: Vec<Option<Uid>> = nodes.iter().map(|n| n.uid(&tree.arena)).collect();
    assert_eq!(before, after);
    assert_eq!(tree.arena.next_avail_seq_no, 6);
}

#[test]
fn resolving_a_node_resolves_its_chain_only() {
    let (mut tree, nodes) = forked();
    nodes[3].resolve(&mut tree.arena);
    assert_eq!(nodes[0].uid(&tree.arena), Some(Uid::new(0, 7)));
    assert_eq!(nodes[2].uid(&tree.arena), Some(Uid::new(1, 10)));
    assert_eq!(nodes[3].uid(&tree.arena), Some(Uid::new(2, 30)));
    assert_eq!(nodes[1].uid(&tree.arena), None);
    assert_eq!(nodes[4].uid(&tree.arena), None);
    // A child that comes later has the number of its siblings at once.
    let late = nodes[2].insert(&mut tree.arena, 50);
    assert_eq!(late.uid(&tree.arena), Some(Uid::new(2, 50)));
    let chain = nodes[3].get_chain(&tree.arena);
    tree.resolve();
    assert_eq!(nodes[3].get_chain(&tree.arena), chain);
    assert_eq!(nodes[4].uid(&tree.arena), Some(Uid::new(2, 40)));
}

#[test]
fn uids_lead_to_nodes_and_chains() {
    let (mut tree, nodes) = forked();
    tree.resolve();
    for n in nodes.iter() {
        let uid = n.uid(&tree.arena).unwrap();
        assert_eq!(tree.get_node(&uid), Some(*n));
        assert_eq!(tree.get_chain(&uid), n.get_chain(&tree.arena));
    }
    assert_eq!(
        tree.get_chain(&Uid::new(2, 40)),
        vec![Uid::new(0, 7), Uid::new(1, 10), Uid::new(2, 40)]
    );
    assert_eq!(tree.get_node(&Uid::new(2, 41)), None);
    assert_eq!(tree.get_node(&Uid::new(99, 40)), None);
    assert!(tree.get_chain(&Uid::new(99, 40)).is_empty());
}

#[test]
fn pruning_stops_at_a_fork() {
    let (mut tree, nodes) = forked();
    tree.prune_node(nodes[3]);
    assert_eq!(tree.get_leaf_nodes(), vec![nodes[4], nodes[1]]);
    tree.prune_node(nodes[4]);
    assert_eq!(tree.get_leaf_nodes(), vec![nodes[1]]);
    assert_eq!(nodes[0].children(&tree.arena), vec![nodes[1]]);
    tree.prune_node(nodes[1]);
    assert!(tree.get_leaf_nodes().is_empty());
    assert!(tree.root().children(&tree.arena).is_empty());
}

#[test]
fn pruning_an_inner_node_takes_all_chains_through_it() {
    let (mut tree, nodes) = forked();
    tree.prune_node(nodes[2]);
    assert_eq!(tree.get_leaf_nodes(), vec![nodes[1]]);
    assert!(nodes[2].children(&tree.arena).is_empty());
}

#[test]
fn clones_are_independent() {
    let (mut tree, nodes) = forked();
    let mut copy = tree.clone();
    copy.resolve();
    copy.prune_node(nodes[1]);
    assert_eq!(nodes[0].uid(&tree.arena), None);
    assert_eq!(tree.get_leaf_nodes().len(), 3);
    assert_eq!(copy.get_leaf_nodes().len(), 2);
    tree.resolve();
    assert_eq!(nodes[3].uid(&tree.arena), nodes[3].uid(&copy.arena));
}

#[test]
fn matching_nodes_and_uids() {
    let (mut tree, nodes) = forked();
    tree.resolve();
    // 20 = 0b010100, 30 = 0b011110, 40 = 0b101000
    let pattern = BitsPattern { mask: 0b010000, bits: 0b010000 };
    assert_eq!(tree.get_matching_nodes(BitsProperty::Match(pattern)), vec![nodes[3], nodes[1]]);
    assert_eq!(tree.get_matching_nodes(BitsProperty::NoMatch(pattern)), vec![nodes[4]]);
    assert_eq!(
        tree.get_matching_uids(BitsProperty::Match(pattern)),
        vec![Uid::new(2, 30), Uid::new(1, 20)]
    );
    assert_eq!(tree.get_matching_uids(BitsProperty::NoMatch(pattern)), vec![Uid::new(2, 40)]);
    let never = BitsPattern { mask: 0, bits: 1 };
    assert!(tree.get_matching_nodes(BitsProperty::Match(never)).is_empty());
    assert_eq!(tree.get_matching_nodes(BitsProperty::NoMatch(never)), tree.get_leaf_nodes());
}

#[test]
fn many_matching_nodes_keep_their_order() {
    let mut tree = LedgerTree::new();
    let root = tree.root();
    for event in 0..5000u32 {
        root.insert(&mut tree.arena, event);
    }
    let odd = BitsProperty::Match(BitsPattern { mask: 1, bits: 1 });
    let found: Vec<u32> =
        tree.get_matching_nodes(odd).iter().map(|n| n.event(&tree.arena)).collect();
    let expected: Vec<u32> = (0..5000u32).rev().filter(|e| e % 2 == 1).collect();
    assert_eq!(found, expected);
}

#[test]
fn counts_are_kept_by_chain() {
    let (mut tree, nodes) = forked();
    let e = nodes[4].insert(&mut tree.arena, 10);
    tree.resolve();
    let counts = tree.count_events();
    let end = |n: LedgerNode| n.uid(&tree.arena).unwrap().encode();
    assert_eq!(counts[&10][&end(e)], 2);
    assert_eq!(counts[&10][&end(nodes[3])], 1);
    assert_eq!(counts[&10].get(&end(nodes[1])), None);
    assert_eq!(counts[&7].len(), 3);
    assert_eq!(counts.get(&99), None);
}

#[test]
fn detached_nodes_know_their_parent() {
    let mut arena = NodeArena::new();
    let root = LedgerNode::root(&mut arena);
    let loose = LedgerNode::from_parent(&mut arena, root, 5);
    assert_eq!(arena.parent_of(loose), Some(root));
    assert!(root.children(&arena).is_empty());
    let child = root.new_children(&mut arena, 5);
    assert_ne!(child, loose);
    assert_eq!(root.new_children(&mut arena, 5), child);
    assert_eq!(arena.child_of(root, 5), Some(child));
    assert_eq!(arena.child_of(root, 6), None);
}

#[test]
fn ledgers_of_both_conversions_agree() {
    let (mut tree, nodes) = forked();
    tree.resolve();
    let by_reference = Ledger::from(&tree);
    let by_value = Ledger::from_tree(tree.clone());
    assert_eq!(by_reference.next, by_value.next);
    assert_eq!(by_reference.prev, by_value.prev);
    assert_eq!(by_reference.start_events(), by_value.start_events());
    assert_eq!(by_reference.start_events(), &vec![Uid::new(0, 7)]);
    assert_eq!(by_reference.next_seq_id, 6);
    assert_eq!(tree.get_leaf_nodes(), vec![nodes[4], nodes[3], nodes[1]]);
}

#[test]
fn rebuilt_trees_have_the_same_chains() {
    let (mut tree, nodes) = forked();
    tree.resolve();
    let ledger = Ledger::from(&tree);
    assert_eq!(ledger.get_next(&Uid::new(0, 7)), vec![Uid::new(1, 10), Uid::new(1, 20)]);
    assert_eq!(ledger.prev[&2], Uid::new(1, 10));
    let rebuilt = LedgerTree::from(&ledger);
    for n in nodes.iter() {
        let uid = n.uid(&tree.arena).unwrap();
        assert_eq!(rebuilt.get_chain(&uid), n.get_chain(&tree.arena));
    }
    assert_eq!(rebuilt.arena.next_avail_seq_no, 6);
    // Children come back in ascending order.
    let start = rebuilt.get_node(&Uid::new(0, 7)).unwrap();
    let events: Vec<u32> =
        start.children(&rebuilt.arena).iter().map(|n| n.event(&rebuilt.arena)).collect();
    assert_eq!(events, vec![10, 20]);
    let again = Ledger::from_tree(LedgerTree::from_ledger(Ledger::from(&rebuilt)));
    assert_eq!(again.next, ledger.next);
    assert_eq!(again.prev, ledger.prev);
    assert_eq!(again.next_seq_id, ledger.next_seq_id);
}

#[test]
fn start_events_without_follow_ups_convert() {
    let mut tree = LedgerTree::new();
    let root = tree.root();
    root.insert(&mut tree.arena, 9);
    root.insert(&mut tree.arena, 4);
    tree.resolve();
    let ledger = Ledger::from(&tree);
    assert_eq!(ledger.start_events(), &vec![Uid::new(0, 9), Uid::new(0, 4)]);
    assert_eq!(ledger.get_next_seq_id(&Uid::new(0, 9)), Some(1));
    assert_eq!(ledger.get_next_seq_id(&Uid::new(0, 4)), Some(1));
    assert_eq!(ledger.prev[&1], Uid::new(0, 4));
    let again = Ledger::from(&LedgerTree::from(&ledger));
    assert_eq!(again.start_events, ledger.start_events);
    assert_eq!(again.next, ledger.next);
    assert_eq!(again.prev, ledger.prev);
}

#[test]
fn trees_that_a_ledger_cannot_take_in() {
    let (mut tree, nodes) = forked();
    assert!(!tree.is_convertible());
    nodes[3].resolve(&mut tree.arena);
    assert!(!tree.is_convertible());
    tree.resolve();
    assert!(tree.is_convertible());
    // A second start event that something follows has another number than the one recorded.
    let root = tree.root();
    let other = root.insert(&mut tree.arena, 8);
    tree.resolve();
    assert!(tree.is_convertible());
    other.insert(&mut tree.arena, 9);
    tree.resolve();
    assert_eq!(tree.arena.next_seq_no_of(other), Some(6));
    assert!(!tree.is_convertible());
    assert!(LedgerTree::new().is_convertible());
}

#[test]
fn identifiers_are_unique() {
    let (mut tree, nodes) = forked();
    nodes[3].insert(&mut tree.arena, 7);
    nodes[4].insert(&mut tree.arena, 7);
    nodes[1].insert(&mut tree.arena, 7);
    tree.resolve();
    let mut uids: Vec<u64> = tree.get_leaf_uids().iter().map(|uid| uid.encode()).collect();
    uids.extend(nodes.iter().map(|n| n.uid(&tree.arena).unwrap().encode()));
    let count = uids.len();
    uids.sort();
    uids.dedup();
    assert_eq!(uids.len(), count);
}

#[test]
fn numbers_wrap_around() {
    let (mut tree, nodes) = forked();
    tree.arena.next_avail_seq_no = u32::MAX;
    tree.resolve();
    assert_eq!(nodes[0].uid(&tree.arena), Some(Uid::new(u32::MAX, 7)));
    assert_eq!(nodes[1].uid(&tree.arena), Some(Uid::new(0, 20)));
}

fn all_nodes(tree: &LedgerTree) -> Vec<LedgerNode> {
    let mut nodes = vec![tree.root()];
    let mut k = 0;
    while k < nodes.len() {
        nodes.extend(nodes[k].children(&tree.arena));
        k += 1;
    }
    nodes
}

fn all_uids(tree: &LedgerTree) -> Vec<u64> {
    let nodes = all_nodes(tree);
    let mut uids: Vec<u64> =
        nodes[1..].iter().map(|n| n.uid(&tree.arena).unwrap().encode()).collect();
    uids.sort();
    uids
}

#[test]
fn the_tree_of_an_empty_ledger_numbers_from_one() {
    let mut tree = LedgerTree::from(&Ledger::new());
    let root = tree.root();
    let a = root.insert(&mut tree.arena, 1);
    let b = a.insert(&mut tree.arena, 1);
    tree.resolve();
    assert_eq!(a.uid(&tree.arena), Some(Uid::new(0, 1)));
    assert_eq!(b.uid(&tree.arena), Some(Uid::new(1, 1)));
    assert_eq!(tree.get_node(&Uid::new(0, 1)), Some(a));
    assert_eq!(tree.get_node(&Uid::new(1, 1)), Some(b));
}

#[test]
fn rebuilt_trees_hand_out_new_numbers() {
    let mut ledger = Ledger::new();
    let start = Uid::new(0, 7);
    ledger.insert_start(start);
    ledger.insert(start, Uid::new(1, 3), 4);
    ledger.insert(start, Uid::new(1, 2), 9);
    let mut tree = LedgerTree::from(&ledger);
    assert_eq!(tree.arena.next_avail_seq_no, 10);
    for n in all_nodes(&tree) {
        let child = n.insert(&mut tree.arena, 5);
        child.insert(&mut tree.arena, 5);
    }
    tree.resolve();
    let uids = all_uids(&tree);
    let mut distinct = uids.clone();
    distinct.dedup();
    assert_eq!(distinct, uids);
    assert_eq!(uids.len(), 11);
}

#[test]
fn trees_go_on_after_a_round_trip() {
    let (mut tree, _) = forked();
    tree.resolve();
    let mut rebuilt = LedgerTree::from(&Ledger::from(&tree));
    assert_eq!(all_uids(&rebuilt), all_uids(&tree));
    assert_eq!(rebuilt.arena.next_avail_seq_no, tree.arena.next_avail_seq_no);
    for n in all_nodes(&rebuilt) {
        n.insert(&mut rebuilt.arena, 77);
    }
    rebuilt.resolve();
    let uids = all_uids(&rebuilt);
    let mut distinct = uids.clone();
    distinct.dedup();
    assert_eq!(distinct, uids);
}

#[test]
fn trees_are_dirty_while_an_event_is_not_resolved() {
    let (mut tree, nodes) = forked();
    assert!(tree.check_dirty());
    nodes[3].resolve(&mut tree.arena);
    assert!(tree.check_dirty());
    tree.resolve();
    assert!(!tree.check_dirty());
    let late = nodes[1].insert(&mut tree.arena, 3);
    assert!(!tree.check_dirty());
    let later = late.insert(&mut tree.arena, 3);
    assert_eq!(later.uid(&tree.arena), None);
    assert!(tree.check_dirty());
    tree.prune_node(nodes[1]);
    assert!(!tree.check_dirty());
}

#[test]
fn pruning_climbs_from_what_was_cut_off() {
    let mut tree = LedgerTree::new();
    let root = tree.root();
    let a = root.insert(&mut tree.arena, 1);
    let b = a.insert(&mut tree.arena, 2);
    let c = b.insert(&mut tree.arena, 3);
    tree.prune_node(b);
    assert!(root.children(&tree.arena).is_empty());
    let again = root.insert(&mut tree.arena, 1);
    assert_ne!(again, a);
    // The way up from the old node ends at the root, under the same event.
    tree.prune_node(c);
    assert!(root.children(&tree.arena).is_empty());
    assert!(tree.get_leaf_nodes().is_empty());
}

#[test]
fn pruning_a_detached_node_takes_its_childless_parent() {
    let mut tree = LedgerTree::new();
    let root = tree.root();
    let p = root.insert(&mut tree.arena, 1);
    let q = root.insert(&mut tree.arena, 2);
    let n = LedgerNode::from_parent(&mut tree.arena, p, 3);
    tree.prune_node(n);
    assert_eq!(root.children(&tree.arena), vec![q]);
    // A parent that has other children stays.
    let r = q.insert(&mut tree.arena, 4);
    let m = LedgerNode::from_parent(&mut tree.arena, q, 5);
    tree.prune_node(m);
    assert_eq!(q.children(&tree.arena), vec![r]);
    assert_eq!(root.children(&tree.arena), vec![q]);
}

#[test]
fn every_part_of_a_chain_is_a_chain() {
    let (mut tree, nodes) = forked();
    tree.resolve();
    let chain = nodes[4].get_chain(&tree.arena);
    for k in 0..chain.len() {
        assert_eq!(tree.get_chain(&chain[k]), chain[..k + 1].to_vec());
    }
}
