use std::collections::HashMap;

use events_ledger::ledger::Ledger;
use events_ledger::text::{push_decimal, push_escaped, push_hex};
use events_ledger::tree::LedgerTree;
use events_ledger::uid::Uid;

fn label(event: u32) -> String {
    format!("E|{}", event)
}

fn small_tree() -> (LedgerTree, Vec<Uid>) {
    let mut tree = LedgerTree::new();
    let root = tree.root();
    let start = root.insert(&mut tree.arena, 7);
    start.insert(&mut tree.arena, 20);
    start.insert(&mut tree.arena, 10);
    tree.resolve();
    let uids = tree.get_leaf_uids();
    (tree, uids)
}

const PLAIN: &str = "digraph Ledger {
  rankdir=LR;
  node [shape=record];
  n0000000000000007 [label=\"{<l>0|<r>E\\|7}\"];
  n000000010000000A [label=\"{<l>1|<r>E\\|10}\"];
  n0000000000000007:r -> n000000010000000A:l;
  n0000000100000014 [label=\"{<l>1|<r>E\\|20}\"];
  n0000000000000007:r -> n0000000100000014:l;
}
";

#[test]
fn chains_are_drawn_once() {
    let (tree, uids) = small_tree();
    assert_eq!(tree.emit_dot(&uids, label), PLAIN);
    let twice: Vec<Uid> = uids.iter().chain(uids.iter()).cloned().collect();
    assert_eq!(tree.emit_dot(&twice, label), PLAIN);
}

#[test]
fn drawings_without_counts_agree() {
    let (tree, uids) = small_tree();
    let freq: HashMap<u64, usize> = HashMap::new();
    assert_eq!(tree.emit_dot_with_freq(&uids, &freq, label), tree.emit_dot(&uids, label));
}

#[test]
fn counts_are_shown_with_commas() {
    let (tree, uids) = small_tree();
    let mut freq: HashMap<u64, usize> = HashMap::new();
    freq.insert(Uid::new(0, 7).encode(), 1234567);
    freq.insert(Uid::new(1, 10).encode(), 999);
    freq.insert(Uid::new(5, 5).encode(), 1);
    let dot = tree.emit_dot_with_freq(&uids, &freq, label);
    let lines: Vec<&str> = dot.lines().collect();
    assert_eq!(lines[3], "  n0000000000000007 [label=\"{<l>0|E\\|7|<r>cnt(1,234,567)}\"];");
    assert_eq!(lines[4], "  n000000010000000A [label=\"{<l>1|E\\|10|<r>cnt(999)}\"];");
    assert_eq!(lines[6], "  n0000000100000014 [label=\"{<l>1|<r>E\\|20}\"];");
    assert_eq!(lines.len(), 9);
}

#[test]
fn commas_stand_before_every_three_digits() {
    let (tree, uids) = small_tree();
    let cases: Vec<(usize, &str)> = vec![
        (0, "cnt(0)"),
        (12, "cnt(12)"),
        (1000, "cnt(1,000)"),
        (45006, "cnt(45,006)"),
        (100000, "cnt(100,000)"),
        (1000000, "cnt(1,000,000)"),
    ];
    for (count, text) in cases {
        let mut freq: HashMap<u64, usize> = HashMap::new();
        freq.insert(Uid::new(0, 7).encode(), count);
        assert!(tree.emit_dot_with_freq(&uids, &freq, label).contains(text));
    }
}

#[test]
fn nothing_to_draw() {
    let (tree, _) = small_tree();
    let empty = "digraph Ledger {\n  rankdir=LR;\n  node [shape=record];\n}\n";
    assert_eq!(tree.emit_dot(&vec![], label), empty);
    assert_eq!(tree.emit_dot(&vec![Uid::new(9, 9)], label), empty);
}

#[test]
fn numbers_and_labels_as_text() {
    let mut text = String::new();
    push_decimal(&mut text, 0);
    push_decimal(&mut text, 4294967295);
    push_hex(&mut text, 0xAB, 4);
    push_hex(&mut text, 0x12345, 2);
    push_escaped(&mut text, &"a|\u{e9}||".to_string());
    assert_eq!(text, "0429496729500AB45a\\|\u{e9}\\|\\|");
}

#[test]
fn ambiguous_numbers_draw_nothing_twice() {
    // Both start events of the rebuilt tree hand out number 1.
    let mut tree = LedgerTree::new();
    let root = tree.root();
    root.insert(&mut tree.arena, 9);
    root.insert(&mut tree.arena, 4);
    tree.resolve();
    let mut tree = LedgerTree::from(&Ledger::from(&tree));
    let root = tree.root();
    for start in root.children(&tree.arena) {
        let next = start.insert(&mut tree.arena, 5);
        next.insert(&mut tree.arena, 6);
    }
    tree.resolve();
    let first = root.children(&tree.arena)[0];
    let end = first.children(&tree.arena)[0].children(&tree.arena)[0];
    let chain = end.get_chain(&tree.arena);
    assert_eq!(chain.len(), 3);
    let drawn = tree.emit_dot(&vec![chain[2]], label);
    for uid in chain.iter() {
        assert_eq!(tree.emit_dot(&vec![chain[2], *uid], label), drawn);
    }
}

#[test]
fn what_is_drawn_is_not_drawn_again() {
    let (tree, uids) = small_tree();
    let more = vec![Uid::new(9, 9), Uid::new(0, 7), uids[0], uids[1]];
    for extra in more {
        let mut longer = uids.clone();
        longer.push(extra);
        assert_eq!(tree.emit_dot(&longer, label), PLAIN);
    }
}
