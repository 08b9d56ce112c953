use events_ledger::filter::{BitsPattern, BitsProperty};
use events_ledger::ledger::Ledger;
use events_ledger::node::LedgerNode;
use events_ledger::source::{SrcId, SrcName};
use events_ledger::tree::LedgerTree;
use events_ledger::uid::Uid;

const POINT_SOURCE: u32 = 0x101;
const PENCIL_BEAM: u32 = 0x102;
const REFRACTION: u32 = 0x201;
const BOUNDARY: u32 = 0x202;
const DIFFUSE: u32 = 0x203;
const MIE_FORWARD: u32 = 0x301;
const MIE_UNKNOWN: u32 = 0x302;
const HENYEY_GREENSTEIN_FORWARD: u32 = 0x303;
const RAMAN_UNKNOWN: u32 = 0x304;
const DETECTION: u32 = 0x400;

fn event(kind: u32, src_id: SrcId) -> u32 {
    kind << 20 | src_id.code()
}

fn names(list: Option<&Vec<SrcName>>) -> Vec<SrcName> {
    list.unwrap().to_vec()
}

#[test]
fn produce_src_id() {
    let surfs = vec!["surf1".to_string(), "surf2".to_string(), "surf3".to_string()];
    let mats = vec!["mat1".to_string(), "mat2".to_string()];

    let objects = vec![
        ("obj1".to_string(), "mat1".to_string()),
        ("obj2".to_string(), "mat2".to_string()),
        ("obj3".to_string(), "mat1".to_string()),
    ];

    let mut ledger_tree = LedgerTree::new();

    for mat in mats {
        let src_id = ledger_tree.with_mat(mat.clone());
        assert!(ledger_tree.sources.src_map.contains_key(&src_id.code()));
        assert_eq!(names(ledger_tree.sources.names(src_id)), vec![SrcName::Mat(mat.clone())]);
    }

    for surf in surfs {
        let src_id = ledger_tree.with_surf(surf.clone(), None);
        assert!(ledger_tree.sources.src_map.contains_key(&src_id.code()));
        assert_eq!(names(ledger_tree.sources.names(src_id)), vec![SrcName::Surf(surf.clone())]);
    }

    for (obj, mat) in objects {
        let src_id = ledger_tree.with_matsurf(obj.clone(), mat.clone(), None);
        assert!(ledger_tree.sources.src_map.contains_key(&src_id.code()));
        let expected_name = format!("{}:{}", obj.clone(), mat.clone());
        assert_eq!(
            names(ledger_tree.sources.names(src_id)),
            vec![SrcName::MatSurf(expected_name)]
        );
    }

    let ledger = Ledger::from(&ledger_tree);

    assert_eq!(ledger.sources.src_map, ledger_tree.sources.src_map);
    assert_eq!(ledger.sources.grps, ledger_tree.sources.grps);

    println!("Ledger src_map: {:?}", ledger_tree.sources.src_map);
}

#[test]
fn insert_events() {
    let mut ledger = LedgerTree::new();
    let root_node = ledger.root();

    let node1 = root_node.insert(&mut ledger.arena, event(POINT_SOURCE, SrcId::Light(2)));
    let node2 =
        node1.insert(&mut ledger.arena, event(HENYEY_GREENSTEIN_FORWARD, SrcId::Mat(2)));
    let node3 = node2.insert(&mut ledger.arena, event(MIE_FORWARD, SrcId::Mat(2)));

    ledger.resolve();

    let uid1 = node1.uid(&ledger.arena).unwrap();
    let uid2 = node2.uid(&ledger.arena).unwrap();
    let uid3 = node3.uid(&ledger.arena).unwrap();

    assert_eq!(uid1.seq_id, 0);
    assert_eq!(uid2.seq_id, 1);
    assert_eq!(uid3.seq_id, 2);

    let chain = node3.get_chain(&ledger.arena);
    println!("Chain: {:?}", chain);
    assert_eq!(chain.len(), 3);
    assert_eq!(chain[0], uid1);
    assert_eq!(chain[1], uid2);
    assert_eq!(chain[2], uid3);
}

fn surface_chain() -> (LedgerTree, LedgerNode, LedgerNode, LedgerNode) {
    let mut ledger_tree = LedgerTree::new();
    let surf_src_id =
        ledger_tree.with_surf("surface1".to_string(), Some("group1".to_string()));
    let mat_src_id = ledger_tree.with_mat("material1".to_string());
    let root = ledger_tree.root();
    let node1 = root.insert(&mut ledger_tree.arena, event(POINT_SOURCE, SrcId::Light(1)));
    let node2 = node1.insert(&mut ledger_tree.arena, event(REFRACTION, surf_src_id));
    let node3 = node2.insert(&mut ledger_tree.arena, event(MIE_FORWARD, mat_src_id));
    (ledger_tree, node1, node2, node3)
}

fn assert_same(ledger: &Ledger, other: &Ledger) {
    assert_eq!(ledger.sources.grps, other.sources.grps);
    assert_eq!(ledger.sources.src_map, other.sources.src_map);
    assert_eq!(ledger.start_events, other.start_events);
    assert_eq!(ledger.next, other.next);
    assert_eq!(ledger.prev, other.prev);
}

#[test]
fn ledger_and_ledger_tree_conversion() {
    let (mut ledger_tree, _node1, _node2, _node3) = surface_chain();

    ledger_tree.resolve();

    let ledger: Ledger = Ledger::from_tree(ledger_tree);

    let ledger_tree_read: LedgerTree = LedgerTree::from(&ledger);
    let ledger_clone: Ledger = Ledger::from_tree(ledger_tree_read);

    assert_same(&ledger, &ledger_clone);
}

#[test]
fn ledger_vs_node_resolve() {
    let (mut ledger_tree, _node1, _node2, node3) = surface_chain();

    node3.resolve(&mut ledger_tree.arena);

    let mut ledger_tree_clone = ledger_tree.clone();
    ledger_tree_clone.resolve();

    let ledger: Ledger = Ledger::from_tree(ledger_tree);
    let ledger_clone: Ledger = Ledger::from_tree(ledger_tree_clone);

    assert_same(&ledger, &ledger_clone);
}

/// Three chains: two end at a boundary, one at a detector. Gives the node at the detector.
fn scattering_tree(ledger_tree: &mut LedgerTree) -> LedgerNode {
    let root = ledger_tree.root();
    let arena = &mut ledger_tree.arena;
    let scatter = event(MIE_UNKNOWN, SrcId::Mat(0));
    let node_0 = root.insert(arena, event(PENCIL_BEAM, SrcId::Light(0)));
    let node_1 = node_0.insert(arena, scatter);

    let node_21 = node_1.insert(arena, scatter);
    let node_22 = node_21.insert(arena, scatter);
    let _node_231 = node_22.insert(arena, event(BOUNDARY, SrcId::Surf(0)));
    let node_232 = node_22.insert(arena, scatter);
    let _node_2321 = node_232.insert(arena, event(BOUNDARY, SrcId::Surf(0)));

    let node_31 = node_1.insert(arena, scatter);
    node_31.insert(arena, event(DETECTION, SrcId::Surf(1)))
}

#[test]
fn test_node_dangling_nodes() {
    let mut ledger_tree = LedgerTree::new();
    let detector_node = scattering_tree(&mut ledger_tree);
    let held = vec![detector_node];

    let root = ledger_tree.root();
    let dangling_nodes = root.get_dangling_nodes(&ledger_tree.arena, &held);
    assert_eq!(dangling_nodes.len(), 2, "Expected dangling nodes to be pruned");

    for node in dangling_nodes.iter() {
        println!("Pruning node: {:?}", node);
        ledger_tree.prune_node(*node);
    }

    let dangling_nodes = root.get_dangling_nodes(&ledger_tree.arena, &held);
    assert_eq!(dangling_nodes.len(), 0, "Expected dangling nodes to be pruned");

    let leaf_nodes = root.get_leaf_nodes(&ledger_tree.arena);
    assert_eq!(leaf_nodes.len(), 1, "Expected only one node captured by the detector");
    assert_eq!(leaf_nodes, held);
    assert_eq!(ledger_tree.get_dangling_nodes(&held).len(), 0);
}

fn detection_chain() -> LedgerTree {
    let mut ledger_tree = LedgerTree::new();
    let root = ledger_tree.root();
    let detection = event(DETECTION, SrcId::NoSource);
    let node1 = root.insert(&mut ledger_tree.arena, detection);
    let node2 = node1.insert(&mut ledger_tree.arena, detection);
    let _node3 = node2.insert(&mut ledger_tree.arena, detection);
    ledger_tree
}

#[test]
fn test_tree_leaf_nodes() {
    let mut ledger_tree = detection_chain();

    ledger_tree.resolve();

    let result = ledger_tree.get_leaf_nodes();
    assert_eq!(result.len(), 1, "Expected exactly one leaf node in a simple chain");

    let root_node_result = ledger_tree.root().get_leaf_nodes(&ledger_tree.arena);
    assert_eq!(root_node_result.len(), 1, "Expected exactly one leaf node in a simple chain");
}

#[test]
fn test_tree_leaf_uids() {
    let mut ledger_tree = detection_chain();

    ledger_tree.resolve();

    let result = ledger_tree.get_leaf_uids();
    assert_eq!(result.len(), 1, "Expected exactly one leaf node UID in a simple chain");
    assert_eq!(result[0], Uid::new(2, event(DETECTION, SrcId::NoSource)));
}

#[test]
fn test_prune_until_bifurcation_nodes() {
    let mut ledger_tree = LedgerTree::new();
    scattering_tree(&mut ledger_tree);

    let dangling_nodes = ledger_tree.get_leaf_nodes();
    assert_eq!(dangling_nodes.len(), 3, "Expected leaf UIDs");
    let detected = BitsPattern { mask: u32::MAX, bits: event(DETECTION, SrcId::Surf(1)) };
    let dangling_lost_nodes = dangling_nodes
        .into_iter()
        .filter(|node| BitsProperty::NoMatch(detected).matches(node.event(&ledger_tree.arena)))
        .collect::<Vec<_>>();

    assert_eq!(dangling_lost_nodes.len(), 2, "Expected dangling UID to be pruned");

    for node in dangling_lost_nodes.iter() {
        println!("Pruning node: {:?}", node);
        ledger_tree.prune_node(*node);
    }

    let left = ledger_tree.get_leaf_nodes();
    assert_eq!(left.len(), 1);
    assert_eq!(left[0].event(&ledger_tree.arena), event(DETECTION, SrcId::Surf(1)));
}

#[test]
fn test_node_count_events() {
    let mut ledger_tree = LedgerTree::new();
    let scatter = event(MIE_UNKNOWN, SrcId::Mat(0));
    {
        let root = ledger_tree.root();
        let arena = &mut ledger_tree.arena;
        let node_0 = root.insert(arena, event(PENCIL_BEAM, SrcId::Light(0)));
        let node_1 = node_0.insert(arena, scatter);
        let node_2 = node_1.insert(arena, scatter);
        let node_3 = node_2.insert(arena, scatter);
        let node_4 = node_3.insert(arena, event(RAMAN_UNKNOWN, SrcId::Mat(1)));
        let node_5 = node_4.insert(arena, event(DIFFUSE, SrcId::Surf(0)));
        let _node_6 = node_5.insert(arena, event(DETECTION, SrcId::NoSource));
    }

    ledger_tree.resolve();

    let result = ledger_tree.get_leaf_nodes();
    assert_eq!(result.len(), 1, "Expected exactly one leaf node in a simple chain");

    let event_counts = result[0].count_events(&ledger_tree.arena);
    assert_eq!(
        event_counts.get(&scatter).cloned().unwrap(),
        3,
        "Expected 3 occurrences of the event in the chain"
    );
    assert_eq!(event_counts.len(), 5);

    let tree_event_counts = ledger_tree.count_events();
    let scatter_event_counts: Vec<usize> =
        tree_event_counts.get(&scatter).unwrap().clone().into_values().collect();
    assert_eq!(scatter_event_counts.len(), 1);
    assert_eq!(
        scatter_event_counts[0],
        3,
        "Expected 3 occurrences of the event in the chain"
    );
    let end = result[0].uid(&ledger_tree.arena).unwrap();
    assert_eq!(tree_event_counts[&scatter][&end.encode()], 3);
}
