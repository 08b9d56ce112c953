use std::collections::BTreeMap;
use std::collections::HashMap;

use events_ledger::hexmap::{HexInnerMap, HexKeyError};
use events_ledger::ledger::Ledger;
use events_ledger::source::{SrcId, SrcName};
use events_ledger::sources::IdOverlap;
use events_ledger::tree::LedgerTree;
use events_ledger::uid::Uid;

#[test]
fn entries_link_both_ways() {
    let mut ledger = Ledger::new();
    let start = Uid::new(0, 7);
    let second = Uid::new(1, 3);
    let third = Uid::new(1, 2);
    ledger.insert_start(start);
    ledger.insert(start, second, 4);
    ledger.insert(start, third, 5);
    assert_eq!(ledger.get_next_seq_id(&start), Some(1));
    assert_eq!(ledger.get_next_seq_id(&second), Some(4));
    assert_eq!(ledger.get_next_seq_id(&Uid::new(1, 9)), None);
    assert_eq!(ledger.get_next_seq_id(&Uid::new(8, 9)), None);
    assert_eq!(ledger.get_next(&start), vec![third, second]);
    assert!(ledger.get_next(&second).is_empty());
    assert!(ledger.get_next(&Uid::new(8, 9)).is_empty());
    assert_eq!(ledger.prev[&1], start);
    assert_eq!(ledger.prev[&4], second);
    assert_eq!(ledger.prev[&5], third);
    assert_eq!(ledger.start_events(), &vec![start]);
}

#[test]
fn new_and_default_ledgers() {
    let ledger = Ledger::new();
    assert_eq!(ledger.sources.next_matsurf_id, u16::MAX);
    assert!(ledger.start_events().is_empty());
    let ledger = Ledger::default();
    assert_eq!(ledger.sources.next_matsurf_id, 0);
    assert_eq!(ledger.next_seq_id, 0);
}

#[test]
fn lights_get_fresh_ids() {
    let mut tree = LedgerTree::new();
    assert_eq!(tree.with_light("a".to_string()), SrcId::Light(0));
    assert_eq!(tree.with_light("b".to_string()), SrcId::Light(1));
    assert_eq!(
        tree.sources.names(SrcId::Light(1)).unwrap(),
        &vec![SrcName::Light("b".to_string())]
    );
}

#[test]
fn groups_share_a_surface() {
    let mut tree = LedgerTree::new();
    let grp = Some("walls".to_string());
    let first = tree.with_surf("north".to_string(), grp.clone());
    let second = tree.with_surf("south".to_string(), grp.clone());
    assert_eq!(first, SrcId::Surf(0));
    assert_eq!(second, first);
    assert_eq!(
        tree.sources.names(first).unwrap(),
        &vec![SrcName::Surf("north".to_string()), SrcName::Surf("south".to_string())]
    );
    assert_eq!(tree.with_surf("lid".to_string(), None), SrcId::Surf(1));
}

#[test]
fn a_material_moves_the_names_of_a_group() {
    let mut tree = LedgerTree::new();
    let grp = Some("walls".to_string());
    tree.with_surf("north".to_string(), grp.clone());
    let merged = tree.with_matsurf("south".to_string(), "glass".to_string(), grp.clone());
    assert_eq!(merged, SrcId::MatSurf(u16::MAX));
    assert_eq!(tree.sources.names(SrcId::Surf(0)), None);
    assert_eq!(
        tree.sources.names(SrcId::Surf(u16::MAX)).unwrap(),
        &vec![SrcName::Surf("north".to_string())]
    );
    assert_eq!(
        tree.sources.names(merged).unwrap(),
        &vec![SrcName::MatSurf("south:glass".to_string())]
    );
}

#[test]
fn groups_with_material_share_an_id() {
    let mut tree = LedgerTree::new();
    let grp = Some("lens".to_string());
    let first = tree.with_matsurf("front".to_string(), "glass".to_string(), grp.clone());
    let second = tree.with_matsurf("back".to_string(), "glass".to_string(), grp.clone());
    assert_eq!(first, SrcId::MatSurf(u16::MAX));
    assert_eq!(second, first);
    assert_eq!(tree.with_surf("rim".to_string(), grp.clone()), first);
    assert_eq!(tree.sources.next_matsurf_id, u16::MAX - 1);
}

#[test]
fn a_group_that_stands_for_a_material() {
    let mut tree = LedgerTree::new();
    let mat = tree.with_mat("water".to_string());
    tree.sources.grps.insert("pool".to_string(), mat);
    let id = tree.with_surf("tiles".to_string(), Some("pool".to_string()));
    assert_eq!(id, SrcId::MatSurf(u16::MAX));
    assert_eq!(tree.sources.names(mat), None);
    assert_eq!(
        tree.sources.names(SrcId::Mat(u16::MAX)).unwrap(),
        &vec![SrcName::Mat("water".to_string())]
    );
    let mut tree = LedgerTree::new();
    let mat = tree.with_mat("water".to_string());
    tree.sources.grps.insert("pool".to_string(), mat);
    let id =
        tree.with_matsurf("tiles".to_string(), "clay".to_string(), Some("pool".to_string()));
    assert_eq!(id, SrcId::MatSurf(u16::MAX));
    assert_eq!(
        tree.sources.names(SrcId::Mat(u16::MAX)).unwrap(),
        &vec![SrcName::Mat("water".to_string())]
    );
}

#[test]
fn overlapping_ids_are_noticed() {
    let mut tree = LedgerTree::new();
    assert_eq!(tree.check_ids(), IdOverlap { mat: false, surf: false });
    tree.sources.next_matsurf_id = 1;
    tree.with_mat("a".to_string());
    assert_eq!(tree.check_ids(), IdOverlap { mat: true, surf: false });
    tree.with_surf("b".to_string(), None);
    assert_eq!(tree.check_ids(), IdOverlap { mat: true, surf: true });
}

#[test]
fn names_lead_to_sources() {
    let mut tree = LedgerTree::new();
    let lamp = tree.with_light("lamp".to_string());
    let wall = tree.with_surf("wall".to_string(), None);
    let lens = tree.with_matsurf("lens".to_string(), "glass".to_string(), None);
    let dict: HashMap<SrcName, SrcId> = tree.get_src_dict().into_iter().collect();
    assert_eq!(dict.len(), 3);
    assert_eq!(dict[&SrcName::Light("lamp".to_string())], lamp);
    assert_eq!(dict[&SrcName::Surf("wall".to_string())], wall);
    assert_eq!(dict[&SrcName::MatSurf("lens:glass".to_string())], lens);
    let other = tree.with_surf("wall".to_string(), None);
    let dict = tree.get_src_dict();
    assert_eq!(dict.len(), 3);
    let found = dict.iter().find(|entry| entry.0 == SrcName::Surf("wall".to_string())).unwrap();
    assert!(found.1 == wall || found.1 == other);
}

#[test]
fn source_codes_round_trip() {
    let ids = vec![
        SrcId::NoSource,
        SrcId::SrcId(0),
        SrcId::Mat(u16::MAX),
        SrcId::Surf(1),
        SrcId::MatSurf(2),
        SrcId::Light(3),
        SrcId::Detector(u16::MAX),
    ];
    for id in ids {
        assert_eq!(SrcId::from_code(id.code()), id);
    }
    assert_eq!(SrcId::Mat(5).code(), 0x2_0005);
}

#[test]
fn hex_maps_round_trip() {
    let mut map = BTreeMap::new();
    map.insert(0x0300_002A, 1);
    map.insert(0, 2);
    map.insert(u32::MAX, 3);
    let entries = HexInnerMap::serialize_as(&map);
    let expected = vec![
        ("0x00000000".to_string(), 2),
        ("0x0300002A".to_string(), 1),
        ("0xFFFFFFFF".to_string(), 3),
    ];
    assert_eq!(entries, expected);
    assert_eq!(HexInnerMap::deserialize_as(&entries), Ok(map));
}

#[test]
fn hex_keys_are_read_leniently() {
    let entries = vec![
        ("0xdeadBEEF".to_string(), 1),
        ("#!+0000010 and more".to_string(), 2),
        ("0xDEADBEEF".to_string(), 3),
    ];
    let map = HexInnerMap::deserialize_as(&entries).unwrap();
    assert_eq!(map.len(), 2);
    assert_eq!(map[&0xDEAD_BEEF], 3);
    assert_eq!(map[&0x10], 2);
}

#[test]
fn bad_hex_keys_are_named() {
    let entries = vec![
        ("0x00000001".to_string(), 1),
        ("0x0000000g".to_string(), 2),
        ("short".to_string(), 3),
    ];
    let error = HexInnerMap::deserialize_as(&entries).unwrap_err();
    assert_eq!(error, HexKeyError { key: "0x0000000g".to_string() });
    assert_eq!(error.message(), "invalid hex key 0x0000000g: invalid digit found in string");
    let signed = vec![("0x-0000001".to_string(), 1)];
    assert!(HexInnerMap::deserialize_as(&signed).is_err());
}

#[test]
fn sources_that_cannot_be_added() {
    let mut tree = LedgerTree::new();
    let walls = Some("walls".to_string());
    assert!(tree.sources.accepts_light() && tree.sources.accepts_mat());
    assert!(tree.sources.accepts_surf(&None) && tree.sources.accepts_surf(&walls));
    assert!(tree.sources.accepts_matsurf(&None) && tree.sources.accepts_matsurf(&walls));
    tree.sources.next_light_id = u16::MAX;
    tree.sources.next_mat_id = u16::MAX;
    tree.sources.next_surf_id = u16::MAX;
    tree.sources.next_matsurf_id = 0;
    assert!(!tree.sources.accepts_light() && !tree.sources.accepts_mat());
    assert!(!tree.sources.accepts_surf(&walls) && !tree.sources.accepts_matsurf(&walls));

    let mut tree = LedgerTree::new();
    let lamp = tree.with_light("lamp".to_string());
    tree.sources.next_light_id = 0;
    assert!(!tree.sources.accepts_light());
    tree.sources.grps.insert("lit".to_string(), lamp);
    let lit = Some("lit".to_string());
    assert!(!tree.sources.accepts_surf(&lit) && !tree.sources.accepts_matsurf(&lit));
    tree.sources.grps.insert("lit".to_string(), SrcId::Mat(9));
    assert!(!tree.sources.accepts_surf(&lit) && !tree.sources.accepts_matsurf(&lit));
    tree.sources.grps.insert("lit".to_string(), SrcId::Surf(9));
    assert!(tree.sources.accepts_surf(&lit) && !tree.sources.accepts_matsurf(&lit));
    assert_eq!(tree.sources.grps.entries.len(), 1);
}

#[test]
fn a_group_keeps_its_surface_after_a_merge() {
    let mut tree = LedgerTree::new();
    let grp = Some("walls".to_string());
    tree.with_surf("north".to_string(), grp.clone());
    tree.with_matsurf("south".to_string(), "glass".to_string(), grp.clone());
    assert!(!tree.sources.accepts_matsurf(&grp));
    assert_eq!(tree.with_surf("east".to_string(), grp.clone()), SrcId::Surf(0));
    assert!(tree.sources.accepts_matsurf(&grp));
}

#[test]
fn free_numbers_lie_past_all_in_use() {
    let mut ledger = Ledger::new();
    ledger.next_seq_id = 0;
    assert_eq!(ledger.first_free_number(), 1);
    let start = Uid::new(0, 7);
    ledger.insert_start(start);
    assert_eq!(ledger.first_free_number(), 2);
    ledger.insert(start, Uid::new(1, 3), 40);
    assert_eq!(ledger.first_free_number(), 41);
    ledger.next_seq_id = 50;
    assert_eq!(ledger.first_free_number(), 50);
    ledger.insert(Uid::new(1, 3), Uid::new(60, 3), 5);
    assert_eq!(ledger.first_free_number(), 61);
    ledger.insert(Uid::new(1, 3), Uid::new(60, 4), u32::MAX - 1);
    assert_eq!(ledger.first_free_number(), u32::MAX);
    ledger.insert(Uid::new(1, 3), Uid::new(60, 5), u32::MAX);
    assert_eq!(ledger.first_free_number(), u32::MAX);
}

#[test]
fn start_events_need_not_be_entered() {
    let mut ledger = Ledger::new();
    ledger.start_events.push(Uid::new(0, 5));
    ledger.insert_start(Uid::new(0, 7));
    assert!(ledger.records_tree());
    let tree = LedgerTree::from(&ledger);
    let children = tree.root().children(&tree.arena);
    assert_eq!(children.len(), 2);
    assert_eq!(children[0].uid(&tree.arena), Some(Uid::new(0, 5)));
    assert_eq!(tree.arena.next_seq_no_of(children[0]), None);
    assert_eq!(tree.arena.next_seq_no_of(children[1]), Some(1));
    assert!(children[0].children(&tree.arena).is_empty());
}

#[test]
fn start_events_with_the_same_code_are_one_child() {
    let mut ledger = Ledger::new();
    ledger.start_events.push(Uid::new(3, 7));
    ledger.insert_start(Uid::new(0, 7));
    ledger.insert(Uid::new(0, 7), Uid::new(1, 2), 4);
    assert!(ledger.records_tree());
    let tree = LedgerTree::from(&ledger);
    let children = tree.root().children(&tree.arena);
    assert_eq!(children.len(), 1);
    assert_eq!(children[0].event(&tree.arena), 7);
    assert_eq!(tree.arena.next_seq_no_of(children[0]), Some(1));
    assert_eq!(children[0].children(&tree.arena).len(), 1);
    ledger.insert_start(Uid::new(0, 7));
    assert!(!ledger.records_tree());
}

#[test]
fn chains_that_do_not_end_record_no_tree() {
    let mut ledger = Ledger::new();
    assert!(ledger.records_tree());
    let start = Uid::new(0, 7);
    let second = Uid::new(1, 3);
    ledger.insert_start(start);
    ledger.insert(start, second, 4);
    ledger.insert(second, Uid::new(4, 2), 5);
    ledger.insert(second, Uid::new(4, 1), 6);
    assert!(ledger.records_tree());
    // A loop that no start event leads into does not matter.
    ledger.insert(Uid::new(30, 1), Uid::new(31, 1), 31);
    assert!(ledger.records_tree());
    ledger.insert(Uid::new(4, 1), Uid::new(6, 8), 1);
    assert!(!ledger.records_tree());
}
