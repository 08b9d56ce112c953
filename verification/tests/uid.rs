use events_ledger::uid::Uid;

#[test]
fn uid_codes_round_trip() {
    let uid = Uid::new(0x12, 0x0300_0001);
    assert_eq!(uid.encode(), 0x0000_0012_0300_0001);
    assert_eq!(Uid::decode(uid.encode()), uid);
}
