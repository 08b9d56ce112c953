//! Unique identifiers of ledger events.
use vstd::prelude::*;

verus! {

/// Identifies one event of a ledger: the sequence number shared by all events that can follow
/// the same predecessor, and the 32-bit code of the event itself.
#[derive(Clone, Copy, PartialEq, Eq, Structural, Debug, Hash)]
pub struct Uid {
    pub seq_id: u32,
    pub event: u32,
}

/// The 64-bit code of an identifier: the sequence number in the high half, the event in the low.
pub open spec fn uid_code(uid: Uid) -> u64 {
    (uid.seq_id * 0x1_0000_0000 + uid.event) as u64
}

impl Uid {
    pub fn new(seq_id: u32, event: u32) -> (uid: Uid)
        ensures
            uid == (Uid { seq_id, event }),
    {
        Uid { seq_id, event }
    }

    pub fn encode(&self) -> (code: u64)
        ensures
            code == uid_code(*self),
            code == self.seq_id * 0x1_0000_0000 + self.event,
    {
        self.seq_id as u64 * 0x1_0000_0000u64 + self.event as u64
    }

    pub fn decode(code: u64) -> (uid: Uid)
        ensures
            uid_code(uid) == code,
    {
        let seq_id = (code / 0x1_0000_0000u64) as u32;
        let event = (code % 0x1_0000_0000u64) as u32;
        Uid { seq_id, event }
    }
}

/// Different identifiers have different codes.
pub proof fn uid_code_is_injective(a: Uid, b: Uid)
    ensures
        uid_code(a) == uid_code(b) ==> a == b,
{
    assert(uid_code(a) == a.seq_id * 0x1_0000_0000 + a.event);
    assert(uid_code(b) == b.seq_id * 0x1_0000_0000 + b.event);
}

} // verus!
