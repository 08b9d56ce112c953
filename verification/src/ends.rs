//! Telling whether the chains of a ledger come to an end.
use std::collections::{BTreeMap, HashSet};
use vstd::prelude::*;
use vstd::std_specs::iter::IteratorSpec;
use crate::ledger::{Ledger, LedgerView, lemma_increasing};
use crate::rebuild::lemma_follow_ups;
use crate::uid::Uid;

verus! {

impl LedgerView {
    /// No chain of events that starts with number `s` has more than `depth` events.
    spec fn group_bounded(self, s: u32, depth: nat) -> bool
        decreases depth,
    {
        !self.next.contains_key(s) || (depth > 0 && forall|e: u32| #[trigger]
            self.next[s].contains_key(e) ==> self.group_bounded(
                self.next[s][e],
                (depth - 1) as nat,
            ))
    }

    /// Of the numbers that events with number `s` hand out, all have no events, or are in `done`.
    spec fn leads_to_done(self, s: u32, done: Set<u32>) -> bool {
        forall|e: u32| #[trigger]
            self.next[s].contains_key(e) ==> !self.next.contains_key(self.next[s][e])
                || done.contains(self.next[s][e])
    }
}

proof fn lemma_deeper(l: LedgerView, s: u32, depth: nat)
    requires
        l.group_bounded(s, depth),
    ensures
        l.group_bounded(s, depth + 1),
    decreases depth,
{
    if l.next.contains_key(s) {
        assert forall|e: u32| #[trigger] l.next[s].contains_key(e) implies l.group_bounded(
            l.next[s][e],
            depth,
        ) by {
            lemma_deeper(l, l.next[s][e], (depth - 1) as nat);
        }
    }
}

proof fn lemma_next_bounded(l: LedgerView, done: Set<u32>, s: u32, depth: nat)
    requires
        l.leads_to_done(s, done),
        forall|x: u32| #[trigger] done.contains(x) ==> l.group_bounded(x, depth),
    ensures
        l.group_bounded(s, depth + 1),
{
    assert forall|e: u32| #[trigger] l.next[s].contains_key(e) implies l.group_bounded(
        l.next[s][e],
        depth,
    ) by {
        if l.next.contains_key(l.next[s][e]) {
            assert(done.contains(l.next[s][e]));
        }
    }
}

proof fn lemma_bounded_group(l: LedgerView, uid: Uid, depth: nat)
    requires
        l.wf(),
        l.bounded(uid, depth),
    ensures
        l.next_of(uid) matches Some(s) ==> l.group_bounded(s, depth + 1),
    decreases depth,
{
    lemma_follow_ups(l, uid);
    if let Some(s) = l.next_of(uid) {
        if l.next.contains_key(s) {
            assert forall|e: u32| #[trigger] l.next[s].contains_key(e) implies l.group_bounded(
                l.next[s][e],
                depth,
            ) by {
                let v = Uid { seq_id: s, event: e };
                assert(l.next_of(v) == Some(l.next[s][e]));
                assert(l.follow_ups(uid).contains(v));
                let k = choose|k: int|
                    0 <= k < l.follow_ups(uid).len() && l.follow_ups(uid)[k] == v;
                assert(l.bounded(l.follow_ups(uid)[k], (depth - 1) as nat));
                lemma_bounded_group(l, v, (depth - 1) as nat);
            }
        }
    }
}

proof fn lemma_group_ends(l: LedgerView, uid: Uid, depth: nat)
    requires
        l.wf(),
        l.next_of(uid) matches Some(s) ==> l.group_bounded(s, depth),
    ensures
        l.bounded(uid, depth),
    decreases depth,
{
    lemma_follow_ups(l, uid);
    if l.follow_ups(uid).len() > 0 {
        let s = l.next_of(uid).unwrap();
        assert forall|k: int| 0 <= k < l.follow_ups(uid).len() implies l.bounded(
            #[trigger] l.follow_ups(uid)[k],
            (depth - 1) as nat,
        ) by {
            let v = l.follow_ups(uid)[k];
            assert(l.next_of(v) is Some);
            assert(l.next[s].contains_key(v.event));
            lemma_group_ends(l, v, (depth - 1) as nat);
        }
    }
}

/// Once no more numbers can be added, `done` has all numbers whose chains end.
proof fn lemma_all_found(l: LedgerView, done: Set<u32>, s: u32, depth: nat)
    requires
        forall|x: u32| #[trigger]
            l.next.contains_key(x) && !done.contains(x) ==> !l.leads_to_done(x, done),
        l.group_bounded(s, depth),
    ensures
        !l.next.contains_key(s) || done.contains(s),
    decreases depth,
{
    if l.next.contains_key(s) && !done.contains(s) {
        let e = choose|e: u32| #[trigger]
            l.next[s].contains_key(e) && l.next.contains_key(l.next[s][e]) && !done.contains(
                l.next[s][e],
            );
        lemma_all_found(l, done, l.next[s][e], (depth - 1) as nat);
    }
}

spec fn open_count(flags: Seq<bool>) -> nat
    decreases flags.len(),
{
    if flags.len() == 0 {
        0
    } else {
        open_count(flags.drop_last()) + if flags.last() {
            0nat
        } else {
            1
        }
    }
}

proof fn lemma_open_count(flags: Seq<bool>, i: int)
    requires
        0 <= i < flags.len(),
        !flags[i],
    ensures
        open_count(flags.update(i, true)) + 1 == open_count(flags),
    decreases flags.len(),
{
    let after = flags.update(i, true);
    if i < flags.len() - 1 {
        lemma_open_count(flags.drop_last(), i);
        assert(after.drop_last() =~= flags.drop_last().update(i, true));
    } else {
        assert(after.drop_last() =~= flags.drop_last());
    }
}

impl Ledger {
    /// The sequence numbers of the events of the ledger.
    fn seq_ids(&self) -> (keys: Vec<u32>)
        ensures
            forall|s: u32| #[trigger] keys@.contains(s) <==> self@.next.contains_key(s),
            keys@.no_duplicates(),
    {
        let mut keys: Vec<u32> = Vec::new();
        let ghost groups = self.next.iter().remaining();
        let ghost listed: Seq<u32> = Seq::new(groups.len(), |k: int| *groups[k].0);
        for group in it: self.next.iter()
            invariant
                it.seq() == groups,
                listed == Seq::new(groups.len(), |k: int| *groups[k].0),
                keys@ == listed.take(it.index() as int),
        {
            keys.push(*group.0);
        }
        proof {
            assert(listed.take(groups.len() as int) == listed);
            assert(listed =~= groups.map_values(|kv: (&u32, &BTreeMap<u32, u32>)| *kv.0));
            lemma_increasing(listed);
            assert forall|s: u32| #[trigger] keys@.contains(s) <==> self@.next.contains_key(s) by {
                if self@.next.contains_key(s) {
                    let i = choose|i: int|
                        0 <= i < groups.len() && groups[i] == (&s, &self.next@[s]);
                    assert(listed[i] == s);
                }
            }
        }
        keys
    }

    /// Whether all numbers that events with number `s` hand out have no events, or are done.
    fn leads_to_done(&self, s: u32, done: &HashSet<u32>) -> (leads: bool)
        requires
            self@.next.contains_key(s),
        ensures
            leads == self@.leads_to_done(s, done@),
    {
        let events = self.next.get(&s).unwrap();
        let ghost entries = events.iter().remaining();
        for entry in it: events.iter()
            invariant
                it.seq() == entries,
                self@.next.contains_key(s),
                self@.next[s] == events@,
                forall|i: int|
                    0 <= i < entries.len() ==> events@.contains_key(*(#[trigger] entries[i]).0)
                        && events@[*entries[i].0] == *entries[i].1,
                forall|i: int|
                    0 <= i < it.index() ==> !self@.next.contains_key(*(#[trigger] entries[i]).1)
                        || done@.contains(*entries[i].1),
        {
            let (event, number) = entry;
            if self.next.get(number).is_some() && !done.contains(number) {
                assert(self@.next[s].contains_key(*event));
                return false;
            }
        }
        proof {
            assert forall|e: u32| #[trigger] self@.next[s].contains_key(e) implies
                !self@.next.contains_key(self@.next[s][e]) || done@.contains(
                self@.next[s][e],
            ) by {
                let i = choose|i: int| 0 <= i < entries.len() && entries[i] == (&e, &events@[e]);
                assert(*entries[i].1 == events@[e]);
            }
        }
        true
    }

    /// The numbers of events whose chains come to an end.
    fn ending_numbers(&self) -> (done: HashSet<u32>)
        requires
            self.wf(),
        ensures
            forall|s: u32| #[trigger]
                self@.next.contains_key(s) ==> (done@.contains(s) <==> exists|depth: nat|
                    self@.group_bounded(s, depth)),
    {
        let ghost l = self@;
        let keys = self.seq_ids();
        let mut flags: Vec<bool> = Vec::new();
        let mut k: usize = 0;
        while k < keys.len()
            invariant
                k <= keys@.len(),
                flags@.len() == k,
                forall|i: int| 0 <= i < k ==> !(#[trigger] flags@[i]),
            decreases keys.len() - k,
        {
            flags.push(false);
            k += 1;
        }
        let mut done: HashSet<u32> = HashSet::new();
        let ghost mut depth: nat = 0;
        let mut changed = true;
        while changed
            invariant
                l == self@,
                flags@.len() == keys@.len(),
                keys@.no_duplicates(),
                forall|s: u32| #[trigger] keys@.contains(s) <==> l.next.contains_key(s),
                forall|i: int|
                    0 <= i < keys@.len() ==> (#[trigger] flags@[i] <==> done@.contains(keys@[i])),
                forall|s: u32| #[trigger] done@.contains(s) ==> l.group_bounded(s, depth),
                !changed ==> forall|s: u32| #[trigger]
                    l.next.contains_key(s) && !done@.contains(s) ==> !l.leads_to_done(s, done@),
            decreases open_count(flags@), if changed { 1nat } else { 0 },
        {
            changed = false;
            let ghost before = open_count(flags@);
            let mut i: usize = 0;
            while i < keys.len()
                invariant
                    l == self@,
                    i <= keys@.len(),
                    flags@.len() == keys@.len(),
                    keys@.no_duplicates(),
                    forall|s: u32| #[trigger] keys@.contains(s) <==> l.next.contains_key(s),
                    forall|i: int|
                        0 <= i < keys@.len() ==> (#[trigger] flags@[i] <==> done@.contains(
                            keys@[i],
                        )),
                    forall|s: u32| #[trigger] done@.contains(s) ==> l.group_bounded(s, depth),
                    open_count(flags@) <= before,
                    changed ==> open_count(flags@) < before,
                    !changed ==> forall|j: int|
                        0 <= j < i && !done@.contains(#[trigger] keys@[j]) ==> !l.leads_to_done(
                            keys@[j],
                            done@,
                        ),
                decreases keys.len() - i,
            {
                let s = keys[i];
                assert(keys@.contains(keys@[i as int]));
                if !flags[i] && self.leads_to_done(s, &done) {
                    let ghost earlier = done@;
                    let ghost marks = flags@;
                    flags.set(i, true);
                    done.insert(s);
                    changed = true;
                    proof {
                        lemma_open_count(marks, i as int);
                        assert forall|x: u32| #[trigger] done@.contains(x) implies l.group_bounded(
                            x,
                            depth + 1,
                        ) by {
                            if x != s {
                                assert(earlier.contains(x));
                                lemma_deeper(l, x, depth);
                            } else {
                                lemma_next_bounded(l, earlier, s, depth);
                            }
                        }
                        depth = depth + 1;
                    }
                }
                i += 1;
            }
            proof {
                if !changed {
                    assert forall|s: u32| #[trigger]
                        l.next.contains_key(s) && !done@.contains(s) implies !l.leads_to_done(
                        s,
                        done@,
                    ) by {
                        assert(keys@.contains(s));
                        let j = choose|j: int| 0 <= j < keys@.len() && keys@[j] == s;
                        assert(!done@.contains(keys@[j]));
                    }
                }
            }
        }
        proof {
            assert forall|s: u32| #[trigger] l.next.contains_key(s) implies (done@.contains(s)
                <==> exists|d: nat| l.group_bounded(s, d)) by {
                if exists|d: nat| l.group_bounded(s, d) {
                    let d = choose|d: nat| l.group_bounded(s, d);
                    lemma_all_found(l, done@, s, d);
                }
            }
        }
        done
    }

    /// Whether the ledger records a tree.
    pub fn records_tree(&self) -> (records: bool)
        requires
            self.wf(),
        ensures
            records == self@.records_tree(),
    {
        let ghost l = self@;
        let done = self.ending_numbers();
        let mut k: usize = 0;
        while k < self.start_events.len()
            invariant
                l == self@,
                self.wf(),
                k <= l.start_events.len(),
                forall|s: u32| #[trigger]
                    l.next.contains_key(s) ==> (done@.contains(s) <==> exists|depth: nat|
                        l.group_bounded(s, depth)),
                forall|i: int| 0 <= i < k ==> l.ends(#[trigger] l.start_events[i]),
                forall|i: int, j: int|
                    0 <= i < j < k && (#[trigger] l.start_events[i]).event == (
                    #[trigger] l.start_events[j]).event ==> l.next_of(l.start_events[i]) is None
                        || l.next_of(l.start_events[j]) is None,
            decreases self.start_events.len() - k,
        {
            let uid = self.start_events[k];
            if let Some(s) = self.get_next_seq_id(&uid) {
                if self.next.get(&s).is_some() && !done.contains(&s) {
                    proof {
                        if l.ends(uid) {
                            let d = choose|d: nat| l.bounded(uid, d);
                            lemma_bounded_group(l, uid, d);
                        }
                        assert(l.start_events[k as int] == uid);
                    }
                    return false;
                }
                proof {
                    if l.next.contains_key(s) {
                        let d = choose|d: nat| l.group_bounded(s, d);
                        lemma_group_ends(l, uid, d);
                    } else {
                        lemma_group_ends(l, uid, 0);
                    }
                }
                let mut j: usize = 0;
                while j < k
                    invariant
                        l == self@,
                        j <= k < l.start_events.len(),
                        uid == l.start_events[k as int],
                        l.next_of(uid) is Some,
                        forall|i: int|
                            0 <= i < j && (#[trigger] l.start_events[i]).event == uid.event
                                ==> l.next_of(l.start_events[i]) is None,
                    decreases k - j,
                {
                    if self.start_events[j].event == uid.event && self.get_next_seq_id(
                        &self.start_events[j],
                    ).is_some() {
                        assert(l.start_events[j as int].event == l.start_events[k as int].event);
                        return false;
                    }
                    j += 1;
                }
            } else {
                proof {
                    lemma_group_ends(l, uid, 0);
                }
            }
            assert(l.ends(l.start_events[k as int]));
            k += 1;
        }
        true
    }
}

} // verus!
