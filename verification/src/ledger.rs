//! Event ledger for tracking photon event chains.
use std::collections::BTreeMap;
use vstd::prelude::*;
use vstd::std_specs::cmp::OrdSpec;
use vstd::std_specs::iter::IteratorSpec;
use crate::sources::{SourceTable, SourceView};
use crate::uid::Uid;

verus! {

/// `s` lists the members of `dom` in ascending order.
pub open spec fn lists_ascending(s: Seq<u32>, dom: Set<u32>) -> bool {
    &&& forall|i: int, j: int| 0 <= i < j < s.len() ==> (#[trigger] s[i]) < (#[trigger] s[j])
    &&& forall|x: u32| dom.contains(x) <==> #[trigger] s.contains(x)
}

/// The members of `dom` in ascending order.
pub open spec fn ascending(dom: Set<u32>) -> Seq<u32> {
    choose|s: Seq<u32>| lists_ascending(s, dom)
}

/// There is only one way to list a set in ascending order.
pub proof fn lemma_ascending_unique(s: Seq<u32>, t: Seq<u32>, dom: Set<u32>)
    requires
        lists_ascending(s, dom),
        lists_ascending(t, dom),
    ensures
        s == t,
    decreases s.len(),
{
    if s.len() == 0 {
        if t.len() > 0 {
            assert(t.contains(t[0]));
            assert(s.contains(t[0]));
        }
    } else {
        assert(s.contains(s.last()));
        assert(t.contains(s.last()));
        assert(t.contains(t.last()));
        assert(s.contains(t.last()));
        let i = choose|i: int| 0 <= i < t.len() && t[i] == s.last();
        let j = choose|j: int| 0 <= j < s.len() && s[j] == t.last();
        assert(s.last() == t.last());
        let rest = dom.remove(s.last());
        lemma_drop_largest(s, dom);
        lemma_drop_largest(t, dom);
        lemma_ascending_unique(s.drop_last(), t.drop_last(), rest);
        assert(s == s.drop_last().push(s.last()));
        assert(t == t.drop_last().push(t.last()));
    }
}

proof fn lemma_drop_largest(s: Seq<u32>, dom: Set<u32>)
    requires
        lists_ascending(s, dom),
        s.len() > 0,
    ensures
        lists_ascending(s.drop_last(), dom.remove(s.last())),
{
    let t = s.drop_last();
    assert forall|x: u32| dom.remove(s.last()).contains(x) <==> #[trigger] t.contains(x) by {
        if t.contains(x) {
            let i = choose|i: int| 0 <= i < t.len() && t[i] == x;
            assert(s[i] == x);
            assert(s.contains(x));
            assert(s[i] < s[s.len() - 1]);
        }
        if dom.remove(s.last()).contains(x) {
            assert(s.contains(x));
            let i = choose|i: int| 0 <= i < s.len() && s[i] == x;
            assert(t[i] == x);
        }
    }
}

/// `s` with `x` put in where it belongs.
spec fn put_in(s: Seq<u32>, x: u32) -> Seq<u32>
    decreases s.len(),
{
    if s.len() == 0 || s.last() < x {
        s.push(x)
    } else {
        put_in(s.drop_last(), x).push(s.last())
    }
}

proof fn lemma_put_in(s: Seq<u32>, x: u32, dom: Set<u32>)
    requires
        lists_ascending(s, dom),
        !dom.contains(x),
    ensures
        lists_ascending(put_in(s, x), dom.insert(x)),
    decreases s.len(),
{
    let t = put_in(s, x);
    if s.len() == 0 || s.last() < x {
        assert forall|y: u32| dom.insert(x).contains(y) <==> #[trigger] t.contains(y) by {
            assert(t[s.len() as int] == x);
            if dom.contains(y) {
                assert(s.contains(y));
                let i = choose|i: int| 0 <= i < s.len() && s[i] == y;
                assert(t[i] == y);
            }
            if t.contains(y) && y != x {
                let i = choose|i: int| 0 <= i < t.len() && t[i] == y;
                assert(s[i] == y);
                assert(s.contains(y));
            }
        }
    } else {
        let rest = s.drop_last();
        let largest = s.last();
        assert(s.contains(s[s.len() - 1]));
        lemma_drop_largest(s, dom);
        let below = dom.remove(largest);
        lemma_put_in(rest, x, below);
        let u = put_in(rest, x);
        assert forall|i: int| 0 <= i < u.len() implies (#[trigger] u[i]) < largest by {
            assert(u.contains(u[i]));
            if u[i] != x {
                assert(below.contains(u[i]));
                assert(rest.contains(u[i]));
                let j = choose|j: int| 0 <= j < rest.len() && rest[j] == u[i];
                assert(s[j] < s[s.len() - 1]);
            }
        }
        assert forall|y: u32| dom.insert(x).contains(y) <==> #[trigger] t.contains(y) by {
            assert(t[u.len() as int] == largest);
            if dom.insert(x).contains(y) && y != largest {
                assert(u.contains(y));
                let i = choose|i: int| 0 <= i < u.len() && u[i] == y;
                assert(t[i] == y);
            }
            if t.contains(y) && y != largest {
                let i = choose|i: int| 0 <= i < t.len() && t[i] == y;
                assert(u[i] == y);
                assert(u.contains(y));
            }
        }
    }
}

/// A finite set can be listed in ascending order.
pub proof fn lemma_ascending(dom: Set<u32>)
    requires
        dom.finite(),
    ensures
        lists_ascending(ascending(dom), dom),
    decreases dom.len(),
{
    if dom.is_empty() {
        let s = Seq::<u32>::empty();
        assert forall|x: u32| dom.contains(x) <==> #[trigger] s.contains(x) by {}
        assert(lists_ascending(s, dom));
    } else {
        let x = dom.choose();
        let rest = dom.remove(x);
        lemma_ascending(rest);
        lemma_put_in(ascending(rest), x, rest);
        assert(rest.insert(x) =~= dom);
        assert(lists_ascending(put_in(ascending(rest), x), dom));
    }
}

pub proof fn lemma_increasing(s: Seq<u32>)
    requires
        vstd::std_specs::btree::increasing_seq(s),
    ensures
        forall|i: int, j: int| 0 <= i < j < s.len() ==> (#[trigger] s[i]) < (#[trigger] s[j]),
{
    assert forall|i: int, j: int| 0 <= i < j < s.len() implies (#[trigger] s[i]) < (
    #[trigger] s[j]) by {
        assert(s[i].cmp_spec(&s[j]) is Less);
    }
}

/// The mathematical model of a [`Ledger`].
#[verifier::ext_equal]
pub struct LedgerView {
    pub sources: SourceView,
    /// The events that no other event led to, oldest first.
    pub start_events: Seq<Uid>,
    /// By sequence number and event: the sequence number of the events that follow.
    pub next: Map<u32, Map<u32, u32>>,
    /// By sequence number: the event that events with the number follow.
    pub prev: Map<u32, Uid>,
    pub next_seq_id: u32,
}

impl LedgerView {
    pub open spec fn initial() -> LedgerView {
        LedgerView {
            sources: SourceView::initial(),
            start_events: Seq::empty(),
            next: Map::empty(),
            prev: Map::empty(),
            next_seq_id: 0,
        }
    }

    /// The sequence number of the events that follow `uid`, where the ledger has `uid`.
    pub open spec fn next_of(self, uid: Uid) -> Option<u32> {
        if self.next.contains_key(uid.seq_id) && self.next[uid.seq_id].contains_key(uid.event) {
            Some(self.next[uid.seq_id][uid.event])
        } else {
            None
        }
    }

    /// The events that follow `uid`, in ascending order.
    pub open spec fn follow_ups(self, uid: Uid) -> Seq<Uid> {
        match self.next_of(uid) {
            Some(seq_id) if self.next.contains_key(seq_id) => {
                let events = ascending(self.next[seq_id].dom());
                Seq::new(events.len(), |k: int| Uid { seq_id, event: events[k] })
            },
            _ => Seq::empty(),
        }
    }

    /// The events recorded under a sequence number.
    pub open spec fn events_at(self, seq_id: u32) -> Map<u32, u32> {
        if self.next.contains_key(seq_id) {
            self.next[seq_id]
        } else {
            Map::empty()
        }
    }

    /// The ledger after `uid` was entered, to be followed by events with number `next_seq_id`.
    pub open spec fn with_entry(self, uid: Uid, next_seq_id: u32) -> LedgerView {
        LedgerView {
            next: self.next.insert(
                uid.seq_id,
                self.events_at(uid.seq_id).insert(uid.event, next_seq_id),
            ),
            prev: self.prev.insert(next_seq_id, uid),
            ..self
        }
    }

    /// The ledger after a start event was entered.
    pub open spec fn with_start(self, uid: Uid) -> LedgerView {
        LedgerView {
            start_events: self.start_events.push(uid),
            ..self.with_entry(uid, 1)
        }
    }

    /// The sets of events with the same number are finite.
    pub open spec fn wf(self) -> bool {
        forall|s: u32| #[trigger] self.next.contains_key(s) ==> self.next[s].dom().finite()
    }

    /// The sequence numbers that the ledger records: those of its events, and those that they
    /// hand out.
    pub open spec fn numbers(self) -> Set<u32> {
        Set::new(|s: u32| self.next.contains_key(s) || self.hands_out(s))
    }

    pub open spec fn hands_out(self, s: u32) -> bool {
        exists|uid: Uid| #[trigger] self.next_of(uid) == Some(s)
    }

    /// `c` is the first number from `next_seq_id` on that is past all numbers of the ledger, and
    /// past 0, which start events have.
    pub open spec fn is_counter(self, c: u32) -> bool {
        is_first_past(c, self.next_seq_id, self.numbers())
    }
}

/// `c` is the first number that is not below `least`, nor 0, and past all of `used`; the largest
/// number there is, where no number is past them.
pub open spec fn is_first_past(c: u32, least: u32, used: Set<u32>) -> bool {
    &&& least <= c
    &&& 1 <= c
    &&& forall|s: u32| #[trigger] used.contains(s) ==> s < c || c == u32::MAX
    &&& c == least || c == 1 || used.contains((c - 1) as u32) || (c == u32::MAX && used.contains(c))
}

pub proof fn lemma_first_past_unique(c: u32, d: u32, least: u32, used: Set<u32>)
    requires
        is_first_past(c, least, used),
        is_first_past(d, least, used),
    ensures
        c == d,
{
    if c < d {
        assert(used.contains((d - 1) as u32) ==> d - 1 < c);
    }
    if d < c {
        assert(used.contains((c - 1) as u32) ==> c - 1 < d);
    }
}

/// The number to go on with once `s` is used too.
fn past(c: u32, s: u32, Ghost(least): Ghost<u32>, Ghost(used): Ghost<Set<u32>>) -> (next: u32)
    requires
        is_first_past(c, least, used),
    ensures
        is_first_past(next, least, used.insert(s)),
{
    let next = if s < c {
        c
    } else if s < u32::MAX {
        s + 1
    } else {
        s
    };
    proof {
        assert forall|x: u32| #[trigger] used.insert(s).contains(x) implies x < next || next
            == u32::MAX by {
            if x != s {
                assert(used.contains(x));
            }
        }
    }
    next
}

/// Event ledger for tracking photon event chains.
///
/// Maintains a record of all photon events with:
/// - Named sources (sources): Source mappings and the identifiers handed out so far
/// - Event chains (next/prev): Linked lists of event sequences
/// - Start events (start_events): Root events, which have no previous event cause
#[derive(Debug)]
pub struct Ledger {
    pub sources: SourceTable,
    pub start_events: Vec<Uid>,
    /// From sequence number to event to the sequence number of what follows, so that the
    /// follow-ups of an event are found together.
    pub next: BTreeMap<u32, BTreeMap<u32, u32>>,
    pub prev: BTreeMap<u32, Uid>,
    pub next_seq_id: u32,
}

pub open spec fn next_view(next: Map<u32, BTreeMap<u32, u32>>) -> Map<u32, Map<u32, u32>> {
    Map::new(|s: u32| next.contains_key(s), |s: u32| next[s]@)
}

impl View for Ledger {
    type V = LedgerView;

    open spec fn view(&self) -> LedgerView {
        LedgerView {
            sources: self.sources@,
            start_events: self.start_events@,
            next: next_view(self.next@),
            prev: self.prev@,
            next_seq_id: self.next_seq_id,
        }
    }
}

impl Ledger {
    pub open spec fn wf(&self) -> bool {
        self.sources.wf() && self@.wf()
    }

    pub fn new() -> (ledger: Ledger)
        ensures
            ledger@ == LedgerView::initial(),
            ledger.wf(),
    {
        let ledger = Ledger {
            sources: SourceTable::new(),
            start_events: Vec::new(),
            next: BTreeMap::new(),
            prev: BTreeMap::new(),
            next_seq_id: 0,
        };
        assert(ledger@ =~= LedgerView::initial());
        ledger
    }

    pub fn start_events(&self) -> (uids: &Vec<Uid>)
        ensures
            uids@ == self@.start_events,
    {
        &self.start_events
    }

    /// Enters an event that no other event led to. Events that follow it have number 1.
    pub fn insert_start(&mut self, uid: Uid)
        requires
            old(self).wf(),
            old(self)@.next_of(uid) is None,
        ensures
            final(self)@ == old(self)@.with_start(uid),
            final(self).wf(),
    {
        self.insert_entry(uid, 1);
        self.start_events.push(uid);
    }

    /// Enters an event that followed `prev_event`. Events that follow the new one have number
    /// `next_next_seq_no`.
    pub fn insert(&mut self, prev_event: Uid, next_event: Uid, next_next_seq_no: u32)
        requires
            old(self).wf(),
            old(self)@.next_of(prev_event) == Some(next_event.seq_id),
            old(self)@.next_of(next_event) is None,
        ensures
            final(self)@ == old(self)@.with_entry(next_event, next_next_seq_no),
            final(self).wf(),
    {
        self.insert_entry(next_event, next_next_seq_no);
    }

    fn insert_entry(&mut self, uid: Uid, next_seq_id: u32)
        requires
            old(self).wf(),
            old(self)@.next_of(uid) is None,
        ensures
            final(self)@ == old(self)@.with_entry(uid, next_seq_id),
            final(self).wf(),
            final(self)@.next_of(uid) == Some(next_seq_id),
    {
        let mut events = match self.next.remove(&uid.seq_id) {
            Some(events) => events,
            None => BTreeMap::new(),
        };
        assert(events@ =~= old(self)@.events_at(uid.seq_id));
        events.insert(uid.event, next_seq_id);
        self.next.insert(uid.seq_id, events);
        self.prev.insert(next_seq_id, uid);
        proof {
            assert(self@.next =~= old(self)@.with_entry(uid, next_seq_id).next);
            assert forall|s: u32| #[trigger] self@.next.contains_key(s) implies
                self@.next[s].dom().finite() by {
                if s != uid.seq_id {
                    assert(old(self)@.next.contains_key(s));
                }
            }
        }
    }

    /// The sequence number of the events that follow `uid`.
    pub fn get_next_seq_id(&self, uid: &Uid) -> (seq_id: Option<u32>)
        ensures
            seq_id == self@.next_of(*uid),
    {
        match self.next.get(&uid.seq_id) {
            None => None,
            Some(events) => match events.get(&uid.event) {
                None => None,
                Some(seq_id) => Some(*seq_id),
            },
        }
    }

    /// The first number from `next_seq_id` on that is past all numbers of the ledger.
    pub fn first_free_number(&self) -> (c: u32)
        ensures
            self@.is_counter(c),
    {
        let mut c: u32 = if self.next_seq_id == 0 {
            1
        } else {
            self.next_seq_id
        };
        let ghost mut used: Set<u32> = Set::empty();
        let ghost groups = self.next.iter().remaining();
        for group in it: self.next.iter()
            invariant
                it.seq() == groups,
                forall|i: int|
                    0 <= i < groups.len() ==> self.next@.contains_key(*(#[trigger] groups[i]).0)
                        && self.next@[*groups[i].0] == *groups[i].1,
                is_first_past(c, self.next_seq_id, used),
                forall|s: u32| #[trigger] used.contains(s) ==> self@.numbers().contains(s),
                forall|i: int| 0 <= i < it.index() ==> used.contains(*(#[trigger] groups[i]).0),
                forall|i: int, e: u32|
                    0 <= i < it.index() && groups[i].1@.contains_key(e) ==> used.contains(
                        #[trigger] groups[i].1@[e],
                    ),
        {
            let (seq_id, events) = group;
            let ghost k = it.index();
            c = past(c, *seq_id, Ghost(self.next_seq_id), Ghost(used));
            proof {
                assert(groups[k as int].0 == seq_id);
                used = used.insert(*seq_id);
                assert(self@.next.contains_key(*seq_id));
            }
            let ghost before = used;
            let ghost entries = events.iter().remaining();
            for entry in inner: events.iter()
                invariant
                    inner.seq() == entries,
                    self.next@.contains_key(*seq_id),
                    self.next@[*seq_id] == *events,
                    forall|i: int|
                        0 <= i < entries.len() ==> events@.contains_key(*(#[trigger] entries[i]).0)
                            && events@[*entries[i].0] == *entries[i].1,
                    is_first_past(c, self.next_seq_id, used),
                    before.subset_of(used),
                    forall|s: u32| #[trigger] used.contains(s) ==> self@.numbers().contains(s),
                    forall|i: int|
                        0 <= i < inner.index() ==> used.contains(*(#[trigger] entries[i]).1),
            {
                let (event, number) = entry;
                let ghost j = inner.index();
                c = past(c, *number, Ghost(self.next_seq_id), Ghost(used));
                proof {
                    assert(entries[j as int].1 == number);
                    used = used.insert(*number);
                    let uid = Uid { seq_id: *seq_id, event: *event };
                    assert(self@.next_of(uid) == Some(*number));
                    assert(self@.hands_out(*number));
                }
            }
            proof {
                assert forall|e: u32| events@.contains_key(e) implies used.contains(
                    #[trigger] events@[e],
                ) by {
                    let i = choose|i: int|
                        0 <= i < entries.len() && entries[i] == (&e, &events@[e]);
                    assert(used.contains(*entries[i].1));
                }
            }
        }
        proof {
            assert forall|s: u32| self@.numbers().contains(s) implies used.contains(s) by {
                if self@.next.contains_key(s) {
                    let i = choose|i: int|
                        0 <= i < groups.len() && groups[i] == (&s, &self.next@[s]);
                    assert(used.contains(*groups[i].0));
                } else {
                    let uid = choose|uid: Uid| #[trigger] self@.next_of(uid) == Some(s);
                    let x = uid.seq_id;
                    assert(self.next@.contains_key(x));
                    let i = choose|i: int|
                        0 <= i < groups.len() && groups[i] == (&x, &self.next@[x]);
                    assert(groups[i].1@.contains_key(uid.event));
                    assert(used.contains(groups[i].1@[uid.event]));
                }
            }
            assert(used =~= self@.numbers());
        }
        c
    }

    /// The events that follow `uid`, in ascending order.
    pub fn get_next(&self, uid: &Uid) -> (uids: Vec<Uid>)
        ensures
            uids@ == self@.follow_ups(*uid),
    {
        let mut uids: Vec<Uid> = Vec::new();
        if let Some(seq_id) = self.get_next_seq_id(uid) {
            if let Some(events) = self.next.get(&seq_id) {
                let ghost entries = events.iter().remaining();
                let ghost listed: Seq<u32> = Seq::new(entries.len(), |k: int| *entries[k].0);
                for entry in it: events.iter()
                    invariant
                        it.seq() == entries,
                        listed == Seq::new(entries.len(), |k: int| *entries[k].0),
                        uids@ == Seq::new(
                            it.index() as nat,
                            |k: int| Uid { seq_id, event: listed[k] },
                        ),
                {
                    let (event, _) = entry;
                    uids.push(Uid::new(seq_id, *event));
                }
                proof {
                    assert(listed =~= entries.map_values(|kv: (&u32, &u32)| *kv.0));
                    lemma_increasing(listed);
                    assert forall|x: u32| events@.dom().contains(x) <==> #[trigger] listed.contains(
                        x,
                    ) by {
                        if events@.contains_key(x) {
                            let i = choose|i: int|
                                0 <= i < entries.len() && entries[i] == (&x, &events@[x]);
                            assert(listed[i] == x);
                        }
                    }
                    assert(lists_ascending(listed, events@.dom()));
                    lemma_ascending_unique(listed, ascending(events@.dom()), events@.dom());
                }
            }
        }
        uids
    }
}

impl Default for Ledger {
    /// A ledger in which all counters stand at zero.
    fn default() -> (ledger: Ledger)
        ensures
            ledger@ == (LedgerView {
                sources: SourceView { next_matsurf_id: 0, ..SourceView::initial() },
                ..LedgerView::initial()
            }),
            ledger.wf(),
    {
        let mut ledger = Ledger::new();
        ledger.sources.next_matsurf_id = 0;
        ledger
    }
}

impl LedgerView {
    /// What `prev` has for a number is an event that hands out the number.
    pub open spec fn prev_sound(self) -> bool {
        forall|s: u32| #[trigger]
            self.prev.contains_key(s) ==> self.next_of(self.prev[s]) == Some(s)
    }

    /// No two events hand out the same number.
    pub open spec fn numbers_unique(self) -> bool {
        forall|u: Uid, v: Uid| #[trigger]
            self.next_of(u) is Some && #[trigger] self.next_of(v) is Some && u != v
                ==> self.next_of(u) != self.next_of(v)
    }
}

/// An event that is entered can be followed both ways, and all others stay as they were.
pub proof fn entry_links_both_ways(l: LedgerView, uid: Uid, next_seq_id: u32)
    requires
        l.next_of(uid) is None,
        l.prev_sound(),
    ensures
        l.with_entry(uid, next_seq_id).next_of(uid) == Some(next_seq_id),
        l.with_entry(uid, next_seq_id).prev[next_seq_id] == uid,
        forall|v: Uid|
            v != uid ==> #[trigger] l.with_entry(uid, next_seq_id).next_of(v) == l.next_of(v),
        l.with_entry(uid, next_seq_id).prev_sound(),
{
    let after = l.with_entry(uid, next_seq_id);
    assert forall|v: Uid| v != uid implies #[trigger] after.next_of(v) == l.next_of(v) by {}
    assert forall|s: u32| #[trigger] after.prev.contains_key(s) implies after.next_of(after.prev[s])
        == Some(s) by {
        if s != next_seq_id {
            assert(l.prev.contains_key(s));
        }
    }
}

/// Going back from a follow-up leads to the event that it follows, where no two events hand out
/// the same number and every number that is handed out can be traced back.
pub proof fn prev_leads_back(l: LedgerView, uid: Uid, next: Uid)
    requires
        l.prev_sound(),
        l.numbers_unique(),
        l.next_of(uid) == Some(next.seq_id),
        l.prev.contains_key(next.seq_id),
    ensures
        l.prev[next.seq_id] == uid,
{
    assert(l.next_of(l.prev[next.seq_id]) is Some);
}

/// The number that is looked up for an event is what the ledger has under its number and its code.
pub proof fn number_is_looked_up(l: LedgerView, uid: Uid)
    ensures
        l.next_of(uid) is Some <==> l.next.contains_key(uid.seq_id)
            && l.next[uid.seq_id].contains_key(uid.event),
        l.next_of(uid) is Some ==> l.next_of(uid) == Some(l.next[uid.seq_id][uid.event]),
{
}

/// Entering an event puts down the number of what follows it, and for that number the event. All
/// else in the ledger stays as it was.
pub proof fn entry_is_recorded(l: LedgerView, uid: Uid, number: u32, seq_id: u32, event: u32)
    ensures
        ({
            let m = l.with_entry(uid, number);
            &&& m.next.contains_key(uid.seq_id)
            &&& m.next[uid.seq_id].contains_key(uid.event)
            &&& m.next[uid.seq_id][uid.event] == number
            &&& m.prev.contains_key(number)
            &&& m.prev[number] == uid
            &&& seq_id != number ==> (m.prev.contains_key(seq_id) <==> l.prev.contains_key(seq_id))
            &&& seq_id != number && l.prev.contains_key(seq_id) ==> m.prev[seq_id]
                == l.prev[seq_id]
            &&& seq_id != uid.seq_id || event != uid.event ==> (m.next.contains_key(seq_id)
                && m.next[seq_id].contains_key(event) <==> l.next.contains_key(seq_id)
                && l.next[seq_id].contains_key(event))
            &&& (seq_id != uid.seq_id || event != uid.event) && l.next.contains_key(seq_id)
                && l.next[seq_id].contains_key(event) ==> m.next[seq_id][event]
                == l.next[seq_id][event]
            &&& m.start_events == l.start_events
            &&& m.sources == l.sources
            &&& m.next_seq_id == l.next_seq_id
        }),
{
}

/// A start event is entered with number 1 for what follows it, and comes last among the start
/// events.
pub proof fn start_is_recorded(l: LedgerView, uid: Uid)
    ensures
        ({
            let m = l.with_start(uid);
            &&& m.start_events.len() == l.start_events.len() + 1
            &&& m.start_events.last() == uid
            &&& forall|k: int|
                0 <= k < l.start_events.len() ==> #[trigger] m.start_events[k]
                    == l.start_events[k]
            &&& m.next == l.with_entry(uid, 1).next
            &&& m.prev == l.with_entry(uid, 1).prev
            &&& m.sources == l.sources
            &&& m.next_seq_id == l.next_seq_id
        }),
{
}

/// A new ledger has no events, and goes on with number 0.
pub proof fn new_ledger_is_empty()
    ensures
        LedgerView::initial().start_events.len() == 0,
        LedgerView::initial().next == Map::<u32, Map<u32, u32>>::empty(),
        LedgerView::initial().prev == Map::<u32, Uid>::empty(),
        LedgerView::initial().next_seq_id == 0,
        LedgerView::initial().sources == SourceView::initial(),
{
}

/// The model of a ledger has what the ledger has.
pub proof fn model_of_ledger(ledger: Ledger, seq_id: u32)
    ensures
        ledger@.sources == ledger.sources@,
        ledger@.start_events == ledger.start_events@,
        ledger@.next_seq_id == ledger.next_seq_id,
        ledger@.prev == ledger.prev@,
        ledger@.next.contains_key(seq_id) <==> ledger.next@.contains_key(seq_id),
        ledger.next@.contains_key(seq_id) ==> ledger@.next[seq_id] == ledger.next@[seq_id]@,
{
}

/// What follows an event is what the ledger has under the number of its follow-ups: all of it, in
/// ascending order of codes, and nothing else.
pub proof fn follow_ups_have_the_number(l: LedgerView, uid: Uid, v: Uid)
    requires
        forall|s: u32| #[trigger] l.next.contains_key(s) ==> l.next[s].dom().finite(),
    ensures
        l.follow_ups(uid).contains(v) <==> l.next.contains_key(uid.seq_id)
            && l.next[uid.seq_id].contains_key(uid.event) && l.next[uid.seq_id][uid.event]
            == v.seq_id && l.next.contains_key(v.seq_id) && l.next[v.seq_id].contains_key(v.event),
        forall|j: int, k: int|
            0 <= j < k < l.follow_ups(uid).len() ==> (#[trigger] l.follow_ups(uid)[j]).event < (
            #[trigger] l.follow_ups(uid)[k]).event,
{
    let next = l.follow_ups(uid);
    if l.next_of(uid) is Some && l.next.contains_key(l.next_of(uid).unwrap()) {
        let s = l.next_of(uid).unwrap();
        let dom = l.next[s].dom();
        let events = ascending(dom);
        lemma_ascending(dom);
        if next.contains(v) {
            let k = choose|k: int| 0 <= k < next.len() && next[k] == v;
            assert(events[k] == v.event);
            assert(events.contains(v.event));
        }
        if v.seq_id == s && l.next[s].contains_key(v.event) {
            assert(dom.contains(v.event));
            assert(events.contains(v.event));
            let k = choose|k: int| 0 <= k < events.len() && events[k] == v.event;
            assert(next[k] == v);
        }
    }
}

/// A ledger goes on with a number that is not below its own, and past 0, the number of each event,
/// and the number of what follows each event; or with the largest number, where none is past them.
/// No smaller number will do.
pub proof fn counter_is_past_all(l: LedgerView, c: u32, uid: Uid)
    requires
        l.is_counter(c),
    ensures
        l.next_seq_id <= c,
        1 <= c,
        l.next.contains_key(uid.seq_id) ==> uid.seq_id < c || c == u32::MAX,
        l.next.contains_key(uid.seq_id) && l.next[uid.seq_id].contains_key(uid.event)
            ==> l.next[uid.seq_id][uid.event] < c || c == u32::MAX,
        c > 1 && c > l.next_seq_id ==> exists|s: u32|
            (s == c - 1 || s == u32::MAX) && (#[trigger] l.next.contains_key(s) || exists|v: Uid|
                #[trigger] l.next_of(v) == Some(s)),
{
    if l.next_of(uid) is Some {
        assert(l.hands_out(l.next_of(uid).unwrap()));
        assert(l.numbers().contains(l.next_of(uid).unwrap()));
    }
    assert(l.next.contains_key(uid.seq_id) ==> l.numbers().contains(uid.seq_id));
    if c > 1 && c > l.next_seq_id {
        let s: u32 = if l.numbers().contains((c - 1) as u32) {
            (c - 1) as u32
        } else {
            u32::MAX
        };
        assert(l.numbers().contains(s));
        assert(l.next.contains_key(s) || l.hands_out(s));
    }
}

} // verus!
