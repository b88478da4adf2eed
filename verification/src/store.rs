//! The in-process registry: alert subscribers, scheduled events, and each
//! server's timezone offset.

use vstd::prelude::*;
use vstd::seq_lib::lemma_multiset_commutative;
use crate::clock::{DEFAULT_OFFSET_SECONDS, valid_offset};

verus! {

/// A user registered for alerts, and the channel the alert is delivered on.
#[derive(Clone, Copy, PartialEq, Eq, Structural, Debug)]
pub struct Subscriber {
    pub user_id: u64,
    pub channel_id: u64,
}

/// A named event scheduled at an instant, with the owner who created it and
/// whether its reminder has been sent.
pub struct Event {
    pub id: u64,
    pub name: String,
    pub owner: u64,
    pub scheduled_at: i64,
    pub notified: bool,
}

/// The mathematical image of an `Event`.
pub ghost struct EventView {
    pub id: u64,
    pub name: Seq<char>,
    pub owner: u64,
    pub scheduled_at: int,
    pub notified: bool,
}

impl View for Event {
    type V = EventView;

    open spec fn view(&self) -> EventView {
        EventView {
            id: self.id,
            name: self.name@,
            owner: self.owner,
            scheduled_at: self.scheduled_at as int,
            notified: self.notified,
        }
    }
}

impl Event {
    /// An identical copy.
    pub fn duplicate(&self) -> (r: Event)
        ensures
            r@ == self@,
    {
        Event {
            id: self.id,
            name: self.name.clone(),
            owner: self.owner,
            scheduled_at: self.scheduled_at,
            notified: self.notified,
        }
    }
}

/// The error a registry mutation could report; none of the operations
/// actually fails, and every `Result` they return is `Ok`.
#[derive(Clone, Copy, PartialEq, Eq, Structural, Debug)]
pub struct StoreError;

pub open spec fn has_subscriber(subs: Seq<Subscriber>, user_id: u64) -> bool {
    exists|i: int| 0 <= i < subs.len() && (#[trigger] subs[i]).user_id == user_id
}

/// What subscribing leaves in the registry: unchanged when the user is
/// already there, else the one new record appended.
pub open spec fn spec_subscribe(subs: Seq<Subscriber>, user_id: u64, channel_id: u64) -> Seq<
    Subscriber,
> {
    if has_subscriber(subs, user_id) {
        subs
    } else {
        subs.push(Subscriber { user_id, channel_id })
    }
}

/// What unsubscribing leaves in the registry: every record but the user's.
pub open spec fn spec_unsubscribe(subs: Seq<Subscriber>, user_id: u64) -> Seq<Subscriber> {
    subs.filter(|s: Subscriber| s.user_id != user_id)
}

pub open spec fn distinct_user_ids(subs: Seq<Subscriber>) -> bool {
    forall|i: int, j: int|
        0 <= i < j < subs.len() ==> (#[trigger] subs[i]).user_id != (#[trigger] subs[j]).user_id
}

/// How many records a user holds.
pub open spec fn count_user(subs: Seq<Subscriber>, user_id: u64) -> nat
    decreases subs.len(),
{
    if subs.len() == 0 {
        0
    } else {
        count_user(subs.drop_last(), user_id) + if subs.last().user_id == user_id {
            1nat
        } else {
            0nat
        }
    }
}

/// With distinct user ids, a user holds one record when present, none when not.
pub proof fn lemma_count_user(subs: Seq<Subscriber>, user_id: u64)
    requires
        distinct_user_ids(subs),
    ensures
        count_user(subs, user_id) == if has_subscriber(subs, user_id) {
            1nat
        } else {
            0nat
        },
    decreases subs.len(),
{
    if subs.len() > 0 {
        let head = subs.drop_last();
        assert(distinct_user_ids(head));
        lemma_count_user(head, user_id);
        if subs.last().user_id == user_id {
            assert(has_subscriber(subs, user_id));
            if has_subscriber(head, user_id) {
                let i = choose|i: int|
                    0 <= i < head.len() && (#[trigger] head[i]).user_id == user_id;
                assert(subs[i].user_id == subs[subs.len() - 1].user_id);
                assert(false);
            }
        } else {
            if has_subscriber(subs, user_id) {
                let i = choose|i: int|
                    0 <= i < subs.len() && (#[trigger] subs[i]).user_id == user_id;
                assert(head[i] == subs[i]);
                assert(has_subscriber(head, user_id));
            }
        }
    }
}

/// Subscribing a user who is already subscribed changes nothing: two
/// subscriptions leave exactly what the first left.
pub proof fn lemma_subscribe_idempotent(subs: Seq<Subscriber>, user_id: u64, c1: u64, c2: u64)
    ensures
        spec_subscribe(spec_subscribe(subs, user_id, c1), user_id, c2) == spec_subscribe(
            subs,
            user_id,
            c1,
        ),
{
    let s1 = spec_subscribe(subs, user_id, c1);
    if !has_subscriber(subs, user_id) {
        assert(s1[subs.len() as int].user_id == user_id);
        assert(has_subscriber(s1, user_id));
    }
}

/// Unsubscribing a user who is not subscribed leaves the registry as it was.
pub proof fn lemma_unsubscribe_absent(subs: Seq<Subscriber>, user_id: u64)
    requires
        !has_subscriber(subs, user_id),
    ensures
        spec_unsubscribe(subs, user_id) == subs,
    decreases subs.len(),
{
    reveal(Seq::filter);
    if subs.len() > 0 {
        let head = subs.drop_last();
        assert forall|i: int| 0 <= i < head.len() implies (#[trigger] head[i]).user_id
            != user_id by {
            assert(subs[i] == head[i]);
        }
        lemma_unsubscribe_absent(head, user_id);
        assert(subs[subs.len() - 1].user_id != user_id);
        assert(spec_unsubscribe(subs, user_id) =~= subs);
    } else {
        assert(spec_unsubscribe(subs, user_id) =~= subs);
    }
}

pub open spec fn event_due(e: EventView, now: int) -> bool {
    e.scheduled_at <= now && !e.notified
}

/// The events whose reminder is owed at `now`: scheduled at or before `now`
/// and not yet notified.
pub open spec fn due_set(events: Seq<EventView>, now: int) -> Seq<EventView> {
    events.filter(|e: EventView| event_due(e, now))
}

pub open spec fn sorted_by_time(events: Seq<EventView>) -> bool {
    forall|i: int, j: int|
        0 <= i <= j < events.len() ==> (#[trigger] events[i]).scheduled_at
            <= (#[trigger] events[j]).scheduled_at
}

/// The events with the reminder flag set on every record carrying `id`.
pub open spec fn spec_mark(events: Seq<EventView>, id: u64) -> Seq<EventView> {
    Seq::new(
        events.len(),
        |i: int|
            if events[i].id == id {
                EventView { notified: true, ..events[i] }
            } else {
                events[i]
            },
    )
}

/// In a well-formed registry the event identifiers are pairwise distinct:
/// however many events are created, no two share an id.
pub proof fn lemma_event_ids_distinct(s: Store)
    requires
        s.wf(),
    ensures
        forall|i: int, j: int|
            0 <= i < j < s.events_view().len() ==> (#[trigger] s.events_view()[i]).id
                != (#[trigger] s.events_view()[j]).id,
{
}

/// Marking a second time changes nothing more.
pub proof fn lemma_mark_notified_idempotent(events: Seq<EventView>, id: u64)
    ensures
        spec_mark(spec_mark(events, id), id) == spec_mark(events, id),
{
    assert(spec_mark(spec_mark(events, id), id) =~= spec_mark(events, id));
}

/// The UTC offset configured for `server`, latest setting deciding; +11:00
/// where none was ever set.
pub open spec fn offset_of(offsets: Seq<(u64, i32)>, server: u64) -> int
    decreases offsets.len(),
{
    if offsets.len() == 0 {
        DEFAULT_OFFSET_SECONDS as int
    } else if offsets.last().0 == server {
        offsets.last().1 as int
    } else {
        offset_of(offsets.drop_last(), server)
    }
}

proof fn lemma_offset_of_remove(offsets: Seq<(u64, i32)>, i: int, server: u64)
    requires
        0 <= i < offsets.len(),
        offsets[i].0 != server,
    ensures
        offset_of(offsets.remove(i), server) == offset_of(offsets, server),
    decreases offsets.len(),
{
    if i == offsets.len() - 1 {
        assert(offsets.remove(i) =~= offsets.drop_last());
    } else {
        assert(offsets.remove(i).drop_last() =~= offsets.drop_last().remove(i));
        assert(offsets.remove(i).last() == offsets.last());
        assert(offsets.drop_last()[i] == offsets[i]);
        lemma_offset_of_remove(offsets.drop_last(), i, server);
    }
}

/// Every element the filter keeps was in the sequence.
proof fn lemma_filter_subset<A>(s: Seq<A>, pred: spec_fn(A) -> bool)
    ensures
        forall|k: int| 0 <= k < s.filter(pred).len() ==> s.contains(#[trigger] s.filter(pred)[k]),
    decreases s.len(),
{
    reveal(Seq::filter);
    if s.len() > 0 {
        let head = s.drop_last();
        lemma_filter_subset(head, pred);
        let f = s.filter(pred);
        assert forall|k: int| 0 <= k < f.len() implies s.contains(f[k]) by {
            if pred(s.last()) && k == f.len() - 1 {
                assert(s[s.len() - 1] == f[k]);
            } else {
                assert(f[k] == head.filter(pred)[k]);
                assert(head.contains(f[k]));
                let t = choose|t: int| 0 <= t <= head.len() - 1 && head[t] == f[k];
                assert(s[t] == f[k]);
            }
        }
    }
}

/// Filtering keeps user ids distinct.
proof fn lemma_filter_distinct(subs: Seq<Subscriber>, pred: spec_fn(Subscriber) -> bool)
    requires
        distinct_user_ids(subs),
    ensures
        distinct_user_ids(subs.filter(pred)),
    decreases subs.len(),
{
    reveal(Seq::filter);
    if subs.len() > 0 {
        let head = subs.drop_last();
        assert(distinct_user_ids(head));
        lemma_filter_distinct(head, pred);
        lemma_filter_subset(head, pred);
        if pred(subs.last()) {
            let f = subs.filter(pred);
            assert(f == head.filter(pred).push(subs.last()));
            assert forall|a: int, b: int|
                0 <= a < b < f.len() implies (#[trigger] f[a]).user_id
                != (#[trigger] f[b]).user_id by {
                if b == f.len() - 1 {
                    assert(head.filter(pred)[a] == f[a]);
                    assert(head.contains(head.filter(pred)[a]));
                    let k = choose|k: int| 0 <= k <= head.len() - 1 && head[k] == f[a];
                    assert(subs[k].user_id != subs[subs.len() - 1].user_id);
                } else {
                    assert(head.filter(pred)[a] == f[a]);
                    assert(head.filter(pred)[b] == f[b]);
                }
            }
        }
    }
}

/// Inserting anywhere adds one occurrence to the multiset of elements.
proof fn lemma_insert_to_multiset<A>(s: Seq<A>, i: int, x: A)
    requires
        0 <= i <= s.len(),
    ensures
        s.insert(i, x).to_multiset() == s.to_multiset().insert(x),
{
    broadcast use vstd::seq_lib::group_to_multiset_ensures;

    let a = s.take(i);
    let b = s.skip(i);
    assert(s =~= a + b);
    assert(s.insert(i, x) =~= a.push(x) + b);
    lemma_multiset_commutative(a, b);
    lemma_multiset_commutative(a.push(x), b);
    assert(a.push(x).to_multiset() =~= a.to_multiset().insert(x));
    assert(s.insert(i, x).to_multiset() =~= s.to_multiset().insert(x));
}

/// The registry. Mutations and reads keep `wf`; a caller serialises
/// concurrent access around the whole structure.
pub struct Store {
    subscribers: Vec<Subscriber>,
    events: Vec<Event>,
    next_event_id: u64,
    server_offsets: Vec<(u64, i32)>,
}

impl Store {
    pub closed spec fn subs(&self) -> Seq<Subscriber> {
        self.subscribers@
    }

    pub closed spec fn events_view(&self) -> Seq<EventView> {
        self.events@.map_values(|e: Event| e@)
    }

    pub closed spec fn next_id(&self) -> u64 {
        self.next_event_id
    }

    pub closed spec fn offsets(&self) -> Seq<(u64, i32)> {
        self.server_offsets@
    }

    /// Registry invariant: one record per subscriber, event ids strictly
    /// increasing and below the next id, one offset record per server,
    /// every stored offset valid.
    pub open spec fn wf(&self) -> bool {
        &&& distinct_user_ids(self.subs())
        &&& forall|i: int, j: int|
            0 <= i < j < self.events_view().len() ==> (#[trigger] self.events_view()[i]).id
                < (#[trigger] self.events_view()[j]).id
        &&& forall|i: int|
            0 <= i < self.events_view().len() ==> (#[trigger] self.events_view()[i]).id
                < self.next_id()
        &&& forall|i: int, j: int|
            0 <= i < j < self.offsets().len() ==> (#[trigger] self.offsets()[i]).0
                != (#[trigger] self.offsets()[j]).0
        &&& forall|i: int|
            0 <= i < self.offsets().len() ==> valid_offset((#[trigger] self.offsets()[i]).1 as int)
    }

    /// A fresh, empty registry.
    pub fn new() -> (s: Store)
        ensures
            s.wf(),
            s.subs() == Seq::<Subscriber>::empty(),
            s.events_view() == Seq::<EventView>::empty(),
            s.next_id() == 0,
            s.offsets() == Seq::<(u64, i32)>::empty(),
    {
        let s = Store {
            subscribers: Vec::new(),
            events: Vec::new(),
            next_event_id: 0,
            server_offsets: Vec::new(),
        };
        proof {
            assert(s.events_view() =~= Seq::<EventView>::empty());
        }
        s
    }

    /// Register `user_id` for alerts, delivered on `channel_id`. Idempotent:
    /// a second registration changes nothing, and is no error.
    pub fn subscribe(&mut self, user_id: u64, channel_id: u64) -> (r: Result<(), StoreError>)
        requires
            old(self).wf(),
        ensures
            final(self).wf(),
            r is Ok,
            final(self).subs() == spec_subscribe(old(self).subs(), user_id, channel_id),
            has_subscriber(final(self).subs(), user_id),
            count_user(final(self).subs(), user_id) == 1,
            final(self).events_view() == old(self).events_view(),
            final(self).next_id() == old(self).next_id(),
            final(self).offsets() == old(self).offsets(),
    {
        let n = self.subscribers.len();
        let mut i: usize = 0;
        while i < n
            invariant
                old(self).wf(),
                n == self.subs().len(),
                0 <= i <= n,
                forall|j: int| 0 <= j < i ==> (#[trigger] self.subs()[j]).user_id != user_id,
                *self == *old(self),
            decreases n - i,
        {
            if self.subscribers[i].user_id == user_id {
                proof {
                    lemma_count_user(self.subs(), user_id);
                }
                return Ok(());
            }
            i = i + 1;
        }
        proof {
            assert(!has_subscriber(self.subs(), user_id));
        }
        self.subscribers.push(Subscriber { user_id, channel_id });
        proof {
            assert(self.events_view() =~= old(self).events_view());
            assert(self.offsets() =~= old(self).offsets());
            assert(self.next_id() == old(self).next_id());
            lemma_count_user(self.subs(), user_id);
        }
        Ok(())
    }

    /// Remove `user_id` from the alert list. A user who was never
    /// registered is left as-is, and that is no error.
    pub fn unsubscribe(&mut self, user_id: u64) -> (r: Result<(), StoreError>)
        requires
            old(self).wf(),
        ensures
            final(self).wf(),
            r is Ok,
            final(self).subs() == spec_unsubscribe(old(self).subs(), user_id),
            !has_subscriber(final(self).subs(), user_id),
            final(self).events_view() == old(self).events_view(),
            final(self).next_id() == old(self).next_id(),
            final(self).offsets() == old(self).offsets(),
    {
        let n = self.subscribers.len();
        let mut out: Vec<Subscriber> = Vec::new();
        let mut i: usize = 0;
        proof {
            assert(old(self).subs().subrange(0, 0) =~= Seq::<Subscriber>::empty());
            assert(Seq::<Subscriber>::empty().filter(
                |s: Subscriber| s.user_id != user_id,
            ) =~= Seq::<Subscriber>::empty()) by {
                reveal(Seq::filter);
            }
        }
        while i < n
            invariant
                old(self).wf(),
                n == self.subs().len(),
                0 <= i <= n,
                *self == *old(self),
                out@ == old(self).subs().subrange(0, i as int).filter(
                    |s: Subscriber| s.user_id != user_id,
                ),
            decreases n - i,
        {
            let ghost prefix = old(self).subs().subrange(0, i as int);
            let ghost prefix1 = old(self).subs().subrange(0, i + 1);
            let s = self.subscribers[i];
            if s.user_id != user_id {
                out.push(s);
            }
            proof {
                assert(prefix1.drop_last() =~= prefix);
                assert(prefix1.last() == s);
                reveal(Seq::filter);
            }
            i = i + 1;
        }
        proof {
            assert(old(self).subs().subrange(0, n as int) =~= old(self).subs());
        }
        self.subscribers = out;
        proof {
            assert(self.offsets() =~= old(self).offsets());
            assert(self.next_id() == old(self).next_id());
            lemma_filter_distinct(old(self).subs(), |s: Subscriber| s.user_id != user_id);
            let subs = spec_unsubscribe(old(self).subs(), user_id);
            if has_subscriber(subs, user_id) {
                let k = choose|k: int|
                    0 <= k < subs.len() && (#[trigger] subs[k]).user_id == user_id;
                old(self).subs().lemma_filter_pred(|s: Subscriber| s.user_id != user_id, k);
                assert(false);
            }
            assert(self.events_view() =~= old(self).events_view());
        }
        Ok(())
    }

    /// Record a new event; the returned identifier is fresh: distinct from
    /// the id of every event already stored.
    pub fn create_event(&mut self, name: String, owner: u64, scheduled_at: i64) -> (id: u64)
        requires
            old(self).wf(),
            old(self).next_id() < u64::MAX,
        ensures
            final(self).wf(),
            id == old(self).next_id(),
            final(self).next_id() == old(self).next_id() + 1,
            final(self).events_view() == old(self).events_view().push(
                EventView {
                    id,
                    name: name@,
                    owner,
                    scheduled_at: scheduled_at as int,
                    notified: false,
                },
            ),
            forall|i: int|
                0 <= i < old(self).events_view().len() ==> (#[trigger] old(
                    self,
                ).events_view()[i]).id != id,
            final(self).subs() == old(self).subs(),
            final(self).offsets() == old(self).offsets(),
    {
        let id = self.next_event_id;
        self.events.push(Event { id, name, owner, scheduled_at, notified: false });
        self.next_event_id = self.next_event_id + 1;
        proof {
            assert(self.subs() =~= old(self).subs());
            assert(self.offsets() =~= old(self).offsets());
            assert(self.events_view() =~= old(self).events_view().push(
                EventView {
                    id,
                    name: name@,
                    owner,
                    scheduled_at: scheduled_at as int,
                    notified: false,
                },
            ));
        }
        id
    }

    /// Set the reminder flag of the event carrying `event_id`. Repeated
    /// calls have no further effect; an unknown id changes nothing.
    pub fn mark_notified(&mut self, event_id: u64)
        requires
            old(self).wf(),
        ensures
            final(self).wf(),
            final(self).events_view() == spec_mark(old(self).events_view(), event_id),
            final(self).subs() == old(self).subs(),
            final(self).next_id() == old(self).next_id(),
            final(self).offsets() == old(self).offsets(),
    {
        let n = self.events.len();
        let mut i: usize = 0;
        while i < n
            invariant
                old(self).wf(),
                n == self.events@.len(),
                0 <= i <= n,
                self.subs() == old(self).subs(),
                self.next_id() == old(self).next_id(),
                self.offsets() == old(self).offsets(),
                self.events_view().len() == old(self).events_view().len(),
                forall|j: int|
                    0 <= j < n ==> #[trigger] self.events_view()[j] == (if j < i && old(
                        self,
                    ).events_view()[j].id == event_id {
                        EventView { notified: true, ..old(self).events_view()[j] }
                    } else {
                        old(self).events_view()[j]
                    }),
            decreases n - i,
        {
            let ghost evs0 = self.events@;
            let ghost view0 = self.events_view();
            if self.events[i].id == event_id {
                let mut e = self.events.remove(i);
                e.notified = true;
                let ghost enew = e;
                self.events.insert(i, e);
                proof {
                    assert(self.events@ =~= evs0.update(i as int, enew));
                    assert(enew@ == EventView { notified: true, ..view0[i as int] });
                    assert forall|j: int| 0 <= j < n implies #[trigger] self.events_view()[j] == (
                    if j == i {
                        enew@
                    } else {
                        view0[j]
                    }) by {
                        if j == i {
                            assert(self.events@[j] == enew);
                        } else {
                            assert(self.events@[j] == evs0[j]);
                        }
                    }
                }
            }
            i = i + 1;
        }
        proof {
            assert(self.events_view() =~= spec_mark(old(self).events_view(), event_id));
        }
    }

    /// The events whose reminder is owed at `now`, earliest first: exactly
    /// the stored events scheduled at or before `now` and not yet notified.
    pub fn due_events(&self, now: i64) -> (r: Vec<Event>)
        requires
            self.wf(),
        ensures
            r@.map_values(|e: Event| e@).to_multiset() == due_set(
                self.events_view(),
                now as int,
            ).to_multiset(),
            sorted_by_time(r@.map_values(|e: Event| e@)),
            forall|i: int| 0 <= i < r@.len() ==> event_due((#[trigger] r@[i])@, now as int),
    {
        broadcast use vstd::seq_lib::group_to_multiset_ensures;

        let n = self.events.len();
        let mut out: Vec<Event> = Vec::new();
        let mut i: usize = 0;
        proof {
            assert(self.events_view().subrange(0, 0) =~= Seq::<EventView>::empty());
            assert(Seq::<EventView>::empty().filter(
                |e: EventView| event_due(e, now as int),
            ) =~= Seq::<EventView>::empty()) by {
                reveal(Seq::filter);
            }
            assert(out@.map_values(|e: Event| e@) =~= Seq::<EventView>::empty());
        }
        while i < n
            invariant
                n == self.events@.len(),
                0 <= i <= n,
                self.wf(),
                out@.map_values(|e: Event| e@).to_multiset() == self.events_view().subrange(
                    0,
                    i as int,
                ).filter(|e: EventView| event_due(e, now as int)).to_multiset(),
                sorted_by_time(out@.map_values(|e: Event| e@)),
                forall|k: int| 0 <= k < out@.len() ==> event_due((#[trigger] out@[k])@, now as int),
            decreases n - i,
        {
            let ghost prefix = self.events_view().subrange(0, i as int);
            let ghost prefix1 = self.events_view().subrange(0, i + 1);
            proof {
                assert(prefix1.drop_last() =~= prefix);
                assert(prefix1.last() == self.events_view()[i as int]);
                reveal(Seq::filter);
            }
            let e = &self.events[i];
            if e.scheduled_at <= now && !e.notified {
                let copy = e.duplicate();
                let ghost outv = out@.map_values(|ev: Event| ev@);
                // the insertion point that keeps the result sorted
                let m = out.len();
                let mut j: usize = 0;
                while j < m && out[j].scheduled_at <= copy.scheduled_at
                    invariant
                        0 <= j <= m,
                        m == out@.len(),
                        forall|k: int|
                            0 <= k < j ==> (#[trigger] out@[k]).scheduled_at <= copy.scheduled_at,
                    decreases m - j,
                {
                    j = j + 1;
                }
                proof {
                    lemma_insert_to_multiset(outv, j as int, copy@);
                }
                out.insert(j, copy);
                proof {
                    reveal(Seq::filter);
                    assert(prefix1.filter(|e: EventView| event_due(e, now as int)) == prefix.filter(
                        |e: EventView| event_due(e, now as int),
                    ).push(copy@));
                    let newv = out@.map_values(|ev: Event| ev@);
                    assert(newv =~= outv.insert(j as int, copy@));
                    assert(newv =~= outv.take(j as int).push(copy@) + outv.skip(j as int));
                    assert forall|a: int, b: int|
                        0 <= a <= b < newv.len() implies (#[trigger] newv[a]).scheduled_at
                        <= (#[trigger] newv[b]).scheduled_at by {
                        assert(forall|k: int| 0 <= k < j ==> newv[k] == outv[k]);
                        assert(newv[j as int] == copy@);
                        assert(forall|k: int| j < k < newv.len() ==> newv[k] == outv[k - 1]);
                        assert(forall|k: int|
                            0 <= k < j ==> (#[trigger] outv[k]).scheduled_at
                                <= copy@.scheduled_at);
                        if (j as int) < outv.len() {
                            assert(outv[j as int].scheduled_at > copy@.scheduled_at);
                        }
                    }
                    prefix.filter(|e: EventView| event_due(e, now as int)).to_multiset_ensures();
                    assert(prefix.filter(|e: EventView| event_due(e, now as int)).push(
                        copy@,
                    ).to_multiset() =~= prefix.filter(
                        |e: EventView| event_due(e, now as int),
                    ).to_multiset().insert(copy@));
                    assert(newv.to_multiset() == prefix1.filter(
                        |e: EventView| event_due(e, now as int),
                    ).to_multiset());
                }
            }
            i = i + 1;
        }
        proof {
            assert(self.events_view().subrange(0, n as int) =~= self.events_view());
        }
        out
    }

    /// How many events have ever been created: the next identifier.
    pub fn events_created(&self) -> (r: u64)
        ensures
            r == self.next_id(),
    {
        self.next_event_id
    }

    /// The current subscribers, in registration order.
    pub fn subscribers_list(&self) -> (v: Vec<Subscriber>)
        ensures
            v@ == self.subs(),
    {
        let n = self.subscribers.len();
        let mut v: Vec<Subscriber> = Vec::new();
        let mut i: usize = 0;
        proof {
            assert(v@ =~= self.subs().subrange(0, 0));
        }
        while i < n
            invariant
                n == self.subs().len(),
                0 <= i <= n,
                v@ == self.subs().subrange(0, i as int),
            decreases n - i,
        {
            v.push(self.subscribers[i]);
            proof {
                assert(v@ =~= self.subs().subrange(0, i + 1));
            }
            i = i + 1;
        }
        proof {
            assert(self.subs().subrange(0, n as int) =~= self.subs());
        }
        v
    }

    /// The UTC offset configured for `server_id`, +11:00 where unset.
    pub fn get_server_offset(&self, server_id: u64) -> (o: i32)
        requires
            self.wf(),
        ensures
            o as int == offset_of(self.offsets(), server_id),
            valid_offset(o as int),
    {
        let n = self.server_offsets.len();
        let mut i: usize = n;
        proof {
            assert(self.offsets().subrange(0, n as int) =~= self.offsets());
        }
        while i > 0
            invariant
                0 <= i <= n,
                n == self.offsets().len(),
                self.wf(),
                offset_of(self.offsets(), server_id) == offset_of(
                    self.offsets().subrange(0, i as int),
                    server_id,
                ),
            decreases i,
        {
            let entry = self.server_offsets[i - 1];
            proof {
                assert(self.offsets().subrange(0, i as int).last() == entry);
                assert(self.offsets().subrange(0, i as int).drop_last() =~= self.offsets()
                    .subrange(0, i - 1));
            }
            if entry.0 == server_id {
                return entry.1;
            }
            i = i - 1;
        }
        proof {
            assert(self.offsets().subrange(0, 0) =~= Seq::<(u64, i32)>::empty());
        }
        DEFAULT_OFFSET_SECONDS
    }

    /// Set the UTC offset for `server_id`, replacing any earlier setting;
    /// other servers keep theirs.
    pub fn set_server_offset(&mut self, server_id: u64, offset_seconds: i32)
        requires
            old(self).wf(),
            valid_offset(offset_seconds as int),
        ensures
            final(self).wf(),
            offset_of(final(self).offsets(), server_id) == offset_seconds as int,
            forall|s: u64|
                s != server_id ==> #[trigger] offset_of(final(self).offsets(), s) == offset_of(
                    old(self).offsets(),
                    s,
                ),
            final(self).subs() == old(self).subs(),
            final(self).events_view() == old(self).events_view(),
            final(self).next_id() == old(self).next_id(),
    {
        let n = self.server_offsets.len();
        let mut i: usize = 0;
        let mut found: bool = false;
        let mut found_at: usize = 0;
        while i < n
            invariant
                old(self).wf(),
                0 <= i <= n,
                n == self.offsets().len(),
                *self == *old(self),
                !found ==> forall|j: int| 0 <= j < i ==> (#[trigger] self.offsets()[j]).0
                    != server_id,
                found ==> found_at < i && self.offsets()[found_at as int].0 == server_id,
            decreases n - i,
        {
            if !found && self.server_offsets[i].0 == server_id {
                found = true;
                found_at = i;
            }
            i = i + 1;
        }
        if found {
            self.server_offsets.remove(found_at);
        }
        let ghost mid = self.offsets();
        proof {
            assert forall|j: int| 0 <= j < mid.len() implies (#[trigger] mid[j]).0
                != server_id by {
                if found {
                    if j < found_at {
                        assert(mid[j] == old(self).offsets()[j]);
                    } else {
                        assert(mid[j] == old(self).offsets()[j + 1]);
                    }
                } else {
                    assert(mid[j] == old(self).offsets()[j]);
                }
            }
            assert forall|a: int, b: int| 0 <= a < b < mid.len() implies (#[trigger] mid[a]).0
                != (#[trigger] mid[b]).0 by {
                if found {
                    let a0: int = if a < found_at {
                        a
                    } else {
                        a + 1
                    };
                    let b0: int = if b < found_at {
                        b
                    } else {
                        b + 1
                    };
                    assert(mid[a] == old(self).offsets()[a0]);
                    assert(mid[b] == old(self).offsets()[b0]);
                }
            }
            assert forall|j: int| 0 <= j < mid.len() implies valid_offset(
                (#[trigger] mid[j]).1 as int,
            ) by {
                if found {
                    if j < found_at {
                        assert(mid[j] == old(self).offsets()[j]);
                    } else {
                        assert(mid[j] == old(self).offsets()[j + 1]);
                    }
                }
            }
            assert forall|s: u64| s != server_id implies offset_of(mid, s) == offset_of(
                old(self).offsets(),
                s,
            ) by {
                if found {
                    lemma_offset_of_remove(old(self).offsets(), found_at as int, s);
                }
            }
        }
        self.server_offsets.push((server_id, offset_seconds));
        proof {
            assert(self.offsets().drop_last() =~= mid);
            assert(self.offsets().last() == (server_id, offset_seconds));
            assert(offset_of(self.offsets(), server_id) == offset_seconds as int);
            assert forall|s: u64| s != server_id implies #[trigger] offset_of(
                self.offsets(),
                s,
            ) == offset_of(old(self).offsets(), s) by {
                assert(offset_of(self.offsets(), s) == offset_of(self.offsets().drop_last(), s));
                assert(offset_of(self.offsets().drop_last(), s) == offset_of(mid, s));
            }
            assert(self.subs() == old(self).subs());
            assert(self.events_view() =~= old(self).events_view());
            assert(self.next_id() == old(self).next_id());
        }
    }
}

} // verus!
