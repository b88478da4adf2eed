//! The reminder dispatcher: per tick, the notifications owed right now, and
//! the idle/notifying state that keeps ticks from overlapping.

use vstd::prelude::*;
use crate::format::{reminder_reply, reminder_reply_string};
use crate::store::{EventView, Store, Subscriber, due_set, event_due, has_subscriber, sorted_by_time};

verus! {

/// One message owed to one subscriber for one due event.
pub struct Notification {
    pub event_id: u64,
    pub user_id: u64,
    pub channel_id: u64,
    pub message: String,
}

/// The mathematical image of a `Notification`.
pub ghost struct NotificationView {
    pub event_id: u64,
    pub user_id: u64,
    pub channel_id: u64,
    pub message: Seq<char>,
}

impl View for Notification {
    type V = NotificationView;

    open spec fn view(&self) -> NotificationView {
        NotificationView {
            event_id: self.event_id,
            user_id: self.user_id,
            channel_id: self.channel_id,
            message: self.message@,
        }
    }
}

/// The notifications one event owes: one per subscriber, in subscriber order.
pub open spec fn per_event(e: EventView, subs: Seq<Subscriber>) -> Seq<NotificationView> {
    Seq::new(
        subs.len(),
        |i: int|
            NotificationView {
                event_id: e.id,
                user_id: subs[i].user_id,
                channel_id: subs[i].channel_id,
                message: reminder_reply(e.name),
            },
    )
}

/// The notifications a tick owes: the due events' fan-outs, in event order.
pub open spec fn fan_out(dues: Seq<EventView>, subs: Seq<Subscriber>) -> Seq<NotificationView>
    decreases dues.len(),
{
    if dues.len() == 0 {
        Seq::empty()
    } else {
        per_event(dues.first(), subs) + fan_out(dues.drop_first(), subs)
    }
}

/// The dispatcher's two states: idle between ticks, notifying while one
/// tick's deliveries are still draining.
pub struct Dispatcher {
    notifying: bool,
}

impl Dispatcher {
    pub closed spec fn is_notifying(&self) -> bool {
        self.notifying
    }

    /// A dispatcher at rest.
    pub fn new() -> (d: Dispatcher)
        ensures
            !d.is_notifying(),
    {
        Dispatcher { notifying: false }
    }

    /// Start a tick. While an earlier tick is still draining the tick is
    /// skipped: `None`, and nothing else happens. Otherwise the dispatcher
    /// turns to notifying and hands back one notification per due event and
    /// subscriber, events in ascending scheduled order.
    pub fn begin_tick(&mut self, store: &Store, now: i64) -> (r: Option<Vec<Notification>>)
        requires
            store.wf(),
        ensures
            old(self).is_notifying() ==> r is None && final(self).is_notifying(),
            !old(self).is_notifying() ==> final(self).is_notifying() && (r matches Some(v)
                && exists|dues: Seq<EventView>|
                {
                    &&& dues.to_multiset() == due_set(store.events_view(), now as int).to_multiset()
                    &&& sorted_by_time(dues)
                    &&& forall|i: int| 0 <= i < dues.len() ==> event_due(#[trigger] dues[i], now as int)
                    &&& v@.map_values(|n: Notification| n@) == #[trigger] fan_out(dues, store.subs())
                }),
            r matches Some(v) ==> forall|i: int|
                0 <= i < v@.len() ==> has_subscriber(store.subs(), (#[trigger] v@[i]).user_id),
    {
        if self.notifying {
            return None;
        }
        self.notifying = true;
        let dues = store.due_events(now);
        let ghost duesv = dues@.map_values(|e: crate::store::Event| e@);
        let mut out: Vec<Notification> = Vec::new();
        let n = dues.len();
        let mut i: usize = 0;
        proof {
            assert(duesv.skip(0) =~= duesv);
            assert(out@.map_values(|x: Notification| x@) =~= Seq::<NotificationView>::empty());
        }
        while i < n
            invariant
                n == dues@.len(),
                n == duesv.len(),
                0 <= i <= n,
                duesv == dues@.map_values(|e: crate::store::Event| e@),
                store.wf(),
                fan_out(duesv, store.subs()) == out@.map_values(|x: Notification| x@) + fan_out(
                    duesv.skip(i as int),
                    store.subs(),
                ),
                forall|k: int|
                    0 <= k < out@.len() ==> has_subscriber(
                        store.subs(),
                        (#[trigger] out@[k]).user_id,
                    ),
            decreases n - i,
        {
            let e = &dues[i];
            let text = reminder_reply_string(e.name.as_str());
            let ghost outv0 = out@.map_values(|x: Notification| x@);
            let subs = store.subscribers_list();
            let m = subs.len();
            let mut j: usize = 0;
            while j < m
                invariant
                    m == store.subs().len(),
                    0 <= j <= m,
                    n == dues@.len(),
                    0 <= i < n,
                    store.wf(),
                    subs@ == store.subs(),
                    e@ == dues@[i as int]@,
                    text@ == reminder_reply(dues@[i as int]@.name),
                    out@.map_values(|x: Notification| x@) == outv0 + per_event(
                        dues@[i as int]@,
                        store.subs(),
                    ).take(j as int),
                    forall|k: int|
                        0 <= k < out@.len() ==> has_subscriber(
                            store.subs(),
                            (#[trigger] out@[k]).user_id,
                        ),
                decreases m - j,
            {
                let s = subs[j];
                out.push(
                    Notification {
                        event_id: e.id,
                        user_id: s.user_id,
                        channel_id: s.channel_id,
                        message: text.clone(),
                    },
                );
                proof {
                    let pe = per_event(dues@[i as int]@, store.subs());
                    assert(out@.last()@.message == reminder_reply(dues@[i as int]@.name));
                    assert(out@.last()@.event_id == dues@[i as int]@.id);
                    assert(out@.last()@ == pe[j as int]);
                    assert(out@.drop_last().map_values(|x: Notification| x@) =~= outv0 + pe.take(
                        j as int,
                    ));
                    assert(out@.len() == outv0.len() + j + 1);
                    let outn = out@.map_values(|x: Notification| x@);
                    assert forall|k: int|
                        0 <= k < outn.len() implies #[trigger] outn[k] == (outv0 + pe.take(
                        j + 1,
                    ))[k] by {
                        assert(outn[k] == out@[k]@);
                        if k < out@.len() - 1 {
                            assert(out@.drop_last().map_values(|x: Notification| x@)[k] == (outv0
                                + pe.take(j as int))[k]);
                            assert(out@.drop_last()[k] == out@[k]);
                            if k >= outv0.len() {
                                assert(pe.take(j as int)[k - outv0.len()] == pe[k - outv0.len()]);
                                assert(pe.take(j + 1)[k - outv0.len()] == pe[k - outv0.len()]);
                            }
                        } else {
                            assert(pe.take(j + 1)[j as int] == pe[j as int]);
                        }
                    }
                    assert(outn =~= outv0 + pe.take(j + 1));
                    assert(has_subscriber(store.subs(), store.subs()[j as int].user_id));
                }
                j = j + 1;
            }
            proof {
                assert(per_event(dues@[i as int]@, store.subs()).take(m as int) =~= per_event(
                    dues@[i as int]@,
                    store.subs(),
                ));
                let rest = duesv.skip(i as int);
                assert(rest.first() == duesv[i as int]);
                assert(rest.drop_first() =~= duesv.skip(i + 1));
                assert(fan_out(rest, store.subs()) == per_event(duesv[i as int], store.subs())
                    + fan_out(duesv.skip(i + 1), store.subs()));
                assert(out@.map_values(|x: Notification| x@) =~= (outv0 + per_event(
                    duesv[i as int],
                    store.subs(),
                )));
            }
            i = i + 1;
        }
        proof {
            assert(duesv.skip(n as int) =~= Seq::<EventView>::empty());
            assert(fan_out(duesv.skip(n as int), store.subs()) =~= Seq::<NotificationView>::empty());
            assert(out@.map_values(|x: Notification| x@) =~= fan_out(duesv, store.subs()));
        }
        Some(out)
    }

    /// End the tick: the dispatcher is idle again, ready for the next.
    pub fn end_tick(&mut self)
        ensures
            !final(self).is_notifying(),
    {
        self.notifying = false;
    }
}

} // verus!
