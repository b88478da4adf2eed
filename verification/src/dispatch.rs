//! The dispatch step: one incoming message taken to one registry change and
//! one reply, as a pure function of the message, the registry and the clock.

use vstd::prelude::*;
use crate::clock::{instant_in_range, local_civil_date, local_midnight_instant, local_seconds_of_day};
use crate::date::{
    Date, date_day_number, spec_date_of, spec_resolve_partial,
};
use crate::format::{
    bad_date_reply, bad_date_reply_string, bad_offset_reply, bad_offset_reply_string, dm_text,
    dm_text_string, missing_name_reply, missing_name_reply_string, new_event_reply,
    new_event_reply_string, ping_reply, ping_reply_string, subscribe_reply,
    subscribe_reply_string, timezone_reply, timezone_reply_string, unsubscribe_reply,
    unsubscribe_reply_string,
};
use crate::parse::{
    Command, ParseError, is_command_msg, msg_change_timezone, msg_direct_message, msg_new_event,
    msg_ping, msg_subscribe, msg_unsubscribe, parse_message, seg_len, spec_parse_date,
    spec_parse_offset,
};
use crate::store::{EventView, Store, offset_of, spec_subscribe, spec_unsubscribe};

verus! {

/// What the transport is asked to do once a message is handled.
pub enum Outcome {
    /// Send the text to the channel the message arrived on.
    ChannelReply(String),
    /// Send the text as a direct message to the named user.
    DirectReply(u64, String),
    /// The message carried no command; nothing is sent.
    Silent,
}

/// The date a parsed day/month/optional-year denotes, seen from `today`:
/// the given year when one was written, else the next occurrence.
pub open spec fn spec_event_date(d: int, m: int, y: Option<int>, today: Date) -> Date {
    match y {
        Some(yy) => Date { year: yy as u16, month: m as u8, day: d as u8 },
        None => spec_resolve_partial(d, m, today),
    }
}

/// What handling a `!newEvent` message owes: the errors on a missing name
/// or a bad date, else one event recorded at local midnight of the resolved
/// date and the confirmation reply.
pub open spec fn new_event_step(
    pre: Store,
    post: Store,
    author_id: u64,
    server_id: u64,
    now: int,
    s: Seq<char>,
    r: Outcome,
) -> bool {
    let tail = s.skip("!newEvent "@.len() as int);
    let nlen = seg_len(tail, ' ') as int;
    if nlen == 0 {
        post == pre && (r matches Outcome::ChannelReply(t) && t@ == missing_name_reply())
    } else if nlen == tail.len() {
        post == pre && (r matches Outcome::ChannelReply(t) && t@ == bad_date_reply())
    } else {
        match spec_parse_date(tail.skip(nlen + 1)) {
            None => post == pre && (r matches Outcome::ChannelReply(t) && t@ == bad_date_reply()),
            Some((d, m, y)) => {
                let off = offset_of(pre.offsets(), server_id);
                let today = spec_date_of((now + off) / 86400);
                let ed = spec_event_date(d, m, y, today);
                &&& post.subs() == pre.subs()
                &&& post.offsets() == pre.offsets()
                &&& post.next_id() == pre.next_id() + 1
                &&& post.events_view() == pre.events_view().push(
                    EventView {
                        id: pre.next_id(),
                        name: tail.take(nlen),
                        owner: author_id,
                        scheduled_at: date_day_number(ed) * 86400 - off,
                        notified: false,
                    },
                )
                &&& (r matches Outcome::ChannelReply(t) && t@ == new_event_reply(
                    author_id,
                    tail.take(nlen),
                    ed,
                ))
            },
        }
    }
}

/// What handling a `!changeTimezone` message owes.
pub open spec fn change_timezone_step(
    pre: Store,
    post: Store,
    server_id: u64,
    s: Seq<char>,
    r: Outcome,
) -> bool {
    let tail = s.skip("!changeTimezone "@.len() as int);
    match spec_parse_offset(tail) {
        None => post == pre && (r matches Outcome::ChannelReply(t) && t@ == bad_offset_reply()),
        Some(o) => {
            &&& offset_of(post.offsets(), server_id) == o
            &&& forall|sv: u64|
                sv != server_id ==> #[trigger] offset_of(post.offsets(), sv) == offset_of(
                    pre.offsets(),
                    sv,
                )
            &&& post.subs() == pre.subs()
            &&& post.events_view() == pre.events_view()
            &&& post.next_id() == pre.next_id()
            &&& (r matches Outcome::ChannelReply(t) && t@ == timezone_reply(o))
        },
    }
}

/// Handle one inbound message: classify it, apply the one change it asks of
/// the registry, and say what the transport should send back.
pub fn handle_message(
    store: &mut Store,
    author_id: u64,
    channel_id: u64,
    server_id: u64,
    now: i64,
    text: &str,
) -> (r: Outcome)
    requires
        old(store).wf(),
        instant_in_range(now as int),
        old(store).next_id() < u64::MAX,
    ensures
        final(store).wf(),
        msg_subscribe(text@) ==> final(store).subs() == spec_subscribe(
            old(store).subs(),
            author_id,
            channel_id,
        ) && final(store).events_view() == old(store).events_view() && final(store).offsets()
            == old(store).offsets() && final(store).next_id() == old(store).next_id() && (r
            matches Outcome::ChannelReply(t) && t@ == subscribe_reply(author_id)),
        msg_unsubscribe(text@) ==> final(store).subs() == spec_unsubscribe(
            old(store).subs(),
            author_id,
        ) && final(store).events_view() == old(store).events_view() && final(store).offsets()
            == old(store).offsets() && final(store).next_id() == old(store).next_id() && (r
            matches Outcome::ChannelReply(t) && t@ == unsubscribe_reply(author_id)),
        msg_ping(text@) ==> *final(store) == *old(store) && (r matches Outcome::ChannelReply(t)
            && t@ == ping_reply(
            (now as int + offset_of(old(store).offsets(), server_id)) % 86400,
            spec_date_of((now as int + offset_of(old(store).offsets(), server_id)) / 86400),
        )),
        msg_direct_message(text@) ==> *final(store) == *old(store) && (r
            matches Outcome::DirectReply(u, t) && u == author_id && t@ == dm_text()),
        msg_new_event(text@) ==> new_event_step(
            *old(store),
            *final(store),
            author_id,
            server_id,
            now as int,
            text@,
            r,
        ),
        msg_change_timezone(text@) ==> change_timezone_step(
            *old(store),
            *final(store),
            server_id,
            text@,
            r,
        ),
        !is_command_msg(text@) ==> *final(store) == *old(store) && r is Silent,
{
    match parse_message(text) {
        Ok(Command::Subscribe) => {
            let _ = store.subscribe(author_id, channel_id);
            Outcome::ChannelReply(subscribe_reply_string(author_id))
        },
        Ok(Command::Unsubscribe) => {
            let _ = store.unsubscribe(author_id);
            Outcome::ChannelReply(unsubscribe_reply_string(author_id))
        },
        Ok(Command::CreateEvent { name, day, month, year }) => {
            let offset = store.get_server_offset(server_id);
            let today = local_civil_date(now, offset);
            let ed: Date = match year {
                Some(y) => Date { year: y, month, day },
                None => crate::date::resolve_partial_date(day, month, today),
            };
            let when: i64 = local_midnight_instant(ed, offset);
            let reply = new_event_reply_string(author_id, name.as_str(), ed);
            store.create_event(name, author_id, when);
            Outcome::ChannelReply(reply)
        },
        Ok(Command::ChangeTimezone { offset_seconds }) => {
            store.set_server_offset(server_id, offset_seconds);
            Outcome::ChannelReply(timezone_reply_string(offset_seconds))
        },
        Ok(Command::Ping) => {
            let offset = store.get_server_offset(server_id);
            let sod = local_seconds_of_day(now, offset);
            let d = local_civil_date(now, offset);
            Outcome::ChannelReply(ping_reply_string(sod, d))
        },
        Ok(Command::DirectMessageTest) => Outcome::DirectReply(author_id, dm_text_string()),
        Ok(Command::NotACommand) => Outcome::Silent,
        Err(ParseError::MissingName) => Outcome::ChannelReply(missing_name_reply_string()),
        Err(ParseError::BadDate) => Outcome::ChannelReply(bad_date_reply_string()),
        Err(ParseError::BadOffset) => Outcome::ChannelReply(bad_offset_reply_string()),
    }
}

} // verus!
