use alertbot::dispatch::{handle_message, Outcome};
use alertbot::store::Store;
use alertbot::tick::Dispatcher;

const AUTHOR: u64 = 42;
const CHANNEL: u64 = 7;
const SERVER: u64 = 1;

// 2025-06-15 12:00:00 UTC
const NOW: i64 = 1_749_988_800;

fn channel_text(o: Outcome) -> String {
    match o {
        Outcome::ChannelReply(t) => t,
        _ => panic!("expected a channel reply"),
    }
}

#[test]
fn alert_me_replies_with_mention() {
    let mut s = Store::new();
    let r = handle_message(&mut s, AUTHOR, CHANNEL, SERVER, NOW, "!alertMe please");
    assert_eq!(channel_text(r), "I will alert <@42> when it is time for an event.");
    assert_eq!(s.subscribers_list().len(), 1);
}

#[test]
fn remove_me_replies_and_clears() {
    let mut s = Store::new();
    handle_message(&mut s, AUTHOR, CHANNEL, SERVER, NOW, "!alertMe please");
    let r = handle_message(&mut s, AUTHOR, CHANNEL, SERVER, NOW, "!removeMe please");
    assert_eq!(channel_text(r), "I will no longer alert <@42> when it is time for an event.");
    assert_eq!(s.subscribers_list().len(), 0);
}

#[test]
fn new_event_becomes_due_exactly_once() {
    let mut s = Store::new();
    let r = handle_message(&mut s, AUTHOR, CHANNEL, SERVER, NOW, "!newEvent Standup 05/03");
    // 5 March of the next year (2026), local midnight at the default +11:00
    assert_eq!(
        channel_text(r),
        "User <@42> has added the new event: Standup for 2026-03-05"
    );
    let when: i64 = 1_772_629_200;
    assert_eq!(s.due_events(when - 1).len(), 0);
    let due = s.due_events(when);
    assert_eq!(due.len(), 1);
    assert_eq!(due[0].name, "Standup");
    assert_eq!(due[0].scheduled_at, when);
    assert_eq!(due[0].owner, AUTHOR);
    let id = due[0].id;
    s.mark_notified(id);
    assert_eq!(s.due_events(when).len(), 0);
}

#[test]
fn timezone_change_is_reflected_by_ping() {
    let mut s = Store::new();
    let now: i64 = 1_000_000_000;
    let before = handle_message(&mut s, AUTHOR, CHANNEL, SERVER, now, "!ping");
    assert_eq!(channel_text(before), "It is currently 12:46:40 | 2001-09-09");
    let tz = handle_message(&mut s, AUTHOR, CHANNEL, SERVER, now, "!changeTimezone +5");
    assert_eq!(channel_text(tz), "Your timezone is now set to UTC+05:00");
    let after = handle_message(&mut s, AUTHOR, CHANNEL, SERVER, now, "!ping");
    assert_eq!(channel_text(after), "It is currently 06:46:40 | 2001-09-09");
}

#[test]
fn negative_timezone_rendering() {
    let mut s = Store::new();
    let tz = handle_message(&mut s, AUTHOR, CHANNEL, SERVER, NOW, "!changeTimezone -03:30");
    assert_eq!(channel_text(tz), "Your timezone is now set to UTC-03:30");
}

#[test]
fn messageme_is_a_direct_reply() {
    let mut s = Store::new();
    match handle_message(&mut s, AUTHOR, CHANNEL, SERVER, NOW, "!messageme") {
        Outcome::DirectReply(user, t) => {
            assert_eq!(user, AUTHOR);
            assert_eq!(t, "Hello!");
        }
        _ => panic!("expected a direct reply"),
    }
}

#[test]
fn non_commands_are_silent() {
    let mut s = Store::new();
    assert!(matches!(
        handle_message(&mut s, AUTHOR, CHANNEL, SERVER, NOW, "good morning"),
        Outcome::Silent
    ));
}

#[test]
fn error_replies_explain_the_format() {
    let mut s = Store::new();
    let bad_date = handle_message(&mut s, AUTHOR, CHANNEL, SERVER, NOW, "!newEvent X 99/99");
    assert_eq!(channel_text(bad_date), "Event dates must look like dd/mm or dd/mm/yy.");
    let no_name = handle_message(&mut s, AUTHOR, CHANNEL, SERVER, NOW, "!newEvent ");
    assert_eq!(channel_text(no_name), "Events need a name: !newEvent <name> <date>.");
    let bad_off = handle_message(&mut s, AUTHOR, CHANNEL, SERVER, NOW, "!changeTimezone xx");
    assert_eq!(
        channel_text(bad_off),
        "Offsets must look like +H, -H or +H:MM, between -12 and +14."
    );
    assert_eq!(s.due_events(NOW).len(), 0);
}

#[test]
fn removed_subscriber_gets_no_notifications() {
    let mut s = Store::new();
    handle_message(&mut s, AUTHOR, CHANNEL, SERVER, NOW, "!alertMe please");
    handle_message(&mut s, AUTHOR, CHANNEL, SERVER, NOW, "!removeMe please");
    s.create_event("due".to_string(), 5, NOW - 100);
    let mut d = Dispatcher::new();
    let plan = d.begin_tick(&s, NOW).expect("idle dispatcher must plan");
    assert_eq!(plan.len(), 0);
}

#[test]
fn subscriber_is_notified_for_each_due_event() {
    let mut s = Store::new();
    handle_message(&mut s, AUTHOR, CHANNEL, SERVER, NOW, "!alertMe please");
    s.create_event("first".to_string(), 5, NOW - 100);
    s.create_event("second".to_string(), 5, NOW - 50);
    s.create_event("later".to_string(), 5, NOW + 50);
    let mut d = Dispatcher::new();
    let plan = d.begin_tick(&s, NOW).expect("idle dispatcher must plan");
    assert_eq!(plan.len(), 2);
    assert_eq!(plan[0].user_id, AUTHOR);
    assert_eq!(plan[0].channel_id, CHANNEL);
    assert_eq!(plan[0].message, "It is time for the event: first");
    assert_eq!(plan[1].message, "It is time for the event: second");
    // a second tick while notifying is skipped, then resumes after end_tick
    assert!(d.begin_tick(&s, NOW).is_none());
    d.end_tick();
    assert!(d.begin_tick(&s, NOW).is_some());
}
