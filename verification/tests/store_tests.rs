use alertbot::store::Store;

#[test]
fn subscribe_twice_leaves_one_record() {
    let mut s = Store::new();
    assert!(s.subscribe(7, 100).is_ok());
    assert!(s.subscribe(7, 200).is_ok());
    let subs = s.subscribers_list();
    assert_eq!(subs.len(), 1);
    assert_eq!(subs[0].user_id, 7);
    assert_eq!(subs[0].channel_id, 100);
}

#[test]
fn unsubscribe_unknown_user_is_ok_noop() {
    let mut s = Store::new();
    assert!(s.subscribe(1, 10).is_ok());
    assert!(s.unsubscribe(42).is_ok());
    assert_eq!(s.subscribers_list().len(), 1);
    assert!(s.unsubscribe(1).is_ok());
    assert_eq!(s.subscribers_list().len(), 0);
    assert!(s.unsubscribe(1).is_ok());
    assert_eq!(s.subscribers_list().len(), 0);
}

#[test]
fn created_event_ids_are_unique() {
    let mut s = Store::new();
    let mut ids = Vec::new();
    for k in 0..5u64 {
        ids.push(s.create_event(format!("ev{k}"), k, 1000 + k as i64));
    }
    for a in 0..ids.len() {
        for b in 0..ids.len() {
            if a != b {
                assert_ne!(ids[a], ids[b]);
            }
        }
    }
}

#[test]
fn due_events_are_past_unnotified_and_sorted() {
    let mut s = Store::new();
    let a = s.create_event("a".to_string(), 1, 20);
    let _b = s.create_event("b".to_string(), 1, 5);
    let _c = s.create_event("c".to_string(), 1, 10);
    let _d = s.create_event("d".to_string(), 1, 99);
    s.mark_notified(a);
    let due = s.due_events(30);
    assert_eq!(due.len(), 2);
    assert_eq!(due[0].scheduled_at, 5);
    assert_eq!(due[1].scheduled_at, 10);
    for e in &due {
        assert!(e.scheduled_at <= 30);
        assert!(!e.notified);
    }
    assert_eq!(s.due_events(4).len(), 0);
}

#[test]
fn mark_notified_is_idempotent() {
    let mut s = Store::new();
    let a = s.create_event("a".to_string(), 1, 20);
    s.mark_notified(a);
    s.mark_notified(a);
    assert_eq!(s.due_events(100).len(), 0);
}

#[test]
fn server_offsets_default_and_update() {
    let mut s = Store::new();
    assert_eq!(s.get_server_offset(9), 39600);
    s.set_server_offset(9, 18000);
    assert_eq!(s.get_server_offset(9), 18000);
    assert_eq!(s.get_server_offset(10), 39600);
    s.set_server_offset(9, -10800);
    assert_eq!(s.get_server_offset(9), -10800);
}
