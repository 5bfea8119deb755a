use netidx_sub::connection::{only_updates, Connection, Effect, SubscribeRequest, TickOutcome};
use netidx_sub::value::{ChanId, FromPublisher, SubError, SubId, ToPublisher, Value};

fn req(path: &str, waiter: u32, deadline: Option<u64>) -> SubscribeRequest<u32> {
    SubscribeRequest { path: path.to_string(), token: vec![1, 2], resolver: 9, deadline, finished: waiter }
}

fn subscribed(c: &mut Connection<u32>, path: &str, waiter: u32, id: u64, v: Value) {
    c.subscribe(req(path, waiter, None));
    let e = c.process_batch(&vec![FromPublisher::Subscribed(path.to_string(), id, v)]);
    assert!(matches!(e.as_slice(), [Effect::Finish(w, Ok(i))] if *w == waiter && *i == id));
}

#[test]
fn subscribe_sends_request_and_replaces_pending() {
    let mut c: Connection<u32> = Connection::new();
    let e = c.subscribe(req("/a", 1, None));
    assert_eq!(e.len(), 1);
    match &e[0] {
        Effect::Send(m) => assert_eq!(
            m,
            &ToPublisher::Subscribe { path: "/a".to_string(), resolver: 9, token: vec![1, 2] }
        ),
        _ => panic!("expected a send"),
    }
    let e = c.subscribe(req("/a", 2, None));
    assert_eq!(e.len(), 2);
    assert!(matches!(e[0], Effect::Finish(1, Err(SubError::ConnectionDied))));
}

#[test]
fn solo_subscribe_then_update() {
    let mut c: Connection<u32> = Connection::new();
    subscribed(&mut c, "/a", 1, 5, Value::U32(7));
    assert_eq!(c.last(5), Some(Value::U32(7)));
    assert_eq!(c.last(6), None);
    assert_eq!(c.stream(5, SubId(11), ChanId(1), false), None);
    let batch = vec![FromPublisher::Update(5, Value::U32(9))];
    assert!(only_updates(&batch));
    let out = c.process_updates_batch(&batch);
    assert_eq!(out, vec![(ChanId(1), vec![(SubId(11), Value::U32(9))])]);
    assert_eq!(c.last(5), Some(Value::U32(9)));
}

#[test]
fn stream_begins_with_last_when_asked() {
    let mut c: Connection<u32> = Connection::new();
    subscribed(&mut c, "/a", 1, 5, Value::String("x".to_string()));
    assert_eq!(
        c.stream(5, SubId(3), ChanId(4), true),
        Some(vec![(SubId(3), Value::String("x".to_string()))])
    );
    assert_eq!(c.stream(99, SubId(3), ChanId(4), true), None);
}

#[test]
fn batch_fan_out_one_batch_per_channel_in_wire_order() {
    let mut c: Connection<u32> = Connection::new();
    for i in 0..10u64 {
        subscribed(&mut c, &format!("/p{}", i), i as u32, i, Value::Null);
        c.stream(i, SubId(100 + i), ChanId(7), false);
    }
    let batch: Vec<FromPublisher> =
        (0..10u64).map(|i| FromPublisher::Update(i, Value::U64(i * 10))).collect();
    let out = c.process_updates_batch(&batch);
    assert_eq!(out.len(), 1);
    assert_eq!(out[0].0, ChanId(7));
    let expected: Vec<(SubId, Value)> = (0..10u64).map(|i| (SubId(100 + i), Value::U64(i * 10))).collect();
    assert_eq!(out[0].1, expected);
}

#[test]
fn fast_path_splits_by_channel_and_ignores_unknown_ids() {
    let mut c: Connection<u32> = Connection::new();
    subscribed(&mut c, "/a", 1, 1, Value::Null);
    subscribed(&mut c, "/b", 2, 2, Value::Null);
    c.stream(1, SubId(10), ChanId(1), false);
    c.stream(1, SubId(11), ChanId(2), false);
    c.stream(2, SubId(20), ChanId(2), false);
    let out = c.process_updates_batch(&vec![
        FromPublisher::Update(2, Value::I32(-1)),
        FromPublisher::Update(3, Value::True),
        FromPublisher::Update(1, Value::I32(5)),
    ]);
    assert_eq!(
        out,
        vec![
            (ChanId(2), vec![(SubId(20), Value::I32(-1)), (SubId(11), Value::I32(5))]),
            (ChanId(1), vec![(SubId(10), Value::I32(5))]),
        ]
    );
}

#[test]
fn mixed_batch_is_processed_in_order() {
    let mut c: Connection<u32> = Connection::new();
    subscribed(&mut c, "/a", 1, 1, Value::Null);
    c.stream(1, SubId(10), ChanId(1), false);
    c.subscribe(req("/gone", 2, None));
    c.subscribe(req("/no", 3, None));
    let batch = vec![
        FromPublisher::Heartbeat,
        FromPublisher::Update(1, Value::False),
        FromPublisher::Update(8, Value::False),
        FromPublisher::Denied("/no".to_string()),
        FromPublisher::NoSuchValue("/gone".to_string()),
        FromPublisher::Subscribed("/late".to_string(), 4, Value::Null),
        FromPublisher::Unsubscribed(1),
    ];
    assert!(!only_updates(&batch));
    let e = c.process_batch(&batch);
    assert_eq!(e.len(), 6);
    assert!(matches!(&e[0], Effect::Deliver(ChanId(1), b) if b == &vec![(SubId(10), Value::False)]));
    assert!(matches!(&e[1], Effect::Send(ToPublisher::Unsubscribe(8))));
    assert!(matches!(&e[2], Effect::Finish(3, Err(SubError::AccessDenied))));
    assert!(matches!(&e[3], Effect::Finish(2, Err(SubError::PathNotFound))));
    assert!(matches!(&e[4], Effect::Send(ToPublisher::Unsubscribe(4))));
    assert!(matches!(&e[5], Effect::Unsubscribed(p, 1) if p == "/a"));
    assert_eq!(c.last(1), None);
}

#[test]
fn abandon_forgets_subscription() {
    let mut c: Connection<u32> = Connection::new();
    subscribed(&mut c, "/a", 1, 3, Value::Null);
    assert_eq!(c.abandon(3), ToPublisher::Unsubscribe(3));
    assert_eq!(c.last(3), None);
}

#[test]
fn detach_chan_stops_delivery() {
    let mut c: Connection<u32> = Connection::new();
    subscribed(&mut c, "/a", 1, 1, Value::Null);
    c.stream(1, SubId(10), ChanId(1), false);
    c.stream(1, SubId(10), ChanId(2), false);
    c.detach_chan(ChanId(1));
    let out = c.process_updates_batch(&vec![FromPublisher::Update(1, Value::Okay)]);
    assert_eq!(out, vec![(ChanId(2), vec![(SubId(10), Value::Okay)])]);
}

#[test]
fn tick_detects_hung_publisher() {
    let mut c: Connection<u32> = Connection::new();
    c.subscribe(req("/a", 1, None));
    assert!(matches!(c.tick(10), TickOutcome::Hung));
}

#[test]
fn tick_exits_after_two_idle_periods() {
    let mut c: Connection<u32> = Connection::new();
    c.process_batch(&vec![FromPublisher::Heartbeat]);
    assert!(matches!(c.tick(10), TickOutcome::Continue(ref e) if e.is_empty()));
    c.process_batch(&vec![FromPublisher::Heartbeat]);
    assert!(matches!(c.tick(20), TickOutcome::Idle));
}

#[test]
fn tick_times_out_only_expired_requests() {
    let mut c: Connection<u32> = Connection::new();
    c.subscribe(req("/fast", 1, Some(100)));
    c.subscribe(req("/slow", 2, Some(50)));
    c.subscribe(req("/none", 3, None));
    c.process_batch(&vec![FromPublisher::Heartbeat]);
    match c.tick(60) {
        TickOutcome::Continue(e) => {
            assert_eq!(e.len(), 1);
            assert!(matches!(e[0], Effect::Finish(2, Err(SubError::TimedOut))));
        }
        _ => panic!("expected to continue"),
    }
    let e = c.process_batch(&vec![FromPublisher::Subscribed("/fast".to_string(), 1, Value::Null)]);
    assert!(matches!(e[0], Effect::Finish(1, Ok(1))));
}

#[test]
fn shutdown_unsubscribes_and_fails_waiters() {
    let mut c: Connection<u32> = Connection::new();
    subscribed(&mut c, "/a", 1, 1, Value::Null);
    c.subscribe(req("/b", 2, None));
    let e = c.shutdown();
    assert_eq!(e.len(), 2);
    assert!(matches!(&e[0], Effect::Unsubscribed(p, 1) if p == "/a"));
    assert!(matches!(e[1], Effect::Finish(2, Err(SubError::ConnectionDied))));
}

use netidx_sub::connection::{check_final_step, check_hello_reply, AuthMode, Hello};

#[test]
fn hello_replies() {
    assert_eq!(check_hello_reply(AuthMode::Anonymous, &Hello::Anonymous), Ok(None));
    assert_eq!(check_hello_reply(AuthMode::Anonymous, &Hello::Token(vec![1])), Err(SubError::AuthFailed));
    assert_eq!(check_hello_reply(AuthMode::Kerberos, &Hello::Anonymous), Err(SubError::AuthFailed));
    assert_eq!(
        check_hello_reply(AuthMode::Kerberos, &Hello::ResolverAuthenticate(1, vec![])),
        Err(SubError::InvalidData)
    );
    let t = Hello::Token(vec![5, 6]);
    assert_eq!(check_hello_reply(AuthMode::Kerberos, &t), Ok(Some(&vec![5, 6])));
    assert_eq!(check_final_step(true), Err(SubError::AuthFailed));
    assert_eq!(check_final_step(false), Ok(()));
}

#[test]
fn hung_publisher_then_durable_subs_are_handed_back() {
    let mut c: Connection<u32> = Connection::new();
    subscribed(&mut c, "/x", 1, 3, Value::U32(1));
    assert!(matches!(c.tick(10_000), TickOutcome::Continue(_)));
    assert!(matches!(c.tick(20_000), TickOutcome::Hung));
    let e = c.shutdown();
    assert_eq!(e.len(), 1);
    assert!(matches!(&e[0], Effect::Unsubscribed(p, 3) if p == "/x"));
}
