use netidx_sub::durable::{next_wake, resub_timeout_secs, select_due, Backoff};

#[test]
fn backoff_grows_linearly_and_resets() {
    let mut b = Backoff::new(0);
    b.record_failure(1000);
    assert_eq!(b, Backoff { tries: 1, next_try: 2000 });
    b.record_failure(2000);
    assert_eq!(b, Backoff { tries: 2, next_try: 4000 });
    b.record_failure(4000);
    assert_eq!(b, Backoff { tries: 3, next_try: 7000 });
    assert!(!b.due(6999));
    assert!(b.due(7000));
    b.record_success();
    assert_eq!(b.tries, 0);
}

#[test]
fn backoff_saturates() {
    let mut b = Backoff { tries: u64::MAX, next_try: 0 };
    b.record_failure(5);
    assert_eq!(b, Backoff { tries: u64::MAX, next_try: u64::MAX });
}

#[test]
fn scheduler_selects_due_entries() {
    let e = vec![
        Backoff { tries: 2, next_try: 100 },
        Backoff { tries: 5, next_try: 300 },
        Backoff { tries: 4, next_try: 50 },
    ];
    assert_eq!(select_due(&e, 100), (vec![0, 2], 4));
    assert_eq!(select_due(&e, 10), (vec![], 0));
    assert_eq!(resub_timeout_secs(4), 14);
    assert_eq!(resub_timeout_secs(u64::MAX), u64::MAX);
    assert_eq!(next_wake(&e), Some(1050));
    assert_eq!(next_wake(&vec![]), None);
}

use netidx_sub::durable::{DVState, DurableSub};
use netidx_sub::value::SubId;

#[test]
fn durable_reconnect_after_three_failures() {
    let mut d: DurableSub<&str> = DurableSub::new(SubId(4), 0);
    assert_eq!(d.state(), DVState::Unsubscribed);
    assert_eq!(d.id(), SubId(4));
    assert!(d.backoff().due(0));
    d.failed(0);
    d.failed(1000);
    d.failed(3000);
    assert_eq!(d.backoff(), Backoff { tries: 3, next_try: 6000 });
    let due = select_due(&vec![d.backoff()], 6000);
    assert_eq!(due, (vec![0], 3));
    assert_eq!(resub_timeout_secs(due.1), 13);
    assert_eq!(next_wake(&vec![d.backoff()]), Some(7000));
    d.resubscribed("val");
    assert_eq!(d.state(), DVState::Subscribed);
    assert_eq!(d.val(), Some(&"val"));
    assert_eq!(d.backoff().tries, 0);
    assert_eq!(d.lost(), Some("val"));
    assert_eq!(d.state(), DVState::Unsubscribed);
}
