use netidx_sub::registry::{pick_address, DedupAction, Registry};
use netidx_sub::value::SubError;

type Reg = Registry<&'static str, u32, u32>;

#[test]
fn concurrent_callers_share_one_subscription() {
    let mut r: Reg = Registry::new();
    assert_eq!(r.dedup("/a".to_string(), false, 1), DedupAction::Resolve);
    assert_eq!(r.dedup("/a".to_string(), false, 2), DedupAction::WaitOther);
    assert_eq!(r.dedup("/a".to_string(), true, 3), DedupAction::WaitOther);
    assert_eq!(r.finish_ok("/a".to_string(), "val"), vec![2, 3]);
    assert_eq!(r.subscribed_handle(&"/a".to_string()), Some(&"val"));
    assert_eq!(r.dedup("/a".to_string(), true, 4), DedupAction::Existing);
    assert_eq!(r.dedup("/a".to_string(), false, 5), DedupAction::Resolve);
}

#[test]
fn failed_subscribe_tells_waiters_and_forgets_path() {
    let mut r: Reg = Registry::new();
    r.dedup("/a".to_string(), false, 1);
    r.dedup("/a".to_string(), false, 2);
    assert_eq!(r.finish_err(&"/a".to_string()), vec![2]);
    assert_eq!(r.subscribed_handle(&"/a".to_string()), None);
    assert_eq!(r.dedup("/a".to_string(), false, 3), DedupAction::Resolve);
}

#[test]
fn unsubscribe_leaves_pending_and_other_handles() {
    let mut r: Reg = Registry::new();
    r.dedup("/a".to_string(), false, 1);
    assert!(!r.unsubscribe_plain(&"/a".to_string(), true));
    r.finish_ok("/a".to_string(), "v");
    assert!(!r.unsubscribe_plain(&"/a".to_string(), false));
    assert!(r.unsubscribe_plain(&"/a".to_string(), true));
    assert_eq!(r.subscribed_handle(&"/a".to_string()), None);
}

#[test]
fn durable_path_is_alive_or_dead_never_both() {
    let mut r: Reg = Registry::new();
    r.insert_dead("/x".to_string(), 7);
    assert_eq!(r.durable_lookup(&"/x".to_string()), Some(&7));
    assert_eq!(r.dead_count(), 1);
    assert!(r.revive(&"/x".to_string()));
    assert_eq!(r.dead_count(), 0);
    assert!(!r.revive(&"/x".to_string()));
    assert_eq!(r.durable_lookup(&"/x".to_string()), Some(&7));
    assert_eq!(r.take_alive(&"/x".to_string()), Some(7));
    r.insert_dead("/x".to_string(), 7);
    r.revive(&"/x".to_string());
    r.insert_dead("/x".to_string(), 8);
    assert_eq!(r.take_alive(&"/x".to_string()), None);
    let (p, d) = r.dead_entry(0);
    assert_eq!((p.as_str(), *d), ("/x", 8));
    assert_eq!(r.remove_dead(&"/x".to_string()), Some(8));
    assert_eq!(r.durable_lookup(&"/x".to_string()), None);
}

#[test]
fn address_pick() {
    let none: Vec<u8> = vec![];
    assert_eq!(pick_address(&none), Err(SubError::PathNotFound));
    assert_eq!(pick_address(&vec![9u8]), Ok(0));
    for _ in 0..20 {
        assert!(pick_address(&vec![1u8, 2, 3]).unwrap() < 3);
    }
}

use netidx_sub::pipeline::{Phase, SubscribeBatch};

#[test]
fn subscribe_batch_phases() {
    let mut b: SubscribeBatch<u32, &str> = SubscribeBatch::new();
    b.begin(DedupAction::Resolve, 0, None);
    b.begin(DedupAction::WaitOther, 1, None);
    b.begin(DedupAction::Existing, 2, Some("v"));
    b.begin(DedupAction::Resolve, 3, None);
    b.begin(DedupAction::Resolve, 4, None);
    b.begin(DedupAction::Existing, 5, None);
    assert_eq!(b.to_resolve(), vec![0, 3, 4]);
    b.resolved(0, Ok(10));
    b.resolved(3, Err(SubError::PathNotFound));
    b.resolved(1, Ok(99));
    let p = b.into_phases();
    assert!(matches!(p[0], Phase::Subscribing(10)));
    assert!(matches!(p[1], Phase::WaitingOther(1)));
    assert!(matches!(p[2], Phase::Subscribed("v")));
    assert!(matches!(p[3], Phase::Failed(SubError::PathNotFound)));
    assert!(matches!(p[4], Phase::Failed(SubError::ResolveFailed)));
    assert!(matches!(p[5], Phase::Failed(SubError::ConnectionDied)));
}

#[test]
fn timed_out_resolution_fails_only_unresolved_paths() {
    let mut b: SubscribeBatch<u32, &str> = SubscribeBatch::new();
    b.begin(DedupAction::Existing, 0, Some("fast"));
    b.begin(DedupAction::Resolve, 1, None);
    b.resolve_failed(true);
    let p = b.into_phases();
    assert!(matches!(p[0], Phase::Subscribed("fast")));
    assert!(matches!(p[1], Phase::Failed(SubError::TimedOut)));
    let mut b: SubscribeBatch<u32, &str> = SubscribeBatch::new();
    b.begin(DedupAction::Resolve, 1, None);
    b.resolve_failed(false);
    assert!(matches!(b.into_phases()[0], Phase::Failed(SubError::ResolveFailed)));
}

use netidx_sub::registry::handle_done;

#[test]
fn handle_done_only_for_dead_or_same_subscription() {
    assert!(handle_done(None, 3));
    assert!(handle_done(Some((3, true)), 3));
    assert!(!handle_done(Some((3, false)), 3));
    assert!(!handle_done(Some((4, true)), 3));
}

#[test]
fn address_pick_succeeds_whenever_there_is_one() {
    for n in 1..6usize {
        let v: Vec<usize> = (0..n).collect();
        assert!(pick_address(&v).unwrap() < n);
    }
}
