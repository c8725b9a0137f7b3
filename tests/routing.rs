use rustis::cluster::{is_splittable, route_keys, CrossSlot, Route};
use rustis::reconnect::{
    apply_jitter, backoff_delay, on_event, ConnectionEvent, ManagerAction, ManagerState, ReconnectPolicy,
};

#[test]
fn keyless_command_goes_anywhere() {
    assert!(matches!(route_keys(b"PING", &vec![]), Ok(Route::AnyShard)));
}

#[test]
fn same_shard_keys_go_intact() {
    assert!(matches!(route_keys(b"MGET", &vec![4, 4, 4]), Ok(Route::Shard(4))));
    assert!(matches!(route_keys(b"RPOPLPUSH", &vec![2, 2]), Ok(Route::Shard(2))));
}

#[test]
fn cross_shard_mget_is_split() {
    match route_keys(b"MGET", &vec![0, 0, 1]) {
        Ok(Route::Split { ids, groups }) => {
            assert_eq!(ids, vec![0, 1]);
            assert_eq!(groups, vec![vec![0, 1], vec![2]]);
        }
        _ => panic!("expected a split"),
    }
    assert!(matches!(route_keys(b"DEL", &vec![1, 2]), Ok(Route::Split { .. })));
}

#[test]
fn cross_shard_unsafe_command_is_refused() {
    assert!(matches!(route_keys(b"RPOPLPUSH", &vec![0, 1]), Err(CrossSlot)));
    assert!(matches!(route_keys(b"SUNION", &vec![3, 3, 1]), Err(CrossSlot)));
}

#[test]
fn splittable_names() {
    for n in ["MGET", "MSET", "DEL", "EXISTS", "UNLINK", "TOUCH"] {
        assert!(is_splittable(n.as_bytes()), "{}", n);
    }
    for n in ["GET", "mget", "MGETX", "", "SUNION"] {
        assert!(!is_splittable(n.as_bytes()), "{}", n);
    }
}

#[test]
fn backoff_doubles_then_caps() {
    assert_eq!(backoff_delay(100, 10_000, 0), 100);
    assert_eq!(backoff_delay(100, 10_000, 1), 200);
    assert_eq!(backoff_delay(100, 10_000, 6), 6400);
    assert_eq!(backoff_delay(100, 10_000, 7), 10_000);
    assert_eq!(backoff_delay(100, 10_000, 4_000_000_000), 10_000);
    assert_eq!(backoff_delay(0, 10_000, 30), 0);
    assert_eq!(backoff_delay(500, 300, 0), 300);
    assert_eq!(backoff_delay(u64::MAX, u64::MAX, 3), u64::MAX);
}

#[test]
fn jitter_spreads_both_ways() {
    assert_eq!(apply_jitter(1000, 100, 0), 900);
    assert_eq!(apply_jitter(1000, 100, 200), 1100);
    assert_eq!(apply_jitter(1000, 100, 201), 900);
    assert_eq!(apply_jitter(1000, 0, 12345), 1000);
    assert_eq!(apply_jitter(50, 100, 0), 0);
    assert_eq!(apply_jitter(50, 100, 150), 100);
    assert_eq!(apply_jitter(u64::MAX, 10, 20), u64::MAX);
}

fn policy(max_attempts: Option<u32>) -> ReconnectPolicy {
    ReconnectPolicy { base_delay: 100, max_delay: 1000, max_attempts }
}

#[test]
fn transient_failures_back_off_then_reset() {
    let p = policy(None);
    let (s, a) = on_event(ManagerState::Connected, ConnectionEvent::TransientFailure, &p);
    assert_eq!((s, a), (ManagerState::Reconnecting { attempt: 0 }, ManagerAction::RetryAfter(100)));
    let (s, a) = on_event(s, ConnectionEvent::TransientFailure, &p);
    assert_eq!((s, a), (ManagerState::Reconnecting { attempt: 1 }, ManagerAction::RetryAfter(200)));
    let (s, a) = on_event(ManagerState::Reconnecting { attempt: 5 }, ConnectionEvent::TransientFailure, &p);
    assert_eq!((s, a), (ManagerState::Reconnecting { attempt: 6 }, ManagerAction::RetryAfter(1000)));
    let (s, a) = on_event(s, ConnectionEvent::Established, &p);
    assert_eq!((s, a), (ManagerState::Connected, ManagerAction::ReleaseTraffic));
}

#[test]
fn fatal_failure_and_exhausted_attempts_give_up() {
    let (s, a) = on_event(ManagerState::Connected, ConnectionEvent::FatalFailure, &policy(None));
    assert_eq!((s, a), (ManagerState::Failed, ManagerAction::FailAll));
    let (s, a) = on_event(s, ConnectionEvent::Established, &policy(None));
    assert_eq!((s, a), (ManagerState::Failed, ManagerAction::FailAll));
    let p = policy(Some(2));
    let (s, _) = on_event(ManagerState::Connected, ConnectionEvent::TransientFailure, &p);
    let (s, _) = on_event(s, ConnectionEvent::TransientFailure, &p);
    assert_eq!(s, ManagerState::Reconnecting { attempt: 1 });
    let (s, a) = on_event(s, ConnectionEvent::TransientFailure, &p);
    assert_eq!((s, a), (ManagerState::Failed, ManagerAction::FailAll));
    let (s, _) = on_event(
        ManagerState::Reconnecting { attempt: u32::MAX },
        ConnectionEvent::TransientFailure,
        &policy(None),
    );
    assert_eq!(s, ManagerState::Failed);
}
