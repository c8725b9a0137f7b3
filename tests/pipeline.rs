use rustis::pipeline::{ReplyOutcome, ReplyQueue};

fn delivered(o: ReplyOutcome<&'static str>) -> (u64, Vec<&'static str>) {
    match o {
        ReplyOutcome::Delivered { id, replies } => (id, replies),
        _ => panic!("expected a delivery"),
    }
}

#[test]
fn replies_follow_submission_order() {
    let mut q: ReplyQueue<&'static str> = ReplyQueue::new();
    for id in 1..=5u64 {
        q.submit(id, 1);
    }
    for (id, reply) in [(1u64, "r1"), (2, "r2"), (3, "r3"), (4, "r4"), (5, "r5")] {
        assert_eq!(delivered(q.receive(reply)), (id, vec![reply]));
    }
    assert!(matches!(q.receive("late"), ReplyOutcome::Unexpected("late")));
}

#[test]
fn batch_replies_align_with_commands() {
    let mut q: ReplyQueue<&'static str> = ReplyQueue::new();
    q.submit(10, 3);
    q.submit(11, 1);
    assert!(matches!(q.receive("OK"), ReplyOutcome::Waiting));
    assert!(matches!(q.receive("QUEUED"), ReplyOutcome::Waiting));
    assert_eq!(delivered(q.receive("[OK, 2]")), (10, vec!["OK", "QUEUED", "[OK, 2]"]));
    assert_eq!(delivered(q.receive("2")), (11, vec!["2"]));
}

#[test]
fn message_without_commands_waits_for_nothing() {
    let mut q: ReplyQueue<&'static str> = ReplyQueue::new();
    q.submit(1, 0);
    q.submit(2, 1);
    assert_eq!(delivered(q.receive("x")), (2, vec!["x"]));
}

#[test]
fn disconnect_fails_each_waiting_message_once() {
    let mut q: ReplyQueue<&'static str> = ReplyQueue::new();
    q.submit(1, 1);
    q.submit(2, 2);
    q.submit(3, 1);
    assert_eq!(delivered(q.receive("a")), (1, vec!["a"]));
    assert!(matches!(q.receive("b"), ReplyOutcome::Waiting));
    let (ids, received) = q.fail_all();
    assert_eq!(ids, vec![2, 3]);
    assert_eq!(received, 1);
    let (ids, received) = q.fail_all();
    assert!(ids.is_empty());
    assert_eq!(received, 0);
    assert!(matches!(q.receive("c"), ReplyOutcome::Unexpected("c")));
}

#[test]
fn unexpected_reply_on_idle_queue() {
    let mut q: ReplyQueue<u8> = ReplyQueue::new();
    assert!(matches!(q.receive(4), ReplyOutcome::Unexpected(4)));
}
