use rustis::command::Command;
use rustis::message::{Commands, Message, RetryReason, RetryReasons, MAX_RETRY_REASONS};
use rustis::pipeline::resend_after_disconnect;

fn cmd(name: &str) -> Command {
    Command::new(name.as_bytes().to_vec())
}

fn names(mut it: rustis::message::CommandsIterator) -> Vec<Vec<u8>> {
    let mut out = Vec::new();
    while let Some(c) = it.next() {
        out.push(c.name);
    }
    out
}

#[test]
fn commands_len_counts_each_variant() {
    assert_eq!(Commands::Empty.len(), 0);
    assert_eq!(Commands::Single(cmd("PING")).len(), 1);
    assert_eq!(Commands::Batch(vec![cmd("MULTI"), cmd("SET"), cmd("INCR"), cmd("EXEC")]).len(), 4);
    assert_eq!(Commands::Batch(vec![]).len(), 0);
}

#[test]
fn owned_iteration_keeps_order() {
    assert!(names(Commands::Empty.into_iter()).is_empty());
    assert_eq!(names(Commands::Single(cmd("GET")).into_iter()), vec![b"GET".to_vec()]);
    let batch = Commands::Batch(vec![cmd("MULTI"), cmd("SET"), cmd("EXEC")]);
    assert_eq!(
        names(batch.into_iter()),
        vec![b"MULTI".to_vec(), b"SET".to_vec(), b"EXEC".to_vec()]
    );
}

#[test]
fn owned_iterator_stays_exhausted() {
    let mut it = Commands::Single(cmd("GET")).into_iter();
    assert!(it.next().is_some());
    assert!(it.next().is_none());
    assert!(it.next().is_none());
}

#[test]
fn borrowed_iteration_keeps_order() {
    let batch = Commands::Batch(vec![cmd("A"), cmd("B")]);
    let mut it = batch.iter();
    assert_eq!(it.next().unwrap().name, b"A".to_vec());
    assert_eq!(it.next().unwrap().name, b"B".to_vec());
    assert!(it.next().is_none());
    let single = Commands::Single(cmd("C"));
    let mut it = single.iter();
    assert_eq!(it.next().unwrap().name, b"C".to_vec());
    assert!(it.next().is_none());
    let mut it = Commands::Empty.iter();
    assert!(it.next().is_none());
}

#[test]
fn command_builder_appends_arguments() {
    let c = cmd("SET").arg(b"foo".to_vec()).arg(b"bar".to_vec()).retry_on_error(true);
    assert_eq!(c.name, b"SET".to_vec());
    assert_eq!(c.args, vec![b"foo".to_vec(), b"bar".to_vec()]);
    assert!(c.retry_on_error);
}

#[test]
fn message_constructors_fill_the_right_sinks() {
    let m: Message<u32, u8, u16> = Message::single(cmd("GET"), 7);
    assert_eq!(m.commands.len(), 1);
    assert_eq!(m.value_sender, Some(7));
    assert!(m.pub_sub_senders.is_none() && m.push_sender.is_none() && m.retry_reasons.is_none());

    let m: Message<u32, u8, u16> = Message::single_forget(cmd("GET"));
    assert!(m.value_sender.is_none());

    let m: Message<u32, u8, u16> = Message::batch(vec![cmd("A"), cmd("B")], 1);
    assert_eq!(m.commands.len(), 2);

    let m: Message<u32, u8, u16> = Message::pub_sub(cmd("SUBSCRIBE"), 1, vec![(b"ch1".to_vec(), 9)]);
    assert_eq!(m.pub_sub_senders, Some(vec![(b"ch1".to_vec(), 9u8)]));

    let m: Message<u32, u8, u16> = Message::monitor(cmd("MONITOR"), 1, 5);
    assert_eq!(m.push_sender, Some(5));
    assert_eq!(m.value_sender, Some(1));

    let m: Message<u32, u8, u16> = Message::client_tracking_invalidation(3);
    assert_eq!(m.commands.len(), 0);
    assert!(m.value_sender.is_none());
    assert_eq!(m.push_sender, Some(3));
}

#[test]
fn moved_reason_is_recorded_once() {
    let mut m: Message<u32, u8, u16> = Message::single(cmd("GET"), 1);
    let moved = RetryReason::Moved { slot: 866, address: "10.0.0.2:6379".to_string() };
    assert!(m.add_retry_reason(moved).is_ok());
    let reasons = m.retry_reasons.as_ref().unwrap();
    assert_eq!(reasons.len(), 1);
    match reasons.get(0) {
        RetryReason::Moved { slot, address } => {
            assert_eq!(*slot, 866);
            assert_eq!(address, "10.0.0.2:6379");
        }
        _ => panic!("expected a Moved reason"),
    }
}

#[test]
fn retry_reasons_are_bounded() {
    let mut m: Message<u32, u8, u16> = Message::single(cmd("GET"), 1);
    for _ in 0..MAX_RETRY_REASONS {
        assert!(m.add_retry_reason(RetryReason::TryAgain).is_ok());
    }
    assert!(m.add_retry_reason(RetryReason::Disconnect).is_err());
    let reasons = m.retry_reasons.as_ref().unwrap();
    assert_eq!(reasons.len(), 10);
    assert!(matches!(reasons.get(9), RetryReason::TryAgain));
}

#[test]
fn retry_reasons_keep_insertion_order() {
    let mut r = RetryReasons::new();
    assert_eq!(r.len(), 0);
    let mut m: Message<u32, u8, u16> = Message::single(cmd("GET"), 1);
    m.add_retry_reason(RetryReason::ClusterDown).unwrap();
    m.add_retry_reason(RetryReason::ReadOnly).unwrap();
    m.add_retry_reason(RetryReason::Ask { slot: 1, address: "a:1".to_string() }).unwrap();
    r = m.retry_reasons.take().unwrap();
    assert_eq!(r.len(), 3);
    assert!(matches!(r.get(0), RetryReason::ClusterDown));
    assert!(matches!(r.get(1), RetryReason::ReadOnly));
    assert!(matches!(r.get(2), RetryReason::Ask { slot: 1, .. }));
}

#[test]
fn resend_only_untouched_retryable_messages() {
    let retryable = Commands::Batch(vec![cmd("A").retry_on_error(true), cmd("B").retry_on_error(true)]);
    assert!(resend_after_disconnect(&retryable, 0));
    assert!(!resend_after_disconnect(&retryable, 1));
    let mixed = Commands::Batch(vec![cmd("A").retry_on_error(true), cmd("B")]);
    assert!(!resend_after_disconnect(&mixed, 0));
    assert!(!resend_after_disconnect(&Commands::Single(cmd("SET")), 0));
    assert!(resend_after_disconnect(&Commands::Empty, 0));
}
