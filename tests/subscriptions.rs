use rustis::subscriptions::{bytes_eq, subscribe_command_name, NameSet, SubscriptionKind, Subscriptions};

fn v(s: &[&str]) -> Vec<Vec<u8>> {
    s.iter().map(|x| x.as_bytes().to_vec()).collect()
}

fn sorted(mut a: Vec<Vec<u8>>) -> Vec<Vec<u8>> {
    a.sort();
    a
}

#[test]
fn name_set_behaves_as_a_set() {
    let mut s = NameSet::new();
    assert_eq!(s.len(), 0);
    s.insert(b"a");
    s.insert(b"b");
    s.insert(b"a");
    assert_eq!(s.len(), 2);
    assert!(s.contains(b"a") && s.contains(b"b") && !s.contains(b"c"));
    s.remove(b"a");
    assert!(!s.contains(b"a"));
    assert_eq!(s.len(), 1);
    s.clear();
    assert_eq!(s.len(), 0);
}

#[test]
fn bytes_equality() {
    assert!(bytes_eq(b"abc", b"abc"));
    assert!(!bytes_eq(b"abc", b"abd"));
    assert!(!bytes_eq(b"ab", b"abc"));
    assert!(bytes_eq(b"", b""));
}

#[test]
fn replay_restores_subscriptions() {
    let mut s = Subscriptions::new();
    assert!(s.replay_commands().is_empty());
    s.subscribed(SubscriptionKind::Channel, &v(&["ch1", "ch2"]));
    s.subscribed(SubscriptionKind::Pattern, &v(&["news.*"]));
    s.subscribed(SubscriptionKind::ShardChannel, &v(&["orders"]));
    s.unsubscribed(SubscriptionKind::Channel, &v(&["ch2"]));

    let cmds = s.replay_commands();
    assert_eq!(cmds.len(), 3);
    assert_eq!(cmds[0].name, b"SUBSCRIBE".to_vec());
    assert_eq!(sorted(cmds[0].args.clone()), v(&["ch1"]));
    assert_eq!(cmds[1].name, b"PSUBSCRIBE".to_vec());
    assert_eq!(cmds[1].args, v(&["news.*"]));
    assert_eq!(cmds[2].name, b"SSUBSCRIBE".to_vec());
    assert_eq!(cmds[2].args, v(&["orders"]));

    // Acknowledging the replay on a fresh connection gives the same set.
    let mut fresh = Subscriptions::new();
    for c in &cmds {
        let kind = if c.name == subscribe_command_name(SubscriptionKind::Channel) {
            SubscriptionKind::Channel
        } else if c.name == subscribe_command_name(SubscriptionKind::Pattern) {
            SubscriptionKind::Pattern
        } else {
            SubscriptionKind::ShardChannel
        };
        fresh.subscribed(kind, &c.args);
    }
    let again = fresh.replay_commands();
    assert_eq!(again.len(), cmds.len());
    for (a, b) in again.iter().zip(cmds.iter()) {
        assert_eq!(a.name, b.name);
        assert_eq!(sorted(a.args.clone()), sorted(b.args.clone()));
    }
}

#[test]
fn subscription_survives_reconnect() {
    let mut s = Subscriptions::new();
    s.subscribed(SubscriptionKind::Channel, &v(&["ch1"]));
    let cmds = s.replay_commands();
    assert_eq!(cmds.len(), 1);
    assert_eq!(cmds[0].name, b"SUBSCRIBE".to_vec());
    assert_eq!(cmds[0].args, v(&["ch1"]));
    assert!(cmds[0].retry_on_error);
}

#[test]
fn unsubscribe_without_names_drops_the_kind() {
    let mut s = Subscriptions::new();
    s.subscribed(SubscriptionKind::Channel, &v(&["a", "b"]));
    s.subscribed(SubscriptionKind::Pattern, &v(&["p*"]));
    s.unsubscribed(SubscriptionKind::Channel, &Vec::new());
    let cmds = s.replay_commands();
    assert_eq!(cmds.len(), 1);
    assert_eq!(cmds[0].name, b"PSUBSCRIBE".to_vec());
}

#[test]
fn command_names_per_kind() {
    assert_eq!(subscribe_command_name(SubscriptionKind::Channel), b"SUBSCRIBE".to_vec());
    assert_eq!(subscribe_command_name(SubscriptionKind::Pattern), b"PSUBSCRIBE".to_vec());
    assert_eq!(subscribe_command_name(SubscriptionKind::ShardChannel), b"SSUBSCRIBE".to_vec());
}
