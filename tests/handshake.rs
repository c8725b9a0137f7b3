use rustis::handshake::{startup_commands, ConnectionConfig};
use rustis::subscriptions::{SubscriptionKind, Subscriptions};

fn items(c: &rustis::command::Command) -> Vec<String> {
    let mut v = vec![String::from_utf8(c.name.clone()).unwrap()];
    for a in &c.args {
        v.push(String::from_utf8(a.clone()).unwrap());
    }
    v
}

fn bare() -> ConnectionConfig {
    ConnectionConfig {
        protocol_version: 2,
        username: None,
        password: None,
        client_name: None,
        database: 0,
        tracking: false,
    }
}

#[test]
fn minimal_handshake_is_hello_alone() {
    let cmds = startup_commands(&bare(), Vec::new());
    assert_eq!(cmds.len(), 1);
    assert_eq!(items(&cmds[0]), vec!["HELLO", "2"]);
}

#[test]
fn full_handshake_in_order_then_replay() {
    let cfg = ConnectionConfig {
        protocol_version: 3,
        username: Some(b"alice".to_vec()),
        password: Some(b"s3cret".to_vec()),
        client_name: Some(b"worker-1".to_vec()),
        database: 12,
        tracking: true,
    };
    let mut subs = Subscriptions::new();
    subs.subscribed(SubscriptionKind::Channel, &vec![b"ch1".to_vec()]);
    let cmds = startup_commands(&cfg, subs.replay_commands());
    let all: Vec<Vec<String>> = cmds.iter().map(items).collect();
    assert_eq!(
        all,
        vec![
            vec!["HELLO", "3", "AUTH", "alice", "s3cret"],
            vec!["CLIENT", "SETNAME", "worker-1"],
            vec!["SELECT", "12"],
            vec!["CLIENT", "TRACKING", "ON"],
            vec!["SUBSCRIBE", "ch1"],
        ]
    );
}

#[test]
fn password_without_username_uses_default_user() {
    let mut cfg = bare();
    cfg.password = Some(b"pw".to_vec());
    let cmds = startup_commands(&cfg, Vec::new());
    assert_eq!(items(&cmds[0]), vec!["HELLO", "2", "AUTH", "default", "pw"]);
}

#[test]
fn database_zero_is_not_selected() {
    let mut cfg = bare();
    cfg.client_name = Some(b"n".to_vec());
    let cmds = startup_commands(&cfg, Vec::new());
    let all: Vec<Vec<String>> = cmds.iter().map(items).collect();
    assert_eq!(all, vec![vec!["HELLO", "2"], vec!["CLIENT", "SETNAME", "n"]]);
}
