use rustis::cluster::SlotMap;
use rustis::redirect::{error_kind_len, read_redirection, RedirectKind};

#[test]
fn moved_error_is_read() {
    let d = read_redirection(b"MOVED 866 10.0.0.2:6379").unwrap();
    assert_eq!(d.kind, RedirectKind::Moved);
    assert_eq!(d.slot, 866);
    assert_eq!(d.address, b"10.0.0.2:6379".to_vec());
}

#[test]
fn moved_updates_slot_map_to_new_owner() {
    let mut map = SlotMap::new(0);
    let d = read_redirection(b"MOVED 866 10.0.0.2:6379").unwrap();
    // Shard 1 stands for the node at 10.0.0.2:6379.
    map.assign(d.slot, 1);
    assert_eq!(map.shard_of_slot(866), 1);
    assert_eq!(map.key_shards(&vec![b"hello".to_vec()]), vec![1]);
}

#[test]
fn ask_error_is_read() {
    let d = read_redirection(b"ASK 16383 [::1]:7001").unwrap();
    assert_eq!(d.kind, RedirectKind::Ask);
    assert_eq!(d.slot, 16383);
    assert_eq!(d.address, b"[::1]:7001".to_vec());
}

#[test]
fn other_errors_are_no_redirection() {
    assert!(read_redirection(b"TRYAGAIN Multiple keys request during rehashing of slot").is_none());
    assert!(read_redirection(b"MOVED 16384 a:1").is_none());
    assert!(read_redirection(b"MOVED 86x a:1").is_none());
    assert!(read_redirection(b"MOVED 866").is_none());
    assert!(read_redirection(b"MOVED 866 ").is_none());
    assert!(read_redirection(b"MOVED  a:1").is_none());
    assert!(read_redirection(b"MOVE 866 a:1").is_none());
    assert!(read_redirection(b"").is_none());
}

#[test]
fn error_kind_is_first_word() {
    let m = b"WRONGTYPE Operation against a key holding the wrong kind of value";
    assert_eq!(&m[..error_kind_len(m)], b"WRONGTYPE");
    assert_eq!(error_kind_len(b"CLUSTERDOWN"), 11);
    assert_eq!(error_kind_len(b""), 0);
}
