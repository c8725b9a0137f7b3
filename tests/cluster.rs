use rustis::cluster::{group_by_shard, merge_in_order, sum_counts, SlotMap};
use rustis::slot::hash_slot;

fn keys(s: &[&str]) -> Vec<Vec<u8>> {
    s.iter().map(|x| x.as_bytes().to_vec()).collect()
}

#[test]
fn moved_updates_one_slot() {
    let mut map = SlotMap::new(0);
    assert_eq!(map.shard_of_slot(866), 0);
    map.assign(866, 2);
    assert_eq!(map.shard_of_slot(866), 2);
    assert_eq!(map.shard_of_slot(865), 0);
    assert_eq!(map.shard_of_slot(867), 0);
    let ks = map.key_shards(&keys(&["hello", "foo"]));
    assert_eq!(ks, vec![2, 0]);
}

#[test]
fn slot_ranges_are_assigned() {
    let mut map = SlotMap::new(0);
    map.assign_range(0, 8191, 1);
    map.assign_range(8192, 16383, 2);
    assert_eq!(map.shard_of_slot(0), 1);
    assert_eq!(map.shard_of_slot(8191), 1);
    assert_eq!(map.shard_of_slot(8192), 2);
    assert_eq!(map.shard_of_slot(16383), 2);
    map.assign_range(5, 5, 3);
    assert_eq!(map.shard_of_slot(5), 3);
    assert_eq!(map.shard_of_slot(4), 1);
    assert_eq!(map.shard_of_slot(6), 1);
}

#[test]
fn split_mget_preserves_input_order() {
    let ks = keys(&["{a}1", "{a}2", "{b}1"]);
    let mut map = SlotMap::new(0);
    map.assign(hash_slot(b"b"), 1);
    assert_ne!(hash_slot(b"a"), hash_slot(b"b"));
    let shards = map.key_shards(&ks);
    assert_eq!(shards, vec![0, 0, 1]);
    let (ids, groups) = group_by_shard(&shards);
    assert_eq!(ids, vec![0, 1]);
    assert_eq!(groups, vec![vec![0, 1], vec![2]]);
    let replies = vec![vec!["v_a1", "v_a2"], vec!["v_b1"]];
    let merged = merge_in_order(3, &groups, replies).unwrap();
    assert_eq!(merged, vec!["v_a1", "v_a2", "v_b1"]);
}

#[test]
fn interleaved_shards_merge_back() {
    let shards = vec![3, 1, 3, 2, 1];
    let (ids, groups) = group_by_shard(&shards);
    assert_eq!(ids, vec![3, 1, 2]);
    assert_eq!(groups, vec![vec![0, 2], vec![1, 4], vec![3]]);
    let merged = merge_in_order(5, &groups, vec![vec![10, 12], vec![11, 14], vec![13]]).unwrap();
    assert_eq!(merged, vec![10, 11, 12, 13, 14]);
}

#[test]
fn short_shard_reply_is_refused() {
    let groups = vec![vec![0, 1], vec![2]];
    assert!(merge_in_order(3, &groups, vec![vec![1], vec![3]]).is_none());
    assert!(merge_in_order(3, &groups, vec![vec![1, 2]]).is_none());
}

#[test]
fn no_keys_no_groups() {
    let (ids, groups) = group_by_shard(&Vec::new());
    assert!(ids.is_empty() && groups.is_empty());
    let merged: Vec<u8> = merge_in_order(0, &groups, Vec::new()).unwrap();
    assert!(merged.is_empty());
}

#[test]
fn split_counts_add_up() {
    // DEL over keys on two shards: shard 0 deleted 2 keys, shard 1 deleted 1.
    assert_eq!(sum_counts(&vec![2, 1]), Some(3));
    assert_eq!(sum_counts(&vec![]), Some(0));
    assert_eq!(sum_counts(&vec![0, 0, 0]), Some(0));
    assert_eq!(sum_counts(&vec![u64::MAX, 1]), None);
    assert_eq!(sum_counts(&vec![u64::MAX - 1, 1]), Some(u64::MAX));
}
