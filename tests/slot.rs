use rustis::slot::{crc16_of, find_byte, hash_slot, SLOT_COUNT};

#[test]
fn crc16_check_value() {
    assert_eq!(crc16_of(b"123456789", 0, 9), 0x31C3);
    assert_eq!(crc16_of(b"123456789", 0, 0), 0);
    assert_eq!(crc16_of(b"xx123456789yy", 2, 11), 0x31C3);
}

#[test]
fn known_key_slots() {
    assert_eq!(hash_slot(b"foo"), 12182);
    assert_eq!(hash_slot(b"bar"), 5061);
    assert_eq!(hash_slot(b"hello"), 866);
    assert_eq!(hash_slot(b"123456789"), 0x31C3 % SLOT_COUNT);
    assert_eq!(hash_slot(b""), 0);
}

#[test]
fn same_tag_same_slot() {
    assert_eq!(hash_slot(b"{x}a"), hash_slot(b"{x}b"));
    assert_eq!(hash_slot(b"{x}a"), hash_slot(b"x"));
    assert_eq!(hash_slot(b"{user1000}.following"), hash_slot(b"{user1000}.followers"));
    assert_eq!(hash_slot(b"{user1000}.following"), hash_slot(b"user1000"));
    assert_eq!(hash_slot(b"{a}1"), hash_slot(b"{a}2"));
}

#[test]
fn tag_edge_cases() {
    // An empty tag: the whole key is hashed.
    assert_eq!(hash_slot(b"foo{}{bar}"), crc16_of(b"foo{}{bar}", 0, 10) % SLOT_COUNT);
    // The tag runs from the first '{' to the first '}' after it.
    assert_eq!(hash_slot(b"foo{{bar}}zap"), hash_slot(b"{bar"));
    assert_eq!(hash_slot(b"foo{bar}{zap}"), hash_slot(b"bar"));
    // No closing brace: the whole key.
    assert_eq!(hash_slot(b"foo{bar"), crc16_of(b"foo{bar", 0, 7) % SLOT_COUNT);
}

#[test]
fn find_byte_positions() {
    assert_eq!(find_byte(b"a{b}c", b'{', 0), 1);
    assert_eq!(find_byte(b"a{b}c", b'}', 2), 3);
    assert_eq!(find_byte(b"abc", b'{', 0), 3);
    assert_eq!(find_byte(b"abc", b'a', 5), 3);
}
