use rustis::command::Command;
use rustis::resp::{decode_array_frame, encode_command, read_bulk, read_size};

fn set_foo_bar() -> Command {
    Command::new(b"SET".to_vec()).arg(b"foo".to_vec()).arg(b"bar".to_vec())
}

#[test]
fn encodes_command_as_bulk_array() {
    assert_eq!(
        encode_command(&set_foo_bar()),
        b"*3\r\n$3\r\nSET\r\n$3\r\nfoo\r\n$3\r\nbar\r\n".to_vec()
    );
    assert_eq!(encode_command(&Command::new(b"PING".to_vec())), b"*1\r\n$4\r\nPING\r\n".to_vec());
    let empty_arg = Command::new(b"ECHO".to_vec()).arg(Vec::new());
    assert_eq!(encode_command(&empty_arg), b"*2\r\n$4\r\nECHO\r\n$0\r\n\r\n".to_vec());
}

#[test]
fn long_argument_length_is_decimal() {
    let c = Command::new(b"SET".to_vec()).arg(b"k".to_vec()).arg(vec![b'x'; 1234]);
    let bytes = encode_command(&c);
    assert!(bytes.starts_with(b"*3\r\n$3\r\nSET\r\n$1\r\nk\r\n$1234\r\n"));
    assert_eq!(bytes.len(), 4 + 9 + 7 + 7 + 1234 + 2);
}

#[test]
fn decode_of_encode_round_trips() {
    let mut bytes = encode_command(&set_foo_bar());
    let frame_len = bytes.len();
    bytes.extend_from_slice(b"*1\r\n$4\r\nPING\r\n");
    let (items, used) = decode_array_frame(&bytes).unwrap();
    assert_eq!(items, vec![b"SET".to_vec(), b"foo".to_vec(), b"bar".to_vec()]);
    assert_eq!(used, frame_len);
    let (next, used2) = decode_array_frame(&bytes[used..]).unwrap();
    assert_eq!(next, vec![b"PING".to_vec()]);
    assert_eq!(used + used2, bytes.len());
}

#[test]
fn encode_of_decode_round_trips() {
    let wire = b"*2\r\n$3\r\nGET\r\n$5\r\nhello\r\n".to_vec();
    let (items, used) = decode_array_frame(&wire).unwrap();
    assert_eq!(used, wire.len());
    let mut c = Command::new(items[0].clone());
    for a in &items[1..] {
        c = c.arg(a.clone());
    }
    assert_eq!(encode_command(&c), wire);
}

#[test]
fn incomplete_frames_are_refused() {
    let wire = b"*2\r\n$3\r\nGET\r\n$5\r\nhello\r\n";
    for cut in 0..wire.len() {
        assert!(decode_array_frame(&wire[..cut]).is_none(), "prefix of {} bytes", cut);
    }
}

#[test]
fn malformed_frames_are_refused() {
    assert!(decode_array_frame(b"+OK\r\n").is_none());
    assert!(decode_array_frame(b"*01\r\n$1\r\na\r\n").is_none());
    assert!(decode_array_frame(b"*1\r\n$-1\r\n").is_none());
    assert!(decode_array_frame(b"*1\r\n$1\r\nab\r\n").is_none());
    assert!(decode_array_frame(b"*1\n$1\r\na\r\n").is_none());
    assert!(decode_array_frame(b"*1\r\n$1x\r\na\r\n").is_none());
    assert_eq!(decode_array_frame(b"*0\r\n").unwrap(), (Vec::<Vec<u8>>::new(), 4));
}

#[test]
fn size_lines() {
    assert_eq!(read_size(b"123\r\n", 0), Some((123, 5)));
    assert_eq!(read_size(b"0\r\n", 0), Some((0, 3)));
    assert_eq!(read_size(b"007\r\n", 0), None);
    assert_eq!(read_size(b"\r\n", 0), None);
    assert_eq!(read_size(b"12\r", 0), None);
    assert_eq!(read_size(b"536870912\r\n", 0), Some((536870912, 11)));
    assert_eq!(read_size(b"536870913\r\n", 0), None);
    assert_eq!(read_size(b"99999999999\r\n", 0), None);
    assert_eq!(read_size(b"x42\r\n", 1), Some((42, 5)));
}

#[test]
fn bulk_strings() {
    assert_eq!(read_bulk(b"$3\r\nfoo\r\n", 0), Some((b"foo".to_vec(), 9)));
    assert_eq!(read_bulk(b"$0\r\n\r\n", 0), Some((Vec::new(), 6)));
    assert_eq!(read_bulk(b"$3\r\nfo", 0), None);
    assert_eq!(read_bulk(b":3\r\n", 0), None);
}
