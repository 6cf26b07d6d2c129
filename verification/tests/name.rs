use dns_server::message::name::{decode_name, encode_name};
use dns_server::message::MessageError;

#[test]
fn encode_name_exact() {
    assert_eq!(
        encode_name("codecrafters.io"),
        b"\x0ccodecrafters\x02io\x00".to_vec()
    );
}

#[test]
fn encode_name_empty_pieces() {
    assert_eq!(encode_name(""), vec![0, 0]);
    assert_eq!(encode_name("a."), vec![1, b'a', 0, 0]);
    assert_eq!(encode_name("a..b"), vec![1, b'a', 0, 1, b'b', 0]);
}

#[test]
fn encode_name_counts_utf8_bytes() {
    assert_eq!(encode_name("é.x"), vec![2, 0xC3, 0xA9, 1, b'x', 0]);
}

#[test]
fn encode_name_cuts_long_label_length() {
    let label = "a".repeat(300);
    let bytes = encode_name(&label);
    assert_eq!(bytes.len(), 302);
    assert_eq!(bytes[0], (300 % 256) as u8);
    assert_eq!(bytes[301], 0);
}

#[test]
fn name_write_then_read() {
    for name in ["google.com", "a.b.c.d", "x", "é.example"] {
        let mut bytes = vec![9, 9, 9];
        bytes.extend(encode_name(name));
        let end = bytes.len();
        bytes.extend([7, 7]);
        assert_eq!(decode_name(&bytes, 3).unwrap(), (name.to_string(), end));
    }
}

#[test]
fn decode_name_follows_pointer() {
    // "codecrafters.io" at 0, then "abc" followed by a pointer to 0.
    let mut bytes = encode_name("codecrafters.io");
    let second = bytes.len();
    bytes.extend([3, b'a', b'b', b'c', 0xC0, 0x00, 0xFF]);
    assert_eq!(
        decode_name(&bytes, second).unwrap(),
        ("abc.codecrafters.io".to_string(), second + 6)
    );
    assert_eq!(
        decode_name(&bytes, second + 4).unwrap(),
        ("codecrafters.io".to_string(), second + 6)
    );
}

#[test]
fn decode_name_end_is_after_first_pointer() {
    // 0: "x" 0 ; 3: pointer to 0 ; 5: pointer to 3
    let bytes = [1, b'x', 0, 0xC0, 0x00, 0xC0, 0x03];
    assert_eq!(decode_name(&bytes, 5).unwrap(), ("x".to_string(), 7));
}

#[test]
fn decode_name_empty() {
    assert_eq!(decode_name(&[0], 0).unwrap(), (String::new(), 1));
}

#[test]
fn decode_name_lossy_text() {
    let bytes = [2, 0xFF, b'a', 0];
    assert_eq!(decode_name(&bytes, 0).unwrap(), ("\u{FFFD}a".to_string(), 4));
    let bytes = [2, 0xC3, 0xA9, 0];
    assert_eq!(decode_name(&bytes, 0).unwrap(), ("é".to_string(), 4));
}

#[test]
fn decode_name_errors() {
    assert_eq!(decode_name(&[], 0), Err(MessageError::UnexpectedEndOfName));
    assert_eq!(decode_name(&[1, b'a'], 0), Err(MessageError::UnexpectedEndOfName));
    assert_eq!(decode_name(&[0], 5), Err(MessageError::UnexpectedEndOfName));
    assert_eq!(decode_name(&[0xC0], 0), Err(MessageError::UnexpectedEndOfPointer));
    assert_eq!(decode_name(&[0xC0, 0x10], 0), Err(MessageError::UnexpectedEndOfName));
    assert_eq!(decode_name(&[5, b'a'], 0), Err(MessageError::LabelExceedsBuffer));
}

#[test]
fn decode_name_high_length_bytes_are_labels() {
    // 0x40..0xBF are plain lengths: a label of 64 bytes.
    let mut bytes = vec![0x40];
    bytes.extend(std::iter::repeat(b'z').take(64));
    bytes.push(0);
    let (name, end) = decode_name(&bytes, 0).unwrap();
    assert_eq!(name, "z".repeat(64));
    assert_eq!(end, 66);
}
