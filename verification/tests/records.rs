use dns_server::message::name::encode_name;
use dns_server::message::{Answer, MessageError, Question};

#[test]
fn question_to_bytes_exact() {
    let q = Question { name: "a.io".to_string(), qtype: 1, qclass: 1 };
    assert_eq!(q.to_bytes(), vec![1, b'a', 2, b'i', b'o', 0, 0, 1, 0, 1]);
}

#[test]
fn question_write_then_read() {
    let q = Question { name: "mail.example.org".to_string(), qtype: 15, qclass: 0x8001 };
    let mut bytes = vec![0xEE; 5];
    bytes.extend(q.to_bytes());
    let end = bytes.len();
    bytes.push(0x42);
    assert_eq!(Question::from_bytes(&bytes, 5).unwrap(), (q, end));
}

#[test]
fn question_truncated() {
    let mut bytes = encode_name("x");
    bytes.extend([0, 1, 0]);
    assert_eq!(
        Question::from_bytes(&bytes, 0),
        Err(MessageError::QuestionSectionTruncated)
    );
}

#[test]
fn question_name_error_passes_through() {
    assert_eq!(Question::from_bytes(&[4, b'a'], 0), Err(MessageError::LabelExceedsBuffer));
}

#[test]
fn answer_to_bytes_exact() {
    let a = Answer {
        name: "a".to_string(),
        rtype: 1,
        rclass: 1,
        ttl: 60,
        rdata: vec![8, 8, 8, 8],
    };
    assert_eq!(
        a.to_bytes(),
        vec![1, b'a', 0, 0, 1, 0, 1, 0, 0, 0, 60, 0, 4, 8, 8, 8, 8]
    );
}

#[test]
fn answer_write_then_read() {
    let a = Answer {
        name: "codecrafters.io".to_string(),
        rtype: 28,
        rclass: 1,
        ttl: 0xDEADBEEF,
        rdata: (0..16).collect(),
    };
    let mut bytes = vec![1, 2];
    bytes.extend(a.to_bytes());
    let end = bytes.len();
    bytes.extend([3, 4, 5]);
    assert_eq!(Answer::from_bytes(&bytes, 2).unwrap(), (a, end));
}

#[test]
fn answer_cuts_long_data_length() {
    let a = Answer {
        name: "x".to_string(),
        rtype: 1,
        rclass: 1,
        ttl: 1,
        rdata: vec![0; 70000],
    };
    let bytes = a.to_bytes();
    assert_eq!(bytes.len(), 3 + 10 + 70000);
    assert_eq!(bytes[11], (70000u32 >> 8) as u8);
    assert_eq!(bytes[12], (70000u32 & 0xFF) as u8);
}

#[test]
fn answer_truncated_fields() {
    let mut bytes = encode_name("x");
    bytes.extend([0; 9]);
    assert_eq!(Answer::from_bytes(&bytes, 0), Err(MessageError::AnswerRecordTruncated));
}

#[test]
fn answer_truncated_data() {
    let mut bytes = encode_name("x");
    bytes.extend([0, 1, 0, 1, 0, 0, 0, 60, 0, 4, 8, 8, 8]);
    assert_eq!(Answer::from_bytes(&bytes, 0), Err(MessageError::AnswerRdataTruncated));
}
