use dns_server::error::RequestError;
use dns_server::message::{Answer, Header, Message, MessageError, Question};
use dns_server::response::build_response;

fn query(id: u16, opcode: u8, rd: bool, names: &[&str]) -> Message {
    let questions: Vec<Question> = names
        .iter()
        .map(|n| Question { name: n.to_string(), qtype: 1, qclass: 1 })
        .collect();
    Message {
        header: Header {
            id,
            qr: false,
            opcode,
            aa: false,
            tc: false,
            rd,
            ra: false,
            z: 0,
            rcode: 0,
            qdcount: questions.len() as u16,
            ancount: 0,
            nscount: 0,
            arcount: 0,
        },
        questions,
        answers: Vec::new(),
    }
}

#[test]
fn message_write_then_read() {
    let mut m = query(7, 0, true, &["codecrafters.io", "example.com"]);
    m.answers.push(Answer {
        name: "codecrafters.io".to_string(),
        rtype: 1,
        rclass: 1,
        ttl: 60,
        rdata: vec![1, 2, 3, 4],
    });
    m.header.ancount = 1;
    let bytes = m.to_bytes();
    assert_eq!(Message::from_bytes(&bytes).unwrap(), m);
    assert_eq!(Message::decode(&bytes), Some(Ok(m)));
}

#[test]
fn message_with_compressed_names() {
    let mut bytes = vec![0, 9, 0, 0, 0, 2, 0, 0, 0, 0, 0, 0];
    bytes.extend([3, b'a', b'b', b'c', 0, 0, 1, 0, 1]);
    bytes.extend([1, b'x', 0xC0, 12, 0, 1, 0, 1]);
    let m = Message::from_bytes(&bytes).unwrap();
    assert_eq!(m.questions.len(), 2);
    assert_eq!(m.questions[0].name, "abc");
    assert_eq!(m.questions[1].name, "x.abc");
    assert!(m.answers.is_empty());
}

#[test]
fn message_ignores_authority_counts() {
    let mut m = query(1, 0, false, &["a.b"]);
    m.header.nscount = 3;
    m.header.arcount = 2;
    let mut bytes = m.to_bytes();
    bytes.extend([0xFF; 4]);
    assert_eq!(Message::from_bytes(&bytes).unwrap(), m);
}

#[test]
fn message_errors() {
    assert_eq!(Message::from_bytes(&[0; 5]), Err(MessageError::HeaderTooShort(12)));
    let bytes = [0, 0, 0, 0, 0, 1, 0, 0, 0, 0, 0, 0];
    assert_eq!(Message::from_bytes(&bytes), Err(MessageError::UnexpectedEndOfName));
    let bytes = [0, 0, 0, 0, 0, 0, 0, 1, 0, 0, 0, 0, 0, 0, 1, 0, 1];
    assert_eq!(Message::from_bytes(&bytes), Err(MessageError::AnswerRecordTruncated));
}

#[test]
fn message_decode_pointer_loop() {
    let bytes = [0, 0, 0, 0, 0, 1, 0, 0, 0, 0, 0, 0, 0xC0, 12];
    assert_eq!(Message::decode(&bytes), None);
    let bytes = [0, 0, 0, 0, 0, 1, 0, 0, 0, 0, 0, 0, 1, b'a', 0xC0, 12];
    assert_eq!(Message::decode(&bytes), None);
}

#[test]
fn response_echoes_query() {
    let request = query(0xBEEF, 0, true, &["codecrafters.io"]);
    let response = build_response(Some(&request));
    assert_eq!(
        response.header,
        Header {
            id: 0xBEEF,
            qr: true,
            opcode: 0,
            aa: false,
            tc: false,
            rd: true,
            ra: false,
            z: 0,
            rcode: 0,
            qdcount: 1,
            ancount: 1,
            nscount: 0,
            arcount: 0,
        }
    );
    assert_eq!(response.questions, request.questions);
    assert_eq!(
        response.answers,
        vec![Answer {
            name: "codecrafters.io".to_string(),
            rtype: 1,
            rclass: 1,
            ttl: 60,
            rdata: vec![8, 8, 8, 8],
        }]
    );
}

#[test]
fn response_to_unsupported_opcode() {
    let request = query(5, 2, false, &["a", "b"]);
    let response = build_response(Some(&request));
    assert_eq!(response.header.opcode, 2);
    assert_eq!(response.header.rcode, 4);
    assert_eq!(response.header.qdcount, 2);
    assert_eq!(response.answers.len(), 2);
    assert_eq!(response.answers[1].name, "b");
}

#[test]
fn response_to_unreadable_request() {
    let response = build_response(None);
    assert_eq!(response.header.id, 1234);
    assert!(response.header.qr);
    assert_eq!(response.header.rcode, 0);
    assert!(!response.header.rd);
    assert!(response.questions.is_empty());
    assert!(response.answers.is_empty());
    assert_eq!(response.to_bytes(), vec![0x04, 0xD2, 0x80, 0, 0, 0, 0, 0, 0, 0, 0, 0]);
}

#[test]
fn response_reads_back() {
    let request = query(42, 0, true, &["one.example", "two.example"]);
    let bytes = build_response(Some(&request)).to_bytes();
    let parsed = Message::from_bytes(&bytes).unwrap();
    assert_eq!(parsed, build_response(Some(&request)));
}

#[test]
fn request_error_from_message_error() {
    let e: RequestError = MessageError::AnswerRdataTruncated.into();
    assert!(matches!(e, RequestError::Message(MessageError::AnswerRdataTruncated)));
}

#[test]
fn message_read_ignores_trailing() {
    let m = query(3, 0, true, &["trailing.test"]);
    let bytes = m.to_bytes();
    let mut longer = bytes.clone();
    longer.extend([0xC0, 0x00, 1, 2, 3]);
    assert_eq!(Message::from_bytes(&longer).unwrap(), Message::from_bytes(&bytes).unwrap());
}
