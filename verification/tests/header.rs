use dns_server::message::header::HEADER_SIZE;
use dns_server::message::{Header, MessageError};

fn sample_header() -> Header {
    Header {
        id: 0x04D2,
        qr: true,
        opcode: 2,
        aa: true,
        tc: false,
        rd: true,
        ra: false,
        z: 5,
        rcode: 3,
        qdcount: 1,
        ancount: 2,
        nscount: 3,
        arcount: 4,
    }
}

#[test]
fn header_to_bytes_exact() {
    let bytes = sample_header().to_bytes();
    // flags: QR=1, OPCODE=0010, AA=1, TC=0, RD=1 | RA=0, Z=101, RCODE=0011
    assert_eq!(
        bytes,
        [0x04, 0xD2, 0b1001_0101, 0b0101_0011, 0, 1, 0, 2, 0, 3, 0, 4]
    );
}

#[test]
fn header_write_then_read() {
    let h = sample_header();
    let bytes = h.to_bytes();
    assert_eq!(Header::from_bytes(&bytes).unwrap(), h);
}

#[test]
fn header_read_then_write() {
    let bytes = [0xAB, 0xCD, 0xFF, 0xFF, 0x12, 0x34, 0x56, 0x78, 0x9A, 0xBC, 0xDE, 0xF0, 0x99];
    let h = Header::from_bytes(&bytes).unwrap();
    assert_eq!(h.to_bytes(), bytes[..12]);
    assert_eq!(h.opcode, 15);
    assert_eq!(h.z, 7);
    assert_eq!(h.rcode, 15);
    assert!(h.qr && h.aa && h.tc && h.rd && h.ra);
}

#[test]
fn header_fields_from_query_bytes() {
    let bytes = [0x12, 0x34, 0x01, 0x20, 0x00, 0x01, 0x00, 0x00, 0x00, 0x00, 0x00, 0x00];
    let h = Header::from_bytes(&bytes).unwrap();
    assert_eq!(h.id, 0x1234);
    assert!(!h.qr);
    assert_eq!(h.opcode, 0);
    assert!(h.rd);
    assert!(!h.ra);
    assert_eq!(h.z, 2);
    assert_eq!(h.rcode, 0);
    assert_eq!(h.qdcount, 1);
    assert_eq!(h.ancount, 0);
}

#[test]
fn header_masks_wide_fields() {
    let mut h = Header::default();
    h.opcode = 0x1F;
    h.z = 0x0F;
    h.rcode = 0x12;
    let bytes = h.to_bytes();
    let back = Header::from_bytes(&bytes).unwrap();
    assert_eq!(back.opcode, 0x0F);
    assert_eq!(back.z, 0x07);
    assert_eq!(back.rcode, 0x02);
}

#[test]
fn header_too_short() {
    let bytes = [0u8; 11];
    assert_eq!(
        Header::from_bytes(&bytes),
        Err(MessageError::HeaderTooShort(HEADER_SIZE))
    );
    assert_eq!(Header::from_bytes(&[]), Err(MessageError::HeaderTooShort(12)));
}

#[test]
fn header_default_is_zero() {
    assert_eq!(Header::default().to_bytes(), [0u8; 12]);
}
