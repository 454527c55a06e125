use dns_client::header::{decode_header, encode_header};
use dns_client::types::{DnsError, Header};

#[test]
fn header_round_trip() {
    let h = Header { id: 0xBEEF, flags: 0x0120, qdcount: 1, ancount: 3, nscount: 0, arcount: 7 };
    let enc = encode_header(&h);
    assert_eq!(enc.len(), 12);
    let back = decode_header(&enc).unwrap();
    assert_eq!(back, h);
}

#[test]
fn decode_header_sample() {
    let buf = vec![0x12u8, 0x34, 0x81, 0x80, 0x00, 0x01, 0x00, 0x01, 0x00, 0x00, 0x00, 0x00];
    let h = decode_header(&buf).unwrap();
    assert_eq!(h.id, 0x1234);
    assert_eq!(h.flags, 0x8180);
    assert_eq!(h.qdcount, 1);
    assert_eq!(h.ancount, 1);
    assert_eq!(h.nscount, 0);
    assert_eq!(h.arcount, 0);
}

#[test]
fn encode_header_bytes() {
    let h = Header { id: 0x1234, flags: 0x8180, qdcount: 1, ancount: 1, nscount: 0, arcount: 0 };
    let enc = encode_header(&h);
    assert_eq!(enc, vec![0x12, 0x34, 0x81, 0x80, 0x00, 0x01, 0x00, 0x01, 0x00, 0x00, 0x00, 0x00]);
}

#[test]
fn decode_header_short_buffer() {
    let buf = vec![0u8; 11];
    assert_eq!(decode_header(&buf), Err(DnsError::TruncatedPacketError));
    assert_eq!(decode_header(&Vec::new()), Err(DnsError::TruncatedPacketError));
}
