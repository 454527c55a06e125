use dns_client::message::parse_response_packet;
use dns_client::records::{parse_answer_records, parse_question_records};
use dns_client::types::{DnsError, RecordType};

fn header_bytes(id: u16, flags: u16, qd: u16, an: u16, ns: u16, ar: u16) -> Vec<u8> {
    let mut out = Vec::new();
    for v in [id, flags, qd, an, ns, ar] {
        out.push((v >> 8) as u8);
        out.push((v & 0xFF) as u8);
    }
    out
}

#[test]
fn short_buffers_truncated() {
    for n in [0usize, 1, 5, 11] {
        let buf = vec![0u8; n];
        assert_eq!(parse_response_packet(&buf), Err(DnsError::TruncatedPacketError));
    }
}

#[test]
fn exact_twelve_bytes_nonzero_counts_gives_empty_sections() {
    let buf = header_bytes(0x0102, 0x8180, 3, 4, 5, 6);
    let m = parse_response_packet(&buf).unwrap();
    assert_eq!(m.header.id, 0x0102);
    assert_eq!(m.header.qdcount, 3);
    assert_eq!(m.header.ancount, 4);
    assert!(m.questions.is_empty());
    assert!(m.answers.is_empty());
    assert!(m.authorities.is_empty());
    assert!(m.additionals.is_empty());
}

#[test]
fn pointer_question_shares_name() {
    // Two questions; the second one's name is a pointer to the first one's.
    let mut buf = header_bytes(1, 0, 2, 0, 0, 0);
    buf.extend_from_slice(&[3, b'a', b'b', b'c', 2, b'd', b'e', 0]); // name at offset 12
    buf.extend_from_slice(&[0x00, 0x01, 0x00, 0x01]); // type A, class IN
    buf.extend_from_slice(&[0xC0, 12]); // pointer to offset 12
    buf.extend_from_slice(&[0x00, 0x01, 0x00, 0x01]);
    let m = parse_response_packet(&buf).unwrap();
    assert_eq!(m.questions.len(), 2);
    assert_eq!(m.questions[0].name, b"abc.de".to_vec());
    assert_eq!(m.questions[1].name, m.questions[0].name);
}

#[test]
fn forward_pointer_in_packet_rejected() {
    // The question name at offset 12 is a pointer aiming at offset 20,
    // past its own offset.
    let mut buf = header_bytes(1, 0, 1, 0, 0, 0);
    buf.extend_from_slice(&[0xC0, 20, 0x00, 0x01, 0x00, 0x01]);
    buf.extend_from_slice(&[0u8; 16]);
    assert_eq!(parse_response_packet(&buf), Err(DnsError::CompressionLoopError));
}

#[test]
fn rdata_longer_than_remaining_truncated() {
    // One answer declaring rdlength 4 with only 2 bytes left.
    let mut buf = header_bytes(1, 0, 0, 1, 0, 0);
    buf.push(0); // root name
    buf.extend_from_slice(&[0x00, 0x01, 0x00, 0x01]); // type, class
    buf.extend_from_slice(&[0x00, 0x00, 0x00, 0x3C]); // ttl
    buf.extend_from_slice(&[0x00, 0x04]); // rdlength = 4
    buf.extend_from_slice(&[0xAB, 0xCD]); // only 2 bytes remain
    assert_eq!(parse_response_packet(&buf), Err(DnsError::TruncatedPacketError));
}

#[test]
fn full_response_with_one_answer() {
    let mut buf = header_bytes(0x1234, 0x8180, 1, 1, 0, 0);
    buf.extend_from_slice(&[6, b'g', b'o', b'o', b'g', b'l', b'e', 3, b'c', b'o', b'm', 0]);
    buf.extend_from_slice(&[0x00, 0x01, 0x00, 0x01]);
    buf.extend_from_slice(&[0xC0, 12]); // answer name: pointer to the question's
    buf.extend_from_slice(&[0x00, 0x01, 0x00, 0x01]); // type A, class IN
    buf.extend_from_slice(&[0x00, 0x00, 0x01, 0x2C]); // ttl = 300
    buf.extend_from_slice(&[0x00, 0x04, 142, 250, 72, 14]); // rdlength 4 + address
    let m = parse_response_packet(&buf).unwrap();
    assert_eq!(m.header.id, 0x1234);
    assert_eq!(m.questions.len(), 1);
    assert_eq!(m.questions[0].name, b"google.com".to_vec());
    assert_eq!(m.questions[0].qtype, RecordType::A);
    assert_eq!(m.questions[0].class, 1);
    assert_eq!(m.answers.len(), 1);
    assert_eq!(m.answers[0].name, b"google.com".to_vec());
    assert_eq!(m.answers[0].rtype, RecordType::A);
    assert_eq!(m.answers[0].class, 1);
    assert_eq!(m.answers[0].ttl, 300);
    assert_eq!(m.answers[0].rdata, vec![142, 250, 72, 14]);
    assert!(m.authorities.is_empty());
    assert!(m.additionals.is_empty());
}

#[test]
fn trailing_bytes_ignored() {
    let mut buf = header_bytes(7, 0, 1, 0, 0, 0);
    buf.extend_from_slice(&[2, b'i', b'o', 0, 0x00, 0x1C, 0x00, 0x01]);
    buf.extend_from_slice(&[0xFF; 9]); // padding past the declared sections
    let m = parse_response_packet(&buf).unwrap();
    assert_eq!(m.questions.len(), 1);
    assert_eq!(m.questions[0].name, b"io".to_vec());
    assert_eq!(m.questions[0].qtype, RecordType::AAAA);
}

#[test]
fn unknown_record_type_is_not_an_error() {
    let mut buf = header_bytes(7, 0, 1, 0, 0, 0);
    buf.extend_from_slice(&[2, b'i', b'o', 0, 0x03, 0xE7, 0x00, 0x01]); // type 999
    let m = parse_response_packet(&buf).unwrap();
    assert_eq!(m.questions[0].qtype, RecordType::Unknown(999));
}

#[test]
fn question_parser_counts_and_cursor() {
    let mut buf = header_bytes(1, 0, 0, 0, 0, 0);
    buf.extend_from_slice(&[1, b'x', 0, 0x00, 0x02, 0x00, 0x01]);
    buf.extend_from_slice(&[1, b'y', 0, 0x00, 0x05, 0x00, 0x01]);
    let (qs, next) = parse_question_records(&buf, 12, 2).unwrap();
    assert_eq!(qs.len(), 2);
    assert_eq!(qs[0].name, b"x".to_vec());
    assert_eq!(qs[0].qtype, RecordType::NS);
    assert_eq!(qs[1].name, b"y".to_vec());
    assert_eq!(qs[1].qtype, RecordType::CNAME);
    assert_eq!(next, buf.len());
}

#[test]
fn answer_parser_missing_fixed_fields_truncated() {
    let mut buf = header_bytes(1, 0, 0, 1, 0, 0);
    buf.extend_from_slice(&[0, 0x00, 0x01]); // name, then only 2 of 10 fixed bytes
    assert_eq!(parse_answer_records(&buf, 12, 1), Err(DnsError::TruncatedPacketError));
}

#[test]
fn record_type_codes_round_trip() {
    let cases = [
        (1u16, RecordType::A),
        (2, RecordType::NS),
        (5, RecordType::CNAME),
        (15, RecordType::MX),
        (16, RecordType::TXT),
        (28, RecordType::AAAA),
        (64, RecordType::SVCB),
        (65, RecordType::HTTPS),
        (255, RecordType::ANY),
        (999, RecordType::Unknown(999)),
    ];
    for (code, t) in cases {
        assert_eq!(RecordType::from_code(code), t);
        assert_eq!(t.code(), code);
    }
}
