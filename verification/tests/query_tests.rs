use dns_client::message::{encode_query, make_query};
use dns_client::types::{DnsError, RecordType};

#[test]
fn query_bytes_for_google_com() {
    let q = encode_query(0x1234, &b"google.com".to_vec(), RecordType::A).unwrap();
    let expected: Vec<u8> = vec![
        0x12, 0x34, // transaction id
        0x01, 0x20, // flags: standard recursive query
        0x00, 0x01, // one question
        0x00, 0x00, 0x00, 0x00, 0x00, 0x00, // no other records
        6, b'g', b'o', b'o', b'g', b'l', b'e', 3, b'c', b'o', b'm', 0, // name
        0x00, 0x01, // type A
        0x00, 0x01, // class IN
    ];
    assert_eq!(q, expected);
}

#[test]
fn query_question_section_suffix() {
    let q = encode_query(0, &b"google.com".to_vec(), RecordType::A).unwrap();
    let suffix: Vec<u8> = vec![
        6, b'g', b'o', b'o', b'g', b'l', b'e', 3, b'c', b'o', b'm', 0, 0x00, 0x01, 0x00, 0x01,
    ];
    assert_eq!(&q[q.len() - suffix.len()..], &suffix[..]);
}

#[test]
fn make_query_draws_id_and_keeps_rest() {
    let name = b"example.org".to_vec();
    let q = make_query(&name, RecordType::TXT).unwrap();
    let fixed = encode_query(0, &name, RecordType::TXT).unwrap();
    assert_eq!(q.len(), fixed.len());
    // Everything past the two transaction-id bytes is fixed by the inputs.
    assert_eq!(&q[2..], &fixed[2..]);
}

#[test]
fn make_query_rejects_bad_name() {
    assert_eq!(make_query(&b"a..b".to_vec(), RecordType::A), Err(DnsError::EncodingError));
    assert_eq!(encode_query(7, &b"".to_vec(), RecordType::A), Err(DnsError::EncodingError));
}

#[test]
fn query_type_code_on_wire() {
    let q = encode_query(1, &b"x.y".to_vec(), RecordType::HTTPS).unwrap();
    // The two bytes before the final class bytes carry the type code 65.
    assert_eq!(q[q.len() - 4], 0x00);
    assert_eq!(q[q.len() - 3], 65);
}
