use dns_client::name::{decode_name, make_qname_string};
use dns_client::types::DnsError;

#[test]
fn encode_google_com() {
    let name = b"google.com".to_vec();
    let enc = make_qname_string(&name).unwrap();
    assert_eq!(enc, vec![6, b'g', b'o', b'o', b'g', b'l', b'e', 3, b'c', b'o', b'm', 0]);
}

#[test]
fn encode_strips_one_trailing_dot() {
    let with_dot = b"google.com.".to_vec();
    let without = b"google.com".to_vec();
    assert_eq!(make_qname_string(&with_dot).unwrap(), make_qname_string(&without).unwrap());
}

#[test]
fn encode_rejects_empty_label() {
    assert_eq!(make_qname_string(&b"a..b".to_vec()), Err(DnsError::EncodingError));
    assert_eq!(make_qname_string(&b"".to_vec()), Err(DnsError::EncodingError));
    assert_eq!(make_qname_string(&b".".to_vec()), Err(DnsError::EncodingError));
    assert_eq!(make_qname_string(&b".ab".to_vec()), Err(DnsError::EncodingError));
}

#[test]
fn encode_rejects_long_label() {
    let mut name = Vec::new();
    for _ in 0..64 {
        name.push(b'a');
    }
    assert_eq!(make_qname_string(&name), Err(DnsError::EncodingError));
    name.pop();
    assert!(make_qname_string(&name).is_ok());
}

#[test]
fn encode_rejects_encoding_over_255_bytes() {
    // Five 50-byte labels encode to 5 * 51 + 1 = 256 bytes: one over the cap.
    let mut name = Vec::new();
    for k in 0..5 {
        if k > 0 {
            name.push(b'.');
        }
        for _ in 0..50 {
            name.push(b'x');
        }
    }
    assert_eq!(make_qname_string(&name), Err(DnsError::EncodingError));
    // Dropping one label brings it back under the cap.
    let shorter = name[..(4 * 51 - 1)].to_vec();
    assert!(make_qname_string(&shorter).is_ok());
}

#[test]
fn name_round_trip() {
    let name = b"www.example.com".to_vec();
    let enc = make_qname_string(&name).unwrap();
    let (decoded, next) = decode_name(&enc, 0).unwrap();
    assert_eq!(decoded, name);
    assert_eq!(next, enc.len());
}

#[test]
fn decode_root_name() {
    let buf = vec![0u8];
    let (decoded, next) = decode_name(&buf, 0).unwrap();
    assert_eq!(decoded, Vec::<u8>::new());
    assert_eq!(next, 1);
}

#[test]
fn decode_compressed_name() {
    // "abc.de" at offset 2, then a pointer to it at offset 10.
    let buf = vec![0u8, 0, 3, b'a', b'b', b'c', 2, b'd', b'e', 0, 0xC0, 2];
    let (direct, after_direct) = decode_name(&buf, 2).unwrap();
    assert_eq!(direct, b"abc.de".to_vec());
    assert_eq!(after_direct, 10);
    let (via_pointer, after_pointer) = decode_name(&buf, 10).unwrap();
    assert_eq!(via_pointer, b"abc.de".to_vec());
    assert_eq!(after_pointer, 12);
}

#[test]
fn decode_label_then_pointer() {
    // "mail" + pointer to "example.com" at offset 2.
    let mut buf = vec![0u8, 0];
    buf.extend_from_slice(&[7, b'e', b'x', b'a', b'm', b'p', b'l', b'e', 3, b'c', b'o', b'm', 0]);
    let start = buf.len();
    buf.extend_from_slice(&[4, b'm', b'a', b'i', b'l', 0xC0, 2]);
    let (name, next) = decode_name(&buf, start).unwrap();
    assert_eq!(name, b"mail.example.com".to_vec());
    assert_eq!(next, start + 7);
}

#[test]
fn decode_reserved_label_byte() {
    let buf = vec![0x40u8, 0, 0];
    assert_eq!(decode_name(&buf, 0), Err(DnsError::ReservedLabelError));
    let buf2 = vec![0x80u8, 0, 0];
    assert_eq!(decode_name(&buf2, 0), Err(DnsError::ReservedLabelError));
}

#[test]
fn decode_pointer_at_own_offset_rejected() {
    // A pointer at offset 0 whose target is 0: target == own offset.
    let buf = vec![0xC0u8, 0x00, 0x00];
    assert_eq!(decode_name(&buf, 0), Err(DnsError::CompressionLoopError));
}

#[test]
fn decode_forward_pointer_rejected() {
    // A pointer at offset 2 aiming forward at offset 4.
    let buf = vec![0u8, 0, 0xC0, 4, 0];
    assert_eq!(decode_name(&buf, 2), Err(DnsError::CompressionLoopError));
}

#[test]
fn decode_pointer_depth_exceeded() {
    // A chain of 11 backward pointers; the hop ceiling is 10.
    let mut buf = vec![0u8, 0u8];
    for k in 1..=11u8 {
        buf.push(0xC0);
        buf.push(2 * (k - 1));
    }
    assert_eq!(decode_name(&buf, 22), Err(DnsError::CompressionLoopError));
    let (name, next) = decode_name(&buf, 20).unwrap();
    assert_eq!(name, Vec::<u8>::new());
    assert_eq!(next, 22);
}

#[test]
fn decode_truncated_label() {
    let buf = vec![5u8, b'a'];
    assert_eq!(decode_name(&buf, 0), Err(DnsError::TruncatedPacketError));
}

#[test]
fn decode_missing_terminator() {
    let buf = vec![1u8, b'a'];
    assert_eq!(decode_name(&buf, 0), Err(DnsError::TruncatedPacketError));
}

#[test]
fn decode_offset_past_end() {
    let buf = vec![0u8];
    assert_eq!(decode_name(&buf, 5), Err(DnsError::TruncatedPacketError));
}

#[test]
fn decode_pointer_missing_second_byte() {
    let buf = vec![0u8, 0xC0];
    assert_eq!(decode_name(&buf, 1), Err(DnsError::TruncatedPacketError));
}
