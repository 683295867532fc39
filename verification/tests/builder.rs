use dns_codec::builder::MessageBuilder;
use dns_codec::types::{QCLASS_IN, QTYPE_A, RRCLASS_IN, RRTYPE_A};

fn sample_dns_message() -> Vec<u8> {
    vec![
        0x00, 0x01, 0x01, 0x00, 0x00, 0x01, 0x00, 0x00, 0x00, 0x00, 0x00, 0x00, 0x07, b'e', b'x',
        b'a', b'm', b'p', b'l', b'e', 0x03, b'c', b'o', b'm', 0x00, 0x00, 0x01, 0x00, 0x01,
    ]
}

#[test]
fn builder_produces_same_as_sample() {
    let expected = sample_dns_message();
    let mut buffer = Vec::new();
    let message = MessageBuilder::query(1)
        .question("example.com", QTYPE_A, QCLASS_IN)
        .build(&mut buffer)
        .unwrap();
    assert_eq!(message.question.len(), 1);
    assert_eq!(buffer, expected);
}

#[test]
fn build_encode_direct_returns_bytes() {
    let bytes = MessageBuilder::query(1)
        .question("example.com", QTYPE_A, QCLASS_IN)
        .build_encode_direct()
        .unwrap();
    assert_eq!(bytes, sample_dns_message());
}

#[test]
fn builder_with_answer() {
    let mut buffer = Vec::new();
    let message = MessageBuilder::response(1)
        .question("example.com", QTYPE_A, QCLASS_IN)
        .answer("example.com", RRTYPE_A, RRCLASS_IN, 3600, vec![93u8, 184, 216, 34])
        .build(&mut buffer)
        .unwrap();
    assert_eq!(message.question.len(), 1);
    assert_eq!(message.answer.len(), 1);
}

#[test]
fn builder_round_trip_restores_fields() {
    let mut buffer = Vec::new();
    let message = MessageBuilder::response(0x1234)
        .question("example.com", QTYPE_A, QCLASS_IN)
        .answer("example.com", RRTYPE_A, RRCLASS_IN, 3600, vec![93u8, 184, 216, 34])
        .authority("ns.example.com", 2, RRCLASS_IN, 7200, vec![2u8, b'n', b's', 0])
        .additional("alt.example.com", RRTYPE_A, RRCLASS_IN, 60, vec![10u8, 0, 0, 1])
        .build(&mut buffer)
        .unwrap();
    assert_eq!(message.header.id, 0x1234);
    assert!(message.header.flags.qr);
    assert!(message.header.flags.rd);
    assert_eq!(message.header.qd_count, 1);
    assert_eq!(message.header.an_count, 1);
    assert_eq!(message.header.ns_count, 1);
    assert_eq!(message.header.ar_count, 1);
    assert_eq!(message.question[0].q_type, QTYPE_A);
    assert_eq!(message.question[0].q_class, QCLASS_IN);
    assert_eq!(message.answer[0].rr_ttl, 3600);
    assert_eq!(message.answer[0].rr_rd_length, 4);
    assert_eq!(message.answer[0].rr_data, vec![93u8, 184, 216, 34]);
    assert_eq!(message.authority[0].rr_ttl, 7200);
    assert_eq!(message.authority[0].rr_data, vec![2u8, b'n', b's', 0]);
    assert_eq!(message.additional[0].rr_data, vec![10u8, 0, 0, 1]);

    // Re-encoding the decoded message restores the builder's exact bytes.
    let encoded = dns_codec::encode::encode_message(&message).unwrap();
    assert_eq!(encoded, buffer);
}

#[test]
fn builder_rejects_oversized_label() {
    let long = "x".repeat(64);
    let r = MessageBuilder::query(7)
        .question(&long, QTYPE_A, QCLASS_IN)
        .build_encode_direct();
    assert_eq!(r, Err(dns_codec::Error::InvalidDomainName));
}

#[test]
fn builder_collapses_empty_labels() {
    let bytes = MessageBuilder::query(1)
        .question(".example..com.", QTYPE_A, QCLASS_IN)
        .build_encode_direct()
        .unwrap();
    assert_eq!(bytes, sample_dns_message());
}

#[test]
fn empty_name_encodes_as_root_only() {
    assert_eq!(dns_codec::builder::encode_name_bytes(""), Ok(vec![0u8]));
    assert_eq!(dns_codec::builder::encode_name_bytes("."), Ok(vec![0u8]));
    assert_eq!(dns_codec::builder::encode_name_bytes("a"), Ok(vec![1u8, b'a', 0]));
    assert_eq!(
        dns_codec::builder::encode_name_bytes("example.com"),
        Ok(vec![7, b'e', b'x', b'a', b'm', b'p', b'l', b'e', 3, b'c', b'o', b'm', 0])
    );
    // A 63-byte label is the largest that fits.
    let max = "y".repeat(63);
    let encoded = dns_codec::builder::encoded_name_len(&max).unwrap();
    assert_eq!(encoded, 65);
    let over = "y".repeat(64);
    assert_eq!(
        dns_codec::builder::encoded_name_len(&over),
        Err(dns_codec::Error::InvalidDomainName)
    );
}

#[test]
fn builder_id_and_flags_setters() {
    let flags = dns_codec::types::Flags::new(true, 0, true, false, true, true, 0, 3);
    let bytes = MessageBuilder::query(1)
        .id(0xBEEF)
        .flags(flags)
        .build_encode_direct()
        .unwrap();
    assert_eq!(bytes[0], 0xBE);
    assert_eq!(bytes[1], 0xEF);
    // qr|aa|rd set in the high flags byte; ra and rcode 3 in the low byte.
    assert_eq!(bytes[2], 0x85);
    assert_eq!(bytes[3], 0x83);
}
