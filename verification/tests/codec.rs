use dns_codec::decode::{decode_flags, decode_header, decode_message, decode_name};
use dns_codec::encode::{encode_flags, encode_header, encode_message, encode_name};
use dns_codec::types::{Flags, Header, NameElement};
use dns_codec::Error;

fn sample_query() -> Vec<u8> {
    vec![
        0x00, 0x01, 0x01, 0x00, 0x00, 0x01, 0x00, 0x00, 0x00, 0x00, 0x00, 0x00, 0x07, b'e', b'x',
        b'a', b'm', b'p', b'l', b'e', 0x03, b'c', b'o', b'm', 0x00, 0x00, 0x01, 0x00, 0x01,
    ]
}

#[test]
fn short_buffers_fail_header_decode() {
    for n in 0..12usize {
        let buf = vec![0u8; n];
        assert_eq!(decode_header(&buf), Err(Error::InvalidHeaderLength));
    }
    let buf = vec![0u8; 12];
    assert!(decode_header(&buf).is_ok());
}

#[test]
fn header_fields_decode_big_endian() {
    let buf = sample_query();
    let (header, consumed) = decode_header(&buf).unwrap();
    assert_eq!(consumed, 12);
    assert_eq!(header.id, 1);
    assert!(!header.flags.qr);
    assert!(header.flags.rd);
    assert_eq!(header.qd_count, 1);
    assert_eq!(header.an_count, 0);
    assert_eq!(header.ns_count, 0);
    assert_eq!(header.ar_count, 0);
}

#[test]
fn flags_bits_decode_independently() {
    // qr, opcode, aa, tc, rd live in the high byte; ra, z, rcode in the low.
    let (f, n) = decode_flags(&[0x80, 0x00]).unwrap();
    assert!(f.qr && n == 2);
    let (f, _) = decode_flags(&[0x78, 0x00]).unwrap();
    assert_eq!(f.opcode, 15);
    let (f, _) = decode_flags(&[0x04, 0x00]).unwrap();
    assert!(f.aa);
    let (f, _) = decode_flags(&[0x02, 0x00]).unwrap();
    assert!(f.tc);
    let (f, _) = decode_flags(&[0x01, 0x00]).unwrap();
    assert!(f.rd);
    let (f, _) = decode_flags(&[0x00, 0x80]).unwrap();
    assert!(f.ra);
    let (f, _) = decode_flags(&[0x00, 0x70]).unwrap();
    assert_eq!(f.z, 7);
    let (f, _) = decode_flags(&[0x00, 0x0F]).unwrap();
    assert_eq!(f.rcode, 15);
    assert_eq!(decode_flags(&[0x80]), Err(Error::InsufficientData));
}

#[test]
fn flags_round_trip_through_bytes() {
    let flags = Flags::new(true, 5, false, true, true, false, 2, 9);
    let mut buf = [0u8; 2];
    assert_eq!(encode_flags(&flags, &mut buf), Ok(2));
    let (back, _) = decode_flags(&buf).unwrap();
    assert_eq!(back, flags);
}

#[test]
fn header_encode_is_exact_inverse() {
    let header = Header::new(0xABCD, Flags::new(true, 4, true, false, true, true, 1, 2), 1, 2, 3, 4);
    let mut buf = [0u8; 12];
    assert_eq!(encode_header(&header, &mut buf), Ok(12));
    let (back, _) = decode_header(&buf).unwrap();
    assert_eq!(back, header);
    let mut short = [0u8; 11];
    assert_eq!(encode_header(&header, &mut short), Err(Error::InvalidHeaderLength));
}

#[test]
fn reserved_band_consumes_one_byte() {
    // A length byte in [64, 191] yields a reserved element with no payload,
    // and the scan goes on at the very next byte.
    let buf = [0x40u8, 0x00];
    let (elems, consumed) = decode_name(&buf, 0).unwrap();
    assert_eq!(elems.len(), 2);
    assert_eq!(elems[0], NameElement::Reserved);
    assert_eq!(elems[1], NameElement::Root);
    assert_eq!(consumed, 2);

    let buf2 = [0xBFu8, 1, b'a', 0x00];
    let (elems2, consumed2) = decode_name(&buf2, 0).unwrap();
    assert_eq!(elems2[0], NameElement::Reserved);
    assert!(matches!(elems2[1], NameElement::Label(_)));
    assert_eq!(consumed2, 4);
}

#[test]
fn pointer_band_consumes_two_bytes() {
    // A length byte of 192 or more joins its low 6 bits with the next byte.
    let buf = [0xC1u8, 0x2C];
    let (elems, consumed) = decode_name(&buf, 0).unwrap();
    assert_eq!(consumed, 2);
    assert_eq!(elems.len(), 1);
    assert_eq!(elems[0], NameElement::Pointer(((0xC1 & 0x3F) << 8) | 0x2C));
    assert_eq!(elems[0], NameElement::Pointer(300));

    // The pointer always ends the name: bytes after it are not consumed.
    let buf2 = [0xC0u8, 0x0C, 7, 7, 7];
    let (elems2, consumed2) = decode_name(&buf2, 0).unwrap();
    assert_eq!(consumed2, 2);
    assert_eq!(elems2, vec![NameElement::Pointer(12)]);

    // A pointer missing its second byte is insufficient data.
    assert_eq!(decode_name(&[0xC0u8], 0), Err(Error::InsufficientData));
}

#[test]
fn name_decode_reads_labels_until_root() {
    let buf = sample_query();
    let (elems, consumed) = decode_name(&buf, 12).unwrap();
    assert_eq!(consumed, 13);
    assert_eq!(elems.len(), 3);
    match &elems[0] {
        NameElement::Label(l) => {
            assert_eq!(l.length, 7);
            assert_eq!(l.data, b"example".to_vec());
        },
        _ => panic!("expected a label"),
    }
    assert_eq!(elems[2], NameElement::Root);
    // A truncated label is insufficient data.
    assert_eq!(decode_name(&buf[..14], 12), Err(Error::InsufficientData));
}

#[test]
fn name_encode_writes_each_element() {
    let buf = sample_query();
    let (elems, _) = decode_name(&buf, 12).unwrap();
    let mut out = [0u8; 13];
    assert_eq!(encode_name(&elems, &mut out), Ok(13));
    assert_eq!(&out[..], &buf[12..25]);

    // A reserved element has no canonical byte representation.
    let reserved = vec![NameElement::Reserved];
    let mut small = [0u8; 4];
    assert_eq!(encode_name(&reserved, &mut small), Err(Error::InvalidDomainName));
    // An element that does not fit is insufficient data.
    let (elems2, _) = decode_name(&buf, 12).unwrap();
    let mut tiny = [0u8; 5];
    assert_eq!(encode_name(&elems2, &mut tiny), Err(Error::InsufficientData));
}

#[test]
fn sample_query_decodes_exactly() {
    // The 29-byte buffer: id 1, RD set, one question "example.com" A IN.
    let buf = sample_query();
    let message = decode_message(&buf).unwrap();
    assert_eq!(message.header.id, 1);
    assert!(message.header.flags.rd);
    assert_eq!(message.header.qd_count, 1);
    assert_eq!(message.header.an_count, 0);
    assert_eq!(message.header.ns_count, 0);
    assert_eq!(message.header.ar_count, 0);
    assert_eq!(message.question.len(), 1);
    let q = &message.question[0];
    assert_eq!(q.q_type, 1);
    assert_eq!(q.q_class, 1);
    assert_eq!(q.q_name.len(), 3);
    match &q.q_name[0] {
        NameElement::Label(l) => assert_eq!(l.data, b"example".to_vec()),
        _ => panic!("expected a label"),
    }
    match &q.q_name[1] {
        NameElement::Label(l) => assert_eq!(l.data, b"com".to_vec()),
        _ => panic!("expected a label"),
    }
    assert_eq!(q.q_name[2], NameElement::Root);
}

#[test]
fn message_round_trip_is_identity() {
    // encode(decode(buf)) == buf for a well-formed, pointer-free buffer.
    let buf = sample_query();
    let message = decode_message(&buf).unwrap();
    let encoded = encode_message(&message).unwrap();
    assert_eq!(encoded, buf);

    // The same through a message with records in every section.
    let mut full = vec![0u8, 2, 0x84, 0x00, 0, 1, 0, 1, 0, 1, 0, 1];
    full.extend_from_slice(&[1, b'a', 0, 0, 1, 0, 1]);
    full.extend_from_slice(&[1, b'a', 0, 0, 1, 0, 1, 0, 0, 0, 5, 0, 2, 8, 8]);
    full.extend_from_slice(&[1, b'b', 0, 0, 2, 0, 1, 0, 0, 0, 6, 0, 0]);
    full.extend_from_slice(&[1, b'c', 0, 0, 1, 0, 1, 0, 0, 0, 7, 0, 1, 5]);
    let m2 = decode_message(&full).unwrap();
    assert_eq!(encode_message(&m2).unwrap(), full);
}

#[test]
fn truncated_sections_fail_with_insufficient_data() {
    let buf = sample_query();
    // Cut inside the question's trailing type and class bytes.
    assert_eq!(decode_message(&buf[..27]), Err(Error::InsufficientData));
    // Cut inside the name.
    assert_eq!(decode_message(&buf[..20]), Err(Error::InsufficientData));
    // A record section past the end of the buffer.
    let mut counts = buf.clone();
    counts[7] = 1;
    assert_eq!(decode_message(&counts), Err(Error::InsufficientData));
}

#[test]
fn wire_length_sums_sections() {
    let buf = sample_query();
    let message = decode_message(&buf).unwrap();
    assert_eq!(message.wire_length(), buf.len());
}

#[test]
fn trailing_bytes_are_ignored_by_decode() {
    let mut buf = sample_query();
    buf.push(0xAA);
    let message = decode_message(&buf).unwrap();
    assert_eq!(message.question.len(), 1);
    // The re-encoded form is the message without the trailing byte.
    let encoded = encode_message(&message).unwrap();
    assert_eq!(encoded.len(), buf.len() - 1);
}

#[test]
fn error_message_strings() {
    assert_eq!(
        Error::InvalidHeaderLength.message(),
        "DNS header must be at least 12 bytes"
    );
    assert_eq!(
        Error::InsufficientData.message(),
        "Insufficient data to decode DNS question"
    );
    assert_eq!(Error::InvalidDomainName.message(), "Invalid domain name format");
}
