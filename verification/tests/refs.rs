use dns_codec::refs::{NameElementKind, NameElementRef, NameRef};
use dns_codec::zero_copy::decode_message_ref;
use dns_codec::Error;

#[test]
fn classify_label() {
    assert_eq!(NameElementRef::classify_first_byte(0), NameElementKind::Root);
    assert_eq!(NameElementRef::classify_first_byte(1), NameElementKind::Label);
    assert_eq!(NameElementRef::classify_first_byte(63), NameElementKind::Label);
    assert_eq!(NameElementRef::classify_first_byte(0xC0), NameElementKind::Pointer);
    assert_eq!(NameElementRef::classify_first_byte(0xFF), NameElementKind::Pointer);
    assert_eq!(NameElementRef::classify_first_byte(0x40), NameElementKind::Reserved);
    assert_eq!(NameElementRef::classify_first_byte(0x80), NameElementKind::Reserved);
}

#[test]
fn from_offset_classifies_and_bounds() {
    let buf = [0u8, 1, 0xC0, 0x40];
    assert_eq!(
        NameElementRef::from_offset(&buf, 0),
        Some(NameElementRef::Root { offset: 0 })
    );
    assert_eq!(
        NameElementRef::from_offset(&buf, 1),
        Some(NameElementRef::Label { offset: 1 })
    );
    assert_eq!(
        NameElementRef::from_offset(&buf, 2),
        Some(NameElementRef::Pointer { offset: 2 })
    );
    assert_eq!(
        NameElementRef::from_offset(&buf, 3),
        Some(NameElementRef::Reserved { offset: 3 })
    );
    assert_eq!(NameElementRef::from_offset(&buf, 4), None);
}

#[test]
fn name_ref_parses_elements_with_offsets() {
    // "ab.c" as wire bytes: [2]ab [1]c [0]
    let buf = [2u8, b'a', b'b', 1, b'c', 0];
    let name = NameRef::from_buf(&buf, 0).unwrap();
    assert_eq!(name.count, 3);
    assert_eq!(name.end_offset, 6);
    let elems = name.as_slice();
    assert_eq!(elems[0], NameElementRef::Label { offset: 0 });
    assert_eq!(elems[1], NameElementRef::Label { offset: 3 });
    assert_eq!(elems[2], NameElementRef::Root { offset: 5 });
    assert_eq!(name.offset(), 0);
}

#[test]
fn name_ref_rejects_eleventh_element() {
    // 10 labels of one byte each, then the root: 11 elements in all.
    let mut buf = Vec::new();
    for _ in 0..10 {
        buf.push(1u8);
        buf.push(b'x');
    }
    buf.push(0u8);
    assert_eq!(NameRef::from_buf(&buf, 0), Err(Error::InvalidDomainName));
    // With nine labels the name fits.
    let mut buf9 = Vec::new();
    for _ in 0..9 {
        buf9.push(1u8);
        buf9.push(b'x');
    }
    buf9.push(0u8);
    let name = NameRef::from_buf(&buf9, 0).unwrap();
    assert_eq!(name.count, 10);
}

#[test]
fn capacity_overflow_fails_deterministically() {
    // Header announcing 6 questions against the 5-question cap.
    let mut buf = vec![0u8, 7, 0, 0, 0, 6, 0, 0, 0, 0, 0, 0];
    for _ in 0..6 {
        buf.extend_from_slice(&[1, b'a', 0, 0, 1, 0, 1]);
    }
    assert_eq!(decode_message_ref(&buf), Err(Error::InvalidDomainName));
    // The same message with 5 questions scans fine.
    let mut ok = vec![0u8, 7, 0, 0, 0, 5, 0, 0, 0, 0, 0, 0];
    for _ in 0..5 {
        ok.extend_from_slice(&[1, b'a', 0, 0, 1, 0, 1]);
    }
    let mref = decode_message_ref(&ok).unwrap();
    assert_eq!(mref.question.count, 5);
}

#[test]
fn ref_materialization_matches_direct_decode() {
    // One question and one answer record.
    let mut buf = vec![0u8, 9, 0x85, 0x20, 0, 1, 0, 1, 0, 0, 0, 0];
    buf.extend_from_slice(&[3, b'w', b'w', b'w', 0, 0, 1, 0, 1]);
    buf.extend_from_slice(&[3, b'w', b'w', b'w', 0, 0, 1, 0, 1, 0, 0, 14, 16, 0, 4, 9, 9, 9, 9]);

    let direct = dns_codec::decode::decode_message(&buf).unwrap();
    let mref = decode_message_ref(&buf).unwrap();
    let materialized = mref.decode_message(&buf).unwrap();
    assert_eq!(direct, materialized);

    // Entry-level materialization equals the direct decode's entries.
    let q = mref.question.as_slice()[0].decode_question(&buf).unwrap();
    assert_eq!(q, direct.question[0]);
    let a = mref.answer.as_slice()[0].decode_resource_record(&buf).unwrap();
    assert_eq!(a, direct.answer[0]);
    assert_eq!(a.rr_ttl, 3600);
    assert_eq!(a.rr_data, vec![9, 9, 9, 9]);
}

#[test]
fn identical_records_keep_distinct_offsets() {
    // Two byte-identical answer records: the references must point at the
    // first and the second copy, back to back, not twice at the first.
    let mut buf = vec![0u8, 1, 0x84, 0, 0, 0, 0, 2, 0, 0, 0, 0];
    let record = [1u8, b'a', 0, 0, 1, 0, 1, 0, 0, 0, 9, 0, 2, 5, 5];
    buf.extend_from_slice(&record);
    buf.extend_from_slice(&record);
    let mref = decode_message_ref(&buf).unwrap();
    let refs = mref.answer.as_slice();
    assert_eq!(refs[0].offset(), 12);
    assert_eq!(refs[0].len, record.len() as u16);
    assert_eq!(refs[1].offset(), 12 + record.len() as u16);
    assert_eq!(refs[1].len, record.len() as u16);
    assert_eq!(mref.answer.end_offset, buf.len() as u16);
    // The name references carry the element offsets of each copy.
    assert_eq!(refs[0].name.as_slice()[0], NameElementRef::Label { offset: 12 });
    assert_eq!(
        refs[1].name.as_slice()[0],
        NameElementRef::Label { offset: 12 + record.len() as u16 }
    );
    // Unused section slots are placeholders.
    assert_eq!(mref.answer.records[2], dns_codec::refs::ResourceRecordRef::empty());
    assert_eq!(mref.question.questions[0], dns_codec::refs::QuestionRef::new(0, 0));
}

#[test]
fn empty_refs_are_zeroed_placeholders() {
    let name = NameRef::empty();
    assert_eq!(name.count, 0);
    assert_eq!(name.end_offset, 0);
    assert_eq!(name.offset(), 0);
    assert!(name.as_slice().is_empty());
    assert_eq!(name.elements[9], NameElementRef::Root { offset: 0 });
    let rec = dns_codec::refs::ResourceRecordRef::empty();
    assert_eq!(rec.name, NameRef::empty());
    assert_eq!(rec.len, 0);
    assert_eq!(rec.offset(), 0);
    assert_eq!(rec.end(), 0);
}

#[test]
fn wire_lengths_measure_entries() {
    let mut buf = vec![0u8; 12];
    buf.extend_from_slice(&[3, b'w', b'w', b'w', 0, 0, 1, 0, 1]);
    assert_eq!(dns_codec::zero_copy::name_wire_length_at(&buf, 12), Ok(5));
    assert_eq!(dns_codec::zero_copy::question_wire_length_at(&buf, 12), Ok(9));
    assert_eq!(
        dns_codec::zero_copy::name_wire_length_at(&buf, 100),
        Err(Error::InsufficientData)
    );
}

#[test]
fn record_wire_length_reads_rdlength() {
    let mut buf = vec![0u8; 12];
    // name "a" + type/class/ttl + rdlength 3 + 3 bytes of rdata
    buf.extend_from_slice(&[1, b'a', 0, 0, 1, 0, 1, 0, 0, 0, 60, 0, 3, 1, 2, 3]);
    assert_eq!(
        dns_codec::zero_copy::resource_record_wire_length_at(&buf, 12),
        Ok(3 + 10 + 3)
    );
    // Cutting the rdata short makes the record unreadable.
    let short = &buf[..buf.len() - 1];
    assert_eq!(
        dns_codec::zero_copy::resource_record_wire_length_at(short, 12),
        Err(Error::InsufficientData)
    );
}
