use vstd::prelude::*;

use crate::error::Error;
use crate::refs::{
    prefix_elems, record_section_wf, HeaderRef, MessageRef, MsgOffset, NameRef, QuestionRef,
    QuestionSectionRef, ResourceRecordRef, ResourceRecordSectionRef,
};
use crate::wire;

verus! {

/// The outcome of scanning `n` resource records from absolute offset
/// `off`: the end offset, or the first failure — a record that runs out of
/// buffer, or a name of more than 10 elements.
pub open spec fn section_scan(data: Seq<u8>, off: int, n: nat) -> Result<int, Error>
    decreases n,
{
    if n == 0 {
        Ok(off)
    } else {
        match wire::record_decode(data.skip(off), data, off) {
            Option::None => Err(Error::InsufficientData),
            Option::Some((r0, e)) => if wire::name_decode(data, off)->Some_0.0.len() > 10 {
                Err(Error::InvalidDomainName)
            } else {
                section_scan(data, off + e, (n - 1) as nat)
            },
        }
    }
}

/// The outcome of the whole zero-copy scan: the end offset of the last
/// section, or the first failure in the fixed order — a short header, a
/// section count over its capacity, or a failing entry.
pub open spec fn message_ref_scan(data: Seq<u8>) -> Result<int, Error> {
    if data.len() < 12 {
        Err(Error::InvalidHeaderLength)
    } else {
        let h = wire::header_of_bytes(data);
        if h.qd_count > 5 {
            Err(Error::InvalidDomainName)
        } else {
            match wire::questions_decode(data.skip(12), data, 12, 0, h.qd_count as nat) {
                Option::None => Err(Error::InsufficientData),
                Option::Some((qs, qe)) => {
                    if h.an_count > 10 {
                        Err(Error::InvalidDomainName)
                    } else {
                        match section_scan(data, 12 + qe, h.an_count as nat) {
                            Err(e) => Err(e),
                            Ok(u) => if h.ns_count > 10 {
                                Err(Error::InvalidDomainName)
                            } else {
                                match section_scan(data, u, h.ns_count as nat) {
                                    Err(e) => Err(e),
                                    Ok(d) => if h.ar_count > 10 {
                                        Err(Error::InvalidDomainName)
                                    } else {
                                        match section_scan(data, d, h.ar_count as nat) {
                                            Err(e) => Err(e),
                                            Ok(end) => Ok(end),
                                        }
                                    },
                                }
                            },
                        }
                    }
                },
            }
        }
    }
}

/// Exceeding the question capacity fails the scan with `InvalidDomainName`
/// before any entry is read.
pub proof fn lemma_question_capacity_overflow(data: Seq<u8>)
    requires
        data.len() >= 12,
        wire::header_of_bytes(data).qd_count > 5,
    ensures
        message_ref_scan(data) == Err::<int, Error>(Error::InvalidDomainName),
{
}

/// Decoding one question at `moff + off` is decoding it at its own
/// absolute offset, shifted.
pub proof fn lemma_question_shift(data: Seq<u8>, moff: int, off: int)
    requires
        moff >= 0,
        off >= 0,
    ensures
        wire::question_decode(data.skip(moff), data, moff, off) == (match wire::question_decode(
            data.skip(moff + off),
            data,
            moff + off,
            0,
        ) {
            Option::Some((q, e)) => Option::Some((q, off + e)),
            Option::None => Option::None::<(wire::QuestionModel, int)>,
        }),
{
    if wire::name_decode(data, moff + off) is Some {
        wire::lemma_name_decode_bounds(data, moff + off);
        let nend = wire::name_decode(data, moff + off)->Some_0.1;
        let d1 = data.skip(moff);
        let d2 = data.skip(moff + off);
        assert(d1.len() == data.len() - moff);
        assert(d2.len() == data.len() - moff - off);
        if nend - moff + 4 <= d1.len() {
            assert(d1[nend - moff] == data[nend]);
            assert(d1[nend - moff + 1] == data[nend + 1]);
            assert(d1[nend - moff + 2] == data[nend + 2]);
            assert(d1[nend - moff + 3] == data[nend + 3]);
            assert(d2[nend - moff - off] == data[nend]);
            assert(d2[nend - moff - off + 1] == data[nend + 1]);
            assert(d2[nend - moff - off + 2] == data[nend + 2]);
            assert(d2[nend - moff - off + 3] == data[nend + 3]);
        }
    }
}

/// Returns the wire length of the domain name starting at `offset`: the
/// bytes up to and including its root or pointer terminator. Fails with
/// `InsufficientData` exactly when a required read would exceed the
/// buffer. The name's elements are classified and skipped, never followed.
pub fn name_wire_length_at(buf: &[u8], offset: MsgOffset) -> (r: Result<usize, Error>)
    ensures
        (match r {
            Ok(l) => wire::name_decode(buf@, offset as int) matches Some(p) && p.1 == offset + l,
            Err(e) => e == Error::InsufficientData && wire::name_decode(
                buf@,
                offset as int,
            ) is None,
        }),
{
    let ghost start: int = offset as int;
    let mut pos: usize = offset as usize;

    loop
        invariant_except_break
            (match wire::name_decode(buf@, pos as int) {
                Some(rest) => wire::name_decode(buf@, start) matches Some(whole) && whole.1
                    == rest.1,
                None => wire::name_decode(buf@, start) is None,
            }),
        invariant
            start == offset as int,
            pos == start || pos <= buf@.len(),
            pos >= start,
        ensures
            wire::name_decode(buf@, start) matches Some(whole) && whole.1 == pos,
            pos >= start,
        decreases buf@.len() - pos,
    {
        if pos >= buf.len() {
            return Err(Error::InsufficientData);
        }

        let len_byte: u8 = buf[pos];

        if len_byte == 0 {
            pos = pos + 1;
            break ;
        }

        if len_byte >= 192 {
            if pos + 1 >= buf.len() {
                return Err(Error::InsufficientData);
            }
            pos = pos + 2;
            break ;
        }

        if len_byte >= 64 {
            pos = pos + 1;
            continue ;
        }

        if len_byte as usize > buf.len() - pos - 1 {
            return Err(Error::InsufficientData);
        }
        pos = pos + 1 + len_byte as usize;
    }

    Ok(pos - offset as usize)
}

/// Returns the wire length of the question starting at `offset`: its name
/// plus the 4 type and class bytes.
pub fn question_wire_length_at(buf: &[u8], offset: MsgOffset) -> (r: Result<usize, Error>)
    ensures
        (match r {
            Ok(l) => wire::question_decode(
                buf@.skip(offset as int),
                buf@,
                offset as int,
                0,
            ) matches Some(p) && p.1 == l,
            Err(e) => e == Error::InsufficientData && wire::question_decode(
                buf@.skip(offset as int),
                buf@,
                offset as int,
                0,
            ) is None,
        }),
{
    let buf_len: usize = buf.len();
    let name_len = match name_wire_length_at(buf, offset) {
        Ok(l) => l,
        Err(e) => {
            return Err(e);
        },
    };
    proof {
        wire::lemma_name_decode_bounds(buf@, offset as int);
    }
    if buf_len - (offset as usize + name_len) < 4 {
        return Err(Error::InsufficientData);
    }
    Ok(name_len + 4)
}

/// Returns the wire length of the resource record starting at `offset`:
/// its name, the 10 fixed bytes, and RDLENGTH more bytes of RDATA, where
/// RDLENGTH is read just after the 8 fixed bytes that follow the name.
pub fn resource_record_wire_length_at(buf: &[u8], offset: MsgOffset) -> (r: Result<usize, Error>)
    ensures
        (match r {
            Ok(l) => wire::record_decode(buf@.skip(offset as int), buf@, offset as int) matches Some(
                p,
            ) && p.1 == l,
            Err(e) => e == Error::InsufficientData && wire::record_decode(
                buf@.skip(offset as int),
                buf@,
                offset as int,
            ) is None,
        }),
{
    let buf_len: usize = buf.len();
    let name_len = match name_wire_length_at(buf, offset) {
        Ok(l) => l,
        Err(e) => {
            return Err(e);
        },
    };
    proof {
        wire::lemma_name_decode_bounds(buf@, offset as int);
    }
    let rr_start: usize = offset as usize + name_len;

    if buf.len() - rr_start < 10 {
        return Err(Error::InsufficientData);
    }
    let rdlength: u16 = buf[rr_start + 8] as u16 * 256 + buf[rr_start + 9] as u16;
    proof {
        let d = buf@.skip(offset as int);
        assert(d[name_len + 8] == buf@[rr_start + 8]);
        assert(d[name_len + 9] == buf@[rr_start + 9]);
    }

    if rdlength as usize > buf.len() - rr_start - 10 {
        return Err(Error::InsufficientData);
    }
    Ok(name_len + 10 + rdlength as usize)
}

/// Scan `count` resource records from `*offset`, recording each record's
/// start and wire length in a fixed-capacity section of at most `max`
/// records. A count over `max`, or a record name of more than 10
/// elements, fails with `InvalidDomainName`; a record that runs out of
/// buffer fails with `InsufficientData`.
#[verifier::rlimit(100)]
pub(crate) fn fill_resource_record_section(
    data: &[u8],
    offset: &mut MsgOffset,
    count: u16,
    max: usize,
) -> (r: Result<ResourceRecordSectionRef, Error>)
    requires
        data@.len() <= 0xFFFF,
        *old(offset) as int <= data@.len(),
        max <= 10,
    ensures
        count as int > max ==> r == Err::<ResourceRecordSectionRef, _>(Error::InvalidDomainName)
            && *final(offset) == *old(offset),
        count as int <= max ==> (match section_scan(data@, *old(offset) as int, count as nat) {
            Ok(end) => {
                &&& r matches Ok(sec)
                &&& *final(offset) as int == end
                &&& *old(offset) <= *final(offset)
                &&& *final(offset) as int <= data@.len()
                &&& (r matches Ok(sec) ==> sec.end_offset == *final(offset))
                &&& (r matches Ok(sec) ==> record_section_wf(
                    sec,
                    data@,
                    *old(offset) as int,
                    count,
                ))
            },
            Err(e) => r == Err::<ResourceRecordSectionRef, _>(e),
        }),
{
    if count as usize > max {
        return Err(Error::InvalidDomainName);
    }

    let ghost start: int = *old(offset) as int;
    let mut cur_off: MsgOffset = *offset;
    let mut records: [ResourceRecordRef; 10] = [ResourceRecordRef::empty();10];
    let ghost mut done_models: Seq<wire::RecordModel> = Seq::empty();
    let mut i: u16 = 0;
    proof {
        assert(done_models + wire::records_decode(
            data@.skip(start),
            data@,
            start,
            0,
            count as nat,
        )->Some_0.0 =~= wire::records_decode(data@.skip(start), data@, start, 0, count as nat)->Some_0.0);
    }

    while i < count
        invariant
            data@.len() <= 0xFFFF,
            max <= 10,
            count <= max,
            i <= count,
            start == *old(offset) as int,
            0 <= start <= cur_off as int <= data@.len(),
            i == done_models.len(),
            section_scan(data@, start, count as nat) == section_scan(
                data@,
                cur_off as int,
                (count - i) as nat,
            ),
            (match wire::records_decode(
                data@.skip(start),
                data@,
                start,
                (cur_off as int) - start,
                (count - i) as nat,
            ) {
                Some(rest) => wire::records_decode(
                    data@.skip(start),
                    data@,
                    start,
                    0,
                    count as nat,
                ) == Some((done_models + rest.0, rest.1)),
                None => wire::records_decode(
                    data@.skip(start),
                    data@,
                    start,
                    0,
                    count as nat,
                ) is None,
            }),
            forall|k: int|
                0 <= k < i ==> {
                    &&& wire::record_decode(
                        data@.skip((#[trigger] records@[k]).spec_offset() as int),
                        data@,
                        records@[k].spec_offset() as int,
                    ) == Some((done_models[k], records@[k].len as int))
                    &&& crate::refs::name_ref_wf(
                        records@[k].name,
                        data@,
                        records@[k].spec_offset() as int,
                    )
                    &&& k >= 1 ==> records@[k].spec_offset() == records@[k - 1].spec_offset()
                        + records@[k - 1].len
                },
            i == 0 ==> cur_off as int == start,
            i > 0 ==> records@[0].spec_offset() == start,
            i > 0 ==> records@[i - 1].spec_offset() + records@[i - 1].len == cur_off as int,
            forall|k: int| i <= k < 10 ==> (#[trigger] records@[k]).is_placeholder(),
        decreases count - i,
    {
        let ghost cur: int = cur_off as int;
        let ghost rel: int = cur - start;
        proof {
            assert(data@.skip(start).skip(rel) =~= data@.skip(cur));
        }

        let len = match resource_record_wire_length_at(data, cur_off) {
            Ok(l) => l,
            Err(e) => {
                proof {
                    assert(section_scan(data@, cur, (count - i) as nat) == Err::<int, Error>(
                        Error::InsufficientData,
                    ));
                }
                return Err(e);
            },
        };
        proof {
            wire::lemma_record_decode_bounds(data@.skip(cur), data@, cur);
            wire::lemma_name_decode_bounds(data@, cur);
        }
        let name = match NameRef::from_buf(data, cur_off) {
            Ok(nm) => nm,
            Err(e) => {
                proof {
                    assert(wire::name_decode(data@, cur) is Some);
                    crate::refs::lemma_name_offsets_decode(data@, cur);
                    assert(e == Error::InvalidDomainName);
                    assert(wire::name_decode(data@, cur)->Some_0.0.len() > 10);
                    assert(section_scan(data@, cur, (count - i) as nat) == Err::<int, Error>(
                        Error::InvalidDomainName,
                    ));
                }
                return Err(e);
            },
        };
        proof {
            crate::refs::lemma_name_offsets_decode(data@, cur);
        }

        let entry = ResourceRecordRef::new(name, len as MsgOffset);
        records[i as usize] = entry;
        cur_off = cur_off.saturating_add(len as MsgOffset);

        proof {
            reveal(crate::refs::name_ref_wf);
            let r_m = wire::record_decode(data@.skip(cur), data@, cur)->Some_0.0;
            let ghost prefix = done_models;
            done_models = done_models.push(r_m);
            assert(crate::refs::name_offsets(data@, cur)[0] == cur);
            assert(wire::name_decode(data@, cur)->Some_0.0.len() <= 10);
            assert(entry.spec_offset() == cur) by {
                assert(name.elements@[0] == crate::refs::elem_ref_at(
                    data@,
                    crate::refs::name_offsets(data@, cur)[0],
                ));
            }
            if wire::records_decode(data@.skip(start), data@, start, cur + len - start, (count - i
                - 1) as nat) is Some {
                let rest = wire::records_decode(
                    data@.skip(start),
                    data@,
                    start,
                    cur + len - start,
                    (count - i - 1) as nat,
                )->Some_0;
                assert(prefix + (seq![r_m] + rest.0) =~= done_models + rest.0);
            }
            assert(records@[i as int] == entry);
            assert(crate::refs::name_ref_wf(entry.name, data@, cur));
        }
        i = i + 1;
    }

    proof {
        assert(done_models + Seq::<wire::RecordModel>::empty() =~= done_models);
    }
    *offset = cur_off;
    Ok(ResourceRecordSectionRef::new(records, cur_off, count as u8))
}

/// Decode a message into offset-based references: the buffer is scanned
/// once, recording only each entry's start offset and total wire length
/// in fixed-capacity sections — at most 5 questions, 10 records per
/// section, and 10 elements per record name. Exceeding a capacity fails
/// with `InvalidDomainName`, never silent truncation; a read past the
/// buffer fails with `InsufficientData`.
#[verifier::rlimit(100)]
pub fn decode_message_ref(data: &[u8]) -> (r: Result<MessageRef, Error>)
    requires
        data@.len() <= 0xFFFF,
    ensures
        r is Ok <==> message_ref_scan(data@) is Ok,
        r matches Err(e) ==> message_ref_scan(data@) == Err::<int, Error>(e),
        r matches Ok(mref) ==> mref.wf(data@),
{
    let ghost h = wire::header_of_bytes(data@);
    let header_ref = HeaderRef;
    let header = match header_ref.decode_header(data) {
        Ok(hd) => hd,
        Err(e) => {
            return Err(e);
        },
    };

    let qd_count = header.qd_count;
    let an_count = header.an_count;
    let ns_count = header.ns_count;
    let ar_count = header.ar_count;

    if qd_count > 5 {
        return Err(Error::InvalidDomainName);
    }

    let mut questions: [QuestionRef; 5] = [QuestionRef::new(0, 0);5];
    let mut offset: MsgOffset = 12;
    let ghost mut done_q: Seq<wire::QuestionModel> = Seq::empty();
    proof {
        assert(done_q + wire::questions_decode(
            data@.skip(12),
            data@,
            12,
            0,
            qd_count as nat,
        )->Some_0.0 =~= wire::questions_decode(data@.skip(12), data@, 12, 0, qd_count as nat)->Some_0.0);
    }

    let mut i: u16 = 0;
    while i < qd_count
        invariant
            data@.len() <= 0xFFFF,
            data@.len() >= 12,
            h == wire::header_of_bytes(data@),
            qd_count == h.qd_count,
            qd_count <= 5,
            i <= qd_count,
            12 <= offset as int <= data@.len(),
            i == done_q.len(),
            (match wire::questions_decode(
                data@.skip(12),
                data@,
                12,
                offset as int - 12,
                (qd_count - i) as nat,
            ) {
                Some(rest) => wire::questions_decode(data@.skip(12), data@, 12, 0, qd_count as nat)
                    == Some((done_q + rest.0, rest.1)),
                None => wire::questions_decode(
                    data@.skip(12),
                    data@,
                    12,
                    0,
                    qd_count as nat,
                ) is None,
            }),
            forall|k: int|
                0 <= k < i ==> wire::question_decode(
                    data@.skip((#[trigger] questions@[k]).offset as int),
                    data@,
                    questions@[k].offset as int,
                    0,
                ) == Some((done_q[k], questions@[k].len as int)),
            i == 0 ==> offset == 12,
            i > 0 ==> questions@[0].offset == 12,
            i > 0 ==> questions@[i - 1].offset + questions@[i - 1].len == offset as int,
            forall|k: int|
                1 <= k < i ==> (#[trigger] questions@[k]).offset == questions@[k - 1].offset
                    + questions@[k - 1].len,
            forall|k: int|
                i <= k < 5 ==> (#[trigger] questions@[k]) == (QuestionRef { offset: 0, len: 0 }),
        decreases qd_count - i,
    {
        let ghost cur: int = offset as int;
        let ghost rel: int = cur - 12;
        proof {
            lemma_question_shift(data@, 12, rel);
        }
        let len = match question_wire_length_at(data, offset) {
            Ok(l) => l,
            Err(e) => {
                return Err(e);
            },
        };
        proof {
            wire::lemma_question_decode_bounds(data@.skip(cur), data@, cur, 0);
        }
        questions[i as usize] = QuestionRef::new(offset, len as MsgOffset);
        offset = offset.saturating_add(len as MsgOffset);
        proof {
            let q_m = wire::question_decode(data@.skip(cur), data@, cur, 0)->Some_0.0;
            let ghost prefix = done_q;
            done_q = done_q.push(q_m);
            if wire::questions_decode(data@.skip(12), data@, 12, rel + len, (qd_count - i
                - 1) as nat) is Some {
                let rest = wire::questions_decode(
                    data@.skip(12),
                    data@,
                    12,
                    rel + len,
                    (qd_count - i - 1) as nat,
                )->Some_0;
                assert(prefix + (seq![q_m] + rest.0) =~= done_q + rest.0);
            }
        }
        i = i + 1;
    }
    proof {
        assert(done_q + Seq::<wire::QuestionModel>::empty() =~= done_q);
    }
    let question = QuestionSectionRef::new(questions, offset, qd_count as u8);
    proof {
        assert(crate::refs::question_section_wf(question, data@));
    }

    let ghost a_start: int = offset as int;
    let answer = match fill_resource_record_section(data, &mut offset, an_count, 10) {
        Ok(sec) => sec,
        Err(e) => {
            return Err(e);
        },
    };
    let ghost u_start: int = offset as int;
    let authority = match fill_resource_record_section(data, &mut offset, ns_count, 10) {
        Ok(sec) => sec,
        Err(e) => {
            return Err(e);
        },
    };
    let ghost d_start: int = offset as int;
    let additional = match fill_resource_record_section(data, &mut offset, ar_count, 10) {
        Ok(sec) => sec,
        Err(e) => {
            return Err(e);
        },
    };

    proof {
        assert(record_section_wf(answer, data@, question.end_offset as int, h.an_count));
        assert(record_section_wf(authority, data@, answer.end_offset as int, h.ns_count));
        assert(record_section_wf(additional, data@, authority.end_offset as int, h.ar_count));
    }
    Ok(MessageRef { header: header_ref, question, answer, authority, additional })
}

} // verus!
