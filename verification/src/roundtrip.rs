use vstd::prelude::*;

use crate::wire::{
    be16, bytes_be16, bytes_be32, elem_bytes, header_bytes, header_of_bytes,
    lemma_be16_bytes, lemma_be16_split, lemma_be32_bytes, lemma_be32_split,
    lemma_flags_of_word_roundtrip, lemma_flags_word_roundtrip, message_bytes, message_decode,
    name_bytes, name_decode, name_has_reserved, question_bytes, question_decode, questions_bytes,
    questions_decode, record_bytes, record_decode, records_bytes, records_decode, MessageModel,
    NameElemModel, QuestionModel, RecordModel,
};

verus! {

// ---------------------------------------------------------------------------
// Decoding what was encoded
// ---------------------------------------------------------------------------

/// A name in the form the encoder emits and the decoder can read back:
/// well-formed labels followed by exactly one terminator, a root or a
/// pointer.
pub open spec fn name_sendable(es: Seq<NameElemModel>) -> bool {
    &&& es.len() >= 1
    &&& (es.last() is Root || es.last() is Pointer)
    &&& forall|i: int| 0 <= i < es.len() - 1 ==> (#[trigger] es[i]) is Label
    &&& forall|i: int| 0 <= i < es.len() ==> (#[trigger] es[i]).wf()
}

/// A question whose name the decoder can read back.
pub open spec fn question_sendable(q: QuestionModel) -> bool {
    name_sendable(q.name)
}

/// A record whose name the decoder can read back and whose RDLENGTH
/// counts its RDATA bytes exactly.
pub open spec fn record_sendable(r: RecordModel) -> bool {
    name_sendable(r.name) && r.rr_rd_length == r.rr_data.len()
}

/// A message the decoder can read back: every entry is sendable, the
/// header's flags fit their bit widths, and the header counts equal the
/// section lengths.
pub open spec fn message_sendable(m: MessageModel) -> bool {
    &&& forall|i: int| 0 <= i < m.question.len() ==> question_sendable(#[trigger] m.question[i])
    &&& forall|i: int| 0 <= i < m.answer.len() ==> record_sendable(#[trigger] m.answer[i])
    &&& forall|i: int| 0 <= i < m.authority.len() ==> record_sendable(#[trigger] m.authority[i])
    &&& forall|i: int| 0 <= i < m.additional.len() ==> record_sendable(#[trigger] m.additional[i])
    &&& m.header.flags.wf()
    &&& m.header.qd_count == m.question.len()
    &&& m.header.an_count == m.answer.len()
    &&& m.header.ns_count == m.authority.len()
    &&& m.header.ar_count == m.additional.len()
}

/// Wherever a sendable name's bytes sit in a buffer, decoding at that
/// offset yields exactly that name and stops exactly at its end.
pub proof fn lemma_name_bytes_decode(msg: Seq<u8>, pos: int, es: Seq<NameElemModel>)
    requires
        name_sendable(es),
        0 <= pos,
        pos + name_bytes(es).len() <= msg.len(),
        msg.subrange(pos, pos + name_bytes(es).len()) == name_bytes(es),
    ensures
        name_decode(msg, pos) == Option::Some((es, pos + name_bytes(es).len())),
    decreases es.len(),
{
    let nb = name_bytes(es);
    let e0 = es[0];
    assert(nb == elem_bytes(e0) + name_bytes(es.drop_first()));
    if es.len() == 1 {
        assert(name_bytes(es.drop_first()) =~= Seq::<u8>::empty()) by {
            assert(es.drop_first() =~= Seq::<NameElemModel>::empty());
        }
        assert(nb =~= elem_bytes(e0));
        match e0 {
            NameElemModel::Root => {
                assert(msg[pos] == nb[0]);
                assert(msg[pos] == 0);
                assert(seq![NameElemModel::Root] =~= es);
            },
            NameElemModel::Pointer(p) => {
                let b0 = (192 + p / 256) as u8;
                let b1 = (p % 256) as u8;
                assert(p < 16384);
                assert(p / 256 < 64 && p / 256 * 256 + p % 256 == p) by (nonlinear_arith)
                    requires
                        p < 16384,
                ;
                assert(msg[pos] == b0 && msg[pos + 1] == b1);
                assert(b0 >= 192);
                assert(b0 % 64 == p / 256) by (nonlinear_arith)
                    requires
                        b0 == 192 + p / 256,
                        p / 256 < 64,
                ;
                assert(crate::wire::ptr_value(b0, b1) == p);
                assert(seq![NameElemModel::Pointer(p)] =~= es);
            },
            NameElemModel::Label(_) => {
                assert(false);
            },
            NameElemModel::Reserved => {
                assert(false);
            },
        }
    } else {
        let d = e0->Label_0;
        assert(e0 is Label);
        assert(e0.wf());
        let dlen = d.len() as int;
        assert(elem_bytes(e0) == seq![d.len() as u8] + d);
        assert(msg[pos] == nb[0]);
        assert(nb[0] == d.len() as u8);
        assert(1 <= msg[pos] <= 63);
        assert(msg.subrange(pos + 1, pos + 1 + dlen) =~= d) by {
            assert(forall|k: int|
                0 <= k < dlen ==> msg[pos + 1 + k] == nb[1 + k] && nb[1 + k] == d[k]);
        }
        let rest = es.drop_first();
        let rb = name_bytes(rest);
        assert(name_sendable(rest)) by {
            assert(rest.last() == es.last());
            assert(forall|i: int| 0 <= i < rest.len() - 1 ==> (#[trigger] rest[i]) is Label);
            assert(forall|i: int| 0 <= i < rest.len() ==> (#[trigger] rest[i]).wf());
        }
        assert(msg.subrange(pos + 1 + dlen, pos + 1 + dlen + rb.len()) =~= rb) by {
            assert(forall|k: int|
                0 <= k < rb.len() ==> msg[pos + 1 + dlen + k] == nb[1 + dlen + k] && nb[1 + dlen
                    + k] == rb[k]);
        }
        lemma_name_bytes_decode(msg, pos + 1 + dlen, rest);
        assert(seq![NameElemModel::Label(msg.subrange(pos + 1, pos + 1 + dlen))] + rest =~= es);
    }
}

/// Wherever a sendable question's bytes sit in a buffer, decoding at that
/// offset yields exactly that question.
pub proof fn lemma_question_bytes_decode(msg: Seq<u8>, moff: int, off: int, q: QuestionModel)
    requires
        question_sendable(q),
        moff >= 0,
        off >= 0,
        moff + off + question_bytes(q).len() <= msg.len(),
        msg.subrange(moff + off, moff + off + question_bytes(q).len()) == question_bytes(q),
    ensures
        question_decode(msg.skip(moff), msg, moff, off) == Option::Some(
            (q, off + question_bytes(q).len()),
        ),
{
    let qb = question_bytes(q);
    let nb = name_bytes(q.name);
    let pos = moff + off;
    assert(msg.subrange(pos, pos + nb.len()) =~= nb) by {
        assert(forall|k: int| 0 <= k < nb.len() ==> msg[pos + k] == qb[k] && qb[k] == nb[k]);
    }
    lemma_name_bytes_decode(msg, pos, q.name);
    let noff = off + nb.len();
    let data = msg.skip(moff);
    assert(data[noff] == qb[nb.len() as int]);
    assert(data[noff + 1] == qb[nb.len() as int + 1]);
    assert(data[noff + 2] == qb[nb.len() as int + 2]);
    assert(data[noff + 3] == qb[nb.len() as int + 3]);
    lemma_be16_split(q.q_type);
    lemma_be16_split(q.q_class);
    assert(question_decode(data, msg, moff, off)->Some_0.0 == q);
}

/// Wherever a sendable question sequence's bytes sit in a buffer, decoding
/// them in order yields exactly that sequence.
pub proof fn lemma_questions_bytes_decode(msg: Seq<u8>, moff: int, off: int, qs: Seq<QuestionModel>)
    requires
        forall|i: int| 0 <= i < qs.len() ==> question_sendable(#[trigger] qs[i]),
        moff >= 0,
        off >= 0,
        moff + off + questions_bytes(qs).len() <= msg.len(),
        msg.subrange(moff + off, moff + off + questions_bytes(qs).len()) == questions_bytes(qs),
    ensures
        questions_decode(msg.skip(moff), msg, moff, off, qs.len() as nat) == Option::Some(
            (qs, off + questions_bytes(qs).len()),
        ),
    decreases qs.len(),
{
    let qsb = questions_bytes(qs);
    if qs.len() == 0 {
        assert(Seq::<QuestionModel>::empty() =~= qs);
    } else {
        let q0 = qs[0];
        let qb = question_bytes(q0);
        let rest = qs.drop_first();
        let rb = questions_bytes(rest);
        assert(qsb == qb + rb);
        let pos = moff + off;
        assert(msg.subrange(pos, pos + qb.len()) =~= qb) by {
            assert(forall|k: int| 0 <= k < qb.len() ==> msg[pos + k] == qsb[k] && qsb[k] == qb[k]);
        }
        lemma_question_bytes_decode(msg, moff, off, q0);
        let off2 = off + qb.len();
        assert(msg.subrange(moff + off2, moff + off2 + rb.len()) =~= rb) by {
            assert(forall|k: int|
                0 <= k < rb.len() ==> msg[moff + off2 + k] == qsb[qb.len() + k] && qsb[qb.len() + k]
                    == rb[k]);
        }
        lemma_questions_bytes_decode(msg, moff, off2, rest);
        assert(seq![q0] + rest =~= qs);
    }
}

/// Wherever a sendable record's bytes sit in a buffer, decoding at that
/// offset yields exactly that record.
pub proof fn lemma_record_bytes_decode(msg: Seq<u8>, a: int, r: RecordModel)
    requires
        record_sendable(r),
        a >= 0,
        a + record_bytes(r).len() <= msg.len(),
        msg.subrange(a, a + record_bytes(r).len()) == record_bytes(r),
    ensures
        record_decode(msg.skip(a), msg, a) == Option::Some((r, record_bytes(r).len() as int)),
{
    let rb = record_bytes(r);
    let nb = name_bytes(r.name);
    assert(msg.subrange(a, a + nb.len()) =~= nb) by {
        assert(forall|k: int| 0 <= k < nb.len() ==> msg[a + k] == rb[k] && rb[k] == nb[k]);
    }
    lemma_name_bytes_decode(msg, a, r.name);
    let noff = nb.len() as int;
    let data = msg.skip(a);
    assert(data[noff] == rb[nb.len() as int]);
    assert(data[noff + 1] == rb[nb.len() as int + 1]);
    assert(data[noff + 2] == rb[nb.len() as int + 2]);
    assert(data[noff + 3] == rb[nb.len() as int + 3]);
    assert(data[noff + 4] == rb[nb.len() as int + 4]);
    assert(data[noff + 5] == rb[nb.len() as int + 5]);
    assert(data[noff + 6] == rb[nb.len() as int + 6]);
    assert(data[noff + 7] == rb[nb.len() as int + 7]);
    assert(data[noff + 8] == rb[nb.len() as int + 8]);
    assert(data[noff + 9] == rb[nb.len() as int + 9]);
    lemma_be16_split(r.rr_type);
    lemma_be16_split(r.rr_class);
    lemma_be32_split(r.rr_ttl);
    lemma_be16_split(r.rr_rd_length);
    let rdlen = be16(data[noff + 8], data[noff + 9]);
    assert(rdlen == r.rr_rd_length);
    assert(data.subrange(noff + 10, noff + 10 + rdlen) =~= r.rr_data) by {
        assert(forall|k: int|
            0 <= k < r.rr_data.len() ==> data[noff + 10 + k] == rb[nb.len() + 10 + k] && rb[nb.len()
                + 10 + k] == r.rr_data[k]);
    }
    assert(record_decode(data, msg, a)->Some_0.0 == r);
}

/// Wherever a sendable record sequence's bytes sit in a buffer, decoding
/// them in order yields exactly that sequence.
pub proof fn lemma_records_bytes_decode(msg: Seq<u8>, moff: int, off: int, rs: Seq<RecordModel>)
    requires
        forall|i: int| 0 <= i < rs.len() ==> record_sendable(#[trigger] rs[i]),
        moff >= 0,
        off >= 0,
        moff + off + records_bytes(rs).len() <= msg.len(),
        msg.subrange(moff + off, moff + off + records_bytes(rs).len()) == records_bytes(rs),
    ensures
        records_decode(msg.skip(moff), msg, moff, off, rs.len() as nat) == Option::Some(
            (rs, off + records_bytes(rs).len()),
        ),
    decreases rs.len(),
{
    let rsb = records_bytes(rs);
    if rs.len() == 0 {
        assert(Seq::<RecordModel>::empty() =~= rs);
    } else {
        let r0 = rs[0];
        let rb = record_bytes(r0);
        let rest = rs.drop_first();
        let rstb = records_bytes(rest);
        assert(rsb == rb + rstb);
        let pos = moff + off;
        assert(msg.subrange(pos, pos + rb.len()) =~= rb) by {
            assert(forall|k: int| 0 <= k < rb.len() ==> msg[pos + k] == rsb[k] && rsb[k] == rb[k]);
        }
        assert(msg.skip(moff).skip(off) =~= msg.skip(pos));
        lemma_record_bytes_decode(msg, pos, r0);
        let off2 = off + rb.len();
        assert(msg.subrange(moff + off2, moff + off2 + rstb.len()) =~= rstb) by {
            assert(forall|k: int|
                0 <= k < rstb.len() ==> msg[moff + off2 + k] == rsb[rb.len() + k] && rsb[rb.len()
                    + k] == rstb[k]);
        }
        lemma_records_bytes_decode(msg, moff, off2, rest);
        assert(seq![r0] + rest =~= rs);
    }
}

/// Round trip, decode after encode: a sendable message's wire bytes decode
/// back to exactly that message, consuming the whole buffer.
#[verifier::rlimit(100)]
pub proof fn lemma_message_bytes_decode(m: MessageModel)
    ensures
        message_sendable(m) ==> message_decode(message_bytes(m)) == Option::Some(
            (m, message_bytes(m).len() as int),
        ),
{
    if message_sendable(m) {
        let mb = message_bytes(m);
        let hb = header_bytes(m.header);
        let qsb = questions_bytes(m.question);
        let ab = records_bytes(m.answer);
        let ub = records_bytes(m.authority);
        let db = records_bytes(m.additional);
        assert(mb == hb + qsb + ab + ub + db);
        assert(hb.len() == 12);

        lemma_be16_split(m.header.id);
        lemma_be16_split(m.header.qd_count);
        lemma_be16_split(m.header.an_count);
        lemma_be16_split(m.header.ns_count);
        lemma_be16_split(m.header.ar_count);
        lemma_be16_split(crate::wire::flags_word(m.header.flags) as u16);
        lemma_flags_of_word_roundtrip(m.header.flags);
        assert(forall|k: int| 0 <= k < 12 ==> mb[k] == hb[k]);
        assert(header_of_bytes(mb) == m.header);

        let q_off = 12;
        assert(mb.subrange(q_off, q_off + qsb.len()) =~= qsb) by {
            assert(forall|k: int|
                0 <= k < qsb.len() ==> mb[q_off + k] == (hb + qsb + ab + ub + db)[12 + k] && (hb
                    + qsb + ab + ub + db)[12 + k] == qsb[k]);
        }
        lemma_questions_bytes_decode(mb, q_off, 0, m.question);

        let a_off = q_off + qsb.len();
        assert(mb.subrange(a_off, a_off + ab.len()) =~= ab) by {
            assert(forall|k: int|
                0 <= k < ab.len() ==> mb[a_off + k] == (hb + qsb + ab + ub + db)[12 + qsb.len()
                    + k] && (hb + qsb + ab + ub + db)[12 + qsb.len() + k] == ab[k]);
        }
        lemma_records_bytes_decode(mb, a_off, 0, m.answer);

        let u_off = a_off + ab.len();
        assert(mb.subrange(u_off, u_off + ub.len()) =~= ub) by {
            assert(forall|k: int|
                0 <= k < ub.len() ==> mb[u_off + k] == (hb + qsb + ab + ub + db)[12 + qsb.len()
                    + ab.len() + k] && (hb + qsb + ab + ub + db)[12 + qsb.len() + ab.len() + k]
                    == ub[k]);
        }
        lemma_records_bytes_decode(mb, u_off, 0, m.authority);

        let d_off = u_off + ub.len();
        assert(mb.subrange(d_off, d_off + db.len()) =~= db) by {
            assert(forall|k: int|
                0 <= k < db.len() ==> mb[d_off + k] == (hb + qsb + ab + ub + db)[12 + qsb.len()
                    + ab.len() + ub.len() + k] && (hb + qsb + ab + ub + db)[12 + qsb.len()
                    + ab.len() + ub.len() + k] == db[k]);
        }
        lemma_records_bytes_decode(mb, d_off, 0, m.additional);

        assert(message_decode(mb)->Some_0.0 == m);
        assert(message_decode(mb)->Some_0.1 == d_off + db.len());
    }
}

// ---------------------------------------------------------------------------
// Encoding what was decoded
// ---------------------------------------------------------------------------

/// A decoded name that holds no reserved element re-encodes to exactly the
/// bytes it was decoded from.
pub proof fn lemma_name_decode_encodes(data: Seq<u8>, pos: int)
    requires
        name_decode(data, pos) is Some,
        !name_has_reserved(name_decode(data, pos)->Some_0.0),
    ensures
        name_bytes(name_decode(data, pos)->Some_0.0) == data.subrange(
            pos,
            name_decode(data, pos)->Some_0.1,
        ),
    decreases data.len() - pos,
{
    let (es, end) = name_decode(data, pos)->Some_0;
    crate::wire::lemma_name_decode_bounds(data, pos);
    let b = data[pos];
    if b == 0 {
        assert(name_bytes(es) =~= data.subrange(pos, end)) by {
            reveal_with_fuel(name_bytes, 2);
            assert(es == seq![NameElemModel::Root]);
            assert(es.drop_first() =~= Seq::<NameElemModel>::empty());
        }
    } else if b >= 192 {
        let b1 = data[pos + 1];
        let p = crate::wire::ptr_value(b, b1) as u16;
        assert(p == (b % 64) * 256 + b1);
        assert(192 + ((b % 64) as u16 * 256 + b1 as u16) / 256 == b && ((b % 64) as u16 * 256
            + b1 as u16) % 256 == b1 && ((b % 64) as u16 * 256 + b1 as u16) < 16384) by (bit_vector)
            requires
                b >= 192,
        ;
        assert(elem_bytes(NameElemModel::Pointer(p)) =~= seq![b, b1]);
        assert(name_bytes(es) =~= data.subrange(pos, end)) by {
            reveal_with_fuel(name_bytes, 2);
            assert(es == seq![NameElemModel::Pointer(p)]);
            assert(es.drop_first() =~= Seq::<NameElemModel>::empty());
        }
    } else if b >= 64 {
        assert(es[0] is Reserved);
        assert(name_has_reserved(es));
    } else {
        let d = data.subrange(pos + 1, pos + 1 + b);
        let rest_r = name_decode(data, pos + 1 + b)->Some_0;
        assert(es == seq![NameElemModel::Label(d)] + rest_r.0);
        assert(!name_has_reserved(rest_r.0)) by {
            if name_has_reserved(rest_r.0) {
                let i = choose|i: int| 0 <= i < rest_r.0.len() && rest_r.0[i] is Reserved;
                assert(es[i + 1] is Reserved);
            }
        }
        lemma_name_decode_encodes(data, pos + 1 + b);
        crate::wire::lemma_name_decode_bounds(data, pos + 1 + b);
        assert(es.drop_first() =~= rest_r.0);
        assert(name_bytes(es) == elem_bytes(es[0]) + name_bytes(rest_r.0));
        assert(elem_bytes(es[0]) =~= data.subrange(pos, pos + 1 + b));
        assert(data.subrange(pos, end) =~= data.subrange(pos, pos + 1 + b) + data.subrange(
            pos + 1 + b,
            end,
        ));
        assert(name_bytes(es) == data.subrange(pos, end));
    }
}

/// A decoded question whose name holds no reserved element re-encodes to
/// exactly the bytes it was decoded from.
pub proof fn lemma_question_decode_encodes(msg: Seq<u8>, moff: int, off: int)
    requires
        moff >= 0,
        off >= 0,
        question_decode(msg.skip(moff), msg, moff, off) is Some,
        !name_has_reserved(question_decode(msg.skip(moff), msg, moff, off)->Some_0.0.name),
    ensures
        question_bytes(question_decode(msg.skip(moff), msg, moff, off)->Some_0.0) == msg.subrange(
            moff + off,
            moff + question_decode(msg.skip(moff), msg, moff, off)->Some_0.1,
        ),
{
    let data = msg.skip(moff);
    let (q, end) = question_decode(data, msg, moff, off)->Some_0;
    let (es, nend) = name_decode(msg, moff + off)->Some_0;
    crate::wire::lemma_name_decode_bounds(msg, moff + off);
    lemma_name_decode_encodes(msg, moff + off);
    let noff = nend - moff;
    lemma_be16_bytes(data[noff], data[noff + 1]);
    lemma_be16_bytes(data[noff + 2], data[noff + 3]);
    assert(question_bytes(q) =~= msg.subrange(moff + off, moff + end)) by {
        assert(name_bytes(es) == msg.subrange(moff + off, nend));
        assert(bytes_be16(q.q_type) =~= seq![msg[nend], msg[nend + 1]]);
        assert(bytes_be16(q.q_class) =~= seq![msg[nend + 2], msg[nend + 3]]);
    }
}

/// A decoded question sequence with no reserved elements re-encodes to
/// exactly the bytes it was decoded from.
pub proof fn lemma_questions_decode_encodes(msg: Seq<u8>, moff: int, off: int, n: nat)
    requires
        moff >= 0,
        0 <= off <= msg.len() - moff,
        questions_decode(msg.skip(moff), msg, moff, off, n) is Some,
        !crate::wire::questions_have_reserved(
            questions_decode(msg.skip(moff), msg, moff, off, n)->Some_0.0,
        ),
    ensures
        questions_bytes(questions_decode(msg.skip(moff), msg, moff, off, n)->Some_0.0)
            == msg.subrange(
            moff + off,
            moff + questions_decode(msg.skip(moff), msg, moff, off, n)->Some_0.1,
        ),
    decreases n,
{
    let data = msg.skip(moff);
    let (qs, fin) = questions_decode(data, msg, moff, off, n)->Some_0;
    crate::wire::lemma_questions_decode_bounds(data, msg, moff, off, n);
    if n == 0 {
        assert(questions_bytes(qs) =~= msg.subrange(moff + off, moff + off));
    } else {
        let (q0, end0) = question_decode(data, msg, moff, off)->Some_0;
        let rest = questions_decode(data, msg, moff, end0, (n - 1) as nat)->Some_0;
        assert(qs == seq![q0] + rest.0);
        assert(qs[0] == q0);
        assert(!name_has_reserved(q0.name)) by {
            if name_has_reserved(q0.name) {
                assert(crate::wire::questions_have_reserved(qs));
            }
        }
        assert(!crate::wire::questions_have_reserved(rest.0)) by {
            if crate::wire::questions_have_reserved(rest.0) {
                let i = choose|i: int|
                    0 <= i < rest.0.len() && name_has_reserved(rest.0[i].name);
                assert(qs[i + 1] == rest.0[i]);
                assert(crate::wire::questions_have_reserved(qs));
            }
        }
        lemma_question_decode_encodes(msg, moff, off);
        crate::wire::lemma_question_decode_bounds(data, msg, moff, off);
        crate::wire::lemma_questions_decode_bounds(data, msg, moff, end0, (n - 1) as nat);
        lemma_questions_decode_encodes(msg, moff, end0, (n - 1) as nat);
        assert(qs.drop_first() =~= rest.0);
        assert(questions_bytes(qs) == question_bytes(q0) + questions_bytes(rest.0));
        assert(msg.subrange(moff + off, moff + fin) =~= msg.subrange(moff + off, moff + end0)
            + msg.subrange(moff + end0, moff + fin));
        assert(questions_bytes(qs) == msg.subrange(moff + off, moff + fin));
    }
}

/// A decoded record whose name holds no reserved element re-encodes to
/// exactly the bytes it was decoded from.
pub proof fn lemma_record_decode_encodes(msg: Seq<u8>, a: int)
    requires
        a >= 0,
        record_decode(msg.skip(a), msg, a) is Some,
        !name_has_reserved(record_decode(msg.skip(a), msg, a)->Some_0.0.name),
    ensures
        record_bytes(record_decode(msg.skip(a), msg, a)->Some_0.0) == msg.subrange(
            a,
            a + record_decode(msg.skip(a), msg, a)->Some_0.1,
        ),
{
    let data = msg.skip(a);
    let (r, end) = record_decode(data, msg, a)->Some_0;
    let (es, nend) = name_decode(msg, a)->Some_0;
    crate::wire::lemma_name_decode_bounds(msg, a);
    lemma_name_decode_encodes(msg, a);
    let noff = nend - a;
    lemma_be16_bytes(data[noff], data[noff + 1]);
    lemma_be16_bytes(data[noff + 2], data[noff + 3]);
    lemma_be32_bytes(data[noff + 4], data[noff + 5], data[noff + 6], data[noff + 7]);
    lemma_be16_bytes(data[noff + 8], data[noff + 9]);
    assert(record_bytes(r) =~= msg.subrange(a, a + end)) by {
        assert(name_bytes(es) == msg.subrange(a, nend));
        assert(bytes_be16(r.rr_type) =~= seq![msg[nend], msg[nend + 1]]);
        assert(bytes_be16(r.rr_class) =~= seq![msg[nend + 2], msg[nend + 3]]);
        assert(bytes_be32(r.rr_ttl) =~= seq![msg[nend + 4], msg[nend + 5], msg[nend + 6], msg[nend
            + 7]]);
        assert(bytes_be16(r.rr_rd_length) =~= seq![msg[nend + 8], msg[nend + 9]]);
        assert(forall|k: int|
            0 <= k < r.rr_data.len() ==> #[trigger] r.rr_data[k] == msg[nend + 10 + k]);
    }
}

/// A decoded record sequence with no reserved elements re-encodes to
/// exactly the bytes it was decoded from.
#[verifier::rlimit(60)]
pub proof fn lemma_records_decode_encodes(msg: Seq<u8>, moff: int, off: int, n: nat)
    requires
        moff >= 0,
        0 <= off <= msg.len() - moff,
        records_decode(msg.skip(moff), msg, moff, off, n) is Some,
        !crate::wire::records_have_reserved(
            records_decode(msg.skip(moff), msg, moff, off, n)->Some_0.0,
        ),
    ensures
        records_bytes(records_decode(msg.skip(moff), msg, moff, off, n)->Some_0.0) == msg.subrange(
            moff + off,
            moff + records_decode(msg.skip(moff), msg, moff, off, n)->Some_0.1,
        ),
    decreases n,
{
    let data = msg.skip(moff);
    let (rs, fin) = records_decode(data, msg, moff, off, n)->Some_0;
    crate::wire::lemma_records_decode_bounds(data, msg, moff, off, n);
    if n == 0 {
        assert(records_bytes(rs) =~= msg.subrange(moff + off, moff + off));
    } else {
        assert(data.skip(off) =~= msg.skip(moff + off));
        let (r0, end0) = record_decode(data.skip(off), msg, moff + off)->Some_0;
        let rest = records_decode(data, msg, moff, off + end0, (n - 1) as nat)->Some_0;
        assert(rs == seq![r0] + rest.0);
        assert(rs[0] == r0);
        assert(!name_has_reserved(r0.name)) by {
            if name_has_reserved(r0.name) {
                assert(crate::wire::records_have_reserved(rs));
            }
        }
        assert(!crate::wire::records_have_reserved(rest.0)) by {
            if crate::wire::records_have_reserved(rest.0) {
                let i = choose|i: int|
                    0 <= i < rest.0.len() && name_has_reserved(rest.0[i].name);
                assert(rs[i + 1] == rest.0[i]);
                assert(crate::wire::records_have_reserved(rs));
            }
        }
        lemma_record_decode_encodes(msg, moff + off);
        crate::wire::lemma_record_decode_bounds(data.skip(off), msg, moff + off);
        crate::wire::lemma_records_decode_bounds(data, msg, moff, off + end0, (n - 1) as nat);
        lemma_records_decode_encodes(msg, moff, off + end0, (n - 1) as nat);
        assert(rs.drop_first() =~= rest.0);
        assert(records_bytes(rs) == record_bytes(r0) + records_bytes(rest.0));
        assert(msg.subrange(moff + off, moff + fin) =~= msg.subrange(moff + off, moff + off + end0)
            + msg.subrange(moff + off + end0, moff + fin));
        assert(records_bytes(rs) == msg.subrange(moff + off, moff + fin));
    }
}

/// A decoded header re-encodes to exactly the 12 bytes it was decoded
/// from.
pub proof fn lemma_header_decode_encodes(data: Seq<u8>)
    requires
        data.len() >= 12,
    ensures
        header_bytes(header_of_bytes(data)) == data.subrange(0, 12),
{
    let h = header_of_bytes(data);
    lemma_be16_bytes(data[0], data[1]);
    lemma_be16_bytes(data[4], data[5]);
    lemma_be16_bytes(data[6], data[7]);
    lemma_be16_bytes(data[8], data[9]);
    lemma_be16_bytes(data[10], data[11]);
    let w = be16(data[2], data[3]);
    crate::wire::lemma_flags_word_roundtrip(w as u16);
    lemma_be16_bytes(data[2], data[3]);
    assert(header_bytes(h) =~= data.subrange(0, 12)) by {
        assert(bytes_be16(h.id) =~= seq![data[0], data[1]]);
        assert(crate::wire::flags_word(h.flags) == w);
        assert(bytes_be16(crate::wire::flags_word(h.flags) as u16) =~= seq![data[2], data[3]]);
        assert(bytes_be16(h.qd_count) =~= seq![data[4], data[5]]);
        assert(bytes_be16(h.an_count) =~= seq![data[6], data[7]]);
        assert(bytes_be16(h.ns_count) =~= seq![data[8], data[9]]);
        assert(bytes_be16(h.ar_count) =~= seq![data[10], data[11]]);
    }
}

/// Round trip, encode after decode: a buffer that decodes to a message
/// holding no reserved element, with no bytes left over, is exactly that
/// message's wire bytes.
#[verifier::rlimit(100)]
pub proof fn lemma_message_decode_encodes(data: Seq<u8>)
    requires
        message_decode(data) is Some,
        !crate::wire::message_has_reserved(message_decode(data)->Some_0.0),
        message_decode(data)->Some_0.1 == data.len(),
    ensures
        message_bytes(message_decode(data)->Some_0.0) == data,
{
    let (m, end) = message_decode(data)->Some_0;
    let h = header_of_bytes(data);
    let qr = questions_decode(data.skip(12), data, 12, 0, h.qd_count as nat)->Some_0;
    let a_off = 12 + qr.1;
    let ar = records_decode(data.skip(a_off), data, a_off, 0, h.an_count as nat)->Some_0;
    let u_off = a_off + ar.1;
    let ur = records_decode(data.skip(u_off), data, u_off, 0, h.ns_count as nat)->Some_0;
    let d_off = u_off + ur.1;
    let dr = records_decode(data.skip(d_off), data, d_off, 0, h.ar_count as nat)->Some_0;

    crate::wire::lemma_questions_decode_bounds(data.skip(12), data, 12, 0, h.qd_count as nat);
    lemma_questions_decode_encodes(data, 12, 0, h.qd_count as nat);
    crate::wire::lemma_records_decode_bounds(data.skip(a_off), data, a_off, 0, h.an_count as nat);
    lemma_records_decode_encodes(data, a_off, 0, h.an_count as nat);
    crate::wire::lemma_records_decode_bounds(data.skip(u_off), data, u_off, 0, h.ns_count as nat);
    lemma_records_decode_encodes(data, u_off, 0, h.ns_count as nat);
    crate::wire::lemma_records_decode_bounds(data.skip(d_off), data, d_off, 0, h.ar_count as nat);
    lemma_records_decode_encodes(data, d_off, 0, h.ar_count as nat);

    lemma_header_decode_encodes(data);
    assert(header_bytes(m.header) == data.subrange(0, 12));
    assert(questions_bytes(m.question) == data.subrange(12, a_off));
    assert(records_bytes(m.answer) == data.subrange(a_off, u_off));
    assert(records_bytes(m.authority) == data.subrange(u_off, d_off));
    assert(records_bytes(m.additional) == data.subrange(d_off, data.len() as int));
    lemma_split_five(data, a_off, u_off, d_off);
    assert(message_bytes(m) == data);
}

/// A buffer is the concatenation of its five consecutive pieces.
proof fn lemma_split_five(data: Seq<u8>, a: int, u: int, d: int)
    requires
        12 <= a <= u <= d <= data.len(),
    ensures
        data == data.subrange(0, 12) + data.subrange(12, a) + data.subrange(a, u) + data.subrange(
            u,
            d,
        ) + data.subrange(d, data.len() as int),
{
    assert(data =~= data.subrange(0, 12) + data.subrange(12, a) + data.subrange(a, u)
        + data.subrange(u, d) + data.subrange(d, data.len() as int));
}

} // verus!
