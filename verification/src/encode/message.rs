use vstd::prelude::*;

use crate::encode::header::encode_header;
use crate::encode::question::encode_questions_at;
use crate::encode::resource_record::encode_records_at;
use crate::error::Error;
use crate::types::{Message, NameElement, Question, ResourceRecord};
use crate::wire;

verus! {

/// The exact wire length of a name.
fn name_wire_len(name: &Vec<NameElement>) -> (n: usize)
    requires
        wire::name_bytes(name.deep_view()).len() <= usize::MAX,
    ensures
        n == wire::name_bytes(name.deep_view()).len(),
{
    let ghost dv = name.deep_view();
    let mut acc: usize = 0;
    let mut i: usize = 0;
    proof {
        assert(dv.take(0) =~= Seq::<wire::NameElemModel>::empty());
        assert(dv.skip(0) =~= dv);
    }
    while i < name.len()
        invariant
            i <= name@.len(),
            dv == name.deep_view(),
            wire::name_bytes(dv).len() <= usize::MAX,
            acc == wire::name_bytes(dv.take(i as int)).len(),
            wire::name_bytes(dv).len() == acc + wire::name_bytes(dv.skip(i as int)).len(),
        decreases name@.len() - i,
    {
        let ghost done = dv.take(i as int);
        let ghost elem = dv[i as int];
        proof {
            assert(dv.skip(i as int)[0] == elem);
            assert(dv.skip(i as int).drop_first() =~= dv.skip(i + 1));
            assert(dv.take(i + 1) =~= done.push(elem));
            wire::lemma_name_bytes_push(done, elem);
            assert(wire::name_bytes(dv.skip(i as int)) == wire::elem_bytes(elem)
                + wire::name_bytes(dv.skip(i + 1)));
        }
        let elem_len: usize = match &name[i] {
            NameElement::Label(label) => 1 + label.data.len(),
            NameElement::Pointer(_) => 2,
            NameElement::Root => 1,
            NameElement::Reserved => 0,
        };
        acc = acc + elem_len;
        i = i + 1;
    }
    proof {
        assert(dv.take(name@.len() as int) =~= dv);
    }
    acc
}

/// The exact wire length of a sequence of questions.
fn questions_wire_len(questions: &Vec<Question>) -> (n: usize)
    requires
        wire::questions_bytes(questions.deep_view()).len() <= usize::MAX,
    ensures
        n == wire::questions_bytes(questions.deep_view()).len(),
{
    let ghost dv = questions.deep_view();
    let mut acc: usize = 0;
    let mut i: usize = 0;
    proof {
        assert(dv.take(0) =~= Seq::<wire::QuestionModel>::empty());
        assert(dv.skip(0) =~= dv);
    }
    while i < questions.len()
        invariant
            i <= questions@.len(),
            dv == questions.deep_view(),
            wire::questions_bytes(dv).len() <= usize::MAX,
            acc == wire::questions_bytes(dv.take(i as int)).len(),
            wire::questions_bytes(dv).len() == acc + wire::questions_bytes(
                dv.skip(i as int),
            ).len(),
        decreases questions@.len() - i,
    {
        let ghost done = dv.take(i as int);
        let ghost q_m = dv[i as int];
        proof {
            assert(dv.skip(i as int)[0] == q_m);
            assert(dv.skip(i as int).drop_first() =~= dv.skip(i + 1));
            assert(dv.take(i + 1) =~= done.push(q_m));
            wire::lemma_questions_bytes_push(done, q_m);
            assert(wire::questions_bytes(dv.skip(i as int)) == wire::question_bytes(q_m)
                + wire::questions_bytes(dv.skip(i + 1)));
        }
        let name_len = name_wire_len(&questions[i].q_name);
        acc = acc + name_len + 4;
        i = i + 1;
    }
    proof {
        assert(dv.take(questions@.len() as int) =~= dv);
    }
    acc
}

/// The exact wire length of a sequence of resource records.
fn records_wire_len(records: &Vec<ResourceRecord>) -> (n: usize)
    requires
        wire::records_bytes(records.deep_view()).len() <= usize::MAX,
    ensures
        n == wire::records_bytes(records.deep_view()).len(),
{
    let ghost dv = records.deep_view();
    let mut acc: usize = 0;
    let mut i: usize = 0;
    proof {
        assert(dv.take(0) =~= Seq::<wire::RecordModel>::empty());
        assert(dv.skip(0) =~= dv);
    }
    while i < records.len()
        invariant
            i <= records@.len(),
            dv == records.deep_view(),
            wire::records_bytes(dv).len() <= usize::MAX,
            acc == wire::records_bytes(dv.take(i as int)).len(),
            wire::records_bytes(dv).len() == acc + wire::records_bytes(dv.skip(i as int)).len(),
        decreases records@.len() - i,
    {
        let ghost done = dv.take(i as int);
        let ghost r_m = dv[i as int];
        proof {
            assert(dv.skip(i as int)[0] == r_m);
            assert(dv.skip(i as int).drop_first() =~= dv.skip(i + 1));
            assert(dv.take(i + 1) =~= done.push(r_m));
            wire::lemma_records_bytes_push(done, r_m);
            assert(wire::records_bytes(dv.skip(i as int)) == wire::record_bytes(r_m)
                + wire::records_bytes(dv.skip(i + 1)));
        }
        let name_len = name_wire_len(&records[i].rr_name);
        acc = acc + name_len + 10 + records[i].rr_data.len();
        i = i + 1;
    }
    proof {
        assert(dv.take(records@.len() as int) =~= dv);
    }
    acc
}

impl Message {
    /// The exact total wire length of the message: the sum of the header's
    /// and every section's wire bytes.
    pub fn wire_length(&self) -> (n: usize)
        requires
            wire::message_bytes(self.deep_view()).len() <= usize::MAX,
        ensures
            n == wire::message_bytes(self.deep_view()).len(),
    {
        let q = questions_wire_len(&self.question);
        let a = records_wire_len(&self.answer);
        let u = records_wire_len(&self.authority);
        let d = records_wire_len(&self.additional);
        12 + q + a + u + d
    }
}

/// Encode a whole message into a single freshly allocated buffer: the
/// total length is computed first, the buffer allocated once, then the
/// header and every section written in fixed order.
///
/// Fails with `InvalidDomainName` exactly when some name holds a reserved
/// element; otherwise returns exactly the message's wire bytes.
pub fn encode_message(message: &Message) -> (r: Result<Vec<u8>, Error>)
    requires
        message.header.flags.wf(),
        forall|i: int| 0 <= i < message.question@.len() ==> (#[trigger] message.question@[i]).wf(),
        forall|i: int, j: int|
            0 <= i < message.answer@.len() && 0 <= j < message.answer@[i].rr_name@.len() ==> (
            #[trigger] message.answer@[i].rr_name@[j]).wf(),
        forall|i: int, j: int|
            0 <= i < message.authority@.len() && 0 <= j < message.authority@[i].rr_name@.len()
                ==> (#[trigger] message.authority@[i].rr_name@[j]).wf(),
        forall|i: int, j: int|
            0 <= i < message.additional@.len() && 0 <= j < message.additional@[i].rr_name@.len()
                ==> (#[trigger] message.additional@[i].rr_name@[j]).wf(),
        wire::message_bytes(message.deep_view()).len() <= usize::MAX,
    ensures
        r is Ok <==> !wire::message_has_reserved(message.deep_view()),
        r matches Ok(bytes) ==> bytes@ == wire::message_bytes(message.deep_view()),
        r matches Err(e) ==> e == Error::InvalidDomainName,
{
    let ghost m = message.deep_view();
    let ghost hb = wire::header_bytes(m.header);
    let ghost qb = wire::questions_bytes(m.question);
    let ghost ab = wire::records_bytes(m.answer);
    let ghost ub = wire::records_bytes(m.authority);
    let ghost db = wire::records_bytes(m.additional);

    let length = message.wire_length();
    let mut data: Vec<u8> = Vec::with_capacity(length);
    data.resize(length, 0);

    let buf = data.as_mut_slice();
    let ghost buflen = length as int;

    let mut offset: usize = 0;
    match encode_header(&message.header, buf) {
        Ok(_) => {},
        Err(_) => {
            proof {
                assert(false);
            }
            return Err(Error::InvalidDomainName);
        },
    }
    offset = 12;

    proof {
        wire::lemma_questions_encode_fits(m.question, buflen, 12);
    }
    let ghost after_header = buf@;
    let q_end = match encode_questions_at(&message.question, buf, offset) {
        Ok(n) => n,
        Err(e) => {
            return Err(e);
        },
    };
    proof {
        assert(buf@.subrange(0, 12) =~= after_header.subrange(0, 12));
    }

    proof {
        wire::lemma_records_encode_fits(m.answer, buflen, q_end as int);
    }
    let ghost after_q = buf@;
    let a_end = match encode_records_at(&message.answer, buf, q_end) {
        Ok(n) => n,
        Err(e) => {
            return Err(e);
        },
    };
    proof {
        assert(buf@.subrange(0, 12) =~= after_q.subrange(0, 12));
        assert(buf@.subrange(12, q_end as int) =~= after_q.subrange(12, q_end as int));
    }

    proof {
        wire::lemma_records_encode_fits(m.authority, buflen, a_end as int);
    }
    let ghost after_a = buf@;
    let u_end = match encode_records_at(&message.authority, buf, a_end) {
        Ok(n) => n,
        Err(e) => {
            return Err(e);
        },
    };
    proof {
        assert(buf@.subrange(0, 12) =~= after_a.subrange(0, 12));
        assert(buf@.subrange(12, q_end as int) =~= after_a.subrange(12, q_end as int));
        assert(buf@.subrange(q_end as int, a_end as int) =~= after_a.subrange(
            q_end as int,
            a_end as int,
        ));
    }

    proof {
        wire::lemma_records_encode_fits(m.additional, buflen, u_end as int);
    }
    let ghost after_u = buf@;
    let d_end = match encode_records_at(&message.additional, buf, u_end) {
        Ok(n) => n,
        Err(e) => {
            return Err(e);
        },
    };
    proof {
        assert(buf@.subrange(0, 12) =~= after_u.subrange(0, 12));
        assert(buf@.subrange(12, q_end as int) =~= after_u.subrange(12, q_end as int));
        assert(buf@.subrange(q_end as int, a_end as int) =~= after_u.subrange(
            q_end as int,
            a_end as int,
        ));
        assert(buf@.subrange(a_end as int, u_end as int) =~= after_u.subrange(
            a_end as int,
            u_end as int,
        ));
    }
    offset = d_end;

    proof {
        assert(buf@ =~= hb + qb + ab + ub + db);
        assert(buf@ =~= wire::message_bytes(m));
    }
    data.truncate(offset);
    proof {
        assert(data@ =~= wire::message_bytes(m));
    }
    Ok(data)
}

} // verus!
