use vstd::prelude::*;

use super::name::decode_name;
use crate::error::Error;
use crate::types::Question;
use crate::wire;

verus! {

/// Decode `qd_count` questions. Each question's name is read from
/// `message_data` starting at `message_offset` plus the running offset;
/// its 4 trailing type and class bytes are read from `data` at the running
/// offset. Returns the questions and the bytes consumed relative to
/// `data`. Fails with `InsufficientData` exactly when a read would exceed
/// a buffer.
pub fn decode_question(
    data: &[u8],
    message_data: &[u8],
    message_offset: usize,
    qd_count: u16,
) -> (r: Result<(Vec<Question>, usize), Error>)
    ensures
        r matches Ok(p) ==> {
            &&& wire::questions_decode(
                data@,
                message_data@,
                message_offset as int,
                0,
                qd_count as nat,
            ) == Some((p.0.deep_view(), p.1 as int))
            &&& p.0@.len() == qd_count
            &&& forall|i: int| 0 <= i < p.0@.len() ==> (#[trigger] p.0@[i]).wf()
        },
        r matches Err(e) ==> e == Error::InsufficientData && wire::questions_decode(
            data@,
            message_data@,
            message_offset as int,
            0,
            qd_count as nat,
        ) is None,
{
    let ghost moff: int = message_offset as int;
    if qd_count == 0 {
        let empty: Vec<Question> = Vec::new();
        proof {
            assert(empty.deep_view() =~= Seq::<wire::QuestionModel>::empty());
        }
        return Ok((empty, 0));
    }

    let mut questions: Vec<Question> = Vec::with_capacity(qd_count as usize);
    let mut offset: usize = 0;
    let mut i: u16 = 0;
    let msg_len: usize = message_data.len();

    while i < qd_count
        invariant
            i <= qd_count,
            questions@.len() == i,
            offset <= data@.len(),
            msg_len == message_data@.len(),
            moff == message_offset as int,
            forall|j: int| 0 <= j < questions@.len() ==> (#[trigger] questions@[j]).wf(),
            (match wire::questions_decode(
                data@,
                message_data@,
                moff,
                offset as int,
                (qd_count - i) as nat,
            ) {
                Some(rest) => wire::questions_decode(data@, message_data@, moff, 0, qd_count as nat)
                    == Some((questions.deep_view() + rest.0, rest.1)),
                None => wire::questions_decode(
                    data@,
                    message_data@,
                    moff,
                    0,
                    qd_count as nat,
                ) is None,
            }),
        decreases qd_count - i,
    {
        let ghost prefix = questions.deep_view();
        let ghost rem: nat = (qd_count - i) as nat;

        if message_offset > usize::MAX - offset {
            proof {
                assert(wire::name_decode(message_data@, moff + offset) is None);
            }
            return Err(Error::InsufficientData);
        }
        let name_res = decode_name(message_data, message_offset + offset);
        let (q_name, q_name_end) = match name_res {
            Ok(p) => p,
            Err(_) => {
                return Err(Error::InsufficientData);
            },
        };
        proof {
            wire::lemma_name_decode_bounds(message_data@, moff + offset);
        }
        let offset_after_name: usize = offset + q_name_end;

        if data.len() < 4 || offset_after_name > data.len() - 4 {
            return Err(Error::InsufficientData);
        }
        let q_type: u16 = data[offset_after_name] as u16 * 256 + data[offset_after_name + 1] as u16;
        let q_class: u16 = data[offset_after_name + 2] as u16 * 256 + data[offset_after_name
            + 3] as u16;
        let new_offset: usize = offset_after_name + 4;

        let question = Question::new(q_name, q_type, q_class);
        questions.push(question);
        proof {
            let q_m = wire::question_decode(data@, message_data@, moff, offset as int)->Some_0.0;
            assert(questions.deep_view() =~= prefix.push(q_m));
            if wire::questions_decode(data@, message_data@, moff, new_offset as int, (rem
                - 1) as nat) is Some {
                let rest = wire::questions_decode(
                    data@,
                    message_data@,
                    moff,
                    new_offset as int,
                    (rem - 1) as nat,
                )->Some_0;
                assert(prefix + (seq![q_m] + rest.0) =~= prefix.push(q_m) + rest.0);
            }
        }
        offset = new_offset;
        i = i + 1;
    }
    proof {
        assert(questions.deep_view() + Seq::<wire::QuestionModel>::empty()
            =~= questions.deep_view());
    }
    Ok((questions, offset))
}

} // verus!
