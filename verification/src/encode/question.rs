use vstd::prelude::*;

use crate::encode::name::encode_name_at;
use crate::error::Error;
use crate::types::Question;
use crate::wire;

verus! {

/// Encode a sequence of questions into `buf` starting at `at`, leaving
/// every byte outside the written range as it was. Returns the end offset.
pub(crate) fn encode_questions_at(questions: &Vec<Question>, buf: &mut [u8], at: usize) -> (r:
    Result<usize, Error>)
    requires
        forall|i: int| 0 <= i < questions@.len() ==> (#[trigger] questions@[i]).wf(),
        at <= old(buf)@.len(),
    ensures
        final(buf)@.len() == old(buf)@.len(),
        (match r {
            Ok(end) => {
                &&& wire::questions_encode(
                    questions.deep_view(),
                    old(buf)@.len() as int,
                    at as int,
                ) == Ok::<int, Error>(end as int)
                &&& at + wire::questions_bytes(questions.deep_view()).len() == end
                &&& final(buf)@.subrange(at as int, end as int) == wire::questions_bytes(
                    questions.deep_view(),
                )
                &&& forall|k: int|
                    0 <= k < old(buf)@.len() && !(at <= k < end) ==> final(buf)@[k] == old(
                        buf,
                    )@[k]
            },
            Err(e) => wire::questions_encode(questions.deep_view(), old(buf)@.len() as int, at as int)
                == Err::<int, Error>(e),
        }),
{
    let ghost dv = questions.deep_view();
    let ghost buflen = buf@.len() as int;
    let mut offset: usize = at;
    let mut i: usize = 0;
    proof {
        assert(dv.skip(0) =~= dv);
        assert(dv.take(0) =~= Seq::<wire::QuestionModel>::empty());
        assert(buf@.subrange(at as int, at as int) =~= wire::questions_bytes(dv.take(0)));
    }

    while i < questions.len()
        invariant
            i <= questions@.len(),
            at <= offset <= buf@.len(),
            dv == questions.deep_view(),
            buflen == buf@.len() as int,
            forall|j: int| 0 <= j < questions@.len() ==> (#[trigger] questions@[j]).wf(),
            wire::questions_encode(dv, buflen, at as int) == wire::questions_encode(
                dv.skip(i as int),
                buflen,
                offset as int,
            ),
            at + wire::questions_bytes(dv.take(i as int)).len() == offset,
            buf@.len() == old(buf)@.len(),
            buf@.subrange(at as int, offset as int) == wire::questions_bytes(dv.take(i as int)),
            forall|k: int|
                0 <= k < old(buf)@.len() && !(at <= k < offset) ==> buf@[k] == old(buf)@[k],
        decreases questions@.len() - i,
    {
        let ghost done = dv.take(i as int);
        let ghost q_m = dv[i as int];
        proof {
            assert(dv.skip(i as int)[0] == q_m);
            assert(dv.skip(i as int).drop_first() =~= dv.skip(i + 1));
            assert(dv.take(i + 1) =~= done.push(q_m));
            wire::lemma_questions_bytes_push(done, q_m);
        }
        let question = &questions[i];
        let noff = match encode_name_at(&question.q_name, buf, offset) {
            Ok(n) => n,
            Err(e) => {
                return Err(e);
            },
        };
        proof {
            wire::lemma_name_encode_len(q_m.name, buflen, offset as int);
        }
        if noff > buf.len() || buf.len() - noff < 4 {
            return Err(Error::InsufficientData);
        }
        let ghost mid = buf@;
        buf[noff] = (question.q_type / 256) as u8;
        buf[noff + 1] = (question.q_type % 256) as u8;
        buf[noff + 2] = (question.q_class / 256) as u8;
        buf[noff + 3] = (question.q_class % 256) as u8;
        proof {
            assert(buf@.subrange(at as int, offset as int) =~= mid.subrange(
                at as int,
                offset as int,
            ));
            assert(buf@.subrange(offset as int, noff as int) =~= mid.subrange(
                offset as int,
                noff as int,
            ));
            assert(buf@.subrange(at as int, noff + 4) =~= wire::questions_bytes(dv.take(i + 1)));
        }
        offset = noff + 4;
        i = i + 1;
    }
    proof {
        assert(dv.take(questions@.len() as int) =~= dv);
        assert(dv.skip(questions@.len() as int) =~= Seq::<wire::QuestionModel>::empty());
    }
    Ok(offset)
}

/// Encode a sequence of questions into the start of `buf`: each question's
/// name followed by its 4 type and class bytes. Fails with
/// `InsufficientData` when an entry does not fit, and with
/// `InvalidDomainName` when a name holds a reserved element. Returns the
/// number of bytes written.
pub fn encode_question(questions: &Vec<Question>, buf: &mut [u8]) -> (r: Result<usize, Error>)
    requires
        forall|i: int| 0 <= i < questions@.len() ==> (#[trigger] questions@[i]).wf(),
    ensures
        final(buf)@.len() == old(buf)@.len(),
        (match r {
            Ok(n) => {
                &&& wire::questions_encode(questions.deep_view(), old(buf)@.len() as int, 0) == Ok::<
                    int,
                    Error,
                >(n as int)
                &&& n == wire::questions_bytes(questions.deep_view()).len()
                &&& final(buf)@.subrange(0, n as int) == wire::questions_bytes(
                    questions.deep_view(),
                )
                &&& forall|k: int| n <= k < old(buf)@.len() ==> final(buf)@[k] == old(buf)@[k]
            },
            Err(e) => wire::questions_encode(questions.deep_view(), old(buf)@.len() as int, 0)
                == Err::<int, Error>(e),
        }),
{
    encode_questions_at(questions, buf, 0)
}

} // verus!
