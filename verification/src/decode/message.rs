use vstd::prelude::*;
use vstd::slice::slice_subrange;

use super::header::decode_header;
use super::question::decode_question;
use super::resource_record::decode_resource_records;
use crate::error::Error;
use crate::types::Message;
use crate::wire;

verus! {

/// Decode a whole message: header, then the question, answer, authority
/// and additional sections in fixed order, each section's entry count
/// taken from the header.
///
/// Fails with `InvalidHeaderLength` exactly when `data` has fewer than
/// 12 bytes, and with `InsufficientData` exactly when some section read
/// would exceed the buffer; trailing bytes past the last section are
/// ignored.
pub fn decode_message(data: &[u8]) -> (r: Result<Message, Error>)
    ensures
        r is Ok <==> wire::message_decode(data@) is Some,
        r matches Ok(m) ==> {
            &&& wire::message_decode(data@)->Some_0.0 == m.deep_view()
            &&& m.wf()
            &&& m.header.flags.wf()
        },
        data@.len() < 12 ==> r == Err::<Message, _>(Error::InvalidHeaderLength),
        data@.len() >= 12 ==> (r matches Err(e) ==> e == Error::InsufficientData),
{
    let (header, header_index) = match decode_header(data) {
        Ok(p) => p,
        Err(e) => {
            return Err(e);
        },
    };
    let mut offset: usize = header_index;

    let q_tail = slice_subrange(data, offset, data.len());
    proof {
        assert(q_tail@ =~= data@.skip(12));
    }
    let (questions, questions_len) = match decode_question(q_tail, data, offset, header.qd_count) {
        Ok(p) => p,
        Err(e) => {
            return Err(e);
        },
    };
    proof {
        wire::lemma_questions_decode_bounds(data@.skip(12), data@, 12, 0, header.qd_count as nat);
    }
    offset = offset + questions_len;

    let a_tail = slice_subrange(data, offset, data.len());
    proof {
        assert(a_tail@ =~= data@.skip(offset as int));
    }
    let (answers, answers_len) = match decode_resource_records(
        a_tail,
        data,
        offset,
        header.an_count,
    ) {
        Ok(p) => p,
        Err(e) => {
            return Err(e);
        },
    };
    proof {
        wire::lemma_records_decode_bounds(
            data@.skip(offset as int),
            data@,
            offset as int,
            0,
            header.an_count as nat,
        );
    }
    offset = offset + answers_len;

    let u_tail = slice_subrange(data, offset, data.len());
    proof {
        assert(u_tail@ =~= data@.skip(offset as int));
    }
    let (authority, authority_len) = match decode_resource_records(
        u_tail,
        data,
        offset,
        header.ns_count,
    ) {
        Ok(p) => p,
        Err(e) => {
            return Err(e);
        },
    };
    proof {
        wire::lemma_records_decode_bounds(
            data@.skip(offset as int),
            data@,
            offset as int,
            0,
            header.ns_count as nat,
        );
    }
    offset = offset + authority_len;

    let d_tail = slice_subrange(data, offset, data.len());
    proof {
        assert(d_tail@ =~= data@.skip(offset as int));
    }
    let (additional, _) = match decode_resource_records(d_tail, data, offset, header.ar_count) {
        Ok(p) => p,
        Err(e) => {
            return Err(e);
        },
    };

    Ok(Message::new(header, questions, answers, authority, additional))
}

} // verus!
