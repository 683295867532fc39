use vstd::prelude::*;
use vstd::slice::{slice_subrange, slice_to_vec};

use crate::error::Error;
use crate::types::{Label, NameElement};
use crate::wire;

verus! {

/// Decode a domain name from `data` starting at absolute offset
/// `message_offset`, one length-prefix byte at a time.
///
/// Returns the name's elements and the number of bytes consumed. The scan
/// stops at the first root or pointer element; a pointer is never followed.
/// Fails with `InsufficientData` exactly when a required read would exceed
/// the buffer.
pub fn decode_name(data: &[u8], message_offset: usize) -> (r: Result<(Vec<NameElement>, usize), Error>)
    ensures
        r matches Ok(p) ==> {
            &&& wire::name_decode(data@, message_offset as int) == Some(
                (p.0.deep_view(), message_offset + p.1),
            )
            &&& forall|i: int| 0 <= i < p.0.len() ==> (#[trigger] p.0@[i]).wf()
        },
        r matches Err(e) ==> e == Error::InsufficientData && wire::name_decode(
            data@,
            message_offset as int,
        ) is None,
{
    let mut offset: usize = 0;
    let mut elements: Vec<NameElement> = Vec::new();

    loop
        invariant_except_break
            (match wire::name_decode(data@, message_offset + offset) {
                Some(rest) => wire::name_decode(data@, message_offset as int) == Some(
                    (elements.deep_view() + rest.0, rest.1),
                ),
                None => wire::name_decode(data@, message_offset as int) is None,
            }),
        invariant
            offset == 0 || message_offset + offset <= data@.len(),
            forall|i: int| 0 <= i < elements.len() ==> (#[trigger] elements@[i]).wf(),
        ensures
            wire::name_decode(data@, message_offset as int) == Some(
                (elements.deep_view(), message_offset + offset),
            ),
            forall|i: int| 0 <= i < elements.len() ==> (#[trigger] elements@[i]).wf(),
        decreases data@.len() - message_offset - offset,
    {
        let n: usize = data.len();
        if offset >= n || message_offset >= n - offset {
            return Err(Error::InsufficientData);
        }
        let ghost pos: int = message_offset + offset;
        let ghost prefix = elements.deep_view();

        let length_byte: u8 = data[message_offset + offset];
        let length: usize = length_byte as usize;
        offset = offset + 1;

        if length == 0 {
            elements.push(NameElement::Root);
            proof {
                assert(elements.deep_view() =~= prefix + seq![wire::NameElemModel::Root]);
                assert(wire::name_decode(data@, pos) == Some(
                    (seq![wire::NameElemModel::Root], pos + 1),
                ));
                assert(prefix + seq![wire::NameElemModel::Root] =~= elements.deep_view());
            }
            break;
        }

        if length >= 192 {
            if message_offset + offset >= data.len() {
                return Err(Error::InsufficientData);
            }
            let second_byte: u16 = data[message_offset + offset] as u16;
            let pointer_value: u16 = (length_byte % 64) as u16 * 256 + second_byte;
            offset = offset + 1;

            elements.push(NameElement::Pointer(pointer_value));
            proof {
                assert(elements.deep_view() =~= prefix + seq![
                    wire::NameElemModel::Pointer(pointer_value),
                ]);
            }
            return Ok((elements, offset));
        }

        if length >= 64 {
            elements.push(NameElement::Reserved);
            proof {
                assert(elements.deep_view() =~= prefix + seq![wire::NameElemModel::Reserved]);
                if wire::name_decode(data@, pos + 1) is Some {
                    let rest = wire::name_decode(data@, pos + 1)->Some_0;
                    assert(prefix + (seq![wire::NameElemModel::Reserved] + rest.0)
                        =~= elements.deep_view() + rest.0);
                }
            }
            continue;
        }

        if length > data.len() - message_offset - offset {
            return Err(Error::InsufficientData);
        }

        let label_data: Vec<u8> = slice_to_vec(
            slice_subrange(data, message_offset + offset, message_offset + offset + length),
        );
        elements.push(NameElement::Label(Label::new(length_byte, label_data)));
        offset = offset + length;
        proof {
            let lab = wire::NameElemModel::Label(data@.subrange(pos + 1, pos + 1 + length_byte));
            assert(elements.deep_view() =~= prefix + seq![lab]);
            if wire::name_decode(data@, pos + 1 + length_byte) is Some {
                let rest = wire::name_decode(data@, pos + 1 + length_byte)->Some_0;
                assert(prefix + (seq![lab] + rest.0) =~= elements.deep_view() + rest.0);
            }
        }
    }

    Ok((elements, offset))
}

} // verus!
