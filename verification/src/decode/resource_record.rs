use vstd::prelude::*;
use vstd::slice::{slice_subrange, slice_to_vec};

use super::name::decode_name;
use crate::error::Error;
use crate::types::ResourceRecord;
use crate::wire;

verus! {

/// Decode one resource record. Its name is read from `message_data`
/// starting at `message_offset`; the 10 fixed bytes and the RDLENGTH
/// opaque RDATA bytes follow the name's end, read from `data`. Returns the
/// record and the bytes consumed relative to `data`. Fails with
/// `InsufficientData` exactly when a read would exceed a buffer.
pub fn decode_resource_record(data: &[u8], message_data: &[u8], message_offset: usize) -> (r:
    Result<(ResourceRecord, usize), Error>)
    ensures
        r matches Ok(p) ==> {
            &&& wire::record_decode(data@, message_data@, message_offset as int) == Some(
                (p.0.deep_view(), p.1 as int),
            )
            &&& p.0.wf()
        },
        r matches Err(e) ==> e == Error::InsufficientData && wire::record_decode(
            data@,
            message_data@,
            message_offset as int,
        ) is None,
{
    let ghost moff: int = message_offset as int;
    let name_res = decode_name(message_data, message_offset);
    let (name, name_end) = match name_res {
        Ok(p) => p,
        Err(_) => {
            return Err(Error::InsufficientData);
        },
    };
    proof {
        wire::lemma_name_decode_bounds(message_data@, moff);
    }
    let offset: usize = name_end;

    if data.len() < 10 || offset > data.len() - 10 {
        return Err(Error::InsufficientData);
    }
    let rr_type: u16 = data[offset] as u16 * 256 + data[offset + 1] as u16;
    let rr_class: u16 = data[offset + 2] as u16 * 256 + data[offset + 3] as u16;
    let ttl: u32 = data[offset + 4] as u32 * 0x1000000 + data[offset + 5] as u32 * 0x10000
        + data[offset + 6] as u32 * 0x100 + data[offset + 7] as u32;
    let rdlength: u16 = data[offset + 8] as u16 * 256 + data[offset + 9] as u16;

    if rdlength as usize > data.len() - offset - 10 {
        return Err(Error::InsufficientData);
    }
    let r_data: Vec<u8> = slice_to_vec(
        slice_subrange(data, offset + 10, offset + 10 + rdlength as usize),
    );
    let consumed: usize = offset + 10 + rdlength as usize;

    let resource_record = ResourceRecord::new(name, rr_type, rr_class, ttl, rdlength, r_data);
    Ok((resource_record, consumed))
}

/// Decode `n` resource records in sequence, each from the remainder of
/// `data` past the previous record's end.
pub fn decode_resource_records(
    data: &[u8],
    message_data: &[u8],
    message_offset: usize,
    n: u16,
) -> (r: Result<(Vec<ResourceRecord>, usize), Error>)
    ensures
        r matches Ok(p) ==> {
            &&& wire::records_decode(data@, message_data@, message_offset as int, 0, n as nat)
                == Some((p.0.deep_view(), p.1 as int))
            &&& p.0@.len() == n
            &&& forall|i: int| 0 <= i < p.0@.len() ==> (#[trigger] p.0@[i]).wf()
        },
        r matches Err(e) ==> e == Error::InsufficientData && wire::records_decode(
            data@,
            message_data@,
            message_offset as int,
            0,
            n as nat,
        ) is None,
{
    let ghost moff: int = message_offset as int;
    if n == 0 {
        let empty: Vec<ResourceRecord> = Vec::new();
        proof {
            assert(empty.deep_view() =~= Seq::<wire::RecordModel>::empty());
        }
        return Ok((empty, 0));
    }

    let mut records: Vec<ResourceRecord> = Vec::with_capacity(n as usize);
    let mut offset: usize = 0;
    let mut i: u16 = 0;
    let msg_len: usize = message_data.len();

    while i < n
        invariant
            i <= n,
            records@.len() == i,
            offset <= data@.len(),
            msg_len == message_data@.len(),
            moff == message_offset as int,
            forall|j: int| 0 <= j < records@.len() ==> (#[trigger] records@[j]).wf(),
            (match wire::records_decode(data@, message_data@, moff, offset as int, (n
                - i) as nat) {
                Some(rest) => wire::records_decode(data@, message_data@, moff, 0, n as nat) == Some(
                    (records.deep_view() + rest.0, rest.1),
                ),
                None => wire::records_decode(data@, message_data@, moff, 0, n as nat) is None,
            }),
        decreases n - i,
    {
        let ghost prefix = records.deep_view();
        let ghost rem: nat = (n - i) as nat;

        if message_offset > usize::MAX - offset {
            proof {
                assert(wire::name_decode(message_data@, moff + offset) is None);
            }
            return Err(Error::InsufficientData);
        }
        let tail = slice_subrange(data, offset, data.len());
        proof {
            assert(tail@ =~= data@.skip(offset as int));
        }
        let rec_res = decode_resource_record(tail, message_data, message_offset + offset);
        let (record, bytes_read) = match rec_res {
            Ok(p) => p,
            Err(_) => {
                return Err(Error::InsufficientData);
            },
        };
        proof {
            wire::lemma_record_decode_bounds(data@.skip(offset as int), message_data@, moff
                + offset);
        }
        let new_offset: usize = offset + bytes_read;

        records.push(record);
        proof {
            let r_m = wire::record_decode(data@.skip(offset as int), message_data@, moff
                + offset)->Some_0.0;
            assert(records.deep_view() =~= prefix.push(r_m));
            if wire::records_decode(data@, message_data@, moff, new_offset as int, (rem
                - 1) as nat) is Some {
                let rest = wire::records_decode(
                    data@,
                    message_data@,
                    moff,
                    new_offset as int,
                    (rem - 1) as nat,
                )->Some_0;
                assert(prefix + (seq![r_m] + rest.0) =~= prefix.push(r_m) + rest.0);
            }
        }
        offset = new_offset;
        i = i + 1;
    }
    proof {
        assert(records.deep_view() + Seq::<wire::RecordModel>::empty() =~= records.deep_view());
    }
    Ok((records, offset))
}

} // verus!
