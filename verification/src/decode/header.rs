use vstd::prelude::*;

use crate::error::Error;
use crate::types::{Flags, Header};
use crate::wire;

verus! {

/// Decode the fixed 12-byte header from the start of `data`.
///
/// Fails with `InvalidHeaderLength` exactly when `data` has fewer than
/// 12 bytes; otherwise returns the header and the 12 bytes consumed.
pub fn decode_header(data: &[u8]) -> (r: Result<(Header, usize), Error>)
    ensures
        data@.len() >= 12 ==> r == Ok::<_, Error>((wire::header_of_bytes(data@), 12usize)),
        data@.len() < 12 ==> r == Err::<(Header, usize), _>(Error::InvalidHeaderLength),
        r matches Ok(h) ==> h.0.flags.wf(),
{
    if data.len() < 12 {
        return Err(Error::InvalidHeaderLength);
    }
    let id: u16 = data[0] as u16 * 256 + data[1] as u16;
    let flags = Flags::from_flags_bytes(data[2], data[3]);
    let qd_count: u16 = data[4] as u16 * 256 + data[5] as u16;
    let an_count: u16 = data[6] as u16 * 256 + data[7] as u16;
    let ns_count: u16 = data[8] as u16 * 256 + data[9] as u16;
    let ar_count: u16 = data[10] as u16 * 256 + data[11] as u16;

    let header = Header::new(id, flags, qd_count, an_count, ns_count, ar_count);
    Ok((header, 12))
}

/// Decode the 2-byte flags bitfield from the start of `data`.
///
/// Fails with `InsufficientData` exactly when `data` has fewer than 2 bytes.
pub fn decode_flags(data: &[u8]) -> (r: Result<(Flags, usize), Error>)
    ensures
        data@.len() >= 2 ==> r == Ok::<_, Error>(
            (wire::flags_of_word(wire::be16(data@[0], data@[1])), 2usize),
        ),
        data@.len() < 2 ==> r == Err::<(Flags, usize), _>(Error::InsufficientData),
{
    if data.len() < 2 {
        return Err(Error::InsufficientData);
    }
    let flags = Flags::from_flags_bytes(data[0], data[1]);
    Ok((flags, 2))
}

} // verus!
