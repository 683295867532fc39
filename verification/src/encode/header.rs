use vstd::prelude::*;

use crate::error::Error;
use crate::types::{Flags, Header};
use crate::wire;

verus! {

/// Encode `header` into the first 12 bytes of `buf`.
///
/// Fails with `InvalidHeaderLength` exactly when `buf` has fewer than
/// 12 bytes, leaving it unchanged; otherwise writes the exact wire bytes
/// and leaves the rest of `buf` untouched.
pub fn encode_header(header: &Header, buf: &mut [u8]) -> (r: Result<usize, Error>)
    requires
        header.flags.wf(),
    ensures
        old(buf)@.len() < 12 ==> r == Err::<usize, _>(Error::InvalidHeaderLength) && final(buf)@
            == old(buf)@,
        old(buf)@.len() >= 12 ==> {
            &&& r == Ok::<_, Error>(12usize)
            &&& final(buf)@.len() == old(buf)@.len()
            &&& final(buf)@.subrange(0, 12) == wire::header_bytes(*header)
            &&& final(buf)@.skip(12) == old(buf)@.skip(12)
        },
{
    if buf.len() < 12 {
        return Err(Error::InvalidHeaderLength);
    }
    let (h_flags, l_flags) = header.flags.to_flags_bytes();
    proof {
        wire::lemma_flags_of_word_roundtrip(header.flags);
    }
    buf[0] = (header.id / 256) as u8;
    buf[1] = (header.id % 256) as u8;
    buf[2] = h_flags;
    buf[3] = l_flags;
    buf[4] = (header.qd_count / 256) as u8;
    buf[5] = (header.qd_count % 256) as u8;
    buf[6] = (header.an_count / 256) as u8;
    buf[7] = (header.an_count % 256) as u8;
    buf[8] = (header.ns_count / 256) as u8;
    buf[9] = (header.ns_count % 256) as u8;
    buf[10] = (header.ar_count / 256) as u8;
    buf[11] = (header.ar_count % 256) as u8;
    proof {
        assert(final(buf)@.subrange(0, 12) =~= wire::header_bytes(*header));
        assert(final(buf)@.skip(12) =~= old(buf)@.skip(12));
    }
    Ok(12)
}

/// Encode the 2-byte flags bitfield into the start of `buf`.
///
/// Fails with `InsufficientData` exactly when `buf` has fewer than 2 bytes.
pub fn encode_flags(flags: &Flags, buf: &mut [u8]) -> (r: Result<usize, Error>)
    requires
        flags.wf(),
    ensures
        old(buf)@.len() < 2 ==> r == Err::<usize, _>(Error::InsufficientData) && final(buf)@ == old(
            buf,
        )@,
        old(buf)@.len() >= 2 ==> {
            &&& r == Ok::<_, Error>(2usize)
            &&& final(buf)@.len() == old(buf)@.len()
            &&& final(buf)@.subrange(0, 2) == wire::bytes_be16(wire::flags_word(*flags) as u16)
            &&& final(buf)@.skip(2) == old(buf)@.skip(2)
        },
{
    if buf.len() < 2 {
        return Err(Error::InsufficientData);
    }
    let (h, l) = flags.to_flags_bytes();
    proof {
        wire::lemma_flags_of_word_roundtrip(*flags);
    }
    buf[0] = h;
    buf[1] = l;
    proof {
        assert(final(buf)@.subrange(0, 2) =~= wire::bytes_be16(wire::flags_word(*flags) as u16));
        assert(final(buf)@.skip(2) =~= old(buf)@.skip(2));
    }
    Ok(2)
}

} // verus!
