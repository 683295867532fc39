use vstd::prelude::*;

pub mod header;
pub mod message;
pub mod name;
pub mod question;
pub mod resource_record;

pub use header::encode_flags;
pub use header::encode_header;
pub use message::encode_message;
pub use name::encode_name;
pub use question::encode_question;
pub use resource_record::encode_resource_record;
pub use resource_record::encode_resource_records;

verus! {

/// Copy `src` into `buf` at position `at`, leaving every other byte as it
/// was.
pub(crate) fn write_slice(buf: &mut [u8], at: usize, src: &[u8])
    requires
        at + src@.len() <= old(buf)@.len(),
    ensures
        final(buf)@.len() == old(buf)@.len(),
        final(buf)@.subrange(at as int, at + src@.len()) == src@,
        forall|k: int|
            0 <= k < old(buf)@.len() && !(at <= k < at + src@.len()) ==> final(buf)@[k] == old(
                buf,
            )@[k],
{
    let n: usize = buf.len();
    let mut j: usize = 0;
    while j < src.len()
        invariant
            j <= src@.len(),
            at + src@.len() <= buf@.len(),
            buf@.len() == n,
            buf@.len() == old(buf)@.len(),
            buf@.subrange(at as int, at + j) == src@.subrange(0, j as int),
            forall|k: int|
                0 <= k < old(buf)@.len() && !(at <= k < at + j) ==> buf@[k] == old(buf)@[k],
        decreases src@.len() - j,
    {
        let ghost prev = buf@;
        buf[at + j] = src[j];
        j = j + 1;
        proof {
            assert(buf@.subrange(at as int, at + j) =~= src@.subrange(0, j as int));
        }
    }
    proof {
        assert(buf@.subrange(at as int, at + src@.len()) =~= src@);
    }
}

} // verus!
