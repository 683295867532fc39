use vstd::prelude::*;

use crate::encode::write_slice;
use crate::error::Error;
use crate::types::NameElement;
use crate::wire;

verus! {

/// Encode a name's elements in order into `buf` starting at `at`, leaving
/// every byte outside the written range as it was. Returns the end offset.
pub(crate) fn encode_name_at(name: &Vec<NameElement>, buf: &mut [u8], at: usize) -> (r: Result<
    usize,
    Error,
>)
    requires
        forall|i: int| 0 <= i < name@.len() ==> (#[trigger] name@[i]).wf(),
        at <= old(buf)@.len(),
    ensures
        final(buf)@.len() == old(buf)@.len(),
        (match r {
            Ok(end) => {
                &&& wire::name_encode(name.deep_view(), old(buf)@.len() as int, at as int) == Ok::<
                    int,
                    Error,
                >(end as int)
                &&& at + wire::name_bytes(name.deep_view()).len() == end
                &&& final(buf)@.subrange(at as int, end as int) == wire::name_bytes(
                    name.deep_view(),
                )
                &&& forall|k: int|
                    0 <= k < old(buf)@.len() && !(at <= k < end) ==> final(buf)@[k] == old(
                        buf,
                    )@[k]
            },
            Err(e) => wire::name_encode(name.deep_view(), old(buf)@.len() as int, at as int)
                == Err::<int, Error>(e),
        }),
{
    let ghost dv = name.deep_view();
    let ghost buflen = buf@.len() as int;
    let mut offset: usize = at;
    let mut i: usize = 0;
    proof {
        assert(dv.skip(0) =~= dv);
        assert(dv.take(0) =~= Seq::<wire::NameElemModel>::empty());
        assert(buf@.subrange(at as int, at as int) =~= wire::name_bytes(dv.take(0)));
    }

    while i < name.len()
        invariant
            i <= name@.len(),
            at <= offset <= buf@.len(),
            dv == name.deep_view(),
            buflen == buf@.len() as int,
            forall|j: int| 0 <= j < name@.len() ==> (#[trigger] name@[j]).wf(),
            wire::name_encode(dv, buflen, at as int) == wire::name_encode(
                dv.skip(i as int),
                buflen,
                offset as int,
            ),
            at + wire::name_bytes(dv.take(i as int)).len() == offset,
            buf@.len() == old(buf)@.len(),
            buf@.subrange(at as int, offset as int) == wire::name_bytes(dv.take(i as int)),
            forall|k: int|
                0 <= k < old(buf)@.len() && !(at <= k < offset) ==> buf@[k] == old(buf)@[k],
        decreases name@.len() - i,
    {
        let ghost done = dv.take(i as int);
        let ghost elem = dv[i as int];
        proof {
            assert(dv.skip(i as int)[0] == elem);
            assert(dv.skip(i as int).drop_first() =~= dv.skip(i + 1));
            assert(dv.take(i + 1) =~= done.push(elem));
            wire::lemma_name_bytes_push(done, elem);
        }
        match &name[i] {
            NameElement::Label(label) => {
                if buf.len() - offset < 1 || buf.len() - offset - 1 < label.data.len() {
                    return Err(Error::InsufficientData);
                }
                buf[offset] = label.length;
                let ghost mid = buf@;
                write_slice(buf, offset + 1, label.data.as_slice());
                proof {
                    assert(buf@.subrange(at as int, offset as int) =~= mid.subrange(
                        at as int,
                        offset as int,
                    ));
                    assert(buf@.subrange(at as int, offset + 1 + label.data@.len())
                        =~= wire::name_bytes(dv.take(i + 1)));
                }
                offset = offset + 1 + label.data.len();
            },
            NameElement::Pointer(p) => {
                if buf.len() - offset < 2 {
                    return Err(Error::InsufficientData);
                }
                let ptr: u16 = *p;
                buf[offset] = 192 + (ptr / 256) as u8;
                buf[offset + 1] = (ptr % 256) as u8;
                proof {
                    assert(buf@.subrange(at as int, offset + 2) =~= wire::name_bytes(
                        dv.take(i + 1),
                    ));
                }
                offset = offset + 2;
            },
            NameElement::Root => {
                if buf.len() - offset < 1 {
                    return Err(Error::InsufficientData);
                }
                buf[offset] = 0;
                proof {
                    assert(buf@.subrange(at as int, offset + 1) =~= wire::name_bytes(
                        dv.take(i + 1),
                    ));
                }
                offset = offset + 1;
            },
            NameElement::Reserved => {
                return Err(Error::InvalidDomainName);
            },
        }
        i = i + 1;
    }
    proof {
        assert(dv.take(name@.len() as int) =~= dv);
        assert(dv.skip(name@.len() as int) =~= Seq::<wire::NameElemModel>::empty());
    }
    Ok(offset)
}

/// Encode a name's elements in order into the start of `buf`.
///
/// Labels are written as a length byte plus payload, pointers as two bytes
/// `0xC0 | high6, low8`, and the root as a single zero byte. Encoding a
/// reserved element fails with `InvalidDomainName`; an element that does
/// not fit fails with `InsufficientData`. Bytes already written before a
/// failure remain in `buf`. Returns the number of bytes written.
pub fn encode_name(name: &Vec<NameElement>, buf: &mut [u8]) -> (r: Result<usize, Error>)
    requires
        forall|i: int| 0 <= i < name@.len() ==> (#[trigger] name@[i]).wf(),
    ensures
        final(buf)@.len() == old(buf)@.len(),
        (match r {
            Ok(n) => {
                &&& wire::name_encode(name.deep_view(), old(buf)@.len() as int, 0) == Ok::<
                    int,
                    Error,
                >(n as int)
                &&& n == wire::name_bytes(name.deep_view()).len()
                &&& final(buf)@.subrange(0, n as int) == wire::name_bytes(name.deep_view())
                &&& forall|k: int| n <= k < old(buf)@.len() ==> final(buf)@[k] == old(buf)@[k]
            },
            Err(e) => wire::name_encode(name.deep_view(), old(buf)@.len() as int, 0) == Err::<
                int,
                Error,
            >(e),
        }),
{
    encode_name_at(name, buf, 0)
}

} // verus!
