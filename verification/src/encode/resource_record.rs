use vstd::prelude::*;

use crate::encode::name::encode_name_at;
use crate::encode::write_slice;
use crate::error::Error;
use crate::types::ResourceRecord;
use crate::wire;

verus! {

/// Encode one resource record into `buf` starting at `at`, leaving every
/// byte outside the written range as it was. Returns the end offset.
pub(crate) fn encode_record_at(record: &ResourceRecord, buf: &mut [u8], at: usize) -> (r: Result<
    usize,
    Error,
>)
    requires
        forall|i: int| 0 <= i < record.rr_name@.len() ==> (#[trigger] record.rr_name@[i]).wf(),
        at <= old(buf)@.len(),
    ensures
        final(buf)@.len() == old(buf)@.len(),
        (match r {
            Ok(end) => {
                &&& wire::record_encode(record.deep_view(), old(buf)@.len() as int, at as int)
                    == Ok::<int, Error>(end as int)
                &&& at + wire::record_bytes(record.deep_view()).len() == end
                &&& final(buf)@.subrange(at as int, end as int) == wire::record_bytes(
                    record.deep_view(),
                )
                &&& forall|k: int|
                    0 <= k < old(buf)@.len() && !(at <= k < end) ==> final(buf)@[k] == old(
                        buf,
                    )@[k]
            },
            Err(e) => wire::record_encode(record.deep_view(), old(buf)@.len() as int, at as int)
                == Err::<int, Error>(e),
        }),
{
    let ghost r_m = record.deep_view();
    let ghost buflen = buf@.len() as int;

    let noff = match encode_name_at(&record.rr_name, buf, at) {
        Ok(n) => n,
        Err(e) => {
            return Err(e);
        },
    };
    proof {
        wire::lemma_name_encode_len(r_m.name, buflen, at as int);
    }
    if noff > buf.len() || buf.len() - noff < 10 {
        return Err(Error::InsufficientData);
    }
    if record.rr_data.len() > buf.len() - noff - 10 {
        return Err(Error::InsufficientData);
    }
    let ghost after_name = buf@;
    buf[noff] = (record.rr_type / 256) as u8;
    buf[noff + 1] = (record.rr_type % 256) as u8;
    buf[noff + 2] = (record.rr_class / 256) as u8;
    buf[noff + 3] = (record.rr_class % 256) as u8;
    buf[noff + 4] = (record.rr_ttl / 0x1000000) as u8;
    buf[noff + 5] = (record.rr_ttl / 0x10000 % 256) as u8;
    buf[noff + 6] = (record.rr_ttl / 0x100 % 256) as u8;
    buf[noff + 7] = (record.rr_ttl % 256) as u8;
    buf[noff + 8] = (record.rr_rd_length / 256) as u8;
    buf[noff + 9] = (record.rr_rd_length % 256) as u8;
    let ghost after_fixed = buf@;
    write_slice(buf, noff + 10, record.rr_data.as_slice());
    let end: usize = noff + 10 + record.rr_data.len();
    proof {
        assert(buf@.subrange(at as int, noff as int) =~= after_name.subrange(at as int, noff as int));
        assert(buf@.subrange(noff as int, noff + 10) =~= after_fixed.subrange(noff as int, noff
            + 10));
        assert(buf@.subrange(at as int, end as int) =~= wire::record_bytes(r_m));
    }
    Ok(end)
}

/// Encode one resource record into the start of `buf`: its name, the 10
/// fixed type, class, TTL and RDLENGTH bytes, then the RDATA bytes.
/// Fails with `InsufficientData` when a part does not fit, and with
/// `InvalidDomainName` when the name holds a reserved element. Returns the
/// number of bytes written.
pub fn encode_resource_record(record: &ResourceRecord, buf: &mut [u8]) -> (r: Result<usize, Error>)
    requires
        forall|i: int| 0 <= i < record.rr_name@.len() ==> (#[trigger] record.rr_name@[i]).wf(),
    ensures
        final(buf)@.len() == old(buf)@.len(),
        (match r {
            Ok(n) => {
                &&& wire::record_encode(record.deep_view(), old(buf)@.len() as int, 0) == Ok::<
                    int,
                    Error,
                >(n as int)
                &&& n == wire::record_bytes(record.deep_view()).len()
                &&& final(buf)@.subrange(0, n as int) == wire::record_bytes(record.deep_view())
                &&& forall|k: int| n <= k < old(buf)@.len() ==> final(buf)@[k] == old(buf)@[k]
            },
            Err(e) => wire::record_encode(record.deep_view(), old(buf)@.len() as int, 0) == Err::<
                int,
                Error,
            >(e),
        }),
{
    encode_record_at(record, buf, 0)
}

/// Encode a sequence of resource records into `buf` starting at `at`.
pub(crate) fn encode_records_at(records: &Vec<ResourceRecord>, buf: &mut [u8], at: usize) -> (r:
    Result<usize, Error>)
    requires
        forall|i: int, j: int|
            0 <= i < records@.len() && 0 <= j < records@[i].rr_name@.len() ==> (
            #[trigger] records@[i].rr_name@[j]).wf(),
        at <= old(buf)@.len(),
    ensures
        final(buf)@.len() == old(buf)@.len(),
        (match r {
            Ok(end) => {
                &&& wire::records_encode(records.deep_view(), old(buf)@.len() as int, at as int)
                    == Ok::<int, Error>(end as int)
                &&& at + wire::records_bytes(records.deep_view()).len() == end
                &&& final(buf)@.subrange(at as int, end as int) == wire::records_bytes(
                    records.deep_view(),
                )
                &&& forall|k: int|
                    0 <= k < old(buf)@.len() && !(at <= k < end) ==> final(buf)@[k] == old(
                        buf,
                    )@[k]
            },
            Err(e) => wire::records_encode(records.deep_view(), old(buf)@.len() as int, at as int)
                == Err::<int, Error>(e),
        }),
{
    let ghost dv = records.deep_view();
    let ghost buflen = buf@.len() as int;
    let mut offset: usize = at;
    let mut i: usize = 0;
    proof {
        assert(dv.skip(0) =~= dv);
        assert(dv.take(0) =~= Seq::<wire::RecordModel>::empty());
        assert(buf@.subrange(at as int, at as int) =~= wire::records_bytes(dv.take(0)));
    }

    while i < records.len()
        invariant
            i <= records@.len(),
            at <= offset <= buf@.len(),
            dv == records.deep_view(),
            buflen == buf@.len() as int,
            forall|a: int, b: int|
                0 <= a < records@.len() && 0 <= b < records@[a].rr_name@.len() ==> (
                #[trigger] records@[a].rr_name@[b]).wf(),
            wire::records_encode(dv, buflen, at as int) == wire::records_encode(
                dv.skip(i as int),
                buflen,
                offset as int,
            ),
            at + wire::records_bytes(dv.take(i as int)).len() == offset,
            buf@.len() == old(buf)@.len(),
            buf@.subrange(at as int, offset as int) == wire::records_bytes(dv.take(i as int)),
            forall|k: int|
                0 <= k < old(buf)@.len() && !(at <= k < offset) ==> buf@[k] == old(buf)@[k],
        decreases records@.len() - i,
    {
        let ghost done = dv.take(i as int);
        let ghost r_m = dv[i as int];
        proof {
            assert(dv.skip(i as int)[0] == r_m);
            assert(dv.skip(i as int).drop_first() =~= dv.skip(i + 1));
            assert(dv.take(i + 1) =~= done.push(r_m));
            wire::lemma_records_bytes_push(done, r_m);
        }
        let ghost before = buf@;
        let end = match encode_record_at(&records[i], buf, offset) {
            Ok(n) => n,
            Err(e) => {
                return Err(e);
            },
        };
        proof {
            assert(buf@.subrange(at as int, offset as int) =~= before.subrange(
                at as int,
                offset as int,
            ));
            assert(buf@.subrange(at as int, end as int) =~= wire::records_bytes(dv.take(i + 1)));
        }
        offset = end;
        i = i + 1;
    }
    proof {
        assert(dv.take(records@.len() as int) =~= dv);
        assert(dv.skip(records@.len() as int) =~= Seq::<wire::RecordModel>::empty());
    }
    Ok(offset)
}

/// Encode a sequence of resource records into the start of `buf`. Returns
/// the number of bytes written.
pub fn encode_resource_records(records: &Vec<ResourceRecord>, buf: &mut [u8]) -> (r: Result<
    usize,
    Error,
>)
    requires
        forall|i: int, j: int|
            0 <= i < records@.len() && 0 <= j < records@[i].rr_name@.len() ==> (
            #[trigger] records@[i].rr_name@[j]).wf(),
    ensures
        final(buf)@.len() == old(buf)@.len(),
        (match r {
            Ok(n) => {
                &&& wire::records_encode(records.deep_view(), old(buf)@.len() as int, 0) == Ok::<
                    int,
                    Error,
                >(n as int)
                &&& n == wire::records_bytes(records.deep_view()).len()
                &&& final(buf)@.subrange(0, n as int) == wire::records_bytes(records.deep_view())
                &&& forall|k: int| n <= k < old(buf)@.len() ==> final(buf)@[k] == old(buf)@[k]
            },
            Err(e) => wire::records_encode(records.deep_view(), old(buf)@.len() as int, 0) == Err::<
                int,
                Error,
            >(e),
        }),
{
    encode_records_at(records, buf, 0)
}

} // verus!
