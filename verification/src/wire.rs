use vstd::prelude::*;

use crate::types::{Flags, Header};

verus! {

// ---------------------------------------------------------------------------
// Big-endian multi-byte fields
// ---------------------------------------------------------------------------

/// The value of a big-endian 16-bit field.
pub open spec fn be16(hi: u8, lo: u8) -> int {
    hi * 256 + lo
}

/// The value of a big-endian 32-bit field.
pub open spec fn be32(b0: u8, b1: u8, b2: u8, b3: u8) -> int {
    b0 * 0x1000000 + b1 * 0x10000 + b2 * 0x100 + b3
}

/// The two bytes of a 16-bit value on the wire.
pub open spec fn bytes_be16(w: u16) -> Seq<u8> {
    seq![(w / 256) as u8, (w % 256) as u8]
}

/// The four bytes of a 32-bit value on the wire.
pub open spec fn bytes_be32(w: u32) -> Seq<u8> {
    seq![
        (w / 0x1000000) as u8,
        (w / 0x10000 % 256) as u8,
        (w / 0x100 % 256) as u8,
        (w % 256) as u8,
    ]
}

/// Splitting a 16-bit value into bytes and reading them back is the identity.
pub proof fn lemma_be16_split(w: u16)
    ensures
        be16(bytes_be16(w)[0], bytes_be16(w)[1]) == w,
{
    assert(w / 256 * 256 + w % 256 == w) by (nonlinear_arith);
    assert(w / 256 < 256) by (nonlinear_arith);
}

/// Reading two bytes as a 16-bit value and splitting it back is the
/// identity.
pub proof fn lemma_be16_bytes(hi: u8, lo: u8)
    ensures
        bytes_be16(be16(hi, lo) as u16) == seq![hi, lo],
{
    let w = be16(hi, lo) as u16;
    assert(w / 256 == hi && w % 256 == lo) by (nonlinear_arith)
        requires
            w == hi * 256 + lo,
            hi < 256,
            lo < 256,
    ;
    assert(bytes_be16(w) =~= seq![hi, lo]);
}

/// Reading four bytes as a 32-bit value and splitting it back is the
/// identity.
pub proof fn lemma_be32_bytes(b0: u8, b1: u8, b2: u8, b3: u8)
    ensures
        bytes_be32(be32(b0, b1, b2, b3) as u32) == seq![b0, b1, b2, b3],
{
    let w = be32(b0, b1, b2, b3) as u32;
    assert(w / 0x1000000 == b0 && w / 0x10000 % 256 == b1 && w / 0x100 % 256 == b2 && w % 256
        == b3) by (bit_vector)
        requires
            w == b0 * 0x1000000 + b1 * 0x10000 + b2 * 0x100 + b3,
    ;
    assert(bytes_be32(w) =~= seq![b0, b1, b2, b3]);
}

/// Splitting a 32-bit value into bytes and reading them back is the identity.
pub proof fn lemma_be32_split(w: u32)
    ensures
        be32(bytes_be32(w)[0], bytes_be32(w)[1], bytes_be32(w)[2], bytes_be32(w)[3]) == w,
{
    assert(w / 0x1000000 < 256) by (nonlinear_arith);
    assert(w / 0x1000000 * 0x1000000 + w / 0x10000 % 256 * 0x10000 + w / 0x100 % 256 * 0x100 + w
        % 256 == w) by (bit_vector);
}

// ---------------------------------------------------------------------------
// Header layout
// ---------------------------------------------------------------------------

/// The value of the 16-bit flags word for a decomposed flags bitfield.
pub open spec fn flags_word(f: Flags) -> int {
    (if f.qr { 0x8000int } else { 0int }) + f.opcode * 0x800
    + (if f.aa { 0x400int } else { 0int }) + (if f.tc { 0x200int } else { 0int })
    + (if f.rd { 0x100int } else { 0int }) + (if f.ra { 0x80int } else { 0int })
    + f.z * 0x10 + f.rcode
}

/// The decomposition of a 16-bit flags word into its bitfield.
pub open spec fn flags_of_word(w: int) -> Flags {
    Flags {
        qr: w / 0x8000 % 2 == 1,
        opcode: (w / 0x800 % 16) as u8,
        aa: w / 0x400 % 2 == 1,
        tc: w / 0x200 % 2 == 1,
        rd: w / 0x100 % 2 == 1,
        ra: w / 0x80 % 2 == 1,
        z: (w / 0x10 % 8) as u8,
        rcode: (w % 16) as u8,
    }
}

/// Decomposing a flags word and recomposing it is the identity.
pub proof fn lemma_flags_word_roundtrip(w: u16)
    ensures
        flags_of_word(w as int).wf(),
        flags_word(flags_of_word(w as int)) == w,
{
    assert((if w / 0x8000 % 2 == 1 { 0x8000int } else { 0int }) + (w / 0x800 % 16) * 0x800 + (if w
        / 0x400 % 2 == 1 { 0x400int } else { 0int }) + (if w / 0x200 % 2 == 1 { 0x200int } else {
        0int
    }) + (if w / 0x100 % 2 == 1 { 0x100int } else { 0int }) + (if w / 0x80 % 2 == 1 { 0x80int
    } else { 0int }) + (w / 0x10 % 8) * 0x10 + (w % 16) == w) by (bit_vector);
}

/// Recomposing a well-formed flags bitfield and decomposing it is the identity.
pub proof fn lemma_flags_of_word_roundtrip(f: Flags)
    requires
        f.wf(),
    ensures
        0 <= flags_word(f) < 0x10000,
        flags_of_word(flags_word(f)) == f,
{
    let q: u32 = if f.qr { 1 } else { 0 };
    let a: u32 = if f.aa { 1 } else { 0 };
    let t: u32 = if f.tc { 1 } else { 0 };
    let rr: u32 = if f.rd { 1 } else { 0 };
    let ar: u32 = if f.ra { 1 } else { 0 };
    let op: u32 = f.opcode as u32;
    let zz: u32 = f.z as u32;
    let rc: u32 = f.rcode as u32;
    assert(flags_word(f) == q * 0x8000 + op * 0x800 + a * 0x400 + t * 0x200 + rr * 0x100 + ar
        * 0x80 + zz * 0x10 + rc);
    assert({
        let w2 = q * 0x8000 + op * 0x800 + a * 0x400 + t * 0x200 + rr * 0x100 + ar * 0x80 + zz
            * 0x10 + rc;
        q <= 1 && a <= 1 && t <= 1 && rr <= 1 && ar <= 1 && op < 16 && zz < 8 && rc < 16 ==> {
            &&& 0 <= w2 < 0x10000
            &&& w2 / 0x8000 % 2 == q
            &&& w2 / 0x800 % 16 == op
            &&& w2 / 0x400 % 2 == a
            &&& w2 / 0x200 % 2 == t
            &&& w2 / 0x100 % 2 == rr
            &&& w2 / 0x80 % 2 == ar
            &&& w2 / 0x10 % 8 == zz
            &&& w2 % 16 == rc
        }
    }) by (bit_vector);
}

// ---------------------------------------------------------------------------
// Domain names
// ---------------------------------------------------------------------------

/// The mathematical model of one domain-name element on the wire.
pub enum NameElemModel {
    /// A label's payload bytes (1 to 63 of them).
    Label(Seq<u8>),
    /// A 14-bit back-reference to an earlier absolute offset.
    Pointer(u16),
    /// The zero-length terminator.
    Root,
    /// A length byte in [64, 191], reserved by RFC1035; no payload.
    Reserved,
}

impl NameElemModel {
    /// Labels carry 1 to 63 bytes; pointers fit in 14 bits.
    pub open spec fn wf(self) -> bool {
        match self {
            NameElemModel::Label(d) => 1 <= d.len() <= 63,
            NameElemModel::Pointer(p) => p < 16384,
            NameElemModel::Root => true,
            NameElemModel::Reserved => true,
        }
    }
}

/// The 14-bit pointer value held in a 2-byte compression pointer.
pub open spec fn ptr_value(b0: u8, b1: u8) -> int {
    (b0 % 64) * 256 + b1
}

/// The arithmetic pointer value equals the mask-and-shift form of RFC1035.
pub proof fn lemma_ptr_value_bits(b0: u8, b1: u8)
    ensures
        ptr_value(b0, b1) == (((b0 as u16) & 0x3F) << 8 | (b1 as u16)),
{
    assert((b0 % 64) as u16 * 256 + b1 as u16 == (((b0 as u16) & 0x3F) << 8 | (b1 as u16)))
        by (bit_vector);
}

/// Decode a domain name starting at absolute offset `pos`: the sequence of
/// elements and the absolute end offset, or `None` when a required read
/// would exceed the buffer. A name terminates at its first root or pointer
/// element; reserved length bytes are recorded and skipped.
pub open spec fn name_decode(data: Seq<u8>, pos: int) -> Option<(Seq<NameElemModel>, int)>
    decreases data.len() - pos,
{
    if pos < 0 || pos >= data.len() {
        None
    } else {
        let b = data[pos];
        if b == 0 {
            Some((seq![NameElemModel::Root], pos + 1))
        } else if b >= 192 {
            if pos + 1 < data.len() {
                Some(
                    (
                        seq![NameElemModel::Pointer(ptr_value(b, data[pos + 1]) as u16)],
                        pos + 2,
                    ),
                )
            } else {
                None
            }
        } else if b >= 64 {
            match name_decode(data, pos + 1) {
                Some(r) => Some((seq![NameElemModel::Reserved] + r.0, r.1)),
                None => None,
            }
        } else {
            if pos + 1 + b <= data.len() {
                match name_decode(data, pos + 1 + b) {
                    Some(r) => Some(
                        (seq![NameElemModel::Label(data.subrange(pos + 1, pos + 1 + b))] + r.0, r.1),
                    ),
                    None => None,
                }
            } else {
                None
            }
        }
    }
}

/// A length byte in [64, 191] yields a reserved element and advances
/// exactly one byte, consuming no payload: the rest of the name goes on at
/// the very next offset.
pub proof fn lemma_reserved_band(data: Seq<u8>, pos: int)
    requires
        0 <= pos < data.len(),
        64 <= data[pos] <= 191,
    ensures
        name_decode(data, pos) == (match name_decode(data, pos + 1) {
            Option::Some(r) => Option::Some(
                (seq![NameElemModel::Reserved] + r.0, r.1),
            ),
            Option::None => Option::None::<(Seq<NameElemModel>, int)>,
        }),
{
}

/// A length byte of 192 or more yields a pointer whose value is the low
/// 6 bits of the first byte joined with the second byte, and consumes
/// exactly two bytes.
pub proof fn lemma_pointer_band(data: Seq<u8>, pos: int)
    requires
        0 <= pos,
        pos + 1 < data.len(),
        data[pos] >= 192,
    ensures
        name_decode(data, pos) == Option::Some(
            (
                seq![
                    NameElemModel::Pointer(
                        ((data[pos] as u16) & 0x3F) << 8 | (data[pos + 1] as u16),
                    ),
                ],
                pos + 2,
            ),
        ),
{
    lemma_ptr_value_bits(data[pos], data[pos + 1]);
}

/// A decoded name consumes at least one byte and ends within the buffer.
pub proof fn lemma_name_decode_bounds(data: Seq<u8>, pos: int)
    requires
        name_decode(data, pos) is Some,
    ensures
        pos < name_decode(data, pos)->Some_0.1 <= data.len(),
        name_decode(data, pos)->Some_0.0.len() >= 1,
    decreases data.len() - pos,
{
    let b = data[pos];
    if b == 0 || b >= 192 {
    } else if b >= 64 {
        lemma_name_decode_bounds(data, pos + 1);
    } else {
        lemma_name_decode_bounds(data, pos + 1 + b);
    }
}

/// The wire bytes of one name element. Reserved elements have no canonical
/// byte representation and are given none.
pub open spec fn elem_bytes(e: NameElemModel) -> Seq<u8> {
    match e {
        NameElemModel::Label(d) => seq![d.len() as u8] + d,
        NameElemModel::Pointer(p) => seq![(192 + p / 256) as u8, (p % 256) as u8],
        NameElemModel::Root => seq![0u8],
        NameElemModel::Reserved => seq![],
    }
}

/// The wire bytes of a whole name: its elements' bytes in order.
pub open spec fn name_bytes(es: Seq<NameElemModel>) -> Seq<u8>
    decreases es.len(),
{
    if es.len() == 0 {
        seq![]
    } else {
        elem_bytes(es[0]) + name_bytes(es.drop_first())
    }
}

/// Appending an element appends its bytes.
pub proof fn lemma_name_bytes_push(es: Seq<NameElemModel>, e: NameElemModel)
    ensures
        name_bytes(es.push(e)) == name_bytes(es) + elem_bytes(e),
    decreases es.len(),
{
    if es.len() == 0 {
        reveal_with_fuel(name_bytes, 2);
        assert(es.push(e)[0] == e);
        assert(es.push(e).drop_first() =~= Seq::<NameElemModel>::empty());
        assert(name_bytes(es.push(e)) =~= name_bytes(es) + elem_bytes(e));
    } else {
        assert(es.push(e)[0] == es[0]);
        assert(es.push(e).drop_first() =~= es.drop_first().push(e));
        lemma_name_bytes_push(es.drop_first(), e);
        assert(name_bytes(es.push(e)) == elem_bytes(es[0]) + (name_bytes(es.drop_first())
            + elem_bytes(e)));
        assert(elem_bytes(es[0]) + (name_bytes(es.drop_first()) + elem_bytes(e)) =~= (elem_bytes(
            es[0],
        ) + name_bytes(es.drop_first())) + elem_bytes(e));
        assert(name_bytes(es) == elem_bytes(es[0]) + name_bytes(es.drop_first()));
    }
}

/// The outcome of encoding a name's elements in order into a buffer of
/// length `buflen`, starting at `offset`: the end offset, or the first
/// failure (a reserved element, or an element that does not fit).
pub open spec fn name_encode(es: Seq<NameElemModel>, buflen: int, offset: int) -> Result<
    int,
    crate::error::Error,
>
    decreases es.len(),
{
    if es.len() == 0 {
        Ok(offset)
    } else if es[0] is Reserved {
        Err(crate::error::Error::InvalidDomainName)
    } else if offset + elem_bytes(es[0]).len() <= buflen {
        name_encode(es.drop_first(), buflen, offset + elem_bytes(es[0]).len())
    } else {
        Err(crate::error::Error::InsufficientData)
    }
}

/// A successful encode ends exactly `name_bytes` further along.
pub proof fn lemma_name_encode_len(es: Seq<NameElemModel>, buflen: int, offset: int)
    requires
        name_encode(es, buflen, offset) is Ok,
    ensures
        name_encode(es, buflen, offset)->Ok_0 == offset + name_bytes(es).len(),
        offset + name_bytes(es).len() <= buflen || es.len() == 0,
    decreases es.len(),
{
    if es.len() == 0 {
    } else {
        lemma_name_encode_len(es.drop_first(), buflen, offset + elem_bytes(es[0]).len());
        if es.drop_first().len() == 0 {
        }
    }
}

// ---------------------------------------------------------------------------
// Questions, resource records, messages
// ---------------------------------------------------------------------------

/// The mathematical model of a question entry.
pub struct QuestionModel {
    pub name: Seq<NameElemModel>,
    pub q_type: u16,
    pub q_class: u16,
}

/// The mathematical model of a resource record entry.
pub struct RecordModel {
    pub name: Seq<NameElemModel>,
    pub rr_type: u16,
    pub rr_class: u16,
    pub rr_ttl: u32,
    pub rr_rd_length: u16,
    pub rr_data: Seq<u8>,
}

/// The mathematical model of a whole message.
pub struct MessageModel {
    pub header: Header,
    pub question: Seq<QuestionModel>,
    pub answer: Seq<RecordModel>,
    pub authority: Seq<RecordModel>,
    pub additional: Seq<RecordModel>,
}

/// Decode one question: a name read from `msg` at absolute offset
/// `moff + off`, then 4 trailing bytes read from `data` at the relative
/// offset where the name ended. Returns the question and the relative end
/// offset, or `None` when a read would exceed a buffer.
pub open spec fn question_decode(data: Seq<u8>, msg: Seq<u8>, moff: int, off: int) -> Option<
    (QuestionModel, int),
> {
    match name_decode(msg, moff + off) {
        Option::None => Option::None,
        Option::Some((es, nend)) => {
            let noff = nend - moff;
            if noff + 4 <= data.len() {
                Option::Some(
                    (
                        QuestionModel {
                            name: es,
                            q_type: be16(data[noff], data[noff + 1]) as u16,
                            q_class: be16(data[noff + 2], data[noff + 3]) as u16,
                        },
                        noff + 4,
                    ),
                )
            } else {
                Option::None
            }
        },
    }
}

/// Decode `n` questions in sequence, starting at relative offset `off`.
pub open spec fn questions_decode(data: Seq<u8>, msg: Seq<u8>, moff: int, off: int, n: nat) -> Option<
    (Seq<QuestionModel>, int),
>
    decreases n,
{
    if n == 0 {
        Option::Some((Seq::empty(), off))
    } else {
        match question_decode(data, msg, moff, off) {
            Option::None => Option::None,
            Option::Some((q, end)) => match questions_decode(data, msg, moff, end, (n - 1) as nat) {
                Option::None => Option::None,
                Option::Some((qs, fin)) => Option::Some((seq![q] + qs, fin)),
            },
        }
    }
}

/// Decode one resource record from the start of `data`: a name read from
/// `msg` at absolute offset `moff`, then 10 fixed bytes and RDLENGTH opaque
/// bytes read from `data` at the relative offset where the name ended.
pub open spec fn record_decode(data: Seq<u8>, msg: Seq<u8>, moff: int) -> Option<
    (RecordModel, int),
> {
    match name_decode(msg, moff) {
        Option::None => Option::None,
        Option::Some((es, nend)) => {
            let noff = nend - moff;
            if noff + 10 <= data.len() {
                let rdlen = be16(data[noff + 8], data[noff + 9]);
                if noff + 10 + rdlen <= data.len() {
                    Option::Some(
                        (
                            RecordModel {
                                name: es,
                                rr_type: be16(data[noff], data[noff + 1]) as u16,
                                rr_class: be16(data[noff + 2], data[noff + 3]) as u16,
                                rr_ttl: be32(
                                    data[noff + 4],
                                    data[noff + 5],
                                    data[noff + 6],
                                    data[noff + 7],
                                ) as u32,
                                rr_rd_length: rdlen as u16,
                                rr_data: data.subrange(noff + 10, noff + 10 + rdlen),
                            },
                            noff + 10 + rdlen,
                        ),
                    )
                } else {
                    Option::None
                }
            } else {
                Option::None
            }
        },
    }
}

/// Decode `n` resource records in sequence: each record is decoded from the
/// remainder of `data` past the previous record's end.
pub open spec fn records_decode(data: Seq<u8>, msg: Seq<u8>, moff: int, off: int, n: nat) -> Option<
    (Seq<RecordModel>, int),
>
    decreases n,
{
    if n == 0 {
        Option::Some((Seq::empty(), off))
    } else {
        match record_decode(data.skip(off), msg, moff + off) {
            Option::None => Option::None,
            Option::Some((r, end)) => match records_decode(
                data,
                msg,
                moff,
                off + end,
                (n - 1) as nat,
            ) {
                Option::None => Option::None,
                Option::Some((rs, fin)) => Option::Some((seq![r] + rs, fin)),
            },
        }
    }
}

/// Decode a whole message: header, then question, answer, authority and
/// additional sections in fixed order, each section's entry count taken
/// from the header. Returns the message and the absolute end offset.
pub open spec fn message_decode(data: Seq<u8>) -> Option<(MessageModel, int)> {
    if data.len() < 12 {
        Option::None
    } else {
        let h = header_of_bytes(data);
        match questions_decode(data.skip(12), data, 12, 0, h.qd_count as nat) {
            Option::None => Option::None,
            Option::Some((qs, q_end)) => {
                let a_off = 12 + q_end;
                match records_decode(data.skip(a_off), data, a_off, 0, h.an_count as nat) {
                    Option::None => Option::None,
                    Option::Some((ans, a_end)) => {
                        let u_off = a_off + a_end;
                        match records_decode(data.skip(u_off), data, u_off, 0, h.ns_count as nat) {
                            Option::None => Option::None,
                            Option::Some((aut, u_end)) => {
                                let d_off = u_off + u_end;
                                match records_decode(
                                    data.skip(d_off),
                                    data,
                                    d_off,
                                    0,
                                    h.ar_count as nat,
                                ) {
                                    Option::None => Option::None,
                                    Option::Some((add, d_end)) => Option::Some(
                                        (
                                            MessageModel {
                                                header: h,
                                                question: qs,
                                                answer: ans,
                                                authority: aut,
                                                additional: add,
                                            },
                                            d_off + d_end,
                                        ),
                                    ),
                                }
                            },
                        }
                    },
                }
            },
        }
    }
}

/// The outcome of encoding a sequence of questions into a buffer of length
/// `buflen`, starting at `off`: the end offset, or the first failure.
pub open spec fn questions_encode(qs: Seq<QuestionModel>, buflen: int, off: int) -> Result<
    int,
    crate::error::Error,
>
    decreases qs.len(),
{
    if qs.len() == 0 {
        Ok(off)
    } else {
        match name_encode(qs[0].name, buflen, off) {
            Err(e) => Err(e),
            Ok(noff) => if noff + 4 <= buflen {
                questions_encode(qs.drop_first(), buflen, noff + 4)
            } else {
                Err(crate::error::Error::InsufficientData)
            },
        }
    }
}

/// The outcome of encoding one resource record into a buffer of length
/// `buflen`, starting at `off`: the end offset, or the first failure.
pub open spec fn record_encode(r: RecordModel, buflen: int, off: int) -> Result<
    int,
    crate::error::Error,
> {
    match name_encode(r.name, buflen, off) {
        Err(e) => Err(e),
        Ok(noff) => if noff + 10 <= buflen {
            if noff + 10 + r.rr_data.len() <= buflen {
                Ok(noff + 10 + r.rr_data.len())
            } else {
                Err(crate::error::Error::InsufficientData)
            }
        } else {
            Err(crate::error::Error::InsufficientData)
        },
    }
}

/// The outcome of encoding a sequence of resource records.
pub open spec fn records_encode(rs: Seq<RecordModel>, buflen: int, off: int) -> Result<
    int,
    crate::error::Error,
>
    decreases rs.len(),
{
    if rs.len() == 0 {
        Ok(off)
    } else {
        match record_encode(rs[0], buflen, off) {
            Err(e) => Err(e),
            Ok(end) => records_encode(rs.drop_first(), buflen, end),
        }
    }
}

/// Whether a name holds a reserved element, which cannot be encoded.
pub open spec fn name_has_reserved(es: Seq<NameElemModel>) -> bool {
    exists|i: int| 0 <= i < es.len() && es[i] is Reserved
}

/// Whether any question's name holds a reserved element.
pub open spec fn questions_have_reserved(qs: Seq<QuestionModel>) -> bool {
    exists|i: int| 0 <= i < qs.len() && name_has_reserved(qs[i].name)
}

/// Whether any record's name holds a reserved element.
pub open spec fn records_have_reserved(rs: Seq<RecordModel>) -> bool {
    exists|i: int| 0 <= i < rs.len() && name_has_reserved(rs[i].name)
}

/// Whether any name anywhere in the message holds a reserved element.
pub open spec fn message_has_reserved(m: MessageModel) -> bool {
    ||| questions_have_reserved(m.question)
    ||| records_have_reserved(m.answer)
    ||| records_have_reserved(m.authority)
    ||| records_have_reserved(m.additional)
}

/// Into a buffer with room for all its bytes, a name encode fails exactly
/// on a reserved element, and otherwise writes all its bytes.
pub proof fn lemma_name_encode_fits(es: Seq<NameElemModel>, buflen: int, off: int)
    requires
        0 <= off,
        off + name_bytes(es).len() <= buflen,
    ensures
        name_encode(es, buflen, off) == (if name_has_reserved(es) {
            Err::<int, crate::error::Error>(crate::error::Error::InvalidDomainName)
        } else {
            Ok::<int, crate::error::Error>(off + name_bytes(es).len())
        }),
    decreases es.len(),
{
    if es.len() == 0 {
        assert(!name_has_reserved(es));
    } else if es[0] is Reserved {
        assert(name_has_reserved(es));
    } else {
        assert(name_bytes(es) == elem_bytes(es[0]) + name_bytes(es.drop_first()));
        lemma_name_encode_fits(es.drop_first(), buflen, off + elem_bytes(es[0]).len());
        if name_has_reserved(es.drop_first()) {
            let i = choose|i: int|
                0 <= i < es.drop_first().len() && es.drop_first()[i] is Reserved;
            assert(es[i + 1] is Reserved);
            assert(name_has_reserved(es));
        } else {
            assert(!name_has_reserved(es)) by {
                if name_has_reserved(es) {
                    let i = choose|i: int| 0 <= i < es.len() && es[i] is Reserved;
                    assert(i != 0);
                    assert(es.drop_first()[i - 1] is Reserved);
                }
            }
        }
    }
}

/// Into a buffer with room for all their bytes, a question-sequence encode
/// fails exactly on a reserved element.
pub proof fn lemma_questions_encode_fits(qs: Seq<QuestionModel>, buflen: int, off: int)
    requires
        0 <= off,
        off + questions_bytes(qs).len() <= buflen,
    ensures
        questions_encode(qs, buflen, off) == (if questions_have_reserved(qs) {
            Err::<int, crate::error::Error>(crate::error::Error::InvalidDomainName)
        } else {
            Ok::<int, crate::error::Error>(off + questions_bytes(qs).len())
        }),
    decreases qs.len(),
{
    if qs.len() == 0 {
        assert(!questions_have_reserved(qs));
    } else {
        assert(questions_bytes(qs) == question_bytes(qs[0]) + questions_bytes(qs.drop_first()));
        lemma_name_encode_fits(qs[0].name, buflen, off);
        if name_has_reserved(qs[0].name) {
            assert(questions_have_reserved(qs));
        } else {
            let noff = off + name_bytes(qs[0].name).len();
            lemma_questions_encode_fits(qs.drop_first(), buflen, noff + 4);
            if questions_have_reserved(qs.drop_first()) {
                let i = choose|i: int|
                    0 <= i < qs.drop_first().len() && name_has_reserved(qs.drop_first()[i].name);
                assert(name_has_reserved(qs[i + 1].name));
                assert(questions_have_reserved(qs));
            } else {
                assert(!questions_have_reserved(qs)) by {
                    if questions_have_reserved(qs) {
                        let i = choose|i: int|
                            0 <= i < qs.len() && name_has_reserved(qs[i].name);
                        assert(i != 0);
                        assert(name_has_reserved(qs.drop_first()[i - 1].name));
                    }
                }
            }
        }
    }
}

/// Into a buffer with room for all their bytes, a record-sequence encode
/// fails exactly on a reserved element.
pub proof fn lemma_records_encode_fits(rs: Seq<RecordModel>, buflen: int, off: int)
    requires
        0 <= off,
        off + records_bytes(rs).len() <= buflen,
    ensures
        records_encode(rs, buflen, off) == (if records_have_reserved(rs) {
            Err::<int, crate::error::Error>(crate::error::Error::InvalidDomainName)
        } else {
            Ok::<int, crate::error::Error>(off + records_bytes(rs).len())
        }),
    decreases rs.len(),
{
    if rs.len() == 0 {
        assert(!records_have_reserved(rs));
    } else {
        assert(records_bytes(rs) == record_bytes(rs[0]) + records_bytes(rs.drop_first()));
        lemma_name_encode_fits(rs[0].name, buflen, off);
        if name_has_reserved(rs[0].name) {
            assert(records_have_reserved(rs));
        } else {
            let end = off + record_bytes(rs[0]).len();
            lemma_records_encode_fits(rs.drop_first(), buflen, end);
            if records_have_reserved(rs.drop_first()) {
                let i = choose|i: int|
                    0 <= i < rs.drop_first().len() && name_has_reserved(rs.drop_first()[i].name);
                assert(name_has_reserved(rs[i + 1].name));
                assert(records_have_reserved(rs));
            } else {
                assert(!records_have_reserved(rs)) by {
                    if records_have_reserved(rs) {
                        let i = choose|i: int|
                            0 <= i < rs.len() && name_has_reserved(rs[i].name);
                        assert(i != 0);
                        assert(name_has_reserved(rs.drop_first()[i - 1].name));
                    }
                }
            }
        }
    }
}

/// A decoded question ends after its start and within the buffer.
pub proof fn lemma_question_decode_bounds(data: Seq<u8>, msg: Seq<u8>, moff: int, off: int)
    requires
        moff >= 0,
        off >= 0,
        question_decode(data, msg, moff, off) is Some,
    ensures
        off < question_decode(data, msg, moff, off)->Some_0.1 <= data.len(),
{
    lemma_name_decode_bounds(msg, moff + off);
}

/// Decoding `n` questions moves the offset forward and stays within the
/// buffer.
pub proof fn lemma_questions_decode_bounds(data: Seq<u8>, msg: Seq<u8>, moff: int, off: int, n: nat)
    requires
        moff >= 0,
        0 <= off <= data.len(),
        questions_decode(data, msg, moff, off, n) is Some,
    ensures
        off <= questions_decode(data, msg, moff, off, n)->Some_0.1 <= data.len(),
        questions_decode(data, msg, moff, off, n)->Some_0.0.len() == n,
    decreases n,
{
    if n == 0 {
    } else {
        lemma_question_decode_bounds(data, msg, moff, off);
        let end = question_decode(data, msg, moff, off)->Some_0.1;
        lemma_questions_decode_bounds(data, msg, moff, end, (n - 1) as nat);
    }
}

/// A decoded record ends after its start and within the buffer.
pub proof fn lemma_record_decode_bounds(data: Seq<u8>, msg: Seq<u8>, moff: int)
    requires
        moff >= 0,
        record_decode(data, msg, moff) is Some,
    ensures
        0 < record_decode(data, msg, moff)->Some_0.1 <= data.len(),
{
    lemma_name_decode_bounds(msg, moff);
}

/// Decoding `n` records moves the offset forward and stays within the
/// buffer.
pub proof fn lemma_records_decode_bounds(data: Seq<u8>, msg: Seq<u8>, moff: int, off: int, n: nat)
    requires
        moff >= 0,
        0 <= off <= data.len(),
        records_decode(data, msg, moff, off, n) is Some,
    ensures
        off <= records_decode(data, msg, moff, off, n)->Some_0.1 <= data.len(),
        records_decode(data, msg, moff, off, n)->Some_0.0.len() == n,
    decreases n,
{
    if n == 0 {
    } else {
        lemma_record_decode_bounds(data.skip(off), msg, moff + off);
        let end = record_decode(data.skip(off), msg, moff + off)->Some_0.1;
        lemma_records_decode_bounds(data, msg, moff, off + end, (n - 1) as nat);
    }
}

/// The wire bytes of one question.
pub open spec fn question_bytes(q: QuestionModel) -> Seq<u8> {
    name_bytes(q.name) + bytes_be16(q.q_type) + bytes_be16(q.q_class)
}

/// The wire bytes of one resource record.
pub open spec fn record_bytes(r: RecordModel) -> Seq<u8> {
    name_bytes(r.name) + bytes_be16(r.rr_type) + bytes_be16(r.rr_class) + bytes_be32(r.rr_ttl)
        + bytes_be16(r.rr_rd_length) + r.rr_data
}

/// The wire bytes of a sequence of questions.
pub open spec fn questions_bytes(qs: Seq<QuestionModel>) -> Seq<u8>
    decreases qs.len(),
{
    if qs.len() == 0 {
        seq![]
    } else {
        question_bytes(qs[0]) + questions_bytes(qs.drop_first())
    }
}

/// The wire bytes of a sequence of resource records.
pub open spec fn records_bytes(rs: Seq<RecordModel>) -> Seq<u8>
    decreases rs.len(),
{
    if rs.len() == 0 {
        seq![]
    } else {
        record_bytes(rs[0]) + records_bytes(rs.drop_first())
    }
}

/// The wire bytes of a whole message.
pub open spec fn message_bytes(m: MessageModel) -> Seq<u8> {
    header_bytes(m.header) + questions_bytes(m.question) + records_bytes(m.answer) + records_bytes(
        m.authority,
    ) + records_bytes(m.additional)
}

/// Appending a question appends its bytes.
pub proof fn lemma_questions_bytes_push(qs: Seq<QuestionModel>, q: QuestionModel)
    ensures
        questions_bytes(qs.push(q)) == questions_bytes(qs) + question_bytes(q),
    decreases qs.len(),
{
    if qs.len() == 0 {
        reveal_with_fuel(questions_bytes, 2);
        assert(qs.push(q)[0] == q);
        assert(qs.push(q).drop_first() =~= Seq::<QuestionModel>::empty());
        assert(questions_bytes(qs.push(q)) =~= questions_bytes(qs) + question_bytes(q));
    } else {
        assert(qs.push(q)[0] == qs[0]);
        assert(qs.push(q).drop_first() =~= qs.drop_first().push(q));
        lemma_questions_bytes_push(qs.drop_first(), q);
        assert(questions_bytes(qs.push(q)) == question_bytes(qs[0]) + (questions_bytes(
            qs.drop_first(),
        ) + question_bytes(q)));
        assert(question_bytes(qs[0]) + (questions_bytes(qs.drop_first()) + question_bytes(q)) =~= (
        question_bytes(qs[0]) + questions_bytes(qs.drop_first())) + question_bytes(q));
    }
}

/// Appending a record appends its bytes.
pub proof fn lemma_records_bytes_push(rs: Seq<RecordModel>, r: RecordModel)
    ensures
        records_bytes(rs.push(r)) == records_bytes(rs) + record_bytes(r),
    decreases rs.len(),
{
    if rs.len() == 0 {
        reveal_with_fuel(records_bytes, 2);
        assert(rs.push(r)[0] == r);
        assert(rs.push(r).drop_first() =~= Seq::<RecordModel>::empty());
        assert(records_bytes(rs.push(r)) =~= records_bytes(rs) + record_bytes(r));
    } else {
        assert(rs.push(r)[0] == rs[0]);
        assert(rs.push(r).drop_first() =~= rs.drop_first().push(r));
        lemma_records_bytes_push(rs.drop_first(), r);
        assert(records_bytes(rs.push(r)) == record_bytes(rs[0]) + (records_bytes(rs.drop_first())
            + record_bytes(r)));
        assert(record_bytes(rs[0]) + (records_bytes(rs.drop_first()) + record_bytes(r)) =~= (
        record_bytes(rs[0]) + records_bytes(rs.drop_first())) + record_bytes(r));
    }
}

/// The header decoded from the first 12 bytes of a buffer.
pub open spec fn header_of_bytes(data: Seq<u8>) -> Header
    recommends
        data.len() >= 12,
{
    Header {
        id: be16(data[0], data[1]) as u16,
        flags: flags_of_word(be16(data[2], data[3])),
        qd_count: be16(data[4], data[5]) as u16,
        an_count: be16(data[6], data[7]) as u16,
        ns_count: be16(data[8], data[9]) as u16,
        ar_count: be16(data[10], data[11]) as u16,
    }
}

/// The 12 wire bytes of a header.
pub open spec fn header_bytes(h: Header) -> Seq<u8> {
    bytes_be16(h.id) + bytes_be16(flags_word(h.flags) as u16) + bytes_be16(h.qd_count)
        + bytes_be16(h.an_count) + bytes_be16(h.ns_count) + bytes_be16(h.ar_count)
}

} // verus!
