use vstd::prelude::*;
use vstd::slice::slice_subrange;

use crate::error::Error;
use crate::types::{Header, Question, ResourceRecord};
use crate::wire;

verus! {

/// Offset from the start of the message buffer. Messages are limited to
/// 65535 bytes, so offsets fit 16 bits.
pub type MsgOffset = u16;

/// Length of the header in bytes.
pub const HEADER_LEN: MsgOffset = 12;

/// First byte of a compression pointer: top 2 bits set.
pub const POINTER_MASK: u8 = 0xC0;

/// Maximum label length.
pub const LABEL_MAX_LEN: u8 = 63;

/// The root label: a single zero byte ending a name.
pub const ROOT_LABEL: u8 = 0;

/// Classification of the first byte of a name element.
#[derive(Clone, Copy, PartialEq, Eq, Debug, Structural)]
pub enum NameElementKind {
    Label,
    Pointer,
    Root,
    Reserved,
}

/// The band a length byte falls in: zero is the root, 192 and above starts
/// a pointer, 63 and below starts a label, the rest is reserved.
pub open spec fn classify_byte(byte: u8) -> NameElementKind {
    if byte == 0 {
        NameElementKind::Root
    } else if byte >= 192 {
        NameElementKind::Pointer
    } else if byte <= 63 {
        NameElementKind::Label
    } else {
        NameElementKind::Reserved
    }
}

/// A single element of a domain name, by offset into the message buffer.
#[derive(Debug, Clone, Copy, PartialEq, Eq, Hash, Structural)]
pub enum NameElementRef {
    /// A label: the offset points at the length byte.
    Label { offset: MsgOffset },
    /// A compression pointer: the offset points at its first byte.
    Pointer { offset: MsgOffset },
    /// The root label: the offset points at the zero byte ending the name.
    Root { offset: MsgOffset },
    /// A reserved length byte in [64, 191].
    Reserved { offset: MsgOffset },
}

/// The element reference a buffer position classifies to.
pub open spec fn elem_ref_at(data: Seq<u8>, o: int) -> NameElementRef {
    match classify_byte(data[o]) {
        NameElementKind::Label => NameElementRef::Label { offset: o as u16 },
        NameElementKind::Pointer => NameElementRef::Pointer { offset: o as u16 },
        NameElementKind::Root => NameElementRef::Root { offset: o as u16 },
        NameElementKind::Reserved => NameElementRef::Reserved { offset: o as u16 },
    }
}

impl NameElementRef {
    /// The offset of this element in the message buffer.
    pub open spec fn spec_offset(&self) -> MsgOffset {
        match *self {
            NameElementRef::Label { offset } => offset,
            NameElementRef::Pointer { offset } => offset,
            NameElementRef::Root { offset } => offset,
            NameElementRef::Reserved { offset } => offset,
        }
    }

    /// Returns the offset of this element in the message buffer.
    pub fn offset(&self) -> (r: MsgOffset)
        ensures
            r == self.spec_offset(),
    {
        match *self {
            NameElementRef::Label { offset } => offset,
            NameElementRef::Pointer { offset } => offset,
            NameElementRef::Root { offset } => offset,
            NameElementRef::Reserved { offset } => offset,
        }
    }

    /// Classify a length byte as a name element kind.
    pub fn classify_first_byte(byte: u8) -> (r: NameElementKind)
        ensures
            r == classify_byte(byte),
    {
        proof {
            assert((byte & 0xC0) == 0xC0 <==> byte >= 192) by (bit_vector);
            assert((byte & 0xC0) == 0 <==> byte < 64) by (bit_vector);
        }
        if byte == ROOT_LABEL {
            NameElementKind::Root
        } else if (byte & POINTER_MASK) == POINTER_MASK {
            NameElementKind::Pointer
        } else if (byte & POINTER_MASK) == 0 && byte <= LABEL_MAX_LEN {
            NameElementKind::Label
        } else {
            NameElementKind::Reserved
        }
    }

    /// Create a reference from an offset, classifying `buf[offset]`; `None`
    /// when the offset is out of the buffer.
    pub fn from_offset(buf: &[u8], offset: MsgOffset) -> (r: Option<NameElementRef>)
        ensures
            offset < buf@.len() ==> r == Some(elem_ref_at(buf@, offset as int)),
            offset >= buf@.len() ==> r is None,
    {
        let off = offset as usize;
        if off >= buf.len() {
            return None;
        }
        let kind = Self::classify_first_byte(buf[off]);
        Some(
            match kind {
                NameElementKind::Label => NameElementRef::Label { offset },
                NameElementKind::Pointer => NameElementRef::Pointer { offset },
                NameElementKind::Root => NameElementRef::Root { offset },
                NameElementKind::Reserved => NameElementRef::Reserved { offset },
            },
        )
    }
}

/// The start offset of each element of the name at `pos`, as far as the
/// scan reaches; the scan stops at a root or pointer element, and a
/// partial list ends where a required read would exceed the buffer.
pub open spec fn name_offsets(data: Seq<u8>, pos: int) -> Seq<int>
    decreases data.len() - pos,
{
    if pos < 0 || pos >= data.len() {
        seq![]
    } else {
        let b = data[pos];
        if b == 0 {
            seq![pos]
        } else if b >= 192 {
            if pos + 1 < data.len() {
                seq![pos]
            } else {
                seq![]
            }
        } else if b >= 64 {
            seq![pos] + name_offsets(data, pos + 1)
        } else if pos + 1 + b <= data.len() {
            seq![pos] + name_offsets(data, pos + 1 + b)
        } else {
            seq![]
        }
    }
}

/// How many whole elements the scan at `pos` can consume before it either
/// ends the name or runs out of buffer.
pub open spec fn prefix_elems(data: Seq<u8>, pos: int) -> nat {
    name_offsets(data, pos).len()
}

/// For a name that decodes, the offset list covers exactly its elements.
pub proof fn lemma_name_offsets_decode(data: Seq<u8>, pos: int)
    requires
        wire::name_decode(data, pos) is Some,
    ensures
        name_offsets(data, pos).len() == wire::name_decode(data, pos)->Some_0.0.len(),
    decreases data.len() - pos,
{
    let b = data[pos];
    if b == 0 || b >= 192 {
    } else if b >= 64 {
        lemma_name_offsets_decode(data, pos + 1);
    } else {
        lemma_name_offsets_decode(data, pos + 1 + b);
    }
}

/// Reference to the header: always at offset 0, length 12.
#[derive(Debug, Clone, Copy, PartialEq, Eq, Hash, Structural)]
pub struct HeaderRef;

impl HeaderRef {
    /// The header's offset in the message buffer: always 0.
    pub fn offset(&self) -> (r: MsgOffset)
        ensures
            r == 0,
    {
        0
    }

    /// The offset just past the header: always 12.
    pub fn end(&self) -> (r: MsgOffset)
        ensures
            r == 12,
    {
        HEADER_LEN
    }

    /// Decode the header from the full message buffer.
    pub fn decode_header(&self, data: &[u8]) -> (r: Result<Header, Error>)
        ensures
            data@.len() >= 12 ==> r == Ok::<_, Error>(wire::header_of_bytes(data@)),
            data@.len() < 12 ==> r == Err::<Header, _>(Error::InvalidHeaderLength),
    {
        match crate::decode::header::decode_header(data) {
            Ok((header, _)) => Ok(header),
            Err(e) => Err(e),
        }
    }
}

/// Reference to one question: its start offset and total wire length.
#[derive(Clone, Copy, PartialEq, Eq, Debug, Hash, Structural)]
pub struct QuestionRef {
    /// Offset of the first byte of the question's name.
    pub offset: MsgOffset,
    /// Length in bytes: name plus the 4 type and class bytes.
    pub len: MsgOffset,
}

impl QuestionRef {
    pub fn new(offset: MsgOffset, len: MsgOffset) -> (r: QuestionRef)
        ensures
            r == (QuestionRef { offset, len }),
    {
        QuestionRef { offset, len }
    }

    /// The offset just past the question, saturating at the offset ceiling.
    pub fn end(&self) -> (r: MsgOffset)
        ensures
            r == if self.offset + self.len > 0xFFFF {
                0xFFFFu16
            } else {
                (self.offset + self.len) as u16
            },
    {
        self.offset.saturating_add(self.len)
    }

    /// Materialize the question this reference points at, reading the full
    /// message buffer again.
    pub fn decode_question(&self, data: &[u8]) -> (r: Result<Question, Error>)
        ensures
            (match r {
                Ok(q) => {
                    &&& wire::question_decode(
                        data@.skip(self.offset as int),
                        data@,
                        self.offset as int,
                        0,
                    ) matches Some(p) && q.deep_view() == p.0
                    &&& q.wf()
                },
                Err(e) => e == Error::InsufficientData && wire::question_decode(
                    data@.skip(self.offset as int),
                    data@,
                    self.offset as int,
                    0,
                ) is None,
            }),
    {
        let off = self.offset as usize;
        if off > data.len() {
            proof {
                assert(wire::name_decode(data@, self.offset as int) is None);
            }
            return Err(Error::InsufficientData);
        }
        let tail = slice_subrange(data, off, data.len());
        proof {
            assert(tail@ =~= data@.skip(self.offset as int));
        }
        match crate::decode::question::decode_question(tail, data, off, 1) {
            Ok((mut questions, _)) => {
                proof {
                    let spec_r = wire::questions_decode(
                        data@.skip(self.offset as int),
                        data@,
                        self.offset as int,
                        0,
                        1,
                    );
                    let head = wire::question_decode(
                        data@.skip(self.offset as int),
                        data@,
                        self.offset as int,
                        0,
                    );
                    assert(spec_r matches Some(p) && {
                        &&& head matches Some(h)
                        &&& p.0 =~= seq![h.0]
                    });
                    assert(questions.deep_view()[0] == head->Some_0.0);
                    assert(questions@[0].deep_view() == questions.deep_view()[0]);
                    assert(questions@[0].wf());
                }
                let question = questions.remove(0);
                proof {
                    assert(question.deep_view() == wire::question_decode(
                        data@.skip(self.offset as int),
                        data@,
                        self.offset as int,
                        0,
                    )->Some_0.0);
                }
                Ok(question)
            },
            Err(e) => {
                proof {
                    if wire::question_decode(
                        data@.skip(self.offset as int),
                        data@,
                        self.offset as int,
                        0,
                    ) is Some {
                        reveal_with_fuel(wire::questions_decode, 2);
                        assert(wire::questions_decode(
                            data@.skip(self.offset as int),
                            data@,
                            self.offset as int,
                            0,
                            1,
                        ) is Some);
                    }
                }
                Err(e)
            },
        }
    }
}

/// Reference to the question section: up to 5 questions.
#[derive(Clone, Copy, PartialEq, Eq, Debug, Hash)]
pub struct QuestionSectionRef {
    pub questions: [QuestionRef; 5],
    pub end_offset: MsgOffset,
    pub count: u8,
}

impl QuestionSectionRef {
    pub fn new(questions: [QuestionRef; 5], end_offset: MsgOffset, count: u8) -> (r:
        QuestionSectionRef)
        ensures
            r == (QuestionSectionRef { questions, end_offset, count }),
    {
        QuestionSectionRef { questions, end_offset, count }
    }

    /// The valid question references, in order.
    pub fn as_slice(&self) -> (r: &[QuestionRef])
        requires
            self.count <= 5,
        ensures
            r@ == self.questions@.take(self.count as int),
    {
        slice_subrange(self.questions.as_slice(), 0, self.count as usize)
    }
}

/// Parse the elements of the name at `offset` into a fixed array of at
/// most 10 element references. Returns the references, their number, and
/// the offset just past the name.
///
/// Fails with `InsufficientData` exactly when the name runs out of buffer
/// within its first 10 elements, and with `InvalidDomainName` exactly when
/// an 11th element begins.
pub(crate) fn parse_name_elements_into(buf: &[u8], offset: MsgOffset) -> (r: Result<
    ([NameElementRef; 10], u8, MsgOffset),
    Error,
>)
    requires
        buf@.len() <= 0xFFFF,
    ensures
        (match r {
            Ok(p) => wire::name_decode(buf@, offset as int) matches Some(d) && {
                &&& p.1 == d.0.len()
                &&& p.1 <= 10
                &&& p.2 == d.1
                &&& forall|i: int|
                    0 <= i < p.1 ==> p.0@[i] == elem_ref_at(
                        buf@,
                        name_offsets(buf@, offset as int)[i],
                    )
                &&& forall|i: int|
                    p.1 <= i < 10 ==> p.0@[i] == (NameElementRef::Root { offset: 0 })
            },
            Err(e) => {
                &&& (e == Error::InsufficientData || e == Error::InvalidDomainName)
                &&& (e == Error::InsufficientData <==> wire::name_decode(
                    buf@,
                    offset as int,
                ) is None && prefix_elems(buf@, offset as int) <= 10)
                &&& (e == Error::InvalidDomainName <==> prefix_elems(buf@, offset as int) >= 11)
            },
        }),
{
    let ghost start: int = offset as int;
    let mut pos: usize = offset as usize;
    let mut elements: [NameElementRef; 10] = [NameElementRef::Root { offset: 0 };10];
    let mut count: u8 = 0;
    let ghost mut done_elems: Seq<wire::NameElemModel> = Seq::empty();
    let ghost mut done_offs: Seq<int> = Seq::empty();
    proof {
        assert(done_elems + wire::name_decode(buf@, start)->Some_0.0 =~= wire::name_decode(
            buf@,
            start,
        )->Some_0.0);
    }

    loop
        invariant_except_break
            (match wire::name_decode(buf@, pos as int) {
                Some(rest) => wire::name_decode(buf@, start) == Some(
                    (done_elems + rest.0, rest.1),
                ),
                None => wire::name_decode(buf@, start) is None,
            }),
            name_offsets(buf@, start) =~= done_offs + name_offsets(buf@, pos as int),
        invariant
            buf@.len() <= 0xFFFF,
            start == offset as int,
            pos == start || pos <= buf@.len(),
            count <= 10,
            count == done_elems.len(),
            count == done_offs.len(),
            forall|i: int| 0 <= i < count ==> elements@[i] == elem_ref_at(buf@, done_offs[i]),
            forall|i: int|
                count <= i < 10 ==> elements@[i] == (NameElementRef::Root { offset: 0 }),
        ensures
            wire::name_decode(buf@, start) == Some((done_elems, pos as int)),
            name_offsets(buf@, start) =~= done_offs,
            count == done_elems.len(),
            count == done_offs.len(),
            count <= 10,
            pos <= buf@.len(),
            forall|i: int| 0 <= i < count ==> elements@[i] == elem_ref_at(buf@, done_offs[i]),
            forall|i: int|
                count <= i < 10 ==> elements@[i] == (NameElementRef::Root { offset: 0 }),
        decreases buf@.len() - pos,
    {
        if pos >= buf.len() {
            proof {
                assert(wire::name_decode(buf@, pos as int) is None);
                assert(name_offsets(buf@, pos as int) =~= Seq::<int>::empty());
                assert(prefix_elems(buf@, start) == count);
            }
            return Err(Error::InsufficientData);
        }

        let len_byte: u8 = buf[pos];
        let elem_offset: MsgOffset = pos as MsgOffset;
        let ghost here: int = pos as int;

        if len_byte == 0 {
            proof {
                assert(name_offsets(buf@, here) =~= seq![here]);
            }
            if count >= 10 {
                proof {
                    assert(name_offsets(buf@, start) =~= done_offs + seq![here]);
                    assert(prefix_elems(buf@, start) >= 11);
                }
                return Err(Error::InvalidDomainName);
            }
            elements[count as usize] = NameElementRef::Root { offset: elem_offset };
            proof {
                done_elems = done_elems.push(wire::NameElemModel::Root);
                done_offs = done_offs.push(here);
                assert(elem_ref_at(buf@, here) == (NameElementRef::Root { offset: elem_offset }));
                assert(done_elems.drop_last() + seq![wire::NameElemModel::Root] =~= done_elems);
                assert(wire::name_decode(buf@, start) == Some((done_elems, here + 1)));
            }
            count = count + 1;
            pos = pos + 1;
            break ;
        }

        if len_byte >= 192 {
            if pos + 1 >= buf.len() {
                proof {
                    assert(wire::name_decode(buf@, here) is None);
                    assert(name_offsets(buf@, here) =~= Seq::<int>::empty());
                    assert(prefix_elems(buf@, start) == count);
                }
                return Err(Error::InsufficientData);
            }
            proof {
                assert(name_offsets(buf@, here) =~= seq![here]);
            }
            if count >= 10 {
                proof {
                    assert(prefix_elems(buf@, start) >= 11);
                }
                return Err(Error::InvalidDomainName);
            }
            elements[count as usize] = NameElementRef::Pointer { offset: elem_offset };
            proof {
                let pv = wire::ptr_value(buf@[here], buf@[here + 1]) as u16;
                done_elems = done_elems.push(wire::NameElemModel::Pointer(pv));
                done_offs = done_offs.push(here);
                assert(elem_ref_at(buf@, here) == (NameElementRef::Pointer {
                    offset: elem_offset,
                }));
                assert(done_elems.drop_last() + seq![wire::NameElemModel::Pointer(pv)]
                    =~= done_elems);
                assert(wire::name_decode(buf@, start) == Some((done_elems, here + 2)));
            }
            count = count + 1;
            pos = pos + 2;
            break ;
        }

        if len_byte >= 64 {
            if count >= 10 {
                proof {
                    assert(name_offsets(buf@, here) =~= seq![here] + name_offsets(buf@, here + 1));
                    assert(prefix_elems(buf@, start) >= 11);
                }
                return Err(Error::InvalidDomainName);
            }
            elements[count as usize] = NameElementRef::Reserved { offset: elem_offset };
            proof {
                let ghost prefix = done_elems;
                done_elems = done_elems.push(wire::NameElemModel::Reserved);
                done_offs = done_offs.push(here);
                assert(elem_ref_at(buf@, here) == (NameElementRef::Reserved {
                    offset: elem_offset,
                }));
                if wire::name_decode(buf@, here + 1) is Some {
                    let rest = wire::name_decode(buf@, here + 1)->Some_0;
                    assert(prefix + (seq![wire::NameElemModel::Reserved] + rest.0)
                        =~= done_elems + rest.0);
                }
                assert(name_offsets(buf@, here) =~= seq![here] + name_offsets(buf@, here + 1));
                assert(name_offsets(buf@, start) =~= done_offs + name_offsets(buf@, here + 1));
            }
            count = count + 1;
            pos = pos + 1;
            continue ;
        }

        if len_byte as usize > buf.len() - pos - 1 {
            proof {
                assert(wire::name_decode(buf@, here) is None);
                assert(name_offsets(buf@, here) =~= Seq::<int>::empty());
                assert(prefix_elems(buf@, start) == count);
            }
            return Err(Error::InsufficientData);
        }
        if count >= 10 {
            proof {
                assert(name_offsets(buf@, here) =~= seq![here] + name_offsets(
                    buf@,
                    here + 1 + len_byte,
                ));
                assert(prefix_elems(buf@, start) >= 11);
            }
            return Err(Error::InvalidDomainName);
        }
        elements[count as usize] = NameElementRef::Label { offset: elem_offset };
        proof {
            let ghost prefix = done_elems;
            let lab = wire::NameElemModel::Label(buf@.subrange(here + 1, here + 1 + len_byte));
            done_elems = done_elems.push(lab);
            done_offs = done_offs.push(here);
            assert(elem_ref_at(buf@, here) == (NameElementRef::Label { offset: elem_offset }));
            if wire::name_decode(buf@, here + 1 + len_byte) is Some {
                let rest = wire::name_decode(buf@, here + 1 + len_byte)->Some_0;
                assert(prefix + (seq![lab] + rest.0) =~= done_elems + rest.0);
            }
            assert(name_offsets(buf@, here) =~= seq![here] + name_offsets(
                buf@,
                here + 1 + len_byte,
            ));
            assert(name_offsets(buf@, start) =~= done_offs + name_offsets(
                buf@,
                here + 1 + len_byte,
            ));
        }
        count = count + 1;
        pos = pos + 1 + len_byte as usize;
    }

    proof {
        lemma_name_offsets_decode(buf@, start);
    }
    Ok((elements, count, pos as MsgOffset))
}

/// Reference to a whole name: its elements by offset, their number, and
/// the offset just past the name.
#[derive(Debug, Clone, Copy, PartialEq, Eq, Hash)]
pub struct NameRef {
    pub elements: [NameElementRef; 10],
    pub count: u8,
    pub end_offset: MsgOffset,
}

/// A name reference is the parse result of the name at `o`: its element
/// count, its end offset, every valid slot the true element reference,
/// and every unused slot the zero-root placeholder.
///
/// Marked opaque so that proofs can carry it whole and reveal it only
/// where its parts are needed.
#[verifier::opaque]
pub open spec fn name_ref_wf(n: NameRef, data: Seq<u8>, o: int) -> bool {
    wire::name_decode(data, o) matches Some(d) && {
        &&& n.count == d.0.len()
        &&& n.count <= 10
        &&& n.end_offset == d.1
        &&& forall|i: int|
            0 <= i < n.count ==> n.elements@[i] == elem_ref_at(data, name_offsets(data, o)[i])
        &&& forall|i: int|
            n.count <= i < 10 ==> n.elements@[i] == (NameElementRef::Root { offset: 0 })
    }
}

impl NameRef {
    /// An unused-slot placeholder: no elements, zero end, every element
    /// slot the zero root.
    pub open spec fn is_placeholder(&self) -> bool {
        &&& self.count == 0
        &&& self.end_offset == 0
        &&& forall|i: int|
            0 <= i < 10 ==> self.elements@[i] == (NameElementRef::Root { offset: 0 })
    }

    pub fn new(elements: [NameElementRef; 10], count: u8, end_offset: MsgOffset) -> (r: NameRef)
        ensures
            r == (NameRef { elements, count, end_offset }),
    {
        NameRef { elements, count, end_offset }
    }

    /// An empty placeholder for unused slots.
    pub fn empty() -> (r: NameRef)
        ensures
            r.is_placeholder(),
    {
        NameRef { elements: [NameElementRef::Root { offset: 0 };10], count: 0, end_offset: 0 }
    }

    /// Parse the name at `offset` in `buf` into a reference.
    pub fn from_buf(buf: &[u8], offset: MsgOffset) -> (r: Result<NameRef, Error>)
        requires
            buf@.len() <= 0xFFFF,
        ensures
            (match r {
                Ok(n) => name_ref_wf(n, buf@, offset as int),
                Err(e) => {
                    &&& (e == Error::InsufficientData || e == Error::InvalidDomainName)
                    &&& (e == Error::InsufficientData <==> wire::name_decode(
                        buf@,
                        offset as int,
                    ) is None && prefix_elems(buf@, offset as int) <= 10)
                    &&& (e == Error::InvalidDomainName <==> prefix_elems(buf@, offset as int)
                        >= 11)
                },
            }),
    {
        proof {
            reveal(name_ref_wf);
        }
        match parse_name_elements_into(buf, offset) {
            Ok((elements, count, end_offset)) => Ok(NameRef::new(elements, count, end_offset)),
            Err(e) => Err(e),
        }
    }

    /// The offset of the first byte of the name; 0 for an empty
    /// placeholder.
    pub fn offset(&self) -> (r: MsgOffset)
        ensures
            self.count == 0 ==> r == 0,
            self.count > 0 ==> r == self.elements@[0].spec_offset(),
    {
        if self.count == 0 {
            0
        } else {
            self.elements[0].offset()
        }
    }

    /// The valid element references, in order.
    pub fn as_slice(&self) -> (r: &[NameElementRef])
        requires
            self.count <= 10,
        ensures
            r@ == self.elements@.take(self.count as int),
    {
        slice_subrange(self.elements.as_slice(), 0, self.count as usize)
    }
}

/// Reference to one resource record: its name reference and total wire
/// length.
#[derive(Debug, Clone, Copy, PartialEq, Eq, Hash)]
pub struct ResourceRecordRef {
    /// Reference to the record's name, whose first element starts the
    /// record.
    pub name: NameRef,
    /// Length in bytes: name, the 10 fixed bytes, and the RDATA.
    pub len: MsgOffset,
}

impl ResourceRecordRef {
    /// An unused-slot placeholder: an empty name reference and zero
    /// length.
    pub open spec fn is_placeholder(&self) -> bool {
        self.name.is_placeholder() && self.len == 0
    }

    pub fn new(name: NameRef, len: MsgOffset) -> (r: ResourceRecordRef)
        ensures
            r == (ResourceRecordRef { name, len }),
    {
        ResourceRecordRef { name, len }
    }

    /// A placeholder for unused slots in a section reference.
    pub fn empty() -> (r: ResourceRecordRef)
        ensures
            r.is_placeholder(),
    {
        ResourceRecordRef { name: NameRef::empty(), len: 0 }
    }

    /// The offset of the first byte of the record; 0 for a placeholder.
    pub open spec fn spec_offset(&self) -> MsgOffset {
        if self.name.count == 0 {
            0
        } else {
            self.name.elements@[0].spec_offset()
        }
    }

    /// Returns the offset of the first byte of the record.
    pub fn offset(&self) -> (r: MsgOffset)
        ensures
            r == self.spec_offset(),
    {
        self.name.offset()
    }

    /// The offset just past the record, saturating at the offset ceiling.
    pub fn end(&self) -> (r: MsgOffset)
        ensures
            r == if self.spec_offset() + self.len > 0xFFFF {
                0xFFFFu16
            } else {
                (self.spec_offset() + self.len) as u16
            },
    {
        self.name.offset().saturating_add(self.len)
    }

    /// Materialize the record this reference points at, reading the full
    /// message buffer again.
    pub fn decode_resource_record(&self, data: &[u8]) -> (r: Result<ResourceRecord, Error>)
        ensures
            (match r {
                Ok(rec) => {
                    &&& wire::record_decode(
                        data@.skip(self.spec_offset() as int),
                        data@,
                        self.spec_offset() as int,
                    ) matches Some(p) && rec.deep_view() == p.0
                    &&& rec.wf()
                },
                Err(e) => e == Error::InsufficientData && wire::record_decode(
                    data@.skip(self.spec_offset() as int),
                    data@,
                    self.spec_offset() as int,
                ) is None,
            }),
    {
        let off = self.offset() as usize;
        if off > data.len() {
            proof {
                assert(wire::name_decode(data@, self.spec_offset() as int) is None);
            }
            return Err(Error::InsufficientData);
        }
        let tail = slice_subrange(data, off, data.len());
        proof {
            assert(tail@ =~= data@.skip(self.spec_offset() as int));
        }
        match crate::decode::resource_record::decode_resource_record(tail, data, off) {
            Ok((record, _)) => Ok(record),
            Err(e) => Err(e),
        }
    }
}

/// Reference to one resource record section: up to 10 records.
#[derive(Debug, Clone, Copy, PartialEq, Eq, Hash)]
pub struct ResourceRecordSectionRef {
    pub records: [ResourceRecordRef; 10],
    pub end_offset: MsgOffset,
    pub count: u8,
}

impl ResourceRecordSectionRef {
    pub fn new(records: [ResourceRecordRef; 10], end_offset: MsgOffset, count: u8) -> (r:
        ResourceRecordSectionRef)
        ensures
            r == (ResourceRecordSectionRef { records, end_offset, count }),
    {
        ResourceRecordSectionRef { records, end_offset, count }
    }

    /// The valid record references, in order.
    pub fn as_slice(&self) -> (r: &[ResourceRecordRef])
        requires
            self.count <= 10,
        ensures
            r@ == self.records@.take(self.count as int),
    {
        slice_subrange(self.records.as_slice(), 0, self.count as usize)
    }
}

/// The question section reference matches the buffer: the count comes
/// from the header, the references are laid out back to back from offset
/// 12 up to the section end, each decodes to the entry the whole-section
/// decode yields, and the slots beyond the count are zero placeholders.
pub open spec fn question_section_wf(sec: QuestionSectionRef, data: Seq<u8>) -> bool {
    &&& data.len() >= 12
    &&& sec.count <= 5
    &&& wire::header_of_bytes(data).qd_count == sec.count
    &&& wire::questions_decode(data.skip(12), data, 12, 0, sec.count as nat) matches Some(p) && {
        &&& sec.end_offset == 12 + p.1
        &&& forall|i: int|
            0 <= i < sec.count ==> wire::question_decode(
                data.skip((#[trigger] sec.questions@[i]).offset as int),
                data,
                sec.questions@[i].offset as int,
                0,
            ) == Some((p.0[i], sec.questions@[i].len as int))
    }
    &&& sec.count > 0 ==> sec.questions@[0].offset == 12
    &&& sec.count > 0 ==> sec.questions@[sec.count - 1].offset + sec.questions@[sec.count
        - 1].len == sec.end_offset
    &&& sec.count == 0 ==> sec.end_offset == 12
    &&& forall|i: int|
        1 <= i < sec.count ==> (#[trigger] sec.questions@[i]).offset == sec.questions@[i
            - 1].offset + sec.questions@[i - 1].len
    &&& forall|i: int|
        sec.count <= i < 5 ==> (#[trigger] sec.questions@[i]) == (QuestionRef {
            offset: 0,
            len: 0,
        })
}

/// A record section reference matches the buffer from `start` with `n`
/// entries: the references are laid out back to back from `start` up to
/// the section end, each decodes to the record the whole-section decode
/// yields, each holds the parsed reference of its record's name, and the
/// slots beyond the count are placeholders.
pub open spec fn record_section_wf(
    sec: ResourceRecordSectionRef,
    data: Seq<u8>,
    start: int,
    n: u16,
) -> bool {
    &&& sec.count == n
    &&& n <= 10
    &&& wire::records_decode(data.skip(start), data, start, 0, n as nat) matches Some(p) && {
        &&& sec.end_offset == start + p.1
        &&& forall|i: int|
            0 <= i < sec.count ==> wire::record_decode(
                data.skip((#[trigger] sec.records@[i]).spec_offset() as int),
                data,
                sec.records@[i].spec_offset() as int,
            ) == Some((p.0[i], sec.records@[i].len as int))
    }
    &&& sec.count > 0 ==> sec.records@[0].spec_offset() == start
    &&& sec.count > 0 ==> sec.records@[sec.count - 1].spec_offset() + sec.records@[sec.count
        - 1].len == sec.end_offset
    &&& sec.count == 0 ==> sec.end_offset == start
    &&& forall|i: int|
        1 <= i < sec.count ==> (#[trigger] sec.records@[i]).spec_offset() == sec.records@[i
            - 1].spec_offset() + sec.records@[i - 1].len
    &&& forall|i: int|
        0 <= i < sec.count ==> name_ref_wf(
            (#[trigger] sec.records@[i]).name,
            data,
            sec.records@[i].spec_offset() as int,
        )
    &&& forall|i: int| sec.count <= i < 10 ==> (#[trigger] sec.records@[i]).is_placeholder()
}

/// Reference to a whole decoded message: only offsets into the buffer.
/// The references stay meaningful only while the buffer is unchanged.
#[derive(Debug, Clone, Copy, PartialEq, Eq, Hash)]
pub struct MessageRef {
    pub header: HeaderRef,
    pub question: QuestionSectionRef,
    pub answer: ResourceRecordSectionRef,
    pub authority: ResourceRecordSectionRef,
    pub additional: ResourceRecordSectionRef,
}

impl MessageRef {
    /// Every section reference matches the buffer, in the fixed section
    /// order, with the counts the header states.
    pub open spec fn wf(&self, data: Seq<u8>) -> bool {
        &&& question_section_wf(self.question, data)
        &&& record_section_wf(
            self.answer,
            data,
            self.question.end_offset as int,
            wire::header_of_bytes(data).an_count,
        )
        &&& record_section_wf(
            self.authority,
            data,
            self.answer.end_offset as int,
            wire::header_of_bytes(data).ns_count,
        )
        &&& record_section_wf(
            self.additional,
            data,
            self.authority.end_offset as int,
            wire::header_of_bytes(data).ar_count,
        )
    }

    /// Materialize the whole message from the buffer, section by section.
    /// Field for field, the result equals the direct message decode of the
    /// same buffer.
    #[verifier::rlimit(100)]
    pub fn decode_message(&self, data: &[u8]) -> (r: Result<crate::types::Message, Error>)
        requires
            self.wf(data@),
        ensures
            r matches Ok(m) && wire::message_decode(data@) matches Some(p) && m.deep_view() == p.0
                && m.wf(),
    {
        let ghost h = wire::header_of_bytes(data@);
        let header = match self.header.decode_header(data) {
            Ok(hd) => hd,
            Err(_) => {
                proof {
                    assert(false);
                }
                return Err(Error::InvalidHeaderLength);
            },
        };

        let ghost qp = wire::questions_decode(data@.skip(12), data@, 12, 0, h.qd_count as nat)->Some_0;
        let questions = materialize_questions(&self.question, data);
        proof {
            wire::lemma_questions_decode_bounds(data@.skip(12), data@, 12, 0, h.qd_count as nat);
        }

        let ghost a_start: int = self.question.end_offset as int;
        let ghost ap = wire::records_decode(
            data@.skip(a_start),
            data@,
            a_start,
            0,
            h.an_count as nat,
        )->Some_0;
        let answers = materialize_records(&self.answer, data, Ghost(a_start), Ghost(h.an_count));

        let ghost u_start: int = self.answer.end_offset as int;
        let ghost up = wire::records_decode(
            data@.skip(u_start),
            data@,
            u_start,
            0,
            h.ns_count as nat,
        )->Some_0;
        let authority = materialize_records(&self.authority, data, Ghost(u_start), Ghost(h.ns_count));

        let ghost d_start: int = self.authority.end_offset as int;
        let additional = materialize_records(
            &self.additional,
            data,
            Ghost(d_start),
            Ghost(h.ar_count),
        );

        let message = crate::types::Message::new(header, questions, answers, authority, additional);
        proof {
            wire::lemma_records_decode_bounds(
                data@.skip(a_start),
                data@,
                a_start,
                0,
                h.an_count as nat,
            );
            wire::lemma_records_decode_bounds(
                data@.skip(u_start),
                data@,
                u_start,
                0,
                h.ns_count as nat,
            );
            wire::lemma_records_decode_bounds(
                data@.skip(d_start),
                data@,
                d_start,
                0,
                h.ar_count as nat,
            );
            assert(wire::message_decode(data@) is Some);
        }
        Ok(message)
    }
}

/// Materialize every question of the question section reference, in
/// order.
fn materialize_questions(sec: &QuestionSectionRef, data: &[u8]) -> (r: Vec<Question>)
    requires
        question_section_wf(*sec, data@),
    ensures
        r.deep_view() == wire::questions_decode(
            data@.skip(12),
            data@,
            12,
            0,
            sec.count as nat,
        )->Some_0.0,
        r@.len() == sec.count,
        forall|i: int| 0 <= i < r@.len() ==> (#[trigger] r@[i]).wf(),
{
    let ghost qp = wire::questions_decode(data@.skip(12), data@, 12, 0, sec.count as nat)->Some_0;
    proof {
        wire::lemma_questions_decode_bounds(data@.skip(12), data@, 12, 0, sec.count as nat);
    }
    let refs = sec.as_slice();
    let mut questions: Vec<Question> = Vec::with_capacity(refs.len());
    let mut i: usize = 0;
    while i < refs.len()
        invariant
            question_section_wf(*sec, data@),
            refs@ == sec.questions@.take(sec.count as int),
            qp == wire::questions_decode(data@.skip(12), data@, 12, 0, sec.count as nat)->Some_0,
            qp.0.len() == sec.count,
            i <= refs@.len(),
            refs@.len() == sec.count,
            questions@.len() == i,
            questions.deep_view() =~= qp.0.take(i as int),
            forall|k: int| 0 <= k < i ==> (#[trigger] questions@[k]).wf(),
        decreases refs@.len() - i,
    {
        let q = match refs[i].decode_question(data) {
            Ok(q) => q,
            Err(_) => {
                proof {
                    assert(false);
                }
                return questions;
            },
        };
        questions.push(q);
        proof {
            assert(questions.deep_view() =~= qp.0.take(i + 1));
        }
        i = i + 1;
    }
    proof {
        assert(questions.deep_view() =~= qp.0);
    }
    questions
}

/// Materialize every record of a section reference, in order.
fn materialize_records(
    sec: &ResourceRecordSectionRef,
    data: &[u8],
    start: Ghost<int>,
    n: Ghost<u16>,
) -> (r: Vec<ResourceRecord>)
    requires
        record_section_wf(*sec, data@, start@, n@),
    ensures
        r.deep_view() == wire::records_decode(
            data@.skip(start@),
            data@,
            start@,
            0,
            n@ as nat,
        )->Some_0.0,
        r@.len() == n@,
        forall|i: int| 0 <= i < r@.len() ==> (#[trigger] r@[i]).wf(),
{
    let ghost rp = wire::records_decode(data@.skip(start@), data@, start@, 0, n@ as nat)->Some_0;
    proof {
        wire::lemma_records_decode_bounds(data@.skip(start@), data@, start@, 0, n@ as nat);
    }
    let refs = sec.as_slice();
    let mut records: Vec<ResourceRecord> = Vec::with_capacity(refs.len());
    let mut i: usize = 0;
    while i < refs.len()
        invariant
            record_section_wf(*sec, data@, start@, n@),
            refs@ == sec.records@.take(sec.count as int),
            rp == wire::records_decode(data@.skip(start@), data@, start@, 0, n@ as nat)->Some_0,
            rp.0.len() == n@,
            i <= refs@.len(),
            refs@.len() == sec.count,
            records@.len() == i,
            records.deep_view() =~= rp.0.take(i as int),
            forall|k: int| 0 <= k < i ==> (#[trigger] records@[k]).wf(),
        decreases refs@.len() - i,
    {
        let rec = match refs[i].decode_resource_record(data) {
            Ok(rec) => rec,
            Err(_) => {
                proof {
                    assert(false);
                }
                return records;
            },
        };
        records.push(rec);
        proof {
            assert(records.deep_view() =~= rp.0.take(i + 1));
        }
        i = i + 1;
    }
    proof {
        assert(records.deep_view() =~= rp.0);
    }
    records
}

} // verus!
