use vstd::prelude::*;

use crate::wire;

verus! {

/// The header flags bitfield, decomposed per RFC1035: query/response flag,
/// 4-bit opcode, authoritative / truncated / recursion-desired /
/// recursion-available flags, 3 reserved bits, 4-bit response code.
#[derive(Debug, Clone, Copy, PartialEq, Eq, Structural)]
pub struct Flags {
    pub qr: bool,
    pub opcode: u8,
    pub aa: bool,
    pub tc: bool,
    pub rd: bool,
    pub ra: bool,
    pub z: u8,
    pub rcode: u8,
}

impl Flags {
    /// The sub-byte fields fit their bit widths.
    pub open spec fn wf(self) -> bool {
        self.opcode < 16 && self.z < 8 && self.rcode < 16
    }

    pub fn new(
        qr: bool,
        opcode: u8,
        aa: bool,
        tc: bool,
        rd: bool,
        ra: bool,
        z: u8,
        rcode: u8,
    ) -> (r: Flags)
        requires
            opcode < 16,
            z < 8,
            rcode < 16,
        ensures
            r == (Flags { qr, opcode, aa, tc, rd, ra, z, rcode }),
            r.wf(),
    {
        Flags { qr, opcode, aa, tc, rd, ra, z, rcode }
    }

    /// Decompose the two flag bytes of the wire format.
    pub fn from_flags_bytes(hi: u8, lo: u8) -> (r: Flags)
        ensures
            r == wire::flags_of_word(wire::be16(hi, lo)),
            r.wf(),
    {
        let w: u16 = hi as u16 * 256 + lo as u16;
        Flags {
            qr: w / 0x8000 % 2 == 1,
            opcode: (w / 0x800 % 16) as u8,
            aa: w / 0x400 % 2 == 1,
            tc: w / 0x200 % 2 == 1,
            rd: w / 0x100 % 2 == 1,
            ra: w / 0x80 % 2 == 1,
            z: (w / 0x10 % 8) as u8,
            rcode: (w % 16) as u8,
        }
    }

    /// Compose the two flag bytes of the wire format.
    pub fn to_flags_bytes(&self) -> (r: (u8, u8))
        requires
            self.wf(),
        ensures
            wire::be16(r.0, r.1) == wire::flags_word(*self),
    {
        let w: u16 = (if self.qr { 0x8000u16 } else { 0u16 }) + self.opcode as u16 * 0x800
            + (if self.aa { 0x400u16 } else { 0u16 }) + (if self.tc { 0x200u16 } else { 0u16 })
            + (if self.rd { 0x100u16 } else { 0u16 }) + (if self.ra { 0x80u16 } else { 0u16 })
            + self.z as u16 * 0x10 + self.rcode as u16;
        ((w / 256) as u8, (w % 256) as u8)
    }
}

/// One length-prefixed segment of a domain name: 1 to 63 payload bytes.
#[derive(Debug, Clone, PartialEq, Eq)]
pub struct Label {
    pub length: u8,
    pub data: Vec<u8>,
}

impl Label {
    /// The length byte is in [1, 63] and counts the payload bytes exactly.
    pub open spec fn wf(&self) -> bool {
        1 <= self.length <= 63 && self.data@.len() == self.length
    }

    pub fn new(length: u8, data: Vec<u8>) -> (r: Label)
        ensures
            r == (Label { length, data }),
    {
        Label { length, data }
    }
}

impl View for Label {
    type V = Seq<u8>;

    open spec fn view(&self) -> Seq<u8> {
        self.data@
    }
}

impl DeepView for Label {
    type V = Seq<u8>;

    open spec fn deep_view(&self) -> Seq<u8> {
        self.data@
    }
}

/// One element of a domain name's wire representation.
#[derive(Debug, Clone, PartialEq, Eq)]
pub enum NameElement {
    /// A normal label: length byte in [1, 63] followed by that many bytes.
    Label(Label),
    /// A compression pointer: a 14-bit back-reference to an earlier
    /// absolute offset in the same message. Always ends the name.
    Pointer(u16),
    /// The zero-length terminator. Always ends the name.
    Root,
    /// A length byte in [64, 191], reserved by RFC1035; carries no payload.
    Reserved,
}

impl NameElement {
    /// Labels and pointers respect their wire-format bounds.
    pub open spec fn wf(&self) -> bool {
        match self {
            NameElement::Label(l) => l.wf(),
            NameElement::Pointer(p) => *p < 16384,
            NameElement::Root => true,
            NameElement::Reserved => true,
        }
    }
}

impl View for NameElement {
    type V = wire::NameElemModel;

    open spec fn view(&self) -> wire::NameElemModel {
        match self {
            NameElement::Label(l) => wire::NameElemModel::Label(l.data@),
            NameElement::Pointer(p) => wire::NameElemModel::Pointer(*p),
            NameElement::Root => wire::NameElemModel::Root,
            NameElement::Reserved => wire::NameElemModel::Reserved,
        }
    }
}

impl DeepView for NameElement {
    type V = wire::NameElemModel;

    open spec fn deep_view(&self) -> wire::NameElemModel {
        self.view()
    }
}

/// The fixed 12-byte message header: 16-bit id, flags, and the four
/// 16-bit section counts.
#[derive(Debug, Clone, Copy, PartialEq, Eq, Structural)]
pub struct Header {
    pub id: u16,
    pub flags: Flags,
    pub qd_count: u16,
    pub an_count: u16,
    pub ns_count: u16,
    pub ar_count: u16,
}

impl Header {
    pub fn new(
        id: u16,
        flags: Flags,
        qd_count: u16,
        an_count: u16,
        ns_count: u16,
        ar_count: u16,
    ) -> (r: Header)
        ensures
            r == (Header { id, flags, qd_count, an_count, ns_count, ar_count }),
    {
        Header { id, flags, qd_count, an_count, ns_count, ar_count }
    }
}

/// The wire value of question type A.
pub const QTYPE_A: u16 = 1;

/// The wire value of question class IN.
pub const QCLASS_IN: u16 = 1;

/// The wire value of record type A.
pub const RRTYPE_A: u16 = 1;

/// The wire value of record class IN.
pub const RRCLASS_IN: u16 = 1;

/// A question entry: a name plus 16-bit type and class.
#[derive(Debug, Clone, PartialEq, Eq)]
pub struct Question {
    pub q_name: Vec<NameElement>,
    pub q_type: u16,
    pub q_class: u16,
}

impl Question {
    /// Every name element respects its wire-format bounds.
    pub open spec fn wf(&self) -> bool {
        forall|i: int| 0 <= i < self.q_name@.len() ==> (#[trigger] self.q_name@[i]).wf()
    }

    pub fn new(q_name: Vec<NameElement>, q_type: u16, q_class: u16) -> (r: Question)
        ensures
            r == (Question { q_name, q_type, q_class }),
    {
        Question { q_name, q_type, q_class }
    }
}

impl View for Question {
    type V = wire::QuestionModel;

    open spec fn view(&self) -> wire::QuestionModel {
        wire::QuestionModel {
            name: self.q_name.deep_view(),
            q_type: self.q_type,
            q_class: self.q_class,
        }
    }
}

impl DeepView for Question {
    type V = wire::QuestionModel;

    open spec fn deep_view(&self) -> wire::QuestionModel {
        self.view()
    }
}

/// A resource record entry: a name, 16-bit type and class, 32-bit TTL,
/// 16-bit RDLENGTH and exactly that many opaque RDATA bytes.
#[derive(Debug, Clone, PartialEq, Eq)]
pub struct ResourceRecord {
    pub rr_name: Vec<NameElement>,
    pub rr_type: u16,
    pub rr_class: u16,
    pub rr_ttl: u32,
    pub rr_rd_length: u16,
    pub rr_data: Vec<u8>,
}

impl ResourceRecord {
    /// The name elements respect their bounds and RDLENGTH counts the
    /// RDATA bytes exactly.
    pub open spec fn wf(&self) -> bool {
        &&& forall|i: int| 0 <= i < self.rr_name@.len() ==> (#[trigger] self.rr_name@[i]).wf()
        &&& self.rr_rd_length == self.rr_data@.len()
    }

    pub fn new(
        rr_name: Vec<NameElement>,
        rr_type: u16,
        rr_class: u16,
        rr_ttl: u32,
        rr_rd_length: u16,
        rr_data: Vec<u8>,
    ) -> (r: ResourceRecord)
        ensures
            r == (ResourceRecord { rr_name, rr_type, rr_class, rr_ttl, rr_rd_length, rr_data }),
    {
        ResourceRecord { rr_name, rr_type, rr_class, rr_ttl, rr_rd_length, rr_data }
    }
}

impl View for ResourceRecord {
    type V = wire::RecordModel;

    open spec fn view(&self) -> wire::RecordModel {
        wire::RecordModel {
            name: self.rr_name.deep_view(),
            rr_type: self.rr_type,
            rr_class: self.rr_class,
            rr_ttl: self.rr_ttl,
            rr_rd_length: self.rr_rd_length,
            rr_data: self.rr_data@,
        }
    }
}

impl DeepView for ResourceRecord {
    type V = wire::RecordModel;

    open spec fn deep_view(&self) -> wire::RecordModel {
        self.view()
    }
}

/// A whole message: header plus the four ordered sections.
#[derive(Debug, Clone, PartialEq, Eq)]
pub struct Message {
    pub header: Header,
    pub question: Vec<Question>,
    pub answer: Vec<ResourceRecord>,
    pub authority: Vec<ResourceRecord>,
    pub additional: Vec<ResourceRecord>,
}

impl Message {
    /// Every entry is well formed and the header counts equal the section
    /// lengths.
    pub open spec fn wf(&self) -> bool {
        &&& forall|i: int| 0 <= i < self.question@.len() ==> (#[trigger] self.question@[i]).wf()
        &&& forall|i: int| 0 <= i < self.answer@.len() ==> (#[trigger] self.answer@[i]).wf()
        &&& forall|i: int| 0 <= i < self.authority@.len() ==> (#[trigger] self.authority@[i]).wf()
        &&& forall|i: int|
            0 <= i < self.additional@.len() ==> (#[trigger] self.additional@[i]).wf()
        &&& self.header.qd_count == self.question@.len()
        &&& self.header.an_count == self.answer@.len()
        &&& self.header.ns_count == self.authority@.len()
        &&& self.header.ar_count == self.additional@.len()
    }

    pub fn new(
        header: Header,
        question: Vec<Question>,
        answer: Vec<ResourceRecord>,
        authority: Vec<ResourceRecord>,
        additional: Vec<ResourceRecord>,
    ) -> (r: Message)
        ensures
            r == (Message { header, question, answer, authority, additional }),
    {
        Message { header, question, answer, authority, additional }
    }
}

impl View for Message {
    type V = wire::MessageModel;

    open spec fn view(&self) -> wire::MessageModel {
        wire::MessageModel {
            header: self.header,
            question: self.question.deep_view(),
            answer: self.answer.deep_view(),
            authority: self.authority.deep_view(),
            additional: self.additional.deep_view(),
        }
    }
}

impl DeepView for Message {
    type V = wire::MessageModel;

    open spec fn deep_view(&self) -> wire::MessageModel {
        self.view()
    }
}

} // verus!
