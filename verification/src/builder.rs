use vstd::prelude::*;
use vstd::slice::slice_subrange;
use vstd::string::*;

use crate::decode::message::decode_message;
use crate::error::Error;
use crate::roundtrip;
use crate::types::{Flags, Header, Message};
use crate::wire;

verus! {

// ---------------------------------------------------------------------------
// Text names
// ---------------------------------------------------------------------------

/// The number of bytes from `pos` up to the next dot, or up to the end of
/// the text when no dot follows.
pub open spec fn dot_distance(s: Seq<u8>, pos: int) -> nat
    decreases s.len() - pos,
{
    if pos < 0 || pos >= s.len() {
        0
    } else if s[pos] == 46 {
        0
    } else {
        dot_distance(s, pos + 1) + 1
    }
}

/// The distance to the next dot stays within the text, and characterizes
/// the first dot at or after `pos`.
pub proof fn lemma_dot_distance(s: Seq<u8>, pos: int)
    requires
        0 <= pos <= s.len(),
    ensures
        pos + dot_distance(s, pos) <= s.len(),
        forall|k: int| pos <= k < pos + dot_distance(s, pos) ==> s[k] != 46,
        pos + dot_distance(s, pos) == s.len() || s[pos + dot_distance(s, pos)] == 46,
    decreases s.len() - pos,
{
    if pos >= s.len() || s[pos] == 46 {
    } else {
        lemma_dot_distance(s, pos + 1);
    }
}

/// A scan that stops at the first dot at or after `pos` found the distance
/// to the next dot.
pub proof fn lemma_dot_distance_eq(s: Seq<u8>, pos: int, j: int)
    requires
        0 <= pos <= j <= s.len(),
        forall|k: int| pos <= k < j ==> s[k] != 46,
        j == s.len() || s[j] == 46,
    ensures
        dot_distance(s, pos) == j - pos,
    decreases j - pos,
{
    if pos == j {
    } else {
        lemma_dot_distance_eq(s, pos + 1, j);
    }
}

/// The wire bytes of a dot-separated text name, read from UTF-8 bytes
/// starting at `pos`: each segment becomes a length-prefixed label, empty
/// segments are dropped, a root byte ends the name. `None` when a segment
/// exceeds 63 bytes.
pub open spec fn text_name_bytes(s: Seq<u8>, pos: int) -> Option<Seq<u8>>
    decreases s.len() - pos,
{
    if pos >= s.len() {
        Option::Some(seq![0u8])
    } else {
        let n = dot_distance(s, pos) as int;
        let lab = s.subrange(pos, pos + n);
        let rest = if pos + n + 1 <= s.len() {
            text_name_bytes(s, pos + n + 1)
        } else {
            Option::Some(seq![0u8])
        };
        if n == 0 {
            rest
        } else if n > 63 {
            Option::None
        } else {
            match rest {
                Option::Some(r) => Option::Some(seq![n as u8] + lab + r),
                Option::None => Option::None,
            }
        }
    }
}

/// The name elements of a dot-separated text name: its labels in order,
/// ended by a root element.
pub open spec fn text_name_elems(s: Seq<u8>, pos: int) -> Option<Seq<wire::NameElemModel>>
    decreases s.len() - pos,
{
    if pos >= s.len() {
        Option::Some(seq![wire::NameElemModel::Root])
    } else {
        let n = dot_distance(s, pos) as int;
        let lab = s.subrange(pos, pos + n);
        let rest = if pos + n + 1 <= s.len() {
            text_name_elems(s, pos + n + 1)
        } else {
            Option::Some(seq![wire::NameElemModel::Root])
        };
        if n == 0 {
            rest
        } else if n > 63 {
            Option::None
        } else {
            match rest {
                Option::Some(r) => Option::Some(seq![wire::NameElemModel::Label(lab)] + r),
                Option::None => Option::None,
            }
        }
    }
}

/// A text name's bytes are exactly its elements' wire bytes, and those
/// elements form a sendable, reserved-free name.
pub proof fn lemma_text_name(s: Seq<u8>, pos: int)
    requires
        0 <= pos,
    ensures
        text_name_bytes(s, pos) is Some <==> text_name_elems(s, pos) is Some,
        text_name_elems(s, pos) matches Option::Some(es) ==> {
            &&& wire::name_bytes(es) == text_name_bytes(s, pos)->Some_0
            &&& roundtrip::name_sendable(es)
            &&& !wire::name_has_reserved(es)
        },
    decreases s.len() - pos,
{
    if pos >= s.len() {
        let es = seq![wire::NameElemModel::Root];
        assert(wire::name_bytes(es) =~= seq![0u8]) by {
            reveal_with_fuel(wire::name_bytes, 2);
            assert(es.drop_first() =~= Seq::<wire::NameElemModel>::empty());
        }
        assert(!wire::name_has_reserved(es));
    } else {
        lemma_dot_distance(s, pos);
        let n = dot_distance(s, pos) as int;
        let lab = s.subrange(pos, pos + n);
        if pos + n + 1 <= s.len() {
            lemma_text_name(s, pos + n + 1);
        } else {
            let es = seq![wire::NameElemModel::Root];
            assert(wire::name_bytes(es) =~= seq![0u8]) by {
                reveal_with_fuel(wire::name_bytes, 2);
                assert(es.drop_first() =~= Seq::<wire::NameElemModel>::empty());
            }
            assert(!wire::name_has_reserved(es));
        }
        if n == 0 {
        } else if n > 63 {
        } else {
            let rest_e = if pos + n + 1 <= s.len() {
                text_name_elems(s, pos + n + 1)
            } else {
                Option::Some(seq![wire::NameElemModel::Root])
            };
            if rest_e is Some {
                let re = rest_e->Some_0;
                let rb = if pos + n + 1 <= s.len() {
                    text_name_bytes(s, pos + n + 1)->Some_0
                } else {
                    seq![0u8]
                };
                let es = seq![wire::NameElemModel::Label(lab)] + re;
                assert(es[0] == wire::NameElemModel::Label(lab));
                assert(es.drop_first() =~= re);
                assert(wire::name_bytes(es) == wire::elem_bytes(es[0]) + wire::name_bytes(re));
                assert(wire::elem_bytes(es[0]) =~= seq![n as u8] + lab);
                assert(wire::name_bytes(es) =~= seq![n as u8] + lab + rb);
                assert(roundtrip::name_sendable(es)) by {
                    assert(es.last() == re.last());
                    assert(forall|i: int|
                        0 <= i < es.len() - 1 ==> (#[trigger] es[i]) is Label);
                    assert(forall|i: int| 0 <= i < es.len() ==> (#[trigger] es[i]).wf());
                }
                assert(!wire::name_has_reserved(es)) by {
                    if wire::name_has_reserved(es) {
                        let i = choose|i: int| 0 <= i < es.len() && es[i] is Reserved;
                        if i == 0 {
                        } else {
                            assert(re[i - 1] is Reserved);
                            assert(wire::name_has_reserved(re));
                        }
                    }
                }
            }
        }
    }
}

// ---------------------------------------------------------------------------
// Builder entries and their models
// ---------------------------------------------------------------------------

/// The mathematical model of one question entry under construction.
pub struct QuestionBuilderModel {
    pub name: Seq<char>,
    pub q_type: u16,
    pub q_class: u16,
}

/// The mathematical model of one resource record entry under construction.
pub struct RecordBuilderModel {
    pub name: Seq<char>,
    pub rr_type: u16,
    pub rr_class: u16,
    pub ttl: u32,
    pub rdata: Seq<u8>,
}

/// The mathematical model of a builder: id, flags and the four entry
/// lists, with names still as text.
pub struct MessageBuilderModel {
    pub id: u16,
    pub flags: Flags,
    pub questions: Seq<QuestionBuilderModel>,
    pub answers: Seq<RecordBuilderModel>,
    pub authority: Seq<RecordBuilderModel>,
    pub additional: Seq<RecordBuilderModel>,
}

/// A question entry under construction: a dot-separated text name plus
/// type and class.
#[derive(Debug, Clone)]
pub struct QuestionBuilder {
    pub name: String,
    pub q_type: u16,
    pub q_class: u16,
}

impl View for QuestionBuilder {
    type V = QuestionBuilderModel;

    open spec fn view(&self) -> QuestionBuilderModel {
        QuestionBuilderModel { name: self.name@, q_type: self.q_type, q_class: self.q_class }
    }
}

impl DeepView for QuestionBuilder {
    type V = QuestionBuilderModel;

    open spec fn deep_view(&self) -> QuestionBuilderModel {
        self.view()
    }
}

/// A resource record entry under construction: a dot-separated text name
/// plus typed fields and opaque RDATA.
#[derive(Debug, Clone)]
pub struct ResourceRecordBuilder {
    pub name: String,
    pub rr_type: u16,
    pub rr_class: u16,
    pub ttl: u32,
    pub rdata: Vec<u8>,
}

impl View for ResourceRecordBuilder {
    type V = RecordBuilderModel;

    open spec fn view(&self) -> RecordBuilderModel {
        RecordBuilderModel {
            name: self.name@,
            rr_type: self.rr_type,
            rr_class: self.rr_class,
            ttl: self.ttl,
            rdata: self.rdata@,
        }
    }
}

impl DeepView for ResourceRecordBuilder {
    type V = RecordBuilderModel;

    open spec fn deep_view(&self) -> RecordBuilderModel {
        self.view()
    }
}

/// The name elements a text name converts to, when every label fits.
pub open spec fn name_elems_of_text(name: Seq<char>) -> Option<Seq<wire::NameElemModel>> {
    text_name_elems(vstd::utf8::encode_utf8(name), 0)
}

/// The message model a question entry builds.
pub open spec fn question_built(q: QuestionBuilderModel) -> wire::QuestionModel {
    wire::QuestionModel {
        name: name_elems_of_text(q.name)->Some_0,
        q_type: q.q_type,
        q_class: q.q_class,
    }
}

/// The message model a record entry builds. RDLENGTH is the RDATA length.
pub open spec fn record_built(r: RecordBuilderModel) -> wire::RecordModel {
    wire::RecordModel {
        name: name_elems_of_text(r.name)->Some_0,
        rr_type: r.rr_type,
        rr_class: r.rr_class,
        rr_ttl: r.ttl,
        rr_rd_length: r.rdata.len() as u16,
        rr_data: r.rdata,
    }
}

/// Every text name in the builder converts: no label exceeds 63 bytes.
pub open spec fn builder_names_ok(b: MessageBuilderModel) -> bool {
    &&& forall|i: int|
        0 <= i < b.questions.len() ==> name_elems_of_text(
            (#[trigger] b.questions[i]).name,
        ) is Some
    &&& forall|i: int|
        0 <= i < b.answers.len() ==> name_elems_of_text((#[trigger] b.answers[i]).name) is Some
    &&& forall|i: int|
        0 <= i < b.authority.len() ==> name_elems_of_text(
            (#[trigger] b.authority[i]).name,
        ) is Some
    &&& forall|i: int|
        0 <= i < b.additional.len() ==> name_elems_of_text(
            (#[trigger] b.additional[i]).name,
        ) is Some
}

/// The message a builder builds: a header carrying the entry counts, and
/// each entry converted to its message model.
pub open spec fn built_message(b: MessageBuilderModel) -> wire::MessageModel {
    wire::MessageModel {
        header: Header {
            id: b.id,
            flags: b.flags,
            qd_count: b.questions.len() as u16,
            an_count: b.answers.len() as u16,
            ns_count: b.authority.len() as u16,
            ar_count: b.additional.len() as u16,
        },
        question: Seq::new(b.questions.len(), |i: int| question_built(b.questions[i])),
        answer: Seq::new(b.answers.len(), |i: int| record_built(b.answers[i])),
        authority: Seq::new(b.authority.len(), |i: int| record_built(b.authority[i])),
        additional: Seq::new(b.additional.len(), |i: int| record_built(b.additional[i])),
    }
}

// ---------------------------------------------------------------------------
// Text name encoding
// ---------------------------------------------------------------------------

/// Convert a dot-separated text name to wire bytes: split on dots, drop
/// empty segments, prefix each label with its length, append the root
/// byte. Fails with `InvalidDomainName` exactly when a label exceeds
/// 63 bytes.
pub fn encode_name_bytes(name: &str) -> (r: Result<Vec<u8>, Error>)
    ensures
        (match r {
            Ok(v) => text_name_bytes(name.spec_bytes(), 0) == Option::Some(v@),
            Err(e) => e == Error::InvalidDomainName && text_name_bytes(
                name.spec_bytes(),
                0,
            ) is None,
        }),
{
    let ghost sb = name.spec_bytes();
    let bytes: &[u8] = name.as_bytes();
    let mut out: Vec<u8> = Vec::new();
    if name.is_empty() {
        out.push(0);
        proof {
            assert(sb.len() == 0);
            assert(out@ =~= seq![0u8]);
        }
        return Ok(out);
    }
    let n_total: usize = bytes.len();
    let mut pos: usize = 0;

    while pos < n_total
        invariant
            sb == name.spec_bytes(),
            sb == bytes@,
            n_total == sb.len(),
            (match text_name_bytes(sb, pos as int) {
                Option::Some(rest) => text_name_bytes(sb, 0) == Option::Some(out@ + rest),
                Option::None => text_name_bytes(sb, 0) is None,
            }),
        decreases n_total - pos,
    {
        let ghost prefix = out@;
        let mut j: usize = pos;
        while j < n_total && bytes[j] != 46
            invariant
                pos <= j <= n_total,
                n_total == sb.len(),
                sb == bytes@,
                forall|k: int| pos <= k < j ==> sb[k] != 46,
            decreases n_total - j,
        {
            j = j + 1;
        }
        proof {
            lemma_dot_distance_eq(sb, pos as int, j as int);
        }
        let n: usize = j - pos;
        if n == 0 {
            pos = j + 1;
            continue ;
        }
        if n > 63 {
            proof {
                assert(dot_distance(sb, pos as int) > 63);
                assert(text_name_bytes(sb, pos as int) is None);
                assert(text_name_bytes(sb, 0) is None);
            }
            return Err(Error::InvalidDomainName);
        }
        out.push(n as u8);
        let ghost mid = out@;
        out.extend_from_slice(slice_subrange(bytes, pos, j));
        proof {
            assert(mid =~= prefix + seq![n as u8]);
            assert(out@ =~= prefix + seq![n as u8] + sb.subrange(pos as int, j as int));
            if text_name_bytes(sb, j + 1) is Some {
                let rest = text_name_bytes(sb, j + 1)->Some_0;
                assert(prefix + (seq![n as u8] + sb.subrange(pos as int, j as int) + rest) =~= (
                prefix + seq![n as u8] + sb.subrange(pos as int, j as int)) + rest);
            }
        }
        pos = if j == n_total {
            n_total
        } else {
            j + 1
        };
    }
    let ghost fin = out@;
    out.push(0);
    proof {
        assert(out@ =~= fin + seq![0u8]);
    }
    Ok(out)
}

/// The wire length a text name encodes to.
pub fn encoded_name_len(name: &str) -> (r: Result<usize, Error>)
    ensures
        (match r {
            Ok(n) => text_name_bytes(name.spec_bytes(), 0) matches Option::Some(v) && n == v.len(),
            Err(e) => e == Error::InvalidDomainName && text_name_bytes(
                name.spec_bytes(),
                0,
            ) is None,
        }),
{
    match encode_name_bytes(name) {
        Ok(v) => Ok(v.len()),
        Err(e) => Err(e),
    }
}

// ---------------------------------------------------------------------------
// The builder
// ---------------------------------------------------------------------------

/// Fluent construction of a message from text names and typed fields.
#[derive(Debug, Clone)]
pub struct MessageBuilder {
    id: u16,
    flags: Flags,
    questions: Vec<QuestionBuilder>,
    answers: Vec<ResourceRecordBuilder>,
    authority: Vec<ResourceRecordBuilder>,
    additional: Vec<ResourceRecordBuilder>,
}

impl View for MessageBuilder {
    type V = MessageBuilderModel;

    closed spec fn view(&self) -> MessageBuilderModel {
        MessageBuilderModel {
            id: self.id,
            flags: self.flags,
            questions: self.questions.deep_view(),
            answers: self.answers.deep_view(),
            authority: self.authority.deep_view(),
            additional: self.additional.deep_view(),
        }
    }
}

/// The RFC-conventional default flags: recursion desired, everything else
/// clear; the query/response flag as given.
pub open spec fn default_flags(is_response: bool) -> Flags {
    Flags {
        qr: is_response,
        opcode: 0,
        aa: false,
        tc: false,
        rd: true,
        ra: false,
        z: 0,
        rcode: 0,
    }
}

impl MessageBuilder {
    /// Start a query with the given id.
    pub fn query(id: u16) -> (r: MessageBuilder)
        ensures
            r@ == (MessageBuilderModel {
                id,
                flags: default_flags(false),
                questions: Seq::<QuestionBuilderModel>::empty(),
                answers: Seq::<RecordBuilderModel>::empty(),
                authority: Seq::<RecordBuilderModel>::empty(),
                additional: Seq::<RecordBuilderModel>::empty(),
            }),
    {
        Self::new(id, false)
    }

    /// Start a response with the given id.
    pub fn response(id: u16) -> (r: MessageBuilder)
        ensures
            r@ == (MessageBuilderModel {
                id,
                flags: default_flags(true),
                questions: Seq::<QuestionBuilderModel>::empty(),
                answers: Seq::<RecordBuilderModel>::empty(),
                authority: Seq::<RecordBuilderModel>::empty(),
                additional: Seq::<RecordBuilderModel>::empty(),
            }),
    {
        Self::new(id, true)
    }

    /// Start a message with the given id and direction, with default
    /// flags and empty sections.
    pub fn new(id: u16, is_response: bool) -> (r: MessageBuilder)
        ensures
            r@ == (MessageBuilderModel {
                id,
                flags: default_flags(is_response),
                questions: Seq::<QuestionBuilderModel>::empty(),
                answers: Seq::<RecordBuilderModel>::empty(),
                authority: Seq::<RecordBuilderModel>::empty(),
                additional: Seq::<RecordBuilderModel>::empty(),
            }),
    {
        let flags = Flags::new(is_response, 0, false, false, true, false, 0, 0);
        let r = MessageBuilder {
            id,
            flags,
            questions: Vec::new(),
            answers: Vec::new(),
            authority: Vec::new(),
            additional: Vec::new(),
        };
        proof {
            assert(r.questions.deep_view() =~= Seq::<QuestionBuilderModel>::empty());
            assert(r.answers.deep_view() =~= Seq::<RecordBuilderModel>::empty());
            assert(r.authority.deep_view() =~= Seq::<RecordBuilderModel>::empty());
            assert(r.additional.deep_view() =~= Seq::<RecordBuilderModel>::empty());
        }
        r
    }

    /// Replace the id.
    pub fn id(self, id: u16) -> (r: MessageBuilder)
        ensures
            r@ == (MessageBuilderModel { id, ..self@ }),
    {
        let mut b = self;
        b.id = id;
        b
    }

    /// Replace the flags.
    pub fn flags(self, flags: Flags) -> (r: MessageBuilder)
        ensures
            r@ == (MessageBuilderModel { flags, ..self@ }),
    {
        let mut b = self;
        b.flags = flags;
        b
    }

    /// Append a question with a dot-separated text name.
    pub fn question(self, name: &str, q_type: u16, q_class: u16) -> (r: MessageBuilder)
        ensures
            r@ == (MessageBuilderModel {
                questions: self@.questions.push(
                    QuestionBuilderModel { name: name@, q_type, q_class },
                ),
                ..self@
            }),
    {
        let mut b = self;
        b.questions.push(QuestionBuilder { name: name.to_owned(), q_type, q_class });
        proof {
            assert(b.questions.deep_view() =~= self@.questions.push(
                QuestionBuilderModel { name: name@, q_type, q_class },
            ));
        }
        b
    }

    /// Append an answer record with a dot-separated text name.
    pub fn answer(self, name: &str, rr_type: u16, rr_class: u16, ttl: u32, rdata: Vec<u8>) -> (r:
        MessageBuilder)
        ensures
            r@ == (MessageBuilderModel {
                answers: self@.answers.push(
                    RecordBuilderModel { name: name@, rr_type, rr_class, ttl, rdata: rdata@ },
                ),
                ..self@
            }),
    {
        let ghost entry = RecordBuilderModel {
            name: name@,
            rr_type,
            rr_class,
            ttl,
            rdata: rdata@,
        };
        let mut b = self;
        b.answers.push(ResourceRecordBuilder { name: name.to_owned(), rr_type, rr_class, ttl, rdata });
        proof {
            assert(b.answers.deep_view() =~= self@.answers.push(entry));
        }
        b
    }

    /// Append an authority record with a dot-separated text name.
    pub fn authority(self, name: &str, rr_type: u16, rr_class: u16, ttl: u32, rdata: Vec<u8>) -> (r:
        MessageBuilder)
        ensures
            r@ == (MessageBuilderModel {
                authority: self@.authority.push(
                    RecordBuilderModel { name: name@, rr_type, rr_class, ttl, rdata: rdata@ },
                ),
                ..self@
            }),
    {
        let ghost entry = RecordBuilderModel {
            name: name@,
            rr_type,
            rr_class,
            ttl,
            rdata: rdata@,
        };
        let mut b = self;
        b.authority.push(
            ResourceRecordBuilder { name: name.to_owned(), rr_type, rr_class, ttl, rdata },
        );
        proof {
            assert(b.authority.deep_view() =~= self@.authority.push(entry));
        }
        b
    }

    /// Append an additional record with a dot-separated text name.
    pub fn additional(self, name: &str, rr_type: u16, rr_class: u16, ttl: u32, rdata: Vec<u8>) -> (r:
        MessageBuilder)
        ensures
            r@ == (MessageBuilderModel {
                additional: self@.additional.push(
                    RecordBuilderModel { name: name@, rr_type, rr_class, ttl, rdata: rdata@ },
                ),
                ..self@
            }),
    {
        let ghost entry = RecordBuilderModel {
            name: name@,
            rr_type,
            rr_class,
            ttl,
            rdata: rdata@,
        };
        let mut b = self;
        b.additional.push(
            ResourceRecordBuilder { name: name.to_owned(), rr_type, rr_class, ttl, rdata },
        );
        proof {
            assert(b.additional.deep_view() =~= self@.additional.push(entry));
        }
        b
    }
}

/// The record-model sequence a list of record entries builds.
pub open spec fn records_built(rs: Seq<RecordBuilderModel>) -> Seq<wire::RecordModel> {
    Seq::new(rs.len(), |i: int| record_built(rs[i]))
}

/// Walk a record list for the length prepass: add each entry's encoded
/// size to `total`, saturating, and fail on the first name with an
/// oversized label.
fn check_records(records: &Vec<ResourceRecordBuilder>, total: u64) -> (r: Result<u64, Error>)
    ensures
        r is Ok <==> (forall|i: int|
            0 <= i < records.deep_view().len() ==> name_elems_of_text(
                (#[trigger] records.deep_view()[i]).name,
            ) is Some),
        r matches Err(e) ==> e == Error::InvalidDomainName,
{
    let ghost dv = records.deep_view();
    let mut acc: u64 = total;
    let mut i: usize = 0;
    while i < records.len()
        invariant
            dv == records.deep_view(),
            i <= dv.len(),
            forall|k: int| 0 <= k < i ==> name_elems_of_text((#[trigger] dv[k]).name) is Some,
        decreases dv.len() - i,
    {
        let l = match encoded_name_len(records[i].name.as_str()) {
            Ok(l) => l,
            Err(e) => {
                proof {
                    lemma_text_name(vstd::utf8::encode_utf8(dv[i as int].name), 0);
                }
                return Err(e);
            },
        };
        proof {
            lemma_text_name(vstd::utf8::encode_utf8(dv[i as int].name), 0);
        }
        acc = acc.saturating_add(l as u64).saturating_add(10).saturating_add(
            records[i].rdata.len() as u64,
        );
        i = i + 1;
    }
    Ok(acc)
}

/// Append a record list's wire bytes to `buf`, one entry after another.
#[verifier::rlimit(100)]
fn append_records(records: &Vec<ResourceRecordBuilder>, buf: &mut Vec<u8>)
    requires
        forall|i: int|
            0 <= i < records.deep_view().len() ==> name_elems_of_text(
                (#[trigger] records.deep_view()[i]).name,
            ) is Some,
        forall|i: int|
            0 <= i < records.deep_view().len() ==> (#[trigger] records.deep_view()[i]).rdata.len()
                <= 0xFFFF,
    ensures
        final(buf)@ == old(buf)@ + wire::records_bytes(records_built(records.deep_view())),
{
    let ghost dv = records.deep_view();
    let ghost models = records_built(dv);
    let ghost base = buf@;
    let mut i: usize = 0;
    proof {
        assert(models.take(0) =~= Seq::<wire::RecordModel>::empty());
        assert(buf@ =~= base + wire::records_bytes(models.take(0)));
    }
    while i < records.len()
        invariant
            dv == records.deep_view(),
            models == records_built(dv),
            i <= dv.len(),
            forall|k: int|
                0 <= k < dv.len() ==> name_elems_of_text((#[trigger] dv[k]).name) is Some,
            forall|k: int| 0 <= k < dv.len() ==> (#[trigger] dv[k]).rdata.len() <= 0xFFFF,
            buf@ == base + wire::records_bytes(models.take(i as int)),
        decreases dv.len() - i,
    {
        let rec = &records[i];
        let ghost rm = models[i as int];
        let name_vec = match encode_name_bytes(rec.name.as_str()) {
            Ok(v) => v,
            Err(_) => {
                proof {
                    lemma_text_name(vstd::utf8::encode_utf8(dv[i as int].name), 0);
                    assert(false);
                }
                return ;
            },
        };
        proof {
            lemma_text_name(vstd::utf8::encode_utf8(dv[i as int].name), 0);
            assert(rm == record_built(dv[i as int]));
            assert(wire::name_bytes(rm.name) == name_vec@);
        }
        let ghost before = buf@;
        buf.extend_from_slice(name_vec.as_slice());
        proof {
            assert(buf@ =~= before + name_vec@);
        }
        buf.push((rec.rr_type / 256) as u8);
        buf.push((rec.rr_type % 256) as u8);
        buf.push((rec.rr_class / 256) as u8);
        buf.push((rec.rr_class % 256) as u8);
        buf.push((rec.ttl / 0x1000000) as u8);
        buf.push((rec.ttl / 0x10000 % 256) as u8);
        buf.push((rec.ttl / 0x100 % 256) as u8);
        buf.push((rec.ttl % 256) as u8);
        let rdlen: u16 = rec.rdata.len() as u16;
        buf.push((rdlen / 256) as u8);
        buf.push((rdlen % 256) as u8);
        let ghost fixed = buf@;
        buf.extend_from_slice(rec.rdata.as_slice());
        proof {
            assert(buf@ =~= fixed + rec.rdata@);
            wire::lemma_records_bytes_push(models.take(i as int), rm);
            assert(models.take(i + 1) =~= models.take(i as int).push(rm));
            assert(wire::record_bytes(rm) =~= name_vec@ + wire::bytes_be16(rm.rr_type)
                + wire::bytes_be16(rm.rr_class) + wire::bytes_be32(rm.rr_ttl) + wire::bytes_be16(
                rm.rr_rd_length,
            ) + rm.rr_data);
            assert(buf@ =~= base + wire::records_bytes(models.take(i + 1)));
        }
        i = i + 1;
    }
    proof {
        assert(models.take(dv.len() as int) =~= models);
    }
}

impl MessageBuilder {
    /// Encode directly to wire bytes: compute an upper-bound total size
    /// from every entry's encoded-name length, reserve once, then write
    /// the header and every section in fixed order.
    ///
    /// Fails with `InvalidDomainName` exactly when some text name has a
    /// label over 63 bytes; otherwise returns exactly the wire bytes of
    /// the message the builder describes.
    pub fn build_encode_direct(self) -> (r: Result<Vec<u8>, Error>)
        requires
            self@.flags.wf(),
            self@.questions.len() <= 0xFFFF,
            self@.answers.len() <= 0xFFFF,
            self@.authority.len() <= 0xFFFF,
            self@.additional.len() <= 0xFFFF,
            forall|i: int|
                0 <= i < self@.answers.len() ==> (#[trigger] self@.answers[i]).rdata.len()
                    <= 0xFFFF,
            forall|i: int|
                0 <= i < self@.authority.len() ==> (#[trigger] self@.authority[i]).rdata.len()
                    <= 0xFFFF,
            forall|i: int|
                0 <= i < self@.additional.len() ==> (#[trigger] self@.additional[i]).rdata.len()
                    <= 0xFFFF,
        ensures
            r is Ok <==> builder_names_ok(self@),
            r matches Ok(bytes) ==> {
                &&& bytes@ == wire::message_bytes(built_message(self@))
                &&& roundtrip::message_sendable(built_message(self@))
            },
            r matches Err(e) ==> e == Error::InvalidDomainName,
    {
        let ghost bm = self@;
        let ghost mm = built_message(bm);

        let mut total: u64 = 12;
        let mut i: usize = 0;
        while i < self.questions.len()
            invariant
                bm == self@,
                i <= bm.questions.len(),
                forall|k: int|
                    0 <= k < i ==> name_elems_of_text((#[trigger] bm.questions[k]).name) is Some,
            decreases bm.questions.len() - i,
        {
            let l = match encoded_name_len(self.questions[i].name.as_str()) {
                Ok(l) => l,
                Err(e) => {
                    proof {
                        lemma_text_name(vstd::utf8::encode_utf8(bm.questions[i as int].name), 0);
                    }
                    return Err(e);
                },
            };
            proof {
                lemma_text_name(vstd::utf8::encode_utf8(bm.questions[i as int].name), 0);
            }
            total = total.saturating_add(l as u64).saturating_add(4);
            i = i + 1;
        }
        total = match check_records(&self.answers, total) {
            Ok(t) => t,
            Err(e) => {
                return Err(e);
            },
        };
        total = match check_records(&self.authority, total) {
            Ok(t) => t,
            Err(e) => {
                return Err(e);
            },
        };
        total = match check_records(&self.additional, total) {
            Ok(t) => t,
            Err(e) => {
                return Err(e);
            },
        };
        proof {
            assert(builder_names_ok(bm));
        }

        let mut buf: Vec<u8> = Vec::new();
        let cap: u64 = if total > 65535 {
            65535
        } else {
            total
        };
        buf.reserve(cap as usize);

        let header = Header::new(
            self.id,
            self.flags,
            self.questions.len() as u16,
            self.answers.len() as u16,
            self.authority.len() as u16,
            self.additional.len() as u16,
        );
        buf.resize(12, 0);
        let header_slice = buf.as_mut_slice();
        match crate::encode::header::encode_header(&header, header_slice) {
            Ok(_) => {},
            Err(_) => {
                proof {
                    assert(false);
                }
                return Err(Error::InvalidDomainName);
            },
        }
        proof {
            assert(buf@ =~= wire::header_bytes(mm.header));
        }

        let ghost hb = wire::header_bytes(mm.header);
        let mut i: usize = 0;
        while i < self.questions.len()
            invariant
                bm == self@,
                mm == built_message(bm),
                builder_names_ok(bm),
                i <= bm.questions.len(),
                mm.question.len() == bm.questions.len(),
                hb == wire::header_bytes(mm.header),
                buf@ == hb + wire::questions_bytes(mm.question.take(i as int)),
            decreases bm.questions.len() - i,
        {
            let q = &self.questions[i];
            let ghost qm = mm.question[i as int];
            let name_vec = match encode_name_bytes(q.name.as_str()) {
                Ok(v) => v,
                Err(_) => {
                    proof {
                        lemma_text_name(vstd::utf8::encode_utf8(bm.questions[i as int].name), 0);
                        assert(false);
                    }
                    return Err(Error::InvalidDomainName);
                },
            };
            proof {
                lemma_text_name(vstd::utf8::encode_utf8(bm.questions[i as int].name), 0);
                assert(qm == question_built(bm.questions[i as int]));
                assert(wire::name_bytes(qm.name) == name_vec@);
            }
            let ghost before = buf@;
            buf.extend_from_slice(name_vec.as_slice());
            proof {
                assert(buf@ =~= before + name_vec@);
            }
            buf.push((q.q_type / 256) as u8);
            buf.push((q.q_type % 256) as u8);
            buf.push((q.q_class / 256) as u8);
            buf.push((q.q_class % 256) as u8);
            proof {
                wire::lemma_questions_bytes_push(mm.question.take(i as int), qm);
                assert(mm.question.take(i + 1) =~= mm.question.take(i as int).push(qm));
                assert(wire::question_bytes(qm) =~= name_vec@ + wire::bytes_be16(qm.q_type)
                    + wire::bytes_be16(qm.q_class));
                assert(buf@ =~= hb + wire::questions_bytes(mm.question.take(i + 1)));
            }
            i = i + 1;
        }
        proof {
            assert(mm.question.take(bm.questions.len() as int) =~= mm.question);
        }

        append_records(&self.answers, &mut buf);
        append_records(&self.authority, &mut buf);
        append_records(&self.additional, &mut buf);

        proof {
            let qsb = wire::questions_bytes(mm.question);
            let ab = wire::records_bytes(mm.answer);
            let ub = wire::records_bytes(mm.authority);
            let db = wire::records_bytes(mm.additional);
            assert(mm.answer =~= records_built(bm.answers));
            assert(mm.authority =~= records_built(bm.authority));
            assert(mm.additional =~= records_built(bm.additional));
            assert(buf@ =~= ((hb + qsb + ab) + ub) + db);
            assert(buf@ =~= wire::message_bytes(mm));
            assert(roundtrip::message_sendable(mm)) by {
                assert forall|i: int| 0 <= i < mm.question.len() implies roundtrip::question_sendable(
                    #[trigger] mm.question[i],
                ) by {
                    lemma_text_name(vstd::utf8::encode_utf8(bm.questions[i].name), 0);
                }
                assert forall|i: int| 0 <= i < mm.answer.len() implies roundtrip::record_sendable(
                    #[trigger] mm.answer[i],
                ) by {
                    lemma_text_name(vstd::utf8::encode_utf8(bm.answers[i].name), 0);
                }
                assert forall|i: int| 0 <= i < mm.authority.len() implies roundtrip::record_sendable(
                    #[trigger] mm.authority[i],
                ) by {
                    lemma_text_name(vstd::utf8::encode_utf8(bm.authority[i].name), 0);
                }
                assert forall|i: int|
                    0 <= i < mm.additional.len() implies roundtrip::record_sendable(
                    #[trigger] mm.additional[i],
                ) by {
                    lemma_text_name(vstd::utf8::encode_utf8(bm.additional[i].name), 0);
                }
            }
        }
        Ok(buf)
    }

    /// Encode, then decode the freshly written bytes back through the
    /// message codec: anything the builder produces must also decode
    /// through the same path used for arbitrary wire input. The wire bytes
    /// are left in `buffer`; the returned message is their decoded form.
    pub fn build(self, buffer: &mut Vec<u8>) -> (r: Result<Message, Error>)
        requires
            self@.flags.wf(),
            self@.questions.len() <= 0xFFFF,
            self@.answers.len() <= 0xFFFF,
            self@.authority.len() <= 0xFFFF,
            self@.additional.len() <= 0xFFFF,
            forall|i: int|
                0 <= i < self@.answers.len() ==> (#[trigger] self@.answers[i]).rdata.len()
                    <= 0xFFFF,
            forall|i: int|
                0 <= i < self@.authority.len() ==> (#[trigger] self@.authority[i]).rdata.len()
                    <= 0xFFFF,
            forall|i: int|
                0 <= i < self@.additional.len() ==> (#[trigger] self@.additional[i]).rdata.len()
                    <= 0xFFFF,
        ensures
            r is Ok <==> builder_names_ok(self@),
            r matches Ok(m) ==> {
                &&& m.deep_view() == built_message(self@)
                &&& m.wf()
                &&& final(buffer)@ == wire::message_bytes(built_message(self@))
            },
            r matches Err(e) ==> e == Error::InvalidDomainName && *final(buffer) == *old(buffer),
    {
        let ghost bm = self@;
        let bytes = match self.build_encode_direct() {
            Ok(b) => b,
            Err(e) => {
                return Err(e);
            },
        };
        *buffer = bytes;
        proof {
            roundtrip::lemma_message_bytes_decode(built_message(bm));
        }
        match decode_message(buffer.as_slice()) {
            Ok(m) => Ok(m),
            Err(_) => {
                proof {
                    assert(false);
                }
                Err(Error::InvalidDomainName)
            },
        }
    }
}

} // verus!
