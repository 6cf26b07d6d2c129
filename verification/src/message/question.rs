use vstd::prelude::*;

use super::error::{MessageError, Progress, Reading};
use super::name::{
    encode_name, lemma_name_outcome_extend, lemma_name_write_then_read, name_ends, name_fits, name_outcome, name_text,
    name_wire, walk_name, NameWalk,
};
use super::wire::{be16, be16_bytes, lemma_be16_round_trip, push_u16, u16_from_be};

verus! {

/// An entry of the question section.
#[derive(Debug, PartialEq, Eq)]
pub struct Question {
    pub name: String,
    pub qtype: u16,
    pub qclass: u16,
}

/// A question as plain values.
pub struct QuestionView {
    pub name: Seq<char>,
    pub qtype: u16,
    pub qclass: u16,
}

impl View for Question {
    type V = QuestionView;

    open spec fn view(&self) -> QuestionView {
        QuestionView { name: self.name@, qtype: self.qtype, qclass: self.qclass }
    }
}

/// A question on the wire: its name, then its type and class.
pub open spec fn question_wire(q: QuestionView) -> Seq<u8> {
    name_wire(q.name) + be16_bytes(q.qtype) + be16_bytes(q.qclass)
}

/// How reading a question from `bytes` at `offset` ends.
pub open spec fn question_reading(bytes: Seq<u8>, offset: int) -> Reading<QuestionView> {
    match name_outcome(bytes, offset) {
        NameWalk::Done(labels, end) => if end + 4 <= bytes.len() {
            Reading::Value(
                QuestionView {
                    name: name_text(labels),
                    qtype: be16(bytes[end], bytes[end + 1]),
                    qclass: be16(bytes[end + 2], bytes[end + 3]),
                },
                end + 4,
            )
        } else {
            Reading::Fail(MessageError::QuestionSectionTruncated)
        },
        NameWalk::Fail(e) => Reading::Fail(e),
        NameWalk::Endless => Reading::Endless,
    }
}

/// The executable reading of a question agrees with `question_reading`.
pub open spec fn question_progress_agrees(
    bytes: Seq<u8>,
    offset: int,
    r: Progress<(Question, usize)>,
) -> bool {
    match question_reading(bytes, offset) {
        Reading::Value(q, end) => r matches Progress::Parsed((x, e)) && x@ == q && e == end,
        Reading::Fail(err) => r == Progress::<(Question, usize)>::Failed(err),
        Reading::Endless => r is Endless,
    }
}

/// A question whose name reads back as written.
pub open spec fn question_fits(q: QuestionView) -> bool {
    name_fits(q.name)
}

/// A question written to the wire reads back as the same question, wherever
/// it stands in a buffer, when every label of its name is non-empty and
/// shorter than 192 bytes; the reading ends just past the written question.
pub proof fn lemma_question_write_then_read(q: QuestionView, before: Seq<u8>, after: Seq<u8>)
    requires
        question_fits(q),
    ensures
        question_reading(before + question_wire(q) + after, before.len() as int) == Reading::Value(
            q,
            (before.len() + question_wire(q).len()) as int,
        ),
{
    let nw = name_wire(q.name);
    let tail = be16_bytes(q.qtype) + be16_bytes(q.qclass) + after;
    let bytes = before + question_wire(q) + after;
    assert(bytes =~= before + nw + tail);
    lemma_name_write_then_read(q.name, before, tail);
    let end = (before.len() + nw.len()) as int;
    assert(bytes[end] == be16_bytes(q.qtype)[0]);
    assert(bytes[end + 1] == be16_bytes(q.qtype)[1]);
    assert(bytes[end + 2] == be16_bytes(q.qclass)[0]);
    assert(bytes[end + 3] == be16_bytes(q.qclass)[1]);
    lemma_be16_round_trip(q.qtype);
    lemma_be16_round_trip(q.qclass);
}

/// Bytes appended after a buffer change nothing about reading a question in
/// it that reads completely.
pub proof fn lemma_question_reading_extend(bytes: Seq<u8>, extra: Seq<u8>, offset: int)
    requires
        question_reading(bytes, offset) is Value,
    ensures
        question_reading(bytes + extra, offset) == question_reading(bytes, offset),
{
    lemma_name_outcome_extend(bytes, extra, offset);
    if let NameWalk::Done(_, end) = name_outcome(bytes, offset) {
        let b2 = bytes + extra;
        assert(b2[end] == bytes[end] && b2[end + 1] == bytes[end + 1]);
        assert(b2[end + 2] == bytes[end + 2] && b2[end + 3] == bytes[end + 3]);
    }
}

/// Field order of a question on the wire: the name, then the type in two
/// big-endian bytes, then the class in two big-endian bytes, and nothing
/// else.
pub proof fn lemma_question_wire_fields(q: QuestionView)
    ensures
        ({
            let w = question_wire(q);
            let n = name_wire(q.name).len() as int;
            &&& w.len() == n + 4
            &&& w.subrange(0, n) == name_wire(q.name)
            &&& w[n] as int * 256 + w[n + 1] as int == q.qtype as int
            &&& w[n + 2] as int * 256 + w[n + 3] as int == q.qclass as int
        }),
{
    let w = question_wire(q);
    let n = name_wire(q.name).len() as int;
    assert(w.subrange(0, n) =~= name_wire(q.name));
    assert(w[n] == be16_bytes(q.qtype)[0] && w[n + 1] == be16_bytes(q.qtype)[1]);
    assert(w[n + 2] == be16_bytes(q.qclass)[0] && w[n + 3] == be16_bytes(q.qclass)[1]);
}

/// What reading a question gives, field by field: the name that starts at
/// the offset, then the type from the two bytes just after the name, then
/// the class from the next two; the reading ends right after the class.
pub proof fn lemma_question_reading_fields(bytes: Seq<u8>, offset: int)
    requires
        question_reading(bytes, offset) is Value,
    ensures
        question_reading(bytes, offset) matches Reading::Value(q, e) && {
            &&& 4 < e <= bytes.len()
            &&& name_outcome(bytes, offset) matches NameWalk::Done(labels, end) && end == e - 4
                && q.name == name_text(labels)
            &&& q.qtype as int == bytes[e - 4] as int * 256 + bytes[e - 3] as int
            &&& q.qclass as int == bytes[e - 2] as int * 256 + bytes[e - 1] as int
        },
{
    lemma_name_outcome_extend(bytes, seq![], offset);
}

impl Question {
    /// The question on the wire.
    pub fn to_bytes(&self) -> (bytes: Vec<u8>)
        ensures
            bytes@ == question_wire(self@),
    {
        let mut bytes = encode_name(self.name.as_str());
        push_u16(&mut bytes, self.qtype);
        push_u16(&mut bytes, self.qclass);
        bytes
    }

    /// Reads a question at `offset`, telling apart a name that never ends.
    pub(crate) fn read(bytes: &[u8], offset: usize) -> (r: Progress<(Question, usize)>)
        ensures
            question_progress_agrees(bytes@, offset as int, r),
    {
        match walk_name(bytes, offset) {
            Progress::Parsed((name, end)) => {
                if end > bytes.len() || bytes.len() - end < 4 {
                    return Progress::Failed(MessageError::QuestionSectionTruncated);
                }
                let qtype = u16_from_be(bytes[end], bytes[end + 1]);
                let qclass = u16_from_be(bytes[end + 2], bytes[end + 3]);
                Progress::Parsed((Question { name, qtype, qclass }, end + 4))
            },
            Progress::Failed(e) => Progress::Failed(e),
            Progress::Endless => Progress::Endless,
        }
    }

    /// Reads the question that starts at `offset`: a name, then its type and
    /// class. Returns it with the offset just past it.
    pub fn from_bytes(bytes: &[u8], offset: usize) -> (r: Result<(Question, usize), MessageError>)
        requires
            name_ends(bytes@, offset as int),
        ensures
            match question_reading(bytes@, offset as int) {
                Reading::Value(q, end) => r matches Ok((x, e)) && x@ == q && e == end,
                Reading::Fail(err) => r == Err::<(Question, usize), MessageError>(err),
                Reading::Endless => false,
            },
    {
        match Question::read(bytes, offset) {
            Progress::Parsed(v) => Ok(v),
            Progress::Failed(e) => Err(e),
            Progress::Endless => Err(MessageError::UnexpectedEndOfName),
        }
    }
}

} // verus!
