use vstd::prelude::*;
use vstd::slice::{slice_subrange, slice_to_vec};

use super::error::{MessageError, Progress, Reading};
use super::name::{
    encode_name, lemma_name_outcome_extend, lemma_name_write_then_read, name_ends, name_fits, name_outcome, name_text,
    name_wire, walk_name, NameWalk,
};
use super::wire::{
    be16, be16_bytes, be32, be32_bytes, lemma_be16_round_trip, lemma_be32_round_trip, push_u16,
    push_u32, u16_from_be, u32_from_be,
};

verus! {

/// A resource record of the answer section.
#[derive(Debug, PartialEq, Eq)]
pub struct Answer {
    pub name: String,
    pub rtype: u16,
    pub rclass: u16,
    pub ttl: u32,
    pub rdata: Vec<u8>,
}

/// An answer as plain values.
pub struct AnswerView {
    pub name: Seq<char>,
    pub rtype: u16,
    pub rclass: u16,
    pub ttl: u32,
    pub rdata: Seq<u8>,
}

impl View for Answer {
    type V = AnswerView;

    open spec fn view(&self) -> AnswerView {
        AnswerView {
            name: self.name@,
            rtype: self.rtype,
            rclass: self.rclass,
            ttl: self.ttl,
            rdata: self.rdata@,
        }
    }
}

/// An answer on the wire: its name, type, class, time to live, the length
/// of its data (cut to sixteen bits) and the data.
pub open spec fn answer_wire(a: AnswerView) -> Seq<u8> {
    name_wire(a.name) + be16_bytes(a.rtype) + be16_bytes(a.rclass) + be32_bytes(a.ttl)
        + be16_bytes(a.rdata.len() as u16) + a.rdata
}

/// How reading an answer from `bytes` at `offset` ends.
pub open spec fn answer_reading(bytes: Seq<u8>, offset: int) -> Reading<AnswerView> {
    match name_outcome(bytes, offset) {
        NameWalk::Done(labels, end) => if end + 10 > bytes.len() {
            Reading::Fail(MessageError::AnswerRecordTruncated)
        } else {
            let rdlength = be16(bytes[end + 8], bytes[end + 9]);
            if end + 10 + rdlength > bytes.len() {
                Reading::Fail(MessageError::AnswerRdataTruncated)
            } else {
                Reading::Value(
                    AnswerView {
                        name: name_text(labels),
                        rtype: be16(bytes[end], bytes[end + 1]),
                        rclass: be16(bytes[end + 2], bytes[end + 3]),
                        ttl: be32(bytes[end + 4], bytes[end + 5], bytes[end + 6], bytes[end + 7]),
                        rdata: bytes.subrange(end + 10, end + 10 + rdlength),
                    },
                    end + 10 + rdlength,
                )
            }
        },
        NameWalk::Fail(e) => Reading::Fail(e),
        NameWalk::Endless => Reading::Endless,
    }
}

/// The executable reading of an answer agrees with `answer_reading`.
pub open spec fn answer_progress_agrees(
    bytes: Seq<u8>,
    offset: int,
    r: Progress<(Answer, usize)>,
) -> bool {
    match answer_reading(bytes, offset) {
        Reading::Value(a, end) => r matches Progress::Parsed((x, e)) && x@ == a && e == end,
        Reading::Fail(err) => r == Progress::<(Answer, usize)>::Failed(err),
        Reading::Endless => r is Endless,
    }
}

/// An answer whose name reads back as written and whose data length fits
/// in sixteen bits.
pub open spec fn answer_fits(a: AnswerView) -> bool {
    name_fits(a.name) && a.rdata.len() <= 0xFFFF
}

/// An answer written to the wire reads back as the same answer, wherever it
/// stands in a buffer, when every label of its name is non-empty and shorter
/// than 192 bytes and its data is at most 65535 bytes long; the reading ends
/// just past the written answer.
pub proof fn lemma_answer_write_then_read(a: AnswerView, before: Seq<u8>, after: Seq<u8>)
    requires
        answer_fits(a),
    ensures
        answer_reading(before + answer_wire(a) + after, before.len() as int) == Reading::Value(
            a,
            (before.len() + answer_wire(a).len()) as int,
        ),
{
    let nw = name_wire(a.name);
    let fixed = be16_bytes(a.rtype) + be16_bytes(a.rclass) + be32_bytes(a.ttl) + be16_bytes(
        a.rdata.len() as u16,
    );
    let tail = fixed + a.rdata + after;
    let bytes = before + answer_wire(a) + after;
    assert(bytes =~= before + nw + tail);
    lemma_name_write_then_read(a.name, before, tail);
    let end = (before.len() + nw.len()) as int;
    assert(fixed.len() == 10);
    assert forall|i: int| 0 <= i < 10 implies bytes[end + i] == fixed[i] by {
        assert(bytes[end + i] == tail[i]);
    }
    lemma_be16_round_trip(a.rtype);
    lemma_be16_round_trip(a.rclass);
    lemma_be32_round_trip(a.ttl);
    lemma_be16_round_trip(a.rdata.len() as u16);
    assert(bytes[end + 8] == be16_bytes(a.rdata.len() as u16)[0]);
    assert(bytes[end + 9] == be16_bytes(a.rdata.len() as u16)[1]);
    assert(bytes.subrange(end + 10, end + 10 + a.rdata.len()) =~= a.rdata) by {
        assert forall|i: int| 0 <= i < a.rdata.len() implies bytes.subrange(
            end + 10,
            end + 10 + a.rdata.len(),
        )[i] == a.rdata[i] by {
            assert(bytes[end + 10 + i] == tail[10 + i]);
        }
    }
}

/// Bytes appended after a buffer change nothing about reading an answer in
/// it that reads completely.
pub proof fn lemma_answer_reading_extend(bytes: Seq<u8>, extra: Seq<u8>, offset: int)
    requires
        answer_reading(bytes, offset) is Value,
    ensures
        answer_reading(bytes + extra, offset) == answer_reading(bytes, offset),
{
    lemma_name_outcome_extend(bytes, extra, offset);
    if let NameWalk::Done(_, end) = name_outcome(bytes, offset) {
        let b2 = bytes + extra;
        assert forall|i: int| 0 <= i < 10 implies #[trigger] b2[end + i] == bytes[end + i] by {}
        let rdlength = be16(bytes[end + 8], bytes[end + 9]);
        assert(b2.subrange(end + 10, end + 10 + rdlength) =~= bytes.subrange(
            end + 10,
            end + 10 + rdlength,
        ));
    }
}

/// Field order of an answer on the wire: the name, the type, the class
/// (two big-endian bytes each), the time to live (four big-endian bytes),
/// the data length (two big-endian bytes, cut to sixteen bits), then the
/// data, and nothing else.
pub proof fn lemma_answer_wire_fields(a: AnswerView)
    ensures
        ({
            let w = answer_wire(a);
            let n = name_wire(a.name).len() as int;
            &&& w.len() == n + 10 + a.rdata.len()
            &&& w.subrange(0, n) == name_wire(a.name)
            &&& w[n] as int * 256 + w[n + 1] as int == a.rtype as int
            &&& w[n + 2] as int * 256 + w[n + 3] as int == a.rclass as int
            &&& ((w[n + 4] as int * 256 + w[n + 5] as int) * 256 + w[n + 6] as int) * 256
                + w[n + 7] as int == a.ttl as int
            &&& w[n + 8] as int * 256 + w[n + 9] as int == (a.rdata.len() as u16) as int
            &&& w.subrange(n + 10, w.len() as int) == a.rdata
        }),
{
    let w = answer_wire(a);
    let n = name_wire(a.name).len() as int;
    let len16 = a.rdata.len() as u16;
    assert(w.subrange(0, n) =~= name_wire(a.name));
    assert(w[n] == be16_bytes(a.rtype)[0] && w[n + 1] == be16_bytes(a.rtype)[1]);
    assert(w[n + 2] == be16_bytes(a.rclass)[0] && w[n + 3] == be16_bytes(a.rclass)[1]);
    assert(w[n + 4] == be32_bytes(a.ttl)[0] && w[n + 5] == be32_bytes(a.ttl)[1]);
    assert(w[n + 6] == be32_bytes(a.ttl)[2] && w[n + 7] == be32_bytes(a.ttl)[3]);
    assert(w[n + 8] == be16_bytes(len16)[0] && w[n + 9] == be16_bytes(len16)[1]);
    assert(w.subrange(n + 10, w.len() as int) =~= a.rdata);
}

/// What reading an answer gives, field by field: the name that starts at
/// the offset, then from the bytes just after the name the type, the class,
/// the time to live and the data length, then as many bytes of data as that
/// length says; the reading ends right after the data.
pub proof fn lemma_answer_reading_fields(bytes: Seq<u8>, offset: int)
    requires
        answer_reading(bytes, offset) is Value,
    ensures
        answer_reading(bytes, offset) matches Reading::Value(a, e) && {
            let s = e - 10 - a.rdata.len();
            &&& 0 < s && e <= bytes.len()
            &&& name_outcome(bytes, offset) matches NameWalk::Done(labels, end) && end == s
                && a.name == name_text(labels)
            &&& a.rtype as int == bytes[s] as int * 256 + bytes[s + 1] as int
            &&& a.rclass as int == bytes[s + 2] as int * 256 + bytes[s + 3] as int
            &&& a.ttl as int == ((bytes[s + 4] as int * 256 + bytes[s + 5] as int) * 256
                + bytes[s + 6] as int) * 256 + bytes[s + 7] as int
            &&& a.rdata.len() == bytes[s + 8] as int * 256 + bytes[s + 9] as int
            &&& a.rdata == bytes.subrange(s + 10, e)
        },
{
    lemma_name_outcome_extend(bytes, seq![], offset);
}

impl Answer {
    /// The answer on the wire. Data longer than 65535 bytes has its length
    /// cut to the low sixteen bits.
    pub fn to_bytes(&self) -> (bytes: Vec<u8>)
        ensures
            bytes@ == answer_wire(self@),
    {
        let mut bytes = encode_name(self.name.as_str());
        push_u16(&mut bytes, self.rtype);
        push_u16(&mut bytes, self.rclass);
        push_u32(&mut bytes, self.ttl);
        #[verifier::truncate]
        let rdlength = self.rdata.len() as u16;
        push_u16(&mut bytes, rdlength);
        let mut data = self.rdata.clone();
        bytes.append(&mut data);
        bytes
    }

    /// Reads an answer at `offset`, telling apart a name that never ends.
    pub(crate) fn read(bytes: &[u8], offset: usize) -> (r: Progress<(Answer, usize)>)
        ensures
            answer_progress_agrees(bytes@, offset as int, r),
    {
        match walk_name(bytes, offset) {
            Progress::Parsed((name, end)) => {
                if end > bytes.len() || bytes.len() - end < 10 {
                    return Progress::Failed(MessageError::AnswerRecordTruncated);
                }
                let rtype = u16_from_be(bytes[end], bytes[end + 1]);
                let rclass = u16_from_be(bytes[end + 2], bytes[end + 3]);
                let ttl = u32_from_be(bytes[end + 4], bytes[end + 5], bytes[end + 6], bytes[end + 7]);
                let rdlength = u16_from_be(bytes[end + 8], bytes[end + 9]) as usize;
                let start = end + 10;
                if rdlength > bytes.len() - start {
                    return Progress::Failed(MessageError::AnswerRdataTruncated);
                }
                let rdata = slice_to_vec(slice_subrange(bytes, start, start + rdlength));
                Progress::Parsed((Answer { name, rtype, rclass, ttl, rdata }, start + rdlength))
            },
            Progress::Failed(e) => Progress::Failed(e),
            Progress::Endless => Progress::Endless,
        }
    }

    /// Reads the answer record that starts at `offset`: a name, its type,
    /// class, time to live, data length and data. Returns it with the offset
    /// just past it.
    pub fn from_bytes(bytes: &[u8], offset: usize) -> (r: Result<(Answer, usize), MessageError>)
        requires
            name_ends(bytes@, offset as int),
        ensures
            match answer_reading(bytes@, offset as int) {
                Reading::Value(a, end) => r matches Ok((x, e)) && x@ == a && e == end,
                Reading::Fail(err) => r == Err::<(Answer, usize), MessageError>(err),
                Reading::Endless => false,
            },
    {
        match Answer::read(bytes, offset) {
            Progress::Parsed(v) => Ok(v),
            Progress::Failed(e) => Err(e),
            Progress::Endless => Err(MessageError::UnexpectedEndOfName),
        }
    }
}

} // verus!
