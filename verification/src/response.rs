use vstd::prelude::*;

use crate::message::answer::{answer_fits, AnswerView};
use crate::message::header::header_fits;
use crate::message::question::{question_fits, QuestionView};
use crate::message::{Answer, Header, Message, MessageView, Question};
use crate::message::error::Reading;
use crate::message::{lemma_message_write_then_read, message_fits, message_reading, message_wire};

verus! {

/// The identifier of a reply to a request that could not be read.
pub const UNKNOWN_REQUEST_ID: u16 = 1234;

/// Response code: no error.
pub const RCODE_NO_ERROR: u8 = 0;

/// Response code: the kind of query is not implemented.
pub const RCODE_NOT_IMPLEMENTED: u8 = 4;

/// Record type A (a host address), the type of every answer given.
pub const TYPE_A: u16 = 1;

/// Class IN (the Internet), the class of every answer given.
pub const CLASS_IN: u16 = 1;

/// Time to live, in seconds, of every answer given.
pub const ANSWER_TTL: u32 = 60;

/// The answer given to a question: an A record for its name, with address
/// 8.8.8.8.
pub open spec fn answer_for(q: QuestionView) -> AnswerView {
    AnswerView {
        name: q.name,
        rtype: TYPE_A,
        rclass: CLASS_IN,
        ttl: ANSWER_TTL,
        rdata: seq![8u8, 8u8, 8u8, 8u8],
    }
}

/// The reply to a request, or to bytes that could not be read as one
/// (`None`): a response with the request's identifier, opcode and
/// recursion-desired flag, "not implemented" for any opcode but a standard
/// query, the request's questions, and one answer for each.
pub open spec fn reply_to(request: Option<MessageView>) -> MessageView {
    let id = match request {
        Some(m) => m.header.id,
        None => UNKNOWN_REQUEST_ID,
    };
    let opcode = match request {
        Some(m) => m.header.opcode,
        None => 0u8,
    };
    let rd = match request {
        Some(m) => m.header.rd,
        None => false,
    };
    let questions = match request {
        Some(m) => m.questions,
        None => Seq::<QuestionView>::empty(),
    };
    MessageView {
        header: Header {
            id,
            qr: true,
            opcode,
            aa: false,
            tc: false,
            rd,
            ra: false,
            z: 0,
            rcode: if opcode == 0 {
                RCODE_NO_ERROR
            } else {
                RCODE_NOT_IMPLEMENTED
            },
            qdcount: questions.len() as u16,
            ancount: questions.len() as u16,
            nscount: 0,
            arcount: 0,
        },
        questions,
        answers: questions.map_values(|q: QuestionView| answer_for(q)),
    }
}

/// The message viewed, if any.
pub open spec fn view_of(request: Option<&Message>) -> Option<MessageView> {
    match request {
        Some(m) => Some(m@),
        None => None,
    }
}

/// Builds the reply to a request, or to bytes that could not be read as one
/// (`None`).
pub fn build_response(request: Option<&Message>) -> (response: Message)
    ensures
        response@ == reply_to(view_of(request)),
{
    let (id, opcode, rd) = match request {
        Some(m) => (m.header.id, m.header.opcode, m.header.rd),
        None => (UNKNOWN_REQUEST_ID, 0u8, false),
    };
    let rcode = if opcode == 0 {
        RCODE_NO_ERROR
    } else {
        RCODE_NOT_IMPLEMENTED
    };
    let ghost qs = match view_of(request) {
        Some(m) => m.questions,
        None => Seq::<QuestionView>::empty(),
    };
    let mut questions: Vec<Question> = Vec::new();
    let mut answers: Vec<Answer> = Vec::new();
    if let Some(m) = request {
        for i in 0..m.questions.len()
            invariant
                qs == m@.questions,
                questions@.map_values(|q: Question| q@) == qs.take(i as int),
                answers@.map_values(|a: Answer| a@) == qs.take(i as int).map_values(
                    |q: QuestionView| answer_for(q),
                ),
        {
            let q = &m.questions[i];
            let question = Question { name: q.name.clone(), qtype: q.qtype, qclass: q.qclass };
            let answer = Answer {
                name: q.name.clone(),
                rtype: TYPE_A,
                rclass: CLASS_IN,
                ttl: ANSWER_TTL,
                rdata: vec![8u8, 8u8, 8u8, 8u8],
            };
            proof {
                assert(answer.rdata@ =~= seq![8u8, 8u8, 8u8, 8u8]);
                assert(qs[i as int] == q@);
            }
            let ghost old_q = questions@;
            let ghost old_a = answers@;
            questions.push(question);
            answers.push(answer);
            proof {
                assert(qs.take(i + 1) =~= qs.take(i as int).push(q@));
                assert(questions@.map_values(|q: Question| q@) =~= old_q.map_values(|q: Question| q@).push(q@));
                assert(answers@.map_values(|a: Answer| a@) =~= old_a.map_values(|a: Answer| a@).push(answer_for(q@)));
                assert(qs.take(i + 1).map_values(|q: QuestionView| answer_for(q)) =~= qs.take(i as int).map_values(|q: QuestionView| answer_for(q)).push(answer_for(q@)));
            }
        }
        proof {
            assert(qs.take(m.questions.len() as int) =~= qs);
        }
    } else {
        proof {
            assert(questions@.map_values(|q: Question| q@) =~= qs);
            assert(answers@.map_values(|a: Answer| a@) =~= qs.map_values(|q: QuestionView| answer_for(q)));
        }
    }
    #[verifier::truncate]
    let count = questions.len() as u16;
    let header = Header {
        id,
        qr: true,
        opcode,
        aa: false,
        tc: false,
        rd,
        ra: false,
        z: 0,
        rcode,
        qdcount: count,
        ancount: count,
        nscount: 0,
        arcount: 0,
    };
    Message { header, questions, answers }
}

/// The reply to a request is a response to it: it carries the request's
/// identifier, opcode and recursion-desired flag, has the QR flag set and
/// the other flags, Z and the authority and additional counts zero, answers
/// "no error" to a standard query (opcode 0) and "not implemented" to any
/// other, repeats the request's questions unchanged and in order, and gives
/// for each question, in the same place, one A record of class IN with time
/// to live 60 and address 8.8.8.8 for that question's name. Both counts are
/// the number of questions, cut to sixteen bits.
pub proof fn lemma_reply_answers_request(m: MessageView)
    ensures
        ({
            let r = reply_to(Some(m));
            &&& r.header.id == m.header.id
            &&& r.header.opcode == m.header.opcode
            &&& r.header.rd == m.header.rd
            &&& r.header.qr
            &&& !r.header.aa && !r.header.tc && !r.header.ra
            &&& r.header.z == 0
            &&& (m.header.opcode == 0 ==> r.header.rcode == 0)
            &&& (m.header.opcode != 0 ==> r.header.rcode == 4)
            &&& r.header.nscount == 0 && r.header.arcount == 0
            &&& r.questions == m.questions
            &&& r.answers.len() == m.questions.len()
            &&& forall|i: int|
                0 <= i < m.questions.len() ==> {
                    let a = #[trigger] r.answers[i];
                    &&& a.name == m.questions[i].name
                    &&& a.rtype == 1 && a.rclass == 1 && a.ttl == 60
                    &&& a.rdata == seq![8u8, 8u8, 8u8, 8u8]
                }
            &&& r.header.qdcount == m.questions.len() as u16
            &&& r.header.ancount == m.questions.len() as u16
            &&& (m.questions.len() <= 0xFFFF ==> r.header.qdcount == m.questions.len()
                && r.header.ancount == m.questions.len())
        }),
{
}

/// The reply to bytes that could not be read as a request is a response
/// with identifier 1234, opcode 0, no flags but QR, "no error", and no
/// questions or answers.
pub proof fn lemma_reply_to_unreadable()
    ensures
        ({
            let r = reply_to(None);
            &&& r.header.id == 1234
            &&& r.header.qr
            &&& r.header.opcode == 0 && r.header.rcode == 0
            &&& !r.header.aa && !r.header.tc && !r.header.rd && !r.header.ra
            &&& r.header.z == 0
            &&& r.header.qdcount == 0 && r.header.ancount == 0
            &&& r.header.nscount == 0 && r.header.arcount == 0
            &&& r.questions.len() == 0 && r.answers.len() == 0
        }),
{
}

/// The reply to a request whose opcode fits in four bits, with at most
/// 65535 questions whose names all fit the wire format, reads back from its
/// bytes as itself.
pub proof fn lemma_reply_reads_back(request: Option<MessageView>)
    requires
        request matches Some(m) ==> {
            &&& m.header.opcode < 16
            &&& m.questions.len() <= 0xFFFF
            &&& forall|i: int| 0 <= i < m.questions.len() ==> question_fits(#[trigger] m.questions[i])
        },
    ensures
        message_reading(message_wire(reply_to(request))) == Reading::Value(
            reply_to(request),
            message_wire(reply_to(request)).len() as int,
        ),
{
    let r = reply_to(request);
    assert forall|i: int| 0 <= i < r.answers.len() implies answer_fits(#[trigger] r.answers[i]) by {
        assert(r.answers[i] == answer_for(r.questions[i]));
        assert(question_fits(r.questions[i]));
    }
    assert(header_fits(r.header));
    assert(message_fits(r));
    lemma_message_write_then_read(r);
}

} // verus!
