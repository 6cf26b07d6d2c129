pub mod answer;
pub mod error;
pub mod header;
pub mod name;
pub mod question;
pub mod wire;

pub use answer::Answer;
pub use error::MessageError;
pub use header::Header;
pub use question::Question;

use vstd::array::array_as_slice;
use vstd::prelude::*;
use vstd::slice::slice_to_vec;

use answer::{
    answer_fits, answer_reading, answer_wire, lemma_answer_reading_extend,
    lemma_answer_write_then_read, AnswerView,
};
use error::{Progress, Reading};
use header::{
    header_fits, header_from_wire, header_outcome, header_wire, lemma_header_write_then_read,
    HEADER_SIZE,
};
use question::{
    lemma_question_reading_extend, lemma_question_write_then_read, question_fits, question_reading, question_wire, QuestionView,
};
use wire::{concat_all, lemma_concat_all_part, lemma_concat_all_push};

verus! {

/// A DNS message: its header, its questions and its answers.
#[derive(Debug, PartialEq, Eq)]
pub struct Message {
    pub header: Header,
    pub questions: Vec<Question>,
    pub answers: Vec<Answer>,
}

/// A message as plain values.
pub struct MessageView {
    pub header: Header,
    pub questions: Seq<QuestionView>,
    pub answers: Seq<AnswerView>,
}

impl View for Message {
    type V = MessageView;

    open spec fn view(&self) -> MessageView {
        MessageView {
            header: self.header,
            questions: self.questions@.map_values(|q: Question| q@),
            answers: self.answers@.map_values(|a: Answer| a@),
        }
    }
}

/// `n` parts read one after the other from `offset` on, each with `read`.
pub open spec fn read_many<T>(read: spec_fn(int) -> Reading<T>, offset: int, n: nat) -> Reading<
    Seq<T>,
>
    decreases n,
{
    if n == 0 {
        Reading::Value(seq![], offset)
    } else {
        match read(offset) {
            Reading::Value(x, next) => match read_many(read, next, (n - 1) as nat) {
                Reading::Value(xs, end) => Reading::Value(seq![x] + xs, end),
                Reading::Fail(e) => Reading::Fail(e),
                Reading::Endless => Reading::Endless,
            },
            Reading::Fail(e) => Reading::Fail(e),
            Reading::Endless => Reading::Endless,
        }
    }
}

/// The parts read so far put in front of how the rest of the reading ends.
pub open spec fn read_after<T>(done: Seq<T>, rest: Reading<Seq<T>>) -> Reading<Seq<T>> {
    match rest {
        Reading::Value(xs, end) => Reading::Value(done + xs, end),
        Reading::Fail(e) => Reading::Fail(e),
        Reading::Endless => Reading::Endless,
    }
}

/// How reading the questions of a message ends.
pub open spec fn questions_reading(bytes: Seq<u8>, offset: int, n: nat) -> Reading<
    Seq<QuestionView>,
> {
    read_many(|o: int| question_reading(bytes, o), offset, n)
}

/// How reading the answers of a message ends.
pub open spec fn answers_reading(bytes: Seq<u8>, offset: int, n: nat) -> Reading<Seq<AnswerView>> {
    read_many(|o: int| answer_reading(bytes, o), offset, n)
}

/// How reading a message from `bytes` ends: the header, then as many
/// questions as it counts, then as many answers. Records of the authority
/// and additional sections are not read.
pub open spec fn message_reading(bytes: Seq<u8>) -> Reading<MessageView> {
    match header_outcome(bytes) {
        Err(e) => Reading::Fail(e),
        Ok(h) => match questions_reading(bytes, HEADER_SIZE as int, h.qdcount as nat) {
            Reading::Value(qs, off) => match answers_reading(bytes, off, h.ancount as nat) {
                Reading::Value(ans, end) => Reading::Value(
                    MessageView { header: h, questions: qs, answers: ans },
                    end,
                ),
                Reading::Fail(e) => Reading::Fail(e),
                Reading::Endless => Reading::Endless,
            },
            Reading::Fail(e) => Reading::Fail(e),
            Reading::Endless => Reading::Endless,
        },
    }
}

/// Reading a message from `bytes` comes to an end: no name in it follows
/// compression pointers round in a circle.
pub open spec fn message_ends(bytes: Seq<u8>) -> bool {
    !(message_reading(bytes) is Endless)
}

/// A message on the wire: its header, its questions, its answers.
pub open spec fn message_wire(m: MessageView) -> Seq<u8> {
    header_wire(m.header) + concat_all(m.questions.map_values(|q: QuestionView| question_wire(q)))
        + concat_all(m.answers.map_values(|a: AnswerView| answer_wire(a)))
}

/// The executable reading of a message agrees with `message_reading`.
pub open spec fn message_progress_agrees(bytes: Seq<u8>, r: Progress<Message>) -> bool {
    match message_reading(bytes) {
        Reading::Value(m, _) => r matches Progress::Parsed(x) && x@ == m,
        Reading::Fail(err) => r == Progress::<Message>::Failed(err),
        Reading::Endless => r is Endless,
    }
}

proof fn lemma_read_many_step<T>(
    read: spec_fn(int) -> Reading<T>,
    done: Seq<T>,
    offset: int,
    n: nat,
    x: T,
    next: int,
)
    requires
        n > 0,
        read(offset) == Reading::Value(x, next),
    ensures
        read_after(done, read_many(read, offset, n)) == read_after(
            done.push(x),
            read_many(read, next, (n - 1) as nat),
        ),
{
    match read_many(read, next, (n - 1) as nat) {
        Reading::Value(xs, end) => {
            assert(done + (seq![x] + xs) =~= done.push(x) + xs);
        },
        _ => {},
    }
}

/// A message that reads back as written: its header's fields fit their bit
/// widths, its question and answer counts are the lengths of its question
/// and answer lists, every name in it has non-empty labels shorter than 192
/// bytes, and every answer's data is at most 65535 bytes long.
pub open spec fn message_fits(m: MessageView) -> bool {
    &&& header_fits(m.header)
    &&& m.header.qdcount == m.questions.len()
    &&& m.header.ancount == m.answers.len()
    &&& forall|i: int| 0 <= i < m.questions.len() ==> question_fits(#[trigger] m.questions[i])
    &&& forall|i: int| 0 <= i < m.answers.len() ==> answer_fits(#[trigger] m.answers[i])
}

proof fn lemma_read_many_wires<T>(
    bytes: Seq<u8>,
    read: spec_fn(int) -> Reading<T>,
    wire: spec_fn(T) -> Seq<u8>,
    xs: Seq<T>,
    offset: int,
)
    requires
        0 <= offset,
        offset + concat_all(xs.map_values(wire)).len() <= bytes.len(),
        bytes.subrange(offset, offset + concat_all(xs.map_values(wire)).len()) == concat_all(
            xs.map_values(wire),
        ),
        forall|i: int, o: int|
            0 <= i < xs.len() && 0 <= o && o + wire(xs[i]).len() <= bytes.len() && bytes.subrange(
                o,
                o + wire(xs[i]).len(),
            ) == wire(xs[i]) ==> #[trigger] read(o) == Reading::Value(
                #[trigger] xs[i],
                o + wire(xs[i]).len(),
            ),
    ensures
        read_many(read, offset, xs.len()) == Reading::Value(
            xs,
            offset + concat_all(xs.map_values(wire)).len(),
        ),
    decreases xs.len(),
{
    if xs.len() == 0 {
        assert(xs =~= Seq::<T>::empty());
        assert(xs.map_values(wire) =~= Seq::<Seq<u8>>::empty());
    } else {
        let x = xs[0];
        let rest = xs.drop_first();
        let w = wire(x);
        let all = concat_all(xs.map_values(wire));
        let rw = concat_all(rest.map_values(wire));
        assert(xs.map_values(wire).drop_first() =~= rest.map_values(wire));
        assert(all == w + rw);
        assert(bytes.subrange(offset, offset + w.len()) =~= w) by {
            assert forall|k: int| 0 <= k < w.len() implies bytes.subrange(offset, offset + w.len())[k]
                == w[k] by {
                assert(bytes.subrange(offset, offset + all.len())[k] == all[k]);
            }
        }
        assert(read(offset) == Reading::Value(xs[0], offset + w.len()));
        let next = offset + w.len();
        assert(bytes.subrange(next, next + rw.len()) =~= rw) by {
            assert forall|k: int| 0 <= k < rw.len() implies bytes.subrange(next, next + rw.len())[k]
                == rw[k] by {
                assert(bytes.subrange(offset, offset + all.len())[k + w.len()] == all[k + w.len()]);
            }
        }
        assert forall|i: int, o: int|
            0 <= i < rest.len() && 0 <= o && o + wire(rest[i]).len() <= bytes.len()
                && bytes.subrange(o, o + wire(rest[i]).len()) == wire(rest[i]) implies #[trigger] read(o)
            == Reading::Value(#[trigger] rest[i], o + wire(rest[i]).len()) by {
            assert(rest[i] == xs[i + 1]);
        }
        lemma_read_many_wires(bytes, read, wire, rest, next);
        assert(seq![x] + rest =~= xs);
        assert((xs.len() - 1) as nat == rest.len());
    }
}

/// A message written to the wire reads back as the same message, and the
/// reading ends at the end of the written bytes, for every message whose
/// counts match its lists and whose fields and names fit the wire format.
pub proof fn lemma_message_write_then_read(m: MessageView)
    requires
        message_fits(m),
    ensures
        message_ends(message_wire(m)),
        message_reading(message_wire(m)) == Reading::Value(m, message_wire(m).len() as int),
{
    let bytes = message_wire(m);
    let hw = header_wire(m.header);
    let qf = |q: QuestionView| question_wire(q);
    let af = |a: AnswerView| answer_wire(a);
    let qw = concat_all(m.questions.map_values(qf));
    let aw = concat_all(m.answers.map_values(af));
    assert(bytes == hw + qw + aw);
    lemma_header_write_then_read(m.header);
    assert(header_from_wire(bytes) == header_from_wire(hw)) by {
        assert forall|k: int| 0 <= k < 12 implies bytes[k] == hw[k] by {}
    }
    assert(header_outcome(bytes) == Ok::<Header, MessageError>(m.header));

    let qr = |o: int| question_reading(bytes, o);
    assert forall|i: int, o: int|
        0 <= i < m.questions.len() && 0 <= o && o + qf(m.questions[i]).len() <= bytes.len()
            && bytes.subrange(o, o + qf(m.questions[i]).len()) == qf(m.questions[i]) implies #[trigger] qr(o)
        == Reading::Value(#[trigger] m.questions[i], o + qf(m.questions[i]).len()) by {
        let q = m.questions[i];
        let w = question_wire(q);
        assert(bytes =~= bytes.take(o) + w + bytes.skip(o + w.len()));
        lemma_question_write_then_read(q, bytes.take(o), bytes.skip(o + w.len()));
    }
    assert(bytes.subrange(12, 12 + qw.len() as int) =~= qw);
    lemma_read_many_wires(bytes, qr, qf, m.questions, 12);

    let ar = |o: int| answer_reading(bytes, o);
    let off = (12 + qw.len()) as int;
    assert forall|i: int, o: int|
        0 <= i < m.answers.len() && 0 <= o && o + af(m.answers[i]).len() <= bytes.len()
            && bytes.subrange(o, o + af(m.answers[i]).len()) == af(m.answers[i]) implies #[trigger] ar(o)
        == Reading::Value(#[trigger] m.answers[i], o + af(m.answers[i]).len()) by {
        let a = m.answers[i];
        let w = answer_wire(a);
        assert(bytes =~= bytes.take(o) + w + bytes.skip(o + w.len()));
        lemma_answer_write_then_read(a, bytes.take(o), bytes.skip(o + w.len()));
    }
    assert(bytes.subrange(off, off + aw.len() as int) =~= aw);
    lemma_read_many_wires(bytes, ar, af, m.answers, off);
}

/// Layout of a message on the wire: its header in the first twelve bytes,
/// then each question in order, each right after the ones before it, then,
/// only after all questions, each answer in order, and nothing after the
/// last answer.
pub proof fn lemma_message_wire_layout(m: MessageView)
    ensures
        ({
            let w = message_wire(m);
            let qws = m.questions.map_values(|q: QuestionView| question_wire(q));
            let aws = m.answers.map_values(|a: AnswerView| answer_wire(a));
            let qlen = concat_all(qws).len() as int;
            &&& w.len() == 12 + qlen + concat_all(aws).len()
            &&& w.subrange(0, 12) == header_wire(m.header)
            &&& forall|i: int|
                0 <= i < m.questions.len() ==> {
                    let o = (12 + concat_all(qws.take(i)).len()) as int;
                    w.subrange(o, o + question_wire(m.questions[i]).len()) == question_wire(
                        #[trigger] m.questions[i],
                    )
                }
            &&& forall|j: int|
                0 <= j < m.answers.len() ==> {
                    let o = (12 + qlen + concat_all(aws.take(j)).len()) as int;
                    w.subrange(o, o + answer_wire(m.answers[j]).len()) == answer_wire(
                        #[trigger] m.answers[j],
                    )
                }
        }),
{
    let w = message_wire(m);
    let hw = header_wire(m.header);
    let qws = m.questions.map_values(|q: QuestionView| question_wire(q));
    let aws = m.answers.map_values(|a: AnswerView| answer_wire(a));
    let qw = concat_all(qws);
    let aw = concat_all(aws);
    assert(w == hw + qw + aw);
    assert(w.subrange(0, 12) =~= hw);
    assert forall|i: int| 0 <= i < m.questions.len() implies {
        let o = (12 + concat_all(qws.take(i)).len()) as int;
        w.subrange(o, o + question_wire(m.questions[i]).len()) == question_wire(
            #[trigger] m.questions[i],
        )
    } by {
        lemma_concat_all_part(qws, i);
        let o = concat_all(qws.take(i)).len() as int;
        let n = qws[i].len();
        assert(w.subrange(12 + o, 12 + o + n) =~= qw.subrange(o, o + n));
    }
    assert forall|j: int| 0 <= j < m.answers.len() implies {
        let o = (12 + qw.len() + concat_all(aws.take(j)).len()) as int;
        w.subrange(o, o + answer_wire(m.answers[j]).len()) == answer_wire(#[trigger] m.answers[j])
    } by {
        lemma_concat_all_part(aws, j);
        let o = concat_all(aws.take(j)).len() as int;
        let n = aws[j].len();
        let b = 12 + qw.len();
        assert(w.subrange(b + o, b + o + n) =~= aw.subrange(o, o + n));
    }
}

/// Order of reading a message: the header from the first twelve bytes,
/// then the questions one after the other from offset 12 on, then the
/// answers one after the other from where the last question ends; the
/// reading ends where the last answer ends.
pub proof fn lemma_message_reading_order(bytes: Seq<u8>)
    requires
        message_reading(bytes) is Value,
    ensures
        message_reading(bytes) matches Reading::Value(m, e) && {
            &&& bytes.len() >= 12
            &&& m.header == header_from_wire(bytes)
            &&& read_many(|o: int| question_reading(bytes, o), 12, m.header.qdcount as nat) matches Reading::Value(qs, off)
                && qs == m.questions
                && read_many(|o: int| answer_reading(bytes, o), off, m.header.ancount as nat)
                == Reading::Value(m.answers, e)
        },
{
}

proof fn lemma_read_many_same<T>(
    read1: spec_fn(int) -> Reading<T>,
    read2: spec_fn(int) -> Reading<T>,
    offset: int,
    n: nat,
)
    requires
        read_many(read1, offset, n) is Value,
        forall|o: int| #[trigger] read1(o) is Value ==> read2(o) == read1(o),
    ensures
        read_many(read2, offset, n) == read_many(read1, offset, n),
    decreases n,
{
    if n > 0 {
        if let Reading::Value(_, next) = read1(offset) {
            lemma_read_many_same(read1, read2, next, (n - 1) as nat);
        }
    }
}

/// Reading a message does not look past its end: bytes appended after a
/// message that reads completely change nothing about how it reads.
pub proof fn lemma_message_read_ignores_trailing(bytes: Seq<u8>, extra: Seq<u8>)
    requires
        message_reading(bytes) is Value,
    ensures
        message_reading(bytes + extra) == message_reading(bytes),
{
    let b2 = bytes + extra;
    assert forall|k: int| 0 <= k < 12 implies b2[k] == bytes[k] by {}
    assert(header_outcome(b2) == header_outcome(bytes));
    let h = header_from_wire(bytes);
    let q1 = |o: int| question_reading(bytes, o);
    let q2 = |o: int| question_reading(b2, o);
    assert forall|o: int| #[trigger] q1(o) is Value implies q2(o) == q1(o) by {
        lemma_question_reading_extend(bytes, extra, o);
    }
    lemma_read_many_same(q1, q2, HEADER_SIZE as int, h.qdcount as nat);
    if let Reading::Value(_, off) = questions_reading(bytes, HEADER_SIZE as int, h.qdcount as nat) {
        let a1 = |o: int| answer_reading(bytes, o);
        let a2 = |o: int| answer_reading(b2, o);
        assert forall|o: int| #[trigger] a1(o) is Value implies a2(o) == a1(o) by {
            lemma_answer_reading_extend(bytes, extra, o);
        }
        lemma_read_many_same(a1, a2, off, h.ancount as nat);
    }
}

impl Message {
    /// Reads the questions that follow `offset`.
    fn read_questions(bytes: &[u8], offset: usize, count: u16) -> (r: Progress<(Vec<Question>, usize)>)
        ensures
            match questions_reading(bytes@, offset as int, count as nat) {
                Reading::Value(qs, end) => r matches Progress::Parsed((v, e)) && v@.map_values(
                    |q: Question| q@,
                ) == qs && e == end,
                Reading::Fail(err) => r == Progress::<(Vec<Question>, usize)>::Failed(err),
                Reading::Endless => r is Endless,
            },
    {
        let ghost rd = |o: int| question_reading(bytes@, o);
        let mut questions: Vec<Question> = Vec::new();
        let mut pos = offset;
        let mut i: u16 = 0;
        proof {
            assert(questions@.map_values(|q: Question| q@) + Seq::<QuestionView>::empty()
                =~= Seq::<QuestionView>::empty());
        }
        while i < count
            invariant
                i <= count,
                rd == (|o: int| question_reading(bytes@, o)),
                read_many(rd, offset as int, count as nat) == read_after(
                    questions@.map_values(|q: Question| q@),
                    read_many(rd, pos as int, (count - i) as nat),
                ),
            decreases count - i,
        {
            let ghost done = questions@.map_values(|q: Question| q@);
            match Question::read(bytes, pos) {
                Progress::Parsed((q, next)) => {
                    proof {
                        lemma_read_many_step(rd, done, pos as int, (count - i) as nat, q@, next as int);
                    }
                    questions.push(q);
                    proof {
                        assert(questions@.map_values(|q: Question| q@) =~= done.push(q@));
                    }
                    pos = next;
                    i = i + 1;
                },
                Progress::Failed(e) => {
                    return Progress::Failed(e);
                },
                Progress::Endless => {
                    return Progress::Endless;
                },
            }
        }
        proof {
            assert(questions@.map_values(|q: Question| q@) + Seq::<QuestionView>::empty()
                =~= questions@.map_values(|q: Question| q@));
        }
        Progress::Parsed((questions, pos))
    }

    /// Reads the answers that follow `offset`.
    fn read_answers(bytes: &[u8], offset: usize, count: u16) -> (r: Progress<(Vec<Answer>, usize)>)
        ensures
            match answers_reading(bytes@, offset as int, count as nat) {
                Reading::Value(ans, end) => r matches Progress::Parsed((v, e)) && v@.map_values(
                    |a: Answer| a@,
                ) == ans && e == end,
                Reading::Fail(err) => r == Progress::<(Vec<Answer>, usize)>::Failed(err),
                Reading::Endless => r is Endless,
            },
    {
        let ghost rd = |o: int| answer_reading(bytes@, o);
        let mut answers: Vec<Answer> = Vec::new();
        let mut pos = offset;
        let mut i: u16 = 0;
        proof {
            assert(answers@.map_values(|a: Answer| a@) + Seq::<AnswerView>::empty()
                =~= Seq::<AnswerView>::empty());
        }
        while i < count
            invariant
                i <= count,
                rd == (|o: int| answer_reading(bytes@, o)),
                read_many(rd, offset as int, count as nat) == read_after(
                    answers@.map_values(|a: Answer| a@),
                    read_many(rd, pos as int, (count - i) as nat),
                ),
            decreases count - i,
        {
            let ghost done = answers@.map_values(|a: Answer| a@);
            match Answer::read(bytes, pos) {
                Progress::Parsed((a, next)) => {
                    proof {
                        lemma_read_many_step(rd, done, pos as int, (count - i) as nat, a@, next as int);
                    }
                    answers.push(a);
                    proof {
                        assert(answers@.map_values(|a: Answer| a@) =~= done.push(a@));
                    }
                    pos = next;
                    i = i + 1;
                },
                Progress::Failed(e) => {
                    return Progress::Failed(e);
                },
                Progress::Endless => {
                    return Progress::Endless;
                },
            }
        }
        proof {
            assert(answers@.map_values(|a: Answer| a@) + Seq::<AnswerView>::empty()
                =~= answers@.map_values(|a: Answer| a@));
        }
        Progress::Parsed((answers, pos))
    }

    /// Reads a message, telling apart one whose names never end.
    fn read(bytes: &[u8]) -> (r: Progress<Message>)
        ensures
            message_progress_agrees(bytes@, r),
    {
        let header = match Header::from_bytes(bytes) {
            Ok(h) => h,
            Err(e) => {
                return Progress::Failed(e);
            },
        };
        let (questions, offset) = match Message::read_questions(bytes, HEADER_SIZE, header.qdcount) {
            Progress::Parsed(v) => v,
            Progress::Failed(e) => {
                return Progress::Failed(e);
            },
            Progress::Endless => {
                return Progress::Endless;
            },
        };
        let (answers, _end) = match Message::read_answers(bytes, offset, header.ancount) {
            Progress::Parsed(v) => v,
            Progress::Failed(e) => {
                return Progress::Failed(e);
            },
            Progress::Endless => {
                return Progress::Endless;
            },
        };
        Progress::Parsed(Message { header, questions, answers })
    }

    /// Reads a message, or tells that reading it never ends: `None` when the
    /// compression pointers of a name in it lead round in a circle, where
    /// `from_bytes` would follow them forever.
    pub fn decode(bytes: &[u8]) -> (r: Option<Result<Message, MessageError>>)
        ensures
            match message_reading(bytes@) {
                Reading::Value(m, _) => r matches Some(Ok(x)) && x@ == m,
                Reading::Fail(err) => r == Some(Err::<Message, MessageError>(err)),
                Reading::Endless => r is None,
            },
    {
        match Message::read(bytes) {
            Progress::Parsed(m) => Some(Ok(m)),
            Progress::Failed(e) => Some(Err(e)),
            Progress::Endless => None,
        }
    }

    /// Reads a message: the header, then as many questions as it counts,
    /// then as many answers.
    pub fn from_bytes(bytes: &[u8]) -> (r: Result<Message, MessageError>)
        requires
            message_ends(bytes@),
        ensures
            match message_reading(bytes@) {
                Reading::Value(m, _) => r matches Ok(x) && x@ == m,
                Reading::Fail(err) => r == Err::<Message, MessageError>(err),
                Reading::Endless => false,
            },
    {
        match Message::read(bytes) {
            Progress::Parsed(m) => Ok(m),
            Progress::Failed(e) => Err(e),
            Progress::Endless => Err(MessageError::UnexpectedEndOfName),
        }
    }

    /// The message on the wire.
    pub fn to_bytes(&self) -> (bytes: Vec<u8>)
        ensures
            bytes@ == message_wire(self@),
    {
        let header = self.header.to_bytes();
        let mut bytes = slice_to_vec(array_as_slice(&header));
        let ghost qf = |q: QuestionView| question_wire(q);
        let ghost af = |a: AnswerView| answer_wire(a);
        proof {
            assert(self@.questions.take(0).map_values(qf) =~= Seq::<Seq<u8>>::empty());
            assert(bytes@ =~= header_wire(self.header) + concat_all(self@.questions.take(0).map_values(qf)));
        }
        for i in 0..self.questions.len()
            invariant
                qf == (|q: QuestionView| question_wire(q)),
                bytes@ == header_wire(self.header) + concat_all(
                    self@.questions.take(i as int).map_values(qf),
                ),
        {
            let mut q = self.questions[i].to_bytes();
            proof {
                assert(self@.questions.take(i + 1).map_values(qf) =~= self@.questions.take(
                    i as int,
                ).map_values(qf).push(question_wire(self.questions@[i as int]@)));
                lemma_concat_all_push(self@.questions.take(i as int).map_values(qf), q@);
            }
            bytes.append(&mut q);
        }
        let ghost hq = bytes@;
        proof {
            assert(self@.questions.take(self.questions.len() as int) =~= self@.questions);
            assert(self@.answers.take(0).map_values(af) =~= Seq::<Seq<u8>>::empty());
            assert(bytes@ =~= hq + concat_all(self@.answers.take(0).map_values(af)));
        }
        for i in 0..self.answers.len()
            invariant
                af == (|a: AnswerView| answer_wire(a)),
                bytes@ == hq + concat_all(self@.answers.take(i as int).map_values(af)),
        {
            let mut a = self.answers[i].to_bytes();
            proof {
                assert(self@.answers.take(i + 1).map_values(af) =~= self@.answers.take(
                    i as int,
                ).map_values(af).push(answer_wire(self.answers@[i as int]@)));
                lemma_concat_all_push(self@.answers.take(i as int).map_values(af), a@);
            }
            bytes.append(&mut a);
        }
        proof {
            assert(self@.answers.take(self.answers.len() as int) =~= self@.answers);
        }
        bytes
    }
}

} // verus!
