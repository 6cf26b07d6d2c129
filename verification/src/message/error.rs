use vstd::prelude::*;

verus! {

/// Why a DNS message could not be read from its bytes.
#[derive(Debug, Clone, Copy, PartialEq, Eq, Structural)]
pub enum MessageError {
    /// The buffer is shorter than the fixed header; the payload is that size.
    HeaderTooShort(usize),
    /// A name ran past the end of the buffer where a length byte was due.
    UnexpectedEndOfName,
    /// A compression pointer's second byte lies past the end of the buffer.
    UnexpectedEndOfPointer,
    /// A label's bytes run past the end of the buffer.
    LabelExceedsBuffer,
    /// The type and class of a question run past the end of the buffer.
    QuestionSectionTruncated,
    /// The fixed fields of an answer record run past the end of the buffer.
    AnswerRecordTruncated,
    /// The data of an answer record runs past the end of the buffer.
    AnswerRdataTruncated,
}

} // verus!

verus! {

/// How reading a part of a message ends: with a value, with an error, or
/// never, because compression pointers lead round in a circle.
pub enum Progress<T> {
    Parsed(T),
    Failed(MessageError),
    Endless,
}

} // verus!

verus! {

/// How reading a part of a message from given bytes ends: with the value
/// read and the offset just past it, with an error, or never.
pub enum Reading<T> {
    Value(T, int),
    Fail(MessageError),
    Endless,
}

} // verus!
