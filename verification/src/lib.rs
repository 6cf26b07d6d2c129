//! A small DNS message codec: the wire format of RFC 1035 headers, names,
//! questions and answers, and the reply that the server gives to a query.

pub mod error;
pub mod message;
pub mod response;
