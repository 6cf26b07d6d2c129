# dns_server

A small DNS server for UDP port 2053. The verified library (`src/`) reads and
writes RFC 1035 messages and builds the server's reply; `app/` holds the
socket loop and the error messages it logs.

- `src/message/header.rs`: the 12-byte header and its flags word.
- `src/message/name.rs`: names, with compression pointers when reading.
- `src/message/question.rs`, `src/message/answer.rs`: the records.
- `src/message/mod.rs`: whole messages.
- `src/response.rs`: the reply to a query (an A record, 8.8.8.8, for each
  question; "not implemented" for opcodes other than a standard query).
- `src/error.rs`: the server's error types.

Each reading function is specified against a spec function over the bytes,
each writing function against a spec function giving the bytes, and the
proof functions named `lemma_*_write_then_read` show that what is written
reads back unchanged.
