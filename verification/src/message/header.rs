use vstd::prelude::*;

use super::error::MessageError;
use super::wire::{be16, be16_bytes, lemma_be16_bytes_round_trip, lemma_be16_round_trip, u16_from_be, u16_to_be};

verus! {

/// Size in bytes of the fixed DNS header (RFC 1035 4.1.1).
pub const HEADER_SIZE: usize = 12;

/// The fixed header of a DNS message.
#[derive(Debug, Clone, Copy, PartialEq, Eq, Structural)]
pub struct Header {
    pub id: u16,
    pub qr: bool,
    pub opcode: u8,
    pub aa: bool,
    pub tc: bool,
    pub rd: bool,
    pub ra: bool,
    pub z: u8,
    pub rcode: u8,
    pub qdcount: u16,
    pub ancount: u16,
    pub nscount: u16,
    pub arcount: u16,
}

/// One bit of the flags word for a flag.
pub open spec fn flag_bit(b: bool) -> u16 {
    if b { 1 } else { 0 }
}

/// The 16-bit flags word of a header: QR, OPCODE, AA, TC, RD, RA, Z and
/// RCODE from the high bit down. OPCODE and RCODE keep their low four bits,
/// Z its low three.
pub open spec fn flags_word(h: Header) -> u16 {
    (flag_bit(h.qr) << 15u16) | (((h.opcode as u16) & 0xFu16) << 11u16) | (flag_bit(h.aa)
        << 10u16) | (flag_bit(h.tc) << 9u16) | (flag_bit(h.rd) << 8u16) | (flag_bit(h.ra)
        << 7u16) | (((h.z as u16) & 0x7u16) << 4u16) | ((h.rcode as u16) & 0xFu16)
}

/// The header whose identifier, flags word and four counts are given.
pub open spec fn header_from_words(
    id: u16,
    flags: u16,
    qdcount: u16,
    ancount: u16,
    nscount: u16,
    arcount: u16,
) -> Header {
    Header {
        id,
        qr: (flags >> 15u16) & 1u16 == 1u16,
        opcode: ((flags >> 11u16) & 0xFu16) as u8,
        aa: (flags >> 10u16) & 1u16 == 1u16,
        tc: (flags >> 9u16) & 1u16 == 1u16,
        rd: (flags >> 8u16) & 1u16 == 1u16,
        ra: (flags >> 7u16) & 1u16 == 1u16,
        z: ((flags >> 4u16) & 0x7u16) as u8,
        rcode: (flags & 0xFu16) as u8,
        qdcount,
        ancount,
        nscount,
        arcount,
    }
}

/// The header that the first twelve bytes of `b` encode.
pub open spec fn header_from_wire(b: Seq<u8>) -> Header
    recommends
        b.len() >= 12,
{
    header_from_words(
        be16(b[0], b[1]),
        be16(b[2], b[3]),
        be16(b[4], b[5]),
        be16(b[6], b[7]),
        be16(b[8], b[9]),
        be16(b[10], b[11]),
    )
}

/// The twelve bytes that encode a header.
pub open spec fn header_wire(h: Header) -> Seq<u8> {
    be16_bytes(h.id) + be16_bytes(flags_word(h)) + be16_bytes(h.qdcount) + be16_bytes(
        h.ancount,
    ) + be16_bytes(h.nscount) + be16_bytes(h.arcount)
}

/// A header whose fields all fit their bit widths on the wire.
pub open spec fn header_fits(h: Header) -> bool {
    h.opcode < 16 && h.z < 8 && h.rcode < 16
}

/// What reading a header from `b` gives.
pub open spec fn header_outcome(b: Seq<u8>) -> Result<Header, MessageError> {
    if b.len() < HEADER_SIZE {
        Err(MessageError::HeaderTooShort(HEADER_SIZE))
    } else {
        Ok(header_from_wire(b))
    }
}

proof fn lemma_flags_decode_encode(
    qr: bool,
    opcode: u8,
    aa: bool,
    tc: bool,
    rd: bool,
    ra: bool,
    z: u8,
    rcode: u8,
    f: u16,
)
    by (bit_vector)
    requires
        opcode < 16,
        z < 8,
        rcode < 16,
        f == ((if qr { 1u16 } else { 0u16 }) << 15u16) | (((opcode as u16) & 0xFu16) << 11u16) | ((
        if aa { 1u16 } else { 0u16 }) << 10u16) | ((if tc { 1u16 } else { 0u16 }) << 9u16) | ((
        if rd { 1u16 } else { 0u16 }) << 8u16) | ((if ra { 1u16 } else { 0u16 }) << 7u16) | (((
        z as u16) & 0x7u16) << 4u16) | ((rcode as u16) & 0xFu16),
    ensures
        ((f >> 15u16) & 1u16 == 1u16) == qr,
        ((f >> 11u16) & 0xFu16) as u8 == opcode,
        ((f >> 10u16) & 1u16 == 1u16) == aa,
        ((f >> 9u16) & 1u16 == 1u16) == tc,
        ((f >> 8u16) & 1u16 == 1u16) == rd,
        ((f >> 7u16) & 1u16 == 1u16) == ra,
        ((f >> 4u16) & 0x7u16) as u8 == z,
        (f & 0xFu16) as u8 == rcode,
{
}

proof fn lemma_flags_encode_decode(f: u16, g: u16)
    by (bit_vector)
    requires
        g == ((if (f >> 15u16) & 1u16 == 1u16 { 1u16 } else { 0u16 }) << 15u16) | (((((f
            >> 11u16) & 0xFu16) as u8 as u16) & 0xFu16) << 11u16) | ((if (f >> 10u16) & 1u16
            == 1u16 { 1u16 } else { 0u16 }) << 10u16) | ((if (f >> 9u16) & 1u16 == 1u16 {
            1u16
        } else {
            0u16
        }) << 9u16) | ((if (f >> 8u16) & 1u16 == 1u16 { 1u16 } else { 0u16 }) << 8u16) | ((
        if (f >> 7u16) & 1u16 == 1u16 { 1u16 } else { 0u16 }) << 7u16) | (((((f >> 4u16)
            & 0x7u16) as u8 as u16) & 0x7u16) << 4u16) | (((f & 0xFu16) as u8 as u16) & 0xFu16),
    ensures
        g == f,
{
}

/// Writing a header and reading the bytes back gives the same header, for
/// every header whose opcode, Z and RCODE fit their bit widths.
pub proof fn lemma_header_write_then_read(h: Header)
    requires
        header_fits(h),
    ensures
        header_wire(h).len() == HEADER_SIZE,
        header_outcome(header_wire(h)) == Ok::<Header, MessageError>(h),
{
    let w = header_wire(h);
    lemma_flags_decode_encode(
        h.qr,
        h.opcode,
        h.aa,
        h.tc,
        h.rd,
        h.ra,
        h.z,
        h.rcode,
        flags_word(h),
    );
    lemma_be16_round_trip(h.id);
    lemma_be16_round_trip(flags_word(h));
    lemma_be16_round_trip(h.qdcount);
    lemma_be16_round_trip(h.ancount);
    lemma_be16_round_trip(h.nscount);
    lemma_be16_round_trip(h.arcount);
    assert(w[0] == be16_bytes(h.id)[0] && w[1] == be16_bytes(h.id)[1]);
    assert(w[2] == be16_bytes(flags_word(h))[0] && w[3] == be16_bytes(flags_word(h))[1]);
    assert(w[4] == be16_bytes(h.qdcount)[0] && w[5] == be16_bytes(h.qdcount)[1]);
    assert(w[6] == be16_bytes(h.ancount)[0] && w[7] == be16_bytes(h.ancount)[1]);
    assert(w[8] == be16_bytes(h.nscount)[0] && w[9] == be16_bytes(h.nscount)[1]);
    assert(w[10] == be16_bytes(h.arcount)[0] && w[11] == be16_bytes(h.arcount)[1]);
}

/// Reading a header from at least twelve bytes and writing it again gives
/// back those twelve bytes.
pub proof fn lemma_header_read_then_write(b: Seq<u8>)
    requires
        b.len() >= HEADER_SIZE,
    ensures
        header_wire(header_from_wire(b)) == b.subrange(0, HEADER_SIZE as int),
{
    let h = header_from_wire(b);
    let f = be16(b[2], b[3]);
    lemma_flags_encode_decode(f, flags_word(h));
    lemma_be16_bytes_round_trip(b[0], b[1]);
    lemma_be16_bytes_round_trip(b[2], b[3]);
    lemma_be16_bytes_round_trip(b[4], b[5]);
    lemma_be16_bytes_round_trip(b[6], b[7]);
    lemma_be16_bytes_round_trip(b[8], b[9]);
    lemma_be16_bytes_round_trip(b[10], b[11]);
    assert(header_wire(h) =~= b.subrange(0, HEADER_SIZE as int));
}

proof fn lemma_flag_bytes(
    qr: bool,
    opcode: u8,
    aa: bool,
    tc: bool,
    rd: bool,
    ra: bool,
    z: u8,
    rcode: u8,
    f: u16,
)
    by (bit_vector)
    requires
        f == ((if qr { 1u16 } else { 0u16 }) << 15u16) | (((opcode as u16) & 0xFu16) << 11u16) | ((
        if aa { 1u16 } else { 0u16 }) << 10u16) | ((if tc { 1u16 } else { 0u16 }) << 9u16) | ((
        if rd { 1u16 } else { 0u16 }) << 8u16) | ((if ra { 1u16 } else { 0u16 }) << 7u16) | (((
        z as u16) & 0x7u16) << 4u16) | ((rcode as u16) & 0xFu16),
    ensures
        (f / 256u16) as u8 == ((if qr { 0x80u8 } else { 0u8 }) | ((opcode & 0xFu8) << 3u8) | (if aa {
            0x04u8
        } else {
            0u8
        }) | (if tc { 0x02u8 } else { 0u8 }) | (if rd { 0x01u8 } else { 0u8 })),
        (f % 256u16) as u8 == ((if ra { 0x80u8 } else { 0u8 }) | ((z & 0x7u8) << 4u8) | (rcode
            & 0xFu8)),
{
}

proof fn lemma_flag_fields(b2: u8, b3: u8, f: u16)
    by (bit_vector)
    requires
        f == (b2 as u16) * 256u16 + (b3 as u16),
    ensures
        ((f >> 15u16) & 1u16 == 1u16) == (b2 & 0x80u8 != 0u8),
        ((f >> 11u16) & 0xFu16) as u8 == (b2 >> 3u8) & 0xFu8,
        ((f >> 10u16) & 1u16 == 1u16) == (b2 & 0x04u8 != 0u8),
        ((f >> 9u16) & 1u16 == 1u16) == (b2 & 0x02u8 != 0u8),
        ((f >> 8u16) & 1u16 == 1u16) == (b2 & 0x01u8 != 0u8),
        ((f >> 7u16) & 1u16 == 1u16) == (b3 & 0x80u8 != 0u8),
        ((f >> 4u16) & 0x7u16) as u8 == (b3 >> 4u8) & 0x7u8,
        (f & 0xFu16) as u8 == b3 & 0xFu8,
{
}

/// Layout of a header on the wire (RFC 1035 4.1.1): the identifier in
/// bytes 0-1; byte 2 holds QR in its top bit, then the low four bits of
/// OPCODE, then AA, TC and RD in its lowest bit; byte 3 holds RA in its top
/// bit, then the low three bits of Z, then the low four bits of RCODE; the
/// question, answer, authority and additional counts follow in bytes 4-11,
/// all numbers big-endian.
pub proof fn lemma_header_wire_layout(h: Header)
    ensures
        ({
            let w = header_wire(h);
            &&& w.len() == 12
            &&& w[0] as int * 256 + w[1] as int == h.id as int
            &&& w[2] == ((if h.qr { 0x80u8 } else { 0u8 }) | ((h.opcode & 0xFu8) << 3u8) | (if h.aa {
                0x04u8
            } else {
                0u8
            }) | (if h.tc { 0x02u8 } else { 0u8 }) | (if h.rd { 0x01u8 } else { 0u8 }))
            &&& w[3] == ((if h.ra { 0x80u8 } else { 0u8 }) | ((h.z & 0x7u8) << 4u8) | (h.rcode
                & 0xFu8))
            &&& w[4] as int * 256 + w[5] as int == h.qdcount as int
            &&& w[6] as int * 256 + w[7] as int == h.ancount as int
            &&& w[8] as int * 256 + w[9] as int == h.nscount as int
            &&& w[10] as int * 256 + w[11] as int == h.arcount as int
        }),
{
    let f = flags_word(h);
    lemma_flag_bytes(h.qr, h.opcode, h.aa, h.tc, h.rd, h.ra, h.z, h.rcode, f);
    let w = header_wire(h);
    assert(w[2] == be16_bytes(f)[0] && w[3] == be16_bytes(f)[1]);
    assert(w[0] == be16_bytes(h.id)[0] && w[1] == be16_bytes(h.id)[1]);
    assert(w[4] == be16_bytes(h.qdcount)[0] && w[5] == be16_bytes(h.qdcount)[1]);
    assert(w[6] == be16_bytes(h.ancount)[0] && w[7] == be16_bytes(h.ancount)[1]);
    assert(w[8] == be16_bytes(h.nscount)[0] && w[9] == be16_bytes(h.nscount)[1]);
    assert(w[10] == be16_bytes(h.arcount)[0] && w[11] == be16_bytes(h.arcount)[1]);
}

/// What reading a header gives, field by field, from the first twelve
/// bytes: the identifier from bytes 0-1; QR, OPCODE (four bits), AA, TC
/// and RD from byte 2, high bit first; RA, Z (three bits) and RCODE (four
/// bits) from byte 3; then the four counts, all numbers big-endian. Fewer
/// than twelve bytes are refused.
pub proof fn lemma_header_reading_fields(b: Seq<u8>)
    ensures
        b.len() < 12 ==> header_outcome(b) == Err::<Header, MessageError>(
            MessageError::HeaderTooShort(12),
        ),
        b.len() >= 12 ==> (header_outcome(b) matches Ok(h) && {
            &&& h.id as int == b[0] as int * 256 + b[1] as int
            &&& h.qr == (b[2] & 0x80u8 != 0u8)
            &&& h.opcode == (b[2] >> 3u8) & 0xFu8
            &&& h.aa == (b[2] & 0x04u8 != 0u8)
            &&& h.tc == (b[2] & 0x02u8 != 0u8)
            &&& h.rd == (b[2] & 0x01u8 != 0u8)
            &&& h.ra == (b[3] & 0x80u8 != 0u8)
            &&& h.z == (b[3] >> 4u8) & 0x7u8
            &&& h.rcode == b[3] & 0xFu8
            &&& h.qdcount as int == b[4] as int * 256 + b[5] as int
            &&& h.ancount as int == b[6] as int * 256 + b[7] as int
            &&& h.nscount as int == b[8] as int * 256 + b[9] as int
            &&& h.arcount as int == b[10] as int * 256 + b[11] as int
        }),
{
    if b.len() >= 12 {
        lemma_flag_fields(b[2], b[3], be16(b[2], b[3]));
    }
}

impl Header {
    /// The flags word of this header.
    fn flags(&self) -> (f: u16)
        ensures
            f == flags_word(*self),
    {
        let qr: u16 = if self.qr { 1 } else { 0 };
        let aa: u16 = if self.aa { 1 } else { 0 };
        let tc: u16 = if self.tc { 1 } else { 0 };
        let rd: u16 = if self.rd { 1 } else { 0 };
        let ra: u16 = if self.ra { 1 } else { 0 };
        (qr << 15u16) | (((self.opcode as u16) & 0xFu16) << 11u16) | (aa << 10u16) | (tc << 9u16)
            | (rd << 8u16) | (ra << 7u16) | (((self.z as u16) & 0x7u16) << 4u16) | ((
        self.rcode as u16) & 0xFu16)
    }

    /// The twelve bytes of this header on the wire.
    pub fn to_bytes(&self) -> (bytes: [u8; HEADER_SIZE])
        ensures
            bytes@ == header_wire(*self),
    {
        let (id0, id1) = u16_to_be(self.id);
        let (f0, f1) = u16_to_be(self.flags());
        let (qd0, qd1) = u16_to_be(self.qdcount);
        let (an0, an1) = u16_to_be(self.ancount);
        let (ns0, ns1) = u16_to_be(self.nscount);
        let (ar0, ar1) = u16_to_be(self.arcount);
        let bytes = [id0, id1, f0, f1, qd0, qd1, an0, an1, ns0, ns1, ar0, ar1];
        assert(bytes@ =~= header_wire(*self));
        bytes
    }

    /// Reads the header from the first twelve bytes of `bytes`.
    pub fn from_bytes(bytes: &[u8]) -> (r: Result<Header, MessageError>)
        ensures
            r == header_outcome(bytes@),
    {
        if bytes.len() < HEADER_SIZE {
            return Err(MessageError::HeaderTooShort(HEADER_SIZE));
        }
        let id = u16_from_be(bytes[0], bytes[1]);
        let flags = u16_from_be(bytes[2], bytes[3]);

        let qr = (flags >> 15u16) & 1u16 == 1u16;
        let opcode = ((flags >> 11u16) & 0xFu16) as u8;
        let aa = (flags >> 10u16) & 1u16 == 1u16;
        let tc = (flags >> 9u16) & 1u16 == 1u16;
        let rd = (flags >> 8u16) & 1u16 == 1u16;
        let ra = (flags >> 7u16) & 1u16 == 1u16;
        let z = ((flags >> 4u16) & 0x7u16) as u8;
        let rcode = (flags & 0xFu16) as u8;

        let qdcount = u16_from_be(bytes[4], bytes[5]);
        let ancount = u16_from_be(bytes[6], bytes[7]);
        let nscount = u16_from_be(bytes[8], bytes[9]);
        let arcount = u16_from_be(bytes[10], bytes[11]);

        Ok(Header { id, qr, opcode, aa, tc, rd, ra, z, rcode, qdcount, ancount, nscount, arcount })
    }
}

impl Default for Header {
    /// The header with every field zero or false.
    fn default() -> (h: Header)
        ensures
            h == (Header {
                id: 0,
                qr: false,
                opcode: 0,
                aa: false,
                tc: false,
                rd: false,
                ra: false,
                z: 0,
                rcode: 0,
                qdcount: 0,
                ancount: 0,
                nscount: 0,
                arcount: 0,
            }),
    {
        Header {
            id: 0,
            qr: false,
            opcode: 0,
            aa: false,
            tc: false,
            rd: false,
            ra: false,
            z: 0,
            rcode: 0,
            qdcount: 0,
            ancount: 0,
            nscount: 0,
            arcount: 0,
        }
    }
}

} // verus!
