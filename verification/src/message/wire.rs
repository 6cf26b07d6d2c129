use vstd::prelude::*;

verus! {

/// The 16-bit unsigned integer whose big-endian bytes are `hi`, `lo`.
pub open spec fn be16(hi: u8, lo: u8) -> u16 {
    (hi * 256 + lo) as u16
}

/// The 32-bit unsigned integer whose big-endian bytes are `b0` .. `b3`.
pub open spec fn be32(b0: u8, b1: u8, b2: u8, b3: u8) -> u32 {
    (((b0 * 256 + b1) * 256 + b2) * 256 + b3) as u32
}

/// The two big-endian bytes of `v`.
pub open spec fn be16_bytes(v: u16) -> Seq<u8> {
    seq![(v / 256) as u8, (v % 256) as u8]
}

/// The four big-endian bytes of `v`.
pub open spec fn be32_bytes(v: u32) -> Seq<u8> {
    seq![
        (v / 0x100_0000) as u8,
        (v / 0x1_0000 % 256) as u8,
        (v / 256 % 256) as u8,
        (v % 256) as u8,
    ]
}

/// Reading back the bytes of a 16-bit value gives the value.
pub proof fn lemma_be16_round_trip(v: u16)
    ensures
        be16(be16_bytes(v)[0], be16_bytes(v)[1]) == v,
{
}

/// Reading back the bytes of a 32-bit value gives the value.
pub proof fn lemma_be32_round_trip(v: u32)
    ensures
        be32(be32_bytes(v)[0], be32_bytes(v)[1], be32_bytes(v)[2], be32_bytes(v)[3]) == v,
{
}

/// Writing a 16-bit value read from two bytes gives the bytes back.
pub proof fn lemma_be16_bytes_round_trip(hi: u8, lo: u8)
    ensures
        be16_bytes(be16(hi, lo)) == seq![hi, lo],
{
    assert(be16_bytes(be16(hi, lo)) =~= seq![hi, lo]);
}

/// The big-endian bytes of `v`, computed.
pub fn u16_to_be(v: u16) -> (r: (u8, u8))
    ensures
        seq![r.0, r.1] == be16_bytes(v),
{
    ((v / 256) as u8, (v % 256) as u8)
}

/// The value of two big-endian bytes, computed.
pub fn u16_from_be(hi: u8, lo: u8) -> (r: u16)
    ensures
        r == be16(hi, lo),
{
    (hi as u16) * 256 + (lo as u16)
}

/// The value of four big-endian bytes, computed.
pub fn u32_from_be(b0: u8, b1: u8, b2: u8, b3: u8) -> (r: u32)
    ensures
        r == be32(b0, b1, b2, b3),
{
    (((b0 as u32) * 256 + (b1 as u32)) * 256 + (b2 as u32)) * 256 + (b3 as u32)
}

} // verus!

verus! {

/// The big-endian bytes of a 32-bit value, computed.
pub fn u32_to_be(v: u32) -> (r: (u8, u8, u8, u8))
    ensures
        seq![r.0, r.1, r.2, r.3] == be32_bytes(v),
{
    ((v / 0x100_0000) as u8, (v / 0x1_0000 % 256) as u8, (v / 256 % 256) as u8, (v % 256) as u8)
}

/// Appends a 16-bit value in big-endian order.
pub fn push_u16(out: &mut Vec<u8>, v: u16)
    ensures
        final(out)@ == old(out)@ + be16_bytes(v),
{
    let (hi, lo) = u16_to_be(v);
    out.push(hi);
    out.push(lo);
    assert(final(out)@ =~= old(out)@ + be16_bytes(v));
}

/// Appends a 32-bit value in big-endian order.
pub fn push_u32(out: &mut Vec<u8>, v: u32)
    ensures
        final(out)@ == old(out)@ + be32_bytes(v),
{
    let (b0, b1, b2, b3) = u32_to_be(v);
    out.push(b0);
    out.push(b1);
    out.push(b2);
    out.push(b3);
    assert(final(out)@ =~= old(out)@ + be32_bytes(v));
}

/// The parts, one after the other.
pub open spec fn concat_all(parts: Seq<Seq<u8>>) -> Seq<u8>
    decreases parts.len(),
{
    if parts.len() == 0 {
        seq![]
    } else {
        parts[0] + concat_all(parts.drop_first())
    }
}

/// One more part at the end.
pub proof fn lemma_concat_all_push(parts: Seq<Seq<u8>>, part: Seq<u8>)
    ensures
        concat_all(parts.push(part)) == concat_all(parts) + part,
    decreases parts.len(),
{
    let p = parts.push(part);
    if parts.len() == 0 {
        assert(p.drop_first() =~= Seq::<Seq<u8>>::empty());
        assert(concat_all(p) == p[0] + concat_all(p.drop_first()));
        assert(concat_all(p) =~= concat_all(parts) + part);
    } else {
        assert(p.drop_first() =~= parts.drop_first().push(part));
        lemma_concat_all_push(parts.drop_first(), part);
        assert(concat_all(p) == p[0] + concat_all(p.drop_first()));
        assert(concat_all(parts) == parts[0] + concat_all(parts.drop_first()));
        assert(concat_all(p) =~= concat_all(parts) + part);
    }
}

/// Concatenating two lists of parts.
pub proof fn lemma_concat_all_append(a: Seq<Seq<u8>>, b: Seq<Seq<u8>>)
    ensures
        concat_all(a + b) == concat_all(a) + concat_all(b),
    decreases a.len(),
{
    if a.len() == 0 {
        assert(a + b =~= b);
        assert(concat_all(a) =~= Seq::<u8>::empty());
        assert(concat_all(a + b) =~= concat_all(a) + concat_all(b));
    } else {
        assert((a + b).drop_first() =~= a.drop_first() + b);
        lemma_concat_all_append(a.drop_first(), b);
        assert((a + b)[0] == a[0]);
        assert(concat_all(a + b) =~= concat_all(a) + concat_all(b));
    }
}

/// Part `i` stands in the concatenation right after the parts before it.
pub proof fn lemma_concat_all_part(parts: Seq<Seq<u8>>, i: int)
    requires
        0 <= i < parts.len(),
    ensures
        ({
            let o = concat_all(parts.take(i)).len() as int;
            &&& o + parts[i].len() <= concat_all(parts).len()
            &&& concat_all(parts).subrange(o, o + parts[i].len()) == parts[i]
        }),
{
    let before = parts.take(i);
    let rest = parts.skip(i + 1);
    assert(parts =~= before + (seq![parts[i]] + rest));
    lemma_concat_all_append(before, seq![parts[i]] + rest);
    assert((seq![parts[i]] + rest).drop_first() =~= rest);
    assert(concat_all(seq![parts[i]] + rest) == parts[i] + concat_all(rest));
    let o = concat_all(before).len() as int;
    assert(concat_all(parts).subrange(o, o + parts[i].len()) =~= parts[i]);
}

} // verus!
