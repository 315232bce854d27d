use vstd::prelude::*;
use byteorder::ByteOrder;
use varintrs::ReadBinary;
use varintrs::WriteBinary;

verus! {

/// The bytes of the variable-length encoding of `x`: seven bits at a time, the
/// least significant group first, with the high bit set on every byte but the last.
pub open spec fn vu64_bytes(x: u64) -> Seq<u8>
    decreases x,
{
    if x < 0x80 {
        seq![x as u8]
    } else {
        proof {
            assert(x >= 0x80 ==> x >> 7u64 < x) by (bit_vector);
        }
        seq![(x as u8) | 0x80u8] + vu64_bytes(x >> 7u64)
    }
}

/// How many bytes of `s` a variable-length decoder that has already read `i`
/// bytes consumes: the length (> 0) of a complete encoding; 0 when `s` ends
/// before the encoding does; minus the bytes read when the encoding runs past ten
/// bytes or overflows 64 bits.
pub open spec fn vu64_scan(s: Seq<u8>, i: int) -> int
    decreases 11 - i,
{
    if i < 0 || i >= s.len() {
        0
    } else if i >= 10 {
        -(i + 1)
    } else if s[i] < 0x80 {
        if i == 9 && s[i] > 1 { -(i + 1) } else { i + 1 }
    } else {
        vu64_scan(s, i + 1)
    }
}

/// The value of the first `n` bytes of `s`, seven bits from each, least
/// significant group first, truncated to 64 bits.
pub open spec fn vu64_value(s: Seq<u8>, n: int) -> u64
    decreases n,
{
    if n <= 0 || s.len() == 0 {
        0
    } else {
        ((s[0] & 0x7fu8) as u64) | (vu64_value(s.drop_first(), n - 1) << 7u64)
    }
}

/// What decoding a variable-length integer from the start of `s` gives: the value
/// and the byte count, or 0 and a count <= 0 when there is none.
pub open spec fn vu64_decode(s: Seq<u8>) -> (u64, i32) {
    let n = vu64_scan(s, 0);
    if n > 0 { (vu64_value(s, n), n as i32) } else { (0, n as i32) }
}

/// The four bytes of `n`, most significant first.
pub open spec fn be_u32_bytes(n: u32) -> Seq<u8> {
    seq![(n >> 24u32) as u8, (n >> 16u32) as u8, (n >> 8u32) as u8, n as u8]
}

/// The number whose bytes, most significant first, are the first four of `s`.
pub open spec fn be_u32_of(s: Seq<u8>) -> u32 {
    ((s[0] as u32) << 24u32) | ((s[1] as u32) << 16u32) | ((s[2] as u32) << 8u32) | (s[3] as u32)
}

/// Calls `varintrs::Binary::put_vu64`, which writes the variable-length encoding
/// of `x` into a ten-byte buffer and returns its length. The contract claims that
/// the bytes written are `vu64_bytes(x)`.
#[verifier::external_body]
pub(crate) fn encode_vu64(x: u64) -> (r: Vec<u8>)
    ensures
        r@ == vu64_bytes(x),
{
    let mut buf = [0u8; 10];
    let n = varintrs::Binary::put_vu64(&mut buf, x);
    buf[..n].to_vec()
}

/// Calls `varintrs::Binary::vu64`, which decodes a variable-length integer from
/// the start of `buf`. The contract claims that it returns `vu64_decode(buf)`:
/// the value and the byte count of a complete encoding, else 0 and 0 (the buffer
/// ends first) or 0 and minus the bytes read (more than ten bytes, or overflow).
#[verifier::external_body]
pub(crate) fn decode_vu64(buf: &[u8]) -> (r: (u64, i32))
    ensures
        r == vu64_decode(buf@),
{
    varintrs::Binary::vu64(buf)
}

/// Calls `byteorder::BigEndian::write_u32` on a four-byte buffer. The contract
/// claims that the buffer then holds the bytes of `n`, most significant first.
#[verifier::external_body]
pub(crate) fn encode_be_u32(n: u32) -> (r: [u8; 4])
    ensures
        r@ == be_u32_bytes(n),
{
    let mut buf = [0u8; 4];
    byteorder::BigEndian::write_u32(&mut buf, n);
    buf
}

/// Calls `byteorder::BigEndian::read_u32`, which reads the first four bytes of
/// `buf` as a number, most significant byte first (it panics on a shorter buffer).
#[verifier::external_body]
pub(crate) fn decode_be_u32(buf: &[u8]) -> (r: u32)
    requires
        buf.len() >= 4,
    ensures
        r == be_u32_of(buf@),
{
    byteorder::BigEndian::read_u32(buf)
}

proof fn lemma_vu64_scan(x: u64, pre: Seq<u8>, rest: Seq<u8>)
    requires
        pre.len() <= 9,
        x <= (0xffff_ffff_ffff_ffffu64 >> (7 * pre.len()) as u64),
    ensures
        vu64_scan(pre + vu64_bytes(x) + rest, pre.len() as int) == pre.len() + vu64_bytes(x).len(),
        pre.len() + vu64_bytes(x).len() <= 10,
    decreases x,
{
    let s = pre + vu64_bytes(x) + rest;
    let i = pre.len() as int;
    let sh = (7 * pre.len()) as u64;
    if x < 0x80 {
        assert(s[i] == x as u8);
        assert(sh == 63 ==> x <= 1) by (bit_vector)
            requires
                x <= (0xffff_ffff_ffff_ffffu64 >> sh),
        ;
    } else {
        assert(x >= 0x80 ==> x >> 7u64 < x) by (bit_vector);
        assert(sh <= 63 && x >= 0x80 && x <= (0xffff_ffff_ffff_ffffu64 >> sh) ==> sh <= 56) by (bit_vector);
        assert(sh <= 56 && x <= (0xffff_ffff_ffff_ffffu64 >> sh) ==> (x >> 7u64) <= (0xffff_ffff_ffff_ffffu64 >> (sh + 7) as u64)) by (bit_vector);
        assert(((x as u8) | 0x80u8) >= 0x80u8) by (bit_vector);
        let pre2 = pre.push((x as u8) | 0x80u8);
        assert(s =~= pre2 + vu64_bytes(x >> 7u64) + rest);
        lemma_vu64_scan(x >> 7u64, pre2, rest);
        assert(s[i] == (x as u8) | 0x80u8);
    }
}

proof fn lemma_vu64_value(x: u64, rest: Seq<u8>)
    ensures
        vu64_value(vu64_bytes(x) + rest, vu64_bytes(x).len() as int) == x,
    decreases x,
{
    let s = vu64_bytes(x) + rest;
    if x < 0x80 {
        assert(s[0] == x as u8);
        assert(x < 0x80 ==> ((x as u8) & 0x7fu8) as u64 == x) by (bit_vector);
        assert(vu64_value(s.drop_first(), 0) == 0);
        assert(x | (0u64 << 7u64) == x) by (bit_vector);
    } else {
        assert(x >= 0x80 ==> x >> 7u64 < x) by (bit_vector);
        lemma_vu64_value(x >> 7u64, rest);
        assert(s.drop_first() =~= vu64_bytes(x >> 7u64) + rest);
        assert(s[0] == (x as u8) | 0x80u8);
        assert((((x as u8) | 0x80u8) & 0x7fu8) as u64 | ((x >> 7u64) << 7u64) == x) by (bit_vector);
    }
}

/// Decoding the variable-length encoding of `x`, whatever bytes follow it, gives
/// back `x` and the length of the encoding, which is between one and ten bytes.
pub proof fn lemma_vu64_roundtrip(x: u64, rest: Seq<u8>)
    ensures
        1 <= vu64_bytes(x).len() <= 10,
        vu64_decode(vu64_bytes(x) + rest) == (x, vu64_bytes(x).len() as i32),
{
    assert(x <= (0xffff_ffff_ffff_ffffu64 >> 0u64)) by (bit_vector);
    let e: Seq<u8> = Seq::empty();
    lemma_vu64_scan(x, e, rest);
    assert(e + vu64_bytes(x) + rest =~= vu64_bytes(x) + rest);
    lemma_vu64_value(x, rest);
    if x < 0x80 {
    } else {
        assert(vu64_bytes(x).len() >= 1);
    }
}

/// Reading four bytes most significant first gives back the number that was
/// written that way.
pub proof fn lemma_be_u32_roundtrip(n: u32)
    ensures
        be_u32_of(be_u32_bytes(n)) == n,
        be_u32_bytes(n).len() == 4,
{
    let s = be_u32_bytes(n);
    assert(((((n >> 24u32) as u8) as u32) << 24u32) | ((((n >> 16u32) as u8) as u32) << 16u32)
        | ((((n >> 8u32) as u8) as u32) << 8u32) | ((n as u8) as u32) == n) by (bit_vector);
}

/// A variable-length read never claims more bytes than there are.
pub proof fn lemma_vu64_scan_bound(s: Seq<u8>)
    ensures
        vu64_scan(s, 0) > 0 ==> vu64_scan(s, 0) <= s.len(),
        vu64_scan(s, 0) < 0 ==> -vu64_scan(s, 0) <= s.len(),
        -11 <= vu64_scan(s, 0) <= 10,
{
    lemma_vu64_scan_bound_from(s, 0);
}

proof fn lemma_vu64_scan_bound_from(s: Seq<u8>, i: int)
    requires
        0 <= i <= 10,
    ensures
        vu64_scan(s, i) > 0 ==> i < vu64_scan(s, i) <= s.len(),
        vu64_scan(s, i) < 0 ==> i < -vu64_scan(s, i) <= s.len(),
        -11 <= vu64_scan(s, i) <= 10,
    decreases 11 - i,
{
    if i < s.len() && i < 10 && s[i] >= 0x80 {
        lemma_vu64_scan_bound_from(s, i + 1);
    }
}

} // verus!
