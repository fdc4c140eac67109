//! Little-endian integer fields, the additive checksum, and fixed-width text fields.
use vstd::prelude::*;
use vstd::utf8::*;

verus! {

broadcast use vstd::utf8::group_utf8_lib;

/// Little-endian encoding of a 16-bit word.
pub open spec fn le16(v: u16) -> Seq<u8> {
    seq![(v & 0xff) as u8, (v >> 8) as u8]
}

/// Little-endian encoding of a 32-bit word.
pub open spec fn le32(v: u32) -> Seq<u8> {
    seq![(v & 0xff) as u8, ((v >> 8) & 0xff) as u8, ((v >> 16) & 0xff) as u8, (v >> 24) as u8]
}

/// The 16-bit little-endian word stored at `i`.
pub open spec fn u16_at(data: Seq<u8>, i: int) -> u16 {
    ((data[i] as u16) | ((data[i + 1] as u16) << 8u16)) as u16
}

/// The 32-bit little-endian word stored at `i`.
pub open spec fn u32_at(data: Seq<u8>, i: int) -> u32 {
    ((data[i] as u32) | ((data[i + 1] as u32) << 8u32) | ((data[i + 2] as u32) << 16u32) | ((
    data[i + 3] as u32) << 24u32)) as u32
}

pub proof fn lemma_le16_roundtrip(v: u16)
    ensures
        u16_at(le16(v), 0) == v,
        le16(v).len() == 2,
{
    let b0 = (v & 0xff) as u8;
    let b1 = (v >> 8) as u8;
    assert(((b0 as u16) | ((b1 as u16) << 8u16)) == v) by (bit_vector)
        requires
            b0 == (v & 0xff) as u8,
            b1 == (v >> 8) as u8,
    ;
}

pub proof fn lemma_le32_roundtrip(v: u32)
    ensures
        u32_at(le32(v), 0) == v,
        le32(v).len() == 4,
{
    let b0 = (v & 0xff) as u8;
    let b1 = ((v >> 8) & 0xff) as u8;
    let b2 = ((v >> 16) & 0xff) as u8;
    let b3 = (v >> 24) as u8;
    assert(((b0 as u32) | ((b1 as u32) << 8u32) | ((b2 as u32) << 16u32) | ((b3 as u32) << 24u32))
        == v) by (bit_vector)
        requires
            b0 == (v & 0xff) as u8,
            b1 == ((v >> 8) & 0xff) as u8,
            b2 == ((v >> 16) & 0xff) as u8,
            b3 == (v >> 24) as u8,
    ;
}

/// Reading a little-endian word and writing it back gives the same bytes.
pub proof fn lemma_u16_at_le16(data: Seq<u8>, i: int)
    requires
        0 <= i,
        i + 2 <= data.len(),
    ensures
        le16(u16_at(data, i)) == data.subrange(i, i + 2),
{
    let b0 = data[i];
    let b1 = data[i + 1];
    let v = ((b0 as u16) | ((b1 as u16) << 8u16)) as u16;
    assert((v & 0xff) as u8 == b0 && (v >> 8) as u8 == b1) by (bit_vector)
        requires
            v == ((b0 as u16) | ((b1 as u16) << 8u16)) as u16,
    ;
    assert(le16(u16_at(data, i)) =~= data.subrange(i, i + 2));
}

/// Reading a little-endian word and writing it back gives the same bytes.
pub proof fn lemma_u32_at_le32(data: Seq<u8>, i: int)
    requires
        0 <= i,
        i + 4 <= data.len(),
    ensures
        le32(u32_at(data, i)) == data.subrange(i, i + 4),
{
    let b0 = data[i];
    let b1 = data[i + 1];
    let b2 = data[i + 2];
    let b3 = data[i + 3];
    let v = ((b0 as u32) | ((b1 as u32) << 8u32) | ((b2 as u32) << 16u32) | ((b3 as u32) << 24u32)) as u32;
    assert((v & 0xff) as u8 == b0 && ((v >> 8) & 0xff) as u8 == b1 && ((v >> 16) & 0xff) as u8
        == b2 && (v >> 24) as u8 == b3) by (bit_vector)
        requires
            v == ((b0 as u32) | ((b1 as u32) << 8u32) | ((b2 as u32) << 16u32) | ((b3 as u32)
                << 24u32)) as u32,
    ;
    assert(le32(u32_at(data, i)) =~= data.subrange(i, i + 4));
}

/// Reads a little-endian `u16` at `*offset` and advances the offset past it.
pub fn read_u16_le(data: &[u8], offset: &mut usize) -> (r: Option<u16>)
    ensures
        *old(offset) + 2 <= data@.len() ==> r == Some(u16_at(data@, *old(offset) as int))
            && *final(offset) == *old(offset) + 2,
        *old(offset) + 2 > data@.len() ==> r is None && *final(offset) == *old(offset),
{
    if *offset > data.len() || data.len() - *offset < 2 {
        return None;
    }
    let i = *offset;
    let v = (data[i] as u16) | ((data[i + 1] as u16) << 8u16);
    *offset = i + 2;
    Some(v)
}

/// Reads a little-endian `u32` at `*offset` and advances the offset past it.
pub fn read_u32_le(data: &[u8], offset: &mut usize) -> (r: Option<u32>)
    ensures
        *old(offset) + 4 <= data@.len() ==> r == Some(u32_at(data@, *old(offset) as int))
            && *final(offset) == *old(offset) + 4,
        *old(offset) + 4 > data@.len() ==> r is None && *final(offset) == *old(offset),
{
    if *offset > data.len() || data.len() - *offset < 4 {
        return None;
    }
    let i = *offset;
    let v = (data[i] as u32) | ((data[i + 1] as u32) << 8u32) | ((data[i + 2] as u32) << 16u32)
        | ((data[i + 3] as u32) << 24u32);
    *offset = i + 4;
    Some(v)
}

/// Appends the little-endian bytes of `v`.
pub fn push_u16_le(out: &mut Vec<u8>, v: u16)
    ensures
        final(out)@ == old(out)@ + le16(v),
{
    out.push((v & 0xff) as u8);
    out.push((v >> 8) as u8);
    assert(final(out)@ =~= old(out)@ + le16(v));
}

/// Appends the little-endian bytes of `v`.
pub fn push_u32_le(out: &mut Vec<u8>, v: u32)
    ensures
        final(out)@ == old(out)@ + le32(v),
{
    out.push((v & 0xff) as u8);
    out.push(((v >> 8) & 0xff) as u8);
    out.push(((v >> 16) & 0xff) as u8);
    out.push((v >> 24) as u8);
    assert(final(out)@ =~= old(out)@ + le32(v));
}

/// Sum of all bytes, as an unbounded number.
pub open spec fn byte_sum(s: Seq<u8>) -> nat
    decreases s.len(),
{
    if s.len() == 0 {
        0
    } else {
        byte_sum(s.drop_last()) + s.last() as nat
    }
}

/// The protocol v0 checksum: the byte sum modulo 2^32.
pub open spec fn spec_checksum(s: Seq<u8>) -> u32 {
    (byte_sum(s) % 0x1_0000_0000) as u32
}

/// Returns the protocol v0 wrapping byte-sum checksum.
pub fn checksum(data: &[u8]) -> (r: u32)
    ensures
        r == spec_checksum(data@),
{
    let mut sum: u32 = 0;
    let mut i: usize = 0;
    while i < data.len()
        invariant
            i <= data@.len(),
            sum == spec_checksum(data@.take(i as int)),
        decreases data@.len() - i,
    {
        let ghost prev = data@.take(i as int);
        let b = data[i];
        let ghost next = data@.take(i + 1);
        assert(next.drop_last() =~= prev);
        proof {
            vstd::arithmetic::div_mod::lemma_add_mod_noop(
                byte_sum(prev) as int,
                b as int,
                0x1_0000_0000,
            );
            vstd::arithmetic::div_mod::lemma_small_mod(b as nat, 0x1_0000_0000);
            if sum as int + b as int <= 0xffff_ffff {
                vstd::arithmetic::div_mod::lemma_small_mod(sum as nat + b as nat, 0x1_0000_0000);
            }
            vstd::arithmetic::div_mod::lemma_small_mod(sum as nat, 0x1_0000_0000);
            if sum as int + b as int >= 0x1_0000_0000 {
                let x = sum as int + b as int;
                assert(x % 0x1_0000_0000 == x - 0x1_0000_0000) by (nonlinear_arith)
                    requires
                        0x1_0000_0000 <= x < 0x2_0000_0000,
                ;
            }
        }
        sum = sum.wrapping_add(b as u32);
        i = i + 1;
    }
    assert(data@.take(data@.len() as int) =~= data@);
    sum
}

/// Bytes from the start up to, not including, the first zero byte.
pub open spec fn before_nul(bytes: Seq<u8>) -> Seq<u8>
    decreases bytes.len(),
{
    if bytes.len() == 0 {
        bytes
    } else if bytes[0] == 0 {
        Seq::empty()
    } else {
        seq![bytes[0]] + before_nul(bytes.drop_first())
    }
}

/// The largest UTF-8 character boundary of `bytes` that is at most `n`.
pub open spec fn boundary_at_most(bytes: Seq<u8>, n: int) -> int
    decreases n,
{
    if n <= 0 {
        0
    } else if is_char_boundary(bytes, n) {
        n
    } else {
        boundary_at_most(bytes, n - 1)
    }
}

/// A fixed-width text field: the text's UTF-8 bytes, cut at the last character
/// boundary that fits, then padded with zero bytes to `width`.
pub open spec fn fixed_field(text: Seq<char>, width: nat) -> Seq<u8> {
    let bytes = encode_utf8(text);
    let len = boundary_at_most(bytes, if bytes.len() < width { bytes.len() as int } else { width as int });
    bytes.take(len) + Seq::new((width - len) as nat, |_i: int| 0u8)
}

} // verus!
