//! Fixed-width UTF-8 text fields of the wire format.
use vstd::prelude::*;
use vstd::utf8::*;

use crate::bytes::{before_nul, boundary_at_most, fixed_field};

verus! {

broadcast use vstd::utf8::group_utf8_lib;

/// The characters `String::from_utf8_lossy` produces for bytes that are not valid
/// UTF-8: their decoding with every invalid sequence replaced by U+FFFD.
pub uninterp spec fn utf8_replaced(bytes: Seq<u8>) -> Seq<char>;

/// The text bytes stand for: their UTF-8 decoding where they are valid UTF-8, and
/// otherwise the decoding with invalid sequences replaced.
pub open spec fn lossy_text(bytes: Seq<u8>) -> Seq<char> {
    if valid_utf8(bytes) {
        decode_utf8(bytes)
    } else {
        utf8_replaced(bytes)
    }
}

/// Calls `String::from_utf8_lossy` and takes the owned string. As the standard
/// library documents, valid UTF-8 is decoded unchanged; for other input the contract
/// claims only that the result is a function of the bytes alone.
#[verifier::external_body]
fn utf8_lossy(bytes: &[u8]) -> (s: String)
    ensures
        valid_utf8(bytes@) ==> s@ == decode_utf8(bytes@),
        !valid_utf8(bytes@) ==> s@ == utf8_replaced(bytes@),
{
    String::from_utf8_lossy(bytes).into_owned()
}

pub proof fn lemma_before_nul_take(bytes: Seq<u8>, p: int)
    requires
        0 <= p <= bytes.len(),
        forall|i: int| 0 <= i < p ==> bytes[i] != 0,
        p == bytes.len() || bytes[p] == 0,
    ensures
        before_nul(bytes) == bytes.take(p),
    decreases p,
{
    if p == 0 {
        if bytes.len() == 0 {
            assert(bytes.take(0) =~= bytes);
        } else {
            assert(bytes.take(0) =~= Seq::<u8>::empty());
        }
    } else {
        let tail = bytes.drop_first();
        assert forall|i: int| 0 <= i < p - 1 implies tail[i] != 0 by {
            assert(tail[i] == bytes[i + 1]);
        }
        lemma_before_nul_take(tail, p - 1);
        assert(bytes.take(p) =~= seq![bytes[0]] + tail.take(p - 1));
    }
}

/// Decodes a zero-terminated fixed-width text field, replacing invalid UTF-8.
pub fn parse_fixed_string(bytes: &[u8]) -> (s: String)
    ensures
        s@ == lossy_text(before_nul(bytes@)),
{
    let mut len: usize = 0;
    while len < bytes.len() && bytes[len] != 0
        invariant
            len <= bytes@.len(),
            forall|i: int| 0 <= i < len ==> bytes@[i] != 0,
        decreases bytes@.len() - len,
    {
        len = len + 1;
    }
    proof {
        lemma_before_nul_take(bytes@, len as int);
    }
    let prefix = &bytes[0..len];
    utf8_lossy(prefix)
}

/// Encodes text into a fixed-width field: its UTF-8 bytes, cut at the last character
/// boundary that fits, padded with zero bytes.
pub fn fixed_bytes(value: &str, width: usize) -> (r: Vec<u8>)
    ensures
        r@ == fixed_field(value@, width as nat),
{
    let bytes = value.as_bytes();
    let ghost b = encode_utf8(value@);
    assert(bytes@ == b);
    let ghost start: int = if b.len() < width { b.len() as int } else { width as int };
    let mut len: usize = if bytes.len() < width {
        bytes.len()
    } else {
        width
    };
    proof {
        is_char_boundary_start_end_of_seq(b);
    }
    while !value.is_char_boundary(len)
        invariant
            len <= start,
            start <= b.len(),
            valid_utf8(b),
            b == encode_utf8(value@),
            is_char_boundary(b, 0),
            boundary_at_most(b, start) == boundary_at_most(b, len as int),
        decreases len,
    {
        len = len - 1;
    }
    assert(boundary_at_most(b, len as int) == len as int);
    let mut out: Vec<u8> = Vec::new();
    let mut i: usize = 0;
    while i < len
        invariant
            i <= len,
            len <= bytes@.len(),
            out@ == bytes@.take(i as int),
        decreases len - i,
    {
        out.push(bytes[i]);
        i = i + 1;
        assert(out@ =~= bytes@.take(i as int));
    }
    while i < width
        invariant
            len <= i <= width,
            out@ == bytes@.take(len as int) + Seq::new((i - len) as nat, |_j: int| 0u8),
        decreases width - i,
    {
        out.push(0);
        i = i + 1;
        assert(out@ =~= bytes@.take(len as int) + Seq::new((i - len) as nat, |_j: int| 0u8));
    }
    out
}

} // verus!
