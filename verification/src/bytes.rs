//! Byte-buffer building blocks shared by the JPEG rewriter and the PDF
//! serializer: appending literal text and decimal renderings of integers
//! to a growing `Vec<u8>`, with exact specifications of the bytes produced.

use vstd::prelude::*;
use vstd::utf8::encode_utf8;

verus! {

/// The bytes of a string as they appear in memory (UTF-8); for the ASCII
/// literals used throughout this crate, one byte per character.
pub open spec fn str_bytes(s: &str) -> Seq<u8> {
    encode_utf8(s@)
}

/// Appends one byte.
pub fn push_byte(out: &mut Vec<u8>, b: u8)
    ensures
        final(out)@ == old(out)@.push(b),
{
    out.push(b);
}

/// Appends every byte of a slice, in order.
pub fn push_bytes(out: &mut Vec<u8>, s: &[u8])
    ensures
        final(out)@ == old(out)@ + s@,
{
    let mut i: usize = 0;
    while i < s.len()
        invariant
            i <= s@.len(),
            out@ == old(out)@ + s@.subrange(0, i as int),
        decreases s@.len() - i,
    {
        let b = s[i];
        out.push(b);
        i = i + 1;
        assert(out@ =~= old(out)@ + s@.subrange(0, i as int));
    }
    assert(out@ =~= old(out)@ + s@);
}

/// Appends the UTF-8 bytes of a string slice.
pub fn push_str(out: &mut Vec<u8>, s: &str)
    ensures
        final(out)@ == old(out)@ + str_bytes(s),
{
    push_bytes(out, s.as_bytes());
}

/// The decimal rendering of `n`, most significant digit first, no sign,
/// no leading zeros (a single `'0'` for zero).
pub open spec fn dec_bytes(n: nat) -> Seq<u8>
    decreases n,
{
    if n < 10 {
        seq![(n + 0x30) as u8]
    } else {
        dec_bytes(n / 10).push(((n % 10) + 0x30) as u8)
    }
}

/// Appends the decimal rendering of `n`.
pub fn push_dec(out: &mut Vec<u8>, n: u64)
    ensures
        final(out)@ == old(out)@ + dec_bytes(n as nat),
    decreases n,
{
    if n >= 10 {
        push_dec(out, n / 10);
    }
    out.push((n % 10) as u8 + 0x30);
    assert(out@ =~= old(out)@ + dec_bytes(n as nat));
}

/// How many digits the decimal rendering of `n` has.
pub open spec fn dec_len(n: nat) -> nat
    decreases n,
{
    if n < 10 {
        1
    } else {
        dec_len(n / 10) + 1
    }
}

pub proof fn lemma_dec_bytes_len(n: nat)
    ensures
        dec_bytes(n).len() == dec_len(n),
    decreases n,
{
    if n >= 10 {
        lemma_dec_bytes_len(n / 10);
    }
}

/// The decimal rendering of `n`, left-padded with `'0'` bytes to a width of
/// ten (renderings already ten digits or wider are kept as they are).
pub open spec fn dec10_bytes(n: nat) -> Seq<u8> {
    if dec_len(n) >= 10 {
        dec_bytes(n)
    } else {
        Seq::new((10 - dec_len(n)) as nat, |i: int| 0x30u8) + dec_bytes(n)
    }
}

/// Appends the decimal rendering of `n` left-padded with zeros to ten digits.
pub fn push_dec10(out: &mut Vec<u8>, n: u64)
    ensures
        final(out)@ == old(out)@ + dec10_bytes(n as nat),
{
    let mut digits: Vec<u8> = Vec::new();
    push_dec(&mut digits, n);
    proof {
        lemma_dec_bytes_len(n as nat);
        assert(digits@ =~= dec_bytes(n as nat));
    }
    let width = digits.len();
    let mut i: usize = width;
    assert(out@ =~= old(out)@ + Seq::new(0nat, |k: int| 0x30u8));
    while i < 10
        invariant
            width <= i,
            i <= 10 || i == width,
            width == dec_len(n as nat),
            out@ == old(out)@ + Seq::new((i - width) as nat, |k: int| 0x30u8),
        decreases 10 - i,
    {
        out.push(0x30);
        i = i + 1;
        assert(out@ =~= old(out)@ + Seq::new((i - width) as nat, |k: int| 0x30u8));
    }
    push_bytes(out, digits.as_slice());
    proof {
        if dec_len(n as nat) >= 10 {
            assert(out@ =~= old(out)@ + dec10_bytes(n as nat));
        } else {
            assert(Seq::new((i - width) as nat, |k: int| 0x30u8) =~= Seq::new(
                (10 - dec_len(n as nat)) as nat,
                |k: int| 0x30u8,
            ));
            assert(out@ =~= old(out)@ + dec10_bytes(n as nat));
        }
    }
}

} // verus!
