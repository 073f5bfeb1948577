//! Textual and binary renderings of integers used by the archive format:
//! minimal decimal and octal digit strings for the header fields, and
//! fixed-width little/big-endian encodings for the linker members.

use vstd::prelude::*;
use vstd::arithmetic::div_mod::lemma_fundamental_div_mod;

verus! {

/// Decimal digit string of `n`, minimal width (no leading zeros except "0").
pub open spec fn dec_rep(n: nat) -> Seq<u8>
    decreases n,
{
    if n < 10 {
        seq![(0x30 + n) as u8]
    } else {
        dec_rep(n / 10).push((0x30 + n % 10) as u8)
    }
}

/// Octal digit string of `n`, minimal width.
pub open spec fn oct_rep(n: nat) -> Seq<u8>
    decreases n,
{
    if n < 8 {
        seq![(0x30 + n) as u8]
    } else {
        oct_rep(n / 8).push((0x30 + n % 8) as u8)
    }
}

/// Numeric value of a decimal digit string.
pub open spec fn dec_val(s: Seq<u8>) -> int
    decreases s.len(),
{
    if s.len() == 0 {
        0
    } else {
        10 * dec_val(s.drop_last()) + s.last() - 0x30
    }
}

/// Rendering then parsing a decimal number is the identity.
pub proof fn lemma_dec_val_of_rep(n: nat)
    ensures
        dec_val(dec_rep(n)) == n,
    decreases n,
{
    if n < 10 {
        assert(dec_rep(n) == seq![(0x30 + n) as u8]);
        assert(dec_rep(n).last() == (0x30 + n) as u8);
        assert(dec_rep(n).drop_last() =~= Seq::<u8>::empty());
        assert(dec_val(dec_rep(n)) == 10 * dec_val(Seq::<u8>::empty()) + (0x30 + n) as u8 - 0x30);
    } else {
        lemma_dec_val_of_rep(n / 10);
        assert(dec_rep(n).last() == (0x30 + n % 10) as u8);
        assert(dec_rep(n).drop_last() =~= dec_rep(n / 10));
        assert(dec_val(dec_rep(n)) == 10 * dec_val(dec_rep(n / 10)) + (0x30 + n % 10) as u8
            - 0x30);
        lemma_fundamental_div_mod(n as int, 10);
    }
}

/// Every byte of a decimal rendering is an ASCII digit.
pub proof fn lemma_dec_rep_digits(n: nat)
    ensures
        forall|k: int| 0 <= k < dec_rep(n).len() ==> 0x30 <= #[trigger] dec_rep(n)[k] <= 0x39,
    decreases n,
{
    if n >= 10 {
        lemma_dec_rep_digits(n / 10);
        assert forall|k: int| 0 <= k < dec_rep(n).len() implies 0x30 <= #[trigger] dec_rep(
            n,
        )[k] <= 0x39 by {
            if k < dec_rep(n).len() - 1 {
                assert(dec_rep(n)[k] == dec_rep(n / 10)[k]);
            } else {
                assert(dec_rep(n)[k] == (0x30 + n % 10) as u8);
            }
        }
    }
}

/// Powers of ten, for digit-count bounds.
pub open spec fn pow10(k: nat) -> nat
    decreases k,
{
    if k == 0 {
        1
    } else {
        10 * pow10((k - 1) as nat)
    }
}

/// A number below `10^k` renders to at most `k` decimal digits.
pub proof fn lemma_dec_rep_len(n: nat, k: nat)
    requires
        1 <= k,
        n < pow10(k),
    ensures
        dec_rep(n).len() <= k,
    decreases n,
{
    if n >= 10 {
        assert(pow10(k) == 10 * pow10((k - 1) as nat));
        assert(n / 10 < pow10((k - 1) as nat)) by (nonlinear_arith)
            requires
                n < 10 * pow10((k - 1) as nat),
                n >= 10,
        ;
        assert(k >= 2) by {
            if k == 1 {
                assert(pow10(1nat) == 10);
            }
        }
        lemma_dec_rep_len(n / 10, (k - 1) as nat);
    }
}

/// Any `u32` renders to at most ten decimal digits.
pub proof fn lemma_dec_rep_len_u32(n: nat)
    requires
        n <= u32::MAX,
    ensures
        dec_rep(n).len() <= 10,
{
    reveal_with_fuel(pow10, 11);
    assert(pow10(10nat) == 10000000000);
    lemma_dec_rep_len(n, 10);
}

/// Decimal digit string of `n`.
pub fn fmt_dec(n: u64) -> (r: Vec<u8>)
    ensures
        r@ == dec_rep(n as nat),
    decreases n,
{
    if n < 10 {
        let mut v: Vec<u8> = Vec::new();
        v.push(0x30 + n as u8);
        v
    } else {
        let mut v = fmt_dec(n / 10);
        v.push(0x30 + (n % 10) as u8);
        v
    }
}

/// Octal digit string of `n`.
pub fn fmt_oct(n: u32) -> (r: Vec<u8>)
    ensures
        r@ == oct_rep(n as nat),
    decreases n,
{
    if n < 8 {
        let mut v: Vec<u8> = Vec::new();
        v.push(0x30 + n as u8);
        v
    } else {
        let mut v = fmt_oct(n / 8);
        v.push(0x30 + (n % 8) as u8);
        v
    }
}

/// Four-byte little-endian encoding of `n`.
pub open spec fn le32(n: u32) -> Seq<u8> {
    seq![
        (n % 256) as u8,
        ((n / 256) % 256) as u8,
        ((n / 65536) % 256) as u8,
        ((n / 16777216) % 256) as u8,
    ]
}

/// Four-byte big-endian encoding of `n`.
pub open spec fn be32(n: u32) -> Seq<u8> {
    seq![
        ((n / 16777216) % 256) as u8,
        ((n / 65536) % 256) as u8,
        ((n / 256) % 256) as u8,
        (n % 256) as u8,
    ]
}

/// Two-byte little-endian encoding of `n`.
pub open spec fn le16(n: u16) -> Seq<u8> {
    seq![(n % 256) as u8, ((n / 256) % 256) as u8]
}

/// Appends the little-endian bytes of `n` to `out`.
pub fn push_le32(out: &mut Vec<u8>, n: u32)
    ensures
        final(out)@ == old(out)@ + le32(n),
{
    out.push((n % 256) as u8);
    out.push(((n / 256) % 256) as u8);
    out.push(((n / 65536) % 256) as u8);
    out.push(((n / 16777216) % 256) as u8);
    assert(out@ =~= old(out)@ + le32(n));
}

/// Appends the big-endian bytes of `n` to `out`.
pub fn push_be32(out: &mut Vec<u8>, n: u32)
    ensures
        final(out)@ == old(out)@ + be32(n),
{
    out.push(((n / 16777216) % 256) as u8);
    out.push(((n / 65536) % 256) as u8);
    out.push(((n / 256) % 256) as u8);
    out.push((n % 256) as u8);
    assert(out@ =~= old(out)@ + be32(n));
}

/// Appends the little-endian bytes of `n` to `out`.
pub fn push_le16(out: &mut Vec<u8>, n: u16)
    ensures
        final(out)@ == old(out)@ + le16(n),
{
    out.push((n % 256) as u8);
    out.push(((n / 256) % 256) as u8);
    assert(out@ =~= old(out)@ + le16(n));
}

/// Appends all bytes of `src` to `out`.
pub fn push_bytes(out: &mut Vec<u8>, src: &Vec<u8>)
    ensures
        final(out)@ == old(out)@ + src@,
{
    let mut i: usize = 0;
    while i < src.len()
        invariant
            i <= src@.len(),
            out@ == old(out)@ + src@.take(i as int),
        decreases src@.len() - i,
    {
        out.push(src[i]);
        assert(out@ =~= old(out)@ + src@.take(i + 1));
        i = i + 1;
    }
    assert(out@ =~= old(out)@ + src@);
}

/// A fresh vector holding the same bytes as `src`.
pub fn copy_bytes(src: &Vec<u8>) -> (r: Vec<u8>)
    ensures
        r@ == src@,
{
    let mut r: Vec<u8> = Vec::new();
    push_bytes(&mut r, src);
    assert(r@ =~= src@);
    r
}

/// True when the two byte vectors hold the same bytes.
pub fn bytes_eq(a: &Vec<u8>, b: &Vec<u8>) -> (r: bool)
    ensures
        r == (a@ == b@),
{
    if a.len() != b.len() {
        assert(a@ != b@);
        return false;
    }
    let mut i: usize = 0;
    while i < a.len()
        invariant
            i <= a@.len(),
            a@.len() == b@.len(),
            forall|k: int| 0 <= k < i ==> a@[k] == b@[k],
        decreases a@.len() - i,
    {
        if a[i] != b[i] {
            return false;
        }
        i = i + 1;
    }
    assert(a@ =~= b@);
    true
}

} // verus!
