//! The building blocks of the plain-text PPM format: decimal numerals and the
//! image header, as bytes.

use vstd::prelude::*;

verus! {

/// ASCII `0`, the first of the ten digits.
pub const ZERO: u8 = 48;

/// ASCII space, which separates the numbers on one line.
pub const SPACE: u8 = 32;

/// ASCII line feed, which ends every line.
pub const NEWLINE: u8 = 10;

/// The largest value a colour channel takes in the encoded image.
pub const MAX_CHANNEL: u8 = 255;

/// The decimal numeral of `n`: most significant digit first, no sign, no
/// leading zero, and the single digit `0` for zero.
pub open spec fn decimal(n: nat) -> Seq<u8>
    decreases n,
{
    if n < 10 {
        seq![(ZERO + n) as u8]
    } else {
        decimal(n / 10).push((ZERO + n % 10) as u8)
    }
}

/// ASCII `P`, the first byte of the magic number.
pub const MAGIC_P: u8 = 80;

/// ASCII `3`, the second byte of the magic number: plain text, three channels.
pub const MAGIC_3: u8 = 51;

/// The magic number that opens a plain-text PPM file: `P3`.
pub open spec fn magic() -> Seq<u8> {
    seq![MAGIC_P, MAGIC_3]
}

/// The header of a `width` by `height` image: the magic number, the two
/// dimensions and the largest channel value, on three lines.
pub open spec fn header(width: nat, height: nat) -> Seq<u8> {
    magic() + seq![NEWLINE] + decimal(width) + seq![SPACE] + decimal(height) + seq![NEWLINE]
        + decimal(MAX_CHANNEL as nat) + seq![NEWLINE]
}

/// Appends the decimal numeral of `n` to `out`.
pub fn push_decimal(out: &mut Vec<u8>, n: usize)
    ensures
        final(out)@ == old(out)@ + decimal(n as nat),
    decreases n,
{
    if n >= 10 {
        push_decimal(out, n / 10);
    }
    let digit: u8 = ZERO + (n % 10) as u8;
    out.push(digit);
    assert(out@ =~= old(out)@ + decimal(n as nat));
}

/// Appends the header of a `width` by `height` image to `out`.
pub fn push_header(out: &mut Vec<u8>, width: usize, height: usize)
    ensures
        final(out)@ == old(out)@ + header(width as nat, height as nat),
{
    out.push(MAGIC_P);
    out.push(MAGIC_3);
    out.push(NEWLINE);
    push_decimal(out, width);
    out.push(SPACE);
    push_decimal(out, height);
    out.push(NEWLINE);
    push_decimal(out, MAX_CHANNEL as usize);
    out.push(NEWLINE);
    assert(out@ =~= old(out)@ + header(width as nat, height as nat));
}

/// A numeral is never empty and holds nothing but the ten digits.
pub proof fn lemma_decimal_digits(n: nat)
    ensures
        decimal(n).len() >= 1,
        forall|i: int| 0 <= i < decimal(n).len() ==> ZERO <= #[trigger] decimal(n)[i] <= ZERO + 9,
    decreases n,
{
    if n >= 10 {
        lemma_decimal_digits(n / 10);
    }
}

} // verus!
