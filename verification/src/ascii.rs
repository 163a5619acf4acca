//! Character-level building blocks of the wire format: ASCII views of byte
//! buffers, decimal length strings, and hexadecimal digits.
//!
//! Every record this crate puts on the text channel is plain ASCII, so the
//! executable code builds records as `Vec<u8>` buffers of ASCII codes and
//! converts them to `String` once, at the end. The specifications here relate
//! those buffers to the `Seq<char>` views that the public contracts use.

use vstd::prelude::*;

verus! {

/// The characters of an ASCII byte buffer, one character per byte.
pub open spec fn ascii_view(bytes: Seq<u8>) -> Seq<char> {
    bytes.map_values(|b: u8| b as char)
}

/// All bytes of the buffer are ASCII codes.
pub open spec fn ascii_bytes(bytes: Seq<u8>) -> bool {
    forall|i: int| 0 <= i < bytes.len() ==> bytes[i] < 128
}

pub broadcast proof fn lemma_ascii_view_add(a: Seq<u8>, b: Seq<u8>)
    ensures
        #[trigger] ascii_view(a + b) == ascii_view(a) + ascii_view(b),
{
    assert(ascii_view(a + b) =~= ascii_view(a) + ascii_view(b));
}

/// `c` is a decimal digit.
pub open spec fn is_dec_digit_char(c: char) -> bool {
    '0' <= c && c <= '9'
}

/// Numeric value of a decimal digit character.
pub open spec fn dec_digit_val(c: char) -> nat
    recommends
        is_dec_digit_char(c),
{
    (c as u32 - '0' as u32) as nat
}

/// The decimal digit character for `d`.
pub open spec fn digit_char(d: nat) -> char
    recommends
        d < 10,
{
    (('0' as u8 + d) as u8) as char
}

/// The decimal representation of `n`, most significant digit first, no
/// leading zeroes (`0` is written as one digit).
pub open spec fn dec_str(n: nat) -> Seq<char>
    decreases n,
{
    if n < 10 {
        seq![digit_char(n)]
    } else {
        dec_str(n / 10) + seq![digit_char(n % 10)]
    }
}

/// Every character of `s` is a decimal digit.
pub open spec fn all_dec_digits(s: Seq<char>) -> bool {
    forall|i: int| 0 <= i < s.len() ==> is_dec_digit_char(#[trigger] s[i])
}

/// The number denoted by a sequence of decimal digits (most significant
/// first); leading zeroes are allowed.
pub open spec fn dec_value(s: Seq<char>) -> nat
    decreases s.len(),
{
    if s.len() == 0 {
        0
    } else {
        dec_value(s.drop_last()) * 10 + dec_digit_val(s.last())
    }
}

pub proof fn lemma_dec_str_digits(n: nat)
    ensures
        dec_str(n).len() >= 1,
        all_dec_digits(dec_str(n)),
    decreases n,
{
    if n >= 10 {
        lemma_dec_str_digits(n / 10);
    }
}

pub proof fn lemma_dec_str_value(n: nat)
    ensures
        dec_value(dec_str(n)) == n,
    decreases n,
{
    if n < 10 {
        let s = dec_str(n);
        assert(s =~= seq![digit_char(n)]);
        assert(s.drop_last() =~= Seq::<char>::empty());
        assert(s.last() == digit_char(n));
        assert(dec_digit_val(digit_char(n)) == n);
        assert(dec_value(s) == dec_value(s.drop_last()) * 10 + dec_digit_val(s.last()));
        assert(dec_value(s.drop_last()) == 0);
    } else {
        lemma_dec_str_value(n / 10);
        let s = dec_str(n);
        assert(s =~= dec_str(n / 10) + seq![digit_char(n % 10)]);
        assert(s.drop_last() =~= dec_str(n / 10));
        assert(s.last() == digit_char(n % 10));
        assert(dec_digit_val(digit_char(n % 10)) == n % 10);
        assert(dec_value(s) == (n / 10) * 10 + n % 10);
        assert((n / 10) * 10 + n % 10 == n) by (nonlinear_arith);
    }
}

/// A smaller number never has a longer decimal representation.
pub proof fn lemma_dec_str_len_mono(a: nat, b: nat)
    requires
        a <= b,
    ensures
        dec_str(a).len() <= dec_str(b).len(),
    decreases b,
{
    if b < 10 {
    } else if a < 10 {
        assert(dec_str(a).len() == 1);
        assert(dec_str(b).len() == dec_str(b / 10).len() + 1);
        lemma_dec_str_digits(b / 10);
    } else {
        vstd::arithmetic::div_mod::lemma_div_is_ordered(a as int, b as int, 10);
        lemma_dec_str_len_mono(a / 10, b / 10);
    }
}

/// `is_hex_digit_char` holds of the characters `hex::decode` style parsing
/// accepts: both cases are read, though the encoder always writes upper case.
pub open spec fn is_hex_digit_char(c: char) -> bool {
    ('0' <= c && c <= '9') || ('A' <= c && c <= 'F') || ('a' <= c && c <= 'f')
}

/// Numeric value of a hexadecimal digit character.
pub open spec fn hex_digit_val(c: char) -> u8
    recommends
        is_hex_digit_char(c),
{
    if '0' <= c && c <= '9' {
        (c as u32 - 48) as u8
    } else if 'A' <= c && c <= 'F' {
        (c as u32 - 55) as u8
    } else {
        (c as u32 - 87) as u8
    }
}

/// The upper-case hexadecimal digit for `v < 16`.
pub open spec fn hex_char(v: u8) -> char
    recommends
        v < 16,
{
    if v < 10 {
        ((48 + v) as u8) as char
    } else {
        ((55 + v) as u8) as char
    }
}

pub proof fn lemma_hex_char_val(v: u8)
    requires
        v < 16,
    ensures
        is_hex_digit_char(hex_char(v)),
        hex_digit_val(hex_char(v)) == v,
        hex_char(v) != ' ',
{
}

/// Relies on `String::from_utf8`: decoding bytes that are all below 0x80
/// succeeds and yields exactly those bytes as characters.
#[verifier::external_body]
pub(crate) fn ascii_to_string(bytes: Vec<u8>) -> (r: String)
    requires
        ascii_bytes(bytes@),
    ensures
        r@ == ascii_view(bytes@),
{
    match String::from_utf8(bytes) {
        Ok(s) => s,
        Err(_) => String::new(),
    }
}

/// Appends the two upper-case hexadecimal digits of `b` to `out`.
pub(crate) fn push_hex_byte(out: &mut Vec<u8>, b: u8)
    ensures
        final(out)@ == old(out)@ + seq![hex_byte_code(b / 16), hex_byte_code(b % 16)],
{
    let hi = b / 16;
    let lo = b % 16;
    out.push(hex_byte_code_exec(hi));
    out.push(hex_byte_code_exec(lo));
    assert(out@ =~= old(out)@ + seq![hex_byte_code(b / 16), hex_byte_code(b % 16)]);
}

/// ASCII code of the upper-case hexadecimal digit for `v < 16`.
pub open spec fn hex_byte_code(v: u8) -> u8
    recommends
        v < 16,
{
    if v < 10 {
        (48 + v) as u8
    } else {
        (55 + v) as u8
    }
}

pub(crate) fn hex_byte_code_exec(v: u8) -> (r: u8)
    requires
        v < 16,
    ensures
        r == hex_byte_code(v),
        r < 128,
        r as char == hex_char(v),
{
    if v < 10 {
        48 + v
    } else {
        55 + v
    }
}

/// Appends the decimal digits of `n` (most significant first) to `out`.
pub(crate) fn push_dec_usize(out: &mut Vec<u8>, n: usize)
    ensures
        ascii_bytes(old(out)@) ==> ascii_bytes(final(out)@),
        ascii_view(final(out)@) == ascii_view(old(out)@) + dec_str(n as nat),
    decreases n,
{
    if n < 10 {
        out.push(48 + (n as u8));
        assert(ascii_view(out@) =~= ascii_view(old(out)@) + dec_str(n as nat));
    } else {
        push_dec_usize(out, n / 10);
        let ghost mid = out@;
        out.push(48 + ((n % 10) as u8));
        proof {
            assert(out@ == mid.push((48 + (n % 10)) as u8));
            assert(ascii_view(mid) == ascii_view(old(out)@) + dec_str((n / 10) as nat));
            assert(ascii_view(out@) =~= ascii_view(mid) + seq![digit_char((n % 10) as nat)]);
            assert(dec_str(n as nat) == dec_str((n / 10) as nat) + seq![
                digit_char((n % 10) as nat),
            ]);
            assert(ascii_view(out@) =~= ascii_view(old(out)@) + dec_str(n as nat));
        }
    }
}

/// A character at or below 0x7f survives the trip through its ASCII code.
pub proof fn lemma_ascii_char_roundtrip(c: char)
    requires
        c <= '\u{7f}',
    ensures
        ((c as u8) as char) == c,
{
}

} // verus!
