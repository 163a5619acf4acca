//! The payload text encoding: each payload byte is printed as two upper-case
//! hexadecimal digits, consecutive bytes separated by one space
//! (`[0xFF, 0x3C]` becomes `"FF 3C"`).
//!
//! Because every character of the encoding belongs to exactly one byte, a
//! fragmenter may cut the encoded text at byte boundaries and each piece
//! still decodes on its own. The decoder is more liberal than the encoder:
//! it ignores spaces wherever they stand and accepts both digit cases.

use vstd::prelude::*;

use crate::ascii::{
    ascii_bytes, ascii_view, hex_byte_code, hex_char, hex_digit_val, is_hex_digit_char,
    push_hex_byte,
};

verus! {

/// The two hexadecimal digits of one payload byte.
pub open spec fn byte_hex_chars(b: u8) -> Seq<char> {
    seq![hex_char(b / 16), hex_char(b % 16)]
}

/// The canonical encoded text of a payload: digit pairs joined by single
/// spaces, empty for an empty payload.
pub open spec fn hex_text(bytes: Seq<u8>) -> Seq<char>
    decreases bytes.len(),
{
    if bytes.len() == 0 {
        Seq::empty()
    } else if bytes.len() == 1 {
        byte_hex_chars(bytes[0])
    } else {
        byte_hex_chars(bytes[0]) + seq![' '] + hex_text(bytes.skip(1))
    }
}

/// The digit pairs alone, without separators.
pub open spec fn hex_pairs(bytes: Seq<u8>) -> Seq<char>
    decreases bytes.len(),
{
    if bytes.len() == 0 {
        Seq::empty()
    } else {
        byte_hex_chars(bytes[0]) + hex_pairs(bytes.skip(1))
    }
}

/// `s` with every space removed.
pub open spec fn strip_spaces(s: Seq<char>) -> Seq<char>
    decreases s.len(),
{
    if s.len() == 0 {
        Seq::empty()
    } else if s[0] == ' ' {
        strip_spaces(s.skip(1))
    } else {
        seq![s[0]] + strip_spaces(s.skip(1))
    }
}

/// Every character of `s` is a hexadecimal digit.
pub open spec fn all_hex_digits(s: Seq<char>) -> bool {
    forall|i: int| 0 <= i < s.len() ==> is_hex_digit_char(#[trigger] s[i])
}

/// `s` decodes as a payload: after dropping spaces, an even number of
/// hexadecimal digits remains.
pub open spec fn is_hex_payload_text(s: Seq<char>) -> bool {
    &&& strip_spaces(s).len() % 2 == 0
    &&& all_hex_digits(strip_spaces(s))
}

/// The bytes denoted by an even-length sequence of hexadecimal digits.
pub open spec fn hex_pairs_value(t: Seq<char>) -> Seq<u8>
    decreases t.len(),
{
    if t.len() < 2 {
        Seq::empty()
    } else {
        seq![(hex_digit_val(t[0]) * 16 + hex_digit_val(t[1])) as u8] + hex_pairs_value(t.skip(2))
    }
}

/// The payload bytes denoted by an encoded text.
pub open spec fn payload_of_text(s: Seq<char>) -> Seq<u8> {
    hex_pairs_value(strip_spaces(s))
}

pub proof fn lemma_hex_text_len(bytes: Seq<u8>)
    ensures
        bytes.len() == 0 ==> hex_text(bytes).len() == 0,
        bytes.len() > 0 ==> hex_text(bytes).len() == 3 * bytes.len() - 1,
    decreases bytes.len(),
{
    if bytes.len() > 1 {
        lemma_hex_text_len(bytes.skip(1));
    }
}

/// Appending one byte extends the encoded text by that byte's digit pair,
/// preceded by a space when the text was not empty.
pub proof fn lemma_hex_text_snoc(s: Seq<u8>, x: u8)
    ensures
        s.len() == 0 ==> hex_text(s.push(x)) == byte_hex_chars(x),
        s.len() > 0 ==> hex_text(s.push(x)) == hex_text(s) + seq![' '] + byte_hex_chars(x),
    decreases s.len(),
{
    if s.len() == 0 {
        assert(s.push(x) =~= seq![x]);
        assert(hex_text(seq![x]) == byte_hex_chars(x));
    } else {
        lemma_hex_text_snoc(s.skip(1), x);
        assert(s.push(x).skip(1) =~= s.skip(1).push(x));
        if s.len() == 1 {
            assert(hex_text(s.push(x)) =~= hex_text(s) + seq![' '] + byte_hex_chars(x));
        } else {
            assert(hex_text(s.push(x)) =~= hex_text(s) + seq![' '] + byte_hex_chars(x));
        }
    }
}

pub proof fn lemma_hex_text_ascii(bytes: Seq<u8>)
    ensures
        vstd::utf8::is_ascii_chars(hex_text(bytes)),
        forall|i: int|
            0 <= i < hex_text(bytes).len() ==> #[trigger] hex_text(bytes)[i] != '~',
    decreases bytes.len(),
{
    if bytes.len() > 1 {
        lemma_hex_text_ascii(bytes.skip(1));
    }
}

pub proof fn lemma_strip_add(a: Seq<char>, b: Seq<char>)
    ensures
        strip_spaces(a + b) == strip_spaces(a) + strip_spaces(b),
    decreases a.len(),
{
    if a.len() == 0 {
        assert(a + b =~= b);
        assert(strip_spaces(a) + strip_spaces(b) =~= strip_spaces(b));
    } else {
        lemma_strip_add(a.skip(1), b);
        assert((a + b).skip(1) =~= a.skip(1) + b);
        if a[0] == ' ' {
        } else {
            assert(seq![a[0]] + (strip_spaces(a.skip(1)) + strip_spaces(b)) =~= (seq![a[0]]
                + strip_spaces(a.skip(1))) + strip_spaces(b));
        }
    }
}

/// A text without spaces is unchanged by `strip_spaces`.
pub proof fn lemma_strip_id(s: Seq<char>)
    requires
        forall|i: int| 0 <= i < s.len() ==> #[trigger] s[i] != ' ',
    ensures
        strip_spaces(s) == s,
    decreases s.len(),
{
    if s.len() == 0 {
        assert(strip_spaces(s) =~= s);
    } else {
        lemma_strip_id(s.skip(1));
        assert(strip_spaces(s) =~= s);
    }
}

pub proof fn lemma_strip_hex_text(bytes: Seq<u8>)
    ensures
        strip_spaces(hex_text(bytes)) == hex_pairs(bytes),
    decreases bytes.len(),
{
    if bytes.len() == 0 {
    } else {
        let b = bytes[0];
        lemma_strip_hex_text(bytes.skip(1));
        crate::ascii::lemma_hex_char_val(b / 16);
        crate::ascii::lemma_hex_char_val(b % 16);
        assert(byte_hex_chars(b)[0] == hex_char(b / 16));
        assert(byte_hex_chars(b)[1] == hex_char(b % 16));
        lemma_strip_id(byte_hex_chars(b));
        if bytes.len() == 1 {
        } else {
            lemma_strip_add(byte_hex_chars(b), seq![' '] + hex_text(bytes.skip(1)));
            lemma_strip_add(seq![' '], hex_text(bytes.skip(1)));
            assert((seq![' '] + hex_text(bytes.skip(1))).skip(1) =~= hex_text(bytes.skip(1)));
            assert(strip_spaces(seq![' ']) =~= Seq::<char>::empty());
            assert(hex_text(bytes) =~= byte_hex_chars(b) + (seq![' '] + hex_text(bytes.skip(1))));
            assert(strip_spaces(hex_text(bytes)) =~= hex_pairs(bytes));
        }
    }
}

pub proof fn lemma_hex_pairs_shape(bytes: Seq<u8>)
    ensures
        hex_pairs(bytes).len() == 2 * bytes.len(),
        all_hex_digits(hex_pairs(bytes)),
    decreases bytes.len(),
{
    if bytes.len() > 0 {
        lemma_hex_pairs_shape(bytes.skip(1));
        crate::ascii::lemma_hex_char_val(bytes[0] / 16);
        crate::ascii::lemma_hex_char_val(bytes[0] % 16);
    }
}

pub proof fn lemma_hex_pairs_value(bytes: Seq<u8>)
    ensures
        hex_pairs_value(hex_pairs(bytes)) == bytes,
    decreases bytes.len(),
{
    if bytes.len() == 0 {
        assert(hex_pairs_value(hex_pairs(bytes)) =~= bytes);
    } else {
        let b = bytes[0];
        lemma_hex_pairs_value(bytes.skip(1));
        lemma_hex_pairs_shape(bytes.skip(1));
        crate::ascii::lemma_hex_char_val(b / 16);
        crate::ascii::lemma_hex_char_val(b % 16);
        assert(hex_pairs(bytes).skip(2) =~= hex_pairs(bytes.skip(1)));
        assert(hex_pairs(bytes)[0] == hex_char(b / 16));
        assert(hex_pairs(bytes)[1] == hex_char(b % 16));
        assert((hex_digit_val(hex_char(b / 16)) * 16 + hex_digit_val(hex_char(b % 16))) as u8
            == b);
        assert(hex_pairs_value(hex_pairs(bytes)) =~= bytes);
    }
}

/// The canonical encoding of any payload decodes back to that payload.
pub proof fn lemma_hex_round_trip(bytes: Seq<u8>)
    ensures
        is_hex_payload_text(hex_text(bytes)),
        payload_of_text(hex_text(bytes)) == bytes,
{
    lemma_strip_hex_text(bytes);
    lemma_hex_pairs_shape(bytes);
    lemma_hex_pairs_value(bytes);
}

pub proof fn lemma_strip_singleton(c: char)
    ensures
        c == ' ' ==> strip_spaces(seq![c]) == Seq::<char>::empty(),
        c != ' ' ==> strip_spaces(seq![c]) == seq![c],
{
    reveal_with_fuel(strip_spaces, 2);
    assert(seq![c].skip(1) =~= Seq::<char>::empty());
    if c != ' ' {
        assert(strip_spaces(seq![c]) =~= seq![c]);
    }
}

/// Every character that is not a space survives `strip_spaces`.
pub(crate) proof fn lemma_strip_keeps(s: Seq<char>, j: int)
    requires
        0 <= j < s.len(),
        s[j] != ' ',
    ensures
        exists|k: int| 0 <= k < strip_spaces(s).len() && strip_spaces(s)[k] == s[j],
    decreases s.len(),
{
    if j == 0 {
        assert(strip_spaces(s)[0] == s[0]);
    } else {
        lemma_strip_keeps(s.skip(1), j - 1);
        let k = choose|k: int|
            0 <= k < strip_spaces(s.skip(1)).len() && strip_spaces(s.skip(1))[k] == s.skip(1)[j
                - 1];
        if s[0] == ' ' {
            assert(strip_spaces(s)[k] == s[j]);
        } else {
            assert(strip_spaces(s)[k + 1] == s[j]);
        }
    }
}

/// A text with a character that is neither a space nor a hexadecimal digit
/// does not decode as a payload.
pub proof fn lemma_not_hex_witness(s: Seq<char>, j: int)
    requires
        0 <= j < s.len(),
        s[j] != ' ',
        !is_hex_digit_char(s[j]),
    ensures
        !is_hex_payload_text(s),
{
    lemma_strip_keeps(s, j);
}

/// Appending one digit pair to an even run of digits appends one byte to its
/// value.
pub proof fn lemma_pairs_value_snoc(u: Seq<char>, c1: char, c2: char)
    requires
        u.len() % 2 == 0,
    ensures
        hex_pairs_value(u + seq![c1, c2]) == hex_pairs_value(u) + seq![
            (hex_digit_val(c1) * 16 + hex_digit_val(c2)) as u8,
        ],
    decreases u.len(),
{
    if u.len() == 0 {
        reveal_with_fuel(hex_pairs_value, 2);
        assert(u + seq![c1, c2] =~= seq![c1, c2]);
        assert((u + seq![c1, c2]).skip(2) =~= Seq::<char>::empty());
        assert(hex_pairs_value(u + seq![c1, c2]) =~= hex_pairs_value(u) + seq![
            (hex_digit_val(c1) * 16 + hex_digit_val(c2)) as u8,
        ]);
    } else {
        lemma_pairs_value_snoc(u.skip(2), c1, c2);
        assert((u + seq![c1, c2]).skip(2) =~= u.skip(2) + seq![c1, c2]);
        assert(hex_pairs_value(u + seq![c1, c2]) =~= hex_pairs_value(u) + seq![
            (hex_digit_val(c1) * 16 + hex_digit_val(c2)) as u8,
        ]);
    }
}

/// Classifies one ASCII code as a hexadecimal digit.
pub(crate) fn hex_val_of_byte(b: u8) -> (r: Option<u8>)
    ensures
        r is Some <==> is_hex_digit_char(b as char),
        r is Some ==> r->Some_0 == hex_digit_val(b as char) && r->Some_0 < 16,
{
    if 48 <= b && b <= 57 {
        Some(b - 48)
    } else if 65 <= b && b <= 70 {
        Some(b - 55)
    } else if 97 <= b && b <= 102 {
        Some(b - 87)
    } else {
        None
    }
}

/// Decodes the characters `bytes[from..to]` (given as ASCII codes) as a
/// payload: spaces are dropped, the remaining characters must be an even
/// number of hexadecimal digits.
pub(crate) fn decode_hex_range(bytes: &[u8], from: usize, to: usize) -> (r: Option<Vec<u8>>)
    requires
        from <= to <= bytes@.len(),
    ensures
        r is Some <==> is_hex_payload_text(ascii_view(bytes@.subrange(from as int, to as int))),
        r is Some ==> r->Some_0@ == payload_of_text(
            ascii_view(bytes@.subrange(from as int, to as int)),
        ),
{
    let ghost s = ascii_view(bytes@.subrange(from as int, to as int));
    let mut t: Vec<u8> = Vec::new();
    let mut j: usize = from;
    assert(ascii_view(bytes@.subrange(from as int, from as int)) =~= Seq::<char>::empty());
    assert(s.take(0) =~= Seq::<char>::empty());
    while j < to
        invariant
            from <= j <= to <= bytes@.len(),
            s == ascii_view(bytes@.subrange(from as int, to as int)),
            ascii_view(t@) == strip_spaces(s.take(j - from)),
        decreases to - j,
    {
        let b = *vstd::slice::slice_index_get(bytes, j);
        let ghost done = s.take(j - from);
        if b != 32 {
            t.push(b);
        }
        proof {
            assert(s.take(j + 1 - from) =~= done + seq![s[j - from]]);
            assert(s[j - from] == b as char);
            lemma_strip_add(done, seq![b as char]);
            lemma_strip_singleton(b as char);
            if b == 32 {
                assert(ascii_view(t@) =~= strip_spaces(s.take(j + 1 - from)));
            } else {
                assert(ascii_view(t@) =~= strip_spaces(s.take(j + 1 - from)));
            }
        }
        j = j + 1;
    }
    proof {
        assert(s.take(to - from) =~= s);
    }
    // `t` now holds the digit characters; read them in pairs.
    if t.len() % 2 != 0 {
        return None;
    }
    let ghost v = ascii_view(t@);
    let mut out: Vec<u8> = Vec::new();
    let mut k: usize = 0;
    assert(v.take(0) =~= Seq::<char>::empty());
    while k < t.len()
        invariant
            0 <= k <= t@.len(),
            k % 2 == 0,
            t@.len() % 2 == 0,
            v == ascii_view(t@),
            v == strip_spaces(s),
            s == ascii_view(bytes@.subrange(from as int, to as int)),
            forall|m: int| 0 <= m < k ==> is_hex_digit_char(#[trigger] v[m]),
            out@ == hex_pairs_value(v.take(k as int)),
        decreases t@.len() - k,
    {
        let b1 = t[k];
        let b2 = t[k + 1];
        assert(v[k as int] == t@[k as int] as char);
        assert(v[k as int + 1] == t@[k as int + 1] as char);
        let v1 = match hex_val_of_byte(b1) {
            Some(x) => x,
            None => {
                proof {
                    assert(!is_hex_digit_char(v[k as int]));
                    assert(!all_hex_digits(strip_spaces(s)));
                    assert(!is_hex_payload_text(
                        ascii_view(bytes@.subrange(from as int, to as int)),
                    ));
                }
                return None;
            },
        };
        let v2 = match hex_val_of_byte(b2) {
            Some(x) => x,
            None => {
                proof {
                    assert(!is_hex_digit_char(v[k as int + 1]));
                    assert(!all_hex_digits(strip_spaces(s)));
                    assert(!is_hex_payload_text(
                        ascii_view(bytes@.subrange(from as int, to as int)),
                    ));
                }
                return None;
            },
        };
        out.push(v1 * 16 + v2);
        proof {
            assert(v.take(k as int).len() % 2 == 0);
            lemma_pairs_value_snoc(v.take(k as int), v[k as int], v[k as int + 1]);
            assert(v.take(k + 2) =~= v.take(k as int) + seq![v[k as int], v[k as int + 1]]);
            assert(out@ == hex_pairs_value(v.take(k + 2)));
        }
        k = k + 2;
    }
    proof {
        assert(v.take(t@.len() as int) =~= v);
    }
    Some(out)
}

/// Appends the canonical spaced-hexadecimal text of `data` to `out`.
pub(crate) fn push_hex_text(out: &mut Vec<u8>, data: &[u8])
    requires
        ascii_bytes(old(out)@),
    ensures
        ascii_bytes(final(out)@),
        ascii_view(final(out)@) == ascii_view(old(out)@) + hex_text(data@),
{
    let mut i: usize = 0;
    assert(data@.take(0) =~= Seq::<u8>::empty());
    assert(ascii_view(out@) =~= ascii_view(old(out)@) + hex_text(data@.take(0)));
    while i < data.len()
        invariant
            0 <= i <= data@.len(),
            ascii_bytes(out@),
            ascii_view(out@) == ascii_view(old(out)@) + hex_text(data@.take(i as int)),
        decreases data@.len() - i,
    {
        let ghost prefix = data@.take(i as int);
        let ghost before = out@;
        if i > 0 {
            out.push(32);
        }
        let ghost mid = out@;
        let b = *vstd::slice::slice_index_get(data, i);
        push_hex_byte(out, b);
        proof {
            lemma_hex_text_snoc(prefix, b);
            lemma_hex_text_len(prefix);
            assert(data@.take(i + 1) =~= prefix.push(b));
            assert(out@ == mid + seq![hex_byte_code(b / 16), hex_byte_code(b % 16)]);
            assert(ascii_view(seq![hex_byte_code(b / 16), hex_byte_code(b % 16)]) =~= byte_hex_chars(b));
            crate::ascii::lemma_ascii_view_add(mid, seq![hex_byte_code(b / 16), hex_byte_code(b % 16)]);
            if i > 0 {
                assert(mid == before.push(32u8));
                assert(ascii_view(mid) =~= ascii_view(before) + seq![' ']);
                assert(ascii_view(out@) =~= ascii_view(old(out)@) + (hex_text(prefix) + seq![' ']
                    + byte_hex_chars(b)));
            } else {
                assert(prefix.len() == 0);
                assert(hex_text(prefix) =~= Seq::<char>::empty());
                assert(ascii_view(out@) =~= ascii_view(old(out)@) + byte_hex_chars(b));
            }
            assert(ascii_view(out@) =~= ascii_view(old(out)@) + hex_text(data@.take(i + 1)));
        }
        i = i + 1;
    }
    proof {
        assert(data@.take(data@.len() as int) =~= data@);
    }
}

/// Appends `src` to `out` unchanged.
pub(crate) fn push_bytes(out: &mut Vec<u8>, src: &[u8])
    ensures
        final(out)@ == old(out)@ + src@,
{
    let mut i: usize = 0;
    assert(out@ =~= old(out)@ + src@.take(0));
    while i < src.len()
        invariant
            0 <= i <= src@.len(),
            out@ == old(out)@ + src@.take(i as int),
        decreases src@.len() - i,
    {
        let b = *vstd::slice::slice_index_get(src, i);
        out.push(b);
        proof {
            assert(src@.take(i + 1) =~= src@.take(i as int).push(b));
            assert(out@ =~= old(out)@ + src@.take(i + 1));
        }
        i = i + 1;
    }
    proof {
        assert(src@.take(src@.len() as int) =~= src@);
    }
}

/// Decodes a whole string as spaced-hexadecimal payload text.
pub(crate) fn decode_hex_str(string: &str) -> (r: Option<Vec<u8>>)
    ensures
        r is Some <==> is_hex_payload_text(string@),
        r is Some ==> r->Some_0@ == payload_of_text(string@),
{
    if !string.is_ascii() {
        proof {
            let j = choose|j: int|
                0 <= j < string@.len() && !('\0' <= #[trigger] string@[j] <= '\u{7f}');
            lemma_not_hex_witness(string@, j);
        }
        return None;
    }
    let bytes = string.as_bytes_vec();
    proof {
        broadcast use vstd::string::is_ascii_spec_bytes;

        assert(bytes@ =~= Seq::new(string@.len(), |i: int| string@[i] as u8));
        assert forall|i: int| 0 <= i < string@.len() implies #[trigger] ascii_view(bytes@)[i]
            == string@[i] by {
            crate::ascii::lemma_ascii_char_roundtrip(string@[i]);
        }
        assert(bytes@.subrange(0, bytes@.len() as int) =~= bytes@);
        assert(ascii_view(bytes@) =~= string@);
    }
    let n = bytes.len();
    decode_hex_range(bytes.as_slice(), 0, n)
}

/// Encodes a payload as its canonical spaced-hexadecimal text.
pub(crate) fn hex_text_exec(data: &[u8]) -> (r: String)
    ensures
        r@ == hex_text(data@),
{
    let mut out: Vec<u8> = Vec::new();
    push_hex_text(&mut out, data);
    crate::ascii::ascii_to_string(out)
}

} // verus!
