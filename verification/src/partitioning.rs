//! Fragmenting over-long records, packing records into channel messages,
//! and the inverse operations.
//!
//! - partitioning takes one over-budget `Message` and produces an ordered
//!   run of smaller ones;
//! - aggregation packs many record texts back-to-back into one channel
//!   message, each record self-delimited by its decimal length prefix.

use vstd::prelude::*;
use vstd::string::StringSliceAdditionalSpecFns;

use crate::ascii::{
    ascii_bytes, ascii_view, hex_char, hex_digit_val, is_hex_digit_char, push_hex_byte,
};
use crate::message::{
    body_chars, dir_tag, lemma_dir_tags, record_chars, starts_with_tag, Message, MessageDirection,
    MessageError,
};

verus! {

/// The defining fields of one parsed record.
pub struct FrameFields {
    pub direction: MessageDirection,
    pub part: Part,
    pub payload: Seq<u8>,
}

/// The stage at which a channel message fails to parse: a malformed or
/// overrunning length prefix, an unknown direction tag, a malformed part
/// field, or a payload that is not hexadecimal text.
pub enum ParseFailure {
    Length,
    Direction,
    Part,
    Payload,
}

/// The error variant each parse failure surfaces as.
pub open spec fn error_matches(e: MessageError, f: ParseFailure) -> bool {
    match f {
        ParseFailure::Length => e is Aggregation,
        ParseFailure::Direction => e is Direction,
        ParseFailure::Part => e is Partitioning,
        ParseFailure::Payload => e is Decode,
    }
}

/// `msgs` carries exactly the parsed fields `fs`, record by record.
pub open spec fn frames_match(msgs: Seq<Message>, fs: Seq<FrameFields>) -> bool {
    &&& msgs.len() == fs.len()
    &&& forall|i: int|
        0 <= i < msgs.len() ==> {
            &&& (#[trigger] msgs[i]).wf()
            &&& msgs[i].direction == fs[i].direction
            &&& msgs[i].part == fs[i].part
            &&& msgs[i].payload@ == fs[i].payload
        }
}

/// Index of the first `~` in `s`, or -1 when there is none.
pub open spec fn find_tilde(s: Seq<char>) -> int
    decreases s.len(),
{
    if s.len() == 0 {
        -1
    } else if s[0] == '~' {
        0
    } else {
        if find_tilde(s.skip(1)) < 0 {
            -1
        } else {
            find_tilde(s.skip(1)) + 1
        }
    }
}

pub proof fn lemma_find_tilde_at(s: Seq<char>, j: int)
    requires
        0 <= j < s.len(),
        s[j] == '~',
        forall|m: int| 0 <= m < j ==> s[m] != '~',
    ensures
        find_tilde(s) == j,
    decreases j,
{
    if j > 0 {
        lemma_find_tilde_at(s.skip(1), j - 1);
    }
}

pub proof fn lemma_find_tilde_none(s: Seq<char>)
    requires
        forall|m: int| 0 <= m < s.len() ==> s[m] != '~',
    ensures
        find_tilde(s) < 0,
    decreases s.len(),
{
    if s.len() > 0 {
        lemma_find_tilde_none(s.skip(1));
    }
}

/// Where `find_tilde` points, there is a `~`, and none before it.
pub proof fn lemma_find_tilde_props(s: Seq<char>)
    requires
        find_tilde(s) >= 0,
    ensures
        find_tilde(s) < s.len(),
        s[find_tilde(s)] == '~',
        forall|m: int| 0 <= m < find_tilde(s) ==> s[m] != '~',
    decreases s.len(),
{
    if s.len() > 0 && s[0] != '~' {
        lemma_find_tilde_props(s.skip(1));
        assert forall|m: int| 0 <= m < find_tilde(s) implies s[m] != '~' by {
            if m > 0 {
                assert(s[m] == s.skip(1)[m - 1]);
            }
        }
    }
}

/// Parses one record at the head of `s`: the decimal length run, the `~`
/// delimiter, then a body of exactly that many characters, made of a
/// direction tag, a part field and an encoded payload. On success also
/// yields how many characters the record occupies.
pub open spec fn parse_record(s: Seq<char>) -> Result<(FrameFields, int), ParseFailure> {
    let d = find_tilde(s);
    if d <= 0 {
        Err(ParseFailure::Length)
    } else if !crate::ascii::all_dec_digits(s.take(d)) {
        Err(ParseFailure::Length)
    } else if s.len() < d + 1 + crate::ascii::dec_value(s.take(d)) {
        Err(ParseFailure::Length)
    } else {
        let l = crate::ascii::dec_value(s.take(d)) as int;
        match parse_body(s.subrange(d + 1, d + 1 + l)) {
            Ok(f) => Ok((f, d + 1 + l)),
            Err(e) => Err(e),
        }
    }
}

/// Parses a record body: direction by longest-prefix match (the two tags
/// share no prefix), then the fixed-width part field, then the payload.
pub open spec fn parse_body(body: Seq<char>) -> Result<FrameFields, ParseFailure> {
    if !starts_with_tag(body, MessageDirection::Clientbound) && !starts_with_tag(
        body,
        MessageDirection::Serverbound,
    ) {
        Err(ParseFailure::Direction)
    } else {
        let dir = if starts_with_tag(body, MessageDirection::Clientbound) {
            MessageDirection::Clientbound
        } else {
            MessageDirection::Serverbound
        };
        let after = body.skip(dir_tag(dir).len() as int);
        if !part_field_ok(after) {
            Err(ParseFailure::Part)
        } else {
            let p = Part {
                current: part_field_current(after) as usize,
                total: part_field_total(after) as usize,
            };
            let enc = after.skip(6);
            if crate::hexcode::is_hex_payload_text(enc) {
                Ok(
                    FrameFields {
                        direction: dir,
                        part: p,
                        payload: crate::hexcode::payload_of_text(enc),
                    },
                )
            } else {
                Err(ParseFailure::Payload)
            }
        }
    }
}

/// Parses a whole channel message as zero or more records placed
/// back-to-back, each self-delimited by its length prefix.
pub open spec fn parse_aggregate(s: Seq<char>) -> Result<Seq<FrameFields>, ParseFailure>
    decreases s.len(),
{
    if s.len() == 0 {
        Ok(Seq::empty())
    } else {
        match parse_record(s) {
            Err(e) => Err(e),
            Ok((f, c)) => {
                if c <= 0 || c > s.len() {
                    Err(ParseFailure::Length)
                } else {
                    match parse_aggregate(s.skip(c)) {
                        Err(e) => Err(e),
                        Ok(fs) => Ok(seq![f] + fs),
                    }
                }
            },
        }
    }
}

/// `r` with `fs` prepended to its records when it succeeds.
pub open spec fn prepend_frames(
    fs: Seq<FrameFields>,
    r: Result<Seq<FrameFields>, ParseFailure>,
) -> Result<Seq<FrameFields>, ParseFailure> {
    match r {
        Ok(g) => Ok(fs + g),
        Err(e) => Err(e),
    }
}

proof fn lemma_prepend_assoc(
    done: Seq<FrameFields>,
    f: FrameFields,
    r: Result<Seq<FrameFields>, ParseFailure>,
)
    ensures
        prepend_frames(done, prepend_frames(seq![f], r)) == prepend_frames(done.push(f), r),
{
    match r {
        Ok(g) => {
            assert(done + (seq![f] + g) =~= done.push(f) + g);
        },
        Err(_) => {},
    }
}

/// A body that parses is pure ASCII.
proof fn lemma_parse_body_ascii(body: Seq<char>)
    ensures
        parse_body(body) is Ok ==> vstd::utf8::is_ascii_chars(body),
{
    if parse_body(body) is Ok {
        lemma_dir_tags();
        let dir = if starts_with_tag(body, MessageDirection::Clientbound) {
            MessageDirection::Clientbound
        } else {
            MessageDirection::Serverbound
        };
        let tl = dir_tag(dir).len() as int;
        let after = body.skip(tl);
        let enc = after.skip(6);
        assert forall|i: int| 0 <= i < body.len() implies '\0' <= #[trigger] body[i]
            <= '\u{7f}' by {
            if i < tl {
                assert(body[i] == body.take(tl)[i]);
                assert(body.take(tl)[i] == dir_tag(dir)[i]);
            } else if i < tl + 6 {
                assert(body[i] == after[i - tl]);
                if i - tl == 0 || i - tl == 1 || i - tl == 3 || i - tl == 4 {
                    assert(is_hex_digit_char(after[i - tl]));
                }
            } else {
                assert(body[i] == enc[i - tl - 6]);
                let k = i - tl - 6;
                if enc[k] != ' ' {
                    crate::hexcode::lemma_strip_keeps(enc, k);
                    let w = choose|w: int|
                        0 <= w < crate::hexcode::strip_spaces(enc).len()
                            && crate::hexcode::strip_spaces(enc)[w] == enc[k];
                    assert(is_hex_digit_char(crate::hexcode::strip_spaces(enc)[w]));
                }
            }
        }
    }
}

/// Only pure-ASCII text parses as a channel message.
pub proof fn lemma_parse_ok_ascii(s: Seq<char>)
    ensures
        parse_aggregate(s) is Ok ==> vstd::utf8::is_ascii_chars(s),
    decreases s.len(),
{
    if s.len() == 0 {
    } else if parse_aggregate(s) is Ok {
        let d = find_tilde(s);
        let l = crate::ascii::dec_value(s.take(d)) as int;
        let body = s.subrange(d + 1, d + 1 + l);
        let rest = s.skip(d + 1 + l);
        lemma_parse_ok_ascii(rest);
        lemma_parse_body_ascii(body);
        assert forall|i: int| 0 <= i < s.len() implies '\0' <= #[trigger] s[i] <= '\u{7f}' by {
            if i < d {
                assert(crate::ascii::is_dec_digit_char(s.take(d)[i]));
                assert(s.take(d)[i] == s[i]);
            } else if i == d {
                lemma_find_tilde_props(s);
            } else if i < d + 1 + l {
                assert(s[i] == body[i - d - 1]);
            } else {
                assert(s[i] == rest[i - (d + 1 + l)]);
            }
        }
    }
}

/// Whatever follows it, a canonical record at the head of a text parses
/// back to exactly the fields it was built from, consuming exactly its own
/// characters.
pub proof fn lemma_parse_record_of_record(
    d: MessageDirection,
    p: Part,
    payload: Seq<u8>,
    rest: Seq<char>,
)
    requires
        p.wf(),
    ensures
        ({
            let t = record_chars(d, p, payload);
            let f = FrameFields { direction: d, part: p, payload };
            parse_record(t + rest) == Ok::<(FrameFields, int), ParseFailure>((f, t.len() as int))
        }),
{
    lemma_dir_tags();
    let body = body_chars(d, p, payload);
    let t = record_chars(d, p, payload);
    let s = t + rest;
    let dl = crate::ascii::dec_str(body.len()).len() as int;
    crate::ascii::lemma_dec_str_digits(body.len());
    crate::ascii::lemma_dec_str_value(body.len());
    // The first `~` sits right after the digit run.
    assert forall|m: int| 0 <= m < dl implies s[m] != '~' by {
        assert(s[m] == crate::ascii::dec_str(body.len())[m]);
        assert(crate::ascii::is_dec_digit_char(crate::ascii::dec_str(body.len())[m]));
    }
    assert(s[dl] == '~');
    lemma_find_tilde_at(s, dl);
    assert(s.take(dl) =~= crate::ascii::dec_str(body.len()));
    assert(crate::ascii::dec_value(s.take(dl)) == body.len());
    assert(s.len() == dl + 1 + body.len() + rest.len());
    let sub = s.subrange(dl + 1, dl + 1 + body.len() as int);
    assert(sub =~= body);
    // The body parses: tag, part field, payload.
    crate::hexcode::lemma_hex_round_trip(payload);
    lemma_part_chars_round_trip(p, crate::hexcode::hex_text(payload));
    assert(body.take(dir_tag(d).len() as int) =~= dir_tag(d));
    assert(starts_with_tag(body, d));
    let other = if d is Clientbound {
        MessageDirection::Serverbound
    } else {
        MessageDirection::Clientbound
    };
    assert(!starts_with_tag(body, other)) by {
        if starts_with_tag(body, other) {
            assert(body.take(dir_tag(other).len() as int)[2] == dir_tag(other)[2]);
            assert(body.take(dir_tag(d).len() as int)[2] == dir_tag(d)[2]);
            assert(body[2] == dir_tag(other)[2] && body[2] == dir_tag(d)[2]);
        }
    }
    let after = body.skip(dir_tag(d).len() as int);
    assert(after =~= part_chars(p) + crate::hexcode::hex_text(payload));
    assert(part_field_ok(after));
    assert(part_field_current(after) == p.current && part_field_total(after) == p.total);
    let enc = after.skip(6);
    assert(enc =~= crate::hexcode::hex_text(payload));
    assert(crate::hexcode::is_hex_payload_text(enc));
    assert(crate::hexcode::payload_of_text(enc) == payload);
    let f = FrameFields { direction: d, part: p, payload };
    assert(parse_body(sub) == Ok::<FrameFields, ParseFailure>(f)) by {
        if d is Clientbound {
            assert(starts_with_tag(body, MessageDirection::Clientbound));
        } else {
            assert(!starts_with_tag(body, MessageDirection::Clientbound));
            assert(starts_with_tag(body, MessageDirection::Serverbound));
        }
        assert(Part { current: part_field_current(after) as usize, total: part_field_total(after) as usize } == p);
    }
    assert(t.len() == dl + 1 + body.len());
}

/// A run of canonical records placed back-to-back.
pub open spec fn records_text(fs: Seq<FrameFields>) -> Seq<char>
    decreases fs.len(),
{
    if fs.len() == 0 {
        Seq::empty()
    } else {
        record_chars(fs[0].direction, fs[0].part, fs[0].payload) + records_text(fs.skip(1))
    }
}

/// Every part descriptor in `fs` is in bounds.
pub open spec fn all_parts_wf(fs: Seq<FrameFields>) -> bool {
    forall|i: int| 0 <= i < fs.len() ==> (#[trigger] fs[i]).part.wf()
}

/// A run of canonical records parses back to exactly its fields.
pub proof fn lemma_parse_records_text(fs: Seq<FrameFields>)
    requires
        all_parts_wf(fs),
    ensures
        parse_aggregate(records_text(fs)) == Ok::<Seq<FrameFields>, ParseFailure>(fs),
    decreases fs.len(),
{
    if fs.len() == 0 {
        assert(records_text(fs) =~= Seq::<char>::empty());
        assert(parse_aggregate(records_text(fs)) == Ok::<Seq<FrameFields>, ParseFailure>(
            Seq::empty(),
        ));
        assert(Seq::<FrameFields>::empty() =~= fs);
    } else {
        let f0 = fs[0];
        let t0 = record_chars(f0.direction, f0.part, f0.payload);
        let tail = records_text(fs.skip(1));
        let s = records_text(fs);
        assert(s == t0 + tail);
        lemma_parse_record_of_record(f0.direction, f0.part, f0.payload, tail);
        assert(parse_record(s) == Ok::<(FrameFields, int), ParseFailure>((
            FrameFields { direction: f0.direction, part: f0.part, payload: f0.payload },
            t0.len() as int,
        )));
        assert(FrameFields { direction: f0.direction, part: f0.part, payload: f0.payload } == f0);
        assert(forall|i: int| 0 <= i < fs.skip(1).len() ==> (#[trigger] fs.skip(1)[i]).part.wf());
        lemma_parse_records_text(fs.skip(1));
        assert(t0.len() > 0) by {
            crate::ascii::lemma_dec_str_digits(
                body_chars(f0.direction, f0.part, f0.payload).len(),
            );
        }
        assert(s.skip(t0.len() as int) =~= tail);
        assert(seq![f0] + fs.skip(1) =~= fs);
    }
}

/// Round trip of a whole record: the text built from any payload,
/// direction and part parses back to exactly those fields and nothing
/// else.
pub proof fn lemma_record_round_trip(d: MessageDirection, p: Part, payload: Seq<u8>)
    requires
        p.wf(),
    ensures
        parse_aggregate(record_chars(d, p, payload)) == Ok::<Seq<FrameFields>, ParseFailure>(
            seq![FrameFields { direction: d, part: p, payload }],
        ),
{
    let fs = seq![FrameFields { direction: d, part: p, payload }];
    assert(fs.skip(1) =~= Seq::<FrameFields>::empty());
    assert(records_text(fs.skip(1)) =~= Seq::<char>::empty());
    assert(records_text(fs) =~= record_chars(d, p, payload));
    lemma_parse_records_text(fs);
}

/// Payload bytes one fragment can carry when its encoded text must fit in
/// `slice_size` characters: `k` bytes encode to `3k - 1` characters.
pub open spec fn bytes_per_fragment(slice_size: nat) -> nat {
    ((slice_size + 1) / 3) as nat
}

/// How many fragments a payload of `n` bytes needs at `b` bytes each:
/// `n / b` rounded up.
pub open spec fn fragment_count(n: nat, b: nat) -> nat
    recommends
        b > 0,
{
    if n == 0 {
        0
    } else {
        (((n - 1) / (b as int)) + 1) as nat
    }
}

/// The character budget a record's headers consume: its decimal length
/// prefix with the `~` delimiter, the direction tag, and the fixed part
/// field.
pub open spec fn header_overhead(m: Message) -> nat {
    (m.length@.len() + dir_tag(m.direction).len() + 6) as nat
}

/// The payload slice a fragment carries.
pub open spec fn fragment_payload(payload: Seq<u8>, b: nat, k: int) -> Seq<u8> {
    payload.subrange(
        k * b,
        if (k + 1) * b <= payload.len() {
            ((k + 1) * b) as int
        } else {
            payload.len() as int
        },
    )
}

/// What a successful partition returns: one fragment per `b`-byte slice of
/// the payload, numbered from 1, all sharing the direction and the total,
/// each record text within the budget.
pub open spec fn partition_ok(parts: Seq<Message>, m: Message, limit: nat) -> bool {
    let b = bytes_per_fragment((limit - header_overhead(m)) as nat);
    let n = m.payload@.len();
    &&& limit > header_overhead(m)
    &&& parts.len() == fragment_count(n, b)
    &&& parts.len() <= 255
    &&& forall|k: int|
        0 <= k < parts.len() ==> {
            &&& (#[trigger] parts[k]).wf()
            &&& parts[k].direction == m.direction
            &&& parts[k].part == (Part {
                current: (k + 1) as usize,
                total: parts.len() as usize,
            })
            &&& parts[k].payload@ == fragment_payload(m.payload@, b, k)
            &&& parts[k].text@.len() <= limit
        }
}

/// When a partition fails: the budget does not clear the headers, a
/// fragment cannot carry even one byte, or more than 255 fragments would
/// be needed.
pub open spec fn partition_fails(m: Message, limit: nat) -> bool {
    let b = bytes_per_fragment((limit - header_overhead(m)) as nat);
    let n = m.payload@.len();
    ||| limit <= header_overhead(m)
    ||| n > 0 && (b == 0 || fragment_count(n, b) > 255)
}

/// The payloads of a run of records, concatenated in order.
pub open spec fn payloads_concat(ms: Seq<Message>) -> Seq<u8>
    decreases ms.len(),
{
    if ms.len() == 0 {
        Seq::empty()
    } else {
        ms[0].payload@ + payloads_concat(ms.skip(1))
    }
}

pub proof fn lemma_payloads_concat_add(a: Seq<Message>, b: Seq<Message>)
    ensures
        payloads_concat(a + b) == payloads_concat(a) + payloads_concat(b),
    decreases a.len(),
{
    if a.len() == 0 {
        assert(a + b =~= b);
        assert(payloads_concat(a) + payloads_concat(b) =~= payloads_concat(b));
    } else {
        lemma_payloads_concat_add(a.skip(1), b);
        assert((a + b).skip(1) =~= a.skip(1) + b);
        assert(a[0].payload@ + (payloads_concat(a.skip(1)) + payloads_concat(b)) =~= (a[0].payload@
            + payloads_concat(a.skip(1))) + payloads_concat(b));
    }
}

pub proof fn lemma_payloads_concat_snoc(ms: Seq<Message>, m: Message)
    ensures
        payloads_concat(ms.push(m)) == payloads_concat(ms) + m.payload@,
    decreases ms.len(),
{
    reveal_with_fuel(payloads_concat, 2);
    lemma_payloads_concat_add(ms, seq![m]);
    assert(ms.push(m) =~= ms + seq![m]);
    assert(seq![m].skip(1) =~= Seq::<Message>::empty());
    assert(payloads_concat(seq![m]) =~= m.payload@);
}

/// Merging a partition's fragments in ascending part order reconstructs
/// the original payload exactly.
pub proof fn lemma_fragments_restore_payload(parts: Seq<Message>, payload: Seq<u8>, b: nat)
    requires
        b >= 1,
        parts.len() == fragment_count(payload.len(), b),
        forall|k: int|
            0 <= k < parts.len() ==> (#[trigger] parts[k]).payload@ == fragment_payload(
                payload,
                b,
                k,
            ),
    ensures
        payloads_concat(parts) == payload,
    decreases parts.len(),
{
    reveal_with_fuel(payloads_concat, 2);
    let n = payload.len();
    if parts.len() == 0 {
        assert(n == 0);
        assert(payloads_concat(parts) =~= payload);
    } else if parts.len() == 1 {
        assert(n >= 1);
        assert((n - 1) / (b as int) == 0);
        assert(n - 1 < b) by {
            vstd::arithmetic::div_mod::lemma_fundamental_div_mod((n - 1) as int, b as int);
            vstd::arithmetic::div_mod::lemma_mod_bound((n - 1) as int, b as int);
        }
        assert(parts[0].payload@ == fragment_payload(payload, b, 0));
        assert((0 + 1) * b == b) by (nonlinear_arith);
        assert(fragment_payload(payload, b, 0) =~= payload);
        assert(parts.skip(1).len() == 0);
        assert(payloads_concat(parts) =~= payload);
    } else {
        assert(n >= 1);
        let q = (n - 1) / (b as int);
        let cnt = parts.len() as int;
        assert(q >= 1);
        assert(q == cnt - 1);
        vstd::arithmetic::div_mod::lemma_fundamental_div_mod((n - 1) as int, b as int);
        vstd::arithmetic::div_mod::lemma_mod_bound((n - 1) as int, b as int);
        assert(n - 1 == (b as int) * q + (n - 1) % (b as int));
        assert((b as int) * q <= n - 1);
        assert(n > b) by {
            assert((b as int) * q >= (b as int) * 1) by (nonlinear_arith)
                requires
                    q >= 1,
                    b >= 1,
            ;
        }
        let rest = payload.skip(b as int);
        let tail = parts.skip(1);
        assert(fragment_count(rest.len(), b) == tail.len()) by {
            vstd::arithmetic::div_mod::lemma_div_plus_one((n - b - 1) as int, b as int);
            assert((n - 1) / (b as int) == (n - b - 1) / (b as int) + 1);
        }
        assert forall|k: int| 0 <= k < tail.len() implies (#[trigger] tail[k]).payload@
            == fragment_payload(rest, b, k) by {
            assert(tail[k] == parts[k + 1]);
            assert(parts[k + 1].payload@ == fragment_payload(payload, b, k + 1));
            assert((k + 1) * b == k * b + b) by (nonlinear_arith);
            assert((k + 2) * b == (k + 1) * b + b) by (nonlinear_arith);
            assert((k + 1) * b <= (cnt - 1) * b) by (nonlinear_arith)
                requires
                    0 <= k,
                    k + 1 <= cnt - 1,
                    b >= 1,
            ;
            assert((cnt - 1) * b == (b as int) * q) by (nonlinear_arith)
                requires
                    cnt - 1 == q,
            ;
            assert(k * b >= 0) by (nonlinear_arith)
                requires
                    0 <= k,
                    b >= 1,
            ;
            assert(fragment_payload(payload, b, k + 1) =~= fragment_payload(rest, b, k));
        }
        lemma_fragments_restore_payload(tail, rest, b);
        assert(parts[0].payload@ == fragment_payload(payload, b, 0));
        assert((0 + 1) * b == b) by (nonlinear_arith);
        assert(fragment_payload(payload, b, 0) =~= payload.subrange(0, b as int));
        assert(payload =~= payload.subrange(0, b as int) + rest);
        assert(payloads_concat(parts) =~= payload);
    }
}

/// Position of one record inside a fragmented run: `current` of `total`,
/// both between 1 and 255.
#[derive(Debug, Clone, Copy, PartialEq, Eq, Structural)]
pub struct Part {
    pub current: usize,
    pub total: usize,
}

/// The bounds every constructed `Part` satisfies.
impl Part {
    pub open spec fn wf(&self) -> bool {
        1 <= self.current <= self.total <= 255
    }
}

/// The fixed-width text form of a part: two hexadecimal digits, `/`, two
/// hexadecimal digits, one trailing space (`01/05 `). The constant width
/// lets a decoder always consume exactly six characters.
pub open spec fn part_chars(p: Part) -> Seq<char> {
    seq![
        hex_char((p.current / 16) as u8),
        hex_char((p.current % 16) as u8),
        '/',
        hex_char((p.total / 16) as u8),
        hex_char((p.total % 16) as u8),
        ' ',
    ]
}

/// The first six characters of `s` have the shape of a part field.
pub open spec fn part_field_shape(s: Seq<char>) -> bool {
    &&& s.len() >= 6
    &&& is_hex_digit_char(s[0])
    &&& is_hex_digit_char(s[1])
    &&& s[2] == '/'
    &&& is_hex_digit_char(s[3])
    &&& is_hex_digit_char(s[4])
    &&& s[5] == ' '
}

/// The `current` value written in a part field.
pub open spec fn part_field_current(s: Seq<char>) -> nat {
    (hex_digit_val(s[0]) * 16 + hex_digit_val(s[1])) as nat
}

/// The `total` value written in a part field.
pub open spec fn part_field_total(s: Seq<char>) -> nat {
    (hex_digit_val(s[3]) * 16 + hex_digit_val(s[4])) as nat
}

/// The part denoted by the first six characters of `s`, where `s` has the
/// shape of a part field and the denoted values are in bounds.
pub open spec fn part_field_ok(s: Seq<char>) -> bool {
    &&& part_field_shape(s)
    &&& 1 <= part_field_current(s)
    &&& part_field_current(s) <= part_field_total(s)
}

/// The text of a well-formed part parses back to it.
pub proof fn lemma_part_chars_round_trip(p: Part, rest: Seq<char>)
    requires
        p.wf(),
    ensures
        part_field_ok(part_chars(p) + rest),
        part_field_current(part_chars(p) + rest) == p.current,
        part_field_total(part_chars(p) + rest) == p.total,
        vstd::utf8::is_ascii_chars(part_chars(p)),
{
    let s = part_chars(p) + rest;
    crate::ascii::lemma_hex_char_val((p.current / 16) as u8);
    crate::ascii::lemma_hex_char_val((p.current % 16) as u8);
    crate::ascii::lemma_hex_char_val((p.total / 16) as u8);
    crate::ascii::lemma_hex_char_val((p.total % 16) as u8);
    assert(s[0] == hex_char((p.current / 16) as u8));
    assert(s[1] == hex_char((p.current % 16) as u8));
    assert(s[3] == hex_char((p.total / 16) as u8));
    assert(s[4] == hex_char((p.total % 16) as u8));
    assert(part_field_current(s) == (p.current / 16) * 16 + (p.current % 16));
    assert(part_field_total(s) == (p.total / 16) * 16 + (p.total % 16));
}

impl Part {
    /// Constructs a part; fails exactly when `current` is zero, `current`
    /// exceeds `total`, or `total` exceeds 255.
    pub fn new(current: usize, total: usize) -> (r: Result<Self, MessageError>)
        ensures
            match r {
                Ok(p) => p == (Part { current, total }) && p.wf(),
                Err(e) => e is Partitioning && !(1 <= current <= total <= 255),
            },
    {
        if current == 0 || current > total {
            Err(MessageError::Partitioning("current must be between 1 and total (inclusive)"))
        } else if total > 255 {
            Err(MessageError::Partitioning("total cannot exceed 255 parts"))
        } else {
            Ok(Self { current, total })
        }
    }

    /// Returns a copy of `current`.
    pub fn current(&self) -> (r: usize)
        ensures
            r == self.current,
    {
        self.current
    }

    /// Returns a copy of `total`.
    pub fn total(&self) -> (r: usize)
        ensures
            r == self.total,
    {
        self.total
    }

    /// Encodes the part in its fixed-width text form.
    pub fn to_string(&self) -> (r: String)
        requires
            self.wf(),
        ensures
            r@ == part_chars(*self),
    {
        let mut out: Vec<u8> = Vec::new();
        push_part_chars(&mut out, self);
        crate::ascii::ascii_to_string(out)
    }

    /// Decodes a part from the first six characters of `text`; the decoded
    /// values must satisfy the `Part` bounds, and nothing of `text` beyond
    /// those six characters is read.
    pub fn from_string(text: &str) -> (r: Result<Self, MessageError>)
        ensures
            match r {
                Ok(p) => {
                    &&& part_field_ok(text@)
                    &&& p.wf()
                    &&& p.current == part_field_current(text@)
                    &&& p.total == part_field_total(text@)
                },
                Err(e) => e is Partitioning && !part_field_ok(text@),
            },
    {
        if text.unicode_len() < 6 {
            return Err(MessageError::Partitioning("part field malformed: text too short"));
        }
        let c0 = text.get_char(0);
        let c1 = text.get_char(1);
        let c2 = text.get_char(2);
        let c3 = text.get_char(3);
        let c4 = text.get_char(4);
        let c5 = text.get_char(5);
        if c2 != '/' || c5 != ' ' {
            return Err(MessageError::Partitioning("part field malformed: wrong separators"));
        }
        let h0 = match hex_val_of_char(c0) {
            Some(v) => v,
            None => {
                return Err(MessageError::Partitioning("part field malformed: not hexadecimal"));
            },
        };
        let h1 = match hex_val_of_char(c1) {
            Some(v) => v,
            None => {
                return Err(MessageError::Partitioning("part field malformed: not hexadecimal"));
            },
        };
        let h3 = match hex_val_of_char(c3) {
            Some(v) => v,
            None => {
                return Err(MessageError::Partitioning("part field malformed: not hexadecimal"));
            },
        };
        let h4 = match hex_val_of_char(c4) {
            Some(v) => v,
            None => {
                return Err(MessageError::Partitioning("part field malformed: not hexadecimal"));
            },
        };
        let current: usize = (h0 as usize) * 16 + (h1 as usize);
        let total: usize = (h3 as usize) * 16 + (h4 as usize);
        match Part::new(current, total) {
            Ok(p) => Ok(p),
            Err(e) => Err(e),
        }
    }

    /// Width of the fixed part field: six characters, as in `01/01 `.
    pub fn get_standard_string_length() -> (r: usize)
        ensures
            r == 6,
            forall|p: Part| #[trigger] part_chars(p).len() == r,
    {
        6
    }
}

/// Does the character range `[start, end)` of `bytes` begin with the
/// marker string of `d`?
fn range_has_tag_prefix(bytes: &[u8], start: usize, end: usize, d: MessageDirection) -> (r: bool)
    requires
        start <= end <= bytes@.len(),
    ensures
        r == starts_with_tag(
            crate::ascii::ascii_view(bytes@).subrange(start as int, end as int),
            d,
        ),
{
    let ghost body = crate::ascii::ascii_view(bytes@).subrange(start as int, end as int);
    proof {
        lemma_dir_tags();
    }
    let tag: &str = d.to_string();
    let tag_bytes = tag.as_bytes_vec();
    proof {
        broadcast use vstd::string::is_ascii_spec_bytes;

        assert(tag.is_ascii());
        assert(tag_bytes@ =~= Seq::new(tag@.len(), |i: int| tag@[i] as u8));
    }
    let tl = tag_bytes.len();
    if end - start < tl {
        return false;
    }
    let mut i: usize = 0;
    while i < tl
        invariant
            0 <= i <= tl,
            tl == tag_bytes@.len() == dir_tag(d).len(),
            start <= end <= bytes@.len(),
            end - start >= tl,
            body == crate::ascii::ascii_view(bytes@).subrange(start as int, end as int),
            forall|j: int| 0 <= j < tag_bytes@.len() ==> tag_bytes@[j] == dir_tag(d)[j] as u8,
            forall|j: int| 0 <= j < tag_bytes@.len() ==> dir_tag(d)[j] <= '\u{7f}',
            forall|j: int| 0 <= j < i ==> body[j] == dir_tag(d)[j],
        decreases tl - i,
    {
        let a = *vstd::slice::slice_index_get(bytes, start + i);
        let b = tag_bytes[i];
        proof {
            assert(body[i as int] == bytes@[start + i] as char);
        }
        proof {
            assert(dir_tag(d)[i as int] <= '\u{7f}');
            crate::ascii::lemma_ascii_char_roundtrip(dir_tag(d)[i as int]);
        }
        if a != b {
            proof {
                assert(body[i as int] != dir_tag(d)[i as int]);
                assert(body.take(dir_tag(d).len() as int)[i as int] != dir_tag(d)[i as int]);
            }
            return false;
        }
        proof {
            assert(body[i as int] == dir_tag(d)[i as int]);
        }
        i = i + 1;
    }
    proof {
        assert(body.take(dir_tag(d).len() as int) =~= dir_tag(d));
    }
    true
}

/// Parses one record of `bytes` (characters given as ASCII codes) starting
/// at `off`, returning the record and how many characters it occupies.
#[verifier::rlimit(60)]
fn parse_one_record(bytes: &[u8], off: usize) -> (r: Result<(Message, usize), MessageError>)
    requires
        off < bytes@.len(),
    ensures
        ({
            let rem = crate::ascii::ascii_view(bytes@).skip(off as int);
            match r {
                Ok((msg, c)) => {
                    &&& parse_record(rem) is Ok
                    &&& parse_record(rem)->Ok_0.1 == c
                    &&& 2 <= c
                    &&& off + c <= bytes@.len()
                    &&& msg.wf()
                    &&& msg.direction == parse_record(rem)->Ok_0.0.direction
                    &&& msg.part == parse_record(rem)->Ok_0.0.part
                    &&& msg.payload@ == parse_record(rem)->Ok_0.0.payload
                },
                Err(e) => parse_record(rem) is Err && error_matches(e, parse_record(rem)->Err_0),
            }
        }),
{
    let n = bytes.len();
    let ghost s_all = crate::ascii::ascii_view(bytes@);
    let ghost rem = s_all.skip(off as int);
    let mut j: usize = off;
    let mut acc: u128 = 0;
    let mut too_big = false;
    assert(rem.take(0) =~= Seq::<char>::empty());
    loop
        invariant_except_break
            off <= j <= n,
            n == bytes@.len(),
            off < n,
            s_all == crate::ascii::ascii_view(bytes@),
            rem == s_all.skip(off as int),
            forall|m: int| 0 <= m < j - off ==> #[trigger] rem[m] != '~',
            crate::ascii::all_dec_digits(rem.take(j - off)),
            !too_big ==> acc == crate::ascii::dec_value(rem.take(j - off)) && acc <= n as u128,
            too_big ==> crate::ascii::dec_value(rem.take(j - off)) > n as nat,
        ensures
            off <= j < n,
            find_tilde(rem) == j - off,
            crate::ascii::all_dec_digits(rem.take(j - off)),
            !too_big ==> acc == crate::ascii::dec_value(rem.take(j - off)) && acc <= n as u128,
            too_big ==> crate::ascii::dec_value(rem.take(j - off)) > n as nat,
        decreases n - j,
    {
        if j == n {
            proof {
                lemma_find_tilde_none(rem);
            }
            return Err(MessageError::Aggregation("unexpected end of text while parsing length"));
        }
        let b = *vstd::slice::slice_index_get(bytes, j);
        proof {
            assert(rem[j - off] == bytes@[j as int] as char);
        }
        if b == 126 {
            proof {
                lemma_find_tilde_at(rem, j - off);
            }
            break ;
        }
        if !(48 <= b && b <= 57) {
            proof {
                if find_tilde(rem) >= 0 {
                    lemma_find_tilde_props(rem);
                    let d = find_tilde(rem);
                    assert(rem[j - off] != '~');
                    assert(d > j - off);
                    assert(!crate::ascii::is_dec_digit_char(rem.take(d)[j - off]));
                }
            }
            return Err(MessageError::Aggregation("no digits found for record length"));
        }
        let ghost prev = rem.take(j - off);
        proof {
            assert(rem.take(j - off + 1).drop_last() =~= prev);
            assert(rem.take(j - off + 1).last() == rem[j - off]);
            assert(crate::ascii::dec_value(rem.take(j - off + 1)) == crate::ascii::dec_value(prev)
                * 10 + crate::ascii::dec_digit_val(rem[j - off]));
            assert(crate::ascii::is_dec_digit_char(rem[j - off]));
            assert(crate::ascii::all_dec_digits(rem.take(j - off + 1))) by {
                assert(forall|m: int|
                    0 <= m < j - off ==> rem.take(j - off + 1)[m] == #[trigger] prev[m]);
            }
        }
        if too_big {
        } else if acc > (n as u128) / 10 {
            proof {
                vstd::arithmetic::div_mod::lemma_fundamental_div_mod(n as int, 10);
                vstd::arithmetic::div_mod::lemma_mod_bound(n as int, 10);
                assert(10 * (acc as int) > 10 * ((n as int) / 10)) by (nonlinear_arith)
                    requires
                        acc as int > (n as int) / 10,
                ;
                assert(crate::ascii::dec_value(rem.take(j - off + 1)) > n as nat);
            }
            too_big = true;
        } else {
            proof {
                vstd::arithmetic::div_mod::lemma_fundamental_div_mod(n as int, 10);
                vstd::arithmetic::div_mod::lemma_mod_bound(n as int, 10);
                assert(10 * (acc as int) <= 10 * ((n as int) / 10)) by (nonlinear_arith)
                    requires
                        acc as int <= (n as int) / 10,
                ;
            }
            acc = acc * 10 + ((b - 48) as u128);
            if acc > n as u128 {
                too_big = true;
            }
        }
        j = j + 1;
    }
    // `j` holds the index of the `~`; the digit run before it is the length.
    let ghost d = (j - off) as int;
    assert(find_tilde(rem) == d);
    if j == off {
        return Err(MessageError::Aggregation("no digits found for record length"));
    }
    let body_avail = n - j - 1;
    if too_big || acc > body_avail as u128 {
        proof {
            assert(rem.len() < d + 1 + crate::ascii::dec_value(rem.take(d)));
        }
        return Err(MessageError::Aggregation("record length overruns the text"));
    }
    let l = acc as usize;
    let body_start = j + 1;
    let body_end = body_start + l;
    let ghost body = rem.subrange(d + 1, d + 1 + l as int);
    proof {
        assert(body =~= s_all.subrange(body_start as int, body_end as int));
    }
    let is_cb = range_has_tag_prefix(bytes, body_start, body_end, MessageDirection::Clientbound);
    let is_sb = if is_cb {
        false
    } else {
        range_has_tag_prefix(bytes, body_start, body_end, MessageDirection::Serverbound)
    };
    proof {
        lemma_dir_tags();
    }
    if !is_cb && !is_sb {
        return Err(MessageError::Direction("unknown direction header"));
    }
    let dir = if is_cb {
        MessageDirection::Clientbound
    } else {
        MessageDirection::Serverbound
    };
    let tag_len: usize = if is_cb {
        20
    } else {
        18
    };
    proof {
        if is_cb {
            assert(body.take(20)[2] == 'S');
            assert(!starts_with_tag(body, MessageDirection::Serverbound)) by {
                if starts_with_tag(body, MessageDirection::Serverbound) {
                    assert(body.take(18)[2] == 'C');
                    assert(body[2] == 'S' && body[2] == 'C');
                }
            }
        }
    }
    let ghost after = body.skip(tag_len as int);
    let ps = body_start + tag_len;
    proof {
        assert(after =~= s_all.subrange(ps as int, body_end as int));
    }
    assert(ps <= body_end);
    if body_end - ps < 6 {
        return Err(MessageError::Partitioning("part field malformed: text too short"));
    }
    let b0 = *vstd::slice::slice_index_get(bytes, ps);
    let b1 = *vstd::slice::slice_index_get(bytes, ps + 1);
    let b2 = *vstd::slice::slice_index_get(bytes, ps + 2);
    let b3 = *vstd::slice::slice_index_get(bytes, ps + 3);
    let b4 = *vstd::slice::slice_index_get(bytes, ps + 4);
    let b5 = *vstd::slice::slice_index_get(bytes, ps + 5);
    proof {
        assert(after[0] == bytes@[ps as int] as char);
        assert(after[1] == bytes@[ps + 1] as char);
        assert(after[2] == bytes@[ps + 2] as char);
        assert(after[3] == bytes@[ps + 3] as char);
        assert(after[4] == bytes@[ps + 4] as char);
        assert(after[5] == bytes@[ps + 5] as char);
    }
    if b2 != 47 || b5 != 32 {
        return Err(MessageError::Partitioning("part field malformed: wrong separators"));
    }
    let h0 = match crate::hexcode::hex_val_of_byte(b0) {
        Some(v) => v,
        None => {
            return Err(MessageError::Partitioning("part field malformed: not hexadecimal"));
        },
    };
    let h1 = match crate::hexcode::hex_val_of_byte(b1) {
        Some(v) => v,
        None => {
            return Err(MessageError::Partitioning("part field malformed: not hexadecimal"));
        },
    };
    let h3 = match crate::hexcode::hex_val_of_byte(b3) {
        Some(v) => v,
        None => {
            return Err(MessageError::Partitioning("part field malformed: not hexadecimal"));
        },
    };
    let h4 = match crate::hexcode::hex_val_of_byte(b4) {
        Some(v) => v,
        None => {
            return Err(MessageError::Partitioning("part field malformed: not hexadecimal"));
        },
    };
    let current: usize = (h0 as usize) * 16 + (h1 as usize);
    let total: usize = (h3 as usize) * 16 + (h4 as usize);
    if current == 0 || current > total {
        return Err(MessageError::Partitioning("current must be between 1 and total (inclusive)"));
    }
    let part = Part { current, total };
    assert(part_field_ok(after));
    assert(part.current == part_field_current(after) && part.total == part_field_total(after));
    let ghost enc = after.skip(6);
    proof {
        assert(enc =~= s_all.subrange(ps + 6, body_end as int));
        assert(crate::ascii::ascii_view(bytes@.subrange(ps + 6, body_end as int)) =~= enc);
    }
    match crate::hexcode::decode_hex_range(bytes, ps + 6, body_end) {
        None => Err(MessageError::Decode("failed to decode hex")),
        Some(v) => {
            let msg = Message::with_part(v.as_slice(), dir, part);
            let c = body_end - off;
            proof {
                assert(c == d + 1 + l);
            }
            Ok((msg, c))
        },
    }
}

/// Splits over-budget records into fragments and merges fragments back.
pub struct Partitioner {}

impl Partitioner {
    /// Splits `message` into fragments whose record texts each fit within
    /// `limit` characters. The payload is cut at whole-byte boundaries, so
    /// every fragment's text decodes on its own; fragment `k + 1` of the
    /// result carries the `k`-th slice of the payload. Fails exactly when
    /// the budget does not clear the record headers, a fragment could not
    /// carry even one payload byte, or more than 255 fragments would be
    /// needed. A payload that is empty yields no fragments.
    pub fn partition(message: Message, limit: usize) -> (r: Result<Vec<Message>, MessageError>)
        requires
            message.wf(),
        ensures
            match r {
                Ok(parts) => partition_ok(parts@, message, limit as nat) && !partition_fails(
                    message,
                    limit as nat,
                ),
                Err(e) => e is Partitioning && partition_fails(message, limit as nat),
            },
    {
        Self::partition_ref(&message, limit)
    }

    /// As `partition`, reading the record in place.
    pub(crate) fn partition_ref(message: &Message, limit: usize) -> (r: Result<
        Vec<Message>,
        MessageError,
    >)
        requires
            message.wf(),
        ensures
            match r {
                Ok(parts) => partition_ok(parts@, *message, limit as nat) && !partition_fails(
                    *message,
                    limit as nat,
                ),
                Err(e) => e is Partitioning && partition_fails(*message, limit as nat),
            },
    {
        let ghost m = *message;
        let tag_len: usize = match message.direction {
            crate::message::MessageDirection::Clientbound => 20,
            crate::message::MessageDirection::Serverbound => 18,
        };
        proof {
            lemma_dir_tags();
            crate::ascii::lemma_dec_str_digits(
                body_chars(m.direction, m.part, m.payload@).len(),
            );
        }
        let hl = message.length.as_str().unicode_len();
        assert(hl >= 2);
        if limit <= hl {
            return Err(MessageError::Partitioning("length limit is too small for the header"));
        }
        let rem = limit - hl;
        if rem <= tag_len + 6 {
            return Err(MessageError::Partitioning("length limit is too small for the header"));
        }
        let slice_size = rem - (tag_len + 6);
        assert(slice_size == limit - header_overhead(m));
        let b = (slice_size + 1) / 3;
        assert(b == bytes_per_fragment((limit - header_overhead(m)) as nat));
        let n = message.payload.len();
        if n == 0 {
            let parts: Vec<Message> = Vec::new();
            assert(partition_ok(parts@, m, limit as nat));
            return Ok(parts);
        }
        if b == 0 {
            return Err(MessageError::Partitioning("no room for payload within the limit"));
        }
        let total = (n - 1) / b + 1;
        assert(total == fragment_count(m.payload@.len(), b as nat));
        if total > 255 {
            return Err(MessageError::Partitioning("total cannot exceed 255 parts"));
        }
        proof {
            vstd::arithmetic::div_mod::lemma_fundamental_div_mod((n - 1) as int, b as int);
            vstd::arithmetic::div_mod::lemma_mod_bound((n - 1) as int, b as int);
            assert((n - 1) as int == (b as int) * ((total - 1) as int) + (n - 1) as int % (
            b as int));
            assert((total - 1) * b == (b as int) * ((total - 1) as int));
        }
        let mut parts: Vec<Message> = Vec::new();
        let mut k: usize = 0;
        while k < total
            invariant
                message == m,
                m.wf(),
                1 <= b,
                1 <= total <= 255,
                n == m.payload@.len(),
                n >= 1,
                hl == m.length@.len(),
                tag_len == dir_tag(m.direction).len(),
                slice_size == limit - header_overhead(m),
                limit > header_overhead(m),
                b == bytes_per_fragment((limit - header_overhead(m)) as nat),
                total == fragment_count(n as nat, b as nat),
                (total - 1) * b <= n - 1,
                0 <= k <= total,
                parts@.len() == k,
                forall|j: int|
                    0 <= j < k ==> {
                        &&& (#[trigger] parts@[j]).wf()
                        &&& parts@[j].direction == m.direction
                        &&& parts@[j].part == (Part { current: (j + 1) as usize, total: total })
                        &&& parts@[j].payload@ == fragment_payload(m.payload@, b as nat, j)
                        &&& parts@[j].text@.len() <= limit
                    },
            decreases total - k,
        {
            proof {
                assert(k * b <= (total - 1) * b) by (nonlinear_arith)
                    requires
                        0 <= k <= total - 1,
                        b >= 1,
                ;
            }
            let start = k * b;
            let end = if n - start > b {
                start + b
            } else {
                n
            };
            proof {
                assert((k + 1) * b == k * b + b) by (nonlinear_arith);
                assert(end == if (k + 1) * b <= n {
                    ((k + 1) * b) as int
                } else {
                    n as int
                });
            }
            let chunk = vstd::slice::slice_subrange(message.payload.as_slice(), start, end);
            let part = Part { current: k + 1, total };
            let frag = Message::with_part(chunk, message.direction, part);
            proof {
                let chunk_len = end - start;
                assert(1 <= chunk_len <= b);
                crate::hexcode::lemma_hex_text_len(chunk@);
                crate::hexcode::lemma_hex_text_len(m.payload@);
                vstd::arithmetic::div_mod::lemma_fundamental_div_mod(
                    (slice_size + 1) as int,
                    3,
                );
                vstd::arithmetic::div_mod::lemma_mod_bound((slice_size + 1) as int, 3);
                assert(3 * ((slice_size + 1) as int / 3) <= slice_size + 1);
                let bl_frag = body_chars(m.direction, part, chunk@).len();
                let bl_full = body_chars(m.direction, m.part, m.payload@).len();
                assert(bl_frag == tag_len + 6 + 3 * chunk_len - 1);
                assert(bl_full == tag_len + 6 + 3 * n - 1);
                assert(3 * chunk_len <= 3 * b) by (nonlinear_arith)
                    requires
                        chunk_len <= b,
                ;
                assert(3 * chunk_len <= 3 * n) by (nonlinear_arith)
                    requires
                        chunk_len <= n,
                ;
                assert(bl_frag <= bl_full);
                crate::ascii::lemma_dec_str_len_mono(bl_frag, bl_full);
                assert(m.length@.len() == crate::ascii::dec_str(bl_full).len() + 1);
                assert(frag.text@.len() == crate::ascii::dec_str(bl_frag).len() + 1 + bl_frag);
                assert(frag.text@.len() <= limit);
            }
            parts.push(frag);
            k = k + 1;
        }
        Ok(parts)
    }

    /// Merges the payloads of `parts`, in the order given, into one whole
    /// record that carries their concatenation and the first record's
    /// direction. Fails exactly when `parts` is empty.
    pub fn merge(parts: &[Message]) -> (r: Result<Message, MessageError>)
        ensures
            match r {
                Ok(m) => {
                    &&& parts@.len() > 0
                    &&& m.wf()
                    &&& m.direction == parts@[0].direction
                    &&& m.part == (Part { current: 1, total: 1 })
                    &&& m.payload@ == payloads_concat(parts@)
                },
                Err(e) => e is Merging && parts@.len() == 0,
            },
    {
        if parts.len() == 0 {
            return Err(MessageError::Merging("no parts to merge"));
        }
        let direction = vstd::slice::slice_index_get(parts, 0).direction;
        let mut buffer: Vec<u8> = Vec::new();
        let mut i: usize = 0;
        assert(buffer@ =~= payloads_concat(parts@.take(0)));
        while i < parts.len()
            invariant
                0 <= i <= parts@.len(),
                buffer@ == payloads_concat(parts@.take(i as int)),
            decreases parts@.len() - i,
        {
            let p = vstd::slice::slice_index_get(parts, i);
            crate::hexcode::push_bytes(&mut buffer, p.payload.as_slice());
            proof {
                lemma_payloads_concat_snoc(parts@.take(i as int), parts@[i as int]);
                assert(parts@.take(i + 1) =~= parts@.take(i as int).push(parts@[i as int]));
            }
            i = i + 1;
        }
        proof {
            assert(parts@.take(parts@.len() as int) =~= parts@);
        }
        Ok(Message::from_bytes(buffer.as_slice(), direction))
    }
}

/// The character budget of one channel message, kept safely under the
/// platform's hard 2000-character limit.
pub const MAX_MESSAGE_LENGTH_ALLOWED: usize = 1900;

/// The record texts of a run of records.
pub open spec fn texts_of(ms: Seq<Message>) -> Seq<Seq<char>> {
    ms.map_values(|m: Message| m.text@)
}

/// The record texts `partition` gives the fragments of `m` under `limit`.
pub open spec fn spec_fragment_texts(m: Message, limit: nat) -> Seq<Seq<char>> {
    let b = bytes_per_fragment((limit - header_overhead(m)) as nat);
    let total = fragment_count(m.payload@.len(), b);
    Seq::new(
        total,
        |k: int|
            record_chars(
                m.direction,
                Part { current: (k + 1) as usize, total: total as usize },
                fragment_payload(m.payload@, b, k),
            ),
    )
}

/// The channel texts one outbound record becomes: its own text when it
/// fits the budget, the texts of its fragments otherwise. A record is
/// partitioned only when it is oversized, so nothing of an in-budget
/// record — an empty payload included — is ever lost.
pub open spec fn outgoing_texts(m: Message, limit: nat) -> Seq<Seq<char>> {
    if m.text@.len() <= limit {
        seq![m.text@]
    } else {
        spec_fragment_texts(m, limit)
    }
}

/// The outgoing texts of a whole run of records, in order.
pub open spec fn all_outgoing_texts(ms: Seq<Message>, limit: nat) -> Seq<Seq<char>>
    decreases ms.len(),
{
    if ms.len() == 0 {
        Seq::empty()
    } else {
        outgoing_texts(ms[0], limit) + all_outgoing_texts(ms.skip(1), limit)
    }
}

proof fn lemma_all_outgoing_texts_snoc(ms: Seq<Message>, m: Message, limit: nat)
    ensures
        all_outgoing_texts(ms.push(m), limit) == all_outgoing_texts(ms, limit)
            + outgoing_texts(m, limit),
    decreases ms.len(),
{
    reveal_with_fuel(all_outgoing_texts, 2);
    if ms.len() == 0 {
        assert(ms.push(m) =~= seq![m]);
        assert(seq![m].skip(1) =~= Seq::<Message>::empty());
        assert(all_outgoing_texts(ms.push(m), limit) =~= all_outgoing_texts(ms, limit)
            + outgoing_texts(m, limit));
    } else {
        lemma_all_outgoing_texts_snoc(ms.skip(1), m, limit);
        assert(ms.push(m).skip(1) =~= ms.skip(1).push(m));
        assert(all_outgoing_texts(ms.push(m), limit) =~= all_outgoing_texts(ms, limit)
            + outgoing_texts(m, limit));
    }
}

/// The greedy packing of `texts` under `budget`, with `buf` already
/// accumulated: a text that would overflow the open buffer flushes it
/// first; whatever remains is flushed at the end.
pub open spec fn greedy_pack(texts: Seq<Seq<char>>, budget: nat, buf: Seq<char>) -> Seq<Seq<char>>
    decreases texts.len(),
{
    if texts.len() == 0 {
        if buf.len() == 0 {
            Seq::empty()
        } else {
            seq![buf]
        }
    } else if buf.len() + texts[0].len() > budget {
        seq![buf] + greedy_pack(texts.skip(1), budget, texts[0])
    } else {
        greedy_pack(texts.skip(1), budget, buf + texts[0])
    }
}

/// Merging what a successful partition returned, in ascending part order,
/// reconstructs the partitioned record's payload exactly; every fragment
/// shares one total, which never exceeds 255.
pub proof fn lemma_partition_merge_inverse(parts: Seq<Message>, m: Message, limit: nat)
    requires
        partition_ok(parts, m, limit),
        !partition_fails(m, limit),
    ensures
        payloads_concat(parts) == m.payload@,
        forall|k: int| 0 <= k < parts.len() ==> (#[trigger] parts[k]).part.total == parts.len(),
        parts.len() <= 255,
{
    let b = bytes_per_fragment((limit - header_overhead(m)) as nat);
    let n = m.payload@.len();
    if n == 0 {
        assert(parts.len() == 0);
        assert(payloads_concat(parts) =~= m.payload@);
    } else {
        assert(b >= 1);
        lemma_fragments_restore_payload(parts, m.payload@, b);
    }
}

/// The defining fields of each record in a run.
pub open spec fn fields_of(ms: Seq<Message>) -> Seq<FrameFields> {
    ms.map_values(
        |m: Message| FrameFields { direction: m.direction, part: m.part, payload: m.payload@ },
    )
}

/// What every channel message of a packed run parses to, concatenated.
pub open spec fn flatten_parses(outs: Seq<Seq<char>>) -> Seq<FrameFields>
    decreases outs.len(),
{
    if outs.len() == 0 {
        Seq::empty()
    } else {
        (match parse_aggregate(outs[0]) {
            Ok(fs) => fs,
            Err(_) => Seq::empty(),
        }) + flatten_parses(outs.skip(1))
    }
}

/// Every channel message of the run parses.
pub open spec fn all_parse_ok(outs: Seq<Seq<char>>) -> bool {
    forall|j: int| 0 <= j < outs.len() ==> parse_aggregate(#[trigger] outs[j]) is Ok
}

proof fn lemma_records_text_add(a: Seq<FrameFields>, b: Seq<FrameFields>)
    ensures
        records_text(a + b) == records_text(a) + records_text(b),
    decreases a.len(),
{
    if a.len() == 0 {
        assert(a + b =~= b);
        assert(records_text(a) + records_text(b) =~= records_text(b));
    } else {
        lemma_records_text_add(a.skip(1), b);
        assert((a + b).skip(1) =~= a.skip(1) + b);
        assert(record_chars(a[0].direction, a[0].part, a[0].payload) + (records_text(a.skip(1))
            + records_text(b)) =~= (record_chars(a[0].direction, a[0].part, a[0].payload)
            + records_text(a.skip(1))) + records_text(b));
    }
}

proof fn lemma_records_text_snoc(fs: Seq<FrameFields>, f: FrameFields)
    ensures
        records_text(fs.push(f)) == records_text(fs) + record_chars(f.direction, f.part, f.payload),
{
    reveal_with_fuel(records_text, 2);
    lemma_records_text_add(fs, seq![f]);
    assert(fs.push(f) =~= fs + seq![f]);
    assert(seq![f].skip(1) =~= Seq::<FrameFields>::empty());
    assert(records_text(seq![f]) =~= record_chars(f.direction, f.part, f.payload));
}

/// Greedy packing preserves parseability: every packed channel message
/// parses, and the parses concatenate to the accumulated fields followed
/// by those of the texts still to pack.
#[verifier::rlimit(100)]
#[verifier::spinoff_prover]
proof fn lemma_greedy_parse(
    texts: Seq<Seq<char>>,
    fields: Seq<FrameFields>,
    budget: nat,
    buf: Seq<char>,
    buffields: Seq<FrameFields>,
)
    requires
        texts.len() == fields.len(),
        forall|k: int|
            0 <= k < texts.len() ==> #[trigger] texts[k] == record_chars(
                fields[k].direction,
                fields[k].part,
                fields[k].payload,
            ),
        all_parts_wf(fields),
        all_parts_wf(buffields),
        buf == records_text(buffields),
        (buf.len() == 0) == (buffields.len() == 0),
    ensures
        all_parse_ok(greedy_pack(texts, budget, buf)),
        flatten_parses(greedy_pack(texts, budget, buf)) == buffields + fields,
    decreases texts.len(),
{
    reveal_with_fuel(flatten_parses, 2);
    if texts.len() == 0 {
        if buf.len() == 0 {
            assert(greedy_pack(texts, budget, buf) =~= Seq::<Seq<char>>::empty());
            assert(buffields + fields =~= Seq::<FrameFields>::empty());
        } else {
            lemma_parse_records_text(buffields);
            let outs = greedy_pack(texts, budget, buf);
            assert(outs =~= seq![buf]);
            assert(outs.skip(1) =~= Seq::<Seq<char>>::empty());
            assert(flatten_parses(outs) =~= buffields + fields);
        }
    } else {
        let f0 = fields[0];
        let t0 = texts[0];
        assert(t0 == record_chars(f0.direction, f0.part, f0.payload));
        assert(t0.len() > 0) by {
            crate::ascii::lemma_dec_str_digits(body_chars(f0.direction, f0.part, f0.payload).len());
        }
        assert(texts.skip(1).len() == fields.skip(1).len());
        assert forall|k: int| 0 <= k < texts.skip(1).len() implies #[trigger] texts.skip(1)[k]
            == record_chars(
            fields.skip(1)[k].direction,
            fields.skip(1)[k].part,
            fields.skip(1)[k].payload,
        ) by {
            assert(texts.skip(1)[k] == texts[k + 1]);
            assert(fields.skip(1)[k] == fields[k + 1]);
        }
        assert(all_parts_wf(fields.skip(1))) by {
            assert(forall|i: int|
                0 <= i < fields.skip(1).len() ==> (#[trigger] fields.skip(1)[i]) == fields[i + 1]);
        }
        if buf.len() + t0.len() > budget {
            // The open buffer is flushed; the record starts a new one.
            lemma_parse_records_text(buffields);
            assert(records_text(seq![f0]) =~= t0) by {
                reveal_with_fuel(records_text, 2);
                assert(seq![f0].skip(1) =~= Seq::<FrameFields>::empty());
            }
            assert(all_parts_wf(seq![f0]));
            lemma_greedy_parse(texts.skip(1), fields.skip(1), budget, t0, seq![f0]);
            let rest = greedy_pack(texts.skip(1), budget, t0);
            let outs = greedy_pack(texts, budget, buf);
            assert(outs == seq![buf] + rest);
            assert(outs[0] == buf);
            assert(outs.skip(1) =~= rest);
            assert forall|j: int| 0 <= j < outs.len() implies parse_aggregate(
                #[trigger] outs[j],
            ) is Ok by {
                if j > 0 {
                    assert(outs[j] == rest[j - 1]);
                }
            }
            assert(flatten_parses(outs) == buffields + (seq![f0] + fields.skip(1)));
            assert(seq![f0] + fields.skip(1) =~= fields);
        } else {
            // The record joins the open buffer.
            lemma_records_text_snoc(buffields, f0);
            assert(buf + t0 == records_text(buffields.push(f0)));
            assert(all_parts_wf(buffields.push(f0))) by {
                assert(forall|i: int|
                    0 <= i < buffields.len() ==> buffields.push(f0)[i] == #[trigger] buffields[i]);
                assert(buffields.push(f0)[buffields.len() as int] == f0);
            }
            lemma_greedy_parse(texts.skip(1), fields.skip(1), budget, buf + t0, buffields.push(f0));
            assert(buffields.push(f0) + fields.skip(1) =~= buffields + fields);
        }
    }
}

/// Packing a run of whole, in-budget records and then parsing every
/// channel message of the packing gives back exactly the original records'
/// fields, in their original order.
pub proof fn lemma_aggregate_disaggregate_inverse(msgs: Seq<Message>, budget: nat)
    requires
        forall|k: int|
            0 <= k < msgs.len() ==> {
                &&& (#[trigger] msgs[k]).wf()
                &&& msgs[k].part == (Part { current: 1, total: 1 })
                &&& msgs[k].text@.len() <= budget
            },
    ensures
        all_parse_ok(greedy_pack(all_outgoing_texts(msgs, budget), budget, Seq::empty())),
        flatten_parses(greedy_pack(all_outgoing_texts(msgs, budget), budget, Seq::empty()))
            == fields_of(msgs),
{
    lemma_all_in_budget_texts(msgs, budget);
    assert forall|k: int| 0 <= k < texts_of(msgs).len() implies #[trigger] texts_of(msgs)[k]
        == record_chars(
        fields_of(msgs)[k].direction,
        fields_of(msgs)[k].part,
        fields_of(msgs)[k].payload,
    ) by {
        assert(texts_of(msgs)[k] == msgs[k].text@);
        assert(fields_of(msgs)[k] == FrameFields {
            direction: msgs[k].direction,
            part: msgs[k].part,
            payload: msgs[k].payload@,
        });
    }
    assert(all_parts_wf(fields_of(msgs))) by {
        assert(forall|i: int|
            0 <= i < msgs.len() ==> (#[trigger] fields_of(msgs)[i]).part == msgs[i].part);
    }
    assert(all_parts_wf(Seq::<FrameFields>::empty()));
    assert(records_text(Seq::<FrameFields>::empty()) =~= Seq::<char>::empty());
    lemma_greedy_parse(
        texts_of(msgs),
        fields_of(msgs),
        budget,
        Seq::empty(),
        Seq::empty(),
    );
    assert(Seq::<FrameFields>::empty() + fields_of(msgs) =~= fields_of(msgs));
}

/// In-budget records go out as their own texts, so the outgoing texts of a
/// run of such records are its own record texts.
proof fn lemma_all_in_budget_texts(msgs: Seq<Message>, budget: nat)
    requires
        forall|k: int| 0 <= k < msgs.len() ==> (#[trigger] msgs[k]).text@.len() <= budget,
    ensures
        all_outgoing_texts(msgs, budget) == texts_of(msgs),
    decreases msgs.len(),
{
    if msgs.len() == 0 {
        assert(all_outgoing_texts(msgs, budget) =~= texts_of(msgs));
    } else {
        assert(forall|k: int|
            0 <= k < msgs.skip(1).len() ==> (#[trigger] msgs.skip(1)[k]) == msgs[k + 1]);
        lemma_all_in_budget_texts(msgs.skip(1), budget);
        assert(all_outgoing_texts(msgs, budget) =~= texts_of(msgs)) by {
            assert(texts_of(msgs.skip(1)) =~= texts_of(msgs).skip(1));
            assert(all_outgoing_texts(msgs, budget) == seq![msgs[0].text@] + all_outgoing_texts(
                msgs.skip(1),
                budget,
            ));
        }
    }
}

/// The channel texts one record goes out as: its own record text when it
/// fits `budget`, the texts of its fragments otherwise. Fails exactly when
/// the record is over budget and cannot be partitioned.
pub(crate) fn record_outgoing_texts(message: &Message, budget: usize) -> (r: Result<
    Vec<String>,
    MessageError,
>)
    requires
        message.wf(),
    ensures
        match r {
            Ok(texts) => {
                &&& texts@.map_values(|t: String| t@) == outgoing_texts(*message, budget as nat)
                &&& (message.text@.len() > budget ==> !partition_fails(*message, budget as nat))
                &&& forall|j: int|
                    0 <= j < texts@.len() ==> (#[trigger] texts@[j])@.len() <= budget
                        && vstd::utf8::is_ascii_chars(texts@[j]@)
            },
            Err(e) => {
                &&& e is Partitioning
                &&& message.text@.len() > budget
                &&& partition_fails(*message, budget as nat)
            },
        },
{
    let text: &str = message.to_string();
    if text.unicode_len() <= budget {
        let mut texts: Vec<String> = Vec::new();
        let owned = text.to_owned();
        texts.push(owned);
        proof {
            crate::message::lemma_record_chars_ascii(
                message.direction,
                message.part,
                message.payload@,
            );
            assert(texts@.map_values(|t: String| t@) =~= seq![message.text@]);
            assert(texts@[0] == owned);
        }
        return Ok(texts);
    }
    let parts = match Partitioner::partition_ref(message, budget) {
        Ok(parts) => parts,
        Err(e) => {
            return Err(e);
        },
    };
    let mut texts: Vec<String> = Vec::new();
    let mut i: usize = 0;
    let ghost target = spec_fragment_texts(*message, budget as nat);
    proof {
        assert(texts@.map_values(|t: String| t@) =~= target.take(0));
    }
    while i < parts.len()
        invariant
            0 <= i <= parts@.len(),
            partition_ok(parts@, *message, budget as nat),
            message.wf(),
            target == spec_fragment_texts(*message, budget as nat),
            target.len() == parts@.len(),
            texts@.len() == i,
            texts@.map_values(|t: String| t@) == target.take(i as int),
            forall|j: int|
                0 <= j < texts@.len() ==> (#[trigger] texts@[j])@.len() <= budget
                    && vstd::utf8::is_ascii_chars(texts@[j]@),
        decreases parts@.len() - i,
    {
        let p = vstd::slice::slice_index_get(parts.as_slice(), i);
        let t: &str = p.to_string();
        let owned = t.to_owned();
        let ghost prev = texts@;
        texts.push(owned);
        proof {
            crate::message::lemma_record_chars_ascii(p.direction, p.part, p.payload@);
            assert(p.text@ == target[i as int]);
            assert(texts@.map_values(|t: String| t@) =~= prev.map_values(|t: String| t@).push(
                p.text@,
            ));
            assert(texts@.map_values(|t: String| t@) =~= target.take(i + 1));
            assert(texts@[i as int]@ == p.text@);
        }
        i = i + 1;
    }
    proof {
        assert(target.take(target.len() as int) =~= target);
    }
    Ok(texts)
}

/// Packs records into channel messages and unpacks channel messages into
/// records.
pub struct Aggregator {}

impl Aggregator {
    /// Packs `messages` into as few channel messages as greedy packing
    /// allows, under the channel's own budget. Records whose text exceeds
    /// the budget are partitioned first; see `aggregate_with_budget`.
    pub fn aggregate(messages: &[Message]) -> (r: Result<Vec<String>, MessageError>)
        requires
            forall|i: int| 0 <= i < messages@.len() ==> (#[trigger] messages@[i]).wf(),
        ensures
            match r {
                Ok(outs) => {
                    &&& forall|i: int|
                        0 <= i < messages@.len() ==> ((#[trigger] messages@[i]).text@.len()
                            > MAX_MESSAGE_LENGTH_ALLOWED ==> !partition_fails(
                            messages@[i],
                            MAX_MESSAGE_LENGTH_ALLOWED as nat,
                        ))
                    &&& outs@.map_values(|t: String| t@) == greedy_pack(
                        all_outgoing_texts(messages@, MAX_MESSAGE_LENGTH_ALLOWED as nat),
                        MAX_MESSAGE_LENGTH_ALLOWED as nat,
                        Seq::empty(),
                    )
                },
                Err(e) => e is Partitioning && exists|i: int|
                    0 <= i < messages@.len() && (#[trigger] messages@[i]).text@.len()
                        > MAX_MESSAGE_LENGTH_ALLOWED && partition_fails(
                        messages@[i],
                        MAX_MESSAGE_LENGTH_ALLOWED as nat,
                    ),
            },
    {
        Self::aggregate_with_budget(messages, MAX_MESSAGE_LENGTH_ALLOWED)
    }

    /// Packs `messages` into channel messages of at most `budget`
    /// characters: an in-budget record contributes its own record text, an
    /// oversized one the texts of its fragments, and those texts are then
    /// packed greedily, flushing the open buffer whenever the next text
    /// would overflow it. Fails exactly when some oversized record cannot
    /// be partitioned under the budget.
    pub fn aggregate_with_budget(messages: &[Message], budget: usize) -> (r: Result<
        Vec<String>,
        MessageError,
    >)
        requires
            forall|i: int| 0 <= i < messages@.len() ==> (#[trigger] messages@[i]).wf(),
        ensures
            match r {
                Ok(outs) => {
                    &&& forall|i: int|
                        0 <= i < messages@.len() ==> ((#[trigger] messages@[i]).text@.len()
                            > budget ==> !partition_fails(messages@[i], budget as nat))
                    &&& outs@.map_values(|t: String| t@) == greedy_pack(
                        all_outgoing_texts(messages@, budget as nat),
                        budget as nat,
                        Seq::empty(),
                    )
                },
                Err(e) => e is Partitioning && exists|i: int|
                    0 <= i < messages@.len() && (#[trigger] messages@[i]).text@.len() > budget
                        && partition_fails(messages@[i], budget as nat),
            },
    {
        let ghost lim = budget as nat;
        let mut segments: Vec<String> = Vec::new();
        let mut i: usize = 0;
        proof {
            assert(messages@.take(0) =~= Seq::<Message>::empty());
            assert(segments@.map_values(|t: String| t@) =~= all_outgoing_texts(
                messages@.take(0),
                lim,
            ));
        }
        while i < messages.len()
            invariant
                0 <= i <= messages@.len(),
                forall|j: int| 0 <= j < messages@.len() ==> (#[trigger] messages@[j]).wf(),
                forall|j: int|
                    0 <= j < i ==> ((#[trigger] messages@[j]).text@.len() > budget
                        ==> !partition_fails(messages@[j], lim)),
                lim == budget as nat,
                segments@.map_values(|t: String| t@) == all_outgoing_texts(
                    messages@.take(i as int),
                    lim,
                ),
                forall|j: int|
                    0 <= j < segments@.len() ==> (#[trigger] segments@[j])@.len() <= budget
                        && vstd::utf8::is_ascii_chars(segments@[j]@),
            decreases messages@.len() - i,
        {
            let m = vstd::slice::slice_index_get(messages, i);
            match record_outgoing_texts(m, budget) {
                Err(e) => {
                    proof {
                        assert(messages@[i as int].text@.len() > budget && partition_fails(
                            messages@[i as int],
                            lim,
                        ));
                    }
                    return Err(e);
                },
                Ok(mut frs) => {
                    let ghost old_segments = segments@;
                    let ghost frs_snap = frs@;
                    proof {
                        lemma_all_outgoing_texts_snoc(
                            messages@.take(i as int),
                            messages@[i as int],
                            lim,
                        );
                        assert(messages@.take(i + 1) =~= messages@.take(i as int).push(
                            messages@[i as int],
                        ));
                    }
                    segments.append(&mut frs);
                    proof {
                        assert((old_segments + frs_snap).map_values(|t: String| t@)
                            =~= old_segments.map_values(|t: String| t@) + frs_snap.map_values(
                            |t: String| t@,
                        ));
                        assert(segments@.map_values(|t: String| t@) =~= all_outgoing_texts(
                            messages@.take(i + 1),
                            lim,
                        ));
                        assert forall|j: int| 0 <= j < segments@.len() implies (
                        #[trigger] segments@[j])@.len() <= budget && vstd::utf8::is_ascii_chars(
                            segments@[j]@,
                        ) by {
                            if j >= old_segments.len() {
                                assert(segments@[j] == frs_snap[j - old_segments.len()]);
                            } else {
                                assert(segments@[j] == old_segments[j]);
                            }
                        }
                    }
                    i = i + 1;
                },
            }
        }
        proof {
            assert(messages@.take(messages@.len() as int) =~= messages@);
        }
        // Greedy packing of the outgoing texts.
        let ghost texts = segments@.map_values(|t: String| t@);
        let mut outs: Vec<String> = Vec::new();
        let mut buffer = String::new();
        let mut k: usize = 0;
        proof {
            assert(texts.skip(0) =~= texts);
            assert(outs@.map_values(|t: String| t@) =~= Seq::<Seq<char>>::empty());
            assert(Seq::<Seq<char>>::empty() + greedy_pack(texts, lim, buffer@) =~= greedy_pack(
                texts,
                lim,
                Seq::empty(),
            ));
        }
        while k < segments.len()
            invariant
                0 <= k <= segments@.len(),
                lim == budget as nat,
                texts == segments@.map_values(|t: String| t@),
                forall|j: int|
                    0 <= j < segments@.len() ==> (#[trigger] segments@[j])@.len() <= budget
                        && vstd::utf8::is_ascii_chars(segments@[j]@),
                vstd::utf8::is_ascii_chars(buffer@),
                buffer@.len() <= budget,
                outs@.map_values(|t: String| t@) + greedy_pack(texts.skip(k as int), lim, buffer@)
                    == greedy_pack(texts, lim, Seq::empty()),
            decreases segments@.len() - k,
        {
            broadcast use vstd::string::is_ascii_spec_bytes;

            let p = vstd::slice::slice_index_get(segments.as_slice(), k);
            let segment: &str = p.as_str();
            let bs: &str = buffer.as_str();
            proof {
                broadcast use vstd::utf8::is_ascii_chars_encode_utf8;

                assert(segment@ == segments@[k as int]@);
                assert(vstd::utf8::is_ascii_chars(segment@));
                assert(vstd::utf8::is_ascii_chars(bs@));
                assert(segment.spec_bytes().len() == segment@.len());
                assert(bs.spec_bytes().len() == buffer@.len());
                assert(texts.skip(k as int)[0] == texts[k as int]);
                assert(texts[k as int] == segment@);
            }
            let ghost old_outs = outs@;
            let ghost old_buf = buffer@;
            let seg_len = segment.len();
            let buf_len = bs.len();
            if seg_len > budget - buf_len {
                // The segment would overflow the open buffer: flush first.
                outs.push(buffer);
                buffer = String::new();
                proof {
                    assert(outs@.map_values(|t: String| t@) =~= old_outs.map_values(
                        |t: String| t@,
                    ).push(old_buf));
                    assert(greedy_pack(texts.skip(k as int), lim, old_buf) == seq![old_buf]
                        + greedy_pack(texts.skip(k as int).skip(1), lim, texts[k as int]));
                    assert(old_outs.map_values(|t: String| t@).push(old_buf) + greedy_pack(
                        texts.skip(k as int).skip(1),
                        lim,
                        texts[k as int],
                    ) =~= old_outs.map_values(|t: String| t@) + (seq![old_buf] + greedy_pack(
                        texts.skip(k as int).skip(1),
                        lim,
                        texts[k as int],
                    )));
                }
            } else {
                proof {
                    assert(greedy_pack(texts.skip(k as int), lim, old_buf) == greedy_pack(
                        texts.skip(k as int).skip(1),
                        lim,
                        old_buf + texts[k as int],
                    ));
                }
            }
            buffer.append(segment);
            proof {
                assert(texts.skip(k as int).skip(1) =~= texts.skip(k as int + 1));
                assert(vstd::utf8::is_ascii_chars(buffer@));
            }
            k = k + 1;
        }
        proof {
            assert(texts.skip(segments@.len() as int) =~= Seq::<Seq<char>>::empty());
        }
        if !buffer.as_str().is_empty() {
            proof {
                broadcast use vstd::string::is_ascii_spec_bytes;

                assert(buffer@.len() > 0);
                let ghost old_outs = outs@;
                assert(greedy_pack(Seq::<Seq<char>>::empty(), lim, buffer@) == seq![buffer@]);
            }
            let ghost old_outs = outs@;
            let ghost old_buf = buffer@;
            outs.push(buffer);
            proof {
                assert(outs@.map_values(|t: String| t@) =~= old_outs.map_values(
                    |t: String| t@,
                ).push(old_buf));
                assert(old_outs.map_values(|t: String| t@).push(old_buf) =~= old_outs.map_values(
                    |t: String| t@,
                ) + seq![old_buf]);
            }
        } else {
            proof {
                broadcast use vstd::string::is_ascii_spec_bytes;

                assert(buffer@.len() == 0);
                assert(greedy_pack(Seq::<Seq<char>>::empty(), lim, buffer@) =~= Seq::<
                    Seq<char>,
                >::empty());
                assert(outs@.map_values(|t: String| t@) + Seq::<Seq<char>>::empty()
                    =~= outs@.map_values(|t: String| t@));
            }
        }
        Ok(outs)
    }

    /// Reads a channel message as zero or more records placed back-to-back.
    /// Succeeds exactly when the whole text parses; each returned record
    /// carries the direction, part and payload its wire form declares. On a
    /// malformed text the error names the stage that failed: the length
    /// prefix, the direction tag, the part field or the payload.
    pub fn disaggregate(aggregate_message: &str) -> (r: Result<Vec<Message>, MessageError>)
        ensures
            match r {
                Ok(msgs) => {
                    &&& parse_aggregate(aggregate_message@) is Ok
                    &&& frames_match(msgs@, parse_aggregate(aggregate_message@)->Ok_0)
                },
                Err(e) => {
                    &&& parse_aggregate(aggregate_message@) is Err
                    &&& vstd::utf8::is_ascii_chars(aggregate_message@) ==> error_matches(
                        e,
                        parse_aggregate(aggregate_message@)->Err_0,
                    )
                    &&& !vstd::utf8::is_ascii_chars(aggregate_message@) ==> e is Aggregation
                },
            },
    {
        let ghost s = aggregate_message@;
        if !aggregate_message.is_ascii() {
            proof {
                lemma_parse_ok_ascii(s);
            }
            return Err(MessageError::Aggregation("text is not ASCII"));
        }
        let bytes = aggregate_message.as_bytes_vec();
        proof {
            broadcast use vstd::string::is_ascii_spec_bytes;

            assert(bytes@ =~= Seq::new(s.len(), |i: int| s[i] as u8));
            assert forall|i: int| 0 <= i < s.len() implies #[trigger] ascii_view(bytes@)[i]
                == s[i] by {
                crate::ascii::lemma_ascii_char_roundtrip(s[i]);
            }
            assert(ascii_view(bytes@) =~= s);
        }
        let n = bytes.len();
        let mut msgs: Vec<Message> = Vec::new();
        let ghost mut done: Seq<FrameFields> = Seq::empty();
        let mut offset: usize = 0;
        proof {
            assert(s.skip(0) =~= s);
            assert(done + parse_aggregate(s)->Ok_0 =~= parse_aggregate(s)->Ok_0);
        }
        while offset < n
            invariant
                0 <= offset <= n,
                n == bytes@.len(),
                ascii_view(bytes@) == s,
                s == aggregate_message@,
                vstd::utf8::is_ascii_chars(s),
                frames_match(msgs@, done),
                parse_aggregate(s) == prepend_frames(done, parse_aggregate(s.skip(offset as int))),
            decreases n - offset,
        {
            let ghost rem = s.skip(offset as int);
            match parse_one_record(bytes.as_slice(), offset) {
                Err(e) => {
                    proof {
                        assert(rem.len() > 0);
                        assert(parse_aggregate(rem) is Err);
                    }
                    return Err(e);
                },
                Ok((msg, c)) => {
                    proof {
                        let f = parse_record(rem)->Ok_0.0;
                        assert(0 < c <= rem.len());
                        assert(parse_aggregate(rem) == prepend_frames(
                            seq![f],
                            parse_aggregate(rem.skip(c as int)),
                        ));
                        lemma_prepend_assoc(done, f, parse_aggregate(rem.skip(c as int)));
                        assert(rem.skip(c as int) =~= s.skip(offset + c));
                        assert(frames_match(msgs@.push(msg), done.push(f)));
                        done = done.push(f);
                    }
                    msgs.push(msg);
                    offset = offset + c;
                },
            }
        }
        proof {
            assert(s.skip(n as int) =~= Seq::<char>::empty());
            assert(parse_aggregate(s.skip(n as int)) == Ok::<Seq<FrameFields>, ParseFailure>(
                Seq::empty(),
            ));
            assert(done + Seq::<FrameFields>::empty() =~= done);
        }
        Ok(msgs)
    }
}

/// Appends the fixed-width text form of `p` to `out`.
pub(crate) fn push_part_chars(out: &mut Vec<u8>, p: &Part)
    requires
        p.wf(),
        ascii_bytes(old(out)@),
    ensures
        ascii_bytes(final(out)@),
        ascii_view(final(out)@) == ascii_view(old(out)@) + part_chars(*p),
{
    push_hex_byte(out, p.current as u8);
    out.push(47);
    push_hex_byte(out, p.total as u8);
    out.push(32);
    proof {
        assert((p.current as u8) / 16 == (p.current / 16) as u8);
        assert((p.total as u8) / 16 == (p.total / 16) as u8);
        assert(ascii_view(out@) =~= ascii_view(old(out)@) + part_chars(*p));
    }
}

/// Classifies one character as a hexadecimal digit.
fn hex_val_of_char(c: char) -> (r: Option<u8>)
    ensures
        r is Some <==> is_hex_digit_char(c),
        r is Some ==> r->Some_0 == hex_digit_val(c) && r->Some_0 < 16,
{
    if '0' <= c && c <= '9' {
        Some((c as u8) - 48)
    } else if 'A' <= c && c <= 'F' {
        Some((c as u8) - 55)
    } else if 'a' <= c && c <= 'f' {
        Some((c as u8) - 87)
    } else {
        None
    }
}

} // verus!
