//! The `Message` record: the unit placed on, and read from, the text
//! channel, together with its direction tag and its error type.
//!
//! A record's text is `<decimal length>~<direction tag><part field><encoded
//! payload>`, where the length counts every character after the `~`.

use vstd::prelude::*;

use crate::ascii::{ascii_bytes, ascii_view, dec_str, push_dec_usize};
use crate::hexcode::{hex_text, is_hex_payload_text, payload_of_text};
use crate::partitioning::{part_chars, Part};

verus! {

/// What can go wrong while encoding, decoding, fragmenting or reassembling
/// records. Each variant carries a short static description.
#[derive(Debug, Clone)]
pub enum MessageError {
    /// A record starts with neither direction tag.
    Direction(&'static str),
    /// A payload text is not valid spaced hexadecimal.
    Decode(&'static str),
    /// A fragment bound or a part descriptor is out of range.
    Partitioning(&'static str),
    /// A packed channel message is malformed.
    Aggregation(&'static str),
    /// Reassembly was asked to merge nothing.
    Merging(&'static str),
}

/// Which endpoint a record is travelling toward. Each direction owns one
/// fixed marker string; neither marker is a prefix of the other.
#[derive(Debug, PartialEq, Eq, Structural, Clone, Copy)]
pub enum MessageDirection {
    Clientbound,
    Serverbound,
}

/// The marker string of a direction.
pub open spec fn dir_tag(d: MessageDirection) -> Seq<char> {
    match d {
        MessageDirection::Clientbound => "**Squidward says**: "@,
        MessageDirection::Serverbound => "**Cthulhu says**: "@,
    }
}

/// Concrete facts about the two marker strings that the codec proofs need:
/// their lengths, that they are ASCII, that they do not start with a digit
/// or the length delimiter, and that they differ at index 2, so neither is
/// a prefix of the other.
pub proof fn lemma_dir_tags()
    ensures
        dir_tag(MessageDirection::Clientbound).len() == 20,
        dir_tag(MessageDirection::Serverbound).len() == 18,
        vstd::utf8::is_ascii_chars(dir_tag(MessageDirection::Clientbound)),
        vstd::utf8::is_ascii_chars(dir_tag(MessageDirection::Serverbound)),
        dir_tag(MessageDirection::Clientbound)[0] == '*',
        dir_tag(MessageDirection::Serverbound)[0] == '*',
        dir_tag(MessageDirection::Clientbound)[2] == 'S',
        dir_tag(MessageDirection::Serverbound)[2] == 'C',
{
    reveal_strlit("**Squidward says**: ");
    reveal_strlit("**Cthulhu says**: ");
}

impl MessageDirection {
    /// Encodes the direction as its marker string.
    pub fn to_string(self) -> (r: &'static str)
        ensures
            r@ == dir_tag(self),
    {
        match self {
            MessageDirection::Clientbound => "**Squidward says**: ",
            MessageDirection::Serverbound => "**Cthulhu says**: ",
        }
    }

    /// Decodes the direction from the start of `text` by prefix match.
    /// Fails exactly when neither marker string is a prefix of `text`.
    pub fn from_string(text: &str) -> (r: Result<MessageDirection, MessageError>)
        ensures
            match r {
                Ok(d) => starts_with_tag(text@, d),
                Err(e) => {
                    &&& e is Direction
                    &&& !starts_with_tag(text@, MessageDirection::Clientbound)
                    &&& !starts_with_tag(text@, MessageDirection::Serverbound)
                },
            },
    {
        MessageDirection::try_from(text)
    }

    /// Decodes the direction from the start of `value`, as `from_string`.
    pub fn try_from(value: &str) -> (r: Result<MessageDirection, MessageError>)
        ensures
            match r {
                Ok(d) => starts_with_tag(value@, d),
                Err(e) => {
                    &&& e is Direction
                    &&& !starts_with_tag(value@, MessageDirection::Clientbound)
                    &&& !starts_with_tag(value@, MessageDirection::Serverbound)
                },
            },
    {
        if str_has_prefix(value, MessageDirection::Clientbound.to_string()) {
            Ok(MessageDirection::Clientbound)
        } else if str_has_prefix(value, MessageDirection::Serverbound.to_string()) {
            Ok(MessageDirection::Serverbound)
        } else {
            Err(MessageError::Direction("unknown direction header"))
        }
    }
}

/// `s` starts with the marker string of `d`.
pub open spec fn starts_with_tag(s: Seq<char>, d: MessageDirection) -> bool {
    s.len() >= dir_tag(d).len() && s.take(dir_tag(d).len() as int) == dir_tag(d)
}

/// Everything of a record after the length prefix: tag, part field,
/// encoded payload.
pub open spec fn body_chars(d: MessageDirection, p: Part, payload: Seq<u8>) -> Seq<char> {
    dir_tag(d) + part_chars(p) + hex_text(payload)
}

/// The full record text: decimal character count of the body, the `~`
/// delimiter, then the body.
pub open spec fn record_chars(d: MessageDirection, p: Part, payload: Seq<u8>) -> Seq<char> {
    dec_str(body_chars(d, p, payload).len()) + seq!['~'] + body_chars(d, p, payload)
}

/// One record of the relay protocol. `text` and `length` are determined by
/// the other three fields; `wf` states that determination and every
/// constructor establishes it.
#[derive(Debug, Clone)]
pub struct Message {
    /// The decimal length prefix including the trailing `~`.
    pub length: String,
    /// Which endpoint the record travels toward.
    pub direction: MessageDirection,
    /// Position in a fragmented run; `(1, 1)` for a whole record.
    pub part: Part,
    /// The payload bytes.
    pub payload: Vec<u8>,
    /// The full record text, ready for the channel.
    pub text: String,
}

impl Message {
    /// The character that ends the decimal length prefix; it never occurs
    /// inside the prefix itself.
    pub const LENGTH_DELIMITER: char = '~';

    /// The derived fields carry exactly the record text of the three
    /// defining fields.
    pub open spec fn wf(&self) -> bool {
        &&& self.part.wf()
        &&& self.length@ == dec_str(body_chars(self.direction, self.part, self.payload@).len())
            + seq!['~']
        &&& self.text@ == record_chars(self.direction, self.part, self.payload@)
    }

    /// Builds the record text of a payload: the length prefix (with the
    /// `~` delimiter) and the body, as two strings.
    pub fn make_string(direction: &MessageDirection, part: &Part, payload: &[u8]) -> (r: (
        String,
        String,
    ))
        requires
            part.wf(),
        ensures
            r.0@ == dec_str(body_chars(*direction, *part, payload@).len()) + seq!['~'],
            r.1@ == body_chars(*direction, *part, payload@),
    {
        let mut body: Vec<u8> = Vec::new();
        let tag: &str = direction.to_string();
        proof {
            lemma_dir_tags();
        }
        let tag_bytes = tag.as_bytes_vec();
        proof {
            broadcast use vstd::string::is_ascii_spec_bytes;

            assert(tag.is_ascii());
            assert(tag_bytes@ =~= Seq::new(tag@.len(), |i: int| tag@[i] as u8));
        }
        crate::hexcode::push_bytes(&mut body, tag_bytes.as_slice());
        proof {
            assert(ascii_bytes(body@));
            assert(ascii_view(body@) =~= dir_tag(*direction));
        }
        crate::partitioning::push_part_chars(&mut body, part);
        crate::hexcode::push_hex_text(&mut body, payload);
        proof {
            assert(ascii_view(body@) =~= body_chars(*direction, *part, payload@));
        }
        let mut len_bytes: Vec<u8> = Vec::new();
        push_dec_usize(&mut len_bytes, body.len());
        len_bytes.push(126);
        proof {
            assert(ascii_view(len_bytes@) =~= dec_str(
                body_chars(*direction, *part, payload@).len(),
            ) + seq!['~']);
            assert(ascii_bytes(len_bytes@)) by {
                crate::ascii::lemma_dec_str_digits(body_chars(*direction, *part, payload@).len());
                assert(forall|i: int|
                    0 <= i < len_bytes@.len() ==> ascii_view(len_bytes@)[i] == #[trigger] (
                    len_bytes@[i]) as char);
            }
        }
        let length = crate::ascii::ascii_to_string(len_bytes);
        let body_str = crate::ascii::ascii_to_string(body);
        (length, body_str)
    }

    /// Builds a record around a payload with an explicit part descriptor.
    pub(crate) fn with_part(data: &[u8], direction: MessageDirection, part: Part) -> (r: Message)
        requires
            part.wf(),
        ensures
            r.wf(),
            r.direction == direction,
            r.part == part,
            r.payload@ == data@,
    {
        let (length, body) = Self::make_string(&direction, &part, data);
        let mut text = length.clone();
        text.append(body.as_str());
        let payload = vstd::slice::slice_to_vec(data);
        proof {
            assert(text@ =~= record_chars(direction, part, data@));
        }
        Message { length, direction, part, payload, text }
    }

    /// Builds a whole record (part `1/1`) around a payload.
    pub fn from_bytes(data: &[u8], direction: MessageDirection) -> (r: Message)
        ensures
            r.wf(),
            r.direction == direction,
            r.part == (Part { current: 1, total: 1 }),
            r.payload@ == data@,
    {
        Self::with_part(data, direction, Part { current: 1, total: 1 })
    }

    /// Reads a channel message as zero or more records; see
    /// `Aggregator::disaggregate`, which does the work.
    pub fn from_string(message: &str) -> (r: Result<Vec<Message>, MessageError>)
        ensures
            match r {
                Ok(msgs) => {
                    &&& crate::partitioning::parse_aggregate(message@) is Ok
                    &&& crate::partitioning::frames_match(
                        msgs@,
                        crate::partitioning::parse_aggregate(message@)->Ok_0,
                    )
                },
                Err(e) => crate::partitioning::parse_aggregate(message@) is Err,
            },
    {
        crate::partitioning::Aggregator::disaggregate(message)
    }

    /// The payload bytes of the record.
    pub fn payload(&self) -> (r: &[u8])
        ensures
            r@ == self.payload@,
    {
        self.payload.as_slice()
    }

    /// The full record text, ready for the channel.
    pub fn to_string(&self) -> (r: &str)
        ensures
            r@ == self.text@,
    {
        self.text.as_str()
    }

    /// Encodes payload bytes as spaced hexadecimal text.
    pub fn payload_bytes_to_string(data: &[u8]) -> (r: String)
        ensures
            r@ == hex_text(data@),
    {
        crate::hexcode::hex_text_exec(data)
    }

    /// Decodes spaced hexadecimal text to payload bytes. Succeeds exactly
    /// when dropping the spaces of `string` leaves an even number of
    /// hexadecimal digits.
    pub fn payload_string_to_bytes(string: &str) -> (r: Result<Vec<u8>, MessageError>)
        ensures
            r is Ok <==> is_hex_payload_text(string@),
            match r {
                Ok(v) => v@ == payload_of_text(string@),
                Err(e) => e is Decode,
            },
    {
        match crate::hexcode::decode_hex_str(string) {
            Some(v) => Ok(v),
            None => Err(MessageError::Decode("failed to decode hex")),
        }
    }
}

/// Every record text (and its body) is pure ASCII.
pub proof fn lemma_record_chars_ascii(d: MessageDirection, p: Part, payload: Seq<u8>)
    requires
        p.wf(),
    ensures
        vstd::utf8::is_ascii_chars(body_chars(d, p, payload)),
        vstd::utf8::is_ascii_chars(record_chars(d, p, payload)),
{
    lemma_dir_tags();
    crate::partitioning::lemma_part_chars_round_trip(p, Seq::empty());
    crate::hexcode::lemma_hex_text_ascii(payload);
    let body = body_chars(d, p, payload);
    crate::ascii::lemma_dec_str_digits(body.len());
    let tl = dir_tag(d).len() as int;
    assert forall|i: int| 0 <= i < body.len() implies '\0' <= #[trigger] body[i] <= '\u{7f}' by {
        if i < tl {
            assert(body[i] == dir_tag(d)[i]);
        } else if i < tl + 6 {
            assert(body[i] == part_chars(p)[i - tl]);
        } else {
            assert(body[i] == hex_text(payload)[i - tl - 6]);
        }
    }
    let rec = record_chars(d, p, payload);
    let dl = dec_str(body.len()).len() as int;
    assert forall|i: int| 0 <= i < rec.len() implies '\0' <= #[trigger] rec[i] <= '\u{7f}' by {
        if i < dl {
            assert(crate::ascii::is_dec_digit_char(dec_str(body.len())[i]));
            assert(rec[i] == dec_str(body.len())[i]);
        } else if i == dl {
            assert(rec[i] == '~');
        } else {
            assert(rec[i] == body[i - dl - 1]);
        }
    }
}

/// The reserved payload that asks the remote peer to tear the link down.
/// It is matched by exact equality and always travels as a whole record.
pub open spec fn halt_payload() -> Seq<u8> {
    seq![3u8, 4u8, 4u8, 0u8, 1u8, 1u8, 1u8, 1u8]
}

/// The reserved halt payload as a vector.
pub(crate) fn halt_payload_bytes() -> (r: Vec<u8>)
    ensures
        r@ == halt_payload(),
{
    let mut v: Vec<u8> = Vec::new();
    v.push(3);
    v.push(4);
    v.push(4);
    v.push(0);
    v.push(1);
    v.push(1);
    v.push(1);
    v.push(1);
    proof {
        assert(v@ =~= halt_payload());
    }
    v
}

impl Message {
    /// Whether `message` carries exactly the reserved halt payload.
    pub fn is_halt_message(message: &Message) -> (r: bool)
        ensures
            r == (message.payload@ == halt_payload()),
    {
        if message.payload.len() != 8 {
            return false;
        }
        let p = &message.payload;
        let r = p[0] == 3 && p[1] == 4 && p[2] == 4 && p[3] == 0 && p[4] == 1 && p[5] == 1 && p[6]
            == 1 && p[7] == 1;
        proof {
            if r {
                assert(message.payload@ =~= halt_payload());
            }
        }
        r
    }

    /// Builds a whole record carrying the reserved halt payload.
    pub fn make_halt_message(direction: MessageDirection) -> (r: Message)
        ensures
            r.wf(),
            r.direction == direction,
            r.part == (Part { current: 1, total: 1 }),
            r.payload@ == halt_payload(),
    {
        let h = halt_payload_bytes();
        Self::from_bytes(h.as_slice(), direction)
    }
}

/// Character-by-character prefix test.
pub(crate) fn str_has_prefix(s: &str, prefix: &str) -> (r: bool)
    ensures
        r == (s@.len() >= prefix@.len() && s@.take(prefix@.len() as int) == prefix@),
{
    let n = prefix.unicode_len();
    let m = s.unicode_len();
    if m < n {
        proof {
            assert(!(s@.len() >= prefix@.len()));
        }
        return false;
    }
    let mut i: usize = 0;
    while i < n
        invariant
            0 <= i <= n,
            n == prefix@.len(),
            m == s@.len(),
            m >= n,
            forall|j: int| 0 <= j < i ==> s@[j] == prefix@[j],
        decreases n - i,
    {
        let a = s.get_char(i);
        let b = prefix.get_char(i);
        if a != b {
            proof {
                assert(s@.take(n as int)[i as int] != prefix@[i as int]);
            }
            return false;
        }
        i = i + 1;
    }
    proof {
        assert(s@.take(n as int) =~= prefix@);
    }
    true
}

} // verus!
