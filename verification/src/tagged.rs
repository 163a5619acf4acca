//! The plain tagged record: the earlier, unframed wire form still spoken
//! on lightly-loaded links. A record is one direction marker followed by
//! the spaced-hexadecimal payload text — no length prefix, no part field,
//! one record per channel message.
//!
//! Note that this form assigns the marker strings the other way round from
//! the framed protocol: here the clientbound marker is the Cthulhu one.

use vstd::prelude::*;

use crate::hexcode::{hex_text, is_hex_payload_text, payload_of_text};

verus! {

/// What can go wrong reading a tagged record.
#[derive(Debug, Clone)]
pub enum MessageError {
    /// The text starts with neither direction marker.
    InvalidDirection,
    /// The payload text is not valid spaced hexadecimal.
    HexConversionError(String),
}

/// Which endpoint a tagged record is travelling toward.
#[derive(Debug, PartialEq, Eq, Structural, Clone, Copy)]
pub enum MessageDirection {
    Clientbound,
    Serverbound,
}

/// The marker string of a direction in the tagged form.
pub open spec fn tag_of(d: MessageDirection) -> Seq<char> {
    match d {
        MessageDirection::Clientbound => "**Cthulhu says**: "@,
        MessageDirection::Serverbound => "**Squidward says**: "@,
    }
}

/// `s` starts with the marker string of `d`.
pub open spec fn tagged_starts_with(s: Seq<char>, d: MessageDirection) -> bool {
    s.len() >= tag_of(d).len() && s.take(tag_of(d).len() as int) == tag_of(d)
}

proof fn lemma_tags()
    ensures
        tag_of(MessageDirection::Clientbound).len() == 18,
        tag_of(MessageDirection::Serverbound).len() == 20,
        vstd::utf8::is_ascii_chars(tag_of(MessageDirection::Clientbound)),
        vstd::utf8::is_ascii_chars(tag_of(MessageDirection::Serverbound)),
{
    reveal_strlit("**Cthulhu says**: ");
    reveal_strlit("**Squidward says**: ");
}

fn tag_str(d: MessageDirection) -> (r: &'static str)
    ensures
        r@ == tag_of(d),
{
    match d {
        MessageDirection::Clientbound => "**Cthulhu says**: ",
        MessageDirection::Serverbound => "**Squidward says**: ",
    }
}

/// One tagged record: the payload bytes, the direction read from or
/// written as the marker, and the text as it stands on the channel.
#[derive(Debug, Clone)]
pub struct Message {
    pub data: Vec<u8>,
    pub direction: MessageDirection,
    pub text_representation: String,
}

impl Message {
    /// Builds the record around a payload: the marker string followed by
    /// the canonical encoding of the bytes.
    pub fn from_bytes(data: &[u8], direction: MessageDirection) -> (r: Message)
        ensures
            r.data@ == data@,
            r.direction == direction,
            r.text_representation@ == tag_of(direction) + hex_text(data@),
    {
        let tag = tag_str(direction);
        proof {
            lemma_tags();
        }
        let tag_bytes = tag.as_bytes_vec();
        let mut out: Vec<u8> = Vec::new();
        proof {
            broadcast use vstd::string::is_ascii_spec_bytes;

            assert(tag.is_ascii());
            assert(tag_bytes@ =~= Seq::new(tag@.len(), |i: int| tag@[i] as u8));
        }
        crate::hexcode::push_bytes(&mut out, tag_bytes.as_slice());
        proof {
            assert(crate::ascii::ascii_bytes(out@));
            assert(crate::ascii::ascii_view(out@) =~= tag_of(direction));
        }
        crate::hexcode::push_hex_text(&mut out, data);
        proof {
            assert(crate::ascii::ascii_view(out@) =~= tag_of(direction) + hex_text(data@));
        }
        let text_representation = crate::ascii::ascii_to_string(out);
        let payload = vstd::slice::slice_to_vec(data);
        Message { data: payload, direction, text_representation }
    }

    /// Reads a record: the direction from the marker prefix (the
    /// clientbound marker is tried first; the markers share no prefix),
    /// then the rest of the text as hexadecimal payload. Succeeds exactly
    /// when a marker matches and the rest decodes; the text is kept as it
    /// came.
    pub fn from_string(message: &str) -> (r: Result<Message, MessageError>)
        ensures
            match r {
                Ok(m) => {
                    &&& tagged_starts_with(message@, m.direction)
                    &&& is_hex_payload_text(message@.skip(tag_of(m.direction).len() as int))
                    &&& m.data@ == payload_of_text(message@.skip(tag_of(m.direction).len() as int))
                    &&& m.text_representation@ == message@
                },
                Err(e) => match e {
                    MessageError::InvalidDirection => {
                        &&& !tagged_starts_with(message@, MessageDirection::Clientbound)
                        &&& !tagged_starts_with(message@, MessageDirection::Serverbound)
                    },
                    MessageError::HexConversionError(_) => exists|d: MessageDirection|
                        tagged_starts_with(message@, d) && !is_hex_payload_text(
                            message@.skip(tag_of(d).len() as int),
                        ),
                },
            },
    {
        proof {
            lemma_tags();
        }
        let direction: MessageDirection = if crate::message::str_has_prefix(
            message,
            tag_str(MessageDirection::Clientbound),
        ) {
            MessageDirection::Clientbound
        } else if crate::message::str_has_prefix(
            message,
            tag_str(MessageDirection::Serverbound),
        ) {
            MessageDirection::Serverbound
        } else {
            return Err(MessageError::InvalidDirection);
        };
        let tag_len: usize = match direction {
            MessageDirection::Clientbound => 18,
            MessageDirection::Serverbound => 20,
        };
        let total = message.unicode_len();
        let rest: &str = message.substring_char(tag_len, total);
        proof {
            assert(rest@ == message@.skip(tag_len as int));
        }
        let data = match crate::hexcode::decode_hex_str(rest) {
            Some(v) => v,
            None => {
                proof {
                    assert(tagged_starts_with(message@, direction) && !is_hex_payload_text(
                        message@.skip(tag_of(direction).len() as int),
                    ));
                }
                return Err(
                    MessageError::HexConversionError(
                        String::from_str("invalid hexadecimal payload text"),
                    ),
                );
            },
        };
        let text_representation = message.to_owned();
        Ok(Message { data, direction, text_representation })
    }

    /// The payload bytes of the record.
    pub fn to_bytes(&self) -> (r: &[u8])
        ensures
            r@ == self.data@,
    {
        self.data.as_slice()
    }

    /// The record text, ready for the channel.
    pub fn to_string_representation(&self) -> (r: &str)
        ensures
            r@ == self.text_representation@,
    {
        self.text_representation.as_str()
    }
}

} // verus!
