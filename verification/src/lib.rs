//! A verified codec and relay core for tunnelling a binary byte stream
//! through a bounded-length text-message channel.
//!
//! Payload bytes are printed as hexadecimal text, framed with a direction
//! tag, a fragment descriptor and a decimal length prefix, split into
//! fragments that respect a character budget, packed back-to-back into as
//! few channel messages as possible, and reassembled on the other side.

pub mod ascii;
pub mod cache;
pub mod cli;
pub mod hexcode;
pub mod message;
pub mod partitioning;
pub mod relay;
pub mod tagged;

