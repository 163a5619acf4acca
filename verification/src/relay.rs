//! The relay's per-record decisions: which records reach the outbound
//! queue, how the reserved halt payload turns into a local cancellation,
//! how an outbound record becomes channel messages, and how sends rotate
//! over the channel list.

use vstd::prelude::*;

use crate::cache::{lane_accept_post, ReassemblyCache};
use crate::cli::Mode;
use crate::message::{halt_payload, Message, MessageDirection, MessageError};
use crate::partitioning::{outgoing_texts, partition_fails, MAX_MESSAGE_LENGTH_ALLOWED};

verus! {

/// What the relay does with one decoded record.
pub enum RelayAction {
    /// A fragment was buffered; nothing leaves the relay yet.
    Buffered,
    /// A whole record (or a completed run) is handed to the application.
    Deliver(Message),
    /// The reserved halt payload arrived: cancel this connection.
    Halt,
}

/// The inbound state of one connection: whether cancellation has fired,
/// and the reassembly lanes.
pub struct Relay {
    pub halted: bool,
    pub cache: ReassemblyCache,
}

/// What feeding a whole halt record does: the flag rises (and stays up),
/// everything else is untouched.
pub open spec fn relay_halt_step(pre: Relay, post: Relay) -> bool {
    &&& post.halted == true
    &&& post.cache == pre.cache
}

impl Relay {
    pub open spec fn wf(&self) -> bool {
        self.cache.wf()
    }

    pub fn new() -> (r: Relay)
        ensures
            r.wf(),
            !r.halted,
            r.cache.clientbound.buffer@.len() == 0,
            r.cache.serverbound.buffer@.len() == 0,
    {
        Relay { halted: false, cache: ReassemblyCache::new() }
    }

    /// Feeds one decoded record into the relay at time `now`. A whole
    /// record carrying the reserved halt payload only raises the
    /// cancellation flag and is never delivered; any other whole record is
    /// delivered as it is; a fragment goes through the reassembly lane of
    /// its direction and the merged record is delivered once the run
    /// completes.
    pub fn process_frame(&mut self, message: Message, now: u64) -> (a: RelayAction)
        requires
            old(self).wf(),
            message.wf(),
        ensures
            final(self).wf(),
            ({
                let whole_halt = message.part.total == 1 && message.payload@ == halt_payload();
                if whole_halt {
                    &&& a is Halt
                    &&& relay_halt_step(*old(self), *final(self))
                } else {
                    &&& final(self).halted == old(self).halted
                    &&& lane_accept_post(
                        old(self).cache.lane_of(message.direction),
                        message,
                        now,
                        final(self).cache.lane_of(message.direction),
                        if a is Deliver {
                            Ok(Some(a->Deliver_0))
                        } else {
                            Ok(None)
                        },
                    )
                    &&& !(a is Halt)
                }
            }),
    {
        if message.part.total() == 1 && Message::is_halt_message(&message) {
            self.halted = true;
            return RelayAction::Halt;
        }
        match self.cache.accept(message, now) {
            Ok(Some(m)) => RelayAction::Deliver(m),
            Ok(None) => RelayAction::Buffered,
            Err(_) => {
                proof {
                    assert(false);
                }
                RelayAction::Buffered
            },
        }
    }

    /// Runs the periodic sweep over both reassembly lanes.
    pub fn sweep(&mut self, now: u64)
        requires
            old(self).wf(),
        ensures
            final(self).wf(),
            final(self).halted == old(self).halted,
            old(self).cache.clientbound.expired(now)
                ==> final(self).cache.clientbound.buffer@.len() == 0,
            !old(self).cache.clientbound.expired(now)
                ==> final(self).cache.clientbound == old(self).cache.clientbound,
            old(self).cache.serverbound.expired(now)
                ==> final(self).cache.serverbound.buffer@.len() == 0,
            !old(self).cache.serverbound.expired(now)
                ==> final(self).cache.serverbound == old(self).cache.serverbound,
    {
        self.cache.evict_stale(now);
    }
}

/// Raising the cancellation flag is idempotent: feeding the halt record a
/// second time leaves the relay exactly where the first feeding left it,
/// so cancellation fires at most once per connection.
pub proof fn lemma_halt_idempotent(pre: Relay, mid: Relay, post: Relay)
    requires
        relay_halt_step(pre, mid),
        relay_halt_step(mid, post),
    ensures
        mid.halted,
        post.halted == mid.halted,
        post.cache == mid.cache,
{
}

/// Whether a decoded record is meant for this side: the server side reads
/// serverbound records, the client side clientbound ones.
pub fn message_direction_matches_side(current_side: &Mode, message_side: &MessageDirection) -> (r:
    bool)
    ensures
        r == ((current_side is Server) == (message_side is Serverbound)),
{
    let is_server: bool = matches!(current_side, Mode::Server { .. });
    let is_serverbound: bool = matches!(message_side, MessageDirection::Serverbound);
    is_server == is_serverbound
}

/// The channel texts one outbound record becomes: its own text when it
/// fits the channel budget, otherwise the texts of its fragments. Fails
/// exactly when the record is over budget and cannot be partitioned.
pub fn prepare_outgoing(message: Message) -> (r: Result<Vec<String>, MessageError>)
    requires
        message.wf(),
    ensures
        match r {
            Ok(texts) => texts@.map_values(|t: String| t@) == outgoing_texts(
                message,
                MAX_MESSAGE_LENGTH_ALLOWED as nat,
            ),
            Err(e) => {
                &&& e is Partitioning
                &&& message.text@.len() > MAX_MESSAGE_LENGTH_ALLOWED
                &&& partition_fails(message, MAX_MESSAGE_LENGTH_ALLOWED as nat)
            },
        },
{
    crate::partitioning::record_outgoing_texts(&message, MAX_MESSAGE_LENGTH_ALLOWED)
}

/// The channel a record is sent on: sends rotate round-robin over the
/// channel list, wrapping modulo its length.
pub fn next_channel_index(counter: u128, channel_count: usize) -> (r: usize)
    requires
        channel_count > 0,
    ensures
        r as u128 == counter % (channel_count as u128),
        r < channel_count,
{
    proof {
        vstd::arithmetic::div_mod::lemma_mod_bound(
            counter as int,
            channel_count as int,
        );
    }
    (counter % (channel_count as u128)) as usize
}

} // verus!
