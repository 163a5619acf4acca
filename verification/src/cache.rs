//! Reassembly of fragmented records: per-lane buffering of an in-flight
//! run, merging once the final fragment arrives, and time-based eviction
//! of runs whose sender went silent.

use vstd::prelude::*;

use crate::message::{Message, MessageError};
use crate::partitioning::{payloads_concat, Part, Partitioner};

verus! {

/// A buffered run is dropped after this many milliseconds without a new
/// fragment.
pub const MESSAGE_EXPIRATION_MILLIS: u64 = 30_000;

/// One lane's reassembly state: the fragments of the one in-flight run, in
/// arrival order, and when the lane was last touched. An empty buffer is
/// the Empty state.
pub struct LaneCache {
    /// The buffered fragments, oldest first.
    pub buffer: Vec<Message>,
    /// The time of the last accepted fragment, in milliseconds.
    pub stamp: u64,
}

impl LaneCache {
    /// The buffer always holds well-formed records in one consecutive
    /// ascending run that agrees on `total`.
    pub open spec fn wf(&self) -> bool {
        forall|i: int|
            0 <= i < self.buffer@.len() ==> {
                &&& (#[trigger] self.buffer@[i]).wf()
                &&& self.buffer@[i].part.total == self.buffer@[0].part.total
                &&& self.buffer@[i].part.current == self.buffer@[0].part.current + i
            }
    }

    /// The buffer holds a run that went stale at `now`.
    pub open spec fn expired(&self, now: u64) -> bool {
        self.buffer@.len() > 0 && now >= self.stamp + MESSAGE_EXPIRATION_MILLIS
    }

    pub fn new() -> (r: LaneCache)
        ensures
            r.wf(),
            r.buffer@.len() == 0,
            r.stamp == 0,
    {
        LaneCache { buffer: Vec::new(), stamp: 0 }
    }

    /// The lane holds no fragments.
    pub fn is_empty(&self) -> (r: bool)
        ensures
            r == (self.buffer@.len() == 0),
    {
        self.buffer.is_empty()
    }

    /// Feeds one record into the lane; see `lane_accept_post` for the
    /// exact transition. A whole record is handed back untouched; the
    /// expected next fragment is buffered, the final one merges the run;
    /// anything out of step discards the stale run and starts a new one
    /// with the record just received.
    pub fn accept(&mut self, message: Message, now: u64) -> (r: Result<
        Option<Message>,
        MessageError,
    >)
        requires
            old(self).wf(),
            message.wf(),
        ensures
            final(self).wf(),
            r is Ok,
            lane_accept_post(*old(self), message, now, *final(self), r),
    {
        if message.part.total() == 1 {
            return Ok(Some(message));
        }
        if self.buffer.len() == 0 {
            self.buffer.push(message);
            self.stamp = now;
            proof {
                assert(self.buffer@ =~= seq![message]);
            }
            return Ok(None);
        }
        let last_idx = self.buffer.len() - 1;
        let last_total = self.buffer[last_idx].part.total();
        let last_current = self.buffer[last_idx].part.current();
        if message.part.total() == last_total && message.part.current() == last_current + 1 {
            let ghost pre = self.buffer@;
            self.buffer.push(message);
            self.stamp = now;
            if last_current + 1 == last_total {
                // The run is complete: merge it and clear the lane.
                match Partitioner::merge(self.buffer.as_slice()) {
                    Ok(merged) => {
                        self.buffer.clear();
                        return Ok(Some(merged));
                    },
                    Err(e) => {
                        proof {
                            assert(false);
                        }
                        return Err(e);
                    },
                }
            }
            return Ok(None);
        }
        // The record does not continue the buffered run: drop the stale
        // run and start over with this record.
        self.buffer.clear();
        self.buffer.push(message);
        self.stamp = now;
        proof {
            assert(self.buffer@ =~= seq![message]);
        }
        Ok(None)
    }

    /// Clears the lane when its run went stale; otherwise leaves it alone.
    pub fn evict_stale(&mut self, now: u64)
        requires
            old(self).wf(),
        ensures
            final(self).wf(),
            old(self).expired(now) ==> final(self).buffer@.len() == 0,
            !old(self).expired(now) ==> *final(self) == *old(self),
    {
        if !self.buffer.is_empty() && now >= self.stamp && now - self.stamp
            >= MESSAGE_EXPIRATION_MILLIS {
            self.buffer.clear();
        }
    }
}

/// The exact transition `LaneCache::accept` makes: given the lane before
/// (`pre`) and the record fed in, it fixes the lane after (`post`) and the
/// result.
pub open spec fn lane_accept_post(
    pre: LaneCache,
    message: Message,
    now: u64,
    post: LaneCache,
    r: Result<Option<Message>, MessageError>,
) -> bool {
    if message.part.total == 1 {
        // A whole record passes straight through.
        &&& post == pre
        &&& r == Ok::<Option<Message>, MessageError>(Some(message))
    } else if pre.buffer@.len() == 0 {
        // First fragment seen on an empty lane: start a run.
        &&& post.buffer@ == seq![message]
        &&& post.stamp == now
        &&& r == Ok::<Option<Message>, MessageError>(None)
    } else if message.part.total == pre.buffer@.last().part.total && message.part.current
        == pre.buffer@.last().part.current + 1 {
        if message.part.current == message.part.total {
            // Final fragment: the run merges into one whole record.
            &&& post.buffer@.len() == 0
            &&& r is Ok && r->Ok_0 is Some
            &&& ({
                let merged = r->Ok_0->Some_0;
                &&& merged.wf()
                &&& merged.direction == pre.buffer@[0].direction
                &&& merged.part == (Part { current: 1, total: 1 })
                &&& merged.payload@ == payloads_concat(pre.buffer@.push(message))
            })
        } else {
            // Expected next fragment: buffer it and wait.
            &&& post.buffer@ == pre.buffer@.push(message)
            &&& post.stamp == now
            &&& r == Ok::<Option<Message>, MessageError>(None)
        }
    } else {
        // Wrong total or a break in the order: the old run is lost, a new
        // one starts with this record.
        &&& post.buffer@ == seq![message]
        &&& post.stamp == now
        &&& r == Ok::<Option<Message>, MessageError>(None)
    }
}

/// One reassembly lane per direction, as the relay keeps at most one
/// fragmented run in flight per direction.
pub struct ReassemblyCache {
    pub clientbound: LaneCache,
    pub serverbound: LaneCache,
}

impl ReassemblyCache {
    pub open spec fn wf(&self) -> bool {
        self.clientbound.wf() && self.serverbound.wf()
    }

    /// The lane a record belongs to.
    pub open spec fn lane_of(&self, d: crate::message::MessageDirection) -> LaneCache {
        match d {
            crate::message::MessageDirection::Clientbound => self.clientbound,
            crate::message::MessageDirection::Serverbound => self.serverbound,
        }
    }

    pub fn new() -> (r: ReassemblyCache)
        ensures
            r.wf(),
            r.clientbound.buffer@.len() == 0,
            r.serverbound.buffer@.len() == 0,
    {
        ReassemblyCache { clientbound: LaneCache::new(), serverbound: LaneCache::new() }
    }

    /// Feeds one record into the lane of its direction; the other lane is
    /// untouched.
    pub fn accept(&mut self, message: Message, now: u64) -> (r: Result<
        Option<Message>,
        MessageError,
    >)
        requires
            old(self).wf(),
            message.wf(),
        ensures
            final(self).wf(),
            r is Ok,
            lane_accept_post(
                old(self).lane_of(message.direction),
                message,
                now,
                final(self).lane_of(message.direction),
                r,
            ),
            message.direction is Clientbound ==> final(self).serverbound == old(self).serverbound,
            message.direction is Serverbound ==> final(self).clientbound == old(self).clientbound,
    {
        match message.direction {
            crate::message::MessageDirection::Clientbound => self.clientbound.accept(message, now),
            crate::message::MessageDirection::Serverbound => self.serverbound.accept(message, now),
        }
    }

    /// Sweeps both lanes.
    pub fn evict_stale(&mut self, now: u64)
        requires
            old(self).wf(),
        ensures
            final(self).wf(),
            old(self).clientbound.expired(now) ==> final(self).clientbound.buffer@.len() == 0,
            !old(self).clientbound.expired(now) ==> final(self).clientbound == old(
                self,
            ).clientbound,
            old(self).serverbound.expired(now) ==> final(self).serverbound.buffer@.len() == 0,
            !old(self).serverbound.expired(now) ==> final(self).serverbound == old(
                self,
            ).serverbound,
    {
        self.clientbound.evict_stale(now);
        self.serverbound.evict_stale(now);
    }
}

} // verus!
