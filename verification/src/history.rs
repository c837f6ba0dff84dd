//! Runs of operations on a channel, one after the other.

use vstd::prelude::*;
use crate::ring::Ring;

verus! {

/// One operation on a channel.
pub enum Step {
    /// A call of `write_all` with these bytes.
    Write(Seq<u8>),
    /// A local read into a buffer of this many bytes.
    Read(int),
    /// The host takes this many of the unread bytes and moves the read cursor
    /// past them.
    HostRead(int),
}

impl Step {
    /// The bytes that this step gives the channel to write.
    pub open spec fn given(self) -> Seq<u8> {
        match self {
            Step::Write(data) => data,
            _ => Seq::empty(),
        }
    }
}

impl Ring {
    /// Whether `step` stays within what the ring holds: a write within the free
    /// space, a host within the unread bytes.
    pub open spec fn admits(self, step: Step) -> bool {
        match step {
            Step::Write(data) => data.len() <= self.free(),
            Step::Read(room) => 0 <= room,
            Step::HostRead(count) => 0 <= count <= self.occupied(),
        }
    }

    /// The ring after `step`.
    pub open spec fn after(self, step: Step) -> Ring {
        match step {
            Step::Write(data) => self.write_all(data),
            Step::Read(room) => self.consume(self.read_len(room)),
            Step::HostRead(count) => self.consume(count),
        }
    }

    /// The bytes that `step` hands to the consumer.
    pub open spec fn yields(self, step: Step) -> Seq<u8> {
        match step {
            Step::Write(data) => Seq::empty(),
            Step::Read(room) => self.pending().take(self.read_len(room)),
            Step::HostRead(count) => self.pending().take(count),
        }
    }

    /// Whether each of `steps`, taken in turn, stays within what the ring holds
    /// at that point.
    pub open spec fn admits_all(self, steps: Seq<Step>) -> bool
        decreases steps.len(),
    {
        steps.len() > 0 ==> self.admits(steps.first()) && self.after(steps.first()).admits_all(
            steps.drop_first(),
        )
    }

    /// The ring after each of `steps` in turn.
    pub open spec fn after_all(self, steps: Seq<Step>) -> Ring
        decreases steps.len(),
    {
        if steps.len() == 0 {
            self
        } else {
            self.after(steps.first()).after_all(steps.drop_first())
        }
    }

    /// All the bytes that `steps`, taken in turn, hand to the consumer.
    pub open spec fn yields_all(self, steps: Seq<Step>) -> Seq<u8>
        decreases steps.len(),
    {
        if steps.len() == 0 {
            Seq::empty()
        } else {
            self.yields(steps.first()) + self.after(steps.first()).yields_all(steps.drop_first())
        }
    }
}

/// All the bytes that the writes among `steps` were given, in order.
pub open spec fn written(steps: Seq<Step>) -> Seq<u8>
    decreases steps.len(),
{
    if steps.len() == 0 {
        Seq::empty()
    } else {
        steps.first().given() + written(steps.drop_first())
    }
}

} // verus!
