//! A single up channel for streaming bytes out of a device to a host that reads
//! the channel's memory on its own.
//!
//! The channel is a fixed-capacity ring of bytes with a write cursor and a read
//! cursor. One slot is never filled, so that a full ring and an empty ring can be
//! told apart by the cursors alone. The device side writes; the consumer is either
//! the attached host or, while no host is attached, local code calling
//! [`channel::Channel::read`].
//!
//! Exclusive access (`&mut Channel`) stands for the single-writer discipline: the
//! consumer takes its turns between calls, never during one. Operations that wait
//! on the consumer therefore do not spin here. They run up to the point where
//! progress depends on the consumer and report how far they got, and the caller
//! repeats them once the consumer has had a turn.

pub mod mode;
pub mod ring;
pub mod cursor;
pub mod channel;
pub mod history;
pub mod laws;
