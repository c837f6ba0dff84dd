//! Channel flags and build-time configuration.

use vstd::prelude::*;

verus! {

/// Capacity, in bytes, of a channel built with default settings. A power of two
/// keeps the wrap arithmetic cheap; any positive capacity works.
pub const BUF_SIZE: usize = 1024;

/// The bits of the flags word that hold the channel mode.
pub const MODE_MASK: usize = 0b11;

/// Mode: never stall the writer; unread bytes are overwritten when the consumer
/// lags behind.
pub const MODE_NON_BLOCKING_TRIM: usize = 1;

/// Mode: hold the writer back until the consumer has freed space. A host sets this
/// mode when it attaches, so it doubles as the "host attached" signal.
pub const MODE_BLOCK_IF_FULL: usize = 2;

/// When `true`, writes never wait for space, whatever the flags say.
pub const DISABLE_BLOCKING_MODE: bool = false;

/// Whether a flags word signals an attached host.
pub open spec fn host_attached(flags: usize) -> bool {
    flags & MODE_MASK == MODE_BLOCK_IF_FULL
}

} // verus!
