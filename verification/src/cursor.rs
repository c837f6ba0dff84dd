//! Cursor arithmetic on plain integers.

use vstd::prelude::*;
use crate::ring::{available_len, free_len, occupied_len};

verus! {

/// How much space is left for one blocking write attempt.
///
/// The result never exceeds the free space, and it is zero exactly when the ring
/// is full, that is when `size - 1` bytes are unread.
pub fn available_buffer_size(read_cursor: usize, write_cursor: usize, size: usize) -> (available: usize)
    requires
        read_cursor < size,
        write_cursor < size,
    ensures
        available == available_len(read_cursor as int, write_cursor as int, size as int),
        available <= free_len(read_cursor as int, write_cursor as int, size as int),
        available == 0 <==> occupied_len(read_cursor as int, write_cursor as int, size as int) == size - 1,
{
    if read_cursor > write_cursor {
        read_cursor - write_cursor - 1
    } else if read_cursor == 0 {
        size - write_cursor - 1
    } else {
        size - write_cursor
    }
}

} // verus!
