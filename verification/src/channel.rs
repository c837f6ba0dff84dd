//! The executable channel.

use vstd::prelude::*;
use crate::cursor::available_buffer_size;
use crate::mode::{
    BUF_SIZE, DISABLE_BLOCKING_MODE, MODE_BLOCK_IF_FULL, MODE_MASK, MODE_NON_BLOCKING_TRIM,
};
use crate::ring::{
    lemma_advance, lemma_available, lemma_blocking_step, lemma_consume, lemma_load_into,
    lemma_nonblocking_step, lemma_overwrite_short, lemma_overwrite_wf, lemma_put_appends, lemma_put_nothing, min_int,
    splice, Ring,
};

verus! {

/// An up channel: a ring buffer that the device side writes and a consumer reads.
///
/// The consumer is the attached host or, while none is attached, local code that
/// calls [`Channel::read`]. A `&mut Channel` is the writer's token: whoever holds
/// it is the only one acting on the channel for the length of a call.
pub struct Channel {
    /// The ring's slots. Its length is the capacity and never changes.
    buffer: Vec<u8>,
    /// Written by the device side.
    write: usize,
    /// Written by the consumer.
    read: usize,
    /// The flags word. Its lowest two bits hold the mode.
    flags: usize,
}

impl View for Channel {
    type V = Ring;

    closed spec fn view(&self) -> Ring {
        Ring {
            mem: self.buffer@,
            write: self.write as int,
            read: self.read as int,
            flags: self.flags,
        }
    }
}

impl Default for Channel {
    /// A channel of [`BUF_SIZE`] bytes in non-blocking mode, with no host
    /// attached.
    fn default() -> (channel: Channel)
        ensures
            channel@ == Ring::fresh(BUF_SIZE as int, MODE_NON_BLOCKING_TRIM),
            channel@.wf(),
    {
        Channel::new(BUF_SIZE, MODE_NON_BLOCKING_TRIM)
    }
}

impl Channel {
    #[verifier::type_invariant]
    spec fn inv(&self) -> bool {
        &&& self.write < self.buffer.len()
        &&& self.read < self.buffer.len()
    }

    /// A channel of `size` zeroed slots, empty, with the given flags.
    pub fn new(size: usize, flags: usize) -> (channel: Channel)
        requires
            size > 0,
        ensures
            channel@ == Ring::fresh(size as int, flags),
            channel@.wf(),
    {
        let buffer = vec![0u8; size];
        assert(buffer@ =~= Seq::new(size as nat, |i: int| 0u8));
        Channel { buffer, write: 0, read: 0, flags }
    }

    /// The capacity in bytes. One slot of it is never filled.
    pub fn size(&self) -> (size: usize)
        ensures
            size == self@.capacity(),
            self@.wf(),
    {
        proof {
            use_type_invariant(self);
        }
        self.buffer.len()
    }

    /// The write cursor.
    pub fn write_cursor(&self) -> (cursor: usize)
        ensures
            cursor == self@.write,
            cursor < self@.capacity(),
    {
        proof {
            use_type_invariant(self);
        }
        self.write
    }

    /// The read cursor.
    pub fn read_cursor(&self) -> (cursor: usize)
        ensures
            cursor == self@.read,
            cursor < self@.capacity(),
    {
        proof {
            use_type_invariant(self);
        }
        self.read
    }

    /// The flags word.
    pub fn flags(&self) -> (flags: usize)
        ensures
            flags == self@.flags,
    {
        self.flags
    }

    /// The buffer as it lies in memory, slot by slot.
    pub fn buffer(&self) -> (slots: &[u8])
        ensures
            slots@ == self@.mem,
    {
        self.buffer.as_slice()
    }

    /// Whether a host is attached. The channel assumes so exactly when it is in
    /// blocking mode.
    pub fn host_is_connected(&self) -> (connected: bool)
        ensures
            connected == self@.host_attached(),
    {
        self.flags & MODE_MASK == MODE_BLOCK_IF_FULL
    }

    /// One contiguous copy into the buffer: `count` bytes of `src` from `from` on
    /// go to the slots from `at` on.
    fn store(&mut self, at: usize, src: &[u8], from: usize, count: usize)
        requires
            at + count <= old(self)@.capacity(),
            from + count <= src@.len(),
        ensures
            final(self)@ == (Ring {
                mem: splice(old(self)@.mem, at as int, src@.subrange(from as int, from + count)),
                ..old(self)@
            }),
    {
        proof {
            use_type_invariant(&*self);
        }
        let size = self.buffer.len();
        let src_len = src.len();
        let mut i: usize = 0;
        while i < count
            invariant
                i <= count,
                at + count <= size,
                from + count <= src_len,
                size == self.buffer@.len(),
                size == old(self).buffer@.len(),
                src_len == src@.len(),
                self.write == old(self).write,
                self.read == old(self).read,
                self.flags == old(self).flags,
                self.write < self.buffer@.len(),
                self.read < self.buffer@.len(),
                self.buffer@ == splice(
                    old(self).buffer@,
                    at as int,
                    src@.subrange(from as int, from + i),
                ),
            decreases count - i,
        {
            self.buffer[at + i] = src[from + i];
            i += 1;
        }
    }

    /// Copies up to `available` bytes of `bytes` into the buffer from `cursor` on,
    /// in two pieces where they would run past the end, then sets the write
    /// cursor just behind them. Returns the number of bytes copied.
    fn write_impl(&mut self, bytes: &[u8], cursor: usize, available: usize) -> (len: usize)
        requires
            cursor < old(self)@.capacity(),
            available <= old(self)@.capacity(),
        ensures
            len == min_int(bytes@.len() as int, available as int),
            final(self)@ == old(self)@.put_at(cursor as int, bytes@.take(len as int)),
            final(self)@.wf(),
    {
        proof {
            use_type_invariant(&*self);
        }
        let size = self.buffer.len();
        let len = if bytes.len() < available {
            bytes.len()
        } else {
            available
        };
        let room = size - cursor;
        proof {
            lemma_advance(cursor as int, len as int, size as int);
        }
        // the bytes go in first
        if len > room {
            self.store(cursor, bytes, 0, room);
            self.store(0, bytes, room, len - room);
        } else {
            self.store(cursor, bytes, 0, len);
        }
        // and only then the cursor, so that whoever sees it moved finds the bytes
        self.write = if len >= room {
            len - room
        } else {
            cursor + len
        };
        assert(self@.mem =~= old(self)@.put_at(cursor as int, bytes@.take(len as int)).mem);
        len
    }

    /// One write attempt that waits for nothing: stores as much of `bytes` as one
    /// lap holds, over unread bytes if the consumer has fallen behind. Returns the
    /// number of bytes taken, which is zero only for empty input.
    pub fn nonblocking_write(&mut self, bytes: &[u8]) -> (consumed: usize)
        ensures
            consumed == min_int(bytes@.len() as int, old(self)@.capacity()),
            final(self)@ == old(self)@.put(bytes@.take(consumed as int)),
            final(self)@.wf(),
    {
        proof {
            use_type_invariant(&*self);
        }
        let write = self.write;
        let size = self.buffer.len();
        // at most one lap, so that one call wraps round at most once
        self.write_impl(bytes, write, size)
    }

    /// One write attempt that leaves unread bytes alone: stores as much of
    /// `bytes` as the space ahead of the write cursor holds. Returns the number
    /// of bytes taken. Zero for non-empty input means that the ring is full, and
    /// that the consumer has to read before another attempt can get further.
    pub fn blocking_write(&mut self, bytes: &[u8]) -> (consumed: usize)
        ensures
            consumed == min_int(bytes@.len() as int, old(self)@.available()),
            final(self)@ == old(self)@.put(bytes@.take(consumed as int)),
            final(self)@.wf(),
    {
        proof {
            use_type_invariant(&*self);
            lemma_put_nothing(self@);
            lemma_available(self@.read, self@.write, self@.capacity());
            assert(bytes@.take(0) =~= Seq::<u8>::empty());
        }
        if bytes.len() == 0 {
            return 0;
        }
        // how much space is left in the buffer
        let read = self.read;
        let write = self.write;
        let available = available_buffer_size(read, write, self.buffer.len());
        // nothing to do while the buffer is full
        if available == 0 {
            return 0;
        }
        self.write_impl(bytes, write, available)
    }

    /// Writes `bytes` in order, one attempt after the other, for as long as
    /// attempts make progress, and returns the number of bytes written.
    ///
    /// The mode is decided once, on entry. Without an attached host every byte is
    /// written, over unread bytes where the consumer has fallen behind. With one,
    /// unread bytes are left alone: the call writes what the free space holds and
    /// returns at the point where it would have to wait for the host. A result
    /// short of `bytes.len()` means that the ring is full. The caller lets the
    /// host read and calls again with the bytes that are left.
    pub fn write_all(&mut self, bytes: &[u8]) -> (consumed: usize)
        ensures
            consumed == old(self)@.accepts(bytes@.len() as int),
            final(self)@ == old(self)@.write_all(bytes@),
            final(self)@.wf(),
    {
        proof {
            use_type_invariant(&*self);
            lemma_put_nothing(self@);
            lemma_overwrite_short(self@, Seq::<u8>::empty());
            assert(bytes@.take(0) =~= Seq::<u8>::empty());
        }
        // the mode changes only while the device is halted, so one look is enough
        let blocking = !DISABLE_BLOCKING_MODE && self.host_is_connected();
        let len = bytes.len();
        let mut consumed: usize = 0;
        while consumed < len
            invariant
                len == bytes@.len(),
                consumed <= len,
                blocking == old(self)@.blocking(),
                old(self)@.wf(),
                blocking ==> consumed <= old(self)@.free(),
                blocking ==> self@ == old(self)@.put(bytes@.take(consumed as int)),
                !blocking ==> consumed == len || consumed as int % old(self)@.capacity() == 0,
                !blocking ==> self@ == old(self)@.overwrite(bytes@.take(consumed as int)),
            ensures
                consumed <= len,
                blocking ==> consumed == min_int(len as int, old(self)@.free()),
                blocking ==> self@ == old(self)@.put(bytes@.take(consumed as int)),
                !blocking ==> consumed == len,
                !blocking ==> self@ == old(self)@.overwrite(bytes@.take(consumed as int)),
            decreases len - consumed,
        {
            let rest = &bytes[consumed..len];
            let n = if blocking {
                self.blocking_write(rest)
            } else {
                self.nonblocking_write(rest)
            };
            proof {
                if blocking {
                    lemma_blocking_step(old(self)@, bytes@, consumed as int, n as int);
                } else {
                    lemma_nonblocking_step(old(self)@, bytes@, consumed as int, n as int);
                }
            }
            if n == 0 {
                // the ring is full: nothing more goes in before the host has read
                break ;
            }
            consumed += n;
        }
        proof {
            assert(bytes@.take(len as int) =~= bytes@);
            lemma_overwrite_wf(old(self)@, bytes@);
            if blocking {
                lemma_put_appends(old(self)@, bytes@.take(consumed as int));
            }
        }
        consumed
    }

    /// Tells whether a flush is complete: no host is attached, or the host's read
    /// cursor has caught up with the write cursor.
    ///
    /// Flushing is waiting until this holds. Only the host can make it so, in a
    /// turn of its own, so the caller repeats the call between the host's turns
    /// until it returns `true`.
    pub fn flush(&self) -> (drained: bool)
        ensures
            drained == self@.drained(),
    {
        // nothing to wait for without a host
        if !self.host_is_connected() {
            return true;
        }
        self.read == self.write
    }

    /// Moves unread bytes into `buf`, oldest first, and returns how many.
    ///
    /// While a host is attached the read cursor is the host's alone, and this
    /// returns 0 without touching anything. Otherwise as many unread bytes as
    /// `buf` holds are copied to the front of `buf`, and the read cursor moves on
    /// by that many. The rest of `buf` keeps what it held.
    pub fn read(&mut self, buf: &mut [u8]) -> (moved: usize)
        ensures
            moved == old(self)@.read_len(old(buf)@.len() as int),
            final(self)@ == old(self)@.consume(moved as int),
            final(buf)@ == old(self)@.pending().take(moved as int) + old(buf)@.skip(moved as int),
            old(self)@.host_attached() ==> final(self)@ == old(self)@ && final(buf)@ == old(
                buf,
            )@,
            final(self)@.wf(),
    {
        proof {
            use_type_invariant(&*self);
            lemma_advance(self@.read, 0, self@.capacity());
            assert(self@.pending().take(0) + buf@.skip(0) =~= buf@);
        }
        if self.host_is_connected() {
            return 0;
        }
        let read = self.read;
        let write = self.write;
        let size = self.buffer.len();
        let occupied = if read == write {
            0
        } else if read < write {
            write - read
        } else {
            (size - read) + write
        };
        let len = if occupied < buf.len() {
            occupied
        } else {
            buf.len()
        };
        let room = size - read;
        proof {
            lemma_advance(read as int, len as int, size as int);
            lemma_consume(self@, len as int);
            lemma_load_into(self@.mem, read as int, len as int, buf@);
        }
        let new_read = if len > room {
            // the unread bytes go round the end: two copies
            copy_out(buf, 0, self.buffer.as_slice(), read, room);
            copy_out(buf, room, self.buffer.as_slice(), 0, len - room);
            len - room
        } else {
            // one copy
            copy_out(buf, 0, self.buffer.as_slice(), read, len);
            if len == room {
                0
            } else {
                read + len
            }
        };
        // The cursor moves on from the value seen above, and only from that one.
        // Nobody else can have moved it since, as the caller holds the channel
        // exclusively, so the swap goes through.
        if self.compare_exchange_read(read, new_read) {
            len
        } else {
            0
        }
    }

    /// The consumer's compare-and-swap on the read cursor: sets it to `new` if
    /// it is still at `current` and `new` lies inside the buffer, and says
    /// whether it did.
    ///
    /// A reader that copies bytes out in one turn and moves the cursor in a later
    /// one uses this to find out whether another reader was faster: of the
    /// readers that saw the same cursor, only the first one's swap goes through.
    pub fn compare_exchange_read(&mut self, current: usize, new: usize) -> (swapped: bool)
        ensures
            swapped == old(self)@.read_swaps(current as int, new as int),
            final(self)@ == old(self)@.swap_read(current as int, new as int),
            final(self)@.wf(),
    {
        proof {
            use_type_invariant(&*self);
        }
        if self.read == current && new < self.buffer.len() {
            self.read = new;
            true
        } else {
            false
        }
    }

    /// The consumer's store to the read cursor: sets it to `cursor` if that lies
    /// inside the buffer, and says whether it did. This is how a host's progress
    /// enters the channel.
    pub fn set_read_cursor(&mut self, cursor: usize) -> (stored: bool)
        ensures
            stored == (cursor < old(self)@.capacity()),
            stored ==> final(self)@ == (Ring { read: cursor as int, ..old(self)@ }),
            !stored ==> final(self)@ == old(self)@,
            final(self)@.wf(),
    {
        proof {
            use_type_invariant(&*self);
        }
        if cursor < self.buffer.len() {
            self.read = cursor;
            true
        } else {
            false
        }
    }

    /// Replaces the flags word. A host attaches by setting the blocking mode and
    /// detaches by setting another.
    pub fn set_flags(&mut self, flags: usize)
        ensures
            final(self)@ == (Ring { flags, ..old(self)@ }),
            final(self)@.wf(),
    {
        proof {
            use_type_invariant(&*self);
        }
        self.flags = flags;
    }
}

/// One contiguous copy out of a buffer: `count` bytes of `src` from `from` on go
/// to `dst` from `at` on.
fn copy_out(dst: &mut [u8], at: usize, src: &[u8], from: usize, count: usize)
    requires
        at + count <= old(dst)@.len(),
        from + count <= src@.len(),
    ensures
        final(dst)@ == splice(old(dst)@, at as int, src@.subrange(from as int, from + count)),
{
    let dst_len = dst.len();
    let src_len = src.len();
    let mut i: usize = 0;
    while i < count
        invariant
            i <= count,
            at + count <= dst_len,
            from + count <= src_len,
            dst_len == dst@.len(),
            dst_len == old(dst)@.len(),
            src_len == src@.len(),
            dst@ == splice(old(dst)@, at as int, src@.subrange(from as int, from + i)),
        decreases count - i,
    {
        dst[at + i] = src[from + i];
        i += 1;
    }
}

} // verus!
