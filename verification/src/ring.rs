//! The channel as mathematics: a ring of bytes, two cursors and a flags word.
//!
//! Everything the executable channel promises is stated over [`Ring`]. The ring's
//! operations are plain functions from one ring to the next, so that what holds
//! of a run of operations can be stated and proved about them directly.

use vstd::prelude::*;
use crate::mode::{host_attached, DISABLE_BLOCKING_MODE};

verus! {

/// The smaller of two integers.
pub open spec fn min_int(a: int, b: int) -> int {
    if a <= b {
        a
    } else {
        b
    }
}

/// Number of unread bytes in a ring of `size` slots: the distance from the read
/// cursor forward to the write cursor, wrapping at the end.
pub open spec fn occupied_len(read: int, write: int, size: int) -> int {
    if write >= read {
        write - read
    } else {
        (size - read) + write
    }
}

/// Number of bytes a single blocking write attempt may store: the free slots that
/// lie in one piece ahead of the write cursor, less the slot that is never filled.
pub open spec fn available_len(read: int, write: int, size: int) -> int {
    if read > write {
        read - write - 1
    } else if read == 0 {
        size - write - 1
    } else {
        size - write
    }
}

/// Number of bytes that can still be stored without touching unread ones.
pub open spec fn free_len(read: int, write: int, size: int) -> int {
    size - 1 - occupied_len(read, write, size)
}

/// The cursor `len` slots after `cursor` in a ring of `size` slots.
pub open spec fn advance(cursor: int, len: int, size: int) -> int {
    (cursor + len) % size
}

/// How far `slot` lies ahead of `cursor`, going round at the end.
pub open spec fn offset_from(cursor: int, slot: int, size: int) -> int {
    if slot >= cursor {
        slot - cursor
    } else {
        slot + size - cursor
    }
}

/// `dst` with `src` copied over the slots `at .. at + src.len()`: one contiguous
/// copy.
pub open spec fn splice(dst: Seq<u8>, at: int, src: Seq<u8>) -> Seq<u8>
    recommends
        0 <= at,
        at + src.len() <= dst.len(),
{
    dst.subrange(0, at) + src + dst.subrange(at + src.len(), dst.len() as int)
}

/// `mem` after `data` has been stored from `cursor` on. Where the data would run
/// past the end, the part that fits goes to `cursor ..` and the rest to the
/// front.
pub open spec fn ring_store(mem: Seq<u8>, cursor: int, data: Seq<u8>) -> Seq<u8>
    recommends
        0 <= cursor < mem.len(),
        data.len() <= mem.len(),
{
    let room = mem.len() - cursor;
    if data.len() <= room {
        splice(mem, cursor, data)
    } else {
        splice(
            splice(mem, cursor, data.subrange(0, room)),
            0,
            data.subrange(room, data.len() as int),
        )
    }
}

/// The `len` bytes of `mem` from `cursor` on, going round at the end.
pub open spec fn ring_load(mem: Seq<u8>, cursor: int, len: int) -> Seq<u8>
    recommends
        0 <= cursor < mem.len(),
        0 <= len <= mem.len(),
{
    let room = mem.len() - cursor;
    if len <= room {
        mem.subrange(cursor, cursor + len)
    } else {
        mem.subrange(cursor, mem.len() as int) + mem.subrange(0, len - room)
    }
}

/// The state of a channel.
#[verifier::ext_equal]
pub struct Ring {
    /// The whole buffer, slot by slot.
    pub mem: Seq<u8>,
    /// Where the next byte is stored.
    pub write: int,
    /// Where the next byte is read.
    pub read: int,
    /// The flags word; its low two bits hold the mode.
    pub flags: usize,
}

impl Ring {
    /// Both cursors lie inside the buffer, which therefore has at least one slot.
    pub open spec fn wf(self) -> bool {
        &&& 0 <= self.write < self.mem.len()
        &&& 0 <= self.read < self.mem.len()
    }

    /// A ring of `size` zeroed slots with both cursors at the start.
    pub open spec fn fresh(size: int, flags: usize) -> Ring {
        Ring { mem: Seq::new(size as nat, |i: int| 0u8), write: 0, read: 0, flags }
    }

    /// Number of slots.
    pub open spec fn capacity(self) -> int {
        self.mem.len() as int
    }

    /// Number of unread bytes.
    pub open spec fn occupied(self) -> int {
        occupied_len(self.read, self.write, self.capacity())
    }

    /// Number of bytes that can be stored without touching unread ones.
    pub open spec fn free(self) -> int {
        free_len(self.read, self.write, self.capacity())
    }

    /// Number of bytes one blocking attempt may store.
    pub open spec fn available(self) -> int {
        available_len(self.read, self.write, self.capacity())
    }

    /// The unread bytes, oldest first.
    pub open spec fn pending(self) -> Seq<u8> {
        ring_load(self.mem, self.read, self.occupied())
    }

    /// Whether the flags signal an attached host.
    pub open spec fn host_attached(self) -> bool {
        host_attached(self.flags)
    }

    /// Whether writes wait for space: a host is attached and waiting has not been
    /// switched off for the build.
    pub open spec fn blocking(self) -> bool {
        self.host_attached() && !DISABLE_BLOCKING_MODE
    }

    /// Whether there is nothing left that a flush would wait for: no host is
    /// attached, or the host has read everything.
    pub open spec fn drained(self) -> bool {
        !self.host_attached() || self.read == self.write
    }

    /// The ring after `data` has been stored from `cursor` on and the write
    /// cursor set just behind it. Nothing else changes.
    pub open spec fn put_at(self, cursor: int, data: Seq<u8>) -> Ring
        recommends
            0 <= cursor < self.capacity(),
            data.len() <= self.capacity(),
    {
        Ring {
            mem: ring_store(self.mem, cursor, data),
            write: advance(cursor, data.len() as int, self.capacity()),
            ..self
        }
    }

    /// The ring after one write attempt has stored `data` at the write cursor.
    pub open spec fn put(self, data: Seq<u8>) -> Ring
        recommends
            data.len() <= self.capacity(),
    {
        self.put_at(self.write, data)
    }

    /// The ring after `data`, of any length, has been written without regard to
    /// unread bytes: the write cursor has moved on by `data.len()`, and the last
    /// `capacity` bytes of `data` (all of it, if it is shorter) lie just behind
    /// it. Bytes written earlier than those are lost.
    pub open spec fn overwrite(self, data: Seq<u8>) -> Ring {
        let kept = min_int(data.len() as int, self.capacity());
        let lost = data.len() - kept;
        self.put_at(advance(self.write, lost, self.capacity()), data.skip(lost))
    }

    /// Number of bytes that a call of `write_all` with `len` bytes takes before it
    /// has to wait for the consumer: all of them, unless writes wait for space and
    /// the free space is less.
    pub open spec fn accepts(self, len: int) -> int {
        if self.blocking() {
            min_int(len, self.free())
        } else {
            len
        }
    }

    /// The ring after a call of `write_all` with `data`.
    pub open spec fn write_all(self, data: Seq<u8>) -> Ring {
        if self.blocking() {
            self.put(data.take(self.accepts(data.len() as int)))
        } else {
            self.overwrite(data)
        }
    }

    /// Number of bytes that a local read into a buffer of `room` bytes moves:
    /// none while a host is attached, else as many unread bytes as fit.
    pub open spec fn read_len(self, room: int) -> int {
        if self.host_attached() {
            0
        } else {
            min_int(self.occupied(), room)
        }
    }

    /// The ring after the consumer has taken `n` bytes: the read cursor has
    /// moved on by `n`.
    pub open spec fn consume(self, n: int) -> Ring {
        Ring { read: advance(self.read, n, self.capacity()), ..self }
    }

    /// Whether a compare-and-swap of the read cursor from `current` to `new`
    /// goes through: the cursor is still at `current`, and `new` is a slot.
    pub open spec fn read_swaps(self, current: int, new: int) -> bool {
        self.read == current && 0 <= new < self.capacity()
    }

    /// The ring after a compare-and-swap of the read cursor from `current` to
    /// `new`: the cursor is at `new` if the swap went through, and nothing has
    /// changed if it did not.
    pub open spec fn swap_read(self, current: int, new: int) -> Ring {
        if self.read_swaps(current, new) {
            Ring { read: new, ..self }
        } else {
            self
        }
    }
}

/// Advancing a cursor by at most one lap is one addition and at most one
/// subtraction.
pub proof fn lemma_advance(cursor: int, len: int, size: int)
    requires
        0 <= cursor < size,
        0 <= len <= size,
    ensures
        advance(cursor, len, size) == if cursor + len >= size {
            cursor + len - size
        } else {
            cursor + len
        },
        0 <= advance(cursor, len, size) < size,
{
    let x = cursor + len;
    if x >= size {
        vstd::arithmetic::div_mod::lemma_mod_sub_multiples_vanish(x, size);
        vstd::arithmetic::div_mod::lemma_small_mod((x - size) as nat, size as nat);
    } else {
        vstd::arithmetic::div_mod::lemma_small_mod(x as nat, size as nat);
    }
}

/// Whole laps do not move a cursor.
pub proof fn lemma_advance_laps(cursor: int, laps: int, len: int, size: int)
    requires
        0 < size,
    ensures
        advance(cursor, size * laps + len, size) == advance(cursor, len, size),
{
    vstd::arithmetic::div_mod::lemma_mod_multiples_vanish(laps, cursor + len, size);
    assert(size * laps + (cursor + len) == cursor + (size * laps + len));
}

/// The space for one attempt never exceeds the free space, and is zero exactly
/// when the ring is full.
pub proof fn lemma_available(read: int, write: int, size: int)
    requires
        0 <= read < size,
        0 <= write < size,
    ensures
        0 <= available_len(read, write, size) <= free_len(read, write, size),
        available_len(read, write, size) == 0 <==> free_len(read, write, size) == 0,
        0 <= occupied_len(read, write, size) < size,
{
}

/// Storing nothing changes nothing.
pub proof fn lemma_put_nothing(r: Ring)
    requires
        r.wf(),
    ensures
        r.put(Seq::<u8>::empty()) == r,
{
    lemma_advance(r.write, 0, r.capacity());
    assert(r.put(Seq::<u8>::empty()).mem =~= r.mem);
}

/// Bytes stored within the free space join the unread bytes at their end, and
/// the ring stays well formed.
pub proof fn lemma_put_appends(r: Ring, data: Seq<u8>)
    requires
        r.wf(),
        data.len() <= r.free(),
    ensures
        r.put(data).wf(),
        r.put(data).occupied() == r.occupied() + data.len(),
        r.put(data).pending() == r.pending() + data,
{
    lemma_advance(r.write, data.len() as int, r.capacity());
    assert(r.put(data).pending() =~= r.pending() + data);
}

/// Two stores in a row that together fit the buffer are one store of the
/// joined bytes.
pub proof fn lemma_put_put(r: Ring, a: Seq<u8>, b: Seq<u8>)
    requires
        r.wf(),
        a.len() + b.len() <= r.capacity(),
    ensures
        r.put(a).put(b) == r.put(a + b),
{
    let n = r.capacity();
    lemma_advance(r.write, a.len() as int, n);
    lemma_advance(r.put(a).write, b.len() as int, n);
    lemma_advance(r.write, (a + b).len() as int, n);
    assert(r.put(a).put(b).mem =~= r.put(a + b).mem);
}

/// What a read of `n` unread bytes copies out is the first `n` unread bytes, and
/// taking them leaves the rest unread.
pub proof fn lemma_consume(r: Ring, n: int)
    requires
        r.wf(),
        0 <= n <= r.occupied(),
    ensures
        r.consume(n).wf(),
        ring_load(r.mem, r.read, n) == r.pending().take(n),
        r.consume(n).occupied() == r.occupied() - n,
        r.consume(n).pending() == r.pending().skip(n),
{
    lemma_advance(r.read, n, r.capacity());
    assert(ring_load(r.mem, r.read, n) =~= r.pending().take(n));
    assert(r.consume(n).pending() =~= r.pending().skip(n));
}

/// Overwriting with no more than one lap of bytes is a single store at the
/// write cursor.
pub proof fn lemma_overwrite_short(r: Ring, data: Seq<u8>)
    requires
        r.wf(),
        data.len() <= r.capacity(),
    ensures
        r.overwrite(data) == r.put(data),
{
    lemma_advance(r.write, 0, r.capacity());
    assert(data.skip(0) =~= data);
}

/// What has just been stored can be loaded again from where it was stored.
pub proof fn lemma_load_stored(mem: Seq<u8>, cursor: int, data: Seq<u8>)
    requires
        0 <= cursor < mem.len(),
        data.len() <= mem.len(),
    ensures
        ring_load(ring_store(mem, cursor, data), cursor, data.len() as int) == data,
{
    assert(ring_load(ring_store(mem, cursor, data), cursor, data.len() as int) =~= data);
}

/// Copying `len` bytes out of the ring to the front of `buf`, in one piece or,
/// where they go round the end, in two, puts there what a load gives and leaves
/// the rest of `buf` as it was.
pub proof fn lemma_load_into(mem: Seq<u8>, cursor: int, len: int, buf: Seq<u8>)
    requires
        0 <= cursor < mem.len(),
        0 <= len <= mem.len(),
        len <= buf.len(),
    ensures
        len <= mem.len() - cursor ==> splice(buf, 0, mem.subrange(cursor, cursor + len))
            == ring_load(mem, cursor, len) + buf.skip(len),
        len > mem.len() - cursor ==> splice(
            splice(buf, 0, mem.subrange(cursor, mem.len() as int)),
            mem.len() - cursor,
            mem.subrange(0, len - (mem.len() - cursor)),
        ) == ring_load(mem, cursor, len) + buf.skip(len),
{
    let room = mem.len() - cursor;
    if len <= room {
        assert(splice(buf, 0, mem.subrange(cursor, cursor + len)) =~= ring_load(mem, cursor, len)
            + buf.skip(len));
    } else {
        assert(splice(
            splice(buf, 0, mem.subrange(cursor, mem.len() as int)),
            room,
            mem.subrange(0, len - room),
        ) =~= ring_load(mem, cursor, len) + buf.skip(len));
    }
}

/// Slot by slot, a store puts each byte of the data as far ahead of the cursor
/// as the byte lies in the data, and leaves the other slots as they are.
pub proof fn lemma_ring_store_slot(mem: Seq<u8>, cursor: int, data: Seq<u8>, slot: int)
    requires
        0 <= cursor < mem.len(),
        data.len() <= mem.len(),
        0 <= slot < mem.len(),
    ensures
        ring_store(mem, cursor, data).len() == mem.len(),
        ring_store(mem, cursor, data)[slot] == if offset_from(cursor, slot, mem.len() as int)
            < data.len() {
            data[offset_from(cursor, slot, mem.len() as int)]
        } else {
            mem[slot]
        },
{
}

/// A store over a buffer that holds a whole lap `lap`, written from `cursor` on,
/// leaves the last `capacity` bytes of `lap + piece` behind the new cursor.
proof fn lemma_store_over_lap(mem: Seq<u8>, cursor: int, lap: Seq<u8>, piece: Seq<u8>)
    requires
        0 <= cursor < mem.len(),
        lap.len() == mem.len(),
        piece.len() <= mem.len(),
    ensures
        ring_store(ring_store(mem, cursor, lap), cursor, piece) == ring_store(
            mem,
            advance(cursor, piece.len() as int, mem.len() as int),
            (lap + piece).skip(piece.len() as int),
        ),
{
    let size = mem.len() as int;
    let start = advance(cursor, piece.len() as int, size);
    let kept = (lap + piece).skip(piece.len() as int);
    let once = ring_store(mem, cursor, lap);
    let twice = ring_store(once, cursor, piece);
    let direct = ring_store(mem, start, kept);
    lemma_advance(cursor, piece.len() as int, size);
    assert forall|slot: int| 0 <= slot < size implies twice[slot] == direct[slot] by {
        lemma_ring_store_slot(mem, cursor, lap, slot);
        lemma_ring_store_slot(once, cursor, piece, slot);
        lemma_ring_store_slot(mem, start, kept, slot);
    }
    assert(twice =~= direct);
}

/// Overwriting lap by lap: once a whole number of laps of `data` has been
/// written, storing the next piece, a full lap or the shorter last one, gives
/// what overwriting with everything up to the end of that piece gives.
pub proof fn lemma_overwrite_step(r: Ring, data: Seq<u8>, done: int, n: int)
    requires
        r.wf(),
        0 <= done,
        done % r.capacity() == 0,
        0 <= n <= r.capacity(),
        done + n <= data.len(),
    ensures
        r.overwrite(data.take(done)).put(data.subrange(done, done + n)) == r.overwrite(
            data.take(done + n),
        ),
        n == r.capacity() ==> (done + n) % r.capacity() == 0,
{
    let size = r.capacity();
    let laps = done / size;
    let before = r.overwrite(data.take(done));
    let after = r.overwrite(data.take(done + n));
    let piece = data.subrange(done, done + n);
    vstd::arithmetic::div_mod::lemma_fundamental_div_mod(done, size);
    vstd::arithmetic::div_mod::lemma_mod_add_multiples_vanish(done, size);
    lemma_advance(r.write, 0, size);
    lemma_advance(r.write, n, size);
    lemma_advance(r.write, size, size);
    lemma_advance(advance(r.write, n, size), size, size);
    if done == 0 {
        assert(before.mem =~= r.mem);
        assert(data.take(n).skip(0) =~= piece);
    } else {
        assert(laps >= 1) by (nonlinear_arith)
            requires
                done == size * laps,
                done > 0,
                size > 0,
        ;
        assert(size * (laps - 1) == done - size) by (nonlinear_arith)
            requires
                done == size * laps,
        ;
        lemma_advance_laps(r.write, laps - 1, 0, size);
        lemma_advance_laps(r.write, laps - 1, n, size);
        let lap = data.subrange(done - size, done);
        assert(data.take(done).skip(done - size) =~= lap);
        assert(data.take(done + n).skip(done + n - size) =~= (lap + piece).skip(n));
        lemma_store_over_lap(r.mem, r.write, lap, piece);
        assert(before.mem == ring_store(r.mem, r.write, lap));
        assert(before.write == r.write);
        assert(after.write == advance(r.write, n, size));
        assert(after.mem == ring_store(r.mem, advance(r.write, n, size), (lap + piece).skip(n)));
    }
}

/// One more attempt of a waiting `write_all`. After `done` bytes of `data` have
/// gone in, all within the free space, the next blocking attempt on what is left
/// stays within the free space too, and the ring is as if `data` up to the end
/// of that attempt had been stored at once. An attempt that takes nothing while
/// bytes are left means that the free space is used up.
pub proof fn lemma_blocking_step(r: Ring, data: Seq<u8>, done: int, n: int)
    requires
        r.wf(),
        0 <= done <= data.len(),
        done <= r.free(),
        n == min_int(data.len() - done, r.put(data.take(done)).available()),
    ensures
        0 <= n,
        done + n <= r.free(),
        done + n <= data.len(),
        r.put(data.take(done + n)).wf(),
        r.put(data.take(done)).put(data.subrange(done, data.len() as int).take(n)) == r.put(
            data.take(done + n),
        ),
        n == 0 && done < data.len() ==> done == r.free(),
{
    let written = data.take(done);
    let now = r.put(written);
    lemma_put_appends(r, written);
    lemma_available(now.read, now.write, now.capacity());
    let piece = data.subrange(done, data.len() as int).take(n);
    assert(written + piece =~= data.take(done + n));
    lemma_put_put(r, written, piece);
    lemma_put_appends(r, data.take(done + n));
}

/// One more attempt of a `write_all` that does not wait. After a whole number
/// of laps of `data` has gone in, the next attempt on what is left takes a full
/// lap or all that is left, and the ring is as if `data` up to the end of that
/// attempt had been written over it at once.
pub proof fn lemma_nonblocking_step(r: Ring, data: Seq<u8>, done: int, n: int)
    requires
        r.wf(),
        0 <= done < data.len(),
        done % r.capacity() == 0,
        n == min_int(data.len() - done, r.capacity()),
    ensures
        0 < n,
        done + n <= data.len(),
        done + n == data.len() || (done + n) % r.capacity() == 0,
        r.overwrite(data.take(done + n)).wf(),
        r.overwrite(data.take(done)).put(data.subrange(done, data.len() as int).take(n))
            == r.overwrite(data.take(done + n)),
{
    let piece = data.subrange(done, data.len() as int).take(n);
    assert(piece =~= data.subrange(done, done + n));
    lemma_overwrite_step(r, data, done, n);
    lemma_overwrite_wf(r, data.take(done + n));
}

/// Overwriting leaves the ring well formed.
pub proof fn lemma_overwrite_wf(r: Ring, data: Seq<u8>)
    requires
        r.wf(),
    ensures
        r.overwrite(data).wf(),
        r.overwrite(data).read == r.read,
        r.overwrite(data).flags == r.flags,
        r.overwrite(data).capacity() == r.capacity(),
{
    let size = r.capacity();
    let kept = min_int(data.len() as int, size);
    let start = advance(r.write, data.len() - kept, size);
    vstd::arithmetic::div_mod::lemma_mod_bound(r.write + (data.len() - kept), size);
    lemma_advance(start, kept, size);
}

} // verus!
