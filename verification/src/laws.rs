//! What holds of the channel across calls, stated over [`Ring`] and proved.

use vstd::prelude::*;
use crate::history::{written, Step};
use crate::ring::{
    advance, lemma_advance, lemma_advance_laps, lemma_available, lemma_consume,
    lemma_load_stored, lemma_overwrite_short, lemma_put_appends, lemma_put_nothing, min_int,
    ring_load, Ring,
};

verus! {

/// One step keeps every byte in its place. Whatever the mode, a write that
/// fits the free space is taken in full; and what a step hands to the consumer,
/// followed by what is unread after it, is what was unread before it followed by
/// what it was given to write.
pub proof fn step_keeps_order(r: Ring, step: Step)
    requires
        r.wf(),
        r.admits(step),
    ensures
        r.after(step).wf(),
        r.after(step).capacity() == r.capacity(),
        r.after(step).flags == r.flags,
        r.accepts(step.given().len() as int) == step.given().len(),
        r.yields(step) + r.after(step).pending() == r.pending() + step.given(),
{
    match step {
        Step::Write(data) => {
            assert(data.take(data.len() as int) =~= data);
            lemma_overwrite_short(r, data);
            lemma_put_appends(r, data);
            assert(r.yields(step) + r.after(step).pending() =~= r.pending() + data);
        },
        Step::Read(room) => {
            let n = r.read_len(room);
            lemma_consume(r, n);
            assert(r.pending().take(n) + r.pending().skip(n) =~= r.pending() + step.given());
        },
        Step::HostRead(count) => {
            lemma_consume(r, count);
            assert(r.pending().take(count) + r.pending().skip(count) =~= r.pending()
                + step.given());
        },
    }
}

/// Two accounts of bytes handed out and bytes left, one after the other, make
/// one account.
proof fn lemma_join_accounts(
    out: Seq<u8>,
    left: Seq<u8>,
    start: Seq<u8>,
    given: Seq<u8>,
    out_rest: Seq<u8>,
    end: Seq<u8>,
    given_rest: Seq<u8>,
)
    requires
        out + left == start + given,
        out_rest + end == left + given_rest,
    ensures
        (out + out_rest) + end == start + (given + given_rest),
{
    assert((out + out_rest) + end =~= out + (out_rest + end));
    assert(out + (left + given_rest) =~= (out + left) + given_rest);
    assert((start + given) + given_rest =~= start + (given + given_rest));
}

/// Nothing is lost, repeated or reordered. Over any run of writes and reads in
/// which no write is larger than the free space it finds, what the consumer has
/// been handed, followed by what is still unread, is what was unread at the
/// start followed by everything written since, byte for byte.
pub proof fn reader_sees_what_was_written(r: Ring, steps: Seq<Step>)
    requires
        r.wf(),
        r.admits_all(steps),
    ensures
        r.after_all(steps).wf(),
        r.yields_all(steps) + r.after_all(steps).pending() == r.pending() + written(steps),
    decreases steps.len(),
{
    if steps.len() == 0 {
        assert(r.yields_all(steps) + r.pending() =~= r.pending() + written(steps));
    } else {
        let first = steps.first();
        let next = r.after(first);
        let rest = steps.drop_first();
        step_keeps_order(r, first);
        reader_sees_what_was_written(next, rest);
        lemma_join_accounts(
            r.yields(first),
            next.pending(),
            r.pending(),
            first.given(),
            next.yields_all(rest),
            next.after_all(rest).pending(),
            written(rest),
        );
    }
}

/// A reader takes the oldest bytes. Without a host, a read into a buffer of
/// `room` bytes moves as many unread bytes as fit, oldest first, and leaves the
/// others unread in their order. With enough room it leaves the ring empty.
pub proof fn read_takes_oldest(r: Ring, room: int)
    requires
        r.wf(),
        !r.host_attached(),
        0 <= room,
    ensures
        r.read_len(room) == min_int(r.occupied(), room),
        r.consume(r.read_len(room)).wf(),
        ring_load(r.mem, r.read, r.read_len(room)) == r.pending().take(r.read_len(room)),
        r.consume(r.read_len(room)).pending() == r.pending().skip(r.read_len(room)),
        r.consume(r.read_len(room)).occupied() == r.occupied() - r.read_len(room),
        room >= r.occupied() ==> r.consume(r.read_len(room)).read == r.write,
{
    lemma_consume(r, r.read_len(room));
    lemma_advance(r.read, r.read_len(room), r.capacity());
}

/// A flush waits for the unread bytes and for nothing else. With a host
/// attached, a flush is complete exactly when no byte is unread; bytes stored
/// after that, few enough to fit the free space, make it incomplete again.
/// Without a host it is always complete.
pub proof fn flush_waits_for_unread_bytes(r: Ring, data: Seq<u8>)
    requires
        r.wf(),
        0 < data.len() <= r.free(),
    ensures
        r.drained() <==> !r.host_attached() || r.occupied() == 0,
        r.occupied() == 0 <==> r.pending().len() == 0,
        r.host_attached() ==> !r.put(data).drained(),
{
    lemma_put_appends(r, data);
}

/// Of the readers that saw the same read cursor, one moves it. Once a swap
/// from `seen` has moved the cursor to another slot, a later swap from `seen`
/// fails, whatever it tries to set, and changes nothing.
pub proof fn second_swap_fails(r: Ring, seen: int, first: int, second: int)
    requires
        r.wf(),
        r.read_swaps(seen, first),
        first != seen,
    ensures
        r.swap_read(seen, first).wf(),
        r.swap_read(seen, first).read == first,
        !r.swap_read(seen, first).read_swaps(seen, second),
        r.swap_read(seen, first).swap_read(seen, second) == r.swap_read(seen, first),
{
}

/// Round trip. Without a host, writing fewer bytes than the capacity into an
/// empty ring and then reading into a buffer of the same length moves all of
/// them, gives back exactly what was written, and leaves the ring empty.
pub proof fn round_trip(r: Ring, data: Seq<u8>)
    requires
        r.wf(),
        !r.host_attached(),
        r.read == r.write,
        data.len() < r.capacity(),
    ensures
        r.accepts(data.len() as int) == data.len(),
        r.write_all(data).read_len(data.len() as int) == data.len(),
        r.write_all(data).pending().take(data.len() as int) == data,
        r.write_all(data).consume(data.len() as int).occupied() == 0,
{
    let filled = r.write_all(data);
    lemma_overwrite_short(r, data);
    lemma_put_appends(r, data);
    assert(r.pending() =~= Seq::<u8>::empty());
    assert(filled.pending() =~= data);
    assert(data.take(data.len() as int) =~= data);
    lemma_consume(filled, data.len() as int);
}

/// Waiting writes never touch unread bytes. In blocking mode a call of
/// `write_all` takes what the free space holds and no more: the bytes taken join
/// the unread ones at their end, and never more than `capacity - 1` bytes are
/// unread. Where the call stops short, the ring is full, and a further attempt
/// finds no space at all until the consumer has read.
pub proof fn blocking_write_keeps_unread(r: Ring, data: Seq<u8>)
    requires
        r.wf(),
        r.blocking(),
    ensures
        0 <= r.accepts(data.len() as int) <= data.len(),
        r.write_all(data).wf(),
        r.write_all(data).pending() == r.pending() + data.take(r.accepts(data.len() as int)),
        r.write_all(data).occupied() == r.occupied() + r.accepts(data.len() as int),
        r.write_all(data).occupied() <= r.capacity() - 1,
        r.accepts(data.len() as int) < data.len() ==> {
            &&& r.write_all(data).occupied() == r.capacity() - 1
            &&& r.write_all(data).available() == 0
            &&& r.write_all(data).accepts(data.len() - r.accepts(data.len() as int)) == 0
        },
{
    let taken = data.take(r.accepts(data.len() as int));
    lemma_available(r.read, r.write, r.capacity());
    lemma_put_appends(r, taken);
    let after = r.write_all(data);
    lemma_available(after.read, after.write, after.capacity());
}

/// A full ring takes nothing. Once `capacity - 1` bytes are unread there is no
/// space left: a blocking attempt stores nothing, whatever it is given, and
/// `write_all` in blocking mode takes nothing and leaves the ring as it is. So
/// does any later call while the read cursor stays where it is.
pub proof fn full_ring_has_no_space(r: Ring, data: Seq<u8>)
    requires
        r.wf(),
        r.occupied() == r.capacity() - 1,
    ensures
        r.free() == 0,
        r.available() == 0,
        min_int(data.len() as int, r.available()) == 0,
        r.put(data.take(0)) == r,
        r.blocking() ==> r.accepts(data.len() as int) == 0 && r.write_all(data) == r,
{
    lemma_available(r.read, r.write, r.capacity());
    lemma_put_nothing(r);
    assert(data.take(0) =~= Seq::<u8>::empty());
}

/// Writes that do not wait keep the latest bytes. Outside blocking mode a call
/// of `write_all` takes every byte, moves the write cursor on by their number,
/// and leaves the last `capacity` of them (all, if there are fewer) in the
/// buffer, in order, ending just before the write cursor.
pub proof fn overwrite_keeps_latest(r: Ring, data: Seq<u8>)
    requires
        r.wf(),
        !r.blocking(),
    ensures
        r.accepts(data.len() as int) == data.len(),
        r.write_all(data).wf(),
        r.write_all(data).read == r.read,
        r.write_all(data).write == advance(r.write, data.len() as int, r.capacity()),
        ({
            let kept = min_int(data.len() as int, r.capacity());
            let start = advance(r.write, data.len() - kept, r.capacity());
            &&& ring_load(r.write_all(data).mem, start, kept) == data.skip(data.len() - kept)
            &&& advance(start, kept, r.capacity()) == r.write_all(data).write
        }),
{
    let size = r.capacity();
    let kept = min_int(data.len() as int, size);
    let lost = data.len() - kept;
    let start = advance(r.write, lost, size);
    assert(0 <= start < size && advance(start, kept, size) == advance(
        r.write,
        data.len() as int,
        size,
    )) by {
        if lost == 0 {
            lemma_advance(r.write, 0, size);
        } else {
            // kept == size: the kept bytes fill one whole lap
            vstd::arithmetic::div_mod::lemma_mod_bound(r.write + lost, size);
            lemma_advance(start, size, size);
            lemma_advance_laps(r.write, 1, lost, size);
            assert(size * 1 + lost == data.len());
            vstd::arithmetic::div_mod::lemma_mod_add_multiples_vanish(r.write + lost, size);
            assert(advance(r.write, data.len() as int, size) == (size + (r.write + lost)) % size);
        }
    }
    lemma_load_stored(r.mem, start, data.skip(lost));
}

/// Writes that do not wait forget what a later lap has covered: two inputs of
/// one length that agree in their last `capacity` bytes leave the same ring.
pub proof fn overwrite_forgets_older(r: Ring, data: Seq<u8>, other: Seq<u8>)
    requires
        r.wf(),
        !r.blocking(),
        data.len() == other.len(),
        data.len() >= r.capacity(),
        data.skip(data.len() - r.capacity()) == other.skip(other.len() - r.capacity()),
    ensures
        r.write_all(data) == r.write_all(other),
{
}

} // verus!
