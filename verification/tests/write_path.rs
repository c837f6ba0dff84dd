use rtt_channel::channel::Channel;
use rtt_channel::mode::{BUF_SIZE, MODE_BLOCK_IF_FULL, MODE_NON_BLOCKING_TRIM};

fn occupied(channel: &Channel) -> usize {
    let (read, write, size) = (channel.read_cursor(), channel.write_cursor(), channel.size());
    if write >= read {
        write - read
    } else {
        size - read + write
    }
}

#[test]
fn new_channel_is_empty_and_zeroed() {
    let channel = Channel::new(BUF_SIZE, MODE_NON_BLOCKING_TRIM);
    assert_eq!(channel.size(), 1024);
    assert_eq!(channel.write_cursor(), 0);
    assert_eq!(channel.read_cursor(), 0);
    assert_eq!(channel.flags(), MODE_NON_BLOCKING_TRIM);
    assert_eq!(channel.buffer().len(), 1024);
    assert!(channel.buffer().iter().all(|&b| b == 0));
}

#[test]
fn nonblocking_write_stores_at_cursor() {
    let mut channel = Channel::new(8, MODE_NON_BLOCKING_TRIM);
    assert_eq!(channel.nonblocking_write(&[1, 2, 3]), 3);
    assert_eq!(channel.buffer(), &[1, 2, 3, 0, 0, 0, 0, 0]);
    assert_eq!(channel.write_cursor(), 3);
    assert_eq!(channel.read_cursor(), 0);
}

#[test]
fn nonblocking_write_of_nothing_takes_nothing() {
    let mut channel = Channel::new(8, MODE_NON_BLOCKING_TRIM);
    assert_eq!(channel.nonblocking_write(&[]), 0);
    assert_eq!(channel.write_cursor(), 0);
    assert_eq!(channel.buffer(), &[0; 8]);
}

#[test]
fn nonblocking_write_is_cut_to_one_lap() {
    let mut channel = Channel::new(4, MODE_NON_BLOCKING_TRIM);
    assert_eq!(channel.nonblocking_write(&[1, 2]), 2);
    // six bytes offered, four taken: they wrap once and end where they began
    assert_eq!(channel.nonblocking_write(&[10, 11, 12, 13, 14, 15]), 4);
    assert_eq!(channel.buffer(), &[12, 13, 10, 11]);
    assert_eq!(channel.write_cursor(), 2);
}

#[test]
fn nonblocking_write_all_always_takes_everything() {
    let mut channel = Channel::new(4, MODE_NON_BLOCKING_TRIM);
    let data: Vec<u8> = (1..=10).collect();
    // the reader never moves
    assert_eq!(channel.write_all(&data), 10);
    assert_eq!(channel.read_cursor(), 0);
    assert_eq!(channel.write_cursor(), 10 % 4);
    // only the last four bytes are still there, ending just before the cursor
    assert_eq!(channel.buffer(), &[9, 10, 7, 8]);
}

#[test]
fn nonblocking_write_all_of_whole_laps_keeps_last_lap() {
    let mut channel = Channel::new(4, MODE_NON_BLOCKING_TRIM);
    assert_eq!(channel.write_all(&[5]), 1);
    let data: Vec<u8> = (1..=8).collect();
    assert_eq!(channel.write_all(&data), 8);
    assert_eq!(channel.write_cursor(), 1);
    assert_eq!(channel.buffer(), &[8, 5, 6, 7]);
}

#[test]
fn write_all_of_nothing_takes_nothing() {
    let mut channel = Channel::new(4, MODE_NON_BLOCKING_TRIM);
    assert_eq!(channel.write_all(&[]), 0);
    assert_eq!(channel.write_cursor(), 0);
    let mut attached = Channel::new(4, MODE_BLOCK_IF_FULL);
    assert_eq!(attached.write_all(&[]), 0);
    assert_eq!(attached.write_cursor(), 0);
}

#[test]
fn writing_a_full_lap_without_host_looks_empty() {
    let mut channel = Channel::new(4, MODE_NON_BLOCKING_TRIM);
    assert_eq!(channel.write_all(&[1, 2, 3, 4]), 4);
    // the write cursor is back at the read cursor: nothing counts as unread
    assert_eq!(channel.write_cursor(), channel.read_cursor());
    let mut buf = [0u8; 4];
    assert_eq!(channel.read(&mut buf), 0);
    assert_eq!(channel.buffer(), &[1, 2, 3, 4]);
}

#[test]
fn blocking_write_stops_at_capacity_minus_one() {
    let size = 8;
    let mut channel = Channel::new(size, MODE_BLOCK_IF_FULL);
    // the reader never moves; one byte per attempt
    for attempt in 1..size {
        assert_eq!(channel.blocking_write(&[attempt as u8]), 1);
        assert_eq!(occupied(&channel), attempt);
    }
    assert_eq!(occupied(&channel), size - 1);
    // the attempt number `size` finds no space
    assert_eq!(channel.blocking_write(&[0xff]), 0);
    assert_eq!(channel.blocking_write(&[0xff, 0xfe]), 0);
    assert_eq!(occupied(&channel), size - 1);
    assert_eq!(channel.buffer(), &[1, 2, 3, 4, 5, 6, 7, 0]);
}

#[test]
fn blocking_write_of_nothing_takes_nothing() {
    let mut channel = Channel::new(8, MODE_BLOCK_IF_FULL);
    assert_eq!(channel.blocking_write(&[]), 0);
    assert_eq!(channel.write_cursor(), 0);
}

#[test]
fn blocking_write_fills_up_to_the_end_first() {
    let mut channel = Channel::new(8, MODE_BLOCK_IF_FULL);
    assert_eq!(channel.blocking_write(&[1, 2, 3, 4, 5, 6]), 6);
    assert!(channel.set_read_cursor(4));
    // read cursor behind the write cursor and not at 0: space up to the end
    assert_eq!(channel.blocking_write(&[7, 8, 9, 10]), 2);
    assert_eq!(channel.write_cursor(), 0);
    assert_eq!(channel.buffer(), &[1, 2, 3, 4, 5, 6, 7, 8]);
    // read cursor ahead of the write cursor: space up to one slot before it
    assert_eq!(channel.blocking_write(&[9, 10, 11, 12, 13]), 3);
    assert_eq!(channel.write_cursor(), 3);
    assert_eq!(channel.buffer(), &[9, 10, 11, 4, 5, 6, 7, 8]);
    assert_eq!(channel.blocking_write(&[14]), 0);
}

#[test]
fn blocking_write_with_read_cursor_at_start_keeps_last_slot() {
    let mut channel = Channel::new(4, MODE_BLOCK_IF_FULL);
    assert_eq!(channel.blocking_write(&[1, 2, 3, 4, 5]), 3);
    assert_eq!(channel.write_cursor(), 3);
    assert_eq!(channel.buffer(), &[1, 2, 3, 0]);
}

#[test]
fn blocking_write_all_returns_where_it_would_wait() {
    let mut channel = Channel::new(8, MODE_BLOCK_IF_FULL);
    assert_eq!(channel.write_all(&[1, 2, 3]), 3);
    assert!(channel.set_read_cursor(2));
    // one unread byte, six free: two attempts, round the end
    let data: Vec<u8> = (10..20).collect();
    assert_eq!(channel.write_all(&data), 6);
    assert_eq!(channel.write_cursor(), 1);
    assert_eq!(channel.read_cursor(), 2);
    assert_eq!(channel.buffer(), &[15, 2, 3, 10, 11, 12, 13, 14]);
    // full: nothing more goes in
    assert_eq!(channel.write_all(&data[6..]), 0);
    // the host reads three bytes; the rest follows as far as it fits
    assert!(channel.set_read_cursor(5));
    assert_eq!(channel.write_all(&data[6..]), 3);
    assert_eq!(channel.buffer(), &[15, 16, 17, 18, 11, 12, 13, 14]);
    assert_eq!(channel.write_cursor(), 4);
}

#[test]
fn blocking_write_all_that_fits_takes_everything() {
    let mut channel = Channel::new(8, MODE_BLOCK_IF_FULL);
    assert_eq!(channel.write_all(&[1, 2, 3, 4, 5, 6, 7]), 7);
    assert_eq!(channel.write_cursor(), 7);
    assert_eq!(occupied(&channel), 7);
}

#[test]
fn second_write_is_split_across_the_end() {
    let mut channel = Channel::new(8, MODE_NON_BLOCKING_TRIM);
    assert_eq!(channel.write_all(&[1, 2, 3, 4, 5, 6]), 6);
    let mut drained = [0u8; 6];
    assert_eq!(channel.read(&mut drained), 6);
    assert_eq!(drained, [1, 2, 3, 4, 5, 6]);
    assert_eq!(channel.write_all(&[11, 12, 13, 14, 15, 16]), 6);
    // two bytes up to the end, four from the start
    assert_eq!(channel.buffer(), &[13, 14, 15, 16, 5, 6, 11, 12]);
    assert_eq!(channel.write_cursor(), 4);
    assert_eq!(channel.read_cursor(), 6);
    let mut again = [0u8; 6];
    assert_eq!(channel.read(&mut again), 6);
    assert_eq!(again, [11, 12, 13, 14, 15, 16]);
    assert_eq!(channel.read_cursor(), 4);
}

#[test]
fn writes_between_drains_come_out_in_order() {
    for flags in [MODE_NON_BLOCKING_TRIM, MODE_BLOCK_IF_FULL] {
        let mut channel = Channel::new(16, flags);
        let mut expected: Vec<u8> = Vec::new();
        let mut seen: Vec<u8> = Vec::new();
        let mut next = 0u8;
        for round in 0..20usize {
            // up to fifteen bytes in pieces of changing size, then a drain
            let mut total = 0;
            let mut piece = 1 + round % 5;
            while total + piece <= 15 {
                let bytes: Vec<u8> = (0..piece)
                    .map(|_| {
                        next = next.wrapping_add(1);
                        next
                    })
                    .collect();
                assert_eq!(channel.write_all(&bytes), piece);
                expected.extend_from_slice(&bytes);
                total += piece;
                piece = 1 + (piece + round) % 4;
            }
            // the consumer: the local reader, or the host reading the memory itself
            if flags == MODE_NON_BLOCKING_TRIM {
                let mut buf = [0u8; 16];
                let moved = channel.read(&mut buf);
                assert_eq!(moved, total);
                seen.extend_from_slice(&buf[..moved]);
            } else {
                let mut at = channel.read_cursor();
                while at != channel.write_cursor() {
                    seen.push(channel.buffer()[at]);
                    at = (at + 1) % channel.size();
                }
                assert!(channel.set_read_cursor(at));
            }
            assert_eq!(seen, expected);
        }
    }
}

#[test]
fn bytes_covered_by_a_later_lap_leave_no_trace() {
    let tail = [21u8, 22, 23, 24];
    let mut one = Channel::new(4, MODE_NON_BLOCKING_TRIM);
    let mut other = Channel::new(4, MODE_NON_BLOCKING_TRIM);
    assert_eq!(one.write_all(&[9]), 1);
    assert_eq!(other.write_all(&[9]), 1);
    let mut first = vec![1u8, 2, 3, 4, 5, 6];
    let mut second = vec![7u8, 7, 7, 7, 7, 7];
    first.extend_from_slice(&tail);
    second.extend_from_slice(&tail);
    assert_eq!(one.write_all(&first), 10);
    assert_eq!(other.write_all(&second), 10);
    assert_eq!(one.buffer(), other.buffer());
    // ten bytes from slot 1 on: the last four land in slots 3, 0, 1 and 2
    assert_eq!(one.buffer(), &[22, 23, 24, 21]);
    assert_eq!(one.write_cursor(), 3);
    assert_eq!(other.write_cursor(), 3);
}
