use hw::buffers::{
    copy_through_buffers, ReadBuffer, WriteBuffer, WriteOutcome, WritePlan, BLOCK_CAPACITY,
};
use hw::records::{make_record, BUFFER_SIZE, RECORD_SIZE};

fn test_data(len: usize) -> Vec<u8> {
    (0..len).map(|i| (i % 251) as u8).collect()
}

#[test]
fn reader_asks_for_a_block_whenever_it_has_none_left() {
    let mut reader = ReadBuffer::new(4);
    assert_eq!(reader.buffer_capacity(), 4);
    assert!(reader.needs_refill());
    assert_eq!(reader.next_byte(), None);

    reader.refill(b"abc");
    assert!(!reader.needs_refill());
    assert_eq!(reader.next_byte(), Some(b'a'));
    assert_eq!(reader.next_byte(), Some(b'b'));
    assert_eq!(reader.next_byte(), Some(b'c'));
    // A short block need not be the last one: a new block is asked for.
    assert!(reader.needs_refill());
    reader.refill(b"d");
    assert_eq!(reader.next_byte(), Some(b'd'));
    assert!(reader.needs_refill());
    reader.refill(b"");
    assert_eq!(reader.next_byte(), None);
    assert!(reader.needs_refill());
}

#[test]
fn reader_asks_for_a_block_after_a_full_one() {
    let mut reader = ReadBuffer::new(2);
    reader.refill(b"xy");
    assert_eq!(reader.next_byte(), Some(b'x'));
    assert_eq!(reader.next_byte(), Some(b'y'));
    assert!(reader.needs_refill());
    reader.refill(b"z");
    assert_eq!(reader.next_byte(), Some(b'z'));
    assert_eq!(reader.next_byte(), None);
}

#[test]
fn reader_with_an_empty_block_asks_again() {
    let mut reader = ReadBuffer::new(3);
    reader.refill(b"");
    assert_eq!(reader.next_byte(), None);
    assert!(reader.needs_refill());
}

#[test]
fn writer_stages_until_full() {
    let mut writer = WriteBuffer::new(3);
    assert!(!writer.is_full());
    assert_eq!(writer.pending_bytes(), b"");

    let next = writer.stage(b"ab", 0);
    assert_eq!(next, 2);
    assert_eq!(writer.pending_bytes(), b"ab");
    assert!(!writer.is_full());

    let next = writer.stage(b"cdef", 0);
    assert_eq!(next, 1);
    assert!(writer.is_full());
    assert_eq!(writer.pending_bytes(), b"abc");

    writer.consume_written(2);
    assert_eq!(writer.pending_bytes(), b"c");
    writer.consume_written(1);
    assert_eq!(writer.pending_bytes(), b"");
    let next = writer.stage(b"cdef", 1);
    assert_eq!(next, 4);
    assert_eq!(writer.pending_bytes(), b"def");
    assert!(writer.is_full());
}

#[test]
fn writer_stage_from_the_end_takes_nothing() {
    let mut writer = WriteBuffer::new(2);
    assert_eq!(writer.stage(b"abc", 3), 3);
    assert_eq!(writer.pending_bytes(), b"");
}

#[test]
fn copy_through_buffers_keeps_every_byte() {
    for len in [0usize, 1, 9, 10, 11, 64, 65, 1000] {
        let data = test_data(len);
        let (out, copied, reads) = copy_through_buffers(&data, 10, &[], &[]);
        assert_eq!(out, data);
        assert_eq!(copied, len as u64);
        assert_eq!(reads, (len + 9) / 10 + 1);
    }
}

#[test]
fn copy_through_buffers_keeps_every_byte_with_short_reads_and_writes() {
    let data = test_data(1000);
    let read_sizes = [2usize, 0, 7, 1, 3, 100, 5];
    let write_sizes = [1usize, 0, 3, 50, 2];
    for capacity in [1usize, 3, 10, 64] {
        let (out, copied, reads) = copy_through_buffers(&data, capacity, &read_sizes, &write_sizes);
        assert_eq!(out, data);
        assert_eq!(copied, 1000);
        assert!(reads <= 1001);
    }
    let (out, copied, reads) = copy_through_buffers(&data, 64_000, &[2], &[]);
    assert_eq!(out, data);
    assert_eq!(copied, 1000);
    assert_eq!(reads, 3);
}

#[test]
fn copy_through_buffers_handles_more_than_one_block() {
    let data = test_data(200_000);
    let (out, copied, reads) = copy_through_buffers(&data, BLOCK_CAPACITY, &[], &[]);
    assert_eq!(copied, 200_000);
    assert_eq!(out, data);
    assert_eq!(reads, 5);
    assert!(reads <= 200_000 / BLOCK_CAPACITY + 2);
}

#[test]
fn records_count_up_modulo_251() {
    assert_eq!(make_record(0), [0, 1, 2, 3, 4, 5, 6, 7, 8, 9]);
    assert_eq!(make_record(245), [245, 246, 247, 248, 249, 250, 0, 1, 2, 3]);
    assert_eq!(make_record(251 * 3 + 1), [1, 2, 3, 4, 5, 6, 7, 8, 9, 10]);
    assert_eq!(RECORD_SIZE, 10);
    assert_eq!(BUFFER_SIZE, 65536);
}

#[test]
fn plan_write_takes_bytes_until_a_write_is_needed() {
    let mut writer = WriteBuffer::new(4);
    assert_eq!(writer.plan_write(b"ab", 0), (2, WritePlan::Done));
    assert_eq!(writer.plan_write(b"cdefgh", 0), (2, WritePlan::WritePending));
    assert_eq!(writer.pending_bytes(), b"abcd");
    // A full buffer takes nothing until it is written.
    assert_eq!(writer.plan_write(b"cdefgh", 2), (2, WritePlan::WritePending));
    assert_eq!(writer.consume_written(0), WriteOutcome::Stalled);
    assert_eq!(writer.consume_written(3), WriteOutcome::Partial);
    assert_eq!(writer.pending_bytes(), b"d");
    assert_eq!(writer.consume_written(1), WriteOutcome::Complete);
    assert_eq!(writer.plan_write(b"cdefgh", 2), (6, WritePlan::WritePending));
    assert_eq!(writer.pending_bytes(), b"efgh");
    assert_eq!(writer.consume_written(4), WriteOutcome::Complete);
    assert_eq!(writer.plan_write(b"", 0), (0, WritePlan::Done));
}

#[test]
fn writer_delivers_every_byte_in_order_over_many_calls() {
    // Stands in for a file: what each write reports written is appended.
    let mut file: Vec<u8> = Vec::new();
    let mut writer = WriteBuffer::new(3);
    let calls: [&[u8]; 4] = [b"hello", b" ", b"", b"world"];
    for data in calls {
        let mut next = 0;
        loop {
            let (taken, plan) = writer.plan_write(data, next);
            next = taken;
            if plan == WritePlan::Done {
                break;
            }
            // Write two bytes at a time.
            loop {
                let pending = writer.pending_bytes();
                let n = pending.len().min(2);
                file.extend_from_slice(&pending[..n]);
                if writer.consume_written(n) == WriteOutcome::Complete {
                    break;
                }
            }
        }
        assert!(writer.pending_bytes().len() < 3);
    }
    let pending = writer.pending_bytes().to_vec();
    file.extend_from_slice(&pending);
    assert_eq!(writer.consume_written(pending.len()), WriteOutcome::Complete);
    assert_eq!(file, b"hello world");
}
