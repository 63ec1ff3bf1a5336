use std::sync::Arc;

use mysql_srv::{
    queued_packet_slices, PacketWriter, QueuedPacket, MAX_POOL_ROWS, MAX_POOL_ROW_CAPACITY,
    U24_MAX,
};

fn wire(slices: &[&[u8]]) -> Vec<u8> {
    slices.concat()
}

/// What a write of one payload without queueing hands to the sink.
fn unbuffered(writer: &mut PacketWriter, payload: &[u8]) -> Vec<u8> {
    let headers = writer.packet_headers(payload.len());
    let bytes = wire(&writer.write_packet(&headers, payload));
    writer.return_queued_to_pool();
    bytes
}

#[test]
fn new_writer_starts_at_zero() {
    let writer = PacketWriter::new();
    assert_eq!(writer.seq, 0);
    assert_eq!(writer.queue_len(), 0);
    assert!(writer.write_queued_packets().is_empty());
}

#[test]
fn set_seq_numbers_the_next_packet() {
    let mut writer = PacketWriter::new();
    writer.set_seq(41);
    assert_eq!(writer.seq, 41);
    writer.enqueue_packet(vec![0x10]);
    assert_eq!(writer.seq, 42);
    assert_eq!(
        wire(&writer.write_queued_packets()),
        vec![0x01, 0, 0, 41, 0x10]
    );
}

#[test]
fn small_payload_is_one_packet() {
    let mut writer = PacketWriter::new();
    writer.enqueue_packet(vec![0x10]);
    assert_eq!(writer.queue_len(), 1);
    assert_eq!(writer.seq, 1);
    let slices = writer.write_queued_packets();
    assert_eq!(slices, vec![&[0x01, 0, 0, 0][..], &[0x10][..]]);
}

#[test]
fn empty_payload_is_one_empty_packet() {
    let mut writer = PacketWriter::new();
    writer.enqueue_packet(Vec::new());
    assert_eq!(writer.queue_len(), 1);
    assert_eq!(writer.seq, 1);
    assert_eq!(wire(&writer.write_queued_packets()), vec![0, 0, 0, 0]);
}

#[test]
fn header_holds_the_length_least_significant_byte_first() {
    let mut writer = PacketWriter::new();
    writer.set_seq(9);
    writer.enqueue_packet(vec![0u8; 0x030201]);
    let slices = writer.write_queued_packets();
    assert_eq!(slices[0], &[0x01, 0x02, 0x03, 9]);
    assert_eq!(slices[1].len(), 0x030201);
}

#[test]
fn short_payload_takes_four_bytes_more_on_the_wire() {
    for len in [0usize, 1, 245, 65536, U24_MAX - 1] {
        let mut writer = PacketWriter::new();
        writer.enqueue_packet(vec![1u8; len]);
        assert_eq!(writer.queue_len(), 1);
        assert_eq!(wire(&writer.write_queued_packets()).len(), 4 + len);
    }
}

#[test]
fn exact_multiple_ends_with_an_empty_packet() {
    let mut writer = PacketWriter::new();
    writer.enqueue_packet(vec![0u8; U24_MAX]);
    assert_eq!(writer.queue_len(), 2);
    assert_eq!(writer.seq, 2);
    let bytes = wire(&writer.write_queued_packets());
    assert_eq!(bytes.len(), (4 + U24_MAX) + 4);
    assert_eq!(&bytes[..4], &[0xff, 0xff, 0xff, 0]);
    assert!(bytes[4..4 + U24_MAX].iter().all(|b| *b == 0));
    assert_eq!(&bytes[4 + U24_MAX..], &[0x00, 0x00, 0x00, 1]);
}

#[test]
fn twice_the_limit_takes_three_packets() {
    let mut writer = PacketWriter::new();
    writer.enqueue_packet(vec![1u8; 2 * U24_MAX]);
    assert_eq!(writer.queue_len(), 3);
    assert_eq!(writer.seq, 3);
    let bytes = wire(&writer.write_queued_packets());
    assert_eq!(bytes.len(), 2 * (4 + U24_MAX) + 4);
    assert_eq!(&bytes[..4], &[0xff, 0xff, 0xff, 0]);
    assert_eq!(&bytes[4 + U24_MAX..8 + U24_MAX], &[0xff, 0xff, 0xff, 1]);
    assert_eq!(&bytes[2 * (4 + U24_MAX)..], &[0, 0, 0, 2]);
}

#[test]
fn one_byte_beyond_the_limit() {
    let mut payload = vec![0u8; U24_MAX];
    payload.push(0x10);
    let mut writer = PacketWriter::new();
    writer.enqueue_packet(payload);
    assert_eq!(writer.queue_len(), 2);
    let bytes = wire(&writer.write_queued_packets());
    assert_eq!(&bytes[..4], &[0xff, 0xff, 0xff, 0]);
    assert!(bytes[4..4 + U24_MAX].iter().all(|b| *b == 0));
    assert_eq!(&bytes[4 + U24_MAX..], &[0x01, 0, 0, 1, 0x10]);
}

#[test]
fn sequence_number_wraps() {
    let mut writer = PacketWriter::new();
    writer.set_seq(255);
    writer.enqueue_packet(vec![1]);
    assert_eq!(writer.seq, 0);
    writer.enqueue_packet(vec![2]);
    assert_eq!(writer.seq, 1);
    assert_eq!(
        wire(&writer.write_queued_packets()),
        vec![1, 0, 0, 255, 1, 1, 0, 0, 0, 2]
    );
}

#[test]
fn packets_leave_in_the_order_in_which_they_came() {
    let mut writer = PacketWriter::new();
    writer.enqueue_packet(vec![0xa]);
    writer.enqueue_raw(Arc::from(vec![9u8, 9, 9]));
    writer.enqueue_packet(vec![0xb, 0xc]);
    assert_eq!(writer.queue_len(), 3);
    let slices = writer.write_queued_packets();
    assert_eq!(slices.len(), 5);
    assert_eq!(
        wire(&slices),
        vec![1, 0, 0, 0, 0xa, 9, 9, 9, 2, 0, 0, 1, 0xb, 0xc]
    );
}

#[test]
fn raw_bytes_leave_the_counter_alone() {
    let mut writer = PacketWriter::new();
    writer.set_seq(7);
    writer.enqueue_raw(Arc::from(vec![1u8, 0, 0, 0, 0x10]));
    assert_eq!(writer.seq, 7);
    assert_eq!(writer.queue_len(), 1);
    assert_eq!(wire(&writer.write_queued_packets()), vec![1, 0, 0, 0, 0x10]);
}

#[test]
fn slices_of_a_queue() {
    let queue = vec![
        QueuedPacket::WithHeader([2, 0, 0, 0], vec![5, 6]),
        QueuedPacket::Raw(Arc::from(vec![1u8, 2, 3])),
        QueuedPacket::WithHeader([0, 0, 0, 1], vec![]),
    ];
    let slices = queued_packet_slices(&queue);
    assert_eq!(
        slices,
        vec![
            &[2, 0, 0, 0][..],
            &[5, 6][..],
            &[1, 2, 3][..],
            &[0, 0, 0, 1][..],
            &[][..]
        ]
    );
    assert!(queued_packet_slices(&[]).is_empty());
}

#[test]
fn headers_of_an_unbuffered_write() {
    let mut writer = PacketWriter::new();
    writer.set_seq(254);
    assert_eq!(writer.packet_headers(0), vec![[0, 0, 0, 254]]);
    assert_eq!(writer.seq, 255);
    assert_eq!(
        writer.packet_headers(U24_MAX + 5),
        vec![[0xff, 0xff, 0xff, 255], [5, 0, 0, 0]]
    );
    assert_eq!(writer.seq, 1);
    assert_eq!(
        writer.packet_headers(2 * U24_MAX),
        vec![[0xff, 0xff, 0xff, 1], [0xff, 0xff, 0xff, 2], [0, 0, 0, 3]]
    );
    assert_eq!(writer.seq, 4);
    assert_eq!(writer.queue_len(), 0);
}

#[test]
fn unbuffered_write_of_a_small_payload() {
    let mut writer = PacketWriter::new();
    writer.set_seq(3);
    assert_eq!(unbuffered(&mut writer, &[0x10]), vec![1, 0, 0, 3, 0x10]);
    assert_eq!(writer.seq, 4);
}

#[test]
fn small_payload_goes_out_as_three_slices() {
    let mut writer = PacketWriter::new();
    writer.set_seq(3);
    let headers = writer.packet_headers(2);
    let slices = writer.write_packet(&headers, &[0x10, 0x11]);
    assert_eq!(slices, vec![&[2, 0, 0][..], &[3][..], &[0x10, 0x11][..]]);
    let headers = writer.packet_headers(0);
    let slices = writer.write_packet(&headers, &[]);
    assert_eq!(slices, vec![&[0, 0, 0][..], &[4][..], &[][..]]);
}

#[test]
fn large_path_lays_out_any_payload() {
    let mut writer = PacketWriter::new();
    writer.enqueue_raw(Arc::from(vec![7u8]));
    let headers = writer.packet_headers(2);
    let slices = writer.write_large_packet(&headers, &[0x10, 0x11]);
    assert_eq!(
        slices,
        vec![&[7][..], &[2, 0, 0, 0][..], &[0x10, 0x11][..]]
    );
    // Without headers there is nothing to send but the queue.
    assert_eq!(writer.write_packet(&[], &[0x10]), vec![&[7][..]]);
    assert_eq!(writer.write_large_packet(&[], &[0x10]), vec![&[7][..]]);
}

#[test]
fn unbuffered_write_sends_the_queue_first() {
    let mut writer = PacketWriter::new();
    writer.enqueue_packet(vec![0xa]);
    let headers = writer.packet_headers(2);
    let slices = writer.write_packet(&headers, &[0xb, 0xc]);
    assert_eq!(wire(&slices), vec![1, 0, 0, 0, 0xa, 2, 0, 0, 1, 0xb, 0xc]);
    writer.return_queued_to_pool();
    assert_eq!(writer.queue_len(), 0);
    assert_eq!(writer.seq, 2);
}

#[test]
fn unbuffered_write_of_a_large_payload_borrows_it() {
    let mut payload = vec![3u8; 2 * U24_MAX];
    payload.extend([1, 2, 3]);
    let mut writer = PacketWriter::new();
    let headers = writer.packet_headers(payload.len());
    let slices = writer.write_packet(&headers, &payload);
    assert_eq!(slices.len(), 6);
    assert_eq!(slices[0], &[0xff, 0xff, 0xff, 0]);
    assert_eq!(slices[1].as_ptr(), payload.as_ptr());
    assert_eq!(slices[1].len(), U24_MAX);
    assert_eq!(slices[2], &[0xff, 0xff, 0xff, 1]);
    assert_eq!(slices[3].len(), U24_MAX);
    assert_eq!(slices[4], &[3, 0, 0, 2]);
    assert_eq!(slices[5], &[1, 2, 3]);
}

#[test]
fn unbuffered_and_queued_writes_send_the_same_bytes() {
    for len in [0usize, 1, 100, U24_MAX - 1, U24_MAX, U24_MAX + 1, 2 * U24_MAX] {
        let payload: Vec<u8> = (0..len).map(|i| (i % 251) as u8).collect();
        for seq in [0u8, 254, 255] {
            let mut direct = PacketWriter::new();
            direct.set_seq(seq);
            let sent = unbuffered(&mut direct, &payload);

            let mut queued = PacketWriter::new();
            queued.set_seq(seq);
            queued.enqueue_packet(payload.clone());
            assert_eq!(sent, wire(&queued.write_queued_packets()));
            assert_eq!(direct.seq, queued.seq);
        }
    }
}

#[test]
fn written_queue_goes_to_the_pool() {
    let mut writer = PacketWriter::new();
    writer.enqueue_packet(vec![1, 2, 3]);
    writer.enqueue_packet(vec![4]);
    writer.return_queued_to_pool();
    assert_eq!(writer.queue_len(), 0);
    assert_eq!(writer.seq, 2);
    assert!(writer.write_queued_packets().is_empty());
    // Both buffers come back, emptied, and then the pool has no more.
    let first = writer.get_buffer();
    assert!(first.is_empty());
    assert!(first.capacity() >= 1);
    let second = writer.get_buffer();
    assert!(second.is_empty());
    assert!(second.capacity() >= 1);
    assert_eq!(writer.get_buffer().capacity(), 0);
}

#[test]
fn pool_hands_out_the_entry_that_came_last() {
    let mut writer = PacketWriter::new();
    writer.enqueue_packet(Vec::with_capacity(100));
    writer.enqueue_packet(Vec::with_capacity(200));
    writer.return_queued_to_pool();
    assert!(writer.get_buffer().capacity() >= 200);
    let next = writer.get_buffer();
    assert!(next.capacity() >= 100 && next.capacity() < 200);
}

#[test]
fn buffer_from_an_empty_pool_is_new() {
    let mut writer = PacketWriter::new();
    let buffer = writer.get_buffer();
    assert!(buffer.is_empty());
    assert_eq!(buffer.capacity(), 0);
}

#[test]
fn raw_entries_in_the_pool_are_passed_over() {
    let mut writer = PacketWriter::new();
    writer.enqueue_packet(vec![1, 2, 3]);
    writer.enqueue_raw(Arc::from(vec![9u8; 4]));
    writer.enqueue_raw(Arc::from(vec![8u8; 4]));
    writer.return_queued_to_pool();
    let buffer = writer.get_buffer();
    assert!(buffer.is_empty());
    assert!(buffer.capacity() >= 3);
    // The raw entries left the pool on the way.
    assert_eq!(writer.get_buffer().capacity(), 0);
}

#[test]
fn pool_of_raw_entries_alone_gives_a_new_buffer() {
    let mut writer = PacketWriter::new();
    writer.enqueue_raw(Arc::from(vec![9u8; 4]));
    writer.return_queued_to_pool();
    assert_eq!(writer.get_buffer().capacity(), 0);
}

#[test]
fn pool_keeps_no_more_than_its_bound() {
    let mut writer = PacketWriter::new();
    for _ in 0..MAX_POOL_ROWS + 10 {
        writer.enqueue_packet(vec![1]);
    }
    writer.return_queued_to_pool();
    assert_eq!(writer.queue_len(), 0);
    let mut taken = 0;
    while writer.get_buffer().capacity() > 0 {
        taken += 1;
    }
    assert_eq!(taken, MAX_POOL_ROWS);
}

#[test]
fn shorter_queue_goes_behind_the_pool() {
    let mut writer = PacketWriter::new();
    // A pool of three small buffers,
    for _ in 0..3 {
        writer.enqueue_packet(Vec::with_capacity(8));
    }
    writer.return_queued_to_pool();
    // behind which a shorter queue of two larger ones is put.
    for _ in 0..2 {
        writer.enqueue_packet(Vec::with_capacity(64));
    }
    writer.return_queued_to_pool();
    let capacities: Vec<usize> = (0..5).map(|_| writer.get_buffer().capacity()).collect();
    assert!(capacities[..2].iter().all(|c| *c >= 64));
    assert!(capacities[2..].iter().all(|c| *c >= 8 && *c < 64));
    assert_eq!(writer.get_buffer().capacity(), 0);
}

#[test]
fn shorter_pool_goes_behind_the_queue() {
    let mut writer = PacketWriter::new();
    writer.enqueue_packet(Vec::with_capacity(8));
    writer.return_queued_to_pool();
    for _ in 0..2 {
        writer.enqueue_packet(Vec::with_capacity(64));
    }
    writer.return_queued_to_pool();
    let capacities: Vec<usize> = (0..3).map(|_| writer.get_buffer().capacity()).collect();
    assert!(capacities[0] >= 8 && capacities[0] < 64);
    assert!(capacities[1..].iter().all(|c| *c >= 64));
    assert_eq!(writer.get_buffer().capacity(), 0);
}

#[test]
fn full_pool_gives_way_to_what_was_written() {
    let mut writer = PacketWriter::new();
    for _ in 0..MAX_POOL_ROWS {
        writer.enqueue_packet(Vec::with_capacity(8));
    }
    writer.return_queued_to_pool();
    writer.enqueue_packet(Vec::with_capacity(64));
    writer.enqueue_packet(Vec::with_capacity(64));
    writer.return_queued_to_pool();
    assert_eq!(writer.queue_len(), 0);
    let mut large = 0;
    let mut small = 0;
    loop {
        let capacity = writer.get_buffer().capacity();
        if capacity == 0 {
            break;
        }
        if capacity >= 64 {
            // The buffers that were written last are handed out first.
            assert_eq!(small, 0);
            large += 1;
        } else {
            small += 1;
        }
    }
    assert_eq!(large, 2);
    assert_eq!(small, MAX_POOL_ROWS - 2);
}

#[test]
fn queue_beyond_the_bound_fills_the_pool_alone() {
    let mut writer = PacketWriter::new();
    for _ in 0..10 {
        writer.enqueue_packet(Vec::with_capacity(8));
    }
    writer.return_queued_to_pool();
    for _ in 0..MAX_POOL_ROWS + 5 {
        writer.enqueue_packet(Vec::with_capacity(64));
    }
    writer.return_queued_to_pool();
    let mut taken = 0;
    loop {
        let capacity = writer.get_buffer().capacity();
        if capacity == 0 {
            break;
        }
        assert!(capacity >= 64);
        taken += 1;
    }
    assert_eq!(taken, MAX_POOL_ROWS);
}

#[test]
fn buffers_come_back_empty() {
    let mut writer = PacketWriter::new();
    writer.enqueue_packet(vec![0x10; 100]);
    writer.enqueue_packet(vec![0x20; 50]);
    writer.return_queued_to_pool();
    for _ in 0..2 {
        let buffer = writer.get_buffer();
        assert!(buffer.is_empty());
        assert!(buffer.capacity() >= 50);
    }
}

#[test]
fn large_buffer_gives_up_capacity_before_it_is_queued() {
    let mut payload = Vec::with_capacity(1 << 20);
    payload.extend([1u8, 2, 3]);
    let mut writer = PacketWriter::new();
    writer.enqueue_packet(payload);
    assert_eq!(wire(&writer.write_queued_packets()), vec![3, 0, 0, 0, 1, 2, 3]);
    writer.return_queued_to_pool();
    let buffer = writer.get_buffer();
    assert!(buffer.capacity() >= 3);
    assert!(buffer.capacity() <= MAX_POOL_ROW_CAPACITY);
}
