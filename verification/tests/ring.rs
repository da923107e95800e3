use funnel::{Inner, WriteError};

/// Reads until nothing is unread, `step` bytes at a time.
fn drain_all(ring: &mut Inner, step: usize) -> Vec<u8> {
    let mut all = Vec::new();
    let mut buf = vec![0; step];
    loop {
        let n = ring.drain_read(&mut buf);
        if n == 0 {
            return all;
        }
        all.extend_from_slice(&buf[..n]);
    }
}

#[test]
fn new_ring_is_empty_with_cursors_at_zero() {
    let ring = Inner::new(vec![7; 5]);
    assert_eq!(ring.capacity(), 5);
    assert_eq!(ring.len(), 0);
    assert!(ring.is_empty());
    assert_eq!(ring.write_cursor(), 0);
    assert_eq!(ring.read_cursor(), 0);
    assert_eq!(ring.storage(), [7; 5]);
}

#[test]
fn a_ring_may_start_at_any_cursor() {
    let ring = Inner::starting_at(vec![0; 5], 1234);
    assert!(ring.is_empty());
    assert_eq!(ring.write_cursor(), 1234);
    assert_eq!(ring.read_cursor(), 1234);
}

#[test]
fn unread_bytes_never_outnumber_the_storage() {
    let mut ring = Inner::starting_at(vec![0; 8], usize::MAX - 20);
    let mut buf = [0; 3];
    for round in 0..100usize {
        let message = vec![round as u8; round % 7];
        let before = ring.len();
        match ring.write(&message) {
            Ok(()) => assert_eq!(ring.len(), before + message.len()),
            Err(_) => assert_eq!(ring.len(), before),
        }
        assert!(ring.len() <= ring.capacity());
        if round % 3 == 0 {
            let before = ring.len();
            let n = ring.drain_read(&mut buf);
            assert_eq!(n, before.min(3));
            assert_eq!(ring.len(), before - n);
            assert!(ring.len() <= ring.capacity());
        }
        assert_eq!(ring.len(), ring.write_cursor().wrapping_sub(ring.read_cursor()));
    }
}

#[test]
fn a_record_is_read_as_it_was_written() {
    for start in 0..16 {
        for step in 1..=8 {
            let mut ring = Inner::starting_at(vec![0; 8], start);
            assert_eq!(ring.write(b"abc"), Ok(()));
            assert_eq!(ring.write(b"defgh"), Ok(()));
            assert_eq!(drain_all(&mut ring, step), b"abcdefgh");
            assert!(ring.is_empty());
        }
    }
}

#[test]
fn records_follow_what_was_unread_before_them() {
    let mut ring = Inner::starting_at(vec![0; 8], 5);
    let mut buf = [0; 2];
    ring.write(b"12345").unwrap();
    assert_eq!(ring.drain_read(&mut buf), 2);
    assert_eq!(buf, *b"12");
    ring.write(b"6789").unwrap();
    assert_eq!(ring.len(), 7);
    assert_eq!(drain_all(&mut ring, 3), b"3456789");
}

#[test]
fn a_refused_message_changes_nothing() {
    let mut ring = Inner::starting_at(vec![0; 4], 6);
    ring.write(b"xyz").unwrap();
    let storage = ring.storage().to_vec();

    assert_eq!(ring.write(b"ab"), Err(WriteError::Full));
    assert_eq!(ring.storage(), storage);
    assert_eq!(ring.write_cursor(), 9);
    assert_eq!(ring.read_cursor(), 6);

    assert_eq!(ring.write(b"abcde"), Err(WriteError::MessageTooLarge));
    assert_eq!(ring.storage(), storage);
    assert_eq!(ring.write_cursor(), 9);
    assert_eq!(ring.read_cursor(), 6);

    assert_eq!(drain_all(&mut ring, 4), b"xyz");
}

#[test]
fn a_message_too_large_is_refused_whatever_is_unread() {
    let mut ring = Inner::new(vec![0; 4]);
    assert_eq!(ring.write(b"abcde"), Err(WriteError::MessageTooLarge));
    ring.write(b"abcd").unwrap();
    assert_eq!(ring.write(b"abcde"), Err(WriteError::MessageTooLarge));
    assert_eq!(ring.write(b"a"), Err(WriteError::Full));
    assert_eq!(ring.write(b""), Ok(()));
}

#[test]
fn a_full_buffer_takes_messages_again_once_read() {
    let mut ring = Inner::new(vec![0; 4]);
    ring.write(b"abcd").unwrap();
    assert_eq!(ring.write(b"e"), Err(WriteError::Full));
    let mut buf = [0; 1];
    assert_eq!(ring.drain_read(&mut buf), 1);
    assert_eq!(ring.write(b"e"), Ok(()));
    assert_eq!(ring.storage(), b"ebcd");
    assert_eq!(drain_all(&mut ring, 4), b"bcde");
}

#[test]
fn reading_an_empty_ring_gives_nothing_each_time() {
    let mut ring = Inner::starting_at(vec![3; 4], 77);
    let mut buf = [5; 4];
    for _ in 0..5 {
        assert_eq!(ring.drain_read(&mut buf), 0);
        assert_eq!(buf, [5; 4]);
        assert_eq!(ring.read_cursor(), 77);
        assert_eq!(ring.write_cursor(), 77);
        assert_eq!(ring.storage(), [3; 4]);
    }
}

#[test]
fn reading_into_an_empty_buffer_gives_nothing() {
    let mut ring = Inner::new(vec![0; 4]);
    ring.write(b"ab").unwrap();
    let mut buf = [0; 0];
    assert_eq!(ring.drain_read(&mut buf), 0);
    assert_eq!(ring.len(), 2);
}

#[test]
fn a_ring_of_no_bytes_refuses_every_message() {
    let mut ring = Inner::new(Vec::new());
    assert_eq!(ring.write(b"a"), Err(WriteError::MessageTooLarge));
    assert_eq!(ring.write(b""), Err(WriteError::MessageTooLarge));
    let mut buf = [1; 2];
    assert_eq!(ring.drain_read(&mut buf), 0);
    assert_eq!(buf, [1; 2]);
    assert_eq!(ring.capacity(), 0);
    assert!(ring.is_empty());
}

#[test]
fn a_message_lands_at_the_write_cursor_and_goes_round_the_end() {
    let mut ring = Inner::starting_at(vec![b'.'; 6], 4);
    ring.write(b"abcd").unwrap();
    assert_eq!(ring.storage(), b"cd..ab");
    assert_eq!(ring.write_cursor(), 8);
    let mut buf = [0; 3];
    assert_eq!(ring.drain_read(&mut buf), 3);
    assert_eq!(buf, *b"abc");
    assert_eq!(ring.read_cursor(), 7);
    ring.write(b"efghi").unwrap();
    assert_eq!(ring.storage(), b"idefgh");
    assert_eq!(drain_all(&mut ring, 6), b"defghi");
}

#[test]
fn cursors_wrap_past_the_largest_usize() {
    let mut ring = Inner::starting_at(vec![0; 16], usize::MAX - 2);
    ring.write(b"0123456789").unwrap();
    assert_eq!(ring.write_cursor(), 7);
    assert_eq!(ring.len(), 10);
    let mut buf = [0; 4];
    assert_eq!(ring.drain_read(&mut buf), 4);
    assert_eq!(buf, *b"0123");
    assert_eq!(ring.read_cursor(), 1);
    ring.write(b"abcdefghij").unwrap();
    assert_eq!(ring.len(), 16);
    assert_eq!(drain_all(&mut ring, 5), b"456789abcdefghij");
}

#[test]
fn a_ring_behaves_like_a_queue_without_end() {
    let mut ring = Inner::starting_at(vec![0; 32], usize::MAX - 50);
    let mut queue: Vec<u8> = Vec::new();
    let mut buf = [0; 11];
    let mut next = 0u8;
    for round in 0..200usize {
        let message: Vec<u8> = (0..round % 13).map(|_| {
            next = next.wrapping_add(1);
            next
        }).collect();
        if ring.write(&message).is_ok() {
            queue.extend_from_slice(&message);
        }
        let want = round % 11;
        let n = ring.drain_read(&mut buf[..want]);
        assert_eq!(n, want.min(queue.len()));
        assert_eq!(buf[..n], queue[..n]);
        queue.drain(..n);
        assert_eq!(ring.len(), queue.len());
    }
}

#[test]
fn with_an_uneven_capacity_a_record_read_in_one_go_is_whole_where_the_cursor_wraps() {
    // three does not divide the number of cursor values
    let mut ring = Inner::starting_at(vec![0; 3], usize::MAX);
    ring.write(b"ab").unwrap();
    assert_eq!(ring.storage(), b"ab\0");
    assert_eq!(ring.write_cursor(), 1);
    let mut buf = [0; 2];
    assert_eq!(ring.drain_read(&mut buf), 2);
    assert_eq!(buf, *b"ab");
    assert!(ring.is_empty());
}

#[test]
fn with_an_uneven_capacity_the_slot_does_not_follow_where_the_cursor_wraps() {
    let mut ring = Inner::starting_at(vec![0; 3], usize::MAX);
    ring.write(b"ab").unwrap();
    let mut buf = [0; 1];
    assert_eq!(ring.drain_read(&mut buf), 1);
    assert_eq!(buf, *b"a");
    // the read cursor has wrapped to zero, whose slot is the one just read
    assert_eq!(ring.read_cursor(), 0);
    assert_eq!(ring.drain_read(&mut buf), 1);
    assert_eq!(buf, *b"a");
    assert!(ring.is_empty());
}

#[test]
fn with_an_uneven_capacity_a_ring_is_a_queue_until_the_cursor_wraps() {
    let mut ring = Inner::new(vec![0; 3]);
    let mut queue: Vec<u8> = Vec::new();
    let mut buf = [0; 2];
    for round in 0..100u8 {
        let message = [round; 2];
        if ring.write(&message[..(round % 3) as usize]).is_ok() {
            queue.extend_from_slice(&message[..(round % 3) as usize]);
        }
        let n = ring.drain_read(&mut buf[..(round % 2 + 1) as usize]);
        assert_eq!(buf[..n], queue[..n]);
        queue.drain(..n);
        assert_eq!(ring.len(), queue.len());
    }
}
