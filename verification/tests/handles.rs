use funnel::{Drain, Funnel, Inner, Logger, Registers, WriteError};

/// A table with one ring buffer, for logical priority 1 of a 3-bit
/// controller, whose hardware code is 224.
fn single(ring: Inner) -> Funnel {
    Funnel::new(3, vec![(1, ring)]).unwrap()
}

/// The registers as they stand while interrupt 0 is served at the given
/// hardware priority.
fn serving(priority: u8) -> Option<Registers> {
    Some(Registers { icsr: 16, ipr: priority as u32 })
}

#[test]
fn sanity() {
    let mut funnel = single(Inner::new(vec![0; 32]));
    let m = "Hello, world!";
    let logger = Logger::get(&funnel, serving(224)).unwrap();
    logger.log(&mut funnel, m).unwrap();
    assert!(funnel.ring(logger.slot()).storage().starts_with(m.as_bytes()));
}

#[test]
fn drain() {
    let mut funnel = single(Inner::new(vec![0; 32]));
    let logger = Logger::get(&funnel, serving(224)).unwrap();
    let mut drain = Drain::get_all(&funnel)[0];

    assert_eq!(drain.next(&mut funnel), None);

    logger.log(&mut funnel, "A").unwrap();
    assert_eq!(drain.next(&mut funnel), Some(b'A'));
    assert_eq!(drain.next(&mut funnel), None);

    logger.log(&mut funnel, "B").unwrap();
    assert_eq!(drain.next(&mut funnel), Some(b'B'));
    assert_eq!(drain.next(&mut funnel), None);

    logger.log(&mut funnel, "CD").unwrap();
    assert_eq!(drain.next(&mut funnel), Some(b'C'));
    assert_eq!(drain.next(&mut funnel), Some(b'D'));
    assert_eq!(drain.next(&mut funnel), None);
}

#[test]
fn read() {
    let mut funnel = single(Inner::new(vec![0; 16]));
    let logger = Logger::get(&funnel, serving(224)).unwrap();
    let drain = Drain::get_all(&funnel)[0];

    let mut buf = [0; 8];
    logger.log(&mut funnel, "Hello, world!").unwrap();
    assert_eq!(drain.read(&mut funnel, &mut buf), b"Hello, w");
    assert_eq!(drain.read(&mut funnel, &mut buf), b"orld!");
    assert_eq!(drain.read(&mut funnel, &mut buf), b"");

    // the ring buffer wraps around with this operation
    logger.log(&mut funnel, "Hello, world!").unwrap();
    assert_eq!(drain.read(&mut funnel, &mut buf), b"Hello, w");
    assert_eq!(drain.read(&mut funnel, &mut buf), b"orld!");
    assert_eq!(drain.read(&mut funnel, &mut buf), b"");
}

#[test]
fn split_write() {
    const N: usize = 32;
    const M: usize = 24;

    let m = "Hello, world!";
    // cursors that start near the end of the storage
    let mut funnel = single(Inner::starting_at(vec![0; N], M));
    let logger = Logger::get(&funnel, serving(224)).unwrap();
    logger.log(&mut funnel, m).unwrap();
    let m = m.as_bytes();
    let buffer = funnel.ring(logger.slot()).storage();
    assert_eq!(buffer[M..], m[..(N - M)]);
    assert_eq!(buffer[..(m.len() - (N - M))], m[(N - M)..]);
}

#[test]
fn wrap_around() {
    let m = "Hello, world!";
    // cursors that are about to wrap
    let mut funnel = single(Inner::starting_at(vec![0; 32], usize::MAX));
    let logger = Logger::get(&funnel, serving(224)).unwrap();
    logger.log(&mut funnel, m).unwrap();

    let buffer = funnel.ring(logger.slot()).storage();
    assert_eq!(buffer.last(), Some(&b'H'));
    assert_eq!(buffer[..m.len() - 1], m.as_bytes()[1..]);
}

#[test]
fn wrap_around_drains_what_was_written() {
    let m = "Hello, world!";
    let mut funnel = single(Inner::starting_at(vec![0; 32], usize::MAX));
    let logger = Logger::get(&funnel, serving(224)).unwrap();
    let drain = Drain::get_all(&funnel)[0];
    logger.log(&mut funnel, m).unwrap();
    assert_eq!(funnel.ring(0).write_cursor(), 12);
    assert_eq!(funnel.ring(0).read_cursor(), usize::MAX);

    let mut buf = [0; 32];
    assert_eq!(drain.read(&mut funnel, &mut buf), m.as_bytes());
    assert!(funnel.ring(0).is_empty());
    assert_eq!(funnel.ring(0).read_cursor(), 12);
}

#[test]
fn wrap_around_drains_byte_by_byte() {
    let m = "Hello, world!";
    let mut funnel = single(Inner::starting_at(vec![0; 32], usize::MAX - 4));
    let logger = Logger::get(&funnel, serving(224)).unwrap();
    let mut drain = Drain::get_all(&funnel)[0];
    logger.log(&mut funnel, m).unwrap();
    let mut seen = Vec::new();
    while let Some(byte) = drain.next(&mut funnel) {
        seen.push(byte);
    }
    assert_eq!(seen, m.as_bytes());
}

#[test]
fn priority_224_resolves_to_logical_priority_1() {
    let rings = vec![(2, Inner::new(vec![0; 64])), (1, Inner::new(vec![0; 32]))];
    let funnel = Funnel::new(3, rings).unwrap();
    let logger = Logger::get(&funnel, serving(224)).unwrap();
    assert_eq!(funnel.priority(logger.slot()), 1);
    assert_eq!(funnel.ring(logger.slot()).capacity(), 32);
    let logger = Logger::get(&funnel, serving(192)).unwrap();
    assert_eq!(funnel.priority(logger.slot()), 2);
    assert_eq!(funnel.ring(logger.slot()).capacity(), 64);
}

#[test]
fn end_to_end() {
    let rings = vec![(1, Inner::new(vec![0; 32])), (2, Inner::new(vec![0; 64]))];
    let mut funnel = Funnel::new(3, rings).unwrap();

    let low = Logger::get(&funnel, serving(224)).unwrap();
    low.log(&mut funnel, "A").unwrap();
    let high = Logger::get(&funnel, serving(192)).unwrap();
    high.log(&mut funnel, "C").unwrap();

    let drains = Drain::get_all(&funnel);
    assert_eq!(drains.len(), 2);
    assert_eq!(funnel.priority(drains[0].slot()), 2);
    assert_eq!(funnel.priority(drains[1].slot()), 1);

    let mut buf = [0; 8];
    assert_eq!(drains[0].read(&mut funnel, &mut buf), b"C");
    assert_eq!(drains[0].read(&mut funnel, &mut buf), b"");
    assert_eq!(drains[1].read(&mut funnel, &mut buf), b"A");
    assert_eq!(drains[1].read(&mut funnel, &mut buf), b"");
    assert!(funnel.ring(0).is_empty());
    assert!(funnel.ring(1).is_empty());
}

#[test]
fn unmatched_priority_gets_no_logger() {
    let rings = vec![(1, Inner::new(vec![0; 32])), (2, Inner::new(vec![0; 64]))];
    let funnel = Funnel::new(3, rings).unwrap();
    // logical priority 3 has the code 160, and no ring buffer
    assert!(Logger::get(&funnel, serving(160)).is_none());
    assert!(Logger::get(&funnel, serving(0)).is_none());
    assert!(Logger::get(&funnel, serving(255)).is_none());
    for slot in 0..funnel.len() {
        assert!(funnel.ring(slot).is_empty());
        assert_eq!(funnel.ring(slot).write_cursor(), 0);
        assert!(funnel.ring(slot).storage().iter().all(|byte| *byte == 0));
    }
}

#[test]
fn no_logger_outside_an_interrupt() {
    let funnel = single(Inner::new(vec![0; 32]));
    // a platform without an interrupt controller
    assert!(Logger::get(&funnel, None).is_none());
    // thread mode
    assert!(Logger::get(&funnel, Some(Registers { icsr: 0, ipr: 224 })).is_none());
    // exceptions below the first interrupt, such as a hard fault
    assert!(Logger::get(&funnel, Some(Registers { icsr: 3, ipr: 224 })).is_none());
    assert!(Logger::get(&funnel, Some(Registers { icsr: 15, ipr: 224 })).is_none());
    // only the low eight bits of the register name the exception
    assert!(Logger::get(&funnel, Some(Registers { icsr: 0x8000_0000, ipr: 224 })).is_none());
    assert!(Logger::get(&funnel, Some(Registers { icsr: 0x0040_0810, ipr: 224 })).is_some());
}

#[test]
fn priority_is_read_from_the_byte_of_the_interrupt() {
    let funnel = single(Inner::new(vec![0; 32]));
    // interrupt 6 is byte 2 of its priority register
    let registers = Registers { icsr: 16 + 6, ipr: 0x11e0_2233 };
    assert!(Logger::get(&funnel, Some(registers)).is_some());
    let registers = Registers { icsr: 16 + 5, ipr: 0x11e0_2233 };
    assert!(Logger::get(&funnel, Some(registers)).is_none());
}

#[test]
fn log_reports_a_full_buffer_and_a_message_too_large() {
    let mut funnel = single(Inner::new(vec![0; 4]));
    let logger = Logger::get(&funnel, serving(224)).unwrap();
    assert_eq!(logger.log(&mut funnel, "abcde"), Err(WriteError::MessageTooLarge));
    assert_eq!(logger.log(&mut funnel, "abc"), Ok(()));
    assert_eq!(logger.log(&mut funnel, "de"), Err(WriteError::Full));
    assert_eq!(funnel.ring(0).len(), 3);
    assert_eq!(funnel.ring(0).storage(), b"abc\0");
    assert_eq!(logger.log(&mut funnel, "d"), Ok(()));
    assert_eq!(funnel.ring(0).storage(), b"abcd");
}

#[test]
fn log_writes_the_utf8_bytes_of_the_text() {
    let mut funnel = single(Inner::new(vec![0; 8]));
    let logger = Logger::get(&funnel, serving(224)).unwrap();
    let drain = Drain::get_all(&funnel)[0];
    logger.log(&mut funnel, "µs").unwrap();
    let mut buf = [0; 8];
    assert_eq!(drain.read(&mut funnel, &mut buf), [0xc2, 0xb5, b's']);
}

#[test]
fn a_drain_goes_on_after_it_found_nothing() {
    let mut funnel = single(Inner::new(vec![0; 2]));
    let logger = Logger::get(&funnel, serving(224)).unwrap();
    let mut drain = Drain::get_all(&funnel)[0];
    for round in 0..10u8 {
        assert_eq!(drain.next(&mut funnel), None);
        assert_eq!(drain.next(&mut funnel), None);
        logger.log(&mut funnel, "x").unwrap();
        assert_eq!(drain.next(&mut funnel), Some(b'x'), "round {}", round);
    }
}

#[test]
fn drains_come_highest_priority_first() {
    let rings = vec![
        (4, Inner::new(vec![0; 4])),
        (0, Inner::new(vec![0; 1])),
        (7, Inner::new(vec![0; 7])),
        (2, Inner::new(vec![0; 2])),
    ];
    let funnel = Funnel::new(3, rings).unwrap();
    let drains = Drain::get_all(&funnel);
    let priorities: Vec<u8> = drains.iter().map(|drain| funnel.priority(drain.slot())).collect();
    assert_eq!(priorities, [7, 4, 2, 0]);
    let capacities: Vec<usize> =
        drains.iter().map(|drain| funnel.ring(drain.slot()).capacity()).collect();
    assert_eq!(capacities, [7, 4, 2, 1]);
}

#[test]
fn a_read_leaves_the_rest_of_the_buffer_alone() {
    let mut funnel = single(Inner::new(vec![0; 8]));
    let logger = Logger::get(&funnel, serving(224)).unwrap();
    let drain = Drain::get_all(&funnel)[0];
    logger.log(&mut funnel, "ab").unwrap();
    let mut buf = [9; 4];
    assert_eq!(drain.read(&mut funnel, &mut buf), b"ab");
    assert_eq!(buf, [b'a', b'b', 9, 9]);
}
