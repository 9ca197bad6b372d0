use aurora::channel;
use aurora::error::Error;
use aurora::{Binary, Initialize};

struct Test {
    value: usize,
}

impl Initialize for Test {
    fn initialize() -> Test {
        Test { value: 0 }
    }

    fn reinitialize(&mut self) {
        self.value = 0;
    }
}

#[test]
fn mod_test_basic() {
    let mut channel = channel::create::<Test>(1).unwrap();

    channel.write(|x: &mut Test| x.value = 1).unwrap();
    channel.read(|x: &Test| assert_eq!(x.value, 1)).unwrap();
}

#[test]
fn test_threads() {
    let mut channel = channel::create::<Test>(1).unwrap();

    channel.write(|x: &mut Test| x.value = 1).unwrap();
    channel.close_sink();

    channel.read(|x: &Test| assert_eq!(x.value, 1)).unwrap();
}

#[test]
fn test_source_works() {
    let mut channel = channel::create::<Test>(1).unwrap();

    for i in 0usize..10000 {
        channel.write(|x: &mut Test| x.value = i).unwrap();
        channel.read(|x: &Test| assert_eq!(x.value, i)).unwrap();
    }
}

#[test]
fn write_after_the_consumer_left_is_peer_gone() {
    let mut sink = channel::create::<Test>(1).unwrap();
    sink.close_source();

    assert!(!sink.consumer_alive());
    let mut called = false;
    assert_eq!(sink.write(|_x: &mut Test| called = true), Err(Error::PeerGone));
    assert!(!called);
}

#[test]
fn write_to_a_full_ring_would_block() {
    let mut channel = channel::create::<Test>(2).unwrap();

    assert_eq!(channel.room(), 2);
    assert_eq!(channel.write_error(), None);
    assert_eq!(channel.read_error(), Some(Error::WouldBlock));
    channel.write(|x: &mut Test| x.value = 1).unwrap();
    channel.write(|x: &mut Test| x.value = 2).unwrap();
    assert_eq!(channel.room(), 0);
    assert_eq!(channel.write_error(), Some(Error::WouldBlock));
    assert_eq!(channel.read_error(), None);
    channel.close_source();
    assert_eq!(channel.write_error(), Some(Error::PeerGone));
    let mut channel = channel::create::<Test>(2).unwrap();
    channel.write(|x: &mut Test| x.value = 1).unwrap();
    channel.write(|x: &mut Test| x.value = 2).unwrap();
    assert_eq!(channel.write(|x: &mut Test| x.value = 3), Err(Error::WouldBlock));

    assert_eq!(channel.buffered(), 2);
    channel.read(|x: &Test| assert_eq!(x.value, 1)).unwrap();
    channel.read(|x: &Test| assert_eq!(x.value, 2)).unwrap();
    assert_eq!(channel.buffered(), 0);
}

#[test]
fn read_from_an_empty_ring_would_block_while_the_producer_lives() {
    let mut source = channel::create::<Test>(1).unwrap();

    assert!(source.producer_alive());
    assert!(source.peek().is_none());
    assert_eq!(source.read(|_x: &Test| ()), Err(Error::WouldBlock));
}

#[test]
fn read_from_an_empty_ring_is_peer_gone_when_the_producer_left() {
    let mut source = channel::create::<Test>(1).unwrap();
    source.close_sink();

    assert!(!source.producer_alive());
    assert_eq!(source.read_error(), Some(Error::PeerGone));
    let mut called = false;
    assert_eq!(source.read(|_x: &Test| called = true), Err(Error::PeerGone));
    assert!(!called);
}

#[test]
fn producer_drop_mid_stream() {
    let mut channel = channel::create::<Binary>(2).unwrap();

    channel.write(|binary: &mut Binary| binary.data.push(7)).unwrap();
    channel.close_sink();

    let mut seen = Vec::new();
    assert_eq!(channel.read(|binary: &Binary| seen.push((binary.last, binary.data.clone()))), Ok(()));
    assert_eq!(seen, vec![(false, vec![7u8])]);
    assert_eq!(channel.read(|_binary: &Binary| ()), Err(Error::PeerGone));
}

#[test]
fn capacity_zero_is_refused() {
    assert!(matches!(channel::create::<Test>(0), Err(Error::CapacityZero)));
}

#[test]
fn records_come_out_in_the_order_they_went_in() {
    let mut channel = channel::create::<Test>(5).unwrap();

    for i in 0usize..5 {
        channel.write(|x: &mut Test| x.value = 10 + i).unwrap();
    }
    for i in 0usize..5 {
        channel.read(|x: &Test| assert_eq!(x.value, 10 + i)).unwrap();
    }
    assert_eq!(channel.read(|_x: &Test| ()), Err(Error::WouldBlock));
}

#[test]
fn the_ring_wraps_around() {
    let mut channel = channel::create::<Test>(3).unwrap();
    let mut next = 0usize;
    let mut expected = 0usize;

    for round in 0usize..7 {
        let burst = 1 + round % 3;
        for _ in 0..burst {
            channel.write(|x: &mut Test| x.value = next).unwrap();
            next += 1;
        }
        assert_eq!(channel.peek().map(|x| x.value), Some(expected));
        for _ in 0..burst {
            channel.read(|x: &Test| assert_eq!(x.value, expected)).unwrap();
            expected += 1;
        }
    }
}

#[test]
fn a_slot_is_empty_again_when_it_is_claimed() {
    let mut channel = channel::create::<Binary>(1).unwrap();

    {
        let slot = channel.claim().unwrap();
        slot.data.extend_from_slice(&[1, 2, 3]);
        slot.last = true;
    }
    {
        let record = channel.pull().unwrap();
        assert_eq!(record.data, vec![1u8, 2, 3]);
        assert!(record.last);
    }
    let slot = channel.claim().unwrap();
    assert!(slot.data.is_empty());
    assert!(!slot.last);
}

#[test]
fn reinitialize_keeps_what_a_record_has_allocated() {
    let mut record = Binary::initialize();
    record.data.extend(std::iter::repeat(9u8).take(10000));
    record.last = true;
    let capacity = record.data.capacity();

    record.reinitialize();
    assert!(!record.last);
    assert!(record.data.is_empty());
    assert_eq!(record.data.capacity(), capacity);

    record.data.extend(std::iter::repeat(1u8).take(capacity));
    assert_eq!(record.data.capacity(), capacity);
}

#[test]
fn a_slot_keeps_what_its_record_has_allocated() {
    let mut channel = channel::create::<Binary>(1).unwrap();

    let before = {
        let slot = channel.claim().unwrap();
        slot.data.extend(std::iter::repeat(3u8).take(9000));
        slot.data.capacity()
    };
    channel.read(|binary| assert_eq!(binary.data.len(), 9000)).unwrap();

    let slot = channel.claim().unwrap();
    assert!(slot.data.is_empty());
    assert_eq!(slot.data.capacity(), before);
}

#[test]
fn every_error_names_its_component() {
    assert_eq!(Error::PeerGone.message(), "Channel: Peer is dropped");
    assert_eq!(Error::CapacityZero.message(), "Channel: A channel needs a slot");
    assert_eq!(Error::WouldBlock.message(), "Channel: Peer has to act first");
    assert_eq!(Error::UnexpectedEof.message(), "Stream: Unexpected EOF");
    assert_eq!(Error::NoProgress.message(), "Stream: Not progressing");
    assert_eq!(Error::Argument.message(), "Stream: Argument out of range");
    assert_eq!(Error::FormatUndeclared.message(), "caf::Muxer: Unknown sample type");
}

#[test]
fn the_two_ends_can_take_turns_in_any_order() {
    let mut channel = channel::create::<Test>(2).unwrap();
    let mut written = Vec::new();
    let mut read = Vec::new();

    // Writes where the step is not a multiple of 3, reads where it is even.
    for step in 0usize..200 {
        if step % 3 != 0 && channel.write(|x: &mut Test| x.value = step).is_ok() {
            written.push(step);
        }
        if step % 2 == 0 {
            let _ = channel.read(|x: &Test| read.push(x.value));
        }
        assert_eq!(channel.room() + channel.buffered(), 2);
        assert_eq!(written.len(), read.len() + channel.buffered());
    }
    while channel.read(|x: &Test| read.push(x.value)).is_ok() {}

    assert!(written.len() > 50);
    assert_eq!(read, written);
}
