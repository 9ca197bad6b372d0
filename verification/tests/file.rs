use aurora::channel;
use aurora::error::Error;
use aurora::file::{drain_into, Input, Output};
use aurora::stdout;
use aurora::Binary;

#[test]
fn a_read_of_the_file_becomes_a_record() {
    let sink = channel::create::<Binary>(4).unwrap();
    let mut input = Input::new(4096, sink);
    assert_eq!(input.chunk_size(), 4096);

    assert_eq!(input.push(&[0; 16], false, false), Ok(false));
    assert_eq!(input.push(&[1, 2, 3], true, false), Ok(true));

    let mut seen = Vec::new();
    while input.sink_mut().buffered() > 0 {
        input.sink_mut().read(|binary| seen.push((binary.last, binary.data.clone()))).unwrap();
    }
    assert_eq!(seen, vec![(false, vec![0u8; 16]), (true, vec![1u8, 2, 3])]);
}

#[test]
fn a_full_chunk_of_zeros_is_a_record_that_does_not_end_the_stream() {
    let sink = channel::create::<Binary>(1).unwrap();
    let mut input = Input::new(4096, sink);

    assert_eq!(input.push(&[0u8; 4096], false, false), Ok(false));
    input
        .sink_mut()
        .read(|binary| {
            assert_eq!(binary.last, false);
            assert_eq!(binary.data.len(), 4096);

            for i in 0..4096 {
                assert_eq!(binary.data[i], 0);
            }
        })
        .unwrap();
}

#[test]
fn the_end_of_an_empty_file_is_an_empty_terminal_record() {
    let sink = channel::create::<Binary>(1).unwrap();
    let mut input = Input::new(4096, sink);

    assert_eq!(input.push(&[], true, false), Ok(true));
    input
        .sink_mut()
        .read(|binary| {
            assert_eq!(binary.last, true);
            assert_eq!(binary.data.len(), 0);
        })
        .unwrap();
}

#[test]
fn a_failed_read_ends_the_stream() {
    let sink = channel::create::<Binary>(2).unwrap();
    let mut input = Input::new(8, sink);

    assert_eq!(input.push(&[1, 2, 3], false, true), Ok(true));

    let mut output = stdout::Output::new(input.into_sink());
    let mut bytes = vec![9u8];
    assert_eq!(output.run(&mut bytes), Ok(()));
    assert_eq!(bytes, vec![9u8]);
}

#[test]
fn the_writer_takes_all_up_to_the_terminal_record() {
    let sink = channel::create::<Binary>(4).unwrap();
    let mut input = Input::new(8, sink);
    assert_eq!(input.push(&[1, 2], false, false), Ok(false));
    assert_eq!(input.push(&[3], true, false), Ok(true));
    assert_eq!(input.push(&[4, 5], false, false), Ok(false));

    let mut output = Output::new(input.into_sink());
    let mut bytes = vec![0u8];
    assert_eq!(output.run(&mut bytes), Ok(()));
    assert_eq!(bytes, vec![0u8, 1, 2, 3]);
    assert_eq!(output.source_mut().buffered(), 1);

    // Behind the terminal record a new run starts.
    let mut bytes = Vec::new();
    assert_eq!(output.run(&mut bytes), Err(Error::WouldBlock));
    assert_eq!(bytes, vec![4u8, 5]);
    output.source_mut().close_sink();
    assert_eq!(output.run(&mut bytes), Err(Error::PeerGone));
    assert_eq!(bytes, vec![4u8, 5]);
}

#[test]
fn a_writer_goes_on_when_more_has_come() {
    let mut channel = channel::create::<Binary>(2).unwrap();
    channel.write(|binary| binary.data.push(1)).unwrap();

    let mut output = stdout::Output::new(channel);
    let mut bytes = Vec::new();
    assert_eq!(output.run(&mut bytes), Err(Error::WouldBlock));
    output
        .source_mut()
        .write(|binary| {
            binary.data.push(2);
            binary.last = true;
        })
        .unwrap();
    assert_eq!(output.run(&mut bytes), Ok(()));
    assert_eq!(bytes, vec![1u8, 2]);

    let mut rest = output.into_source();
    assert_eq!(drain_into(&mut rest, &mut bytes), Err(Error::WouldBlock));
    assert_eq!(bytes, vec![1u8, 2]);
}

#[test]
fn the_reader_stage_sees_the_channel_fail() {
    let sink = channel::create::<Binary>(1).unwrap();
    let mut input = Input::new(8, sink);
    assert_eq!(input.push(&[1], false, false), Ok(false));
    assert_eq!(input.push(&[2], false, false), Err(Error::WouldBlock));
    input.sink_mut().close_source();
    assert_eq!(input.push(&[2], false, false), Err(Error::PeerGone));
    assert_eq!(input.into_sink().buffered(), 1);
}
