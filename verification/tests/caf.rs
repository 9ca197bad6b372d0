use aurora::caf::Muxer;
use aurora::channel;
use aurora::channel::{Sink, Source};
use aurora::endian::Endian;
use aurora::error::Error;
use aurora::sample_type::{size, SampleType};
use aurora::{Audio, Binary, Initialize};

fn drain(source: &mut Source<Binary>) -> Vec<(bool, Vec<u8>)> {
    let mut records = Vec::new();
    while source.buffered() > 0 {
        source.read(|binary| records.push((binary.last, binary.data.clone()))).unwrap();
    }
    records
}

fn send(sink: &mut Sink<Audio>, sample_type: SampleType, endian: Endian, data: &[u8], last: bool) {
    sink.write(|audio| {
        audio.channels = 2;
        audio.sample_rate_bits = 44100.0f64.to_bits();
        audio.endian = endian;
        audio.sample_type = sample_type;
        audio.data.extend_from_slice(data);
        audio.last = last;
    })
    .unwrap();
}

fn description(flags: u8, bytes_per_packet: u8, channels: u8, bits: u8) -> Vec<u8> {
    let mut expected = Vec::new();
    expected.extend_from_slice(b"desc");
    expected.extend_from_slice(&[0, 0, 0, 0, 0, 0, 0, 32]);
    expected.extend_from_slice(&[0x40, 0xE5, 0x88, 0x80, 0x00, 0x00, 0x00, 0x00]);
    expected.extend_from_slice(b"lpcm");
    expected.extend_from_slice(&[0, 0, 0, flags]);
    expected.extend_from_slice(&[0, 0, 0, bytes_per_packet]);
    expected.extend_from_slice(&[0, 0, 0, 1]);
    expected.extend_from_slice(&[0, 0, 0, channels]);
    expected.extend_from_slice(&[0, 0, 0, bits]);
    expected
}

#[test]
fn caf_muxer_first_record_framing() {
    let mut audio = channel::create::<Audio>(1).unwrap();
    let binary = channel::create::<Binary>(4).unwrap();
    let payload = [1u8, 2, 3, 4, 5, 6, 7, 8];
    send(&mut audio, SampleType::Signed(16), Endian::Little, &payload, true);

    let mut muxer = Muxer::new(audio, binary);
    assert_eq!(muxer.run(), Ok(()));

    let records = drain(muxer.sink_mut());
    assert_eq!(records.len(), 4);
    assert_eq!(records[0], (false, vec![b'c', b'a', b'f', b'f', 0, 1, 0, 0]));
    assert_eq!(records[1].1.len(), 44);
    assert_eq!(records[1], (false, description(0x02, 4, 2, 16)));
    assert_eq!(
        records[2],
        (false, vec![b'd', b'a', b't', b'a', 0xFF, 0xFF, 0xFF, 0xFF, 0xFF, 0xFF, 0xFF, 0xFF])
    );
    assert_eq!(records[3], (true, payload.to_vec()));
}

#[test]
fn the_sample_rate_is_written_as_the_bits_of_its_double() {
    assert_eq!(44100.0f64.to_bits().to_be_bytes(), [0x40, 0xE5, 0x88, 0x80, 0x00, 0x00, 0x00, 0x00]);
}

#[test]
fn float_and_big_endian_set_the_other_flags() {
    let mut audio = channel::create::<Audio>(1).unwrap();
    let binary = channel::create::<Binary>(4).unwrap();
    send(&mut audio, SampleType::Float(32), Endian::Big, &[], true);

    let mut muxer = Muxer::new(audio, binary);
    assert_eq!(muxer.run(), Ok(()));

    let records = drain(muxer.sink_mut());
    assert_eq!(records[1], (false, description(0x01, 8, 2, 32)));
    assert_eq!(records[3], (true, vec![]));

    let mut audio = channel::create::<Audio>(1).unwrap();
    let binary = channel::create::<Binary>(4).unwrap();
    send(&mut audio, SampleType::Float(64), Endian::Little, &[], true);
    let mut muxer = Muxer::new(audio, binary);
    assert_eq!(muxer.run(), Ok(()));
    assert_eq!(drain(muxer.sink_mut())[1], (false, description(0x03, 16, 2, 64)));

    let mut audio = channel::create::<Audio>(1).unwrap();
    let binary = channel::create::<Binary>(4).unwrap();
    send(&mut audio, SampleType::Unsigned(8), Endian::Big, &[], true);
    let mut muxer = Muxer::new(audio, binary);
    assert_eq!(muxer.run(), Ok(()));
    assert_eq!(drain(muxer.sink_mut())[1], (false, description(0x00, 2, 2, 8)));
}

#[test]
fn later_records_are_passed_on_as_they_are() {
    let mut audio = channel::create::<Audio>(3).unwrap();
    let binary = channel::create::<Binary>(6).unwrap();
    send(&mut audio, SampleType::Signed(16), Endian::Little, &[1, 2], false);
    send(&mut audio, SampleType::Signed(16), Endian::Little, &[3, 4, 5, 6], false);
    send(&mut audio, SampleType::Signed(16), Endian::Little, &[7], true);

    let mut muxer = Muxer::new(audio, binary);
    assert_eq!(muxer.run(), Ok(()));

    let records = drain(muxer.sink_mut());
    assert_eq!(records.len(), 6);
    assert_eq!(records[3], (false, vec![1u8, 2]));
    assert_eq!(records[4], (false, vec![3u8, 4, 5, 6]));
    assert_eq!(records[5], (true, vec![7u8]));
    let (mut audio, _binary) = muxer.into_parts();
    assert_eq!(audio.buffered(), 0);
    assert_eq!(audio.read(|_audio| ()), Err(Error::WouldBlock));
}

#[test]
fn an_undeclared_format_is_refused() {
    let mut audio = channel::create::<Audio>(1).unwrap();
    let binary = channel::create::<Binary>(4).unwrap();
    send(&mut audio, SampleType::Unknown, Endian::Big, &[1, 2], true);

    let mut muxer = Muxer::new(audio, binary);
    assert_eq!(muxer.run(), Err(Error::FormatUndeclared));
    assert_eq!(Error::FormatUndeclared.message(), "caf::Muxer: Unknown sample type");

    // The record was read, and nothing was written for it.
    let (audio, binary) = muxer.into_parts();
    assert_eq!(audio.buffered(), 0);
    assert_eq!(audio.room(), 1);
    assert_eq!(binary.buffered(), 0);
}

#[test]
fn only_the_first_record_has_to_declare_its_format() {
    let mut audio = channel::create::<Audio>(3).unwrap();
    let binary = channel::create::<Binary>(8).unwrap();
    send(&mut audio, SampleType::Unknown, Endian::Big, &[1], false);
    send(&mut audio, SampleType::Signed(16), Endian::Little, &[2], false);
    send(&mut audio, SampleType::Unknown, Endian::Big, &[3], true);

    let mut muxer = Muxer::new(audio, binary);
    // The undeclared first record is read and lost; the next one is the first in its place.
    assert_eq!(muxer.run(), Err(Error::FormatUndeclared));
    assert_eq!(muxer.source_mut().buffered(), 2);
    assert_eq!(muxer.sink_mut().buffered(), 0);

    assert_eq!(muxer.run(), Ok(()));
    let records = drain(muxer.sink_mut());
    assert_eq!(records.len(), 5);
    assert_eq!(records[0], (false, vec![b'c', b'a', b'f', b'f', 0, 1, 0, 0]));
    assert_eq!(records[3], (false, vec![2u8]));
    assert_eq!(records[4], (true, vec![3u8]));
}

#[test]
fn the_muxer_waits_for_audio_and_for_room() {
    let mut audio = channel::create::<Audio>(2).unwrap();
    let binary = channel::create::<Binary>(3).unwrap();
    send(&mut audio, SampleType::Signed(16), Endian::Little, &[1, 2], false);

    let mut muxer = Muxer::new(audio, binary);
    // Three slots are too few for the framing and the first payload.
    assert_eq!(muxer.run(), Err(Error::WouldBlock));
    let (audio, _binary) = muxer.into_parts();
    assert_eq!(audio.buffered(), 1);

    let binary = channel::create::<Binary>(4).unwrap();
    let mut muxer = Muxer::new(audio, binary);
    // Now the record goes through, and the muxer waits for the next one.
    assert_eq!(muxer.run(), Err(Error::WouldBlock));
    assert_eq!(drain(muxer.sink_mut()).len(), 4);

    send(muxer.source_mut(), SampleType::Signed(16), Endian::Little, &[3, 4], true);
    assert_eq!(muxer.run(), Ok(()));
    assert_eq!(drain(muxer.sink_mut()), vec![(true, vec![3u8, 4])]);
}

#[test]
fn the_muxer_sees_its_peers_go() {
    let mut audio = channel::create::<Audio>(1).unwrap();
    audio.close_sink();
    let binary = channel::create::<Binary>(4).unwrap();
    let mut muxer = Muxer::new(audio, binary);
    assert_eq!(muxer.run(), Err(Error::PeerGone));

    let mut audio = channel::create::<Audio>(1).unwrap();
    send(&mut audio, SampleType::Signed(16), Endian::Little, &[1, 2], true);
    let mut binary = channel::create::<Binary>(4).unwrap();
    binary.close_source();
    let mut muxer = Muxer::new(audio, binary);
    assert_eq!(muxer.run(), Err(Error::PeerGone));
    // The record was read before the write failed.
    let (audio, binary) = muxer.into_parts();
    assert_eq!(audio.buffered(), 0);
    assert_eq!(binary.buffered(), 0);
}

#[test]
fn the_size_of_a_sample_type_is_its_width() {
    assert_eq!(size(SampleType::Unknown), 0);
    assert_eq!(size(SampleType::Unsigned(8)), 8);
    assert_eq!(size(SampleType::Signed(16)), 16);
    assert_eq!(size(SampleType::Float(32)), 32);
}

#[test]
fn a_new_audio_record_is_neutral() {
    let mut audio = Audio::initialize();
    assert_eq!(audio.last, false);
    assert_eq!(audio.channels, 0);
    assert_eq!(f64::from_bits(audio.sample_rate_bits), 0.0);
    assert_eq!(audio.endian, Endian::Big);
    assert_eq!(audio.sample_type, SampleType::Unknown);
    assert!(audio.data.is_empty());

    audio.last = true;
    audio.channels = 2;
    audio.sample_rate_bits = 48000.0f64.to_bits();
    audio.endian = Endian::Little;
    audio.sample_type = SampleType::Float(32);
    audio.data.extend_from_slice(&[1, 2, 3]);
    let capacity = audio.data.capacity();
    audio.reinitialize();

    assert_eq!(audio.last, false);
    assert_eq!(audio.channels, 0);
    assert_eq!(audio.sample_rate_bits, 0);
    assert_eq!(audio.endian, Endian::Big);
    assert_eq!(audio.sample_type, SampleType::Unknown);
    assert!(audio.data.is_empty());
    assert_eq!(audio.data.capacity(), capacity);
}
