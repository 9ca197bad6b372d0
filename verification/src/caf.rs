//! The Core Audio Format muxer: it puts the three framing records of a CAF file in front of
//! a stream of PCM audio and then passes the audio on as it comes.

use crate::channel::{Sink, Source};
use crate::codec::{be_bytes, push_be};
use crate::endian::Endian;
use crate::error::Error;
use crate::sample_type::{bits, size, SampleType};
use crate::{audio_views, binary_views, delivered, Audio, AudioView, Binary, BinaryView};
use vstd::prelude::*;

verus! {

/// The file header: `caff`, version 1, flags 0.
pub open spec fn file_header() -> Seq<u8> {
    seq![0x63u8, 0x61, 0x66, 0x66] + be_bytes(1, 2) + be_bytes(0, 2)
}

/// The format flags of linear PCM: bit 0 for floating point samples, bit 1 for little
/// endian ones.
pub open spec fn format_flags(audio: AudioView) -> nat {
    let float: nat = if audio.sample_type is Float {
        1
    } else {
        0
    };
    let little: nat = if audio.endian == Endian::Little {
        2
    } else {
        0
    };
    float + little
}

/// Bytes in one packet, which is one sample of every channel.
pub open spec fn bytes_per_packet(audio: AudioView) -> nat {
    (bits(audio.sample_type) * audio.channels) / 8
}

/// The audio description chunk: `desc`, its size of 32, the sample rate, `lpcm`, the
/// format flags, bytes per packet, one frame per packet, channels, bits per sample. Every
/// number is big endian, and a number too large for its field loses its high bytes.
pub open spec fn description(audio: AudioView) -> Seq<u8> {
    seq![0x64u8, 0x65, 0x73, 0x63] + be_bytes(32, 8) + be_bytes(audio.sample_rate_bits as nat, 8)
        + seq![0x6cu8, 0x70, 0x63, 0x6d] + be_bytes(format_flags(audio), 4) + be_bytes(
        bytes_per_packet(audio),
        4,
    ) + be_bytes(1, 4) + be_bytes(audio.channels, 4) + be_bytes(bits(audio.sample_type), 4)
}

/// The header of the data chunk: `data`, and a size of all ones for "not known".
pub open spec fn data_header() -> Seq<u8> {
    seq![0x64u8, 0x61, 0x74, 0x61] + Seq::new(8, |i: int| 0xFFu8)
}

/// The records that one audio record turns into: its bytes and terminal flag, behind the
/// three framing records if it is the first of its stream.
pub open spec fn frame(first: bool, audio: AudioView) -> Seq<BinaryView> {
    let body = seq![BinaryView { last: audio.last, data: audio.data }];
    if first {
        seq![
            BinaryView { last: false, data: file_header() },
            BinaryView { last: false, data: description(audio) },
            BinaryView { last: false, data: data_header() },
        ] + body
    } else {
        body
    }
}

/// What a run of the muxer does.
pub struct Muxed {
    /// Number of audio records taken from the input.
    pub consumed: nat,
    /// The records written to the output, in order.
    pub records: Seq<BinaryView>,
    /// Whether the next audio record is still the first of its stream.
    pub first: bool,
    /// How the run ends.
    pub result: Result<(), Error>,
}

/// A run over the audio records `input` that are waiting, with `room` free slots on the
/// output. `producer` says whether the end that writes the audio is still there,
/// `consumer` whether the end that reads the output is.
///
/// Record by record: the run ends well behind a terminal record. Where it has to wait it
/// fails with `WouldBlock` and takes nothing: when nothing is waiting and the producer is
/// there, and when the output has no room for all that the record at hand turns into.
/// It fails with `PeerGone` when nothing is waiting and the producer is gone. A record
/// that the run can never pass on is read and lost with the failure, and nothing of it is
/// written: the first record when it does not declare its sample type
/// (`FormatUndeclared`), and any record when the consumer is gone (`PeerGone`).
pub open spec fn mux(
    first: bool,
    input: Seq<AudioView>,
    producer: bool,
    room: nat,
    consumer: bool,
) -> Muxed
    decreases input.len(),
{
    let stop = |e: Error| Muxed { consumed: 0, records: Seq::empty(), first, result: Err(e) };
    let lose = |e: Error| Muxed { consumed: 1, records: Seq::empty(), first, result: Err(e) };
    if input.len() == 0 {
        stop(
            if producer {
                Error::WouldBlock
            } else {
                Error::PeerGone
            },
        )
    } else if first && input[0].sample_type is Unknown {
        lose(Error::FormatUndeclared)
    } else if !consumer {
        lose(Error::PeerGone)
    } else if room < frame(first, input[0]).len() {
        stop(Error::WouldBlock)
    } else if input[0].last {
        Muxed { consumed: 1, records: frame(first, input[0]), first: false, result: Ok(()) }
    } else {
        let rest = mux(
            false,
            input.skip(1),
            producer,
            (room - frame(first, input[0]).len()) as nat,
            consumer,
        );
        Muxed {
            consumed: 1 + rest.consumed,
            records: frame(first, input[0]) + rest.records,
            first: rest.first,
            result: rest.result,
        }
    }
}

/// A run that had to wait and the run that goes on behind it do together what one run
/// does that finds everything there. Let a first run end with `WouldBlock`, for want of
/// audio or for want of room. Let `more` audio records come behind those that were
/// waiting, and `freed` slots of the output become free. Then the next run over what is
/// left goes on where the first one stopped, and the two together are the run over all
/// the records with all the room.
pub proof fn law_mux_resumes(
    first: bool,
    input: Seq<AudioView>,
    more: Seq<AudioView>,
    producer: bool,
    room: nat,
    freed: nat,
    consumer: bool,
)
    requires
        mux(first, input, producer, room, consumer).result == Err::<(), Error>(Error::WouldBlock),
    ensures
        mux(first, input, producer, room, consumer).consumed <= input.len(),
        mux(first, input, producer, room, consumer).records.len() <= room,
        ({
            let before = mux(first, input, producer, room, consumer);
            let after = mux(
                before.first,
                (input + more).skip(before.consumed as int),
                producer,
                (room - before.records.len() + freed) as nat,
                consumer,
            );
            mux(first, input + more, producer, room + freed, consumer) == (Muxed {
                consumed: before.consumed + after.consumed,
                records: before.records + after.records,
                first: after.first,
                result: after.result,
            })
        }),
    decreases input.len(),
{
    let before = mux(first, input, producer, room, consumer);
    let all = input + more;
    if input.len() == 0 || room < frame(first, input[0]).len() {
        assert(all.skip(0) =~= all);
        let after = mux(first, all, producer, room + freed, consumer);
        assert(before.records + after.records =~= after.records);
    } else {
        let framed = frame(first, input[0]);
        let left = (room - framed.len()) as nat;
        let inner = mux(false, input.skip(1), producer, left, consumer);
        law_mux_resumes(false, input.skip(1), more, producer, left, freed, consumer);
        assert(all.skip(1) =~= input.skip(1) + more);
        assert((input.skip(1) + more).skip(inner.consumed as int) =~= all.skip(
            before.consumed as int,
        ));
        let after = mux(
            inner.first,
            all.skip(before.consumed as int),
            producer,
            (left - inner.records.len() + freed) as nat,
            consumer,
        );
        assert(framed + (inner.records + after.records) =~= (framed + inner.records)
            + after.records);
    }
}

fn push_tag(out: &mut Vec<u8>, a: u8, b: u8, c: u8, d: u8)
    ensures
        final(out)@ == old(out)@ + seq![a, b, c, d],
{
    out.push(a);
    out.push(b);
    out.push(c);
    out.push(d);
}

fn write_file_header(record: &mut Binary)
    ensures
        final(record)@ == (BinaryView { last: false, data: file_header() }),
{
    record.last = false;
    record.data.truncate(0);
    push_tag(&mut record.data, 0x63, 0x61, 0x66, 0x66);
    push_be(&mut record.data, 1, 2);
    push_be(&mut record.data, 0, 2);
}

fn write_description(record: &mut Binary, audio: &Audio)
    ensures
        final(record)@ == (BinaryView { last: false, data: description(audio@) }),
{
    record.last = false;
    record.data.truncate(0);
    let mut flags: u128 = 0;
    match audio.sample_type {
        SampleType::Float(_) => {
            flags = flags + 1;
        },
        _ => {},
    }
    match audio.endian {
        Endian::Little => {
            flags = flags + 2;
        },
        Endian::Big => {},
    }
    let width = size(audio.sample_type);
    let channels = audio.channels;
    assert(width * channels <= 0xFFFF_FFFF_FFFF_FFFF * 0xFFFF_FFFF_FFFF_FFFF) by (nonlinear_arith)
        requires
            0 <= width <= 0xFFFF_FFFF_FFFF_FFFF,
            0 <= channels <= 0xFFFF_FFFF_FFFF_FFFF,
    ;
    let packet: u128 = (width as u128) * (channels as u128) / 8;
    push_tag(&mut record.data, 0x64, 0x65, 0x73, 0x63);
    push_be(&mut record.data, 32, 8);
    push_be(&mut record.data, audio.sample_rate_bits as u128, 8);
    push_tag(&mut record.data, 0x6c, 0x70, 0x63, 0x6d);
    push_be(&mut record.data, flags, 4);
    push_be(&mut record.data, packet, 4);
    push_be(&mut record.data, 1, 4);
    push_be(&mut record.data, channels as u128, 4);
    push_be(&mut record.data, width as u128, 4);
}

fn write_data_header(record: &mut Binary)
    ensures
        final(record)@ == (BinaryView { last: false, data: data_header() }),
{
    record.last = false;
    record.data.truncate(0);
    push_tag(&mut record.data, 0x64, 0x61, 0x74, 0x61);
    let mut count: usize = 0;
    while count < 8
        invariant
            count <= 8,
            !record.last,
            record.data@ == seq![0x64u8, 0x61, 0x74, 0x61] + Seq::new(count as nat, |i: int| 0xFFu8),
        decreases 8 - count,
    {
        record.data.push(0xFF);
        count = count + 1;
    }
}

/// The stage that turns a stream of audio records into the records of a CAF file.
pub struct Muxer {
    source: Source<Audio>,
    sink: Sink<Binary>,
    first: bool,
}

impl Muxer {
    /// Both channels are sound.
    pub closed spec fn wf(&self) -> bool {
        self.source.wf() && self.sink.wf()
    }

    /// The channel that the audio comes from.
    pub closed spec fn source(&self) -> Source<Audio> {
        self.source
    }

    /// The channel that the file goes to.
    pub closed spec fn sink(&self) -> Sink<Binary> {
        self.sink
    }

    /// Whether the framing records are still to be written.
    pub closed spec fn first(&self) -> bool {
        self.first
    }

    /// The muxer in front of the first audio record.
    pub fn new(source: Source<Audio>, sink: Sink<Binary>) -> (muxer: Muxer)
        requires
            source.wf(),
            sink.wf(),
        ensures
            muxer.wf(),
            muxer.source() == source,
            muxer.sink() == sink,
            muxer.first(),
    {
        Muxer { source, sink, first: true }
    }

    /// Lends the input channel out, so that more audio can be written to it between two
    /// runs.
    pub fn source_mut(&mut self) -> (source: &mut Source<Audio>)
        requires
            old(self).wf(),
        ensures
            *source == old(self).source(),
            final(self).source() == *final(source),
            final(self).sink() == old(self).sink(),
            final(self).first() == old(self).first(),
            final(source).wf() ==> final(self).wf(),
    {
        &mut self.source
    }

    /// Lends the output channel out, so that it can be drained between two runs.
    pub fn sink_mut(&mut self) -> (sink: &mut Sink<Binary>)
        requires
            old(self).wf(),
        ensures
            *sink == old(self).sink(),
            final(self).sink() == *final(sink),
            final(self).source() == old(self).source(),
            final(self).first() == old(self).first(),
            final(sink).wf() ==> final(self).wf(),
    {
        &mut self.sink
    }

    /// Gives both channels back.
    pub fn into_parts(self) -> (parts: (Source<Audio>, Sink<Binary>))
        ensures
            parts.0 == self.source(),
            parts.1 == self.sink(),
            self.wf() ==> parts.0.wf() && parts.1.wf(),
    {
        (self.source, self.sink)
    }

    /// Muxes the audio records that are waiting, as `mux` describes, until one of them is
    /// terminal or the run cannot go on. A record is passed on whole, with all its framing,
    /// or not at all; where the run has to wait, the record stays on the input for a later
    /// run.
    pub fn run(&mut self) -> (r: Result<(), Error>)
        requires
            old(self).wf(),
        ensures
            final(self).wf(),
            ({
                let run = mux(
                    old(self).first(),
                    audio_views(old(self).source()@.pending),
                    old(self).source()@.producer,
                    old(self).sink()@.not_full(),
                    old(self).sink()@.consumer,
                );
                &&& r == run.result
                &&& final(self).first() == run.first
                &&& final(self).source()@ == old(self).source()@.pop_many(run.consumed)
                &&& delivered(old(self).sink()@, final(self).sink()@, run.records)
            }),
    {
        let ghost input = self.source@;
        let ghost output = self.sink@;
        let ghost goal = mux(
            self.first,
            audio_views(input.pending),
            input.producer,
            output.not_full(),
            output.consumer,
        );
        let ghost mut consumed: nat = 0;
        let ghost mut records: Seq<BinaryView> = Seq::empty();
        proof {
            self.source.lemma_view_wf();
            self.sink.lemma_view_wf();
        }
        loop
            invariant
                self.wf(),
                input == old(self).source()@,
                output == old(self).sink()@,
                self.source@ == input.pop_many(consumed),
                self.source@.producer == input.producer,
                self.sink@.consumer == output.consumer,
                delivered(output, self.sink@, records),
                ({
                    let rest = mux(
                        self.first,
                        audio_views(self.source@.pending),
                        input.producer,
                        self.sink@.not_full(),
                        output.consumer,
                    );
                    &&& goal.result == rest.result
                    &&& goal.first == rest.first
                    &&& goal.consumed == consumed + rest.consumed
                    &&& goal.records == records + rest.records
                }),
                goal == mux(
                    old(self).first(),
                    audio_views(input.pending),
                    input.producer,
                    output.not_full(),
                    output.consumer,
                ),
            decreases self.source@.pending.len(),
        {
            let ghost waiting = self.source@;
            let ghost held = self.sink@;
            let ghost was_first = self.first;
            proof {
                self.source.lemma_view_wf();
                self.sink.lemma_view_wf();
            }
            let passed: Result<bool, Error> = match self.source.peek() {
                None => {
                    if self.source.producer_alive() {
                        return Err(Error::WouldBlock);
                    } else {
                        return Err(Error::PeerGone);
                    }
                },
                Some(audio) => {
                    let ghost framed = frame(was_first, audio@);
                    let undeclared = match audio.sample_type {
                        SampleType::Unknown => self.first,
                        _ => false,
                    };
                    if undeclared {
                        Err(Error::FormatUndeclared)
                    } else if !self.sink.consumer_alive() {
                        Err(Error::PeerGone)
                    } else {
                        let needed: usize = if self.first {
                            4
                        } else {
                            1
                        };
                        if self.sink.room() < needed {
                            return Err(Error::WouldBlock);
                        }
                        if self.first {
                            match self.sink.claim() {
                                Ok(slot) => {
                                    write_file_header(slot);
                                },
                                Err(e) => {
                                    return Err(e);
                                },
                            }
                            match self.sink.claim() {
                                Ok(slot) => {
                                    write_description(slot, audio);
                                },
                                Err(e) => {
                                    return Err(e);
                                },
                            }
                            match self.sink.claim() {
                                Ok(slot) => {
                                    write_data_header(slot);
                                },
                                Err(e) => {
                                    return Err(e);
                                },
                            }
                        }
                        match self.sink.claim() {
                            Ok(slot) => {
                                slot.load(audio.data.as_slice(), 0, audio.data.len(), audio.last);
                            },
                            Err(e) => {
                                return Err(e);
                            },
                        }
                        proof {
                            let all = audio.data@;
                            assert(all.subrange(0, all.len() as int) =~= all);
                            let before = binary_views(output.pending);
                            assert(binary_views(self.sink@.pending) =~= binary_views(held.pending)
                                + framed);
                            assert(before + (records + framed) =~= (before + records) + framed);
                        }
                        Ok(audio.last)
                    }
                },
            };
            match self.source.pull() {
                Ok(_) => {},
                Err(e) => {
                    return Err(e);
                },
            }
            proof {
                assert(audio_views(self.source@.pending) =~= audio_views(waiting.pending).skip(1));
            }
            match passed {
                Ok(last) => {
                    self.first = false;
                    proof {
                        records = records + frame(was_first, audio_views(waiting.pending)[0]);
                        consumed = consumed + 1;
                    }
                    if last {
                        return Ok(());
                    }
                },
                Err(e) => {
                    return Err(e);
                },
            }
        }
    }
}

} // verus!
