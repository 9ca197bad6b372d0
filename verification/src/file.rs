//! The file stages, without the file: what the reader stage writes for each thing that a
//! read of its file can give, and what the writer stage takes off its channel for a
//! write to its file.

use crate::channel::{Sink, Source};
use crate::error::Error;
use crate::{binary_views, delivered, Binary, BinaryView};
use vstd::prelude::*;

verus! {

/// The record that stands for one read of the file. A read that failed ends the stream
/// like the end of the file does, with nothing in the record.
pub open spec fn record_of(bytes: Seq<u8>, eof: bool, failed: bool) -> BinaryView {
    if failed {
        BinaryView { last: true, data: Seq::empty() }
    } else {
        BinaryView { last: eof, data: bytes }
    }
}

/// The stage that reads a file in chunks and writes them to a channel.
pub struct Input {
    chunk: usize,
    sink: Sink<Binary>,
}

impl Input {
    /// The channel is sound.
    pub closed spec fn wf(&self) -> bool {
        self.sink.wf()
    }

    /// The channel that the stage writes to.
    pub closed spec fn sink(&self) -> Sink<Binary> {
        self.sink
    }

    /// The most bytes to ask the file for in one read.
    pub closed spec fn chunk(&self) -> nat {
        self.chunk as nat
    }

    /// The stage for a file that is read `chunk` bytes at a time.
    pub fn new(chunk: usize, sink: Sink<Binary>) -> (stage: Input)
        requires
            sink.wf(),
        ensures
            stage.wf(),
            stage.chunk() == chunk,
            stage.sink() == sink,
    {
        Input { chunk, sink }
    }

    /// The most bytes to ask the file for in one read.
    pub fn chunk_size(&self) -> (chunk: usize)
        ensures
            chunk == self.chunk(),
    {
        self.chunk
    }

    /// Lends the channel out, so that it can be drained between two reads of the file.
    pub fn sink_mut(&mut self) -> (sink: &mut Sink<Binary>)
        requires
            old(self).wf(),
        ensures
            *sink == old(self).sink(),
            final(self).sink() == *final(sink),
            final(self).chunk() == old(self).chunk(),
            final(sink).wf() ==> final(self).wf(),
    {
        &mut self.sink
    }

    /// Gives the channel back.
    pub fn into_sink(self) -> (sink: Sink<Binary>)
        ensures
            sink == self.sink(),
            self.wf() ==> sink.wf(),
    {
        self.sink
    }

    /// Writes the record for one read of the file: `bytes` is what the read gave, which is
    /// no more than a chunk, `eof` whether the file is at its end behind them, and `failed`
    /// whether the read failed instead. Returns whether the record is terminal, which is
    /// when the stage is done.
    ///
    /// Fails as a write to the channel does, and writes nothing then.
    pub fn push(&mut self, bytes: &[u8], eof: bool, failed: bool) -> (r: Result<bool, Error>)
        requires
            old(self).wf(),
            bytes@.len() <= old(self).chunk(),
        ensures
            final(self).wf(),
            final(self).chunk() == old(self).chunk(),
            match old(self).sink()@.write_error() {
                Some(e) => r == Err::<bool, Error>(e) && final(self).sink()@ == old(self).sink()@,
                None => {
                    &&& r == Ok::<bool, Error>(record_of(bytes@, eof, failed).last)
                    &&& delivered(
                        old(self).sink()@,
                        final(self).sink()@,
                        seq![record_of(bytes@, eof, failed)],
                    )
                },
            },
    {
        let ghost before = self.sink@;
        let last = eof || failed;
        match self.sink.claim() {
            Ok(slot) => {
                if failed {
                    slot.load(bytes, 0, 0, true);
                } else {
                    slot.load(bytes, 0, bytes.len(), eof);
                }
            },
            Err(e) => {
                return Err(e);
            },
        }
        proof {
            let record = record_of(bytes@, eof, failed);
            assert(bytes@.subrange(0, 0) =~= Seq::<u8>::empty());
            assert(bytes@.subrange(0, bytes@.len() as int) =~= bytes@);
            assert(binary_views(self.sink@.pending) =~= binary_views(before.pending) + seq![
                record,
            ]);
        }
        Ok(last)
    }
}

/// What a run of a writer stage takes off its channel.
pub struct Drained {
    /// Number of records taken.
    pub consumed: nat,
    /// Their bytes, one record after the other.
    pub bytes: Seq<u8>,
    /// Whether the terminal record is among them.
    pub done: bool,
}

/// A run over the records that are waiting: it takes them up to the terminal one, and
/// with it, or all of them if none is terminal.
pub open spec fn drain(records: Seq<BinaryView>) -> Drained
    decreases records.len(),
{
    if records.len() == 0 {
        Drained { consumed: 0, bytes: Seq::empty(), done: false }
    } else if records[0].last {
        Drained { consumed: 1, bytes: records[0].data, done: true }
    } else {
        let rest = drain(records.skip(1));
        Drained { consumed: 1 + rest.consumed, bytes: records[0].data + rest.bytes, done: rest.done }
    }
}

/// A run that the records run out on and the run over those that come later do together
/// what one run does over all of them: it does not matter how many records the ring held
/// at a time.
pub proof fn law_drain_resumes(waiting: Seq<BinaryView>, more: Seq<BinaryView>)
    requires
        !drain(waiting).done,
    ensures
        drain(waiting).consumed == waiting.len(),
        drain(waiting + more) == (Drained {
            consumed: waiting.len() + drain(more).consumed,
            bytes: drain(waiting).bytes + drain(more).bytes,
            done: drain(more).done,
        }),
    decreases waiting.len(),
{
    if waiting.len() == 0 {
        assert(waiting + more =~= more);
    } else {
        let rest = waiting.skip(1);
        law_drain_resumes(rest, more);
        assert((waiting + more).skip(1) =~= rest + more);
        assert(waiting[0].data + (drain(rest).bytes + drain(more).bytes) =~= (waiting[0].data
            + drain(rest).bytes) + drain(more).bytes);
    }
}

/// Takes records off `source` and puts their bytes behind what `out` holds, until the
/// terminal record has been taken.
///
/// Fails when the records run out before that: with `PeerGone` if the producer is gone,
/// with `WouldBlock` if it is still there. The records that were waiting are taken all
/// the same, and a later call goes on behind them.
pub fn drain_into(source: &mut Source<Binary>, out: &mut Vec<u8>) -> (r: Result<(), Error>)
    requires
        old(source).wf(),
    ensures
        final(source).wf(),
        ({
            let run = drain(binary_views(old(source)@.pending));
            &&& final(out)@ == old(out)@ + run.bytes
            &&& final(source)@ == old(source)@.pop_many(run.consumed)
            &&& r == (if run.done {
                Ok::<(), Error>(())
            } else if old(source)@.producer {
                Err::<(), Error>(Error::WouldBlock)
            } else {
                Err::<(), Error>(Error::PeerGone)
            })
        }),
{
    let ghost start = source@;
    let ghost goal = drain(binary_views(start.pending));
    let ghost mut consumed: nat = 0;
    let ghost mut bytes: Seq<u8> = Seq::empty();
    loop
        invariant
            source.wf(),
            start == old(source)@,
            goal == drain(binary_views(start.pending)),
            source@ == start.pop_many(consumed),
            source@.producer == start.producer,
            out@ == old(out)@ + bytes,
            ({
                let rest = drain(binary_views(source@.pending));
                &&& goal.consumed == consumed + rest.consumed
                &&& goal.bytes == bytes + rest.bytes
                &&& goal.done == rest.done
            }),
        decreases source@.pending.len(),
    {
        let ghost waiting = source@;
        let last = match source.pull() {
            Ok(record) => {
                crate::append(out, record.data.as_slice(), 0, record.data.len());
                record.last
            },
            Err(e) => {
                return Err(e);
            },
        };
        proof {
            let first = binary_views(waiting.pending)[0];
            assert(binary_views(source@.pending) =~= binary_views(waiting.pending).skip(1));
            bytes = bytes + first.data;
            consumed = consumed + 1;
        }
        if last {
            return Ok(());
        }
    }
}

/// The stage that takes records off a channel and writes their bytes to a file.
pub struct Output {
    source: Source<Binary>,
}

impl Output {
    /// The channel is sound.
    pub closed spec fn wf(&self) -> bool {
        self.source.wf()
    }

    /// The channel that the stage reads from.
    pub closed spec fn source(&self) -> Source<Binary> {
        self.source
    }

    /// The stage in front of the first record.
    pub fn new(source: Source<Binary>) -> (stage: Output)
        requires
            source.wf(),
        ensures
            stage.wf(),
            stage.source() == source,
    {
        Output { source }
    }

    /// Lends the channel out, so that more records can be written to it.
    pub fn source_mut(&mut self) -> (source: &mut Source<Binary>)
        requires
            old(self).wf(),
        ensures
            *source == old(self).source(),
            final(self).source() == *final(source),
            final(source).wf() ==> final(self).wf(),
    {
        &mut self.source
    }

    /// Gives the channel back.
    pub fn into_source(self) -> (source: Source<Binary>)
        ensures
            source == self.source(),
            self.wf() ==> source.wf(),
    {
        self.source
    }

    /// Takes records off the channel and puts their bytes behind what `out` holds, for
    /// one write to the file, until the terminal record has been taken.
    ///
    /// Fails when the records run out before that: with `PeerGone` if the producer is
    /// gone, with `WouldBlock` if it is still there. The records that were waiting are
    /// taken all the same, and a later call goes on behind them.
    pub fn run(&mut self, out: &mut Vec<u8>) -> (r: Result<(), Error>)
        requires
            old(self).wf(),
        ensures
            final(self).wf(),
            ({
                let run = drain(binary_views(old(self).source()@.pending));
                &&& final(out)@ == old(out)@ + run.bytes
                &&& final(self).source()@ == old(self).source()@.pop_many(run.consumed)
                &&& r == (if run.done {
                    Ok::<(), Error>(())
                } else if old(self).source()@.producer {
                    Err::<(), Error>(Error::WouldBlock)
                } else {
                    Err::<(), Error>(Error::PeerGone)
                })
            }),
    {
        drain_into(&mut self.source, out)
    }
}

} // verus!