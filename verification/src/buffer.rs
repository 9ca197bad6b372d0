//! The in-memory source stage: it cuts a byte sequence into records of at most `chunk`
//! bytes and marks the one that carries the end of the sequence as terminal.

use crate::channel::Sink;
use crate::error::Error;
use crate::{binary_views, delivered, Binary, BinaryView};
use vstd::prelude::*;

verus! {

/// What a run of the stage puts on the channel.
pub struct Emitted {
    /// The records, in the order in which they are written.
    pub records: Seq<BinaryView>,
    /// The number of bytes they carry together.
    pub bytes: nat,
    /// Whether the terminal record is among them.
    pub done: bool,
}

/// The record that starts at the front of `data`: at most `chunk` bytes, terminal when it
/// reaches the end of `data`.
pub open spec fn first_record(data: Seq<u8>, chunk: nat) -> BinaryView {
    if chunk >= data.len() {
        BinaryView { last: true, data }
    } else {
        BinaryView { last: false, data: data.take(chunk as int) }
    }
}

/// The records that a run cuts from `data` when the channel has `room` free slots. The
/// run stops behind the terminal record, or when the room is used up.
pub open spec fn emit(data: Seq<u8>, chunk: nat, room: nat) -> Emitted
    decreases room,
{
    if room == 0 {
        Emitted { records: Seq::empty(), bytes: 0, done: false }
    } else {
        let record = first_record(data, chunk);
        if record.last {
            Emitted { records: seq![record], bytes: record.data.len(), done: true }
        } else {
            let rest = emit(data.skip(chunk as int), chunk, (room - 1) as nat);
            Emitted {
                records: seq![record] + rest.records,
                bytes: chunk + rest.bytes,
                done: rest.done,
            }
        }
    }
}

/// The bytes of `records`, one record after the other.
pub open spec fn payload(records: Seq<BinaryView>) -> Seq<u8>
    decreases records.len(),
{
    if records.len() == 0 {
        Seq::empty()
    } else {
        payload(records.drop_last()) + records.last().data
    }
}

/// The stage that reads a byte sequence in memory and writes it to a channel in chunks.
pub struct Buffer {
    buffer: Vec<u8>,
    position: usize,
    chunk: usize,
    sink: Sink<Binary>,
}

impl Buffer {
    /// The place in the buffer lies within it, and the channel is sound.
    pub closed spec fn wf(&self) -> bool {
        self.position <= self.buffer@.len() && self.sink.wf()
    }

    /// The bytes that no record has carried yet.
    pub closed spec fn remaining(&self) -> Seq<u8> {
        self.buffer@.skip(self.position as int)
    }

    /// The most bytes that one record carries.
    pub closed spec fn chunk(&self) -> nat {
        self.chunk as nat
    }

    /// The channel that the stage writes to.
    pub closed spec fn sink(&self) -> Sink<Binary> {
        self.sink
    }

    /// The stage at the start of `buffer`.
    pub fn new(buffer: Vec<u8>, chunk: usize, sink: Sink<Binary>) -> (stage: Buffer)
        requires
            sink.wf(),
        ensures
            stage.wf(),
            stage.remaining() == buffer@,
            stage.chunk() == chunk,
            stage.sink() == sink,
    {
        Buffer { buffer, position: 0, chunk, sink }
    }

    /// Lends the channel out, so that it can be drained between two runs.
    pub fn sink_mut(&mut self) -> (sink: &mut Sink<Binary>)
        requires
            old(self).wf(),
        ensures
            *sink == old(self).sink(),
            final(self).sink() == *final(sink),
            final(self).remaining() == old(self).remaining(),
            final(self).chunk() == old(self).chunk(),
            final(sink).wf() ==> final(self).wf(),
    {
        &mut self.sink
    }

    /// Gives the channel back.
    pub fn into_sink(self) -> (sink: Sink<Binary>)
        ensures
            sink == self.sink(),
            self.wf() ==> sink.wf(),
    {
        self.sink
    }

    /// Writes what remains of the buffer to the channel, one record of at most `chunk`
    /// bytes after the other; the record that reaches the end is terminal. An empty
    /// remainder gives one empty terminal record.
    ///
    /// Fails with `PeerGone`, and writes nothing, when the consumer is gone. Fails with
    /// `WouldBlock` when the channel fills up before the terminal record is written; the
    /// records that did fit are written, and a later call goes on behind them.
    pub fn run(&mut self) -> (r: Result<(), Error>)
        requires
            old(self).wf(),
        ensures
            final(self).wf(),
            final(self).chunk() == old(self).chunk(),
            !old(self).sink()@.consumer ==> {
                &&& r == Err::<(), Error>(Error::PeerGone)
                &&& final(self).remaining() == old(self).remaining()
                &&& final(self).sink()@ == old(self).sink()@
            },
            old(self).sink()@.consumer ==> {
                let sent = emit(old(self).remaining(), old(self).chunk(), old(self).sink()@.not_full());
                &&& r == (if sent.done {
                    Ok::<(), Error>(())
                } else {
                    Err::<(), Error>(Error::WouldBlock)
                })
                &&& final(self).remaining() == old(self).remaining().skip(sent.bytes as int)
                &&& delivered(old(self).sink()@, final(self).sink()@, sent.records)
            },
    {
        if !self.sink.consumer_alive() {
            return Err(Error::PeerGone);
        }
        let ghost start = self.remaining();
        let ghost before = self.sink@;
        let ghost goal = emit(start, self.chunk as nat, before.not_full());
        let ghost mut records: Seq<BinaryView> = Seq::empty();
        let ghost mut bytes: nat = 0;
        proof {
            self.sink.lemma_view_wf();
        }
        loop
            invariant
                self.wf(),
                self.chunk == old(self).chunk,
                self.sink@.consumer,
                start == old(self).remaining(),
                before == old(self).sink()@,
                goal == emit(start, self.chunk as nat, before.not_full()),
                bytes <= start.len(),
                self.remaining() == start.skip(bytes as int),
                delivered(before, self.sink@, records),
                ({
                    let rest = emit(self.remaining(), self.chunk as nat, self.sink@.not_full());
                    &&& goal.records == records + rest.records
                    &&& goal.bytes == bytes + rest.bytes
                    &&& goal.done == rest.done
                }),
            decreases self.sink@.not_full(),
        {
            let left = self.buffer.len() - self.position;
            let write_len = if self.chunk < left {
                self.chunk
            } else {
                left
            };
            let from = self.position;
            let to = self.position + write_len;
            let last = to >= self.buffer.len();
            let ghost record = first_record(self.remaining(), self.chunk as nat);
            let ghost held = self.sink@;
            proof {
                self.sink.lemma_view_wf();
                assert(self.buffer@.subrange(from as int, to as int) =~= record.data);
            }
            match self.sink.claim() {
                Ok(slot) => {
                    slot.load(self.buffer.as_slice(), from, to, last);
                },
                Err(e) => {
                    return Err(e);
                },
            }
            self.position = to;
            proof {
                assert(binary_views(self.sink@.pending) =~= binary_views(held.pending).push(
                    record,
                ));
                if !record.last {
                    assert(start.skip(bytes as int).skip(self.chunk as int) =~= start.skip(
                        (bytes + self.chunk) as int,
                    ));
                } else {
                    assert(records + seq![record] =~= records.push(record));
                }
                assert(self.remaining() =~= start.skip((bytes + record.data.len()) as int));
                records = records.push(record);
                bytes = bytes + record.data.len();
            }
            if last {
                return Ok(());
            }
        }
    }
}

/// Nothing is lost or added by the cutting: the records of a run that reached the
/// terminal record carry, put end to end, exactly the bytes that the run started with,
/// and only the last of them is terminal. So a stream over these records has exactly
/// these bytes to hand out before its end.
pub proof fn law_emit_carries_all(data: Seq<u8>, chunk: nat, room: nat)
    requires
        emit(data, chunk, room).done,
    ensures
        payload(emit(data, chunk, room).records) == data,
        crate::stream::upcoming(emit(data, chunk, room).records) == data,
        emit(data, chunk, room).bytes == data.len(),
        emit(data, chunk, room).records.len() >= 1,
        forall|i: int|
            0 <= i < emit(data, chunk, room).records.len() ==> (#[trigger] emit(
                data,
                chunk,
                room,
            ).records[i]).last == (i == emit(data, chunk, room).records.len() - 1),
    decreases room,
{
    let sent = emit(data, chunk, room);
    let record = first_record(data, chunk);
    if record.last {
        assert(payload(sent.records.drop_last()) =~= Seq::<u8>::empty());
    } else {
        let rest = emit(data.skip(chunk as int), chunk, (room - 1) as nat);
        law_emit_carries_all(data.skip(chunk as int), chunk, (room - 1) as nat);
        lemma_payload_front(record, rest.records);
        assert(sent.records.skip(1) =~= rest.records);
    }
}

/// A run carries no more bytes than there are.
pub proof fn lemma_emit_within(data: Seq<u8>, chunk: nat, room: nat)
    ensures
        emit(data, chunk, room).bytes <= data.len(),
    decreases room,
{
    if room > 0 && !first_record(data, chunk).last {
        lemma_emit_within(data.skip(chunk as int), chunk, (room - 1) as nat);
    }
}

/// A run that the room cuts short and the run that goes on behind it do together what
/// one run does that has the room of both: the size of the ring changes when a record is
/// written, and not which records are written.
pub proof fn law_emit_resumes(data: Seq<u8>, chunk: nat, room: nat, more: nat)
    requires
        !emit(data, chunk, room).done,
    ensures
        ({
            let first = emit(data, chunk, room);
            let second = emit(data.skip(first.bytes as int), chunk, more);
            emit(data, chunk, room + more) == (Emitted {
                records: first.records + second.records,
                bytes: first.bytes + second.bytes,
                done: second.done,
            })
        }),
    decreases room,
{
    let first = emit(data, chunk, room);
    if room == 0 {
        assert(data.skip(0) =~= data);
    } else {
        let record = first_record(data, chunk);
        let rest = data.skip(chunk as int);
        law_emit_resumes(rest, chunk, (room - 1) as nat, more);
        lemma_emit_within(rest, chunk, (room - 1) as nat);
        let inner = emit(rest, chunk, (room - 1) as nat);
        let tail = emit(rest.skip(inner.bytes as int), chunk, more);
        assert(rest.skip(inner.bytes as int) =~= data.skip(first.bytes as int));
        assert(seq![record] + (inner.records + tail.records) =~= (seq![record] + inner.records)
            + tail.records);
    }
}

/// The bytes of a record followed by more records are its own bytes followed by theirs.
proof fn lemma_payload_front(record: BinaryView, records: Seq<BinaryView>)
    ensures
        payload(seq![record] + records) == record.data + payload(records),
    decreases records.len(),
{
    let all = seq![record] + records;
    if records.len() == 0 {
        assert(payload(all.drop_last()) =~= Seq::<u8>::empty());
    } else {
        lemma_payload_front(record, records.drop_last());
        assert(all.drop_last() =~= seq![record] + records.drop_last());
    }
}

} // verus!
