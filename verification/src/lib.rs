//! A staged audio and binary processing framework.
//!
//! Stages hand reusable records to each other over bounded channels; a typed
//! byte and bit reader sits on top of a channel of binary records.
//!
//! Everything here runs on one thread and never waits. A channel is a ring that its
//! owner works from both ends, and an operation that would have to wait for the other
//! end returns `Error::WouldBlock` with nothing changed, so that the caller can let the
//! other end act and try again. Whoever shares a channel between threads puts the ring
//! behind a lock and waits there.

use vstd::prelude::*;

pub mod buffer;
pub mod caf;
pub mod channel;
pub mod codec;
pub mod endian;
pub mod error;
pub mod file;
pub mod sample_type;
pub mod stdout;
pub mod stream;

verus! {

/// A record that can live in a channel slot: it is built once in its empty state and
/// put back into that state, in place, every time the slot is reused.
pub trait Initialize: Sized {
    /// The empty state that `initialize` builds and `reinitialize` restores. A record type
    /// that does not say what its empty state is promises nothing about it.
    open spec fn fresh(&self) -> bool {
        true
    }

    fn initialize() -> (record: Self)
        ensures
            record.fresh(),
    ;

    fn reinitialize(&mut self)
        ensures
            final(self).fresh(),
    ;
}

/// A chunk of raw bytes; `last` marks the final record of a stream.
pub struct Binary {
    pub last: bool,
    pub data: Vec<u8>,
}

/// What a `Binary` record carries, as mathematics.
pub struct BinaryView {
    pub last: bool,
    pub data: Seq<u8>,
}

impl View for Binary {
    type V = BinaryView;

    open spec fn view(&self) -> BinaryView {
        BinaryView { last: self.last, data: self.data@ }
    }
}

/// The models of `records`, in the same order.
pub open spec fn binary_views(records: Seq<Binary>) -> Seq<BinaryView> {
    records.map_values(|record: Binary| record@)
}

/// `after` is `before` with records that look like `records` written behind what was
/// pending; nothing was read and both ends are as they were.
pub open spec fn delivered(
    before: channel::ChannelView<Binary>,
    after: channel::ChannelView<Binary>,
    records: Seq<BinaryView>,
) -> bool {
    &&& after.capacity == before.capacity
    &&& after.consumed == before.consumed
    &&& after.written == before.written + records.len()
    &&& after.producer == before.producer
    &&& after.consumer == before.consumer
    &&& binary_views(after.pending) == binary_views(before.pending) + records
}

/// Puts `bytes[from..to]` behind what `out` holds.
pub fn append(out: &mut Vec<u8>, bytes: &[u8], from: usize, to: usize)
    requires
        from <= to <= bytes@.len(),
    ensures
        final(out)@ == old(out)@ + bytes@.subrange(from as int, to as int),
{
    let mut index = from;
    while index < to
        invariant
            from <= index <= to <= bytes@.len(),
            out@ == old(out)@ + bytes@.subrange(from as int, index as int),
        decreases to - index,
    {
        out.push(bytes[index]);
        index = index + 1;
    }
}

/// Makes `out` hold `bytes[from..to]`. What `out` has allocated stays with it.
pub fn assign(out: &mut Vec<u8>, bytes: &[u8], from: usize, to: usize)
    requires
        from <= to <= bytes@.len(),
    ensures
        final(out)@ == bytes@.subrange(from as int, to as int),
{
    out.truncate(0);
    append(out, bytes, from, to);
}

impl Binary {
    /// Makes the record hold `bytes[from..to]` and the given terminal flag.
    pub fn load(&mut self, bytes: &[u8], from: usize, to: usize, last: bool)
        requires
            from <= to <= bytes@.len(),
        ensures
            final(self)@ == (BinaryView { last, data: bytes@.subrange(from as int, to as int) }),
    {
        self.last = last;
        assign(&mut self.data, bytes, from, to);
    }
}

impl Initialize for Binary {
    open spec fn fresh(&self) -> bool {
        !self.last && self.data@.len() == 0
    }

    fn initialize() -> (record: Binary) {
        Binary { last: false, data: Vec::with_capacity(4096) }
    }

    fn reinitialize(&mut self) {
        self.last = false;
        self.data.truncate(0);
    }
}

/// A chunk of interleaved PCM samples together with the format they are in.
///
/// The sample rate is held as the bit pattern of its IEEE 754 double, which is the only
/// form in which the library ever looks at it.
pub struct Audio {
    pub last: bool,
    pub channels: usize,
    pub sample_rate_bits: u64,
    pub endian: endian::Endian,
    pub sample_type: sample_type::SampleType,
    pub data: Vec<u8>,
}

/// What an `Audio` record carries, as mathematics.
pub struct AudioView {
    pub last: bool,
    pub channels: nat,
    pub sample_rate_bits: u64,
    pub endian: endian::Endian,
    pub sample_type: sample_type::SampleType,
    pub data: Seq<u8>,
}

impl View for Audio {
    type V = AudioView;

    open spec fn view(&self) -> AudioView {
        AudioView {
            last: self.last,
            channels: self.channels as nat,
            sample_rate_bits: self.sample_rate_bits,
            endian: self.endian,
            sample_type: self.sample_type,
            data: self.data@,
        }
    }
}

/// The models of `records`, in the same order.
pub open spec fn audio_views(records: Seq<Audio>) -> Seq<AudioView> {
    records.map_values(|record: Audio| record@)
}

impl Initialize for Audio {
    open spec fn fresh(&self) -> bool {
        &&& !self.last
        &&& self.channels == 0
        &&& self.sample_rate_bits == 0
        &&& self.endian == endian::Endian::Big
        &&& self.sample_type == sample_type::SampleType::Unknown
        &&& self.data@.len() == 0
    }

    fn initialize() -> (record: Audio) {
        Audio {
            last: false,
            channels: 0,
            sample_rate_bits: 0,
            endian: endian::Endian::Big,
            sample_type: sample_type::SampleType::Unknown,
            data: Vec::with_capacity(4096),
        }
    }

    fn reinitialize(&mut self) {
        self.last = false;
        self.channels = 0;
        self.sample_rate_bits = 0;
        self.endian = endian::Endian::Big;
        self.sample_type = sample_type::SampleType::Unknown;
        self.data.truncate(0);
    }
}

} // verus!
