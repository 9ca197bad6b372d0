//! The typed byte stream: exact-size reads of integers from a stream that arrives in
//! chunks of any size.

use crate::channel::Source;
use crate::codec::{be_decode, be_value, extend_sign, le_decode, le_value, lemma_value_bound, signed};
use crate::endian::Endian;
use crate::error::Error;
use crate::{assign, binary_views, Binary, BinaryView};
use vstd::arithmetic::power2::{lemma2_to64, pow2};
use vstd::prelude::*;

pub mod bits;
pub mod buffer;

pub use bits::Bitstream;

verus! {

/// Where a stream gets its chunks from, one at a time.
///
/// What a source holds is stated by `valid`, `chunks` and `open`. A source that does not
/// state them is taken to hold nothing and to get nothing, and what is proved of a
/// stream over it holds as far as its `feed` keeps to the contract.
pub trait Feed: Sized {
    open spec fn valid(&self) -> bool {
        true
    }

    /// The chunks that are waiting, oldest first.
    open spec fn chunks(&self) -> Seq<BinaryView> {
        Seq::empty()
    }

    /// Whether more chunks may still be added behind those that are waiting.
    open spec fn open(&self) -> bool {
        false
    }

    /// Moves the bytes of the oldest waiting chunk into `buffer`, in place of what it held,
    /// and tells whether that chunk is the last of the stream.
    ///
    /// Fails when no chunk is waiting: with `WouldBlock` if more may come, with `PeerGone`
    /// if not. Nothing changes then.
    fn feed(&mut self, buffer: &mut Vec<u8>) -> (r: Result<bool, Error>)
        requires
            old(self).valid(),
        ensures
            final(self).valid(),
            final(self).open() == old(self).open(),
            match r {
                Ok(last) => {
                    &&& old(self).chunks().len() > 0
                    &&& final(buffer)@ == old(self).chunks()[0].data
                    &&& last == old(self).chunks()[0].last
                    &&& final(self).chunks() == old(self).chunks().skip(1)
                },
                Err(e) => {
                    &&& old(self).chunks().len() == 0
                    &&& e == (if old(self).open() {
                        Error::WouldBlock
                    } else {
                        Error::PeerGone
                    })
                    &&& final(self).chunks() == old(self).chunks()
                    &&& final(buffer)@ == old(buffer)@
                },
            },
    ;
}

impl Feed for Source<Binary> {
    open spec fn valid(&self) -> bool {
        self.wf()
    }

    open spec fn chunks(&self) -> Seq<BinaryView> {
        binary_views(self@.pending)
    }

    open spec fn open(&self) -> bool {
        self@.producer
    }

    fn feed(&mut self, buffer: &mut Vec<u8>) -> (r: Result<bool, Error>) {
        match self.pull() {
            Ok(record) => {
                assign(buffer, record.data.as_slice(), 0, record.data.len());
                Ok(record.last)
            },
            Err(e) => Err(e),
        }
    }
}

/// A stream as mathematics.
pub struct Model {
    /// The bytes of the chunk at hand that have not been handed out yet.
    pub ready: Seq<u8>,
    /// The chunk at hand is the last one: behind `ready` lies the end of the stream.
    pub ended: bool,
    /// The chunks that wait behind the one at hand.
    pub chunks: Seq<BinaryView>,
    /// Whether more chunks may still be added.
    pub open: bool,
}

/// What one attempt to read does.
pub struct Step {
    /// The stream behind the attempt.
    pub model: Model,
    /// The bytes handed out, which may be none at all; `None` at the end of the stream.
    pub result: Result<Option<Seq<u8>>, Error>,
}

/// What a run of attempts does.
pub struct Gathered {
    /// The stream behind the run.
    pub model: Model,
    /// The bytes handed out, also where the run failed.
    pub bytes: Seq<u8>,
    /// How the run ends.
    pub result: Result<(), Error>,
}

impl Model {
    /// Nothing is left to hand out and nothing will come.
    pub open spec fn at_eof(self) -> bool {
        self.ready.len() == 0 && self.ended
    }

    /// Nothing is at hand, the stream has not ended, and no chunk waits.
    pub open spec fn starved(self) -> bool {
        self.ready.len() == 0 && !self.ended && self.chunks.len() == 0
    }

    /// The stream with the next chunk taken in, where nothing is at hand and one waits.
    pub open spec fn primed(self) -> Model {
        if self.ready.len() == 0 && !self.ended && self.chunks.len() > 0 {
            Model {
                ready: self.chunks[0].data,
                ended: self.chunks[0].last,
                chunks: self.chunks.skip(1),
                open: self.open,
            }
        } else {
            self
        }
    }

    /// The stream behind the first `count` bytes at hand.
    pub open spec fn advance(self, count: nat) -> Model {
        Model { ready: self.ready.skip(count as int), ..self }
    }

    /// One attempt to read up to `want` bytes. At the end of the stream it hands out
    /// `None`. With nothing at hand it takes in the next chunk, and fails if none waits:
    /// with `WouldBlock` if more may come, with `PeerGone` if not. Then it hands out what
    /// is at hand, up to `want` bytes; of an empty chunk, that is nothing.
    pub open spec fn step(self, want: nat) -> Step {
        if self.at_eof() {
            Step { model: self, result: Ok(None) }
        } else if self.starved() {
            Step {
                model: self,
                result: Err(
                    if self.open {
                        Error::WouldBlock
                    } else {
                        Error::PeerGone
                    },
                ),
            }
        } else {
            let primed = self.primed();
            let count = if want <= primed.ready.len() {
                want
            } else {
                primed.ready.len()
            };
            Step { model: primed.advance(count), result: Ok(Some(primed.ready.take(count as int))) }
        }
    }

    /// Attempts to read, each for as much as is left of `room`, until `least` bytes have
    /// come. The run fails with `UnexpectedEof` at the end of the stream, with
    /// `NoProgress` when an attempt hands out nothing, and with the error of an attempt
    /// that fails.
    pub open spec fn gather(self, least: nat, room: nat) -> Gathered
        decreases least,
    {
        if least == 0 {
            Gathered { model: self, bytes: Seq::empty(), result: Ok(()) }
        } else {
            let step = self.step(room);
            match step.result {
                Err(e) => Gathered { model: step.model, bytes: Seq::empty(), result: Err(e) },
                Ok(None) => Gathered {
                    model: step.model,
                    bytes: Seq::empty(),
                    result: Err(Error::UnexpectedEof),
                },
                Ok(Some(bytes)) => if bytes.len() == 0 {
                    Gathered {
                        model: step.model,
                        bytes: Seq::empty(),
                        result: Err(Error::NoProgress),
                    }
                } else {
                    let rest = step.model.gather(
                        if bytes.len() < least {
                            (least - bytes.len()) as nat
                        } else {
                            0
                        },
                        (room - bytes.len()) as nat,
                    );
                    Gathered { model: rest.model, bytes: bytes + rest.bytes, result: rest.result }
                },
            }
        }
    }

    /// A read of exactly `count` bytes.
    pub open spec fn exact(self, count: nat) -> Gathered {
        self.gather(count, count)
    }
}

/// What an attempt reports to its caller: the number of bytes in place of the bytes.
pub open spec fn counted(result: Result<Option<Seq<u8>>, Error>) -> Result<Option<usize>, Error> {
    match result {
        Ok(Some(bytes)) => Ok(Some(bytes.len() as usize)),
        Ok(None) => Ok(None),
        Err(e) => Err(e),
    }
}

/// What an exact read reports to its caller: the number that the bytes spell.
pub open spec fn decoded<T>(run: Gathered, decode: spec_fn(Seq<u8>) -> T) -> Result<T, Error> {
    match run.result {
        Ok(_) => Ok(decode(run.bytes)),
        Err(e) => Err(e),
    }
}

/// A run hands out no more than its room, and at least what it was after if it ends well.
pub proof fn lemma_gather_len(model: Model, least: nat, room: nat)
    requires
        least <= room,
    ensures
        model.gather(least, room).bytes.len() <= room,
        model.gather(least, room).result is Ok ==> model.gather(least, room).bytes.len() >= least,
        least == room && model.gather(least, room).result is Ok ==> model.gather(
            least,
            room,
        ).bytes.len() == least,
        model.gather(least, room).result is Ok ==> model.gather(least, room).result == Ok::<
            (),
            Error,
        >(()),
    decreases least,
{
    if least > 0 {
        let step = model.step(room);
        if let Ok(Some(bytes)) = step.result {
            if bytes.len() > 0 {
                let less = if bytes.len() < least {
                    (least - bytes.len()) as nat
                } else {
                    0
                };
                lemma_gather_len(step.model, less, (room - bytes.len()) as nat);
            }
        }
    }
}

/// The bytes of the chunks up to the first terminal one, and with it.
pub open spec fn upcoming(chunks: Seq<BinaryView>) -> Seq<u8>
    decreases chunks.len(),
{
    if chunks.len() == 0 {
        Seq::empty()
    } else if chunks[0].last {
        chunks[0].data
    } else {
        chunks[0].data + upcoming(chunks.skip(1))
    }
}

/// What a series of attempts to read hands out.
pub struct Observed {
    /// The bytes, in the order in which they came.
    pub seen: Seq<u8>,
    /// The stream behind the series.
    pub model: Model,
}

impl Model {
    /// All the bytes that the producer has emitted and that no read has handed out yet:
    /// those at hand and, unless the chunk at hand is the last one, those of the chunks
    /// that wait, up to the terminal one.
    pub open spec fn remaining(self) -> Seq<u8> {
        if self.ended {
            self.ready
        } else {
            self.ready + upcoming(self.chunks)
        }
    }

    /// A series of attempts to read, one for each entry of `wants` and for that many
    /// bytes, which stops at the first attempt that does not hand out bytes: at the end
    /// of the stream or where the source has nothing to give.
    pub open spec fn observe(self, wants: Seq<nat>) -> Observed
        decreases wants.len(),
    {
        if wants.len() == 0 {
            Observed { seen: Seq::empty(), model: self }
        } else {
            let step = self.step(wants[0]);
            match step.result {
                Ok(Some(bytes)) => {
                    let rest = step.model.observe(wants.skip(1));
                    Observed { seen: bytes + rest.seen, model: rest.model }
                },
                _ => Observed { seen: Seq::empty(), model: step.model },
            }
        }
    }
}

/// One attempt to read hands out bytes from the front of what remains, and leaves the
/// rest; it hands out `None` only when nothing remains; and where it fails, nothing has
/// changed.
pub proof fn lemma_step_conserves(model: Model, want: nat)
    ensures
        match model.step(want).result {
            Ok(Some(bytes)) => model.remaining() == bytes + model.step(want).model.remaining(),
            Ok(None) => model.remaining().len() == 0 && model.step(want).model == model,
            Err(_) => model.step(want).model == model,
        },
{
    if !model.at_eof() && !model.starved() {
        let primed = model.primed();
        let step = model.step(want);
        let bytes = step.result->Ok_0->Some_0;
    }
}

/// The conservation law. Whatever a series of attempts to read hands out is the front
/// of what remained before it, and what remains behind it is the rest: no byte is lost,
/// added or moved. A series that has come to the end of the stream has handed out all
/// that remained: the bytes of every record up to the terminal one, and with it.
pub proof fn law_bytes_conserved(model: Model, wants: Seq<nat>)
    ensures
        model.remaining() == model.observe(wants).seen + model.observe(wants).model.remaining(),
        model.observe(wants).model.at_eof() ==> model.observe(wants).seen == model.remaining(),
    decreases wants.len(),
{
    if wants.len() > 0 {
        let step = model.step(wants[0]);
        lemma_step_conserves(model, wants[0]);
        if step.result matches Ok(Some(_)) {
            law_bytes_conserved(step.model, wants.skip(1));
        }
    }
}

/// No chunk in front of the first terminal one is empty, so that a read never meets a
/// chunk that makes no progress.
pub open spec fn flowing(chunks: Seq<BinaryView>) -> bool
    decreases chunks.len(),
{
    chunks.len() == 0 || chunks[0].last || (chunks[0].data.len() > 0 && flowing(chunks.skip(1)))
}

impl Model {
    /// No chunk that a read can still meet in front of the end of the stream is empty.
    pub open spec fn flows(self) -> bool {
        self.ended || flowing(self.chunks)
    }
}

/// The law of exact reads. From a stream in which no chunk in front of the end is empty,
/// a read of exactly `count` bytes ends well whenever that many bytes remain, however
/// they are spread over the chunk at hand and the chunks that wait. It hands out the
/// first `count` of the bytes that remain and leaves the rest to remain. The same holds
/// of a skip and of every read of a number, which are exact reads.
pub proof fn law_exact_read(model: Model, count: nat)
    requires
        model.flows(),
        count <= model.remaining().len(),
    ensures
        model.exact(count).result == Ok::<(), Error>(()),
        model.exact(count).bytes == model.remaining().take(count as int),
        model.exact(count).model.remaining() == model.remaining().skip(count as int),
        model.exact(count).model.flows(),
    decreases count,
{
    let all = model.remaining();
    if count == 0 {
        assert(all.take(0) =~= Seq::<u8>::empty());
        assert(all.skip(0) =~= all);
    } else {
        let primed = model.primed();
        assert(primed.remaining() =~= all);
        assert(primed.ready.len() > 0);
        let taken: nat = if count <= primed.ready.len() {
            count
        } else {
            primed.ready.len()
        };
        let bytes = primed.ready.take(taken as int);
        let next = primed.advance(taken);
        assert(next.remaining() =~= all.skip(taken as int));
        assert(bytes =~= all.take(taken as int));
        law_exact_read(next, (count - taken) as nat);
        let rest = next.exact((count - taken) as nat);
        assert(model.exact(count).bytes == bytes + rest.bytes);
        assert(bytes + rest.bytes =~= all.take(count as int));
        assert(all.skip(taken as int).skip(count - taken) =~= all.skip(count as int));
    }
}

/// The sign-extension law. Where the next `n` bytes that remain in a stream spell `u` in
/// big-endian order, a read of an `n`-byte two's complement number takes these bytes and
/// gives `u` if `u` is below `2^(8n - 1)`, and `u - 2^(8n)` if not.
pub proof fn law_sign_extension(model: Model, n: nat, u: nat)
    requires
        1 <= n <= 8,
        u < pow2(8 * n),
        model.flows(),
        n <= model.remaining().len(),
        model.remaining().take(n as int) == crate::codec::be_bytes(u, n),
    ensures
        model.exact(n).model.remaining() == model.remaining().skip(n as int),
        decoded(model.exact(n), |bytes: Seq<u8>| signed(be_value(bytes), 8 * n) as i64) == Ok::<
            i64,
            Error,
        >(
            if u < pow2((8 * n - 1) as nat) {
                u as i64
            } else {
                (u - pow2(8 * n)) as i64
            },
        ),
        u < pow2((8 * n - 1) as nat) ==> u <= i64::MAX,
        u >= pow2((8 * n - 1) as nat) ==> i64::MIN <= u - pow2(8 * n) < 0,
{
    law_exact_read(model, n);
    crate::codec::lemma_be_round_trip(u, n);
    crate::codec::lemma_radix(n);
    lemma2_to64();
    vstd::arithmetic::power2::lemma2_to64_rest();
    vstd::arithmetic::power2::lemma_pow2_adds((8 * n - 1) as nat, 1);
    if n < 8 {
        vstd::arithmetic::power2::lemma_pow2_strictly_increases((8 * n - 1) as nat, 63);
    }
}

/// The number that `bytes` spell in the given byte order.
pub open spec fn ordered_value(order: Endian, bytes: Seq<u8>) -> nat {
    match order {
        Endian::Big => be_value(bytes),
        Endian::Little => le_value(bytes),
    }
}

/// `u16::to_ne_bytes` of the number one: its two bytes as this machine lays them out in
/// memory, which is either the little-endian or the big-endian way.
#[verifier::external_body]
fn native_one() -> (bytes: [u8; 2])
    ensures
        bytes@ == seq![1u8, 0u8] || bytes@ == seq![0u8, 1u8],
{
    1u16.to_ne_bytes()
}

/// The byte order that `probe` shows, where `probe` is the number one as two bytes in
/// memory: little-endian if the one comes first, big-endian if not. Read in that order,
/// such a probe spells the number one again.
fn order_of(probe: [u8; 2]) -> (order: Endian)
    ensures
        order == (if probe@[0] == 1 {
            Endian::Little
        } else {
            Endian::Big
        }),
        probe@ == seq![1u8, 0u8] || probe@ == seq![0u8, 1u8] ==> ordered_value(order, probe@) == 1,
{
    proof {
        let bytes = probe@;
        if bytes == seq![1u8, 0u8] || bytes == seq![0u8, 1u8] {
            assert(le_value(bytes.skip(1).skip(1)) == 0);
            assert(le_value(bytes.skip(1)) == bytes[1]);
            assert(be_value(bytes.drop_last().drop_last()) == 0);
            assert(be_value(bytes.drop_last()) == bytes[0]);
        }
    }
    if probe[0] == 1 {
        Endian::Little
    } else {
        Endian::Big
    }
}

/// The byte order of this machine, as its layout of the number one shows it. Which of the
/// two it is depends on the machine, so nothing is said of it here.
fn native_order() -> (order: Endian) {
    order_of(native_one())
}

/// The byte stream over a source of chunks.
///
/// It keeps the chunk at hand in a buffer of its own, which grows to the largest chunk
/// seen and is used again for every chunk after it.
pub struct Stream<S> {
    last: bool,
    position: usize,
    length: usize,
    buffer: Vec<u8>,
    source: S,
}

impl<S: Feed> View for Stream<S> {
    type V = Model;

    closed spec fn view(&self) -> Model {
        Model {
            ready: self.buffer@.subrange(self.position as int, self.length as int),
            ended: self.last,
            chunks: self.source.chunks(),
            open: self.source.open(),
        }
    }
}

impl<S: Feed> Stream<S> {
    /// The place in the buffer lies within the chunk at hand, and the source is sound.
    pub closed spec fn wf(&self) -> bool {
        &&& self.position <= self.length
        &&& self.length == self.buffer@.len()
        &&& self.source.valid()
    }

    /// A stream at the start of what `source` will deliver.
    pub fn new(source: S) -> (stream: Stream<S>)
        requires
            source.valid(),
        ensures
            stream.wf(),
            stream@ == (Model {
                ready: Seq::empty(),
                ended: false,
                chunks: source.chunks(),
                open: source.open(),
            }),
    {
        let stream =
            Stream { last: false, position: 0, length: 0, buffer: Vec::with_capacity(4096), source };
        assert(stream@.ready =~= Seq::<u8>::empty());
        stream
    }

    /// A stream whose only chunk is `buffer`: it hands out these bytes and ends.
    pub fn over(buffer: Vec<u8>, source: S) -> (stream: Stream<S>)
        requires
            source.valid(),
        ensures
            stream.wf(),
            stream@ == (Model {
                ready: buffer@,
                ended: true,
                chunks: source.chunks(),
                open: source.open(),
            }),
    {
        let length = buffer.len();
        let stream = Stream { last: true, position: 0, length, buffer, source };
        assert(stream@.ready =~= buffer@);
        stream
    }

    /// Lends the source out, so that more chunks can be put into it between two reads.
    pub fn source_mut(&mut self) -> (source: &mut S)
        requires
            old(self).wf(),
        ensures
            source.valid(),
            source.chunks() == old(self)@.chunks,
            source.open() == old(self)@.open,
            final(self)@ == (Model {
                chunks: final(source).chunks(),
                open: final(source).open(),
                ..old(self)@
            }),
            final(source).valid() ==> final(self).wf(),
    {
        &mut self.source
    }

    /// Gives the source back. The bytes at hand are dropped.
    pub fn into_source(self) -> (source: S)
        requires
            self.wf(),
        ensures
            source.valid(),
            source.chunks() == self@.chunks,
            source.open() == self@.open,
    {
        self.source
    }

    /// Takes the next chunk in where the one at hand is used up.
    fn update_buffer(&mut self) -> (r: Result<(), Error>)
        requires
            old(self).wf(),
            old(self)@.ready.len() == 0,
            !old(self)@.ended,
        ensures
            final(self).wf(),
            match r {
                Ok(()) => !old(self)@.starved() && final(self)@ == old(self)@.primed(),
                Err(e) => old(self)@.step(0).result == Err::<Option<Seq<u8>>, Error>(e)
                    && old(self)@.starved() && final(self)@ == old(self)@,
            },
    {
        match self.source.feed(&mut self.buffer) {
            Ok(last) => {
                self.position = 0;
                self.length = self.buffer.len();
                self.last = last;
                assert(self@.ready =~= old(self)@.chunks[0].data);
                Ok(())
            },
            Err(e) => Err(e),
        }
    }

    /// Moves up to `want` bytes to `out[at..]`, as one attempt to read does.
    fn take(&mut self, out: &mut [u8], at: usize, want: usize) -> (r: Result<Option<usize>, Error>)
        requires
            old(self).wf(),
            at + want <= old(out)@.len(),
        ensures
            final(self).wf(),
            final(out)@.len() == old(out)@.len(),
            final(self)@ == old(self)@.step(want as nat).model,
            r == counted(old(self)@.step(want as nat).result),
            match old(self)@.step(want as nat).result {
                Ok(Some(bytes)) => final(out)@ == old(out)@.subrange(0, at as int) + bytes + old(
                    out,
                )@.subrange(at + bytes.len(), old(out)@.len() as int),
                _ => final(out)@ == old(out)@,
            },
    {
        if self.position == self.length {
            if self.last {
                return Ok(None);
            }
            match self.update_buffer() {
                Ok(()) => {},
                Err(e) => {
                    return Err(e);
                },
            }
        }
        let ghost primed = self@;
        let left = self.length - self.position;
        let count = if want < left {
            want
        } else {
            left
        };
        let size = out.len();
        let mut moved: usize = 0;
        while moved < count
            invariant
                moved <= count,
                count <= self.length - self.position,
                self.length == self.buffer@.len(),
                at + count <= size,
                out@.len() == size,
                size == old(out)@.len(),
                primed.ready == self.buffer@.subrange(self.position as int, self.length as int),
                out@ == old(out)@.subrange(0, at as int) + primed.ready.take(moved as int) + old(
                    out,
                )@.subrange(at + moved, old(out)@.len() as int),
            decreases count - moved,
        {
            out[at + moved] = self.buffer[self.position + moved];
            moved = moved + 1;
        }
        self.position = self.position + count;
        proof {
            assert(self@.ready =~= primed.ready.skip(count as int));
        }
        Ok(Some(count))
    }

    /// One attempt to read: moves bytes to the front of `buffer`, up to its length, and
    /// returns how many. The count may be smaller than asked for, even 0. `None` is the
    /// end of the stream.
    pub fn try_read(&mut self, buffer: &mut [u8]) -> (r: Result<Option<usize>, Error>)
        requires
            old(self).wf(),
        ensures
            final(self).wf(),
            final(buffer)@.len() == old(buffer)@.len(),
            final(self)@ == old(self)@.step(old(buffer)@.len()).model,
            r == counted(old(self)@.step(old(buffer)@.len()).result),
            match old(self)@.step(old(buffer)@.len()).result {
                Ok(Some(bytes)) => final(buffer)@ == bytes + old(buffer)@.skip(bytes.len() as int),
                _ => final(buffer)@ == old(buffer)@,
            },
    {
        let want = buffer.len();
        let r = self.take(buffer, 0, want);
        r
    }

    /// One attempt to skip: passes over bytes, up to `amount`, and returns how many. The
    /// count may be smaller than asked for, even 0. `None` is the end of the stream.
    pub fn try_skip(&mut self, amount: usize) -> (r: Result<Option<usize>, Error>)
        requires
            old(self).wf(),
        ensures
            final(self).wf(),
            final(self)@ == old(self)@.step(amount as nat).model,
            r == counted(old(self)@.step(amount as nat).result),
    {
        if self.position == self.length {
            if self.last {
                return Ok(None);
            }
            match self.update_buffer() {
                Ok(()) => {},
                Err(e) => {
                    return Err(e);
                },
            }
        }
        let ghost primed = self@;
        let left = self.length - self.position;
        let skip_len = if amount < left {
            amount
        } else {
            left
        };
        self.position = self.position + skip_len;
        proof {
            assert(self@.ready =~= primed.ready.skip(skip_len as int));
        }
        Ok(Some(skip_len))
    }
    /// Attempts to read into `out`, each time behind what has come and for what is left
    /// of `room`, until `least` bytes have come.
    fn pump(&mut self, least: usize, room: usize, out: &mut [u8]) -> (r: Result<usize, Error>)
        requires
            old(self).wf(),
            least <= room <= old(out)@.len(),
        ensures
            final(self).wf(),
            final(out)@.len() == old(out)@.len(),
            final(self)@ == old(self)@.gather(least as nat, room as nat).model,
            ({
                let run = old(self)@.gather(least as nat, room as nat);
                &&& run.bytes.len() <= room
                &&& final(out)@ == run.bytes + old(out)@.skip(run.bytes.len() as int)
                &&& r == match run.result {
                    Ok(_) => Ok::<usize, Error>(run.bytes.len() as usize),
                    Err(e) => Err::<usize, Error>(e),
                }
            }),
    {
        let ghost goal = old(self)@.gather(least as nat, room as nat);
        let ghost mut got: Seq<u8> = Seq::empty();
        let mut read: usize = 0;
        while read < least
            invariant
                self.wf(),
                least <= room <= out@.len(),
                out@.len() == old(out)@.len(),
                read <= room,
                got.len() == read,
                out@ == got + old(out)@.skip(read as int),
                goal == old(self)@.gather(least as nat, room as nat),
                ({
                    let rest = self@.gather(
                        if read < least {
                            (least - read) as nat
                        } else {
                            0
                        },
                        (room - read) as nat,
                    );
                    &&& goal.model == rest.model
                    &&& goal.bytes == got + rest.bytes
                    &&& goal.result == rest.result
                }),
            decreases room - read,
        {
            let ghost before = self@;
            let ghost step = before.step((room - read) as nat);
            match self.take(out, read, room - read) {
                Ok(Some(count)) => {
                    let ghost bytes = step.result->Ok_0->Some_0;
                    if count == 0 {
                        return Err(Error::NoProgress);
                    }
                    proof {
                        let less = if count < least - read {
                            (least - read - count) as nat
                        } else {
                            0
                        };
                        let rest = step.model.gather(less, (room - read - count) as nat);
                        got = got + bytes;
                    }
                    read = read + count;
                },
                Ok(None) => {
                    return Err(Error::UnexpectedEof);
                },
                Err(e) => {
                    return Err(e);
                },
            }
        }
        Ok(read)
    }

    /// Reads exactly the length of `buffer` and places the bytes in `buffer`.
    ///
    /// Fails with `UnexpectedEof` if the stream ends first, with `NoProgress` if a chunk
    /// that is not the last one is empty, and with the error of the source if it has
    /// nothing to give. The bytes that came before stay at the front of `buffer`.
    pub fn read(&mut self, buffer: &mut [u8]) -> (r: Result<(), Error>)
        requires
            old(self).wf(),
        ensures
            final(self).wf(),
            final(buffer)@.len() == old(buffer)@.len(),
            final(self)@ == old(self)@.exact(old(buffer)@.len()).model,
            r == old(self)@.exact(old(buffer)@.len()).result,
            ({
                let run = old(self)@.exact(old(buffer)@.len());
                final(buffer)@ == run.bytes + old(buffer)@.skip(run.bytes.len() as int)
            }),
            r is Ok ==> final(buffer)@ == old(self)@.exact(old(buffer)@.len()).bytes,
    {
        let length = buffer.len();
        proof {
            lemma_gather_len(self@, length as nat, length as nat);
        }
        match self.pump(length, length, buffer) {
            Ok(_) => {
                proof {
                    let run = old(self)@.exact(length as nat);
                }
                Ok(())
            },
            Err(e) => Err(e),
        }
    }

    /// Skips exactly `amount` bytes.
    ///
    /// Fails as `read` does, behind the bytes that could be skipped.
    pub fn skip(&mut self, amount: usize) -> (r: Result<(), Error>)
        requires
            old(self).wf(),
        ensures
            final(self).wf(),
            final(self)@ == old(self)@.exact(amount as nat).model,
            r == old(self)@.exact(amount as nat).result,
    {
        let ghost goal = old(self)@.exact(amount as nat);
        let mut skipped: usize = 0;
        while skipped < amount
            invariant
                self.wf(),
                skipped <= amount,
                goal == old(self)@.exact(amount as nat),
                ({
                    let rest = self@.gather((amount - skipped) as nat, (amount - skipped) as nat);
                    &&& goal.model == rest.model
                    &&& goal.result == rest.result
                }),
            decreases amount - skipped,
        {
            match self.try_skip(amount - skipped) {
                Ok(Some(count)) => {
                    if count == 0 {
                        return Err(Error::NoProgress);
                    }
                    skipped = skipped + count;
                },
                Ok(None) => {
                    return Err(Error::UnexpectedEof);
                },
                Err(e) => {
                    return Err(e);
                },
            }
        }
        Ok(())
    }

    /// Reads at least `min` bytes and places them in `buffer`; returns how many came.
    /// Every attempt asks for all that `buffer` still has room for.
    ///
    /// Fails with `Argument`, and reads nothing, if `buffer` is shorter than `min`;
    /// otherwise as `read` does.
    pub fn read_at_least(&mut self, min: usize, buffer: &mut [u8]) -> (r: Result<usize, Error>)
        requires
            old(self).wf(),
        ensures
            final(self).wf(),
            final(buffer)@.len() == old(buffer)@.len(),
            min > old(buffer)@.len() ==> {
                &&& r == Err::<usize, Error>(Error::Argument)
                &&& final(self)@ == old(self)@
                &&& final(buffer)@ == old(buffer)@
            },
            min <= old(buffer)@.len() ==> {
                let run = old(self)@.gather(min as nat, old(buffer)@.len());
                &&& final(self)@ == run.model
                &&& final(buffer)@ == run.bytes + old(buffer)@.skip(run.bytes.len() as int)
                &&& r == match run.result {
                    Ok(_) => Ok::<usize, Error>(run.bytes.len() as usize),
                    Err(e) => Err::<usize, Error>(e),
                }
            },
    {
        let room = buffer.len();
        if min > room {
            return Err(Error::Argument);
        }
        self.pump(min, room, buffer)
    }

    /// Reads `n` bytes, 1 to 8 of them, as an unsigned number in the given byte order.
    ///
    /// Fails with `Argument`, and reads nothing, for another `n`; otherwise as `read`
    /// does.
    pub fn read_uint(&mut self, n: usize, order: Endian) -> (r: Result<u64, Error>)
        requires
            old(self).wf(),
        ensures
            final(self).wf(),
            !(1 <= n <= 8) ==> {
                &&& r == Err::<u64, Error>(Error::Argument)
                &&& final(self)@ == old(self)@
            },
            1 <= n <= 8 ==> {
                &&& final(self)@ == old(self)@.exact(n as nat).model
                &&& r == decoded(
                    old(self)@.exact(n as nat),
                    |bytes: Seq<u8>| ordered_value(order, bytes) as u64,
                )
                &&& r matches Ok(value) ==> value < pow2(8 * n as nat) && value == ordered_value(
                    order,
                    old(self)@.exact(n as nat).bytes,
                )
            },
    {
        if n == 0 || n > 8 {
            return Err(Error::Argument);
        }
        let mut bytes = [0u8;8];
        let ghost run = self@.exact(n as nat);
        proof {
            lemma_gather_len(self@, n as nat, n as nat);
        }
        match self.pump(n, n, &mut bytes) {
            Ok(_) => {
                proof {
                    assert(bytes@.take(n as int) =~= run.bytes);
                    lemma_value_bound(run.bytes);
                    crate::codec::lemma_radix(n as nat);
                }
                match order {
                    Endian::Big => Ok(be_decode(&bytes, n)),
                    Endian::Little => Ok(le_decode(&bytes, n)),
                }
            },
            Err(e) => Err(e),
        }
    }

    /// Reads `n` bytes, 1 to 8 of them, as a two's complement number in the given byte
    /// order; the sign is the top bit of the `n` bytes.
    ///
    /// Fails as `read_uint` does.
    pub fn read_int(&mut self, n: usize, order: Endian) -> (r: Result<i64, Error>)
        requires
            old(self).wf(),
        ensures
            final(self).wf(),
            !(1 <= n <= 8) ==> {
                &&& r == Err::<i64, Error>(Error::Argument)
                &&& final(self)@ == old(self)@
            },
            1 <= n <= 8 ==> {
                &&& final(self)@ == old(self)@.exact(n as nat).model
                &&& r == decoded(
                    old(self)@.exact(n as nat),
                    |bytes: Seq<u8>| signed(ordered_value(order, bytes), 8 * n as nat) as i64,
                )
                &&& r matches Ok(value) ==> value == signed(
                    ordered_value(order, old(self)@.exact(n as nat).bytes),
                    8 * n as nat,
                )
            },
    {
        match self.read_uint(n, order) {
            Ok(value) => {
                proof {
                    vstd::arithmetic::div_mod::lemma_small_mod(value as nat, pow2(8 * n as nat));
                }
                Ok(extend_sign(value, n))
            },
            Err(e) => Err(e),
        }
    }
    /// Reads one byte.
    pub fn read_u8(&mut self) -> (r: Result<u8, Error>)
        requires
            old(self).wf(),
        ensures
            final(self).wf(),
            final(self)@ == old(self)@.exact(1).model,
            r == decoded(old(self)@.exact(1), |bytes: Seq<u8>| bytes[0]),
    {
        proof {
            lemma2_to64();
            lemma_gather_len(old(self)@, 1, 1);
            let bytes = old(self)@.exact(1).bytes;
        }
        match self.read_uint(1, Endian::Big) {
            Ok(value) => Ok(value as u8),
            Err(e) => Err(e),
        }
    }

    /// Reads a u16 in the byte order of this machine.
    pub fn read_ne_u16(&mut self) -> (r: Result<u16, Error>)
        requires
            old(self).wf(),
        ensures
            final(self).wf(),
            final(self)@ == old(self)@.exact(2).model,
            r == decoded(old(self)@.exact(2), |bytes: Seq<u8>| le_value(bytes) as u16) || r == decoded(
                old(self)@.exact(2),
                |bytes: Seq<u8>| be_value(bytes) as u16,
            ),
    {
        proof {
            lemma2_to64();
        }
        match self.read_uint(2, native_order()) {
            Ok(value) => Ok(value as u16),
            Err(e) => Err(e),
        }
    }

    /// Reads a big-endian u16.
    pub fn read_be_u16(&mut self) -> (r: Result<u16, Error>)
        requires
            old(self).wf(),
        ensures
            final(self).wf(),
            final(self)@ == old(self)@.exact(2).model,
            r == decoded(old(self)@.exact(2), |bytes: Seq<u8>| be_value(bytes) as u16),
    {
        proof {
            lemma2_to64();
        }
        match self.read_uint(2, Endian::Big) {
            Ok(value) => Ok(value as u16),
            Err(e) => Err(e),
        }
    }

    /// Reads a little-endian u16.
    pub fn read_le_u16(&mut self) -> (r: Result<u16, Error>)
        requires
            old(self).wf(),
        ensures
            final(self).wf(),
            final(self)@ == old(self)@.exact(2).model,
            r == decoded(old(self)@.exact(2), |bytes: Seq<u8>| le_value(bytes) as u16),
    {
        proof {
            lemma2_to64();
        }
        match self.read_uint(2, Endian::Little) {
            Ok(value) => Ok(value as u16),
            Err(e) => Err(e),
        }
    }

    /// Reads a u32 in the byte order of this machine.
    pub fn read_ne_u32(&mut self) -> (r: Result<u32, Error>)
        requires
            old(self).wf(),
        ensures
            final(self).wf(),
            final(self)@ == old(self)@.exact(4).model,
            r == decoded(old(self)@.exact(4), |bytes: Seq<u8>| le_value(bytes) as u32) || r == decoded(
                old(self)@.exact(4),
                |bytes: Seq<u8>| be_value(bytes) as u32,
            ),
    {
        proof {
            lemma2_to64();
        }
        match self.read_uint(4, native_order()) {
            Ok(value) => Ok(value as u32),
            Err(e) => Err(e),
        }
    }

    /// Reads a big-endian u32.
    pub fn read_be_u32(&mut self) -> (r: Result<u32, Error>)
        requires
            old(self).wf(),
        ensures
            final(self).wf(),
            final(self)@ == old(self)@.exact(4).model,
            r == decoded(old(self)@.exact(4), |bytes: Seq<u8>| be_value(bytes) as u32),
    {
        proof {
            lemma2_to64();
        }
        match self.read_uint(4, Endian::Big) {
            Ok(value) => Ok(value as u32),
            Err(e) => Err(e),
        }
    }

    /// Reads a little-endian u32.
    pub fn read_le_u32(&mut self) -> (r: Result<u32, Error>)
        requires
            old(self).wf(),
        ensures
            final(self).wf(),
            final(self)@ == old(self)@.exact(4).model,
            r == decoded(old(self)@.exact(4), |bytes: Seq<u8>| le_value(bytes) as u32),
    {
        proof {
            lemma2_to64();
        }
        match self.read_uint(4, Endian::Little) {
            Ok(value) => Ok(value as u32),
            Err(e) => Err(e),
        }
    }

    /// Reads a u64 in the byte order of this machine.
    pub fn read_ne_u64(&mut self) -> (r: Result<u64, Error>)
        requires
            old(self).wf(),
        ensures
            final(self).wf(),
            final(self)@ == old(self)@.exact(8).model,
            r == decoded(old(self)@.exact(8), |bytes: Seq<u8>| le_value(bytes) as u64) || r == decoded(
                old(self)@.exact(8),
                |bytes: Seq<u8>| be_value(bytes) as u64,
            ),
    {
        proof {
            lemma2_to64();
        }
        match self.read_uint(8, native_order()) {
            Ok(value) => Ok(value),
            Err(e) => Err(e),
        }
    }

    /// Reads a big-endian u64.
    pub fn read_be_u64(&mut self) -> (r: Result<u64, Error>)
        requires
            old(self).wf(),
        ensures
            final(self).wf(),
            final(self)@ == old(self)@.exact(8).model,
            r == decoded(old(self)@.exact(8), |bytes: Seq<u8>| be_value(bytes) as u64),
    {
        proof {
            lemma2_to64();
        }
        match self.read_uint(8, Endian::Big) {
            Ok(value) => Ok(value),
            Err(e) => Err(e),
        }
    }

    /// Reads a little-endian u64.
    pub fn read_le_u64(&mut self) -> (r: Result<u64, Error>)
        requires
            old(self).wf(),
        ensures
            final(self).wf(),
            final(self)@ == old(self)@.exact(8).model,
            r == decoded(old(self)@.exact(8), |bytes: Seq<u8>| le_value(bytes) as u64),
    {
        proof {
            lemma2_to64();
        }
        match self.read_uint(8, Endian::Little) {
            Ok(value) => Ok(value),
            Err(e) => Err(e),
        }
    }

    /// Reads one byte as a two's complement number.
    pub fn read_i8(&mut self) -> (r: Result<i8, Error>)
        requires
            old(self).wf(),
        ensures
            final(self).wf(),
            final(self)@ == old(self)@.exact(1).model,
            r == decoded(old(self)@.exact(1), |bytes: Seq<u8>| signed(bytes[0] as nat, 8) as i8),
    {
        proof {
            lemma2_to64();
            lemma_gather_len(old(self)@, 1, 1);
            let bytes = old(self)@.exact(1).bytes;
            if bytes.len() == 1 {
                assert(be_value(bytes.drop_last()) == 0);
            }
        }
        match self.read_int(1, Endian::Big) {
            Ok(value) => Ok(value as i8),
            Err(e) => Err(e),
        }
    }

    /// Reads an i16 in the byte order of this machine.
    pub fn read_ne_i16(&mut self) -> (r: Result<i16, Error>)
        requires
            old(self).wf(),
        ensures
            final(self).wf(),
            final(self)@ == old(self)@.exact(2).model,
            r == decoded(
                old(self)@.exact(2),
                |bytes: Seq<u8>| signed(le_value(bytes), 16) as i16,
            ) || r == decoded(
                old(self)@.exact(2),
                |bytes: Seq<u8>| signed(be_value(bytes), 16) as i16,
            ),
    {
        proof {
            lemma2_to64();
            lemma_value_bound(old(self)@.exact(2).bytes);
            lemma_gather_len(old(self)@, 2, 2);
        }
        match self.read_int(2, native_order()) {
            Ok(value) => Ok(value as i16),
            Err(e) => Err(e),
        }
    }

    /// Reads a big-endian i16.
    pub fn read_be_i16(&mut self) -> (r: Result<i16, Error>)
        requires
            old(self).wf(),
        ensures
            final(self).wf(),
            final(self)@ == old(self)@.exact(2).model,
            r == decoded(
                old(self)@.exact(2),
                |bytes: Seq<u8>| signed(be_value(bytes), 16) as i16,
            ),
    {
        proof {
            lemma2_to64();
            lemma_value_bound(old(self)@.exact(2).bytes);
            lemma_gather_len(old(self)@, 2, 2);
        }
        match self.read_int(2, Endian::Big) {
            Ok(value) => Ok(value as i16),
            Err(e) => Err(e),
        }
    }

    /// Reads a little-endian i16.
    pub fn read_le_i16(&mut self) -> (r: Result<i16, Error>)
        requires
            old(self).wf(),
        ensures
            final(self).wf(),
            final(self)@ == old(self)@.exact(2).model,
            r == decoded(
                old(self)@.exact(2),
                |bytes: Seq<u8>| signed(le_value(bytes), 16) as i16,
            ),
    {
        proof {
            lemma2_to64();
            lemma_value_bound(old(self)@.exact(2).bytes);
            lemma_gather_len(old(self)@, 2, 2);
        }
        match self.read_int(2, Endian::Little) {
            Ok(value) => Ok(value as i16),
            Err(e) => Err(e),
        }
    }

    /// Reads an i32 in the byte order of this machine.
    pub fn read_ne_i32(&mut self) -> (r: Result<i32, Error>)
        requires
            old(self).wf(),
        ensures
            final(self).wf(),
            final(self)@ == old(self)@.exact(4).model,
            r == decoded(
                old(self)@.exact(4),
                |bytes: Seq<u8>| signed(le_value(bytes), 32) as i32,
            ) || r == decoded(
                old(self)@.exact(4),
                |bytes: Seq<u8>| signed(be_value(bytes), 32) as i32,
            ),
    {
        proof {
            lemma2_to64();
            lemma_value_bound(old(self)@.exact(4).bytes);
            lemma_gather_len(old(self)@, 4, 4);
        }
        match self.read_int(4, native_order()) {
            Ok(value) => Ok(value as i32),
            Err(e) => Err(e),
        }
    }

    /// Reads a big-endian i32.
    pub fn read_be_i32(&mut self) -> (r: Result<i32, Error>)
        requires
            old(self).wf(),
        ensures
            final(self).wf(),
            final(self)@ == old(self)@.exact(4).model,
            r == decoded(
                old(self)@.exact(4),
                |bytes: Seq<u8>| signed(be_value(bytes), 32) as i32,
            ),
    {
        proof {
            lemma2_to64();
            lemma_value_bound(old(self)@.exact(4).bytes);
            lemma_gather_len(old(self)@, 4, 4);
        }
        match self.read_int(4, Endian::Big) {
            Ok(value) => Ok(value as i32),
            Err(e) => Err(e),
        }
    }

    /// Reads a little-endian i32.
    pub fn read_le_i32(&mut self) -> (r: Result<i32, Error>)
        requires
            old(self).wf(),
        ensures
            final(self).wf(),
            final(self)@ == old(self)@.exact(4).model,
            r == decoded(
                old(self)@.exact(4),
                |bytes: Seq<u8>| signed(le_value(bytes), 32) as i32,
            ),
    {
        proof {
            lemma2_to64();
            lemma_value_bound(old(self)@.exact(4).bytes);
            lemma_gather_len(old(self)@, 4, 4);
        }
        match self.read_int(4, Endian::Little) {
            Ok(value) => Ok(value as i32),
            Err(e) => Err(e),
        }
    }

    /// Reads an i64 in the byte order of this machine.
    pub fn read_ne_i64(&mut self) -> (r: Result<i64, Error>)
        requires
            old(self).wf(),
        ensures
            final(self).wf(),
            final(self)@ == old(self)@.exact(8).model,
            r == decoded(
                old(self)@.exact(8),
                |bytes: Seq<u8>| signed(le_value(bytes), 64) as i64,
            ) || r == decoded(
                old(self)@.exact(8),
                |bytes: Seq<u8>| signed(be_value(bytes), 64) as i64,
            ),
    {
        proof {
            lemma2_to64();
            vstd::arithmetic::power2::lemma2_to64_rest();
            lemma_value_bound(old(self)@.exact(8).bytes);
            lemma_gather_len(old(self)@, 8, 8);
        }
        match self.read_int(8, native_order()) {
            Ok(value) => Ok(value),
            Err(e) => Err(e),
        }
    }

    /// Reads a big-endian i64.
    pub fn read_be_i64(&mut self) -> (r: Result<i64, Error>)
        requires
            old(self).wf(),
        ensures
            final(self).wf(),
            final(self)@ == old(self)@.exact(8).model,
            r == decoded(
                old(self)@.exact(8),
                |bytes: Seq<u8>| signed(be_value(bytes), 64) as i64,
            ),
    {
        proof {
            lemma2_to64();
            vstd::arithmetic::power2::lemma2_to64_rest();
            lemma_value_bound(old(self)@.exact(8).bytes);
            lemma_gather_len(old(self)@, 8, 8);
        }
        match self.read_int(8, Endian::Big) {
            Ok(value) => Ok(value),
            Err(e) => Err(e),
        }
    }

    /// Reads a little-endian i64.
    pub fn read_le_i64(&mut self) -> (r: Result<i64, Error>)
        requires
            old(self).wf(),
        ensures
            final(self).wf(),
            final(self)@ == old(self)@.exact(8).model,
            r == decoded(
                old(self)@.exact(8),
                |bytes: Seq<u8>| signed(le_value(bytes), 64) as i64,
            ),
    {
        proof {
            lemma2_to64();
            vstd::arithmetic::power2::lemma2_to64_rest();
            lemma_value_bound(old(self)@.exact(8).bytes);
            lemma_gather_len(old(self)@, 8, 8);
        }
        match self.read_int(8, Endian::Little) {
            Ok(value) => Ok(value),
            Err(e) => Err(e),
        }
    }

    /// Reads `n` bytes as a little-endian unsigned number.
    ///
    /// `n` must be between 1 and 8, inclusive: another `n` fails with `Argument`, and
    /// nothing is read.
    pub fn read_le_usize_n(&mut self, n: usize) -> (r: Result<u64, Error>)
        requires
            old(self).wf(),
        ensures
            final(self).wf(),
            !(1 <= n <= 8) ==> {
                &&& r == Err::<u64, Error>(Error::Argument)
                &&& final(self)@ == old(self)@
            },
            1 <= n <= 8 ==> {
                &&& final(self)@ == old(self)@.exact(n as nat).model
                &&& r == decoded(old(self)@.exact(n as nat), |bytes: Seq<u8>| le_value(bytes) as u64)
            },
    {
        self.read_uint(n, Endian::Little)
    }

    /// Reads `n` bytes as a little-endian two's complement number.
    ///
    /// `n` must be between 1 and 8, inclusive: another `n` fails with `Argument`, and
    /// nothing is read.
    pub fn read_le_int_n(&mut self, n: usize) -> (r: Result<i64, Error>)
        requires
            old(self).wf(),
        ensures
            final(self).wf(),
            !(1 <= n <= 8) ==> {
                &&& r == Err::<i64, Error>(Error::Argument)
                &&& final(self)@ == old(self)@
            },
            1 <= n <= 8 ==> {
                &&& final(self)@ == old(self)@.exact(n as nat).model
                &&& r == decoded(
                    old(self)@.exact(n as nat),
                    |bytes: Seq<u8>| signed(le_value(bytes), 8 * n as nat) as i64,
                )
            },
    {
        self.read_int(n, Endian::Little)
    }

    /// Reads `n` bytes as a big-endian unsigned number.
    ///
    /// `n` must be between 1 and 8, inclusive: another `n` fails with `Argument`, and
    /// nothing is read.
    pub fn read_be_usize_n(&mut self, n: usize) -> (r: Result<u64, Error>)
        requires
            old(self).wf(),
        ensures
            final(self).wf(),
            !(1 <= n <= 8) ==> {
                &&& r == Err::<u64, Error>(Error::Argument)
                &&& final(self)@ == old(self)@
            },
            1 <= n <= 8 ==> {
                &&& final(self)@ == old(self)@.exact(n as nat).model
                &&& r == decoded(old(self)@.exact(n as nat), |bytes: Seq<u8>| be_value(bytes) as u64)
            },
    {
        self.read_uint(n, Endian::Big)
    }

    /// Reads `n` bytes as a big-endian two's complement number.
    ///
    /// `n` must be between 1 and 8, inclusive: another `n` fails with `Argument`, and
    /// nothing is read.
    pub fn read_be_int_n(&mut self, n: usize) -> (r: Result<i64, Error>)
        requires
            old(self).wf(),
        ensures
            final(self).wf(),
            !(1 <= n <= 8) ==> {
                &&& r == Err::<i64, Error>(Error::Argument)
                &&& final(self)@ == old(self)@
            },
            1 <= n <= 8 ==> {
                &&& final(self)@ == old(self)@.exact(n as nat).model
                &&& r == decoded(
                    old(self)@.exact(n as nat),
                    |bytes: Seq<u8>| signed(be_value(bytes), 8 * n as nat) as i64,
                )
            },
    {
        self.read_int(n, Endian::Big)
    }
}

} // verus!
