//! The bounded channel: a fixed ring of reusable record slots between one producer and
//! one consumer.
//!
//! Here one owner holds the whole ring and works both of its ends in turn, so `Sink` and
//! `Source` are two names for one type: they say which end a stage uses. An operation
//! that would have to wait for the other end says so with `Error::WouldBlock` and leaves
//! the ring as it found it; an end is destroyed by `close_sink` or `close_source`.

use crate::error::Error;
use crate::Initialize;
use vstd::prelude::*;

verus! {

/// A channel as mathematics: what is waiting in it, how far both ends have come, and
/// which ends are still there.
pub struct ChannelView<T> {
    /// Number of slots, fixed when the channel is made.
    pub capacity: nat,
    /// The records in the slots, by slot. A record stays in its slot for good; only what
    /// it holds changes.
    pub slots: Seq<T>,
    /// The records written and not yet read, oldest first.
    pub pending: Seq<T>,
    /// The write index: how many writes have completed.
    pub written: nat,
    /// The read index: how many reads have completed.
    pub consumed: nat,
    /// The producer end has not been closed.
    pub producer: bool,
    /// The consumer end has not been closed.
    pub consumer: bool,
}

impl<T> ChannelView<T> {
    /// The read index never passes the write index, the write index is never more than a
    /// ring ahead, and what lies between the two is exactly what is pending: the record
    /// that write number `i` left lies in slot `i mod capacity` until read number `i`
    /// has taken it.
    pub open spec fn wf(self) -> bool {
        &&& self.capacity >= 1
        &&& self.slots.len() == self.capacity
        &&& self.consumed <= self.written <= self.consumed + self.capacity
        &&& self.pending.len() == self.written - self.consumed
        &&& forall|k: nat|
            k < self.pending.len() ==> #[trigger] self.pending[k as int] == self.slots[self.slot_of(
                self.consumed + k,
            ) as int]
    }

    /// Permits of the `not_empty` semaphore: one for each slot written and not yet read.
    pub open spec fn not_empty(self) -> nat {
        self.pending.len()
    }

    /// Permits of the `not_full` semaphore: one for each slot the producer may still take.
    pub open spec fn not_full(self) -> nat {
        (self.capacity - self.pending.len()) as nat
    }

    /// The slot that operation number `index` of either end works on.
    pub open spec fn slot_of(self, index: nat) -> nat {
        index % self.capacity
    }

    /// Why a write cannot go ahead, if it cannot. A missing consumer is looked for first.
    pub open spec fn write_error(self) -> Option<Error> {
        if !self.consumer {
            Some(Error::PeerGone)
        } else if self.not_full() == 0 {
            Some(Error::WouldBlock)
        } else {
            None
        }
    }

    /// Why a read cannot go ahead, if it cannot. Records that are waiting are drained
    /// even after the producer has gone.
    pub open spec fn read_error(self) -> Option<Error> {
        if self.not_empty() > 0 {
            None
        } else if !self.producer {
            Some(Error::PeerGone)
        } else {
            Some(Error::WouldBlock)
        }
    }

    /// The channel after a write that left `record` in its slot, which is the slot of the
    /// write index. No other slot is touched.
    pub open spec fn push(self, record: T) -> Self {
        ChannelView {
            slots: self.slots.update(self.slot_of(self.written) as int, record),
            pending: self.pending.push(record),
            written: self.written + 1,
            ..self
        }
    }

    /// The channel after a read of its oldest record. No slot is touched.
    pub open spec fn pop(self) -> Self {
        ChannelView { pending: self.pending.skip(1), consumed: self.consumed + 1, ..self }
    }

    /// The channel after all of `records` were written, in order.
    pub open spec fn push_all(self, records: Seq<T>) -> Self
        decreases records.len(),
    {
        if records.len() == 0 {
            self
        } else {
            self.push_all(records.drop_last()).push(records.last())
        }
    }

    /// The channel after its `count` oldest records were read.
    pub open spec fn pop_many(self, count: nat) -> Self
        decreases count,
    {
        if count == 0 {
            self
        } else {
            self.pop_many((count - 1) as nat).pop()
        }
    }
}

/// Two indices less than a ring apart have different slots.
proof fn lemma_slots_differ(low: int, high: int, n: int)
    requires
        0 <= low < high < low + n,
    ensures
        low % n != high % n,
{
    vstd::arithmetic::div_mod::lemma_fundamental_div_mod(low, n);
    vstd::arithmetic::div_mod::lemma_fundamental_div_mod(high, n);
    if low % n == high % n {
        let a = low / n;
        let b = high / n;
        assert(high - low == n * (b - a)) by (nonlinear_arith)
            requires
                low == n * a + low % n,
                high == n * b + high % n,
                low % n == high % n,
        ;
        assert(false) by (nonlinear_arith)
            requires
                0 < high - low < n,
                high - low == n * (b - a),
        ;
    }
}

/// A write into a sound channel that has room leaves a sound channel.
pub proof fn lemma_push_wf<T>(start: ChannelView<T>, record: T)
    requires
        start.wf(),
        start.not_full() > 0,
    ensures
        start.push(record).wf(),
{
    let after = start.push(record);
    let n = start.capacity as int;
    vstd::arithmetic::div_mod::lemma_mod_bound(start.written as int, n);
    assert forall|k: nat| k < after.pending.len() implies #[trigger] after.pending[k as int]
        == after.slots[after.slot_of(after.consumed + k) as int] by {
        vstd::arithmetic::div_mod::lemma_mod_bound((start.consumed + k) as int, n);
        if k < start.pending.len() {
            lemma_slots_differ((start.consumed + k) as int, start.written as int, n);
        }
    }
}

/// A read from a sound channel that holds a record leaves a sound channel.
pub proof fn lemma_pop_wf<T>(start: ChannelView<T>)
    requires
        start.wf(),
        start.not_empty() > 0,
    ensures
        start.pop().wf(),
{
    let after = start.pop();
    assert forall|k: nat| k < after.pending.len() implies #[trigger] after.pending[k as int]
        == after.slots[after.slot_of(after.consumed + k) as int] by {
        assert(after.pending[k as int] == start.pending[k as int + 1]);
    }
}

/// Writing `records` one after the other appends them to what is pending, and a sound
/// channel that has room for them stays sound.
pub proof fn lemma_push_all<T>(start: ChannelView<T>, records: Seq<T>)
    ensures
        start.push_all(records) == (ChannelView {
            slots: start.push_all(records).slots,
            pending: start.pending + records,
            written: start.written + records.len(),
            ..start
        }),
        start.wf() && records.len() <= start.not_full() ==> start.push_all(records).wf(),
    decreases records.len(),
{
    if records.len() > 0 {
        lemma_push_all(start, records.drop_last());
        assert((start.pending + records.drop_last()).push(records.last()) =~= start.pending
            + records);
        if start.wf() && records.len() <= start.not_full() {
            lemma_push_wf(start.push_all(records.drop_last()), records.last());
        }
    }
}

/// Reading `count` records removes the `count` oldest of those pending, and a sound
/// channel stays sound.
pub proof fn lemma_pop_many<T>(start: ChannelView<T>, count: nat)
    requires
        count <= start.pending.len(),
    ensures
        start.pop_many(count) == (ChannelView {
            pending: start.pending.skip(count as int),
            consumed: start.consumed + count,
            ..start
        }),
        start.wf() ==> start.pop_many(count).wf(),
    decreases count,
{
    if count == 0 {
        assert(start.pending.skip(0) =~= start.pending);
    } else {
        lemma_pop_many(start, (count - 1) as nat);
        assert(start.pending.skip(count - 1).skip(1) =~= start.pending.skip(count as int));
        if start.wf() {
            lemma_pop_wf(start.pop_many((count - 1) as nat));
        }
    }
}

/// First in, first out. Into an empty channel whose consumer is there, any `records` that
/// fit its capacity can be written one after the other; the same number of reads then go
/// ahead too, the read number `i` observes `records[i]`, and the channel ends up empty.
pub proof fn law_fifo<T>(start: ChannelView<T>, records: Seq<T>)
    requires
        start.wf(),
        start.pending.len() == 0,
        start.consumer,
        records.len() <= start.capacity,
    ensures
        forall|k: int|
            0 <= k < records.len() ==> (#[trigger] start.push_all(records.take(k))).write_error()
                is None,
        forall|i: nat|
            i < records.len() ==> {
                let before = #[trigger] start.push_all(records).pop_many(i);
                before.read_error() is None && before.pending[0] == records[i as int]
            },
        start.push_all(records).pop_many(records.len()).pending.len() == 0,
        start.push_all(records).pop_many(records.len()).wf(),
{
    assert forall|k: int| 0 <= k < records.len() implies (#[trigger] start.push_all(
        records.take(k),
    )).write_error() is None by {
        lemma_push_all(start, records.take(k));
    }
    lemma_push_all(start, records);
    let full = start.push_all(records);
    assert forall|i: nat| i < records.len() implies {
        let before = #[trigger] full.pop_many(i);
        before.read_error() is None && before.pending[0] == records[i as int]
    } by {
        lemma_pop_many(full, i);
    }
    lemma_pop_many(full, records.len());
}

/// One thing that an end of a channel tries to do.
pub enum Op<T> {
    /// The producer writes; the record is what it leaves in the slot.
    Write(T),
    /// The consumer reads.
    Read,
    /// The producer end is destroyed.
    CloseSink,
    /// The consumer end is destroyed.
    CloseSource,
}

impl<T> ChannelView<T> {
    /// The channel behind one attempt. A write or a read that cannot go ahead leaves the
    /// channel as it is.
    pub open spec fn apply(self, op: Op<T>) -> Self {
        match op {
            Op::Write(record) => if self.write_error() is None {
                self.push(record)
            } else {
                self
            },
            Op::Read => if self.read_error() is None {
                self.pop()
            } else {
                self
            },
            Op::CloseSink => ChannelView { producer: false, ..self },
            Op::CloseSource => ChannelView { consumer: false, ..self },
        }
    }

    /// The channel behind the attempts `ops`, made one after the other.
    pub open spec fn run(self, ops: Seq<Op<T>>) -> Self
        decreases ops.len(),
    {
        if ops.len() == 0 {
            self
        } else {
            self.run(ops.drop_last()).apply(ops.last())
        }
    }

    /// The records of the writes among `ops` that went ahead, in their order.
    pub open spec fn written_in(self, ops: Seq<Op<T>>) -> Seq<T>
        decreases ops.len(),
    {
        if ops.len() == 0 {
            Seq::empty()
        } else {
            let before = self.run(ops.drop_last());
            let sofar = self.written_in(ops.drop_last());
            match ops.last() {
                Op::Write(record) => if before.write_error() is None {
                    sofar.push(record)
                } else {
                    sofar
                },
                _ => sofar,
            }
        }
    }

    /// The records that the reads among `ops` that went ahead observed, in their order.
    pub open spec fn read_in(self, ops: Seq<Op<T>>) -> Seq<T>
        decreases ops.len(),
    {
        if ops.len() == 0 {
            Seq::empty()
        } else {
            let before = self.run(ops.drop_last());
            let sofar = self.read_in(ops.drop_last());
            match ops.last() {
                Op::Read => if before.read_error() is None {
                    sofar.push(before.pending[0])
                } else {
                    sofar
                },
                _ => sofar,
            }
        }
    }
}

/// What holds of a channel at all times, however the attempts of its two ends follow each
/// other. The channel stays sound: the read index never passes the write index and the
/// write index is never more than a ring ahead. The permits of the two semaphores add up
/// to the capacity. The slots stay the same in number. And the consumer has observed, in
/// the order in which they were written, exactly the records that are no longer
/// pending: none is lost, none comes twice, none overtakes another.
pub proof fn law_any_order<T>(start: ChannelView<T>, ops: Seq<Op<T>>)
    requires
        start.wf(),
    ensures
        start.run(ops).wf(),
        start.run(ops).capacity == start.capacity,
        start.run(ops).slots.len() == start.slots.len(),
        start.run(ops).not_empty() + start.run(ops).not_full() == start.capacity,
        start.run(ops).written == start.written + start.written_in(ops).len(),
        start.run(ops).consumed == start.consumed + start.read_in(ops).len(),
        start.pending + start.written_in(ops) == start.read_in(ops) + start.run(ops).pending,
    decreases ops.len(),
{
    if ops.len() == 0 {
        assert(start.pending + start.written_in(ops) =~= start.read_in(ops) + start.pending);
    } else {
        let front = ops.drop_last();
        let before = start.run(front);
        let wrote = start.written_in(front);
        let seen = start.read_in(front);
        law_any_order(start, front);
        match ops.last() {
            Op::Write(record) => {
                if before.write_error() is None {
                    lemma_push_wf(before, record);
                    assert((start.pending + wrote).push(record) =~= start.pending + wrote.push(
                        record,
                    ));
                    assert((seen + before.pending).push(record) =~= seen + before.pending.push(
                        record,
                    ));
                }
            },
            Op::Read => {
                if before.read_error() is None {
                    lemma_pop_wf(before);
                    assert(seen + before.pending =~= seen.push(before.pending[0])
                        + before.pending.skip(1));
                }
            },
            Op::CloseSink => {},
            Op::CloseSource => {},
        }
    }
}

/// The ring. `head` is the slot of the oldest pending record and `len` the number of
/// pending records; the two indices of the model are kept as ghosts.
pub struct Channel<T> {
    slots: Vec<T>,
    head: usize,
    len: usize,
    rc_read: bool,
    rc_write: bool,
    read: Ghost<nat>,
    write: Ghost<nat>,
}

/// The producer's end of a channel.
pub type Sink<T> = Channel<T>;

/// The consumer's end of a channel.
pub type Source<T> = Channel<T>;

/// Slot of the `offset`-th pending record in a ring of `n` slots that starts at `head`.
spec fn wrap(head: int, offset: int, n: int) -> int {
    if head + offset < n {
        head + offset
    } else {
        head + offset - n
    }
}

/// The `len` records of a ring that start at slot `head`, oldest first.
spec fn window<T>(slots: Seq<T>, head: int, len: nat) -> Seq<T> {
    Seq::new(len, |i: int| slots[wrap(head, i, slots.len() as int)])
}

/// Filling the slot behind the window makes the window one record longer.
proof fn lemma_window_push<T>(slots: Seq<T>, head: int, len: nat, record: T)
    requires
        0 <= head < slots.len(),
        len < slots.len(),
    ensures
        window(slots.update(wrap(head, len as int, slots.len() as int), record), head, (len + 1) as nat)
            == window(slots, head, len).push(record),
{
}

/// In a ring of `n` slots, the slot `offset` places after that of index `start` is the
/// slot of index `start + offset`.
proof fn lemma_ring_step(start: int, offset: int, n: int)
    requires
        0 <= start,
        0 <= offset <= n,
        n >= 1,
    ensures
        offset < n ==> (start + offset) % n == wrap(start % n, offset, n),
        offset == n ==> (start + offset) % n == start % n,
{
    vstd::arithmetic::div_mod::lemma_fundamental_div_mod(start, n);
    vstd::arithmetic::div_mod::lemma_mod_bound(start, n);
    let q = start / n;
    let r = start % n;
    assert(q * n == n * q) by (nonlinear_arith);
    if r + offset < n {
        vstd::arithmetic::div_mod::lemma_fundamental_div_mod_converse(start + offset, n, q, r + offset);
    } else {
        assert((q + 1) * n == n * q + n) by (nonlinear_arith);
        vstd::arithmetic::div_mod::lemma_fundamental_div_mod_converse(
            start + offset,
            n,
            q + 1,
            r + offset - n,
        );
    }
}

impl<T> View for Channel<T> {
    type V = ChannelView<T>;

    closed spec fn view(&self) -> ChannelView<T> {
        ChannelView {
            capacity: self.slots@.len(),
            slots: self.slots@,
            pending: window(self.slots@, self.head as int, self.len as nat),
            written: self.write@,
            consumed: self.read@,
            producer: self.rc_write,
            consumer: self.rc_read,
        }
    }
}

impl<T: Initialize> Channel<T> {
    /// The ring is sound: the indices are in step with the slots.
    pub closed spec fn wf(&self) -> bool {
        &&& self.slots@.len() >= 1
        &&& self.head < self.slots@.len()
        &&& self.len <= self.slots@.len()
        &&& self.write@ == self.read@ + self.len
        &&& self.head == self.read@ % self.slots@.len()
    }

    /// A sound ring has a sound model, and its oldest pending record lies in the slot of
    /// the read index.
    pub proof fn lemma_view_wf(&self)
        requires
            self.wf(),
        ensures
            self@.wf(),
    {
        let view = self@;
        assert forall|k: nat| k < view.pending.len() implies #[trigger] view.pending[k as int]
            == view.slots[view.slot_of(view.consumed + k) as int] by {
            lemma_ring_step(self.read@ as int, k as int, self.slots@.len() as int);
        }
    }

    /// Index of the slot that the next write takes.
    fn tail(&self) -> (index: usize)
        requires
            self.wf(),
            self.len < self.slots@.len(),
        ensures
            index == wrap(self.head as int, self.len as int, self.slots@.len() as int),
            index < self.slots@.len(),
            index == self@.slot_of(self@.written),
    {
        let n = self.slots.len();
        proof {
            lemma_ring_step(self.read@ as int, self.len as int, n as int);
        }
        if self.len < n - self.head {
            self.head + self.len
        } else {
            self.len - (n - self.head)
        }
    }

    /// Number of records that can be written before one has to be read.
    pub fn room(&self) -> (n: usize)
        requires
            self.wf(),
        ensures
            n == self@.not_full(),
    {
        self.slots.len() - self.len
    }

    /// Number of records that can be read before one has to be written.
    pub fn buffered(&self) -> (n: usize)
        ensures
            n == self@.not_empty(),
    {
        self.len
    }

    /// Whether the producer end is still there.
    pub fn producer_alive(&self) -> (alive: bool)
        ensures
            alive == self@.producer,
    {
        self.rc_write
    }

    /// Whether the consumer end is still there.
    pub fn consumer_alive(&self) -> (alive: bool)
        ensures
            alive == self@.consumer,
    {
        self.rc_read
    }

    /// Why a write cannot go ahead now, if it cannot.
    pub fn write_error(&self) -> (e: Option<Error>)
        requires
            self.wf(),
        ensures
            e == self@.write_error(),
    {
        if !self.rc_read {
            Some(Error::PeerGone)
        } else if self.len == self.slots.len() {
            Some(Error::WouldBlock)
        } else {
            None
        }
    }

    /// Why a read cannot go ahead now, if it cannot.
    pub fn read_error(&self) -> (e: Option<Error>)
        ensures
            e == self@.read_error(),
    {
        if self.len > 0 {
            None
        } else if !self.rc_write {
            Some(Error::PeerGone)
        } else {
            Some(Error::WouldBlock)
        }
    }

    /// Destroys the producer end. What was written can still be read; a read that finds
    /// nothing fails with `PeerGone` from now on.
    pub fn close_sink(&mut self)
        requires
            old(self).wf(),
        ensures
            final(self).wf(),
            final(self)@ == (ChannelView { producer: false, ..old(self)@ }),
    {
        self.rc_write = false;
    }

    /// Destroys the consumer end. Every write fails with `PeerGone` from now on.
    pub fn close_source(&mut self)
        requires
            old(self).wf(),
        ensures
            final(self).wf(),
            final(self)@ == (ChannelView { consumer: false, ..old(self)@ }),
    {
        self.rc_read = false;
    }

    /// Takes the next free slot, puts its record back into the empty state and hands it
    /// out for filling. The record counts as written with whatever it holds when the
    /// borrow ends.
    ///
    /// Fails with `PeerGone` when the consumer is gone, and with `WouldBlock` when every
    /// slot holds a record that is still to be read; the channel is then unchanged.
    pub fn claim(&mut self) -> (r: Result<&mut T, Error>)
        requires
            old(self).wf(),
        ensures
            final(self).wf(),
            match r {
                Ok(slot) => {
                    &&& old(self)@.write_error() is None
                    &&& slot.fresh()
                    &&& final(self)@ == old(self)@.push(*final(slot))
                },
                Err(e) => {
                    &&& old(self)@.write_error() == Some(e)
                    &&& final(self)@ == old(self)@
                },
            },
    {
        if !self.rc_read {
            return Err(Error::PeerGone);
        }
        if self.len == self.slots.len() {
            return Err(Error::WouldBlock);
        }
        let index = self.tail();
        proof {
            let slots = self.slots@;
            let head = self.head as int;
            let len = self.len as nat;
            let grown = (len + 1) as nat;
            assert forall|record: T|
                window(#[trigger] slots.update(index as int, record), head, grown) == window(
                    slots,
                    head,
                    len,
                ).push(record) by {
                lemma_window_push(slots, head, len, record);
            }
        }
        self.len = self.len + 1;
        self.write = Ghost(self.write@ + 1);
        let slot = &mut self.slots[index];
        slot.reinitialize();
        Ok(slot)
    }

    /// Takes the next free slot, empties its record and lets `f` fill it in place.
    ///
    /// Fails with `PeerGone` when the consumer is gone, and with `WouldBlock` when every
    /// slot holds a record that is still to be read; `f` is then not called.
    pub fn write<F: FnOnce(&mut T)>(&mut self, f: F) -> (r: Result<(), Error>)
        requires
            old(self).wf(),
            forall|slot: &mut T| (*slot).fresh() ==> call_requires(f, (slot,)),
        ensures
            final(self).wf(),
            match old(self)@.write_error() {
                Some(e) => r == Err::<(), Error>(e) && final(self)@ == old(self)@,
                None => r is Ok && exists|slot: &mut T|
                    {
                        &&& (*slot).fresh()
                        &&& call_ensures(f, (slot,), ())
                        &&& final(self)@ == old(self)@.push(*final(slot))
                    },
            },
    {
        match self.claim() {
            Ok(slot) => {
                f(slot);
                Ok(())
            },
            Err(e) => Err(e),
        }
    }

    /// The oldest record that is waiting, if there is one.
    pub fn peek(&self) -> (r: Option<&T>)
        requires
            self.wf(),
        ensures
            match r {
                Some(record) => self@.pending.len() > 0 && *record == self@.pending[0],
                None => self@.pending.len() == 0,
            },
    {
        if self.len == 0 {
            None
        } else {
            Some(&self.slots[self.head])
        }
    }

    /// Takes the oldest record off the ring and hands it out for reading. Its slot is
    /// free for the producer again.
    ///
    /// Fails when nothing is waiting: with `PeerGone` if the producer is gone, with
    /// `WouldBlock` if it is still there. The channel is then unchanged.
    pub fn pull(&mut self) -> (r: Result<&T, Error>)
        requires
            old(self).wf(),
        ensures
            final(self).wf(),
            match r {
                Ok(record) => {
                    &&& old(self)@.read_error() is None
                    &&& *record == old(self)@.pending[0]
                    &&& final(self)@ == old(self)@.pop()
                },
                Err(e) => {
                    &&& old(self)@.read_error() == Some(e)
                    &&& final(self)@ == old(self)@
                },
            },
    {
        if self.len == 0 {
            if !self.rc_write {
                return Err(Error::PeerGone);
            }
            return Err(Error::WouldBlock);
        }
        let n = self.slots.len();
        let index = self.head;
        let ghost before = self@;
        proof {
            lemma_ring_step(self.read@ as int, 1, n as int);
        }
        self.head = if index + 1 == n {
            0
        } else {
            index + 1
        };
        self.len = self.len - 1;
        self.read = Ghost(self.read@ + 1);
        proof {
            assert(self@.pending =~= before.pending.skip(1));
        }
        Ok(&self.slots[index])
    }

    /// Takes the oldest record off the ring and lets `f` look at it.
    ///
    /// Fails when nothing is waiting: with `PeerGone` if the producer is gone, with
    /// `WouldBlock` if it is still there; `f` is then not called.
    pub fn read<F: FnOnce(&T)>(&mut self, f: F) -> (r: Result<(), Error>)
        requires
            old(self).wf(),
            old(self)@.pending.len() > 0 ==> call_requires(f, (&old(self)@.pending[0],)),
        ensures
            final(self).wf(),
            match old(self)@.read_error() {
                Some(e) => r == Err::<(), Error>(e) && final(self)@ == old(self)@,
                None => {
                    &&& r is Ok
                    &&& call_ensures(f, (&old(self)@.pending[0],), ())
                    &&& final(self)@ == old(self)@.pop()
                },
            },
    {
        match self.pull() {
            Ok(record) => {
                f(record);
                Ok(())
            },
            Err(e) => Err(e),
        }
    }
}

/// Makes a channel of `capacity` slots, each holding a record in its empty state. Both
/// ends are alive and nothing is pending.
///
/// Fails with `CapacityZero` when `capacity` is 0.
pub fn create<T: Initialize>(capacity: usize) -> (r: Result<Channel<T>, Error>)
    ensures
        match r {
            Ok(channel) => {
                &&& capacity >= 1
                &&& channel.wf()
                &&& channel@ == (ChannelView::<T> {
                    capacity: capacity as nat,
                    slots: channel@.slots,
                    pending: Seq::empty(),
                    written: 0,
                    consumed: 0,
                    producer: true,
                    consumer: true,
                })
                &&& forall|i: int| 0 <= i < capacity ==> (#[trigger] channel@.slots[i]).fresh()
            },
            Err(e) => capacity == 0 && e == Error::CapacityZero,
        },
{
    if capacity == 0 {
        return Err(Error::CapacityZero);
    }
    let mut slots: Vec<T> = Vec::with_capacity(capacity);
    let mut offset: usize = 0;
    while offset < capacity
        invariant
            offset <= capacity,
            slots@.len() == offset,
            forall|i: int| 0 <= i < offset ==> (#[trigger] slots@[i]).fresh(),
        decreases capacity - offset,
    {
        slots.push(T::initialize());
        offset = offset + 1;
    }
    let channel = Channel {
        slots,
        head: 0,
        len: 0,
        rc_read: true,
        rc_write: true,
        read: Ghost(0),
        write: Ghost(0),
    };
    proof {
        assert(channel@.pending =~= Seq::empty());
    }
    Ok(channel)
}

} // verus!
