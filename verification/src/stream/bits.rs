//! The bit reader: fields of 1 to 32 bits from a byte stream, most significant bit first.

use crate::codec::{
    be_value, extend_sign_bits, lemma_be_value_append, lemma_be_value_prefix, lemma_value_bound, signed,
};
use crate::endian::Endian;
use crate::error::Error;
use crate::stream::{law_exact_read, lemma_gather_len, Feed, Model, Stream};
use vstd::arithmetic::power2::{
    lemma2_to64, lemma_pow2_adds, lemma_pow2_pos, lemma_pow2_strictly_increases, pow2,
};
use vstd::prelude::*;

verus! {

/// A bit reader as mathematics: the bits of the last byte taken that are still to come,
/// as a number of `cache_length` bits, and the byte stream behind them.
pub struct Bits {
    pub cache: nat,
    pub cache_length: nat,
    pub stream: Model,
}

/// What one read of a bit field does.
pub struct Drawn {
    /// The reader behind the read.
    pub bits: Bits,
    /// The field as a number, most significant bit first.
    pub result: Result<nat, Error>,
}

/// Whole bytes that a field of `n` bits needs from the stream when `held` bits are in the
/// cache.
pub open spec fn bytes_for(n: nat, held: nat) -> nat {
    let missing = (n - held) as nat;
    missing / 8 + if missing % 8 > 0 {
        1nat
    } else {
        0nat
    }
}

impl Bits {
    /// The cache holds at most a byte, and no bit above its length.
    pub open spec fn wf(self) -> bool {
        self.cache_length <= 8 && self.cache < pow2(self.cache_length)
    }

    /// A read of `n` bits. A width outside 1 to 32 fails with `Argument`. A field that the
    /// cache covers comes from the top of the cache. For a longer one the whole bytes that
    /// it needs are read from the stream and put behind the cache; the field is the top
    /// `n` bits of the two, and the bits below it are the new cache. Where the stream
    /// fails, the read fails in the same way and the cache stays as it is.
    pub open spec fn draw(self, n: nat) -> Drawn {
        if n == 0 || n > 32 {
            Drawn { bits: self, result: Err(Error::Argument) }
        } else if n <= self.cache_length {
            let left = (self.cache_length - n) as nat;
            Drawn {
                bits: Bits { cache: self.cache % pow2(left), cache_length: left, stream: self.stream },
                result: Ok(self.cache / pow2(left)),
            }
        } else {
            let count = bytes_for(n, self.cache_length);
            let run = self.stream.exact(count);
            match run.result {
                Err(e) => Drawn { bits: Bits { stream: run.model, ..self }, result: Err(e) },
                Ok(_) => {
                    let sum = self.cache * pow2(8 * count) + be_value(run.bytes);
                    let left = (8 * count + self.cache_length - n) as nat;
                    Drawn {
                        bits: Bits { cache: sum % pow2(left), cache_length: left, stream: run.model },
                        result: Ok(sum / pow2(left)),
                    }
                },
            }
        }
    }
}

/// A field of `n` bits is a number below `2^n`, and a sound reader stays sound.
pub proof fn lemma_draw(bits: Bits, n: nat)
    requires
        bits.wf(),
    ensures
        bits.draw(n).bits.wf(),
        bits.draw(n).result matches Ok(value) ==> value < pow2(n),
{
    lemma2_to64();
    if n == 0 || n > 32 {
        // The reader stays as it is.
    } else if n <= bits.cache_length {
        let left = (bits.cache_length - n) as nat;
        lemma_pow2_pos(left);
        lemma_pow2_adds(left, n);
        lemma_split(bits.cache, left, n);
    } else {
        let count = bytes_for(n, bits.cache_length);
        let run = bits.stream.exact(count);
        if run.result is Ok {
            let left = (8 * count + bits.cache_length - n) as nat;
            let sum = bits.cache * pow2(8 * count) + be_value(run.bytes);
            lemma_gather_len(bits.stream, count, count);
            lemma_value_bound(run.bytes);
            lemma_pow2_pos(8 * count);
            lemma_pow2_adds(bits.cache_length, 8 * count);
            assert(sum < pow2(bits.cache_length) * pow2(8 * count)) by (nonlinear_arith)
                requires
                    sum == bits.cache * pow2(8 * count) + be_value(run.bytes),
                    bits.cache < pow2(bits.cache_length),
                    be_value(run.bytes) < pow2(8 * count),
            ;
            lemma_pow2_pos(left);
            lemma_split(sum, left, n);
            if left < 8 {
                lemma_pow2_strictly_increases(left, 8);
            }
        }
    }
}

/// Cutting a number below `2^(low + high)` at bit `low` leaves `low` bits below the cut and
/// `high` bits above it.
pub proof fn lemma_split(value: nat, low: nat, high: nat)
    requires
        value < pow2(low + high),
    ensures
        value % pow2(low) < pow2(low),
        value / pow2(low) < pow2(high),
{
    lemma_pow2_pos(low);
    lemma_pow2_adds(low, high);
    let unit = pow2(low) as int;
    let top = pow2(high) as int;
    vstd::arithmetic::div_mod::lemma_mod_bound(value as int, unit);
    vstd::arithmetic::div_mod::lemma_fundamental_div_mod(value as int, unit);
    let q = value as int / unit;
    vstd::arithmetic::div_mod::lemma_div_pos_is_pos(value as int, unit);
    if q >= top {
        assert(unit * q >= unit * top) by (nonlinear_arith)
            requires
                q >= top,
                unit > 0,
        ;
        assert(unit * top == top * unit) by (nonlinear_arith);
    }
}

/// The field of `width` bits that starts `from` bits into `bytes`, as a number; the first
/// bit of a byte is its most significant one.
pub open spec fn bit_field(bytes: Seq<u8>, from: nat, width: nat) -> nat {
    (be_value(bytes) / pow2((8 * bytes.len() - from - width) as nat)) % pow2(width)
}

/// The widths added up.
pub open spec fn total(widths: Seq<nat>) -> nat
    decreases widths.len(),
{
    if widths.len() == 0 {
        0
    } else {
        total(widths.drop_last()) + widths.last()
    }
}

impl Bits {
    /// The reader behind reads of fields of the given widths, one after the other.
    pub open spec fn draw_all(self, widths: Seq<nat>) -> Bits
        decreases widths.len(),
    {
        if widths.len() == 0 {
            self
        } else {
            self.draw_all(widths.drop_last()).draw(widths.last()).bits
        }
    }
}

/// A reader that started with an empty cache where `all` were the bytes that remained in
/// its stream, `bytes` the first of them, and that has read `offset` bits since: it has
/// taken the bytes that these bits reach into and no more, and its cache holds the bits
/// of the last of them that are still to come.
spec fn at_bit(bits: Bits, all: Seq<u8>, bytes: Seq<u8>, offset: nat) -> bool {
    let taken = (offset + 7) / 8;
    &&& taken <= bytes.len()
    &&& bits.cache_length == 8 * taken - offset
    &&& bits.cache == be_value(bytes.take(taken as int)) % pow2(bits.cache_length)
    &&& bits.stream.flows()
    &&& bits.stream.remaining() == all.skip(taken as int)
}

/// Cutting a number at bit `low`, within its low `low + high` bits: above the cut are the
/// `high` bits that lie above bit `low`, below it the `low` bits of the number.
proof fn lemma_cut(x: nat, low: nat, high: nat)
    ensures
        (x % pow2(low + high)) / pow2(low) == (x / pow2(low)) % pow2(high),
        (x % pow2(low + high)) % pow2(low) == x % pow2(low),
{
    let y = pow2(low) as int;
    let z = pow2(high) as int;
    lemma_pow2_pos(low);
    lemma_pow2_pos(high);
    lemma_pow2_adds(low, high);
    vstd::arithmetic::div_mod::lemma_breakdown(x as int, y, z);
    vstd::arithmetic::div_mod::lemma_mod_bound(x as int, y);
    vstd::arithmetic::div_mod::lemma_div_multiples_vanish_fancy(
        (x as int / y) % z,
        x as int % y,
        y,
    );
    vstd::arithmetic::div_mod::lemma_mod_mod(x as int, y, z);
}

/// Bits put behind the low `held` bits of a number are the low bits of the number with
/// these bits put behind it.
proof fn lemma_shift_in(p: nat, held: nat, read: nat, width: nat)
    requires
        read < pow2(width),
    ensures
        (p % pow2(held)) * pow2(width) + read == (p * pow2(width) + read) % pow2(held + width),
{
    let b = pow2(width) as int;
    let c = pow2(held) as int;
    lemma_pow2_pos(width);
    lemma_pow2_pos(held);
    lemma_pow2_adds(held, width);
    vstd::arithmetic::div_mod::lemma_truncate_middle(p as int, b, c);
    vstd::arithmetic::div_mod::lemma_fundamental_div_mod(b * p, b * c);
    vstd::arithmetic::div_mod::lemma_mod_bound(p as int, c);
    let q = (b * p) / (b * c);
    let low = p as int % c;
    assert(b * low + read < b * c) by (nonlinear_arith)
        requires
            0 <= low <= c - 1,
            0 <= read < b,
    ;
    assert(0 <= b * low) by (nonlinear_arith)
        requires
            0 <= low,
            0 < b,
    ;
    assert(p * b == b * p) by (nonlinear_arith);
    assert(low * b == b * low) by (nonlinear_arith);
    assert(c * b == b * c) by (nonlinear_arith);
    assert(q * (b * c) == (b * c) * q) by (nonlinear_arith);
    vstd::arithmetic::div_mod::lemma_fundamental_div_mod_converse(
        p * b + read,
        b * c,
        q,
        b * low + read,
    );
}

/// A field is cut from the number that the bytes taken so far spell.
proof fn lemma_field(bytes: Seq<u8>, taken: nat, left: nat, width: nat)
    requires
        taken <= bytes.len(),
        left + width <= 8 * taken,
    ensures
        bit_field(bytes, (8 * taken - left - width) as nat, width) == (be_value(
            bytes.take(taken as int),
        ) / pow2(left)) % pow2(width),
{
    let rest = (8 * (bytes.len() - taken)) as nat;
    lemma_be_value_prefix(bytes, taken);
    lemma_pow2_pos(rest);
    lemma_pow2_pos(left);
    lemma_pow2_adds(rest, left);
    vstd::arithmetic::div_mod::lemma_div_denominator(
        be_value(bytes) as int,
        pow2(rest) as int,
        pow2(left) as int,
    );
}

/// One read of a field by a reader that is `offset` bits into `bytes`: it gives the
/// field of these bits, and the reader is behind them.
proof fn lemma_draw_at(bits: Bits, all: Seq<u8>, bytes: Seq<u8>, offset: nat, n: nat)
    requires
        bytes.len() <= all.len(),
        bytes == all.take(bytes.len() as int),
        at_bit(bits, all, bytes, offset),
        1 <= n <= 32,
        offset + n <= 8 * bytes.len(),
    ensures
        bits.draw(n).result == Ok::<nat, Error>(bit_field(bytes, offset, n)),
        at_bit(bits.draw(n).bits, all, bytes, offset + n),
{
    let taken = (offset + 7) / 8;
    let held = bits.cache_length;
    let p = be_value(bytes.take(taken as int));
    if n <= held {
        let left = (held - n) as nat;
        lemma_cut(p, left, n);
        lemma_field(bytes, taken, left, n);
    } else {
        let count = bytes_for(n, held);
        let next = taken + count;
        let left = (8 * count + held - n) as nat;
        let read = all.skip(taken as int).take(count as int);
        law_exact_read(bits.stream, count);
        assert(all.skip(taken as int).skip(count as int) =~= all.skip(next as int));
        assert(bytes.take(next as int) =~= bytes.take(taken as int) + read);
        lemma_be_value_append(bytes.take(taken as int), read);
        lemma_value_bound(read);
        let after = be_value(bytes.take(next as int));
        lemma_shift_in(p, held, be_value(read), 8 * count);
        lemma_cut(after, left, n);
        lemma_field(bytes, next, left, n);
    }
}

/// The reader behind the first fields is as many bits into the bytes as these fields are
/// wide together.
proof fn lemma_draw_all_at(start: Bits, bytes: Seq<u8>, widths: Seq<nat>)
    requires
        start.cache == 0,
        start.cache_length == 0,
        start.stream.flows(),
        bytes.len() <= start.stream.remaining().len(),
        bytes == start.stream.remaining().take(bytes.len() as int),
        forall|i: int| 0 <= i < widths.len() ==> 1 <= #[trigger] widths[i] <= 32,
        total(widths) <= 8 * bytes.len(),
    ensures
        at_bit(start.draw_all(widths), start.stream.remaining(), bytes, total(widths)),
    decreases widths.len(),
{
    let all = start.stream.remaining();
    if widths.len() == 0 {
        lemma2_to64();
        assert(all.skip(0) =~= all);
    } else {
        let front = widths.drop_last();
        lemma_draw_all_at(start, bytes, front);
        lemma_draw_at(start.draw_all(front), all, bytes, total(front), widths.last());
    }
}

/// The widths of the first fields add up to no more than the widths of all.
proof fn lemma_total_take(widths: Seq<nat>, count: int)
    requires
        0 <= count <= widths.len(),
    ensures
        total(widths.take(count)) <= total(widths),
    decreases widths.len(),
{
    if count == widths.len() {
        assert(widths.take(count) =~= widths);
    } else {
        lemma_total_take(widths.drop_last(), count);
        assert(widths.drop_last().take(count) =~= widths.take(count));
    }
}

/// The round trip of the bit reader. Take a stream in which no chunk in front of the end
/// is empty, and the first bytes that remain in it, wherever they lie: in the chunk at
/// hand or in chunks that still wait. Cut the bits of these bytes, from the first on, into
/// fields of 1 to 32 bits. A reader that starts there with an empty cache and reads
/// fields of these widths, one after the other, gets every field as it lies in the bytes,
/// which is a number below two to its width. For each field it takes from the stream the
/// bytes that the field reaches into and no more.
pub proof fn law_bits_round_trip(start: Bits, bytes: Seq<u8>, widths: Seq<nat>)
    requires
        start.cache == 0,
        start.cache_length == 0,
        start.stream.flows(),
        bytes.len() <= start.stream.remaining().len(),
        bytes == start.stream.remaining().take(bytes.len() as int),
        forall|i: int| 0 <= i < widths.len() ==> 1 <= #[trigger] widths[i] <= 32,
        total(widths) <= 8 * bytes.len(),
    ensures
        forall|i: int|
            0 <= i < widths.len() ==> {
                let read = (#[trigger] start.draw_all(widths.take(i))).draw(widths[i]);
                &&& read.result == Ok::<nat, Error>(
                    bit_field(bytes, total(widths.take(i)), widths[i]),
                )
                &&& bit_field(bytes, total(widths.take(i)), widths[i]) < pow2(widths[i])
            },
        forall|i: int|
            0 <= i <= widths.len() ==> {
                let reader = #[trigger] start.draw_all(widths.take(i));
                let taken = (total(widths.take(i)) + 7) / 8;
                &&& reader.stream.remaining() == start.stream.remaining().skip(taken as int)
                &&& reader.cache_length == 8 * taken - total(widths.take(i))
            },
{
    assert forall|i: int| 0 <= i <= widths.len() implies {
        let reader = #[trigger] start.draw_all(widths.take(i));
        let taken = (total(widths.take(i)) + 7) / 8;
        &&& reader.stream.remaining() == start.stream.remaining().skip(taken as int)
        &&& reader.cache_length == 8 * taken - total(widths.take(i))
    } by {
        lemma_total_take(widths, i);
        lemma_draw_all_at(start, bytes, widths.take(i));
    }
    assert forall|i: int| 0 <= i < widths.len() implies {
        let read = (#[trigger] start.draw_all(widths.take(i))).draw(widths[i]);
        &&& read.result == Ok::<nat, Error>(bit_field(bytes, total(widths.take(i)), widths[i]))
        &&& bit_field(bytes, total(widths.take(i)), widths[i]) < pow2(widths[i])
    } by {
        let front = widths.take(i);
        let upto = widths.take(i + 1);
        lemma_total_take(widths, i + 1);
        assert(upto.drop_last() =~= front);
        lemma_draw_all_at(start, bytes, front);
        lemma_draw_at(
            start.draw_all(front),
            start.stream.remaining(),
            bytes,
            total(front),
            widths[i],
        );
        lemma_pow2_pos(widths[i]);
        vstd::arithmetic::div_mod::lemma_mod_bound(
            be_value(bytes) as int / pow2((8 * bytes.len() - total(front) - widths[i]) as nat) as int,
            pow2(widths[i]) as int,
        );
    }
}

/// A field of up to 32 bits, read with its sign, is in the range of an `i32`.
proof fn lemma_signed_range(value: nat, n: nat)
    requires
        1 <= n <= 32,
        value < pow2(n),
    ensures
        -0x8000_0000 <= signed(value, n) < 0x8000_0000,
{
    lemma2_to64();
    lemma_pow2_pos((n - 1) as nat);
    lemma_pow2_adds((n - 1) as nat, 1);
    if n < 32 {
        lemma_pow2_strictly_increases((n - 1) as nat, 31);
    }
}

/// A one shifted left by up to 40 places is that power of two.
proof fn lemma_unit(places: u64)
    requires
        places <= 40,
    ensures
        (1u64 << places) == pow2(places as nat),
        1 <= pow2(places as nat) <= 0x100_0000_0000,
{
    lemma2_to64();
    vstd::arithmetic::power2::lemma2_to64_rest();
    lemma_pow2_pos(places as nat);
    if places < 40 {
        lemma_pow2_strictly_increases(places as nat, 40);
    }
    vstd::bits::lemma_u64_shl_is_mul(1, places);
}

/// The cache put in front of `count` bytes read: the sum fits a word, and what is cut from
/// it fits the field and the cache.
proof fn lemma_sum(cache: nat, held: nat, read: nat, count: nat, n: nat)
    requires
        held <= 8,
        cache < pow2(held),
        held < n <= 32,
        count == bytes_for(n, held),
        read < pow2(8 * count),
    ensures
        1 <= count <= 4,
        8 * count + held >= n,
        8 * count + held - n <= 7,
        cache * pow2(8 * count) + read < 0x100_0000_0000,
        (cache * pow2(8 * count) + read) / pow2((8 * count + held - n) as nat) < 0x1_0000_0000,
        (cache * pow2(8 * count) + read) % pow2((8 * count + held - n) as nat) < 0x100,
{
    lemma2_to64();
    vstd::arithmetic::power2::lemma2_to64_rest();
    let left = (8 * count + held - n) as nat;
    let sum = cache * pow2(8 * count) + read;
    lemma_pow2_adds(held, 8 * count);
    lemma_pow2_pos(8 * count);
    assert(sum < pow2(held) * pow2(8 * count)) by (nonlinear_arith)
        requires
            sum == cache * pow2(8 * count) + read,
            cache < pow2(held),
            read < pow2(8 * count),
    ;
    lemma_split(sum, left, n);
    if left < 8 {
        lemma_pow2_strictly_increases(left, 8);
    }
    if n < 32 {
        lemma_pow2_strictly_increases(n, 32);
    }
    if held + 8 * count < 40 {
        lemma_pow2_strictly_increases(held + 8 * count, 40);
    }
}

/// The bit reader over a byte stream. `cache` holds, in its low `cache_length` bits, the
/// bits of the last byte taken that are still to come.
pub struct Bitstream<S> {
    pub cache: u8,
    pub cache_length: usize,
    stream: Stream<S>,
}

impl<S: Feed> View for Bitstream<S> {
    type V = Bits;

    closed spec fn view(&self) -> Bits {
        Bits {
            cache: self.cache as nat,
            cache_length: self.cache_length as nat,
            stream: self.stream@,
        }
    }
}

impl<S: Feed> Bitstream<S> {
    /// The cache is sound, and so is the byte stream.
    pub closed spec fn wf(&self) -> bool {
        self@.wf() && self.stream.wf()
    }

    /// A sound reader has a sound model, so that what `lemma_draw` says of a read holds
    /// of it.
    pub proof fn lemma_view_wf(&self)
        requires
            self.wf(),
        ensures
            self@.wf(),
    {
    }

    /// A bit reader at the next byte of `stream`.
    pub fn new(stream: Stream<S>) -> (reader: Bitstream<S>)
        requires
            stream.wf(),
        ensures
            reader.wf(),
            reader@ == (Bits { cache: 0, cache_length: 0, stream: stream@ }),
    {
        proof {
            lemma2_to64();
        }
        Bitstream { cache: 0, cache_length: 0, stream }
    }

    /// Lends the byte stream out.
    pub fn stream_mut(&mut self) -> (stream: &mut Stream<S>)
        requires
            old(self).wf(),
        ensures
            stream.wf(),
            stream@ == old(self)@.stream,
            final(self)@ == (Bits { stream: final(stream)@, ..old(self)@ }),
            final(stream).wf() ==> final(self).wf(),
    {
        &mut self.stream
    }

    /// Gives the byte stream back. The bits in the cache are dropped.
    pub fn into_stream(self) -> (stream: Stream<S>)
        requires
            self.wf(),
        ensures
            stream.wf(),
            stream@ == self@.stream,
    {
        self.stream
    }

    /// Reads a field that the cache covers.
    fn from_cache(&mut self, n: usize) -> (value: u32)
        requires
            old(self).wf(),
            1 <= n <= old(self)@.cache_length,
        ensures
            final(self).wf(),
            final(self)@ == old(self)@.draw(n as nat).bits,
            old(self)@.draw(n as nat).result == Ok::<nat, Error>(value as nat),
    {
        let left = self.cache_length - n;
        let unit: u64 = 1u64 << (left as u64);
        let wide = self.cache as u64;
        proof {
            lemma_unit(left as u64);
            lemma_split(self.cache as nat, left as nat, n as nat);
            lemma_draw(self@, n as nat);
            lemma2_to64();
            if left < 8 {
                lemma_pow2_strictly_increases(left as nat, 8);
            }
            if n < 32 {
                lemma_pow2_strictly_increases(n as nat, 32);
            }
        }
        let result = wide / unit;
        self.cache_length = left;
        self.cache = (wide % unit) as u8;
        result as u32
    }

    /// Reads a field that reaches beyond the cache.
    fn from_stream(&mut self, n: usize) -> (r: Result<u32, Error>)
        requires
            old(self).wf(),
            old(self)@.cache_length < n <= 32,
        ensures
            final(self).wf(),
            final(self)@ == old(self)@.draw(n as nat).bits,
            match r {
                Ok(value) => old(self)@.draw(n as nat).result == Ok::<nat, Error>(value as nat),
                Err(e) => old(self)@.draw(n as nat).result == Err::<nat, Error>(e),
            },
    {
        let n_to_read = n - self.cache_length;
        let b_to_read = n_to_read / 8 + if n_to_read % 8 > 0 {
            1
        } else {
            0
        };
        proof {
            lemma_draw(self@, n as nat);
            lemma_gather_len(self.stream@, b_to_read as nat, b_to_read as nat);
        }
        match self.stream.read_uint(b_to_read, Endian::Big) {
            Ok(read) => {
                let left = b_to_read * 8 - n_to_read;
                let high: u64 = 1u64 << ((b_to_read * 8) as u64);
                let unit: u64 = 1u64 << (left as u64);
                proof {
                    lemma_unit(left as u64);
                    lemma_unit((b_to_read * 8) as u64);
                    lemma_sum(
                        self.cache as nat,
                        self.cache_length as nat,
                        read as nat,
                        b_to_read as nat,
                        n as nat,
                    );
                }
                let sum = (self.cache as u64) * high + read;
                let result = sum / unit;
                self.cache_length = left;
                self.cache = (sum % unit) as u8;
                Ok(result as u32)
            },
            Err(e) => Err(e),
        }
    }

    /// Reads the next `n` bits, 1 to 32 of them, as an unsigned number; the first bit read
    /// is the most significant one.
    pub fn read_n(&mut self, n: usize) -> (r: Result<u32, Error>)
        requires
            old(self).wf(),
        ensures
            final(self).wf(),
            final(self)@ == old(self)@.draw(n as nat).bits,
            match r {
                Ok(value) => old(self)@.draw(n as nat).result == Ok::<nat, Error>(value as nat),
                Err(e) => old(self)@.draw(n as nat).result == Err::<nat, Error>(e),
            },
    {
        if n == 0 || n > 32 {
            Err(Error::Argument)
        } else if n <= self.cache_length {
            Ok(self.from_cache(n))
        } else {
            self.from_stream(n)
        }
    }

    /// Reads the next `n` bits, 1 to 32 of them, as a two's complement number; the first
    /// bit read is the sign.
    pub fn read_n_signed(&mut self, n: usize) -> (r: Result<i32, Error>)
        requires
            old(self).wf(),
        ensures
            final(self).wf(),
            final(self)@ == old(self)@.draw(n as nat).bits,
            r == match old(self)@.draw(n as nat).result {
                Ok(value) => Ok::<i32, Error>(signed(value, n as nat) as i32),
                Err(e) => Err::<i32, Error>(e),
            },
    {
        proof {
            lemma_draw(self@, n as nat);
        }
        match self.read_n(n) {
            Ok(value) => {
                proof {
                    lemma_signed_range(value as nat, n as nat);
                    vstd::arithmetic::div_mod::lemma_small_mod(value as nat, pow2(n as nat));
                }
                Ok(extend_sign_bits(value as u64, n) as i32)
            },
            Err(e) => Err(e),
        }
    }
}

} // verus!
