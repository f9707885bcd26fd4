//! Byte buffers of the `bytes` crate as the codec sees them.
//!
//! A `Bytes` is a cursor over the bytes that are still to be read; a
//! `BytesMut` is a buffer that grows at its end. Both are opaque to the
//! verifier, so each is given a sequence of bytes as its meaning, and every
//! call into the crate is a small function whose contract is taken on trust.

use bytes::{Buf, BufMut, Bytes, BytesMut};
use vstd::prelude::*;

verus! {

#[verifier::external_type_specification]
#[verifier::external_body]
pub struct ExBytes(bytes::Bytes);

#[verifier::external_type_specification]
#[verifier::external_body]
pub struct ExBytesMut(bytes::BytesMut);

/// The bytes that `input` still holds, in reading order.
pub uninterp spec fn remaining(input: Bytes) -> Seq<u8>;

/// The bytes written to `buffer` so far, in writing order.
pub uninterp spec fn written(buffer: BytesMut) -> Seq<u8>;

/// `Bytes::len`: the number of bytes still to be read.
#[verifier::external_body]
pub(crate) fn remaining_len(input: &Bytes) -> (n: usize)
    ensures
        n == remaining(*input).len(),
{
    input.len()
}

/// Indexing a `Bytes` through its `Deref` to a slice: the byte at offset
/// `at` from the cursor, which stays where it is.
#[verifier::external_body]
pub(crate) fn peek(input: &Bytes, at: usize) -> (byte: u8)
    requires
        at < remaining(*input).len(),
    ensures
        byte == remaining(*input)[at as int],
{
    input[at]
}

/// `Buf::get_u8` on a `Bytes`: hands out the first remaining byte and moves
/// the cursor past it. The call panics on an empty cursor, which the
/// precondition rules out.
#[verifier::external_body]
pub(crate) fn take_byte(input: &mut Bytes) -> (byte: u8)
    requires
        remaining(*old(input)).len() >= 1,
    ensures
        byte == remaining(*old(input))[0],
        remaining(*final(input)) == remaining(*old(input)).skip(1),
{
    input.get_u8()
}

/// `BytesMut::with_capacity`: an empty buffer. The capacity is a hint for
/// the allocation and no part of the buffer's meaning.
#[verifier::external_body]
pub(crate) fn buffer_with_capacity(capacity: usize) -> (buffer: BytesMut)
    requires
        capacity <= isize::MAX,
    ensures
        written(buffer) == Seq::<u8>::empty(),
{
    BytesMut::with_capacity(capacity)
}

/// `BufMut::put_u8` on a `BytesMut`: appends one byte, growing the buffer
/// when it is full.
#[verifier::external_body]
pub(crate) fn put_byte(buffer: &mut BytesMut, byte: u8)
    requires
        written(*old(buffer)).len() < isize::MAX,
    ensures
        written(*final(buffer)) == written(*old(buffer)).push(byte),
{
    buffer.put_u8(byte)
}

/// `BufMut::put` on a `BytesMut` with a `Bytes` as its source: appends all
/// that the source still holds.
#[verifier::external_body]
pub(crate) fn put_all(buffer: &mut BytesMut, source: Bytes)
    requires
        written(*old(buffer)).len() + remaining(source).len() <= isize::MAX,
    ensures
        written(*final(buffer)) == written(*old(buffer)) + remaining(source),
{
    buffer.put(source)
}

/// `BytesMut::freeze`: the written bytes as a read cursor placed at their
/// start.
#[verifier::external_body]
pub(crate) fn freeze(buffer: BytesMut) -> (output: Bytes)
    ensures
        remaining(output) == written(buffer),
{
    buffer.freeze()
}

/// A cursor at the start of a copy of `data`. (No slice is longer than the
/// precondition allows.)
pub fn from_slice(data: &[u8]) -> (input: Bytes)
    requires
        data@.len() <= isize::MAX,
    ensures
        remaining(input) == data@,
{
    let mut buffer = buffer_with_capacity(data.len());
    let mut at: usize = 0;
    while at < data.len()
        invariant
            at <= data@.len() <= isize::MAX,
            written(buffer) == data@.take(at as int),
        decreases data@.len() - at,
    {
        put_byte(&mut buffer, data[at]);
        assert(data@.take(at as int).push(data@[at as int]) =~= data@.take(at + 1));
        at += 1;
    }
    assert(data@.take(at as int) =~= data@);
    freeze(buffer)
}

/// A copy of what the cursor still holds. The cursor stays where it is.
pub fn to_vec(input: &Bytes) -> (data: Vec<u8>)
    ensures
        data@ == remaining(*input),
{
    let length = remaining_len(input);
    let mut data: Vec<u8> = Vec::new();
    let mut at: usize = 0;
    while at < length
        invariant
            at <= length == remaining(*input).len(),
            data@ == remaining(*input).take(at as int),
        decreases length - at,
    {
        data.push(peek(input, at));
        assert(remaining(*input).take(at as int).push(remaining(*input)[at as int])
            =~= remaining(*input).take(at + 1));
        at += 1;
    }
    assert(remaining(*input).take(at as int) =~= remaining(*input));
    data
}

/// 256 to the power `n`: the number of values that `n` bytes can hold.
pub open spec fn radix_power(n: nat) -> nat
    decreases n,
{
    if n == 0 {
        1
    } else {
        256 * radix_power((n - 1) as nat)
    }
}

/// `value` written in `width` bytes, most significant byte first. Of a value
/// that does not fit, the low-order `width` bytes are written.
pub open spec fn be_bytes(value: nat, width: nat) -> Seq<u8>
    decreases width,
{
    if width == 0 {
        Seq::empty()
    } else {
        be_bytes(value / 256, (width - 1) as nat).push((value % 256) as u8)
    }
}

/// The number that `bytes` spell, most significant byte first.
pub open spec fn be_value(bytes: Seq<u8>) -> nat
    decreases bytes.len(),
{
    if bytes.len() == 0 {
        0
    } else {
        be_value(bytes.drop_last()) * 256 + bytes.last() as nat
    }
}

/// The bit pattern of the signed `value` in `width` bytes of two's
/// complement, read as an unsigned number.
pub open spec fn twos_complement(value: int, width: nat) -> nat {
    if value >= 0 {
        value as nat
    } else {
        (value + radix_power(width)) as nat
    }
}

/// The signed number whose two's complement in `width` bytes is `pattern`.
pub open spec fn twos_value(pattern: nat, width: nat) -> int {
    if 2 * pattern >= radix_power(width) {
        pattern - radix_power(width)
    } else {
        pattern as int
    }
}

/// The powers of 256 that the codec meets.
pub proof fn lemma_radix_powers()
    ensures
        radix_power(0) == 1,
        radix_power(1) == 0x100,
        radix_power(2) == 0x1_0000,
        radix_power(3) == 0x100_0000,
        radix_power(4) == 0x1_0000_0000,
        radix_power(5) == 0x100_0000_0000,
        radix_power(6) == 0x1_0000_0000_0000,
        radix_power(7) == 0x100_0000_0000_0000,
        radix_power(8) == 0x1_0000_0000_0000_0000,
{
    reveal_with_fuel(radix_power, 9);
}

/// `be_bytes` writes exactly `width` bytes.
pub proof fn lemma_be_bytes_len(value: nat, width: nat)
    ensures
        be_bytes(value, width).len() == width,
    decreases width,
{
    if width > 0 {
        lemma_be_bytes_len(value / 256, (width - 1) as nat);
    }
}

/// What `n` bytes spell is below 256 to the power `n`.
pub proof fn lemma_be_value_bound(bytes: Seq<u8>)
    ensures
        be_value(bytes) < radix_power(bytes.len()),
    decreases bytes.len(),
{
    if bytes.len() > 0 {
        lemma_be_value_bound(bytes.drop_last());
    }
}

/// Reading back what was written gives the number again, provided that it
/// fits in `width` bytes.
pub proof fn lemma_be_round_trip(value: nat, width: nat)
    requires
        value < radix_power(width),
    ensures
        be_value(be_bytes(value, width)) == value,
    decreases width,
{
    if width > 0 {
        let front = be_bytes(value / 256, (width - 1) as nat);
        lemma_be_round_trip(value / 256, (width - 1) as nat);
        assert(be_bytes(value, width).drop_last() =~= front);
    }
}

/// Two's complement in `width` bytes loses nothing of a number that the
/// width can hold.
pub proof fn lemma_twos_round_trip(value: int, width: nat)
    requires
        -(radix_power(width) as int) <= 2 * value < radix_power(width),
    ensures
        twos_complement(value, width) < radix_power(width),
        twos_value(twos_complement(value, width), width) == value,
{
}

/// Appends `value` in `width` bytes, most significant byte first.
pub(crate) fn put_be(buffer: &mut BytesMut, value: u64, width: usize)
    requires
        width <= 8,
        written(*old(buffer)).len() + width <= isize::MAX,
    ensures
        written(*final(buffer)) == written(*old(buffer)) + be_bytes(value as nat, width as nat),
    decreases width,
{
    if width > 0 {
        put_be(buffer, value / 256, width - 1);
        proof {
            lemma_be_bytes_len((value / 256) as nat, (width - 1) as nat);
        }
        put_byte(buffer, (value % 256) as u8);
    }
}

/// Reads `width` bytes as one number, most significant byte first.
pub(crate) fn take_be(input: &mut Bytes, width: usize) -> (value: u64)
    requires
        width <= 8,
        width <= remaining(*old(input)).len(),
    ensures
        value == be_value(remaining(*old(input)).take(width as int)),
        remaining(*final(input)) == remaining(*old(input)).skip(width as int),
    decreases width,
{
    if width == 0 {
        assert(remaining(*input).skip(0) =~= remaining(*input));
        0
    } else {
        let ghost start = remaining(*input);
        let high = take_be(input, width - 1);
        let low = take_byte(input);
        proof {
            let front = start.take(width as int);
            assert(front.drop_last() =~= start.take(width - 1));
            assert(start.skip(width - 1).skip(1) =~= start.skip(width as int));
            lemma_be_value_bound(front.drop_last());
            lemma_be_value_bound(front);
            lemma_radix_powers();
            lemma_radix_power_grows(width as nat, 8);
        }
        high * 256 + low as u64
    }
}

/// A higher power of 256 is no smaller.
pub proof fn lemma_radix_power_grows(low: nat, high: nat)
    requires
        low <= high,
    ensures
        radix_power(low) <= radix_power(high),
    decreases high,
{
    if low < high {
        lemma_radix_power_grows(low, (high - 1) as nat);
    }
}

} // verus!
