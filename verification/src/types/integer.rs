//! Signed 64-bit integers in their shortest wire form.

use crate::errors::Error;
use crate::types::Parsed;
use crate::wire::{
    be_bytes, be_value, buffer_with_capacity, freeze, lemma_be_bytes_len, lemma_be_round_trip,
    lemma_be_value_bound, lemma_radix_powers, lemma_twos_round_trip, peek, put_be, put_byte,
    radix_power, remaining, remaining_len, take_be, take_byte, twos_complement, twos_value,
    written,
};
use bytes::Bytes;
use vstd::prelude::*;

verus! {

/// Marker of an integer that follows in one byte.
pub const MARKER_INT_8: u8 = 0xC8;

/// Marker of an integer that follows in two bytes.
pub const MARKER_INT_16: u8 = 0xC9;

/// Marker of an integer that follows in four bytes.
pub const MARKER_INT_32: u8 = 0xCA;

/// Marker of an integer that follows in eight bytes.
pub const MARKER_INT_64: u8 = 0xCB;

/// An integer of the protocol.
#[derive(Debug, PartialEq, Eq, Clone, Copy, Structural)]
pub struct BoltInteger {
    pub value: i64,
}

/// Whether `value` is written as a single byte that is its own marker.
pub open spec fn is_tiny(value: int) -> bool {
    -16 <= value <= 127
}

/// Whether `marker` is a tiny integer written in place.
pub open spec fn is_tiny_marker(marker: u8) -> bool {
    marker <= 0x7F || marker >= 0xF0
}

/// The number of bytes in which `value` follows its marker: the least of
/// 1, 2, 4 and 8 whose two's complement holds it.
pub open spec fn payload_width(value: int) -> nat {
    if -0x80 <= value < 0x80 {
        1
    } else if -0x8000 <= value < 0x8000 {
        2
    } else if -0x8000_0000 <= value < 0x8000_0000 {
        4
    } else {
        8
    }
}

/// The marker that announces a payload of `width` bytes.
pub open spec fn width_marker(width: nat) -> u8 {
    if width == 1 {
        MARKER_INT_8
    } else if width == 2 {
        MARKER_INT_16
    } else if width == 4 {
        MARKER_INT_32
    } else {
        MARKER_INT_64
    }
}

/// The number of payload bytes that `marker` announces; 0 where it
/// announces none.
pub open spec fn marker_width(marker: u8) -> nat {
    if marker == MARKER_INT_8 {
        1
    } else if marker == MARKER_INT_16 {
        2
    } else if marker == MARKER_INT_32 {
        4
    } else if marker == MARKER_INT_64 {
        8
    } else {
        0
    }
}

impl BoltInteger {
    /// The bytes of this integer on the wire: a tiny one is its own single
    /// byte; any other is a width marker followed by its two's complement,
    /// most significant byte first, in the least width that holds it.
    pub open spec fn encoding(self) -> Seq<u8> {
        let value = self.value as int;
        if is_tiny(value) {
            be_bytes(twos_complement(value, 1), 1)
        } else {
            let width = payload_width(value);
            seq![width_marker(width)] + be_bytes(twos_complement(value, width), width)
        }
    }

    /// Whether `bytes` start with the marker of an integer.
    pub open spec fn accepts(bytes: Seq<u8>) -> bool {
        bytes.len() > 0 && (is_tiny_marker(bytes[0]) || marker_width(bytes[0]) > 0)
    }

    /// Decoding at the front of `bytes`. A failure leaves all bytes in
    /// place.
    pub open spec fn parse(bytes: Seq<u8>) -> Parsed<BoltInteger> {
        if bytes.len() == 0 {
            Parsed { result: Err(Error::Truncated), rest: bytes }
        } else if is_tiny_marker(bytes[0]) {
            Parsed {
                result: Ok(BoltInteger { value: twos_value(bytes[0] as nat, 1) as i64 }),
                rest: bytes.skip(1),
            }
        } else if marker_width(bytes[0]) == 0 {
            Parsed {
                result: Err(Error::InvalidTypeMarker { marker: bytes[0], signature: None }),
                rest: bytes,
            }
        } else if bytes.len() < 1 + marker_width(bytes[0]) {
            Parsed { result: Err(Error::Truncated), rest: bytes }
        } else {
            let width = marker_width(bytes[0]);
            let pattern = be_value(bytes.subrange(1, 1 + width as int));
            Parsed {
                result: Ok(BoltInteger { value: twos_value(pattern, width) as i64 }),
                rest: bytes.skip(1 + width as int),
            }
        }
    }

    /// An encoded integer takes one byte where it is tiny, and one more
    /// than its payload where it is not: nine at most.
    pub proof fn lemma_encoding_len(self)
        ensures
            self.encoding().len() == if is_tiny(self.value as int) {
                1
            } else {
                1 + payload_width(self.value as int)
            },
            1 <= self.encoding().len() <= 9,
    {
        let value = self.value as int;
        lemma_be_bytes_len(twos_complement(value, 1), 1);
        lemma_be_bytes_len(twos_complement(value, payload_width(value)), payload_width(value));
    }

    /// Decoding what was encoded gives the integer back and stops where its
    /// encoding ends, whatever follows it.
    pub proof fn lemma_round_trip(self, rest: Seq<u8>)
        ensures
            Self::parse(self.encoding() + rest) == (Parsed { result: Ok(self), rest }),
    {
        let value = self.value as int;
        let bytes = self.encoding() + rest;
        lemma_radix_powers();
        self.lemma_encoding_len();
        if is_tiny(value) {
            let pattern = twos_complement(value, 1);
            lemma_twos_round_trip(value, 1);
            assert(be_bytes(pattern, 1) =~= seq![pattern as u8]) by {
                reveal_with_fuel(be_bytes, 2);
            }
            assert(bytes[0] == pattern as u8);
            assert(bytes.skip(1) =~= rest);
        } else {
            let width = payload_width(value);
            let pattern = twos_complement(value, width);
            lemma_twos_round_trip(value, width);
            lemma_be_round_trip(pattern, width);
            lemma_be_bytes_len(pattern, width);
            assert(bytes[0] == width_marker(width));
            assert(bytes.subrange(1, 1 + width as int) =~= be_bytes(pattern, width));
            assert(bytes.skip(1 + width as int) =~= rest);
        }
    }

    /// Decoding succeeds only at an integer's marker and, where it fails,
    /// consumes nothing; at any byte that is no such marker it fails with
    /// that byte as the offending marker.
    pub proof fn lemma_parse_agrees_with_accepts(bytes: Seq<u8>)
        ensures
            Self::parse(bytes).result is Ok ==> Self::accepts(bytes),
            Self::parse(bytes).result is Err ==> Self::parse(bytes).rest == bytes,
            bytes.len() > 0 && !Self::accepts(bytes) ==> Self::parse(bytes).result == Err::<
                BoltInteger,
                Error,
            >(Error::InvalidTypeMarker { marker: bytes[0], signature: None }),
    {
    }

    /// The integer `value`.
    pub fn new(value: i64) -> (integer: BoltInteger)
        ensures
            integer.value == value,
    {
        BoltInteger { value }
    }

    /// Whether the cursor stands at an integer. Nothing is consumed.
    pub fn can_parse(input: &Bytes) -> (accepted: bool)
        ensures
            accepted == Self::accepts(remaining(*input)),
    {
        if remaining_len(input) == 0 {
            false
        } else {
            let marker = peek(input, 0);
            marker <= 0x7F || marker >= 0xF0 || width_of_marker(marker) > 0
        }
    }

    /// Decodes the integer at the cursor and moves the cursor past it. On
    /// failure the cursor stays where it was.
    pub fn try_from(input: &mut Bytes) -> (result: Result<BoltInteger, Error>)
        ensures
            result == Self::parse(remaining(*old(input))).result,
            remaining(*final(input)) == Self::parse(remaining(*old(input))).rest,
    {
        let available = remaining_len(input);
        if available == 0 {
            return Err(Error::Truncated);
        }
        let marker = peek(input, 0);
        if marker <= 0x7F || marker >= 0xF0 {
            let _ = take_byte(input);
            proof {
                lemma_radix_powers();
            }
            return Ok(BoltInteger { value: signed_of(marker as u64, 1) });
        }
        let width = width_of_marker(marker);
        if width == 0 {
            return Err(Error::InvalidTypeMarker { marker, signature: None });
        }
        if available - 1 < width {
            return Err(Error::Truncated);
        }
        let ghost start = remaining(*input);
        let _ = take_byte(input);
        let pattern = take_be(input, width);
        proof {
            assert(start.skip(1).take(width as int) =~= start.subrange(1, 1 + width));
            assert(start.skip(1).skip(width as int) =~= start.skip(1 + width));
            lemma_be_value_bound(start.subrange(1, 1 + width));
        }
        Ok(BoltInteger { value: signed_of(pattern, width) })
    }

    /// Encodes this integer. The result is always `Ok`.
    pub fn try_into(self) -> (result: Result<Bytes, Error>)
        ensures
            result matches Ok(output) && remaining(output) == self.encoding(),
    {
        let value = self.value;
        let mut buffer = buffer_with_capacity(9);
        if -16 <= value && value <= 127 {
            proof {
                lemma_radix_powers();
            }
            put_be(&mut buffer, pattern_of(value, 1), 1);
        } else {
            let width = width_of_value(value);
            put_byte(&mut buffer, marker_of_width(width));
            put_be(&mut buffer, pattern_of(value, width), width);
            assert(written(buffer) =~= self.encoding());
        }
        Ok(freeze(buffer))
    }
}

/// Whether `width` is one of the four payload widths.
pub open spec fn is_payload_width(width: nat) -> bool {
    width == 1 || width == 2 || width == 4 || width == 8
}

/// Whether the two's complement of `width` bytes holds `value`.
pub open spec fn fits(value: int, width: nat) -> bool {
    -(radix_power(width) as int) <= 2 * value < radix_power(width)
}

fn width_of_marker(marker: u8) -> (width: usize)
    ensures
        width == marker_width(marker),
{
    if marker == MARKER_INT_8 {
        1
    } else if marker == MARKER_INT_16 {
        2
    } else if marker == MARKER_INT_32 {
        4
    } else if marker == MARKER_INT_64 {
        8
    } else {
        0
    }
}

fn marker_of_width(width: usize) -> (marker: u8)
    ensures
        marker == width_marker(width as nat),
{
    if width == 1 {
        MARKER_INT_8
    } else if width == 2 {
        MARKER_INT_16
    } else if width == 4 {
        MARKER_INT_32
    } else {
        MARKER_INT_64
    }
}

fn width_of_value(value: i64) -> (width: usize)
    ensures
        width == payload_width(value as int),
        is_payload_width(width as nat),
        fits(value as int, width as nat),
{
    proof {
        lemma_radix_powers();
    }
    if -0x80 <= value && value < 0x80 {
        1
    } else if -0x8000 <= value && value < 0x8000 {
        2
    } else if -0x8000_0000 <= value && value < 0x8000_0000 {
        4
    } else {
        8
    }
}

/// The two's complement of `value` in `width` bytes.
fn pattern_of(value: i64, width: usize) -> (pattern: u64)
    requires
        is_payload_width(width as nat),
        fits(value as int, width as nat),
    ensures
        pattern == twos_complement(value as int, width as nat),
{
    proof {
        lemma_radix_powers();
    }
    if value >= 0 {
        value as u64
    } else if width == 1 {
        (value + 0x100) as u64
    } else if width == 2 {
        (value + 0x1_0000) as u64
    } else if width == 4 {
        (value + 0x1_0000_0000) as u64
    } else {
        (value + i64::MAX + 1) as u64 + 0x8000_0000_0000_0000
    }
}

/// The signed number whose two's complement in `width` bytes is `pattern`.
fn signed_of(pattern: u64, width: usize) -> (value: i64)
    requires
        is_payload_width(width as nat),
        pattern < radix_power(width as nat),
    ensures
        value == twos_value(pattern as nat, width as nat),
{
    proof {
        lemma_radix_powers();
    }
    if width == 1 {
        if pattern >= 0x80 {
            pattern as i64 - 0x100
        } else {
            pattern as i64
        }
    } else if width == 2 {
        if pattern >= 0x8000 {
            pattern as i64 - 0x1_0000
        } else {
            pattern as i64
        }
    } else if width == 4 {
        if pattern >= 0x8000_0000 {
            pattern as i64 - 0x1_0000_0000
        } else {
            pattern as i64
        }
    } else {
        if pattern >= 0x8000_0000_0000_0000 {
            (pattern - 0x8000_0000_0000_0000) as i64 + i64::MIN
        } else {
            pattern as i64
        }
    }
}

} // verus!
