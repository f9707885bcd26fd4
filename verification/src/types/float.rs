//! Double-precision floating-point numbers, held as their IEEE-754 bits.

use crate::errors::Error;
use crate::types::Parsed;
use crate::wire::{
    be_bytes, be_value, buffer_with_capacity, freeze, lemma_be_bytes_len, lemma_be_round_trip,
    lemma_radix_powers, peek, put_be, put_byte, remaining, remaining_len, take_be, take_byte, written,
};
use bytes::Bytes;
use vstd::prelude::*;

verus! {

/// Marker of a floating-point number.
pub const MARKER: u8 = 0xC1;

/// A floating-point number of the protocol. `bits` is the number's 64-bit
/// IEEE-754 pattern, as `f64::to_bits` gives it and `f64::from_bits` takes
/// it; two values are equal when their patterns are.
#[derive(Debug, PartialEq, Eq, Clone, Copy, Structural)]
pub struct BoltFloat {
    pub bits: u64,
}

impl BoltFloat {
    /// The bytes of this number on the wire: the marker, then the pattern,
    /// most significant byte first.
    pub open spec fn encoding(self) -> Seq<u8> {
        seq![MARKER] + be_bytes(self.bits as nat, 8)
    }

    /// Whether `bytes` start with the marker of a floating-point number.
    pub open spec fn accepts(bytes: Seq<u8>) -> bool {
        bytes.len() > 0 && bytes[0] == MARKER
    }

    /// Decoding at the front of `bytes`. A failure leaves all bytes in
    /// place.
    pub open spec fn parse(bytes: Seq<u8>) -> Parsed<BoltFloat> {
        if bytes.len() == 0 {
            Parsed { result: Err(Error::Truncated), rest: bytes }
        } else if bytes[0] != MARKER {
            Parsed {
                result: Err(Error::InvalidTypeMarker { marker: bytes[0], signature: None }),
                rest: bytes,
            }
        } else if bytes.len() < 9 {
            Parsed { result: Err(Error::Truncated), rest: bytes }
        } else {
            Parsed {
                result: Ok(BoltFloat { bits: be_value(bytes.subrange(1, 9)) as u64 }),
                rest: bytes.skip(9),
            }
        }
    }

    /// An encoded number takes nine bytes.
    pub proof fn lemma_encoding_len(self)
        ensures
            self.encoding().len() == 9,
    {
        lemma_be_bytes_len(self.bits as nat, 8);
    }

    /// Decoding what was encoded gives the number back, bit for bit, and
    /// stops where its encoding ends, whatever follows it.
    pub proof fn lemma_round_trip(self, rest: Seq<u8>)
        ensures
            Self::parse(self.encoding() + rest) == (Parsed { result: Ok(self), rest }),
    {
        let bytes = self.encoding() + rest;
        lemma_radix_powers();
        lemma_be_bytes_len(self.bits as nat, 8);
        lemma_be_round_trip(self.bits as nat, 8);
        assert(bytes[0] == MARKER);
        assert(bytes.subrange(1, 9) =~= be_bytes(self.bits as nat, 8));
        assert(bytes.skip(9) =~= rest);
    }

    /// Decoding succeeds only at the marker and, where it fails, consumes
    /// nothing; at any other first byte it fails with that byte as the
    /// offending marker.
    pub proof fn lemma_parse_agrees_with_accepts(bytes: Seq<u8>)
        ensures
            Self::parse(bytes).result is Ok ==> Self::accepts(bytes),
            Self::parse(bytes).result is Err ==> Self::parse(bytes).rest == bytes,
            bytes.len() > 0 && !Self::accepts(bytes) ==> Self::parse(bytes).result == Err::<
                BoltFloat,
                Error,
            >(Error::InvalidTypeMarker { marker: bytes[0], signature: None }),
    {
    }

    /// The number whose IEEE-754 pattern is `bits`.
    pub fn from_bits(bits: u64) -> (float: BoltFloat)
        ensures
            float.bits == bits,
    {
        BoltFloat { bits }
    }

    /// The IEEE-754 pattern of this number.
    pub fn to_bits(&self) -> (bits: u64)
        ensures
            bits == self.bits,
    {
        self.bits
    }

    /// Whether the cursor stands at a floating-point number. Nothing is
    /// consumed.
    pub fn can_parse(input: &Bytes) -> (accepted: bool)
        ensures
            accepted == Self::accepts(remaining(*input)),
    {
        remaining_len(input) > 0 && peek(input, 0) == MARKER
    }

    /// Decodes the number at the cursor and moves the cursor past it. On
    /// failure the cursor stays where it was.
    pub fn try_from(input: &mut Bytes) -> (result: Result<BoltFloat, Error>)
        ensures
            result == Self::parse(remaining(*old(input))).result,
            remaining(*final(input)) == Self::parse(remaining(*old(input))).rest,
    {
        let available = remaining_len(input);
        if available == 0 {
            return Err(Error::Truncated);
        }
        let marker = peek(input, 0);
        if marker != MARKER {
            return Err(Error::InvalidTypeMarker { marker, signature: None });
        }
        if available < 9 {
            return Err(Error::Truncated);
        }
        let ghost start = remaining(*input);
        let _ = take_byte(input);
        let bits = take_be(input, 8);
        proof {
            assert(start.skip(1).take(8) =~= start.subrange(1, 9));
            assert(start.skip(1).skip(8) =~= start.skip(9));
        }
        Ok(BoltFloat { bits })
    }

    /// Encodes this number. The result is always `Ok`.
    pub fn try_into(self) -> (result: Result<Bytes, Error>)
        ensures
            result matches Ok(output) && remaining(output) == self.encoding(),
    {
        let mut buffer = buffer_with_capacity(9);
        put_byte(&mut buffer, MARKER);
        put_be(&mut buffer, self.bits, 8);
        assert(written(buffer) =~= self.encoding());
        Ok(freeze(buffer))
    }
}

} // verus!
