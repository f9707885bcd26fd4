//! Points in three-dimensional space: a structure of four fields.

use crate::errors::Error;
use crate::types::float::BoltFloat;
use crate::types::integer::BoltInteger;
use crate::types::Parsed;
use crate::wire::{
    buffer_with_capacity, freeze, peek, put_all, put_byte, remaining, remaining_len, take_byte,
    written,
};
use bytes::Bytes;
use vstd::prelude::*;

verus! {

/// Marker of a structure of four fields.
pub const MARKER: u8 = 0xB4;

/// Signature that tells a point in space from other four-field structures.
pub const SIGNATURE: u8 = 0x59;

/// A point in a three-dimensional coordinate system. `sr_id` names the
/// spatial reference system in which `x`, `y` and `z` are read.
#[derive(Debug, PartialEq, Eq, Clone, Copy, Structural)]
pub struct BoltPoint3D {
    pub sr_id: BoltInteger,
    pub x: BoltFloat,
    pub y: BoltFloat,
    pub z: BoltFloat,
}

impl BoltPoint3D {
    /// The bytes of this point on the wire: marker, signature, then the
    /// fields in the order `sr_id`, `x`, `y`, `z`, each in its own encoding.
    pub open spec fn encoding(self) -> Seq<u8> {
        seq![MARKER, SIGNATURE] + self.sr_id.encoding() + self.x.encoding() + self.y.encoding()
            + self.z.encoding()
    }

    /// Whether `bytes` start with the marker and the signature of a point
    /// in space.
    pub open spec fn accepts(bytes: Seq<u8>) -> bool {
        bytes.len() > 1 && bytes[0] == MARKER && bytes[1] == SIGNATURE
    }

    /// The failure that a header other than that of a point gives: nothing
    /// to read is a truncation, as is the marker alone; any other marker is
    /// reported with the byte that follows it, where there is one, and a
    /// right marker with a wrong signature is reported with both.
    pub open spec fn header_error(bytes: Seq<u8>) -> Error
        recommends
            !Self::accepts(bytes),
    {
        if bytes.len() == 0 {
            Error::Truncated
        } else if bytes.len() == 1 {
            if bytes[0] == MARKER {
                Error::Truncated
            } else {
                Error::InvalidTypeMarker { marker: bytes[0], signature: None }
            }
        } else {
            Error::InvalidTypeMarker { marker: bytes[0], signature: Some(bytes[1]) }
        }
    }

    /// Decoding at the front of `bytes`. A header that is not a point's
    /// leaves all bytes in place. After the header the fields are decoded in
    /// order; the first that fails ends the decoding with its error, and
    /// the bytes left are those from that field on.
    pub open spec fn parse(bytes: Seq<u8>) -> Parsed<BoltPoint3D> {
        if !Self::accepts(bytes) {
            Parsed { result: Err(Self::header_error(bytes)), rest: bytes }
        } else {
            let sr_id = BoltInteger::parse(bytes.skip(2));
            match sr_id.result {
                Err(error) => Parsed { result: Err(error), rest: sr_id.rest },
                Ok(sr_id_value) => {
                    let x = BoltFloat::parse(sr_id.rest);
                    match x.result {
                        Err(error) => Parsed { result: Err(error), rest: x.rest },
                        Ok(x_value) => {
                            let y = BoltFloat::parse(x.rest);
                            match y.result {
                                Err(error) => Parsed { result: Err(error), rest: y.rest },
                                Ok(y_value) => {
                                    let z = BoltFloat::parse(y.rest);
                                    match z.result {
                                        Err(error) => Parsed { result: Err(error), rest: z.rest },
                                        Ok(z_value) => Parsed {
                                            result: Ok(
                                                BoltPoint3D {
                                                    sr_id: sr_id_value,
                                                    x: x_value,
                                                    y: y_value,
                                                    z: z_value,
                                                },
                                            ),
                                            rest: z.rest,
                                        },
                                    }
                                },
                            }
                        },
                    }
                },
            }
        }
    }

    /// An encoded point takes its two header bytes, its reference number
    /// and three times nine bytes for the coordinates.
    pub proof fn lemma_encoding_len(self)
        ensures
            self.encoding().len() == 2 + self.sr_id.encoding().len() + 27,
            30 <= self.encoding().len() <= 38,
    {
        self.sr_id.lemma_encoding_len();
        self.x.lemma_encoding_len();
        self.y.lemma_encoding_len();
        self.z.lemma_encoding_len();
    }

    /// Decoding what was encoded gives the point back, field for field, and
    /// stops where its encoding ends, whatever follows it.
    pub proof fn lemma_round_trip(self, rest: Seq<u8>)
        ensures
            Self::parse(self.encoding() + rest) == (Parsed { result: Ok(self), rest }),
    {
        let bytes = self.encoding() + rest;
        let after_z = rest;
        let after_y = self.z.encoding() + after_z;
        let after_x = self.y.encoding() + after_y;
        let after_sr_id = self.x.encoding() + after_x;
        assert(bytes[0] == MARKER && bytes[1] == SIGNATURE);
        assert(bytes.skip(2) =~= self.sr_id.encoding() + after_sr_id);
        self.sr_id.lemma_round_trip(after_sr_id);
        self.x.lemma_round_trip(after_x);
        self.y.lemma_round_trip(after_y);
        self.z.lemma_round_trip(after_z);
    }

    /// Decoding succeeds only at a point's header. Any other header fails
    /// with nothing consumed, and where its first byte is not the marker,
    /// or its second not the signature, the failure names the bytes seen.
    pub proof fn lemma_parse_agrees_with_accepts(bytes: Seq<u8>)
        ensures
            Self::parse(bytes).result is Ok ==> Self::accepts(bytes),
            !Self::accepts(bytes) ==> Self::parse(bytes).rest == bytes,
            bytes.len() > 0 && bytes[0] != MARKER ==> Self::parse(bytes).result == Err::<
                BoltPoint3D,
                Error,
            >(
                Error::InvalidTypeMarker {
                    marker: bytes[0],
                    signature: if bytes.len() > 1 {
                        Some(bytes[1])
                    } else {
                        None
                    },
                },
            ),
            bytes.len() > 1 && bytes[1] != SIGNATURE ==> Self::parse(bytes).result == Err::<
                BoltPoint3D,
                Error,
            >(Error::InvalidTypeMarker { marker: bytes[0], signature: Some(bytes[1]) }),
    {
    }

    /// Whether the cursor stands at a point in space. Nothing is consumed.
    pub fn can_parse(input: &Bytes) -> (accepted: bool)
        ensures
            accepted == Self::accepts(remaining(*input)),
    {
        remaining_len(input) > 1 && peek(input, 0) == MARKER && peek(input, 1) == SIGNATURE
    }

    /// Decodes the point at the cursor and moves the cursor past what was
    /// decoded.
    pub fn try_from(input: &mut Bytes) -> (result: Result<BoltPoint3D, Error>)
        ensures
            result == Self::parse(remaining(*old(input))).result,
            remaining(*final(input)) == Self::parse(remaining(*old(input))).rest,
    {
        let available = remaining_len(input);
        if available == 0 {
            return Err(Error::Truncated);
        }
        let marker = peek(input, 0);
        if available == 1 {
            if marker == MARKER {
                return Err(Error::Truncated);
            }
            return Err(Error::InvalidTypeMarker { marker, signature: None });
        }
        let tag = peek(input, 1);
        if marker != MARKER || tag != SIGNATURE {
            return Err(Error::InvalidTypeMarker { marker, signature: Some(tag) });
        }
        let ghost start = remaining(*input);
        let _ = take_byte(input);
        let _ = take_byte(input);
        assert(remaining(*input) =~= start.skip(2));
        let sr_id = match BoltInteger::try_from(input) {
            Ok(sr_id) => sr_id,
            Err(error) => {
                return Err(error);
            },
        };
        let x = match BoltFloat::try_from(input) {
            Ok(x) => x,
            Err(error) => {
                return Err(error);
            },
        };
        let y = match BoltFloat::try_from(input) {
            Ok(y) => y,
            Err(error) => {
                return Err(error);
            },
        };
        let z = match BoltFloat::try_from(input) {
            Ok(z) => z,
            Err(error) => {
                return Err(error);
            },
        };
        Ok(BoltPoint3D { sr_id, x, y, z })
    }

    /// Encodes this point. The result is always `Ok`.
    pub fn try_into(self) -> (result: Result<Bytes, Error>)
        ensures
            result matches Ok(output) && remaining(output) == self.encoding(),
    {
        let sr_id = match self.sr_id.try_into() {
            Ok(bytes) => bytes,
            Err(error) => {
                return Err(error);
            },
        };
        let x = match self.x.try_into() {
            Ok(bytes) => bytes,
            Err(error) => {
                return Err(error);
            },
        };
        let y = match self.y.try_into() {
            Ok(bytes) => bytes,
            Err(error) => {
                return Err(error);
            },
        };
        let z = match self.z.try_into() {
            Ok(bytes) => bytes,
            Err(error) => {
                return Err(error);
            },
        };
        proof {
            self.sr_id.lemma_encoding_len();
            self.x.lemma_encoding_len();
            self.y.lemma_encoding_len();
            self.z.lemma_encoding_len();
        }
        let capacity = 2 + remaining_len(&sr_id) + remaining_len(&x) + remaining_len(&y)
            + remaining_len(&z);
        let mut buffer = buffer_with_capacity(capacity);
        put_byte(&mut buffer, MARKER);
        put_byte(&mut buffer, SIGNATURE);
        put_all(&mut buffer, sr_id);
        put_all(&mut buffer, x);
        put_all(&mut buffer, y);
        put_all(&mut buffer, z);
        assert(written(buffer) =~= self.encoding());
        Ok(freeze(buffer))
    }
}

} // verus!
