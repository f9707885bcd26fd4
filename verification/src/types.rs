//! The protocol's values and their wire forms.
//!
//! Every kind of value starts with a marker byte of its own; a structure
//! adds a signature byte. Encoding writes marker, signature and fields in a
//! fixed order; decoding reads them back from the front of a cursor.

use crate::errors::Error;
use crate::types::float::BoltFloat;
use crate::types::integer::BoltInteger;
use crate::types::point3d::BoltPoint3D;
use crate::wire::remaining;
use bytes::Bytes;
use vstd::prelude::*;

pub mod float;
pub mod integer;
pub mod point3d;

verus! {

/// What decoding at the front of a byte sequence yields, together with the
/// bytes that the cursor holds afterwards.
pub struct Parsed<T> {
    pub result: Result<T, Error>,
    pub rest: Seq<u8>,
}

/// A value of any of the kinds that this crate knows.
#[derive(Debug, PartialEq, Eq, Clone, Copy, Structural)]
pub enum Value {
    Integer(BoltInteger),
    Float(BoltFloat),
    Point3D(BoltPoint3D),
}

/// No two kinds of value start alike: of any bytes, at most one kind's
/// `can_parse` says yes.
pub proof fn lemma_kinds_are_told_apart(bytes: Seq<u8>)
    ensures
        !(BoltInteger::accepts(bytes) && BoltFloat::accepts(bytes)),
        !(BoltInteger::accepts(bytes) && BoltPoint3D::accepts(bytes)),
        !(BoltFloat::accepts(bytes) && BoltPoint3D::accepts(bytes)),
{
}

impl Value {
    /// The bytes of this value on the wire: those of its kind.
    pub open spec fn encoding(self) -> Seq<u8> {
        match self {
            Value::Integer(integer) => integer.encoding(),
            Value::Float(float) => float.encoding(),
            Value::Point3D(point) => point.encoding(),
        }
    }

    /// Whether `bytes` start as a value of a known kind does.
    pub open spec fn accepts(bytes: Seq<u8>) -> bool {
        BoltInteger::accepts(bytes) || BoltFloat::accepts(bytes) || BoltPoint3D::accepts(bytes)
    }

    /// Decoding at the front of `bytes`: the kind that accepts the bytes
    /// decodes them. Bytes that no kind accepts fail as a header that is not
    /// a point's does, with nothing consumed.
    pub open spec fn parse(bytes: Seq<u8>) -> Parsed<Value> {
        if BoltInteger::accepts(bytes) {
            let parsed = BoltInteger::parse(bytes);
            Parsed {
                result: match parsed.result {
                    Ok(integer) => Ok(Value::Integer(integer)),
                    Err(error) => Err(error),
                },
                rest: parsed.rest,
            }
        } else if BoltFloat::accepts(bytes) {
            let parsed = BoltFloat::parse(bytes);
            Parsed {
                result: match parsed.result {
                    Ok(float) => Ok(Value::Float(float)),
                    Err(error) => Err(error),
                },
                rest: parsed.rest,
            }
        } else {
            let parsed = BoltPoint3D::parse(bytes);
            Parsed {
                result: match parsed.result {
                    Ok(point) => Ok(Value::Point3D(point)),
                    Err(error) => Err(error),
                },
                rest: parsed.rest,
            }
        }
    }

    /// Decoding what was encoded gives the value back, of whatever kind it
    /// is, and stops where its encoding ends, whatever follows it.
    pub proof fn lemma_round_trip(self, rest: Seq<u8>)
        ensures
            Self::parse(self.encoding() + rest) == (Parsed { result: Ok(self), rest }),
    {
        let bytes = self.encoding() + rest;
        lemma_kinds_are_told_apart(bytes);
        match self {
            Value::Integer(integer) => {
                integer.lemma_round_trip(rest);
                BoltInteger::lemma_parse_agrees_with_accepts(bytes);
            },
            Value::Float(float) => {
                float.lemma_round_trip(rest);
                BoltFloat::lemma_parse_agrees_with_accepts(bytes);
            },
            Value::Point3D(point) => {
                point.lemma_round_trip(rest);
                BoltPoint3D::lemma_parse_agrees_with_accepts(bytes);
            },
        }
    }

    /// Bytes that start with a marker of no known kind, or with the marker
    /// of a structure and a signature of no known kind, fail to decode; the
    /// failure names the marker and, where a byte follows it, that byte,
    /// and nothing is consumed.
    pub proof fn lemma_unknown_marker_is_rejected(bytes: Seq<u8>)
        requires
            bytes.len() > 0,
            !Self::accepts(bytes),
            bytes.len() > 1 || bytes[0] != point3d::MARKER,
        ensures
            Self::parse(bytes) == (Parsed {
                result: Err::<Value, Error>(
                    Error::InvalidTypeMarker {
                        marker: bytes[0],
                        signature: if bytes.len() > 1 {
                            Some(bytes[1])
                        } else {
                            None
                        },
                    },
                ),
                rest: bytes,
            }),
    {
    }

    /// Whether the cursor stands at a value of a known kind. Nothing is
    /// consumed.
    pub fn can_parse(input: &Bytes) -> (accepted: bool)
        ensures
            accepted == Self::accepts(remaining(*input)),
    {
        BoltInteger::can_parse(input) || BoltFloat::can_parse(input) || BoltPoint3D::can_parse(
            input,
        )
    }

    /// Decodes the value at the cursor, of whatever kind it is, and moves
    /// the cursor past what was decoded.
    pub fn try_from(input: &mut Bytes) -> (result: Result<Value, Error>)
        ensures
            result == Self::parse(remaining(*old(input))).result,
            remaining(*final(input)) == Self::parse(remaining(*old(input))).rest,
    {
        if BoltInteger::can_parse(input) {
            match BoltInteger::try_from(input) {
                Ok(integer) => Ok(Value::Integer(integer)),
                Err(error) => Err(error),
            }
        } else if BoltFloat::can_parse(input) {
            match BoltFloat::try_from(input) {
                Ok(float) => Ok(Value::Float(float)),
                Err(error) => Err(error),
            }
        } else {
            match BoltPoint3D::try_from(input) {
                Ok(point) => Ok(Value::Point3D(point)),
                Err(error) => Err(error),
            }
        }
    }

    /// Encodes this value. The result is always `Ok`.
    pub fn try_into(self) -> (result: Result<Bytes, Error>)
        ensures
            result matches Ok(output) && remaining(output) == self.encoding(),
    {
        match self {
            Value::Integer(integer) => integer.try_into(),
            Value::Float(float) => float.try_into(),
            Value::Point3D(point) => point.try_into(),
        }
    }
}

} // verus!
