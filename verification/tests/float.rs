use bolt_client::errors::Error;
use bolt_client::types::float::{BoltFloat, MARKER};
use bytes::Bytes;

#[test]
fn float_is_marker_and_eight_big_endian_bytes() {
    assert_eq!(MARKER, 0xC1);
    assert_eq!(
        BoltFloat::from_bits(1.0_f64.to_bits()).try_into().unwrap(),
        Bytes::from_static(&[0xC1, 0x3F, 0xF0, 0x00, 0x00, 0x00, 0x00, 0x00, 0x00])
    );
    assert_eq!(
        BoltFloat::from_bits(1.2_f64.to_bits()).try_into().unwrap(),
        Bytes::from_static(&[0xC1, 0x3F, 0xF3, 0x33, 0x33, 0x33, 0x33, 0x33, 0x33])
    );
    assert_eq!(
        BoltFloat::from_bits(0x0102_0304_0506_0708).try_into().unwrap(),
        Bytes::from_static(&[0xC1, 0x01, 0x02, 0x03, 0x04, 0x05, 0x06, 0x07, 0x08])
    );
}

#[test]
fn float_round_trips_bit_for_bit() {
    let values: [f64; 8] =
        [0.0, -0.0, 1.0, -1.5, f64::MAX, f64::MIN_POSITIVE, f64::INFINITY, f64::NEG_INFINITY];
    for value in values {
        let float = BoltFloat::from_bits(value.to_bits());
        let mut bytes = float.try_into().unwrap();
        assert_eq!(bytes.len(), 9);
        assert!(BoltFloat::can_parse(&bytes));
        let back = BoltFloat::try_from(&mut bytes).unwrap();
        assert_eq!(back, float);
        assert_eq!(back.to_bits(), value.to_bits());
        assert_eq!(bytes.len(), 0);
    }
    let nan = BoltFloat::from_bits(f64::NAN.to_bits());
    let mut bytes = nan.try_into().unwrap();
    assert_eq!(BoltFloat::try_from(&mut bytes), Ok(nan));
}

#[test]
fn float_decoding_leaves_the_rest() {
    let mut input =
        Bytes::from_static(&[0xC1, 0x40, 0x08, 0x00, 0x00, 0x00, 0x00, 0x00, 0x00, 0x2A]);
    let float = BoltFloat::try_from(&mut input).unwrap();
    assert_eq!(f64::from_bits(float.to_bits()), 3.0);
    assert_eq!(input, Bytes::from_static(&[0x2A]));
}

#[test]
fn float_can_parse_knows_its_marker() {
    assert!(BoltFloat::can_parse(&Bytes::from_static(&[0xC1])));
    assert!(!BoltFloat::can_parse(&Bytes::from_static(&[0xC0])));
    assert!(!BoltFloat::can_parse(&Bytes::from_static(&[0x2A])));
    assert!(!BoltFloat::can_parse(&Bytes::new()));
}

#[test]
fn float_rejects_another_marker() {
    let mut input = Bytes::from_static(&[0xC2, 0, 0, 0, 0, 0, 0, 0, 0]);
    assert_eq!(
        BoltFloat::try_from(&mut input),
        Err(Error::InvalidTypeMarker { marker: 0xC2, signature: None })
    );
    assert_eq!(input.len(), 9);
}

#[test]
fn float_cut_short_is_truncated_and_nothing_is_consumed() {
    let mut empty = Bytes::new();
    assert_eq!(BoltFloat::try_from(&mut empty), Err(Error::Truncated));
    let mut short = Bytes::from_static(&[0xC1, 0x3F, 0xF0, 0x00, 0x00, 0x00, 0x00, 0x00]);
    assert_eq!(BoltFloat::try_from(&mut short), Err(Error::Truncated));
    assert_eq!(short.len(), 8);
}
