use bolt_client::errors::Error;
use bolt_client::types::integer::{
    BoltInteger, MARKER_INT_16, MARKER_INT_32, MARKER_INT_64, MARKER_INT_8,
};
use bytes::Bytes;

#[test]
fn integer_markers_are_the_protocols() {
    assert_eq!(MARKER_INT_8, 0xC8);
    assert_eq!(MARKER_INT_16, 0xC9);
    assert_eq!(MARKER_INT_32, 0xCA);
    assert_eq!(MARKER_INT_64, 0xCB);
}

#[test]
fn tiny_integers_are_one_byte() {
    assert_eq!(BoltInteger::new(42).try_into().unwrap(), Bytes::from_static(&[0x2A]));
    assert_eq!(BoltInteger::new(0).try_into().unwrap(), Bytes::from_static(&[0x00]));
    assert_eq!(BoltInteger::new(127).try_into().unwrap(), Bytes::from_static(&[0x7F]));
    assert_eq!(BoltInteger::new(-1).try_into().unwrap(), Bytes::from_static(&[0xFF]));
    assert_eq!(BoltInteger::new(-16).try_into().unwrap(), Bytes::from_static(&[0xF0]));
}

#[test]
fn one_byte_integers_follow_their_marker() {
    assert_eq!(BoltInteger::new(-17).try_into().unwrap(), Bytes::from_static(&[0xC8, 0xEF]));
    assert_eq!(BoltInteger::new(-128).try_into().unwrap(), Bytes::from_static(&[0xC8, 0x80]));
}

#[test]
fn two_byte_integers_are_big_endian() {
    assert_eq!(
        BoltInteger::new(128).try_into().unwrap(),
        Bytes::from_static(&[0xC9, 0x00, 0x80])
    );
    assert_eq!(
        BoltInteger::new(-129).try_into().unwrap(),
        Bytes::from_static(&[0xC9, 0xFF, 0x7F])
    );
    assert_eq!(
        BoltInteger::new(0x1234).try_into().unwrap(),
        Bytes::from_static(&[0xC9, 0x12, 0x34])
    );
    assert_eq!(
        BoltInteger::new(32767).try_into().unwrap(),
        Bytes::from_static(&[0xC9, 0x7F, 0xFF])
    );
    assert_eq!(
        BoltInteger::new(-32768).try_into().unwrap(),
        Bytes::from_static(&[0xC9, 0x80, 0x00])
    );
}

#[test]
fn four_byte_integers_are_big_endian() {
    assert_eq!(
        BoltInteger::new(32768).try_into().unwrap(),
        Bytes::from_static(&[0xCA, 0x00, 0x00, 0x80, 0x00])
    );
    assert_eq!(
        BoltInteger::new(-32769).try_into().unwrap(),
        Bytes::from_static(&[0xCA, 0xFF, 0xFF, 0x7F, 0xFF])
    );
    assert_eq!(
        BoltInteger::new(0x1234_5678).try_into().unwrap(),
        Bytes::from_static(&[0xCA, 0x12, 0x34, 0x56, 0x78])
    );
    assert_eq!(
        BoltInteger::new(-2_147_483_648).try_into().unwrap(),
        Bytes::from_static(&[0xCA, 0x80, 0x00, 0x00, 0x00])
    );
}

#[test]
fn eight_byte_integers_are_big_endian() {
    assert_eq!(
        BoltInteger::new(2_147_483_648).try_into().unwrap(),
        Bytes::from_static(&[0xCB, 0x00, 0x00, 0x00, 0x00, 0x80, 0x00, 0x00, 0x00])
    );
    assert_eq!(
        BoltInteger::new(-2_147_483_649).try_into().unwrap(),
        Bytes::from_static(&[0xCB, 0xFF, 0xFF, 0xFF, 0xFF, 0x7F, 0xFF, 0xFF, 0xFF])
    );
    assert_eq!(
        BoltInteger::new(0x0102_0304_0506_0708).try_into().unwrap(),
        Bytes::from_static(&[0xCB, 0x01, 0x02, 0x03, 0x04, 0x05, 0x06, 0x07, 0x08])
    );
    assert_eq!(
        BoltInteger::new(i64::MAX).try_into().unwrap(),
        Bytes::from_static(&[0xCB, 0x7F, 0xFF, 0xFF, 0xFF, 0xFF, 0xFF, 0xFF, 0xFF])
    );
    assert_eq!(
        BoltInteger::new(i64::MIN).try_into().unwrap(),
        Bytes::from_static(&[0xCB, 0x80, 0x00, 0x00, 0x00, 0x00, 0x00, 0x00, 0x00])
    );
}

#[test]
fn integers_round_trip_at_every_boundary() {
    let values: [i64; 23] = [
        0,
        1,
        -1,
        42,
        -16,
        -17,
        127,
        128,
        -128,
        -129,
        255,
        256,
        32767,
        32768,
        -32768,
        -32769,
        65535,
        2_147_483_647,
        2_147_483_648,
        -2_147_483_648,
        -2_147_483_649,
        i64::MAX,
        i64::MIN,
    ];
    for value in values {
        let mut bytes = BoltInteger::new(value).try_into().unwrap();
        assert!(BoltInteger::can_parse(&bytes));
        let back = BoltInteger::try_from(&mut bytes).unwrap();
        assert_eq!(back.value, value);
        assert_eq!(bytes.len(), 0);
    }
}

#[test]
fn integer_decoding_takes_any_width_and_leaves_the_rest() {
    let mut wide_one = Bytes::from_static(&[0xC9, 0x00, 0x01, 0x07]);
    assert_eq!(BoltInteger::try_from(&mut wide_one), Ok(BoltInteger::new(1)));
    assert_eq!(wide_one, Bytes::from_static(&[0x07]));

    let mut minus_two = Bytes::from_static(&[0xCB, 0xFF, 0xFF, 0xFF, 0xFF, 0xFF, 0xFF, 0xFF, 0xFE]);
    assert_eq!(BoltInteger::try_from(&mut minus_two), Ok(BoltInteger::new(-2)));

    let mut tiny = Bytes::from_static(&[0xF0, 0x2A]);
    assert_eq!(BoltInteger::try_from(&mut tiny), Ok(BoltInteger::new(-16)));
    assert_eq!(BoltInteger::try_from(&mut tiny), Ok(BoltInteger::new(42)));
    assert_eq!(tiny.len(), 0);
}

#[test]
fn integer_can_parse_knows_its_markers() {
    assert!(BoltInteger::can_parse(&Bytes::from_static(&[0x00])));
    assert!(BoltInteger::can_parse(&Bytes::from_static(&[0x7F])));
    assert!(BoltInteger::can_parse(&Bytes::from_static(&[0xF0])));
    assert!(BoltInteger::can_parse(&Bytes::from_static(&[0xFF])));
    assert!(BoltInteger::can_parse(&Bytes::from_static(&[0xC8])));
    assert!(BoltInteger::can_parse(&Bytes::from_static(&[0xCB])));
    assert!(!BoltInteger::can_parse(&Bytes::from_static(&[0x80])));
    assert!(!BoltInteger::can_parse(&Bytes::from_static(&[0xEF])));
    assert!(!BoltInteger::can_parse(&Bytes::from_static(&[0xC1])));
    assert!(!BoltInteger::can_parse(&Bytes::from_static(&[0xC7])));
    assert!(!BoltInteger::can_parse(&Bytes::from_static(&[0xCC])));
    assert!(!BoltInteger::can_parse(&Bytes::from_static(&[0xB4, 0x59])));
    assert!(!BoltInteger::can_parse(&Bytes::new()));
}

#[test]
fn integer_rejects_an_unknown_marker() {
    let mut input = Bytes::from_static(&[0x80, 0x01]);
    assert_eq!(
        BoltInteger::try_from(&mut input),
        Err(Error::InvalidTypeMarker { marker: 0x80, signature: None })
    );
    assert_eq!(input.len(), 2);
}

#[test]
fn integer_cut_short_is_truncated_and_nothing_is_consumed() {
    let mut empty = Bytes::new();
    assert_eq!(BoltInteger::try_from(&mut empty), Err(Error::Truncated));

    let mut short = Bytes::from_static(&[0xCA, 0x00, 0x00, 0x80]);
    assert_eq!(BoltInteger::try_from(&mut short), Err(Error::Truncated));
    assert_eq!(short.len(), 4);

    let mut marker_only = Bytes::from_static(&[0xC8]);
    assert_eq!(BoltInteger::try_from(&mut marker_only), Err(Error::Truncated));
    assert_eq!(marker_only.len(), 1);
}
