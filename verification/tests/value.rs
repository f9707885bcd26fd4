use bolt_client::errors::Error;
use bolt_client::types::float::BoltFloat;
use bolt_client::types::integer::BoltInteger;
use bolt_client::types::point3d::BoltPoint3D;
use bolt_client::types::Value;
use bolt_client::wire::{from_slice, to_vec};
use bytes::Bytes;

#[test]
fn value_decodes_the_kind_that_the_marker_names() {
    let mut input = Bytes::from_static(&[
        0x2A, 0xC1, 0x3F, 0xF0, 0x00, 0x00, 0x00, 0x00, 0x00, 0x00, 0xB4, 0x59, 0x00, 0xC1, 0, 0,
        0, 0, 0, 0, 0, 0, 0xC1, 0, 0, 0, 0, 0, 0, 0, 0, 0xC1, 0, 0, 0, 0, 0, 0, 0, 0,
    ]);
    assert_eq!(Value::try_from(&mut input), Ok(Value::Integer(BoltInteger::new(42))));
    assert_eq!(
        Value::try_from(&mut input),
        Ok(Value::Float(BoltFloat::from_bits(1.0_f64.to_bits())))
    );
    assert_eq!(
        Value::try_from(&mut input),
        Ok(Value::Point3D(BoltPoint3D {
            sr_id: BoltInteger::new(0),
            x: BoltFloat::from_bits(0),
            y: BoltFloat::from_bits(0),
            z: BoltFloat::from_bits(0),
        }))
    );
    assert_eq!(input.len(), 0);
    assert_eq!(Value::try_from(&mut input), Err(Error::Truncated));
}

#[test]
fn value_round_trips_for_every_kind() {
    let values = [
        Value::Integer(BoltInteger::new(-70_000)),
        Value::Float(BoltFloat::from_bits(2.5_f64.to_bits())),
        Value::Point3D(BoltPoint3D {
            sr_id: BoltInteger::new(4979),
            x: BoltFloat::from_bits(1.0_f64.to_bits()),
            y: BoltFloat::from_bits(2.0_f64.to_bits()),
            z: BoltFloat::from_bits(3.0_f64.to_bits()),
        }),
    ];
    for value in values {
        let mut bytes = value.try_into().unwrap();
        assert!(Value::can_parse(&bytes));
        assert_eq!(Value::try_from(&mut bytes), Ok(value));
        assert_eq!(bytes.len(), 0);
    }
}

#[test]
fn only_one_kind_accepts_an_encoding() {
    let integer = BoltInteger::new(1000).try_into().unwrap();
    let float = BoltFloat::from_bits(1000.0_f64.to_bits()).try_into().unwrap();
    let point = BoltPoint3D {
        sr_id: BoltInteger::new(1),
        x: BoltFloat::from_bits(0),
        y: BoltFloat::from_bits(0),
        z: BoltFloat::from_bits(0),
    }
    .try_into()
    .unwrap();
    assert!(BoltInteger::can_parse(&integer));
    assert!(!BoltFloat::can_parse(&integer));
    assert!(!BoltPoint3D::can_parse(&integer));
    assert!(!BoltInteger::can_parse(&float));
    assert!(BoltFloat::can_parse(&float));
    assert!(!BoltPoint3D::can_parse(&float));
    assert!(!BoltInteger::can_parse(&point));
    assert!(!BoltFloat::can_parse(&point));
    assert!(BoltPoint3D::can_parse(&point));
}

#[test]
fn value_rejects_every_unknown_marker() {
    for marker in 0x80_u8..=0xEF {
        if marker == 0xC1 || (0xC8..=0xCB).contains(&marker) {
            continue;
        }
        let mut alone = from_slice(&[marker, 0x00]);
        assert!(!Value::can_parse(&alone));
        assert_eq!(
            Value::try_from(&mut alone),
            Err(Error::InvalidTypeMarker { marker, signature: Some(0x00) })
        );
        assert_eq!(alone.len(), 2);
    }
    let mut single = Bytes::from_static(&[0x80]);
    assert_eq!(
        Value::try_from(&mut single),
        Err(Error::InvalidTypeMarker { marker: 0x80, signature: None })
    );
}

#[test]
fn slices_become_cursors_and_back() {
    let data = [0xB4_u8, 0x59, 0x00, 0xFF];
    let input = from_slice(&data);
    assert_eq!(input, Bytes::from_static(&[0xB4, 0x59, 0x00, 0xFF]));
    assert_eq!(to_vec(&input), vec![0xB4, 0x59, 0x00, 0xFF]);
    assert_eq!(input.len(), 4);
    assert_eq!(from_slice(&[]).len(), 0);
    assert_eq!(to_vec(&Bytes::new()), Vec::<u8>::new());
}
