use sky_clock::binary32::Binary32;
use sky_clock::single::{Single, Value};

fn decode(x: f32) -> Value {
    Single { bits: x.to_bits() }.decode()
}

#[test]
fn decodes_each_kind_of_number() {
    let finite = |negative: bool, mant: u32, exponent: i32| Value::Finite {
        negative,
        mant,
        exponent,
    };
    assert_eq!(decode(0.0), finite(false, 0, -149));
    assert_eq!(decode(-0.0), finite(true, 0, -149));
    assert_eq!(decode(1.0), finite(false, 8388608, -23));
    assert_eq!(decode(-0.75), finite(true, 12582912, -24));
    assert_eq!(decode(f32::from_bits(1)), finite(false, 1, -149));
    assert_eq!(decode(f32::MIN_POSITIVE), finite(false, 8388608, -149));
    assert_eq!(decode(f32::MAX), finite(false, 16777215, 104));
    assert_eq!(decode(f32::INFINITY), Value::Infinite { negative: false });
    assert_eq!(decode(f32::NEG_INFINITY), Value::Infinite { negative: true });
    assert_eq!(decode(f32::NAN), Value::NotANumber);
}

#[test]
fn encodes_what_it_decodes() {
    let mut bits = 0u32;
    while bits < 0x4b80_0000 {
        let single = Single { bits };
        match single.decode() {
            Value::Finite { negative, mant, exponent } => {
                assert!(!negative && exponent <= 0);
                let scale = (-exponent) as u32;
                assert_eq!(Single::encode(Binary32 { mant, scale }), single);
            }
            other => panic!("{:?}", other),
        }
        bits += 10007;
    }
}

#[test]
fn encodes_numbers_that_are_not_normalised() {
    assert_eq!(Single::encode(Binary32 { mant: 0, scale: 7 }).bits, 0);
    assert_eq!(Single::encode(Binary32 { mant: 1, scale: 0 }).bits, 1.0f32.to_bits());
    assert_eq!(Single::encode(Binary32 { mant: 3, scale: 2 }).bits, 0.75f32.to_bits());
    assert_eq!(
        Single::encode(Binary32 { mant: 16777216, scale: 25 }).bits,
        0.5f32.to_bits()
    );
    assert_eq!(
        Single::encode(Binary32 { mant: 16777215, scale: 0 }).bits,
        16777215.0f32.to_bits()
    );
    assert_eq!(Single::encode(Binary32 { mant: 5, scale: 149 }).bits, 5);
}
