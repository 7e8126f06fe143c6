use cocotools::binary64::Binary64;

fn number(value: f64) -> Binary64 {
    Binary64::from_bits(value.to_bits())
}

fn samples() -> Vec<f64> {
    let mut values = vec![
        0.0,
        -0.0,
        0.5,
        -0.5,
        0.999_999_999,
        1.0,
        -1.0,
        1.5,
        -1.5,
        2.0,
        510.66,
        423.01,
        71436.89385,
        2147483646.5,
        2147483647.0,
        2147483647.5,
        2147483648.0,
        -2147483648.0,
        -2147483648.5,
        -2147483649.0,
        4294967295.0,
        4294967295.5,
        4294967296.0,
        1e15,
        -1e15,
        1e300,
        -1e300,
        f64::MIN_POSITIVE,
        5e-324,
        f64::MAX,
        f64::MIN,
        f64::INFINITY,
        f64::NEG_INFINITY,
        f64::NAN,
        -f64::NAN,
    ];
    let mut state: u64 = 0x9E37_79B9_7F4A_7C15;
    for _ in 0..2000 {
        state ^= state << 13;
        state ^= state >> 7;
        state ^= state << 17;
        values.push(f64::from_bits(state));
        values.push((state % 10_000_000) as f64 / 37.0 - 100_000.0);
    }
    values
}

#[test]
fn to_i32_is_the_cast() {
    for value in samples() {
        assert_eq!(number(value).to_i32(), value as i32, "{value}");
    }
}

#[test]
fn to_u32_is_the_cast() {
    for value in samples() {
        assert_eq!(number(value).to_u32(), value as u32, "{value}");
    }
}

#[test]
fn to_i32_rounds_toward_zero() {
    assert_eq!(number(1.9).to_i32(), 1);
    assert_eq!(number(-1.9).to_i32(), -1);
    assert_eq!(number(f64::NAN).to_i32(), 0);
    assert_eq!(number(1e10).to_i32(), i32::MAX);
    assert_eq!(number(-1e10).to_i32(), i32::MIN);
    assert_eq!(number(-3.0).to_u32(), 0);
    assert_eq!(number(1e10).to_u32(), u32::MAX);
}

#[test]
fn from_u32_is_exact() {
    let mut values = vec![0u32, 1, 2, 3, 4, 5, 7, 8, 255, 256, 640, 1190, 65535, 65536];
    values.extend([u32::MAX, u32::MAX - 1, 1 << 31, (1 << 31) - 1, (1 << 31) + 1]);
    let mut state: u32 = 2_463_534_242;
    for _ in 0..2000 {
        state ^= state << 13;
        state ^= state >> 17;
        state ^= state << 5;
        values.push(state);
    }
    for value in values {
        assert_eq!(Binary64::from_u32(value).to_bits(), f64::from(value).to_bits(), "{value}");
        assert_eq!(Binary64::from_u32(value).to_u32(), value);
    }
}

#[test]
fn from_u32_of_one() {
    assert_eq!(Binary64::from_u32(1).to_bits(), 0x3FF0_0000_0000_0000);
    assert_eq!(Binary64::from_u32(0).to_bits(), 0);
}

#[test]
fn value_eq_is_equality_of_numbers() {
    let values = samples();
    for (i, a) in values.iter().enumerate().take(120) {
        for b in values.iter().skip(i / 2).take(60) {
            assert_eq!(number(*a).value_eq(number(*b)), a == b, "{a} {b}");
        }
    }
    assert!(number(0.0).value_eq(number(-0.0)));
    assert!(!number(f64::NAN).value_eq(number(f64::NAN)));
}

#[test]
fn total_le_is_the_total_order() {
    let values = samples();
    for (i, a) in values.iter().enumerate().take(150) {
        for b in values.iter().skip(i / 3).take(80) {
            let expected = a.total_cmp(b) != std::cmp::Ordering::Greater;
            assert_eq!(number(*a).total_le(number(*b)), expected, "{a} {b}");
        }
    }
    assert!(number(-0.0).total_le(number(0.0)));
    assert!(!number(0.0).total_le(number(-0.0)));
}

#[test]
fn nan_is_told() {
    assert!(number(f64::NAN).nan());
    assert!(!number(f64::INFINITY).nan());
    assert!(!number(1.0).nan());
}

#[test]
fn bits_are_kept() {
    assert_eq!(Binary64::from_bits(17).to_bits(), 17);
    assert_eq!(f64::from_bits(number(71436.89385).to_bits()), 71436.89385);
}
