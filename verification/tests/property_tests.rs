// Checks of the documented properties of the codec on concrete values:
// round-trips, shortest-digit output, canonical idempotence, notation
// boundaries, and the points where the three string codecs diverge.

fn parse_f64(s: &str) -> Option<f64> {
    yass::parse_f64_bits(s).map(f64::from_bits)
}

fn serialize_f64_as_string(v: f64) -> String {
    yass::serialize_f64_bits_as_string(v.to_bits())
}

#[test]
fn test_f64_round_trip_bit_exact() {
    let samples: Vec<f64> = vec![
        0.0,
        -0.0,
        1.0,
        -1.0,
        0.1,
        2.0 / 3.0,
        1.0e300,
        -1.0e-300,
        3.141592653589793,
        1.7976931348623157e308,
        2.2250738585072014e-308,
        5.0e-324,
        -5.0e-324,
        1.2e-315,
        8.98846567431158e307,
        123456789.123456789,
        1.5e-10,
        9007199254740993.0,
    ];
    for v in samples {
        let text = serialize_f64_as_string(v);
        let back = parse_f64(&text).unwrap();
        if v == 0.0 {
            // zeros drop their sign in this format
            assert_eq!(back, 0.0);
            assert_eq!(back.to_bits(), 0u64);
        } else {
            assert_eq!(back.to_bits(), v.to_bits());
        }
    }
}

#[test]
fn test_f64_shortest_digits() {
    // no shorter digit sequence than the formatter's output round-trips
    let cases: Vec<(f64, &str)> = vec![
        (0.1, "0.1"),
        (0.3, "0.3"),
        (1.0 / 3.0, "0.3333333333333333"),
        (2.0 / 3.0, "0.6666666666666666"),
        (5.0e-324, "5.0e-324"),
        (9007199254740993.0, "9007199254740992.0"),
    ];
    for (v, want) in cases {
        assert_eq!(serialize_f64_as_string(v), want);
    }
    // dropping the last digit of a shortest sequence loses the value
    let text = serialize_f64_as_string(2.0 / 3.0);
    let shorter = &text[..text.len() - 1];
    assert_ne!(parse_f64(shorter).unwrap().to_bits(), (2.0f64 / 3.0).to_bits());
}

#[test]
fn test_int_canonical_idempotence() {
    let canonical = vec!["0", "1", "7", "42", "2147483647", "-2147483648", "-5"];
    for s in canonical {
        assert_eq!(yass::serialize_i32_as_string(yass::parse_i32(s).unwrap()), s);
        assert_eq!(yass::serialize_i64_as_string(yass::parse_i64(s).unwrap()), s);
    }
    let canonical_unsigned = vec!["0", "1", "42", "4294967295"];
    for s in canonical_unsigned {
        assert_eq!(yass::serialize_u32_as_string(yass::parse_u32(s).unwrap()), s);
        assert_eq!(yass::serialize_u64_as_string(yass::parse_u64(s).unwrap()), s);
    }
    // non-canonical spellings parse but do not survive unchanged
    assert_eq!(yass::serialize_i32_as_string(yass::parse_i32("+7").unwrap()), "7");
    assert_eq!(yass::serialize_i32_as_string(yass::parse_i32("007").unwrap()), "7");
    assert_eq!(yass::serialize_i32_as_string(yass::parse_i32("-0").unwrap()), "0");
}

#[test]
fn test_int_round_trip() {
    let values_i32 = vec![0i32, 1, -1, 2147483647, -2147483648, 1000000];
    for v in values_i32 {
        assert_eq!(yass::parse_i32(&yass::serialize_i32_as_string(v)), Some(v));
    }
    let values_u64 = vec![0u64, 1, 10, 18446744073709551615];
    for v in values_u64 {
        assert_eq!(yass::parse_u64(&yass::serialize_u64_as_string(v)), Some(v));
    }
}

#[test]
fn test_utf8_escaping_round_trip() {
    assert_eq!(yass::parse_utf8_string("\" \\u{fffd} \""), Some(" \u{FFFD} ".to_string()));
    assert_eq!(yass::serialize_utf8_string_as_string(" \u{FFFD} "), "\" \\u{fffd} \"");
    let text = "mixed \t \"quotes\" \\ \u{1F600} plain";
    let atom = yass::serialize_utf8_string_as_string(text);
    assert_eq!(yass::parse_utf8_string(&atom), Some(text.to_string()));
}

#[test]
fn test_byte_string_round_trip() {
    let bytes: Vec<u8> = (0u8..=255u8).collect();
    let atom = yass::serialize_byte_string_as_string(&bytes);
    assert_eq!(yass::parse_byte_string(&atom), Some(bytes));
}

#[test]
fn test_float_limits() {
    assert_eq!(parse_f64("1e-99999999999999999"), Some(0.0));
    assert_eq!(parse_f64("1e1000"), None);
    assert_eq!(parse_f64("17976931348623157e292"), Some(1.7976931348623157e308));
    assert_eq!(parse_f64("1.8e308"), None);
    assert_eq!(parse_f64("2.47e-324"), Some(0.0));
    assert_eq!(parse_f64("2.5e-324"), Some(5.0e-324));
}

#[test]
fn test_float_notation_cutover() {
    assert_eq!(serialize_f64_as_string(0.00001), "0.00001");
    // nine filling zeros is the last positional form on both sides
    assert_eq!(serialize_f64_as_string(1.0e-10), "0.0000000001");
    assert_eq!(serialize_f64_as_string(1.0e-11), "1.0e-11");
    assert_eq!(serialize_f64_as_string(1.0e9), "1000000000.0");
    assert_eq!(serialize_f64_as_string(1.0e10), "1.0e10");
    assert_eq!(serialize_f64_as_string(1.2e10), "12000000000.0");
    assert_eq!(serialize_f64_as_string(1.2e11), "1.2e11");
}

#[test]
fn test_ascii_byte_divergence() {
    assert_eq!(yass::parse_ascii_string("\" \\xFF \""), None);
    assert_eq!(yass::parse_byte_string("\" \\xFF \"").unwrap(), b" \xFF ");
    // the UTF-8 codec rejects the same escape but keeps the raw character
    assert_eq!(yass::parse_utf8_string("\" \\xFF \""), None);
    assert_eq!(yass::parse_utf8_string("\" \u{FF} \"").unwrap(), " \u{FF} ");
}

#[test]
fn test_hex_digit_helpers() {
    assert_eq!(yass::hex_digit_to_u8('0'), Some(0));
    assert_eq!(yass::hex_digit_to_u8('9'), Some(9));
    assert_eq!(yass::hex_digit_to_u8('a'), Some(10));
    assert_eq!(yass::hex_digit_to_u8('F'), Some(15));
    assert_eq!(yass::hex_digit_to_u8('g'), None);
    assert_eq!(yass::nibble_to_hex(0), '0');
    assert_eq!(yass::nibble_to_hex(10), 'a');
    assert_eq!(yass::nibble_to_hex(15), 'f');
}

#[test]
fn test_decimal_components() {
    let d = yass::Decimal::new(b"12", b"34", -2);
    assert_eq!(d.integral, b"12");
    assert_eq!(d.fractional, b"34");
    assert_eq!(d.exp, -2);
    assert_eq!(yass::convert(&d), Some((0.1234f64).to_bits()));
    assert_eq!(yass::convert(&yass::Decimal::new(b"1", b"", 1000)), None);
    assert_eq!(yass::convert(&yass::Decimal::new(b"1", b"", -1000)), Some(0u64));
    assert_eq!(yass::convert(&yass::Decimal::new(b"000", b"0", 5)), Some(0u64));
}

#[test]
fn test_round_up_carries() {
    let mut d: Vec<u8> = b"1299".to_vec();
    assert_eq!(yass::round_up(&mut d, 4), None);
    assert_eq!(&d, b"1300");
    let mut d: Vec<u8> = b"9999".to_vec();
    assert_eq!(yass::round_up(&mut d, 4), Some(b'0'));
    assert_eq!(&d, b"1000");
    let mut d: Vec<u8> = b"1234".to_vec();
    assert_eq!(yass::round_up(&mut d, 2), None);
    assert_eq!(&d, b"1334");
}

#[test]
fn test_decode_classes() {
    let (sign, full) = yass::decode(0u64);
    assert!(!sign);
    assert!(matches!(full, yass::FullDecoded::Zero));
    let (sign, full) = yass::decode((-0.0f64).to_bits());
    assert!(sign);
    assert!(matches!(full, yass::FullDecoded::Zero));
    let (sign, full) = yass::decode((1.0f64).to_bits());
    assert!(!sign);
    match full {
        yass::FullDecoded::Finite(d) => {
            // 1.0 = 2^52 * 2 * 2^-53, quarter-ulp scaled at the power of two
            assert_eq!(d.minus, 1);
            assert_eq!(d.plus, 2);
            assert_eq!(d.mant, (1u64 << 52) * 4);
            assert_eq!(d.exp, -54);
        },
        _ => panic!("expected a finite decomposition"),
    }
    let (sign, full) = yass::decode(f64::INFINITY.to_bits());
    assert!(!sign);
    assert!(matches!(full, yass::FullDecoded::Infinite));
    let (_, full) = yass::decode(f64::NAN.to_bits());
    assert!(matches!(full, yass::FullDecoded::Nan));
}

#[test]
fn test_parse_f64_rejects_stray_text() {
    assert_eq!(parse_f64("1.0x"), None);
    assert_eq!(parse_f64("1.0e5x"), None);
    assert_eq!(parse_f64("--1"), None);
    assert_eq!(parse_f64("1..0"), None);
    assert_eq!(parse_f64(" 1"), None);
}
