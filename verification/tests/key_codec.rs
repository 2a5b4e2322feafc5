use arookieofcdb::key_codec::KeyEncoding;

/// The bits of the finite `f64` that `input` reads as, as the caller of `from_input` gives
/// them.
fn float_bits(input: &str) -> Option<u64> {
    match input.parse::<f64>() {
        Ok(v) if v.is_finite() => Some(v.to_bits()),
        _ => None,
    }
}

fn key_from(input: &str) -> KeyEncoding {
    KeyEncoding::from_input(input, float_bits(input))
}

#[test]
fn key_codec_detect_int() {
    assert!(matches!(key_from("100"), KeyEncoding::Int(100)));
}

#[test]
fn key_codec_detect_float() {
    match key_from("3.14") {
        KeyEncoding::Float(bits) => assert_eq!(f64::from_bits(bits), 3.14),
        other => panic!("unexpected encoding: {other:?}"),
    }
}

#[test]
fn key_codec_raw_fallback() {
    assert!(matches!(key_from("hello"), KeyEncoding::Raw(_)));
}

#[test]
fn key_codec_round_trip() {
    let items = [
        KeyEncoding::Raw("abc".to_string()),
        KeyEncoding::Int(42),
        KeyEncoding::Float(1.5f64.to_bits()),
    ];

    for item in items {
        let encoded = item.encode();
        let decoded = KeyEncoding::decode(&encoded).expect("decode key");
        assert_eq!(decoded, item);
    }
}
