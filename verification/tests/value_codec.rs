use arookieofcdb::value_codec::StringEncoding;

/// The bits of the finite `f64` that `input` reads as, as the caller of `from_input` gives
/// them.
fn float_bits(input: &str) -> Option<u64> {
    match input.parse::<f64>() {
        Ok(v) if v.is_finite() => Some(v.to_bits()),
        _ => None,
    }
}

fn value_from(input: &str) -> StringEncoding {
    StringEncoding::from_input(input, float_bits(input))
}

#[test]
fn value_codec_detect_int() {
    assert!(matches!(value_from("100"), StringEncoding::Int(100)));
}

#[test]
fn value_codec_detect_float() {
    match value_from("3.14") {
        StringEncoding::Float(bits) => assert_eq!(f64::from_bits(bits), 3.14),
        other => panic!("unexpected encoding: {other:?}"),
    }
}

#[test]
fn value_codec_raw_fallback() {
    assert!(matches!(value_from("hello"), StringEncoding::Raw(_)));
}

#[test]
fn value_codec_round_trip() {
    let items = [
        StringEncoding::Raw(b"abc".to_vec()),
        StringEncoding::Int(42),
        StringEncoding::Float(1.5f64.to_bits()),
    ];

    for item in items {
        let encoded = item.encode();
        let decoded = StringEncoding::decode(&encoded);
        assert_eq!(decoded, item);
    }
}

#[test]
fn decode_legacy_raw_bytes() {
    let decoded = StringEncoding::decode(b"legacy");
    assert_eq!(decoded.to_display_string().as_deref(), Some("legacy"));
}

#[test]
fn value_codec_negative_int_displays_with_sign() {
    let v = value_from("-17");
    assert_eq!(v, StringEncoding::Int(-17));
    assert_eq!(v.to_display_string().as_deref(), Some("-17"));
}

#[test]
fn value_codec_invalid_utf8_displays_replacement() {
    let v = StringEncoding::Raw(vec![b'a', 0xff, b'b']);
    assert_eq!(v.to_display_string().as_deref(), Some("a\u{fffd}b"));
}

#[test]
fn value_codec_float_has_no_display_text() {
    assert_eq!(StringEncoding::Float(2.5f64.to_bits()).to_display_string(), None);
}
