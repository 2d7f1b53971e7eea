use xapian_rs::value::{
    bytes_eq, bytes_le, bytes_starts_with, from_int, sortable_serialise, sortable_unserialise,
    DecodeError, EXACT_INT_LIMIT,
};

#[test]
fn codec_round_trips_doubles() {
    for v in [
        0.0f64, -0.0, 1.0, -1.0, 10.0, 20.0, 30.0, 0.5, -0.5, 1e300, -1e300, 1e-300, -1e-300,
        f64::INFINITY, f64::NEG_INFINITY, f64::MAX, f64::MIN,
    ] {
        let bits = v.to_bits();
        let enc = sortable_serialise(bits);
        assert_eq!(enc.len(), 8);
        assert_eq!(sortable_unserialise(&enc), Ok(bits));
    }
}

#[test]
fn codec_rejects_bad_length() {
    assert_eq!(sortable_unserialise(&[]), Err(DecodeError::BadLength));
    assert_eq!(sortable_unserialise(&[1, 2, 3]), Err(DecodeError::BadLength));
    assert_eq!(
        sortable_unserialise(&[0, 0, 0, 0, 0, 0, 0, 0, 0]),
        Err(DecodeError::BadLength)
    );
}

#[test]
fn codec_preserves_order() {
    let values = [
        f64::NEG_INFINITY,
        -1e300,
        -2.0,
        -1.0,
        -0.5,
        0.0,
        1e-300,
        0.5,
        1.0,
        1.5,
        2.0,
        10.0,
        20.0,
        25.0,
        1e300,
        f64::INFINITY,
    ];
    for w in values.windows(2) {
        let a = sortable_serialise(w[0].to_bits());
        let b = sortable_serialise(w[1].to_bits());
        assert!(a < b, "expected {} to sort below {}", w[0], w[1]);
        assert!(bytes_le(&a, &b));
        assert!(!bytes_le(&b, &a));
    }
}

#[test]
fn integer_conversion_is_the_ieee_one() {
    for v in [
        0i64,
        1,
        -1,
        2,
        3,
        10,
        20,
        30,
        255,
        256,
        1970,
        -123456,
        987654321,
        -987654321,
        EXACT_INT_LIMIT,
        -EXACT_INT_LIMIT,
        EXACT_INT_LIMIT - 1,
    ] {
        assert_eq!(from_int(v), (v as f64).to_bits(), "integer {}", v);
    }
}

#[test]
fn byte_string_helpers() {
    assert!(bytes_eq(b"abc", b"abc"));
    assert!(!bytes_eq(b"abc", b"abd"));
    assert!(!bytes_eq(b"abc", b"ab"));
    assert!(bytes_le(b"abc", b"abd"));
    assert!(bytes_le(b"ab", b"abc"));
    assert!(bytes_le(b"abc", b"abc"));
    assert!(!bytes_le(b"b", b"ab"));
    assert!(bytes_starts_with(b"apple", b"app"));
    assert!(!bytes_starts_with(b"ap", b"app"));
    assert!(bytes_starts_with(b"app", b""));
}

#[test]
fn exact_encodings_of_known_values() {
    // positive numbers get the sign bit set on their pattern
    assert_eq!(
        sortable_serialise(1.0f64.to_bits()),
        vec![0xbf, 0xf0, 0, 0, 0, 0, 0, 0]
    );
    // zero's pattern is all zeroes, so only the flipped sign bit remains
    assert_eq!(sortable_serialise(0.0f64.to_bits()), vec![0x80, 0, 0, 0, 0, 0, 0, 0]);
    // negative numbers have every bit flipped
    assert_eq!(
        sortable_serialise((-1.0f64).to_bits()),
        vec![0x40, 0x0f, 0xff, 0xff, 0xff, 0xff, 0xff, 0xff]
    );
}
