use koru_lambda_core::{Distinction, ParseError, RawDistinctionId};

#[test]
fn hex_round_trip_known_value() {
    let d = Distinction::from_bytes_unchecked([0u8; 16]);
    let hex = d.to_hex();
    assert_eq!(hex, "00000000000000000000000000000000");
    let parsed = Distinction::from_hex(&hex).expect("valid hex round-trips (invariant)");
    assert_eq!(parsed, d);
}

#[test]
fn hex_round_trip_all_bits() {
    let d = Distinction::from_bytes_unchecked([0xFFu8; 16]);
    let hex = d.to_hex();
    assert_eq!(hex, "ffffffffffffffffffffffffffffffff");
    let parsed = Distinction::from_hex(&hex).expect("valid hex round-trips (invariant)");
    assert_eq!(parsed, d);
}

#[test]
fn hex_round_trip_mixed_bytes() {
    let bytes = [
        0x01, 0x23, 0x45, 0x67, 0x89, 0xab, 0xcd, 0xef, 0xfe, 0xdc, 0xba, 0x98, 0x76, 0x54, 0x32, 0x10,
    ];
    let d = Distinction::from_bytes_unchecked(bytes);
    let hex = d.to_hex();
    assert_eq!(hex, "0123456789abcdeffedcba9876543210");
    let parsed = Distinction::from_hex(&hex).expect("valid hex round-trips (invariant)");
    assert_eq!(parsed, d);
    assert_eq!(parsed.as_bytes(), &bytes);
}

#[test]
fn from_hex_rejects_empty() {
    assert_eq!(Distinction::from_hex(""), Err(ParseError::InvalidLength(0)));
}

#[test]
fn from_hex_rejects_too_short() {
    assert_eq!(Distinction::from_hex("deadbeef"), Err(ParseError::InvalidLength(8)));
}

#[test]
fn from_hex_rejects_too_long() {
    let s = "0".repeat(33);
    assert_eq!(Distinction::from_hex(&s), Err(ParseError::InvalidLength(33)));
}

#[test]
fn from_hex_rejects_uppercase() {
    let err = Distinction::from_hex("FFFFFFFFFFFFFFFFFFFFFFFFFFFFFFFF")
        .expect_err("known-bad input must reject (invariant)");
    assert!(matches!(err, ParseError::InvalidChar { .. }));
}

#[test]
fn from_hex_rejects_non_hex_char() {
    let s = "g0000000000000000000000000000000";
    let err = Distinction::from_hex(s).expect_err("known-bad input must reject (invariant)");
    assert_eq!(err, ParseError::InvalidChar { position: 0, found: 'g' });
}

#[test]
fn from_hex_rejects_non_ascii_lead_byte() {
    let s = format!("é{}", "0".repeat(30));
    assert_eq!(s.len(), 32, "constructed input must be 32 bytes (invariant)");
    let err = Distinction::from_hex(&s).expect_err("non-ASCII byte must reject (invariant)");
    assert_eq!(err, ParseError::NonAscii { position: 0 });
}

#[test]
fn from_hex_invalid_char_position_is_accurate() {
    let s = "0123456789abcdefz123456789abcdef";
    let err = Distinction::from_hex(s).expect_err("known-bad input must reject (invariant)");
    assert_eq!(err, ParseError::InvalidChar { position: 16, found: 'z' });
}

#[test]
fn display_uses_hex() {
    let d = Distinction::from_bytes_unchecked([0u8; 16]);
    assert_eq!(d.to_display_string(), "00000000000000000000000000000000");
}

#[test]
fn debug_uses_hex_with_wrapper() {
    let d = Distinction::from_bytes_unchecked([0u8; 16]);
    assert_eq!(d.to_debug_string(), "Distinction(00000000000000000000000000000000)");
}

#[test]
fn from_str_works() {
    let s = "0123456789abcdeffedcba9876543210";
    let d: Distinction = s.parse().expect("valid hex parses (invariant)");
    assert_eq!(d.to_hex(), s);
}

#[test]
fn raw_hex_round_trip_mixed_bytes() {
    let bytes = [
        0x01, 0x23, 0x45, 0x67, 0x89, 0xab, 0xcd, 0xef, 0xfe, 0xdc, 0xba, 0x98, 0x76, 0x54, 0x32, 0x10,
    ];
    let r = RawDistinctionId::from_bytes(bytes);
    let hex = r.to_hex();
    assert_eq!(hex, "0123456789abcdeffedcba9876543210");
    let parsed = RawDistinctionId::from_hex(&hex).expect("valid hex round-trips (invariant)");
    assert_eq!(parsed, r);
    assert_eq!(parsed.as_bytes(), &bytes);
}

#[test]
fn raw_from_hex_shares_parse_error_surface_with_distinction() {
    let uppercase = "FFFFFFFFFFFFFFFFFFFFFFFFFFFFFFFF";
    assert_eq!(
        RawDistinctionId::from_hex(uppercase),
        Distinction::from_hex(uppercase).map(|d| RawDistinctionId::from_bytes(*d.as_bytes()))
    );
    assert!(matches!(RawDistinctionId::from_hex(uppercase), Err(ParseError::InvalidChar { .. })));

    assert_eq!(RawDistinctionId::from_hex(""), Err(ParseError::InvalidLength(0)));
    assert_eq!(RawDistinctionId::from_hex("deadbeef"), Err(ParseError::InvalidLength(8)));
}

#[test]
fn raw_display_and_debug_are_hex() {
    let r = RawDistinctionId::from_bytes([0u8; 16]);
    assert_eq!(r.to_display_string(), "00000000000000000000000000000000");
    assert_eq!(r.to_debug_string(), "RawDistinctionId(00000000000000000000000000000000)");
}

#[test]
fn raw_from_str_works() {
    let s = "0123456789abcdeffedcba9876543210";
    let r: RawDistinctionId = s.parse().expect("valid hex parses (invariant)");
    assert_eq!(r.to_hex(), s);
}

#[test]
fn hex_round_trip_every_byte_value() {
    for b in 0u8..=255 {
        let mut bytes = [b; 16];
        bytes[15] = b.wrapping_add(1);
        let d = Distinction::from_bytes_unchecked(bytes);
        let parsed = Distinction::from_hex(&d.to_hex()).expect("rendered hex parses");
        assert_eq!(parsed.as_bytes(), &bytes);
    }
}

#[test]
fn from_hex_reports_first_bad_position() {
    let s = "0000000000000000000000000000000G";
    assert_eq!(Distinction::from_hex(s), Err(ParseError::InvalidChar { position: 31, found: 'G' }));
    let s2 = "00x00000000000000000000000000000";
    assert_eq!(RawDistinctionId::from_hex(s2), Err(ParseError::InvalidChar { position: 2, found: 'x' }));
}

#[test]
fn only_the_canonical_rendering_parses() {
    let d = Distinction::from_bytes_unchecked([0xAB; 16]);
    let hex = d.to_hex();
    assert_eq!(Distinction::from_hex(&hex).unwrap(), d);
    assert!(Distinction::from_hex(&hex.to_uppercase()).is_err());
    let mixed = format!("A{}", &hex[1..]);
    assert!(Distinction::from_hex(&mixed).is_err());
}
