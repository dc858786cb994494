use rustpulse::integrity::{crc32_ieee, parse_declared_checksum, verify_checksum};

#[test]
fn crc32_matches_the_standard_check_value() {
    // The CRC-32/IEEE check value for the bytes "123456789".
    assert_eq!(crc32_ieee(b"123456789"), 0xCBF4_3926);
}

#[test]
fn crc32_of_empty_input_is_zero() {
    assert_eq!(crc32_ieee(b""), 0);
}

#[test]
fn crc32_is_deterministic_across_calls() {
    let body = b"{\"cpu\":1.0}";
    assert_eq!(crc32_ieee(body), crc32_ieee(body));
}

#[test]
fn crc32_changes_with_the_payload() {
    assert_ne!(crc32_ieee(b"abc"), crc32_ieee(b"abd"));
}

#[test]
fn declared_checksum_accepts_eight_hex_digits() {
    assert_eq!(parse_declared_checksum("cbf43926"), Some(0xCBF4_3926));
    assert_eq!(parse_declared_checksum("CBF43926"), Some(0xCBF4_3926));
    assert_eq!(parse_declared_checksum("0xcbf43926"), Some(0xCBF4_3926));
    assert_eq!(parse_declared_checksum("  0xCBF43926  "), Some(0xCBF4_3926));
    assert_eq!(parse_declared_checksum("00000000"), Some(0));
}

#[test]
fn declared_checksum_rejects_other_shapes() {
    assert_eq!(parse_declared_checksum(""), None);
    assert_eq!(parse_declared_checksum("123"), None);
    assert_eq!(parse_declared_checksum("cbf4392"), None);
    assert_eq!(parse_declared_checksum("cbf439261"), None);
    assert_eq!(parse_declared_checksum("cbf4392g"), None);
    assert_eq!(parse_declared_checksum("+bf43926"), None);
    assert_eq!(parse_declared_checksum("0Xcbf43926"), None);
}

#[test]
fn verify_succeeds_iff_declared_matches() {
    let body = b"telemetry payload";
    let crc = crc32_ieee(body);
    assert!(verify_checksum(body, Some(crc)));
    assert!(!verify_checksum(body, Some(crc ^ 1)));
}

#[test]
fn verify_without_declared_checksum_always_succeeds() {
    assert!(verify_checksum(b"", None));
    assert!(verify_checksum(b"anything at all", None));
    assert!(verify_checksum(&[0xFF, 0x00, 0x12], None));
}
