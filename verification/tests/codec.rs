use onebrc::codec::format_float;
use onebrc::codec::parse_int;

#[test]
fn parse_simple() {
    assert_eq!(parse_int(b"12.3"), 12300);
    assert_eq!(parse_int(b"0.5"), 500);
    assert_eq!(parse_int(b"99.9"), 99900);
    assert_eq!(parse_int(b"7"), 700);
}

#[test]
fn parse_negative() {
    assert_eq!(parse_int(b"-5.0"), -5000);
    assert_eq!(parse_int(b"-99.9"), -99900);
    assert_eq!(parse_int(b"-0.5"), -500);
}

#[test]
fn parse_minus_anywhere_flips() {
    assert_eq!(parse_int(b"12.3-"), -12300);
    assert_eq!(parse_int(b"--12.3"), 12300);
}

#[test]
fn parse_ignores_stray_bytes() {
    assert_eq!(parse_int(b"7.7\n"), 7700);
    assert_eq!(parse_int(b" 1 . 2 "), 1200);
}

#[test]
fn parse_without_digits_is_zero() {
    assert_eq!(parse_int(b""), 0);
    assert_eq!(parse_int(b"abc"), 0);
    assert_eq!(parse_int(b"-"), 0);
}

#[test]
fn parse_overlong_input_stays_bounded() {
    let r = parse_int(b"999999999999999999999999999999");
    assert!(r <= 9_223_372_036_854_775_800);
    assert!(r >= -9_223_372_036_854_775_800);
}

#[test]
fn format_simple() {
    assert_eq!(format_float(12300), b"12.3".to_vec());
    assert_eq!(format_float(0), b"0.0".to_vec());
    assert_eq!(format_float(99900), b"99.9".to_vec());
    assert_eq!(format_float(10200), b"10.2".to_vec());
}

#[test]
fn format_small_negative_keeps_sign() {
    assert_eq!(format_float(-500), b"-0.5".to_vec());
    assert_eq!(format_float(-1500), b"-1.5".to_vec());
    assert_eq!(format_float(-99900), b"-99.9".to_vec());
}

#[test]
fn format_truncates_toward_zero() {
    assert_eq!(format_float(33), b"0.0".to_vec());
    assert_eq!(format_float(-33), b"-0.0".to_vec());
    assert_eq!(format_float(1999), b"1.9".to_vec());
}

#[test]
fn roundtrip_from_surface() {
    for s in [&b"0.0"[..], b"0.9", b"1.0", b"45.7", b"99.9"] {
        let v = parse_int(s);
        assert_eq!(format_float(v), s.to_vec());
    }
}

#[test]
fn roundtrip_from_scaled() {
    for v in [1000i64, 12000, 99000, 5_000_000, -1000, -42000] {
        assert_eq!(parse_int(&format_float(v)), v);
    }
}
