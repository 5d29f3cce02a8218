//! Bytes of numbers, and numbers as text.
use geosetta::bytes::{
    le_vec, push_be, push_le, read_le, signed32, signed64, unsigned32, unsigned64,
};
use geosetta::decimal::{is_finite, plain, plain_unsigned, three_or_more};
use geosetta::number::{is_float, is_number, parse_integer};
use geosetta::text::{decimal_text, signed_decimal_text, text_after_last, to_lower};

fn chars(text: &str) -> Vec<char> {
    text.chars().collect()
}

#[test]
fn little_endian_bytes_are_read_back() {
    for (v, n) in [(0u64, 4usize), (1, 4), (0x0102_0304, 4), (u64::MAX, 8), (0xbeef, 2)] {
        let bytes = le_vec(v, n);
        assert_eq!(bytes, v.to_le_bytes()[..n].to_vec());
        assert_eq!(read_le(&bytes, 0, n), v);
    }
    let mut out = vec![9];
    push_le(&mut out, 0x0102, 2);
    push_be(&mut out, 0x0102, 2);
    assert_eq!(out, vec![9, 2, 1, 1, 2]);
}

#[test]
fn signs_are_those_of_twos_complement() {
    for v in [0i32, 1, -1, i32::MIN, i32::MAX] {
        assert_eq!(unsigned32(v), v as u32);
        assert_eq!(signed32(v as u32), v);
    }
    for v in [0i64, 1, -1, i64::MIN, i64::MAX] {
        assert_eq!(unsigned64(v), v as u64);
        assert_eq!(signed64(v as u64), v);
    }
}

#[test]
fn integers_are_spelled_and_read() {
    assert_eq!(decimal_text(0), "0");
    assert_eq!(decimal_text(18_446_744_073_709_551_615), "18446744073709551615");
    assert_eq!(signed_decimal_text(i64::MIN), "-9223372036854775808");
    for n in [0i64, 7, -42, i64::MAX, i64::MIN] {
        assert_eq!(parse_integer(&signed_decimal_text(n)), Some(n));
    }
    assert_eq!(parse_integer("+5"), Some(5));
    assert_eq!(parse_integer("9223372036854775808"), None);
    assert_eq!(parse_integer("1.0"), None);
    assert_eq!(parse_integer(""), None);
}

#[test]
fn float_texts_are_told_from_others() {
    for t in ["1", "-1.5", "1e9", "+.5", "5.", "inf", "-Infinity", "NaN"] {
        assert!(is_float(&chars(t)), "{t}");
    }
    for t in ["", ".", "e5", "1e", "0x10", "1 ", "infin"] {
        assert!(!is_float(&chars(t)), "{t}");
    }
    assert!(is_number(&chars("1e9")));
    assert!(!is_number(&chars("inf")));
    assert!(is_finite(&chars("1e308")));
    assert!(!is_finite(&chars("inf")));
}

#[test]
fn plain_numbers_have_no_exponent() {
    for (t, p) in [("1.50", "1.5"), ("1e3", "1000"), ("-2.5e-3", "-0.0025"), ("007", "7"), ("4.0", "4")] {
        assert_eq!(plain(&chars(t)), p);
        assert_eq!(plain(&chars(p)), p);
    }
    assert_eq!(plain(&chars("-0.0")), "-0");
    assert_eq!(plain_unsigned(&chars("-0.0")), "0");
    assert_eq!(plain_unsigned(&chars("-1.50")), "-1.5");
    assert!(three_or_more(&chars("3")));
    assert!(!three_or_more(&chars("2.9999")));
}

#[test]
fn texts_are_cut_and_lowered() {
    assert_eq!(text_after_last("a.b.geojson", '.'), "geojson");
    assert_eq!(to_lower("GeoJSON É"), "geojson É");
}
