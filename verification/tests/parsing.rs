//! Temperatures and hashes.

use brc::bytes::load_word;
use brc::hash::{hash_name, scan_name, PHI};
use brc::temperature::{check_value, fmt_tenths, parse_num, parse_temp};

fn text_of(tenths: i64) -> String {
    let mut out = Vec::new();
    fmt_tenths(&mut out, tenths);
    String::from_utf8(out).unwrap()
}

/// `parse_num` must agree with the simple `parse_temp` (and report the
/// right byte length) for every valid temperature in -99.9..=99.9.
#[test]
fn parse_num_exhaustive() {
    for tenths in -999i32..=999 {
        let whole = (tenths.abs() / 10) as i64;
        let frac = (tenths.abs() % 10) as u8;
        let sign = if tenths < 0 { "-" } else { "" };
        let s = format!("{sign}{whole}.{frac}\n");
        let bytes = s.as_bytes();

        let mut word_bytes = [0u8; 8];
        let n = bytes.len().min(8);
        word_bytes[..n].copy_from_slice(&bytes[..n]);
        let word = u64::from_le_bytes(word_bytes);

        let (val, adv) = parse_num(word);
        assert_eq!(val, tenths, "value mismatch for {s:?}");
        assert_eq!(adv, bytes.len(), "length mismatch for {s:?}");
        assert_eq!(parse_temp(bytes) as i32, tenths, "parse_temp {s:?}");
    }
}

#[test]
fn parse_num_ignores_what_follows() {
    assert_eq!(parse_num(load_word(b"-12.3\nAb", 0)), (-123, 6));
    assert_eq!(parse_num(load_word(b"0.5\nOslo;", 0)), (5, 4));
    assert_eq!(parse_num(load_word(b"99.9\n-.-", 0)), (999, 5));
    assert_eq!(parse_num(load_word(b"-4.0\n\xff\xff\xff", 0)), (-40, 5));
}

#[test]
fn parse_num_reads_by_the_point_alone() {
    // Low four bits in place of digits, and the first byte that is no digit
    // in place of the point.
    assert_eq!(parse_num(load_word(b"1,2", 0)), (12, 4));
    assert_eq!(parse_num(load_word(b"?.?", 0)), (165, 4));
    assert_eq!(parse_num(load_word(b"??.?", 0)), (1665 % 1024, 5));
    assert_eq!(parse_num(load_word(b"-??.?", 0)), (-(1665 % 1024), 6));
    assert_eq!(parse_num(load_word(b"x1.2", 0)), (812, 5));
    assert_eq!(parse_num(load_word(b"a1.2", 0)), (-12, 5));
    assert_eq!(parse_num(0), (0, 4));
}

#[test]
fn words_at_the_end_are_padded() {
    assert_eq!(load_word(b"abc", 0), 0x63_6261);
    assert_eq!(load_word(b"abc", 2), 0x63);
    assert_eq!(load_word(b"abc", 3), 0);
    assert_eq!(load_word(b"abcdefghi", 1), u64::from_le_bytes(*b"bcdefghi"));
}

#[test]
fn parse_num_takes_leading_and_negative_zeros() {
    assert_eq!(parse_num(load_word(b"07.3\n\0\0\0", 0)), (73, 5));
    assert_eq!(parse_num(load_word(b"-0.0\n\0\0\0", 0)), (0, 5));
    assert_eq!(parse_temp(b"07.3"), 73);
    assert_eq!(parse_temp(b"-0.0"), 0);
}

#[test]
fn parse_temp_reads_past_an_odd_point() {
    // Any byte may stand for the point after two digits.
    assert_eq!(parse_temp(b"12,3"), 123);
    // A byte no less than `0` counts for its distance from it.
    assert_eq!(parse_temp(b":.5"), 105);
    assert_eq!(parse_temp(b"-9:.0"), -1000);
}

#[test]
fn written_temperatures_are_read_back() {
    for tenths in -999i64..=999 {
        let s = text_of(tenths);
        assert!(check_value(s.as_bytes()));
        assert_eq!(parse_temp(s.as_bytes()) as i64, tenths);
    }
}

#[test]
fn fmt_tenths_values() {
    assert_eq!(text_of(-123), "-12.3");
    assert_eq!(text_of(5), "0.5");
    assert_eq!(text_of(-5), "-0.5");
    assert_eq!(text_of(0), "0.0");
    assert_eq!(text_of(10), "1.0");
    assert_eq!(text_of(999), "99.9");
    assert_eq!(text_of(-32768), "-3276.8");
    assert_eq!(text_of(i64::MAX), "922337203685477580.7");
    assert_eq!(text_of(-i64::MAX), "-922337203685477580.7");
}

#[test]
fn fmt_tenths_appends() {
    let mut out = b"a=".to_vec();
    fmt_tenths(&mut out, 12);
    fmt_tenths(&mut out, -1);
    assert_eq!(out, b"a=1.2-0.1");
}

#[test]
fn check_value_accepts_what_can_be_read() {
    for good in ["0.0", "-12.3", "1.23", "12.3\r", "1xx2", "1.x"] {
        assert!(check_value(good.as_bytes()), "{good}");
    }
    for bad in ["", "-", "1.", "12.", "1.-", "-1.", " 1.2", "1-.2", "12.-"] {
        assert!(!check_value(bad.as_bytes()), "{bad}");
    }
}

#[test]
fn hash_of_short_names() {
    assert_eq!(hash_name(b""), 0);
    assert_eq!(hash_name(b"a"), 0x61u64.wrapping_mul(PHI));
    let h = u64::from_le_bytes(*b"Abidjan8").wrapping_mul(PHI);
    assert_eq!(hash_name(b"Abidjan8"), h);
    assert_eq!(hash_name(b"Abidjan8x"), (h ^ 0x78).wrapping_mul(PHI));
}

#[test]
fn scan_name_agrees_with_hash_name() {
    for len in 0..=100usize {
        let name: Vec<u8> = (0..len).map(|i| (i * 37 + 128) as u8).map(|b| if b == b';' { b':' } else { b }).collect();
        for start in [0usize, 1, 7] {
            let mut buf = vec![b'x'; start];
            buf.extend_from_slice(&name);
            buf.extend_from_slice(b";12.3\nnext;1.0\n");
            assert_eq!(scan_name(&buf, start), Some((start + len, hash_name(&name))));
            // The `;` may be the last byte.
            assert_eq!(scan_name(&buf[..start + len + 1], start), Some((start + len, hash_name(&name))));
            assert_eq!(scan_name(&buf[..start + len], start), None);
        }
    }
}

#[test]
fn scan_name_stops_at_the_first_semicolon() {
    // Bytes that differ from `;` in one bit, next to it on either side.
    let buf = b"::\xbb;:;;;;12.3\n\0\0\0";
    assert_eq!(scan_name(buf, 0), Some((3, hash_name(b"::\xbb"))));
    assert_eq!(scan_name(buf, 4), Some((5, hash_name(b":"))));
    assert_eq!(scan_name(buf, 5), Some((5, 0)));
}
