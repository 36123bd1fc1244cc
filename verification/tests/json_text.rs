//! The JSON writer.

use exif_sooc::json::{escape, scalar};

fn esc(s: &str) -> String {
    let mut o = String::new();
    escape(s, &mut o);
    o
}

fn sc(s: &str) -> String {
    let mut o = String::new();
    scalar(s, &mut o);
    o
}

#[test]
fn strings_are_quoted_and_escaped() {
    assert_eq!(esc("plain"), "\"plain\"");
    assert_eq!(esc("a\"b\\c"), "\"a\\\"b\\\\c\"");
    assert_eq!(esc("l1\nl2\r\t"), "\"l1\\nl2\\r\\t\"");
    assert_eq!(esc("\u{1}\u{1f}"), "\"\\u0001\\u001f\"");
    assert_eq!(esc("é ✓"), "\"é ✓\"");
    assert_eq!(esc(""), "\"\"");
}

#[test]
fn numbers_go_out_unquoted() {
    assert_eq!(sc("200"), "200");
    assert_eq!(sc("-1.5"), "-1.5");
    assert_eq!(sc("0.5"), "0.5");
    assert_eq!(sc("0"), "0");
    assert_eq!(sc("1e5"), "1e5");
    assert_eq!(sc("-0"), "-0");
    assert_eq!(sc("2.5E-3"), "2.5E-3");
}

#[test]
fn a_padded_or_signed_number_stays_a_string() {
    assert_eq!(sc("0130"), "\"0130\"");
    assert_eq!(sc("+2"), "\"+2\"");
    assert_eq!(sc("1/500"), "\"1/500\"");
    assert_eq!(sc("f/2.8"), "\"f/2.8\"");
    assert_eq!(sc(""), "\"\"");
    assert_eq!(sc("1 2"), "\"1 2\"");
}

#[test]
fn only_json_numbers_go_out_bare() {
    for c in ["NaN", "inf", "infinity", "-inf", "1.", ".5", "-0130", "-", "1e", "1e+", "01", "1.e5", "--1", "0x10"] {
        assert_eq!(sc(c), format!("\"{c}\""), "{c:?} must stay a string");
    }
    for c in ["0", "-0.0", "10", "3.25", "6e23", "1E+2", "-7e-9"] {
        assert_eq!(sc(c), c, "{c:?} is a JSON number");
    }
}

#[test]
fn an_escaped_string_reads_back() {
    for s in ["plain", "q\"uote", "back\\slash", "tab\tnew\nline\r", "\u{1}\u{1f}", "é ✓ 😀", ""] {
        let mut out = String::new();
        escape(s, &mut out);
        assert!(out.chars().all(|c| c >= ' '));
        let back: String = serde_json::from_str(&out).unwrap();
        assert_eq!(back, s);
    }
}
