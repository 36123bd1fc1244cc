//! The stem-keyed document and the recipe card.

use exif_sooc::site::{fields, film_name, is_bw, leading_num, merge_records, signed};

/// Build a fresh record the way a read would, without a camera file.
fn fresh(pairs: &[(&'static str, &str)]) -> Vec<(&'static str, String)> {
    pairs.iter().map(|(k, v)| (*k, v.to_string())).collect()
}

#[test]
fn the_field_order_is_the_declared_contract() {
    let f = fields();
    assert_eq!(f.len(), 32);
    assert_eq!(f[0], "camera");
    assert_eq!(f[31], "saturation");
    let mut sorted = f.to_vec();
    sorted.sort_unstable();
    sorted.dedup();
    assert_eq!(sorted.len(), 32, "a duplicated field name would shadow one");
}

#[test]
fn a_merge_preserves_the_recipe_card() {
    let existing = r#"{
  "A": { "camera": "old", "iso": 100, "recipe": { "Film Simulation": "Classic Chrome" } }
}"#;
    let out = merge_records(
        existing,
        &[("A".into(), fresh(&[("camera", "\"new\""), ("iso", "200")]))],
    )
    .unwrap();
    assert!(
        out.contains("\"recipe\""),
        "recipe must survive a merge:\n{out}"
    );
    assert!(
        out.contains("Classic Chrome"),
        "recipe CONTENT must survive:\n{out}"
    );
    assert!(out.contains("\"new\""), "a freshly read field must win");
    assert!(!out.contains("\"old\""), "the stale value must be gone");
    assert!(out.contains("200"), "iso must update");
}

#[test]
fn an_unseen_stem_passes_through_untouched() {
    let existing = r#"{
  "SEEN": { "camera": "a" },
  "UNSEEN": { "camera": "b", "recipe": { "x": 1 } }
}"#;
    let out = merge_records(existing, &[("SEEN".into(), fresh(&[("camera", "\"z\"")]))]).unwrap();
    assert!(out.contains("\"UNSEEN\""), "an unseen stem must survive");
    assert!(out.contains("\"b\""), "its values must be untouched");
    assert!(out.contains("\"z\""), "the seen stem must update");
}

#[test]
fn an_unknown_value_survives_byte_exact() {
    let existing = r#"{
  "A": { "camera": "x", "future": [1, 2, {"nested": "brace } and quote \" inside"}] }
}"#;
    let out = merge_records(existing, &[("A".into(), fresh(&[("camera", "\"y\"")]))]).unwrap();
    assert!(
        out.contains(r#"[1, 2, {"nested": "brace } and quote \" inside"}]"#),
        "the unknown value must round-trip byte-exact:\n{out}"
    );
}

#[test]
fn a_first_run_has_nothing_to_preserve() {
    let out = merge_records("{}", &[("A".into(), fresh(&[("camera", "\"x\"")]))]).unwrap();
    assert!(out.contains("\"A\"") && out.contains("\"x\""));
}

#[test]
fn prior_key_order_is_kept_so_a_re_merge_does_not_reshuffle() {
    let existing = r#"{ "A": { "zzz": 1, "camera": "old" } }"#;
    let out = merge_records(
        existing,
        &[(
            "A".into(),
            fresh(&[("camera", "\"new\""), ("brand_new", "7")]),
        )],
    )
    .unwrap();
    let z = out.find("zzz").unwrap();
    let c = out.find("camera").unwrap();
    let b = out.find("brand_new").unwrap();
    assert!(z < c, "existing order must hold");
    assert!(c < b, "a genuinely new field lands after the existing ones");
}

#[test]
fn an_empty_tag_is_null_rather_than_an_empty_string() {
    let keep = |s: Option<String>| match s {
        Some(v) => format!("{v:?}"),
        None => "null".to_string(),
    };
    assert_eq!(
        keep(Some(String::new())),
        "\"\"",
        "lit itself does not filter"
    );
    assert_eq!(keep(Some("x".into())), "\"x\"");
    assert_eq!(keep(Some(String::new()).filter(|v| !v.is_empty())), "null");
    assert_eq!(
        keep(Some("Summilux".to_string()).filter(|v| !v.is_empty())),
        "\"Summilux\""
    );
}

#[test]
fn a_card_prints_the_setting_not_the_stored_code() {
    assert_eq!(leading_num("-1 (medium soft)"), Some(-1));
    assert_eq!(leading_num("+3 (very high)"), Some(3));
    assert_eq!(leading_num("0"), Some(0));
    assert_eq!(leading_num("Strong"), None);
    assert_eq!(signed(0), "0");
    assert_eq!(signed(2), "+2");
    assert_eq!(signed(-2), "-2");
}

#[test]
fn a_film_name_unwraps_fujis_double_barrelled_form() {
    assert_eq!(film_name("F0/Standard (Provia)"), "Provia/Standard");
    assert_eq!(film_name("Nostalgic Neg"), "Nostalgic Neg");
    assert_eq!(film_name("Acros (Red)"), "Acros (Red)");
}

#[test]
fn a_bw_sim_is_the_film_and_drops_the_colour_line() {
    assert!(is_bw(Some("Acros Green Filter")));
    assert!(is_bw(Some("Monochrome")));
    assert!(is_bw(Some("Sepia")));
    assert!(!is_bw(Some("+3 (very high)")));
    assert!(!is_bw(None));
}

#[test]
fn malformed_input_is_refused_rather_than_half_read() {
    assert!(merge_records("{ \"A\": { \"camera\": ", &[]).is_err());
    assert!(
        merge_records("[]", &[]).is_err(),
        "the top level must be an object"
    );
    assert!(
        merge_records("{ \"A\": 3 }", &[]).is_err(),
        "a record must be an object"
    );
}

// ----------------------------------------------------------- further cases

/// A value is kept as its source text up to its last byte that is not
/// whitespace, so the space before a closing brace is not part of it.
#[test]
fn a_merge_writes_the_whole_document_exactly() {
    let existing = r#"{ "B": { "k": 1 }, "A": { "zzz": [1,2], "camera": "old" } }"#;
    let out = merge_records(
        existing,
        &[("A".into(), fresh(&[("camera", "\"new\""), ("iso", "200")]))],
    )
    .unwrap();
    assert_eq!(
        out,
        "{\n  \"A\": {\n    \"zzz\": [1,2],\n    \"camera\": \"new\",\n    \"iso\": 200\n  },\n  \"B\": {\n    \"k\": 1\n  }\n}\n"
    );
}

#[test]
fn the_refusals_say_where() {
    assert_eq!(
        merge_records("[]", &[]).unwrap_err(),
        "expected a JSON object at the top level"
    );
    assert_eq!(merge_records("{ \"A\": 3 }", &[]).unwrap_err(), "A: expected an object");
    assert_eq!(merge_records("{ 3 }", &[]).unwrap_err(), "expected a key, found '3'");
    assert_eq!(merge_records("{ \"A\" 3 }", &[]).unwrap_err(), "expected ':' after A");
    assert_eq!(
        merge_records("{ \"A\": { \"k\" 1 } }", &[]).unwrap_err(),
        "A.k: expected ':'"
    );
    assert_eq!(
        merge_records("{ \"A\": { 1 } }", &[]).unwrap_err(),
        "A: expected a field, found '1'"
    );
    assert_eq!(merge_records("{ \"A\": { ", &[]).unwrap_err(), "unterminated record");
    assert_eq!(merge_records("{ ", &[]).unwrap_err(), "unterminated object");
    assert_eq!(merge_records("{ \"A", &[]).unwrap_err(), "unterminated string");
    assert_eq!(merge_records("{ \"A\\", &[]).unwrap_err(), "unterminated escape");
    assert_eq!(
        merge_records("{ \"A\": { \"k\": [1, 2 ", &[]).unwrap_err(),
        "unterminated value"
    );
}

#[test]
fn a_stem_given_twice_keeps_the_later_record_merged_over_the_earlier() {
    let out = merge_records(
        "{}",
        &[
            ("A".into(), fresh(&[("camera", "\"one\""), ("recipe", "{}")])),
            ("A".into(), fresh(&[("camera", "\"two\"")])),
        ],
    )
    .unwrap();
    assert_eq!(
        out,
        "{\n  \"A\": {\n    \"camera\": \"two\",\n    \"recipe\": {}\n  }\n}\n"
    );
}

#[test]
fn stems_come_out_in_sorted_order() {
    let out = merge_records(
        "{}",
        &[
            ("b".into(), fresh(&[])),
            ("B".into(), fresh(&[])),
            ("a".into(), fresh(&[])),
        ],
    )
    .unwrap();
    let b_up = out.find("\"B\"").unwrap();
    let a = out.find("\"a\"").unwrap();
    let b = out.find("\"b\"").unwrap();
    assert!(b_up < a && a < b);
}

#[test]
fn keyed_records_replace_rather_than_merge() {
    let out = exif_sooc::site::keyed_records(&[
        ("A".into(), fresh(&[("camera", "\"one\""), ("recipe", "{}")])),
        ("A".into(), fresh(&[("camera", "\"two\"")])),
    ]);
    assert_eq!(out, "{\n  \"A\": {\n    \"camera\": \"two\"\n  }\n}\n");
}

#[test]
fn leading_numbers_edge_cases() {
    assert_eq!(leading_num("  +12abc "), Some(12));
    assert_eq!(leading_num("-0"), Some(0));
    assert_eq!(leading_num("9223372036854775807"), Some(i64::MAX));
    assert_eq!(leading_num("9223372036854775808"), None);
    assert_eq!(leading_num("-"), None);
    assert_eq!(leading_num(""), None);
}

#[test]
fn film_names_with_more_slashes_and_brackets() {
    assert_eq!(film_name("F2/Fujichrome (Velvia)"), "Velvia/Fujichrome");
    assert_eq!(film_name("a/b/c (X)"), "X/b");
    assert_eq!(film_name("Eterna (Cinema"), "Eterna (Cinema");
    assert_eq!(film_name("Classic/Chrome"), "Classic/Chrome");
}

#[test]
fn bw_words_match_in_any_case() {
    assert!(is_bw(Some("B&W")));
    assert!(is_bw(Some("ACROS")));
    assert!(!is_bw(Some("Standard")));
    assert!(!is_bw(Some("")));
}

#[test]
fn re_merging_its_own_output_changes_nothing() {
    let first = merge_records("{}", &[("A".to_string(), vec![("k", "1".to_string())])]).unwrap();
    assert_eq!(first, "{\n  \"A\": {\n    \"k\": 1\n  }\n}\n");
    assert_eq!(merge_records(&first, &[]).unwrap(), first);
    let spaced = "{ \"A\": { \"k\": [1, 2]  ,\n \"j\": \"x\"\n\t} }";
    let once = merge_records(spaced, &[]).unwrap();
    assert_eq!(once, "{\n  \"A\": {\n    \"k\": [1, 2],\n    \"j\": \"x\"\n  }\n}\n");
    assert_eq!(merge_records(&once, &[]).unwrap(), once);
}

#[test]
fn a_field_without_a_value_is_refused() {
    assert_eq!(
        merge_records("{ \"A\": { \"k\": } }", &[]),
        Err("A.k: expected a value".to_string())
    );
    assert!(merge_records("{ \"A\": { \"k\": , \"j\": 1 } }", &[]).is_err());
}

#[test]
fn a_non_ascii_stem_passes_through_untouched() {
    assert_eq!(
        merge_records("{\"é\": {\"k\": 1}}", &[]).unwrap(),
        "{\n  \"é\": {\n    \"k\": 1\n  }\n}\n"
    );
}

#[test]
fn a_signed_setting_reads_back() {
    for n in [0i64, 1, -1, 9, -10, 123, i64::MAX, i64::MIN + 1] {
        assert_eq!(leading_num(&signed(n)), Some(n));
        assert_eq!(leading_num(&format!("{} (x)", signed(n))), Some(n));
    }
    assert_eq!(leading_num(&signed(i64::MIN)), None);
}
