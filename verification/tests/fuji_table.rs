//! The FujiFilm Main table read out of Perl source shaped like ExifTool's.

use exif_sooc::fuji_gen::{
    fuji_table, name_from, pairs_from, parse_int, replace_chars, table_text, wanted_ids,
    Patterns, TableError, TagEntry, HEADER,
};

/// The first 21 wanted ids: just enough for a table to be written.
const IDS: [u16; 21] = [
    0x1000, 0x1001, 0x1002, 0x1003, 0x1004, 0x1005, 0x1006, 0x100a, 0x100b, 0x100e, 0x100f,
    0x1010, 0x1011, 0x1020, 0x1021, 0x1023, 0x1030, 0x1031, 0x1040, 0x1041, 0x1044,
];

fn block(id: u16, inside: &str) -> String {
    format!("    0x{id:04x} => {{\n{inside}    }},\n")
}

fn named(id: u16) -> String {
    block(id, &format!("        Name => 'T{id:04x}',\n"))
}

/// A Main table holding `ids` by name, in reverse order, then `extra`, then
/// another table.
fn source(ids: &[u16], extra: &str) -> String {
    let mut s = String::from("# FujiFilm tags\n\n%Image::ExifTool::FujiFilm::Main = (\n");
    s.push_str("    GROUPS => { 0 => 'MakerNotes', 2 => 'Camera' },\n");
    for &id in ids.iter().rev() {
        s.push_str(&named(id));
    }
    s.push_str(extra);
    s.push_str(");\n\n%Image::ExifTool::FujiFilm::RAF = (\n");
    s.push_str(&block(0x1005, "        Name => 'Late',\n"));
    s.push_str(");\n");
    s
}

fn rich_extra() -> String {
    let mut e = String::new();
    e.push_str(&block(
        0x1001,
        "        Name => 'Sharpness',\n        PrintConv => {\n            0x82 => 'Medium Soft',\n            1 => 'Soft',\n            0x0 => 'Normal',\n            -1 => 'n/a',\n            0x1 => 'Softer',\n            2 => 'It\\'s \\\\ ok',\n        },\n",
    ));
    e.push_str(&block(0x1002, "        Writable => 'int16u',\n"));
    e.push_str(&block(0x1003, "        Name => \"GrainEffectSize\",\n"));
    e.push_str(&block(0x1004, "        Name => 'Second',\n"));
    e.push_str(&block(0x9999, "        Name => 'Unwanted',\n"));
    e
}

#[test]
fn a_table_lists_the_wanted_tags_in_ascending_order() {
    let src = source(&IDS, &rich_extra());
    let t = match fuji_table(&src) {
        Ok(t) => t,
        Err(e) => panic!("{}", e.message("test.pm")),
    };
    let ids: Vec<u16> = t.entries.iter().map(|e| e.id).collect();
    assert_eq!(ids, IDS.to_vec());
    assert_eq!(t.entries[0].name, "T1000");
    assert!(t.entries[0].conv.is_empty());
    // A later block for the same id replaces the earlier one.
    assert_eq!(t.entries[4].name, "Second");
    // Either quote mark reads.
    assert_eq!(t.entries[3].name, "GrainEffectSize");
    // The table declared after Main is not read.
    assert_eq!(t.entries[5].name, "T1005");
}

#[test]
fn a_lookup_table_is_ordered_by_key_and_unescaped() {
    let src = source(&IDS, &rich_extra());
    let t = fuji_table(&src).ok().unwrap();
    let sharp = &t.entries[1];
    assert_eq!(sharp.name, "Sharpness");
    let conv: Vec<(i64, &str)> = sharp.conv.iter().map(|(k, v)| (*k, v.as_str())).collect();
    assert_eq!(
        conv,
        vec![
            (-1, "n/a"),
            (0, "Normal"),
            (1, "Soft"),
            (1, "Softer"),
            (2, "It's \\ ok"),
            (130, "Medium Soft"),
        ]
    );
}

#[test]
fn a_tag_without_a_name_is_reported_and_emitted_by_number() {
    let src = source(&IDS, &rich_extra());
    let t = fuji_table(&src).ok().unwrap();
    assert_eq!(t.entries[2].name, "Tag_1002");
    assert_eq!(t.warnings, vec!["no Name for 0x1002, emitting Tag_1002".to_string()]);
}

#[test]
fn the_written_file_holds_one_line_per_tag() {
    let src = source(&IDS, &rich_extra());
    let t = fuji_table(&src).ok().unwrap();
    let text = table_text(&t.entries);
    assert!(text.starts_with(HEADER));
    assert!(text.ends_with(" },\n];\n"));
    assert!(text.contains("    TagDef { id: 0x1000, name: \"T1000\", conv: Conv::None },\n"));
    assert!(text.contains(
        "    TagDef { id: 0x1001, name: \"Sharpness\", conv: Conv::Map(&[(-1, \"n/a\"), (0, \"Normal\"), (1, \"Soft\"), (1, \"Softer\"), (2, \"It's \\ ok\"), (130, \"Medium Soft\")]) },\n"
    ));
    assert_eq!(text.matches("TagDef {").count(), 21);
}

#[test]
fn a_quote_in_a_value_is_escaped_in_the_file() {
    let e = TagEntry {
        id: 0x00ab,
        name: "Greeting".to_string(),
        conv: vec![(5, "say \"hi\"".to_string())],
    };
    let text = table_text(&vec![e]);
    let body = &text[HEADER.len()..];
    assert_eq!(
        body,
        "    TagDef { id: 0x00ab, name: \"Greeting\", conv: Conv::Map(&[(5, \"say \\\"hi\\\"\")]) },\n];\n"
    );
}

#[test]
fn an_empty_table_file_is_the_header_and_the_close() {
    assert_eq!(table_text(&Vec::new()), format!("{HEADER}];\n"));
}

#[test]
fn too_few_tags_refuse_the_table() {
    let src = source(&IDS[..3], &block(0x1003, "        Writable => 'int16u',\n"));
    match fuji_table(&src) {
        Err(e @ TableError::TooFew { found: 4, .. }) => {
            assert_eq!(
                e.message("x.pm"),
                "only 4 of 43 tags matched, refusing to write a gutted table"
            );
            match e {
                TableError::TooFew { warnings, .. } => assert_eq!(
                    warnings,
                    vec!["no Name for 0x1003, emitting Tag_1003".to_string()]
                ),
                _ => unreachable!(),
            }
        }
        _ => panic!("expected too few"),
    }
}

#[test]
fn a_source_without_the_main_table_is_refused() {
    let src = "%Image::ExifTool::FujiFilm::RAF = (\n    0x1000 => { Name => 'Q' },\n);\n";
    match fuji_table(src) {
        Err(e @ TableError::NoMainTable) => {
            assert_eq!(e.message("x.pm"), "no FujiFilm::Main table in x.pm")
        }
        _ => panic!("expected no main table"),
    }
}

#[test]
fn an_id_beyond_sixteen_bits_keeps_its_low_bits() {
    let extra = "    0x11000 => {\n        Name => 'Wide',\n    },\n";
    let src = source(&IDS, extra);
    let t = fuji_table(&src).ok().unwrap();
    assert_eq!(t.entries[0].id, 0x1000);
    assert_eq!(t.entries[0].name, "Wide");
}

#[test]
fn lookup_pairs_read_from_given_spans() {
    let inner = "{ 0x10 => 'a', 7 => 'b', zz => 'c' }";
    let span = |s: &str| {
        let at = inner.find(s).unwrap();
        Some((at, at + s.len()))
    };
    let ms = vec![
        vec![Some((2, 13)), span("0x10"), span("a")],
        vec![Some((15, 23)), span("7"), span("b")],
        vec![Some((25, 34)), span("zz"), span("c")],
        vec![Some((0, 1)), span("7")],
    ];
    let got = pairs_from(inner, &ms);
    assert_eq!(got, vec![(7, "b".to_string()), (16, "a".to_string())]);
}

#[test]
fn a_name_reads_from_its_group_or_falls_back_to_the_id() {
    let blob = "{ Name => 'Quality' }";
    let at = blob.find("Quality").unwrap();
    let caps = Some(vec![Some((2, 19)), Some((at, at + 7))]);
    assert_eq!(name_from(blob, &caps, 0x1000), ("Quality".to_string(), true));
    assert_eq!(name_from(blob, &None, 0xab), ("Tag_00AB".to_string(), false));
    assert_eq!(name_from(blob, &Some(vec![Some((0, 1)), None]), 0x1abcd), ("Tag_1ABCD".to_string(), false));
}

#[test]
fn integers_read_as_from_str_radix_reads_them() {
    let c = |s: &str| s.chars().collect::<Vec<char>>();
    assert_eq!(parse_int(&c("0x7f"), 2, 16), Some(127));
    assert_eq!(parse_int(&c("+7F"), 0, 16), Some(127));
    assert_eq!(parse_int(&c("-8000000000000000"), 0, 16), Some(i64::MIN));
    assert_eq!(parse_int(&c("8000000000000000"), 0, 16), None);
    assert_eq!(parse_int(&c("9223372036854775807"), 0, 10), Some(i64::MAX));
    assert_eq!(parse_int(&c("12a"), 0, 10), None);
    assert_eq!(parse_int(&c("-"), 0, 10), None);
    assert_eq!(parse_int(&c(""), 0, 10), None);
    assert_eq!(parse_int(&c("-12"), 0, 10), Some(-12));
}

#[test]
fn replacing_scans_left_to_right_without_overlap() {
    let c = |s: &str| s.chars().collect::<Vec<char>>();
    let r: String = replace_chars(&c("a\\\\\\b"), &['\\', '\\'], &['\\']).into_iter().collect();
    assert_eq!(r, "a\\\\b");
    let r: String = replace_chars(&c("aaa"), &['a', 'a'], &['x']).into_iter().collect();
    assert_eq!(r, "xa");
}

#[test]
fn the_patterns_compile_and_the_wanted_list_is_ascending() {
    assert!(Patterns::new().is_some());
    let w = wanted_ids();
    assert_eq!(w.len(), 43);
    assert!(w.windows(2).all(|p| p[0] < p[1]));
}
