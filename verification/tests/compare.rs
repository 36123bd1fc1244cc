//! The checks against ExifTool: keying reports, comparing, and the report.

use exif_sooc::compare::{
    check_pipeline, check_tags, file_output, is_blank, photo_files, pipe_report_text,
    tag_report_text, Naming,
};
use exif_sooc::site::Doc;

fn doc_of(json: &str, naming: Naming) -> Doc {
    let mut d: Doc = Vec::new();
    assert!(file_output(&mut d, json.as_bytes(), &naming).is_ok());
    d
}

fn keys(d: &Doc) -> Vec<String> {
    d.iter().map(|(k, _)| k.iter().collect()).collect()
}

#[test]
fn only_photographs_are_read_in_name_order() {
    let names: Vec<String> = [
        "b.JPG", "a.raf", ".hidden", "notes.txt", "c.tiff", "x.", ".jpg", "d.jpeg.bak", "e.dng",
        "f.Hif",
    ]
    .iter()
    .map(|s| s.to_string())
    .collect();
    assert_eq!(photo_files(&names), vec!["a.raf", "b.JPG", "c.tiff", "e.dng", "f.Hif"]);
}

#[test]
fn objects_are_filed_by_the_file_name_of_their_source() {
    let d = doc_of(
        r#"[{"SourceFile":"/x/a.jpg","EXIF:Make":"FUJIFILM","EXIF:ISO":400},{"SourceFile":5},{"no":"source"},7]"#,
        Naming::SourceFile,
    );
    assert_eq!(keys(&d), vec!["a.jpg"]);
    let fields: Vec<(String, String)> = d[0].1.clone();
    assert_eq!(
        fields,
        vec![
            ("EXIF:ISO".to_string(), "400".to_string()),
            ("EXIF:Make".to_string(), "FUJIFILM".to_string()),
            ("SourceFile".to_string(), "/x/a.jpg".to_string()),
        ]
    );
}

#[test]
fn a_later_object_for_the_same_file_replaces_the_earlier() {
    let d = doc_of(
        r#"[{"SourceFile":"b.jpg","K":"1"},{"SourceFile":"a.jpg","K":"2"},{"SourceFile":"b.jpg","K":"3"}]"#,
        Naming::SourceFile,
    );
    assert_eq!(keys(&d), vec!["a.jpg", "b.jpg"]);
    assert_eq!(d[1].1[0].1, "3");
}

#[test]
fn the_pipeline_names_by_file_name_first() {
    let d = doc_of(
        r#"[{"SourceFile":"/d/a.jpg","FileName":"renamed.jpg"},{"SourceFile":"/d/b.jpg"},{"FileName":3}]"#,
        Naming::FileName,
    );
    assert_eq!(keys(&d), vec!["b.jpg", "renamed.jpg"]);
}

#[test]
fn unreadable_output_leaves_the_report_alone() {
    let mut d: Doc = Vec::new();
    assert!(file_output(&mut d, b"{\"SourceFile\":", &Naming::SourceFile).is_err());
    assert!(d.is_empty());
    assert!(is_blank(b" \n\t\r"));
    assert!(!is_blank(b" [] "));
}

#[test]
fn tags_are_compared_within_their_group() {
    let et = doc_of(
        r#"[{"SourceFile":"/d/a.jpg","EXIF:Make":"FUJIFILM","MakerNotes:FilmMode":"Classic Chrome","EXIF:ISO":400,"File:FileType":"JPEG"}]"#,
        Naming::SourceFile,
    );
    let ours = doc_of(
        r#"[{"SourceFile":"a.jpg","EXIF:Make":"FUJIFILM","FujiFilm:FilmMode":"Provia","EXIF:ISO":400,"File:FileType":"JPG","Computed:X":1,"NoGroup":1,"EXIF:Extra":3}]"#,
        Naming::SourceFile,
    );
    let files = vec!["a.jpg".to_string(), "missing.jpg".to_string()];
    let t = check_tags(&et, &ours, &files);
    assert_eq!((t.same, t.differ), (2, 1));
    let (out, err, code) = tag_report_text(files.len(), &t);
    let line = format!(
        "  {:26} x{:<4} {:16} exiftool={:?} ours={:?}\n",
        "FilmMode", 1, "a.jpg", "Classic Chrome", "Provia"
    );
    assert_eq!(out, format!("2 files: 2 tags agree, 1 disagree\n\nmismatches:\n{line}"));
    assert_eq!(err, "");
    assert_eq!(code, 1);
}

#[test]
fn a_tag_check_that_compares_nothing_fails() {
    let et: Doc = Vec::new();
    let ours: Doc = Vec::new();
    let t = check_tags(&et, &ours, &vec!["a.jpg".to_string()]);
    let (out, err, code) = tag_report_text(1, &t);
    assert_eq!(out, "1 files: 0 tags agree, 0 disagree\n");
    assert_eq!(err, "\ncompared 0 tags, which means the harness is broken rather than the tool\n");
    assert_eq!(code, 1);
}

#[test]
fn an_agreeing_tag_check_passes() {
    let et = doc_of(r#"{"SourceFile":"a.jpg","EXIF:ISO":100}"#, Naming::SourceFile);
    let t = check_tags(&et, &et, &vec!["a.jpg".to_string()]);
    assert_eq!(tag_report_text(1, &t), ("1 files: 1 tags agree, 0 disagree\n".to_string(), String::new(), 0));
}

#[test]
fn the_pipeline_counts_missing_and_differing_keys() {
    let et = doc_of(
        r#"[{"SourceFile":"/d/a.jpg","FileName":"a.jpg","Make":"FUJIFILM","Model":"X-T5","ISO":400},{"SourceFile":"/d/b.jpg","FileName":"b.jpg","Make":"FUJIFILM"}]"#,
        Naming::FileName,
    );
    let ours = doc_of(
        r#"[{"SourceFile":"a.jpg","FileName":"a.jpg","Make":"FUJIFILM","ISO":200}]"#,
        Naming::FileName,
    );
    let t = check_pipeline(&et, &ours);
    assert_eq!((t.same, t.differ, t.absent), (2, 4, 1));
    let (out, err, code) = pipe_report_text(et.len(), &t);
    let line = |label: &str, f: &str, theirs: &str, mine: &str| {
        format!("  {label:30} x{:<4} {f:16} exiftool={theirs:?} ours={mine:?}\n", 1)
    };
    let want = format!(
        "2 files, 2 field values identical, 4 differences\n1 of those files were not reported at all\n{}{}{}{}",
        line("FileName (missing)", "b.jpg", "b.jpg", "(absent)"),
        line("ISO (differs)", "a.jpg", "400", "200"),
        line("Make (missing)", "b.jpg", "FUJIFILM", "(absent)"),
        line("Model (missing)", "a.jpg", "X-T5", "(absent)"),
    );
    assert_eq!(out, want);
    assert_eq!(err, "");
    assert_eq!(code, 1);
}

#[test]
fn the_most_frequent_difference_is_ranked_first() {
    let et = doc_of(
        r#"[{"FileName":"a.jpg","A":"1","B":"1"},{"FileName":"b.jpg","B":"2"}]"#,
        Naming::FileName,
    );
    let ours = doc_of(r#"[{"FileName":"a.jpg"},{"FileName":"b.jpg"}]"#, Naming::FileName);
    let t = check_pipeline(&et, &ours);
    let (out, _, _) = pipe_report_text(et.len(), &t);
    let lines: Vec<&str> = out.lines().collect();
    assert!(lines[1].starts_with("  B (missing)"));
    assert!(lines[1].contains(" x2 "));
    assert!(lines[2].starts_with("  A (missing)"));
}

#[test]
fn a_difference_shows_both_values_as_debug_shows_them() {
    let et = doc_of(r#"{"FileName":"a.jpg","Title":"say \"hi\"\nthere"}"#, Naming::FileName);
    let ours = doc_of(r#"{"FileName":"a.jpg","Title":"tab\there"}"#, Naming::FileName);
    let t = check_pipeline(&et, &ours);
    let (out, _, _) = pipe_report_text(et.len(), &t);
    let line = format!(
        "  {:30} x{:<4} {:16} exiftool={:?} ours={:?}\n",
        "Title (differs)", 1, "a.jpg", "say \"hi\"\nthere", "tab\there"
    );
    assert!(out.ends_with(&line), "{out}");
}

#[test]
fn values_that_are_not_strings_are_filed_as_compact_json() {
    let d = doc_of(
        r#"{"SourceFile":"a.jpg","N":-1.5e3,"B":true,"Z":null,"L":[1, "x", {"k": 2}],"O":{"b":1,"a":[]}}"#,
        Naming::SourceFile,
    );
    assert_eq!(keys(&d), vec!["a.jpg"]);
    let fields: Vec<(String, String)> = d[0].1.clone();
    assert_eq!(
        fields,
        vec![
            ("B".to_string(), "true".to_string()),
            ("L".to_string(), r#"[1,"x",{"k":2}]"#.to_string()),
            ("N".to_string(), "-1500.0".to_string()),
            ("O".to_string(), r#"{"a":[],"b":1}"#.to_string()),
            ("SourceFile".to_string(), "a.jpg".to_string()),
            ("Z".to_string(), "null".to_string()),
        ]
    );
}
