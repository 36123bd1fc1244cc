//! What the command line prints: JSON objects, recipe cards and rows.

use exif_sooc::output::{card_text, emit_json, render, row_text, Mode};
use exif_sooc::{json, Format, Group, Photo, Tag, Value};

fn tag(group: Group, name: &'static str, value: Value, print: &str) -> Tag {
    Tag { group, name, value, print: print.to_string() }
}

fn fuji(name: &'static str, print: &str) -> Tag {
    tag(Group::Fuji, name, Value::Text(print.to_string()), print)
}

fn x_t50() -> Photo {
    Photo {
        path: "/photos/DSCF0001.JPG".to_string(),
        format: Format::Jpeg,
        tags: vec![
            tag(Group::Exif, "Make", Value::Text("FUJIFILM".into()), "FUJIFILM"),
            tag(Group::Exif, "Model", Value::Text("X-T50".into()), "X-T50"),
            tag(Group::Exif, "ExposureTime", Value::Ratio(1, 500), "1/500"),
            tag(Group::Exif, "FNumber", Value::Ratio(28, 10), "2.8"),
            tag(Group::Exif, "ISO", Value::U32(400), "400"),
            tag(Group::Exif, "ExifImageWidth", Value::U32(6240), "6240"),
            tag(Group::Exif, "ExifImageHeight", Value::U32(4160), "4160"),
            tag(Group::Exif, "Orientation", Value::U32(6), "Rotate 90 CW"),
            tag(Group::Exif, "LensModel", Value::Text("XF23mmF1.4 R".into()), "XF23mmF1.4 R"),
            tag(Group::Exif, "Artist", Value::Text("say \"hi\"".into()), "say \"hi\""),
            fuji("FilmMode", "Classic Chrome"),
            fuji("GrainEffectRoughness", "Weak"),
            fuji("GrainEffectSize", "Small"),
            fuji("WhiteBalance", "Auto"),
            tag(Group::Fuji, "ColorTemperature", Value::U32(5500), "5500"),
            fuji("DynamicRange", "Standard"),
            fuji("Sharpness", ""),
        ],
    }
}

/// A JSON object as the command line has always written one.
fn expected_json(p: &Photo) -> String {
    let mut out = String::from("  {\n    \"SourceFile\": ");
    json::escape(&p.path, &mut out);
    out.push_str(",\n    \"File:FileType\": ");
    json::escape(p.format.as_str(), &mut out);
    for t in &p.tags {
        out.push_str(",\n    ");
        json::escape(&format!("{}:{}", t.group.as_str(), t.name), &mut out);
        out.push_str(": ");
        json::scalar(&t.print, &mut out);
    }
    if let Some((w, h)) = p.dimensions() {
        out.push_str(&format!(
            ",\n    \"Computed:DisplayWidth\": {w},\n    \"Computed:DisplayHeight\": {h}"
        ));
    }
    out.push_str("\n  }");
    out
}

#[test]
fn a_json_object_lists_every_tag_and_the_shown_size() {
    let p = x_t50();
    let mut out = String::new();
    emit_json(&p, &mut out);
    assert_eq!(out, expected_json(&p));
    assert!(out.contains("\"EXIF:ISO\": 400"));
    assert!(out.contains("\"EXIF:Artist\": \"say \\\"hi\\\"\""));
    // A quarter turn swaps the stored pair.
    assert!(out.ends_with("\"Computed:DisplayWidth\": 4160,\n    \"Computed:DisplayHeight\": 6240\n  }"));
}

#[test]
fn a_card_shows_the_shot_and_the_recipe() {
    let p = x_t50();
    let mut out = String::new();
    card_text("DSCF0001.JPG", &p, &mut out);
    let want = "DSCF0001.JPG\n\
                \x20 Camera                 FUJIFILM X-T50\n\
                \x20 Lens                   XF23mmF1.4 R\n\
                \x20 Exposure               1/500\n\
                \x20 Aperture               2.8\n\
                \x20 ISO                    400\n\
                \x20 Film Simulation        Classic Chrome\n\
                \x20 Dynamic Range          Standard\n\
                \x20 Grain                  Weak, Small\n\
                \x20 White Balance          Auto (5500K)\n\
                \n";
    assert_eq!(out, want);
}

#[test]
fn a_card_without_fujifilm_tags_says_so() {
    let mut p = x_t50();
    p.tags.retain(|t| t.group != Group::Fuji);
    let mut out = String::new();
    card_text("a.jpg", &p, &mut out);
    assert!(out.ends_with("  ISO                    400\n  (no Fujifilm recipe)\n\n"));
}

#[test]
fn a_row_has_seven_columns() {
    let p = x_t50();
    let mut out = String::new();
    row_text("DSCF0001.JPG", &p, &mut out);
    assert_eq!(out, "DSCF0001.JPG\tFUJIFILM X-T50\tXF23mmF1.4 R\t1/500\t2.8\t400\tClassic Chrome\n");
    let mut bare = Photo { path: "b.jpg".into(), format: Format::Jpeg, tags: Vec::new() };
    bare.tags.clear();
    let mut out = String::new();
    row_text("b.jpg", &bare, &mut out);
    assert_eq!(out, "b.jpg\t\t\t\t\t\t\n");
}

#[test]
fn the_json_document_joins_the_readable_files() {
    let p = x_t50();
    let results = vec![
        ("one.jpg".to_string(), Ok(p.clone())),
        ("bad.jpg".to_string(), Err("not an image".to_string())),
        ("two.jpg".to_string(), Ok(p.clone())),
    ];
    let names = vec!["one.jpg".to_string(), String::new(), "two.jpg".to_string()];
    let (out, errors, all_failed) = render(&Mode::Json, &results, &names);
    let obj = expected_json(&p);
    assert_eq!(out, format!("[\n{obj},\n{obj}\n]\n"));
    assert_eq!(errors, vec!["bad.jpg: not an image".to_string()]);
    assert!(!all_failed);
}

#[test]
fn a_run_fails_only_when_every_file_failed() {
    let results: Vec<(String, Result<Photo, String>)> =
        vec![("a".into(), Err("x".into())), ("b".into(), Err("y".into()))];
    let names = vec![String::new(), String::new()];
    let (out, errors, all_failed) = render(&Mode::Tsv, &results, &names);
    assert_eq!(out, "file\tcamera\tlens\tshutter\taperture\tiso\tfilm\n");
    assert_eq!(errors.len(), 2);
    assert!(all_failed);
    let (out, _, all_failed) = render(&Mode::Json, &Vec::new(), &Vec::new());
    assert_eq!(out, "[\n\n]\n");
    assert!(!all_failed);
}

#[test]
fn recipe_mode_prints_one_card_per_file() {
    let p = x_t50();
    let results = vec![("x".to_string(), Ok(p.clone())), ("y".to_string(), Ok(p.clone()))];
    let names = vec!["x.jpg".to_string(), "y.jpg".to_string()];
    let (out, errors, _) = render(&Mode::Recipe, &results, &names);
    assert!(errors.is_empty());
    assert!(out.starts_with("x.jpg\n  Camera"));
    assert_eq!(out.matches("\n\n").count(), 2);
    assert!(out.contains("\n\ny.jpg\n"));
}

#[test]
fn a_card_is_headed_by_the_file_name_of_the_path() {
    let p = x_t50();
    assert_eq!(exif_sooc::output::shown_name(&p), "DSCF0001.JPG");
    let q = Photo { path: "/".into(), format: Format::Jpeg, tags: Vec::new() };
    assert_eq!(exif_sooc::output::shown_name(&q), "");
}

#[test]
fn a_bare_file_name_heads_its_card_and_keys_its_record() {
    let p = Photo { path: "DSCF0002.HIF".into(), format: Format::Heif, tags: Vec::new() };
    assert_eq!(exif_sooc::output::shown_name(&p), "DSCF0002.HIF");
    assert_eq!(exif_sooc::site::stem(&p), "DSCF0002");
    let hidden = Photo { path: ".hidden".into(), format: Format::Jpeg, tags: Vec::new() };
    assert_eq!(exif_sooc::site::stem(&hidden), ".hidden");
    let dotted = Photo { path: "a.b.jpg".into(), format: Format::Jpeg, tags: Vec::new() };
    assert_eq!(exif_sooc::site::stem(&dotted), "a.b");
}

#[test]
fn only_a_tag_read_as_an_integer_can_make_a_photo_unreadable() {
    let bad = Value::Ratio(i64::MIN, -1);
    let tag = |name: &'static str| Tag { group: Group::Exif, name, value: bad.clone(), print: "x".into() };
    let p = Photo { path: "a.jpg".into(), format: Format::Jpeg, tags: vec![tag("ExposureTime")] };
    assert!(p.dimensions_readable() && p.recipe_readable());
    let q = Photo { path: "a.jpg".into(), format: Format::Jpeg, tags: vec![tag("ExifImageWidth")] };
    assert!(!q.dimensions_readable());
    assert!(!exif_sooc::output::is_readable_in(&Mode::Json, &q));
    assert!(exif_sooc::output::is_readable_in(&Mode::Recipe, &q));
    // The height is only read where the width gives a number.
    let width_less = Photo { path: "a.jpg".into(), format: Format::Jpeg, tags: vec![tag("ExifImageHeight")] };
    assert!(width_less.dimensions_readable());
}

#[test]
fn a_card_and_a_record_refuse_only_what_they_read() {
    let bad = Value::Ratio(i64::MIN, -1);
    let with = |group: Group, name: &'static str| Photo {
        path: "a.jpg".into(),
        format: Format::Jpeg,
        tags: vec![Tag { group, name, value: bad.clone(), print: "x".into() }],
    };
    let dr = with(Group::Fuji, "DevelopmentDynamicRange");
    assert!(exif_sooc::site::record_is_readable(&dr));
    assert!(!exif_sooc::site::card_is_readable(&dr));
    assert_eq!(exif_sooc::site::record(&dr).len(), 32);
    let width = with(Group::Exif, "ImageWidth");
    assert!(!exif_sooc::site::record_is_readable(&width));
    assert!(exif_sooc::site::card_is_readable(&width));
    assert_eq!(exif_sooc::site::recipe_card(&width, None), None);
    // The colour temperature is read only for a Kelvin white balance.
    let mut kelvin = with(Group::Exif, "ColorTemperature");
    assert!(exif_sooc::site::card_is_readable(&kelvin));
    kelvin.tags.push(Tag {
        group: Group::Fuji,
        name: "WhiteBalance",
        value: Value::Text("Kelvin".into()),
        print: "Kelvin".into(),
    });
    assert!(!exif_sooc::site::card_is_readable(&kelvin));
}

#[test]
fn a_path_with_a_directory_is_keyed_and_shown_by_its_file_name() {
    let p = Photo { path: "dir/sub/DSCF1.JPG".into(), format: Format::Jpeg, tags: Vec::new() };
    assert_eq!(exif_sooc::site::stem(&p), "DSCF1");
    assert_eq!(exif_sooc::output::shown_name(&p), "DSCF1.JPG");
    let rooted = Photo { path: "/photos/a.b.raf".into(), format: Format::Raf, tags: Vec::new() };
    assert_eq!(exif_sooc::site::stem(&rooted), "a.b");
    assert_eq!(exif_sooc::output::shown_name(&rooted), "a.b.raf");
}
