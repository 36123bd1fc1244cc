# exif_sooc

Camera metadata, and Fujifilm film recipes, read out of straight-out-of-camera
files (JPEG, HEIF, RAF, DNG). What is done with a file's bytes is proved
by Verus; reading the files themselves, and printing floating-point values,
is left to the command line in `app/`.

## Layout

- `src/` — the verified library.
  - `lib.rs`: formats, groups, tags, the photo and its recipe, the File group.
  - `jpeg.rs`, `bmff.rs`, `raf.rs`: finding the EXIF block in each container.
  - `tiff.rs`, `walk.rs`, `value.rs`, `tags.rs`, `fuji.rs`, `float.rs`: walking
    TIFF directories, decoding values, printing them as ExifTool does.
  - `write.rs`: stripping and grafting JPEG metadata, and setting Orientation.
  - `json.rs`, `text.rs`, `bytes.rs`: text and byte helpers.
  - `site.rs`: the per-photo records a site build consumes, and merging them
    into an existing document.
  - `output.rs`: what the command line prints (JSON, recipe cards, rows).
  - `fuji_gen.rs`: reading the FujiFilm MakerNotes table out of ExifTool's
    `FujiFilm.pm`, and writing it as Rust.
  - `compare.rs`: holding this library's output against ExifTool's.
- `tests/` — tests run against the compiled library.
- `app/` — the command line: arguments, files, threads, running ExifTool.
  Invoked under the name `xtask` it runs the project's tools
  (`fuji-tags`, `compare`, `compare-pipeline`).

Every function in `src/` carries a contract; the calls that leave the library
(`regex`, `serde_json`, and a few of std's) go through small wrappers whose
contracts say what those crates document.
