//! Segment surgery on JPEG bytes.

use exif_sooc::write::{app1_from_tiff, app1_segments, rewrite, set_orientation};

/// SOI, an APP1, a DQT, then SOS and some scan data containing an 0xFF
/// byte that must not be read as a marker.
fn sample() -> Vec<u8> {
    let mut d = vec![0xFF, 0xD8];
    d.extend_from_slice(&[0xFF, 0xE1, 0x00, 0x08]);
    d.extend_from_slice(b"Exif\0\0");
    d.extend_from_slice(&[0xFF, 0xDB, 0x00, 0x04, 0x11, 0x22]);
    d.extend_from_slice(&[0xFF, 0xDA, 0x00, 0x03, 0x00]);
    d.extend_from_slice(&[0x12, 0xFF, 0x00, 0x34, 0xFF, 0xD9]);
    d
}

/// A progressive JPEG: two scans separated by a DHT, then EOI.
fn progressive() -> Vec<u8> {
    let mut d = vec![0xFF, 0xD8];
    d.extend_from_slice(&[0xFF, 0xE1, 0x00, 0x08]);
    d.extend_from_slice(b"Exif\0\0");
    d.extend_from_slice(&[0xFF, 0xC2, 0x00, 0x04, 0x11, 0x22]); // SOF2
    d.extend_from_slice(&[0xFF, 0xDA, 0x00, 0x03, 0x00]); // first SOS
    d.extend_from_slice(&[0x12, 0xFF, 0x00, 0x34]); // entropy, stuffed FF
    d.extend_from_slice(&[0xFF, 0xC4, 0x00, 0x04, 0xAA, 0xBB]); // DHT
    d.extend_from_slice(&[0xFF, 0xDA, 0x00, 0x03, 0x01]); // second SOS
    d.extend_from_slice(&[0x56, 0xFF, 0x00, 0x78]); // more entropy
    d.extend_from_slice(&[0xFF, 0xD9]);
    d
}

#[test]
fn stripping_keeps_the_coding_segments_and_the_scan() {
    let out = rewrite(&sample(), &[]).unwrap();
    assert_eq!(&out[..2], &[0xFF, 0xD8]);
    assert!(app1_segments(&out).unwrap().is_empty(), "APP1 is gone");
    assert!(out.windows(2).any(|w| w == [0xFF, 0xDB]));
    assert!(out.ends_with(&[0x12, 0xFF, 0x00, 0x34, 0xFF, 0xD9]));
}

#[test]
fn grafting_puts_the_source_segment_first() {
    let src = sample();
    let app1 = app1_segments(&src).unwrap();
    assert_eq!(app1.len(), 1);
    let bare = rewrite(&sample(), &[]).unwrap();
    let out = rewrite(&bare, &app1).unwrap();
    assert_eq!(&out[2..4], &[0xFF, 0xE1], "APP1 sits directly after SOI");
    assert_eq!(app1_segments(&out).unwrap().len(), 1);
}

#[test]
fn the_scan_is_never_walked() {
    let out = rewrite(&sample(), &[]).unwrap();
    assert!(out.len() > 8);
}

#[test]
fn a_progressive_jpeg_keeps_every_scan() {
    let full = progressive();
    let out = rewrite(&full, &[]).unwrap();
    assert!(out.ends_with(&[0xFF, 0xD9]), "ends at EOI");
    assert_eq!(out.windows(2).filter(|w| *w == [0xFF, 0xDA]).count(), 2);
    assert!(out.windows(2).any(|w| w == [0xFF, 0xC4]));
    assert!(out.windows(4).any(|w| w == [0x56, 0xFF, 0x00, 0x78]));
    assert!(
        app1_segments(&out).unwrap().is_empty(),
        "metadata still gone"
    );
}

#[test]
fn a_trailer_after_a_progressive_image_is_still_dropped() {
    let mut d = progressive();
    d.extend_from_slice(b"TRAILING");
    let out = rewrite(&d, &[]).unwrap();
    assert!(out.ends_with(&[0xFF, 0xD9]));
    assert!(!out.windows(8).any(|w| w == b"TRAILING"));
}

#[test]
fn a_trailer_after_eoi_is_dropped() {
    let mut d = sample();
    d.extend_from_slice(b"TRAILING PAYLOAD");
    let out = rewrite(&d, &[]).unwrap();
    assert!(out.ends_with(&[0xFF, 0xD9]), "the file ends at EOI");
    assert!(!out.windows(8).any(|w| w == b"TRAILING"));
}

#[test]
fn a_stuffed_ff_in_the_scan_is_not_the_end() {
    let out = rewrite(&sample(), &[]).unwrap();
    assert!(out.ends_with(&[0x12, 0xFF, 0x00, 0x34, 0xFF, 0xD9]));
}

#[test]
fn a_tiff_block_becomes_a_well_formed_app1() {
    let seg = app1_from_tiff(&[0x49, 0x49, 0x2A, 0x00]).unwrap();
    assert_eq!(&seg[..2], &[0xFF, 0xE1]);
    assert_eq!(u16::from_be_bytes([seg[2], seg[3]]) as usize, seg.len() - 2);
    assert_eq!(&seg[4..10], b"Exif\0\0");
}

#[test]
fn orientation_can_be_forced_to_upright() {
    // A minimal APP1 with one IFD0 entry: Orientation = 8.
    let mut tiff = vec![0x49, 0x49, 0x2A, 0x00, 8, 0, 0, 0];
    tiff.extend_from_slice(&1u16.to_le_bytes());
    tiff.extend_from_slice(&0x0112u16.to_le_bytes());
    tiff.extend_from_slice(&3u16.to_le_bytes());
    tiff.extend_from_slice(&1u32.to_le_bytes());
    tiff.extend_from_slice(&8u32.to_le_bytes());
    tiff.extend_from_slice(&0u32.to_le_bytes());
    let seg = app1_from_tiff(&tiff).unwrap();
    let out = set_orientation(&seg, 1).unwrap();
    assert_eq!(out.len(), seg.len());
    assert_ne!(out, seg);
    let at = 10 + 8 + 2 + 8;
    assert_eq!(u16::from_le_bytes([out[at], out[at + 1]]), 1);
}

#[test]
fn a_segment_without_orientation_is_left_alone() {
    let tiff = vec![0x49, 0x49, 0x2A, 0x00, 8, 0, 0, 0, 0, 0, 0, 0, 0, 0];
    let seg = app1_from_tiff(&tiff).unwrap();
    assert_eq!(set_orientation(&seg, 1).unwrap(), seg);
}

#[test]
fn an_oversized_exif_is_refused_rather_than_truncated() {
    assert!(app1_from_tiff(&vec![0u8; 70_000]).is_err());
}

#[test]
fn a_file_that_is_not_a_jpeg_is_refused() {
    assert!(rewrite(&[0x89, b'P', b'N', b'G'], &[]).is_err());
}

// ----------------------------------------------------------- further cases

#[test]
fn the_refusals_say_why() {
    assert_eq!(rewrite(&[0x89, b'P'], &[]).unwrap_err(), "not a JPEG");
    assert_eq!(
        rewrite(&[0xFF, 0xD8, 0x00, 0x00], &[]).unwrap_err(),
        "expected a marker at 0x2"
    );
    assert_eq!(
        rewrite(&[0xFF, 0xD8, 0xFF, 0xE1, 0x00, 0x20, 0x00], &[]).unwrap_err(),
        "segment length past the end of the file"
    );
    assert_eq!(
        rewrite(&[0xFF, 0xD8, 0xFF, 0xE1, 0x00], &[]).unwrap_err(),
        "truncated segment header"
    );
    assert_eq!(
        rewrite(&[0xFF, 0xD8, 0xFF, 0xE1, 0x00, 0x01, 0xFF, 0xDA], &[]).unwrap_err(),
        "segment length past the end of the file"
    );
    assert_eq!(
        rewrite(&[0xFF, 0xD8], &[]).unwrap_err(),
        "ran out of file before the scan"
    );
    assert_eq!(
        app1_from_tiff(&vec![0u8; 70_000]).unwrap_err(),
        "EXIF is 70000 bytes, too large for one APP1 segment"
    );
}

#[test]
fn a_marker_deep_in_the_file_is_reported_in_hex() {
    let mut d = vec![0xFF, 0xD8];
    d.extend_from_slice(&[0xFF, 0xDB, 0x00, 0x1C]);
    d.extend_from_slice(&[0u8; 26]);
    d.extend_from_slice(&[0x00, 0x00]);
    assert_eq!(rewrite(&d, &[]).unwrap_err(), "expected a marker at 0x20");
}

#[test]
fn the_largest_block_that_fits_is_wrapped() {
    let seg = app1_from_tiff(&vec![7u8; 0xFFFF - 8]).unwrap();
    assert_eq!(seg.len(), 0xFFFF + 2);
    assert_eq!(&seg[2..4], &[0xFF, 0xFF]);
    assert!(app1_from_tiff(&vec![7u8; 0xFFFF - 7]).is_err());
}

#[test]
fn a_big_endian_orientation_is_written_big_endian() {
    let mut tiff = vec![0x4D, 0x4D, 0x00, 0x2A, 0, 0, 0, 8];
    tiff.extend_from_slice(&1u16.to_be_bytes());
    tiff.extend_from_slice(&0x0112u16.to_be_bytes());
    tiff.extend_from_slice(&3u16.to_be_bytes());
    tiff.extend_from_slice(&1u32.to_be_bytes());
    tiff.extend_from_slice(&[0, 6, 0, 0]);
    tiff.extend_from_slice(&0u32.to_be_bytes());
    let seg = app1_from_tiff(&tiff).unwrap();
    let out = set_orientation(&seg, 0x0102).unwrap();
    let at = 10 + 8 + 2 + 8;
    assert_eq!(&out[at..at + 2], &[0x01, 0x02]);
    let mut rest = out.clone();
    rest[at] = seg[at];
    rest[at + 1] = seg[at + 1];
    assert_eq!(rest, seg, "nothing but the two value bytes moves");
}

#[test]
fn orientation_refuses_what_is_not_an_exif_segment() {
    assert_eq!(
        set_orientation(&[0xFF, 0xE0, 0, 0], 1).unwrap_err(),
        "not an APP1 EXIF segment"
    );
    let mut seg = app1_from_tiff(&[0x41; 12]).unwrap();
    assert_eq!(set_orientation(&seg, 1).unwrap_err(), "no TIFF header");
    seg[10..14].copy_from_slice(&[0x49, 0x49, 0x2A, 0x00]);
    seg[14..18].copy_from_slice(&200u32.to_le_bytes());
    assert_eq!(set_orientation(&seg, 1).unwrap_err(), "truncated IFD");
    seg[14..18].copy_from_slice(&8u32.to_le_bytes());
    seg[18..20].copy_from_slice(&3u16.to_le_bytes());
    assert_eq!(set_orientation(&seg, 1).unwrap_err(), "truncated entry");
}

#[test]
fn grafting_a_built_segment_reads_back_through_the_exif_reader() {
    let tiff = vec![0x49, 0x49, 0x2A, 0x00, 8, 0, 0, 0, 0, 0, 0, 0, 0, 0];
    let seg = app1_from_tiff(&tiff).unwrap();
    let out = rewrite(&sample(), &[seg.clone()]).unwrap();
    assert_eq!(app1_segments(&out).unwrap(), vec![seg]);
    let (block, at) = exif_sooc::jpeg::exif(&out).unwrap();
    assert_eq!(block, tiff);
    assert_eq!(at, 12);
}

#[test]
fn restart_markers_and_fill_do_not_end_the_scan() {
    let mut d = vec![0xFF, 0xD8];
    d.extend_from_slice(&[0xFF, 0xDA, 0x00, 0x02]);
    d.extend_from_slice(&[0x01, 0xFF, 0xD0, 0x02, 0xFF, 0xFF, 0x03, 0xFF, 0xD9]);
    d.extend_from_slice(b"tail");
    let out = rewrite(&d, &[]).unwrap();
    assert_eq!(out, d[..d.len() - 4].to_vec());
}

#[test]
fn a_trailer_after_an_eoi_with_no_scan_is_dropped() {
    let jpeg = [0xFF, 0xD8, 0xFF, 0xE1, 0x00, 0x04, 0x45, 0x78, 0xFF, 0xD9, 0x12, 0x34, 0x56, 0x78];
    assert_eq!(exif_sooc::write::rewrite(&jpeg, &[]).unwrap(), vec![0xFF, 0xD8, 0xFF, 0xD9]);
    assert_eq!(
        exif_sooc::write::rewrite(&[0xFF, 0xD8, 0xFF, 0xD9, 1, 2, 3, 4], &[]).unwrap(),
        vec![0xFF, 0xD8, 0xFF, 0xD9]
    );
}

#[test]
fn stripping_twice_changes_nothing() {
    for jpeg in [sample(), progressive()] {
        let once = rewrite(&jpeg, &[]).unwrap();
        assert_eq!(rewrite(&once, &[]).unwrap(), once);
    }
}

#[test]
fn stripping_a_grafted_file_gives_the_plain_strip() {
    let src = progressive();
    let bare = rewrite(&sample(), &[]).unwrap();
    let mut com = vec![0xFF, 0xFE, 0x00, 0x05];
    com.extend_from_slice(b"hi!");
    let mut segs = app1_segments(&src).unwrap();
    segs.push(com);
    let grafted = rewrite(&sample(), &segs).unwrap();
    assert_eq!(rewrite(&grafted, &[]).unwrap(), bare);
}

#[test]
fn the_app1_segments_of_a_grafted_file_are_the_grafted_ones() {
    let bare = rewrite(&sample(), &[]).unwrap();
    let mut second = vec![0xFF, 0xE1, 0x00, 0x06];
    second.extend_from_slice(b"XMP!");
    let segs = vec![app1_segments(&progressive()).unwrap()[0].clone(), second];
    let out = rewrite(&bare, &segs).unwrap();
    assert_eq!(app1_segments(&out).unwrap(), segs);
    assert_eq!(app1_segments(&bare).unwrap(), Vec::<Vec<u8>>::new());
}
