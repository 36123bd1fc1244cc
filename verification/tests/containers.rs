//! The three containers, built byte by byte, read through the library's
//! pure pieces.

use exif_sooc::walk::walk;
use exif_sooc::{Format, Group, Photo, Reading, Tag, Value};

/// A TIFF with Make, Model and an ExifIFD holding one rational.
fn tiff() -> Vec<u8> {
    let mut d = Vec::new();
    d.extend_from_slice(&[0x49, 0x49, 0x2A, 0x00, 0x08, 0x00, 0x00, 0x00]);
    d.extend_from_slice(&3u16.to_le_bytes());
    let entry = |d: &mut Vec<u8>, tag: u16, fmt: u16, count: u32, val: u32| {
        d.extend_from_slice(&tag.to_le_bytes());
        d.extend_from_slice(&fmt.to_le_bytes());
        d.extend_from_slice(&count.to_le_bytes());
        d.extend_from_slice(&val.to_le_bytes());
    };
    entry(&mut d, 0x010F, 2, 9, 50); // Make
    entry(&mut d, 0x0110, 2, 7, 59); // Model
    entry(&mut d, 0x8769, 4, 1, 66); // ExifIFD
    d.extend_from_slice(&0u32.to_le_bytes());
    assert_eq!(d.len(), 50);
    d.extend_from_slice(b"FUJIFILM\0");
    d.extend_from_slice(b"X-T50\0\0");
    assert_eq!(d.len(), 66);
    d.extend_from_slice(&1u16.to_le_bytes());
    entry(&mut d, 0x829A, 5, 1, 84);
    d.extend_from_slice(&0u32.to_le_bytes());
    assert_eq!(d.len(), 84);
    d.extend_from_slice(&1u32.to_le_bytes());
    d.extend_from_slice(&500u32.to_le_bytes());
    d
}

fn jpeg_with(tiff: &[u8]) -> Vec<u8> {
    let mut d = vec![0xFF, 0xD8];
    let payload_len = tiff.len() + 6 + 2;
    d.extend_from_slice(&[0xFF, 0xE1]);
    d.extend_from_slice(&(payload_len as u16).to_be_bytes());
    d.extend_from_slice(b"Exif\0\0");
    d.extend_from_slice(tiff);
    d.extend_from_slice(&[0xFF, 0xDA]);
    d
}

/// The tags of a TIFF block, with the printed form where it is exact.
fn photo(format: Format, tiff: &[u8]) -> Photo {
    let mut readings: Vec<Reading> = Vec::new();
    walk(tiff, &mut readings);
    let tags = readings
        .into_iter()
        .map(|r| Tag {
            group: r.group,
            name: r.name,
            print: r.print.unwrap_or_default(),
            value: r.value,
        })
        .collect();
    Photo {
        path: "t".into(),
        format,
        tags,
    }
}

#[test]
fn jpeg_exif_is_found_and_walked() {
    let t = tiff();
    let file = jpeg_with(&t);
    assert_eq!(exif_sooc::sniff(&file), Some(Format::Jpeg));
    let (block, at) = exif_sooc::jpeg::exif(&file).unwrap();
    assert_eq!(block, t);
    assert_eq!(at, 12);
    let p = photo(Format::Jpeg, &block);
    assert_eq!(p.camera().as_deref(), Some("FUJIFILM X-T50"));
    let et = p.get("ExposureTime").unwrap();
    assert!(matches!(et.value, Value::Ratio(1, 500)));
    assert_eq!(et.group, Group::Exif);
}

#[test]
fn heif_exif_is_located_through_iinf_and_iloc() {
    let boxed = |kind: &[u8; 4], body: &[u8]| {
        let mut b = ((body.len() + 8) as u32).to_be_bytes().to_vec();
        b.extend_from_slice(kind);
        b.extend_from_slice(body);
        b
    };
    const ID: u16 = 768;
    let mut infe = vec![2u8, 0, 0, 0];
    infe.extend_from_slice(&ID.to_be_bytes());
    infe.extend_from_slice(&0u16.to_be_bytes());
    infe.extend_from_slice(b"Exif");
    infe.push(0);
    let infe = boxed(b"infe", &infe);

    let mut iinf = vec![0u8, 0, 0, 0];
    iinf.extend_from_slice(&1u16.to_be_bytes());
    iinf.extend_from_slice(&infe);
    let iinf = boxed(b"iinf", &iinf);

    let mut iloc = vec![1u8, 0, 0, 0];
    iloc.extend_from_slice(&0x4400u16.to_be_bytes());
    iloc.extend_from_slice(&1u16.to_be_bytes());
    iloc.extend_from_slice(&ID.to_be_bytes());
    iloc.extend_from_slice(&0u16.to_be_bytes());
    iloc.extend_from_slice(&0u16.to_be_bytes());
    iloc.extend_from_slice(&1u16.to_be_bytes());
    let patch = iloc.len();
    iloc.extend_from_slice(&0u32.to_be_bytes());
    let t = tiff();
    let payload_len = 4 + 6 + t.len();
    iloc.extend_from_slice(&(payload_len as u32).to_be_bytes());
    let iloc = boxed(b"iloc", &iloc);

    let mut meta = vec![0u8, 0, 0, 0];
    meta.extend_from_slice(&iinf);
    let iloc_in_meta = meta.len();
    meta.extend_from_slice(&iloc);
    let meta = boxed(b"meta", &meta);

    let mut ftyp = b"heix".to_vec();
    ftyp.extend_from_slice(&0u32.to_be_bytes());
    ftyp.extend_from_slice(b"mif1heix");
    let ftyp = boxed(b"ftyp", &ftyp);

    let mut file = ftyp.clone();
    let meta_at = file.len();
    file.extend_from_slice(&meta);
    let payload_at = file.len() as u32;
    file.extend_from_slice(&6u32.to_be_bytes());
    file.extend_from_slice(b"Exif\0\0");
    file.extend_from_slice(&t);

    let at = meta_at + 8 + iloc_in_meta + 8 + patch;
    file[at..at + 4].copy_from_slice(&payload_at.to_be_bytes());

    assert_eq!(exif_sooc::sniff(&file), Some(Format::Heif));
    assert_eq!(
        exif_sooc::bmff::meta_end(&file),
        Some(meta_at + meta.len())
    );
    let (offset, len) = exif_sooc::bmff::exif_location(&file).unwrap();
    assert_eq!(offset, payload_at as u64);
    assert_eq!(len, payload_len as u64);
    let payload = &file[offset as usize..offset as usize + len as usize];
    let (block, block_at) = exif_sooc::bmff::exif_from_payload(payload, offset).unwrap();
    assert_eq!(block, t);
    assert_eq!(block_at, payload_at as u64 + 10);
    let p = photo(Format::Heif, &block);
    assert_eq!(p.camera().as_deref(), Some("FUJIFILM X-T50"));
}

#[test]
fn raf_reduces_to_its_embedded_jpeg() {
    let jpeg = jpeg_with(&tiff());
    let mut d = vec![0u8; 112];
    d[..8].copy_from_slice(b"FUJIFILM");
    d[84..88].copy_from_slice(&112u32.to_be_bytes());
    d[88..92].copy_from_slice(&(jpeg.len() as u32).to_be_bytes());
    d.extend_from_slice(&jpeg);
    assert_eq!(exif_sooc::sniff(&d), Some(Format::Raf));
    let (base, len) = exif_sooc::raf::jpeg_span(&d).unwrap();
    assert_eq!((base, len), (112, jpeg.len()));
    let inner = &d[base as usize..base as usize + len];
    let (block, _) = exif_sooc::jpeg::exif(inner).unwrap();
    let p = photo(Format::Raf, &block);
    assert!(matches!(
        p.get("ExposureTime").unwrap().value,
        Value::Ratio(1, 500)
    ));
}

#[test]
fn portrait_dimensions_are_orientation_corrected() {
    let mut t = Vec::new();
    t.extend_from_slice(&[0x49, 0x49, 0x2A, 0x00, 0x08, 0x00, 0x00, 0x00]);
    t.extend_from_slice(&2u16.to_le_bytes());
    let e = |t: &mut Vec<u8>, tag: u16, fmt: u16, count: u32, val: u32| {
        t.extend_from_slice(&tag.to_le_bytes());
        t.extend_from_slice(&fmt.to_le_bytes());
        t.extend_from_slice(&count.to_le_bytes());
        t.extend_from_slice(&val.to_le_bytes());
    };
    e(&mut t, 0x0112, 3, 1, 8);
    e(&mut t, 0x8769, 4, 1, 38);
    t.extend_from_slice(&0u32.to_le_bytes());
    assert_eq!(t.len(), 38);
    t.extend_from_slice(&2u16.to_le_bytes());
    e(&mut t, 0xA002, 4, 1, 7728);
    e(&mut t, 0xA003, 4, 1, 5152);
    t.extend_from_slice(&0u32.to_le_bytes());

    let file = jpeg_with(&t);
    let (block, _) = exif_sooc::jpeg::exif(&file).unwrap();
    let p = photo(Format::Jpeg, &block);
    assert!(p.dimensions_readable());
    assert_eq!(p.dimensions(), Some((5152, 7728)));
}

#[test]
fn a_file_that_is_none_of_the_three_is_refused() {
    assert_eq!(
        exif_sooc::sniff(&[0x89, b'P', b'N', b'G', 0, 0, 0, 0, 0, 0, 0, 0]),
        None
    );
}

#[test]
fn truncated_files_give_nothing_rather_than_a_panic() {
    let full = jpeg_with(&tiff());
    for cut in [2, 8, 20, 40, full.len() - 3] {
        let r = exif_sooc::jpeg::exif(&full[..cut]);
        assert!(r.is_none());
    }
}

#[test]
fn the_frame_size_comes_from_the_sof() {
    let mut d = vec![0xFF, 0xD8];
    d.extend_from_slice(&[0xFF, 0xC4, 0x00, 0x04, 0x00, 0x00]); // DHT
    d.extend_from_slice(&[0xFF, 0xC0, 0x00, 0x0B, 0x08, 0x0F, 0xA0, 0x1E, 0x20]); // 8000x4000? no: h=0x0FA0, w=0x1E20
    d.extend_from_slice(&[0x03, 0x01, 0x11]);
    assert_eq!(exif_sooc::jpeg::dimensions(&d), Some((0x1E20, 0x0FA0)));
}

#[test]
fn the_file_group_is_named_and_sized() {
    let r = exif_sooc::file_tags(
        Some("a.jpg".into()),
        Some(String::new()),
        1234,
        "1234 bytes".into(),
        Format::Jpeg,
    );
    let names: Vec<&str> = r.iter().map(|t| t.name).collect();
    assert_eq!(
        names,
        vec!["FileName", "Directory", "FileSize", "FileType", "MIMEType"]
    );
    assert_eq!(r[1].print.as_deref(), Some("."));
    assert_eq!(r[3].print.as_deref(), Some("JPEG"));
    assert_eq!(r[4].print.as_deref(), Some("image/jpeg"));
    assert!(matches!(r[2].value, Value::U32(1234)));
}
