//! JPEG: find the EXIF APP1 segment, and the frame size.
//!
//! Segments are walked from the start and the walk stops at the first SOS,
//! because everything after that is compressed image data and nothing this
//! tool wants lives there.

use crate::bytes::bytes_at;
use vstd::prelude::*;
use vstd::slice::{slice_subrange, slice_to_vec};

verus! {

/// A big-endian 16-bit field.
pub open spec fn be16(d: Seq<u8>, at: int) -> nat {
    (256 * d[at] + d[at + 1]) as nat
}

/// "Exif\0\0"
pub open spec fn exif_header() -> Seq<u8> {
    seq![0x45u8, 0x78, 0x69, 0x66, 0x00, 0x00]
}

/// The EXIF TIFF block from position `i` of the segment walk on, with its
/// position in `d`.
pub open spec fn exif_from(d: Seq<u8>, i: int) -> Option<(Seq<u8>, u64)>
    decreases d.len() - i,
{
    if i < 0 || i >= d.len() {
        None
    } else if i + 1 < d.len() && d[i] == 0xFF && d[i + 1] == 0xFF {
        // Fill bytes of 0xFF are legal between segments.
        exif_from(d, i + 1)
    } else if d[i] != 0xFF || i + 1 >= d.len() {
        None
    } else if d[i + 1] == 0xDA || d[i + 1] == 0xD9 || i + 3 >= d.len() {
        // SOS starts image data; EOI ends the file.
        None
    } else if be16(d, i + 2) < 2 {
        None
    } else {
        let m = d[i + 1];
        let body = i + 4;
        let end = body + be16(d, i + 2) - 2;
        if m == 0xE1 && body + 6 <= d.len() && d.subrange(body, body + 6) == exif_header() {
            let t = body + 6;
            if t <= end && end <= d.len() {
                Some((d.subrange(t, end), t as u64))
            } else {
                None
            }
        } else if end >= d.len() {
            None
        } else {
            exif_from(d, end)
        }
    }
}

/// The TIFF block inside the EXIF APP1 segment, and its position.
pub open spec fn exif_spec(d: Seq<u8>) -> Option<(Seq<u8>, u64)> {
    if d.len() < 2 || d[0] != 0xFF || d[1] != 0xD8 {
        None
    } else {
        exif_from(d, 2)
    }
}

/// Return the TIFF block inside the EXIF APP1 segment, and its absolute
/// position in the file, given the file's first bytes.
///
/// The position matters because thumbnail offsets inside the EXIF are stored
/// TIFF-relative, so a caller that wants to extract one has to add it back.
pub fn exif(d: &[u8]) -> (r: Option<(Vec<u8>, u64)>)
    ensures
        match r {
            Some((t, at)) => exif_spec(d@) == Some((t@, at)),
            None => exif_spec(d@) is None,
        },
{
    if d.len() < 2 || d[0] != 0xFF || d[1] != 0xD8 {
        return None;
    }
    let hdr = [0x45u8, 0x78, 0x69, 0x66, 0x00, 0x00];
    assert(hdr@ == exif_header());
    let mut i: usize = 2;
    while i < d.len()
        invariant
            2 <= i,
            d@.len() <= usize::MAX,
            hdr@ == exif_header(),
            exif_spec(d@) == exif_from(d@, i as int),
        decreases d@.len() - i,
    {
        if i + 1 < d.len() && d[i] == 0xFF && d[i + 1] == 0xFF {
            i += 1;
            continue;
        }
        if d[i] != 0xFF || i + 1 >= d.len() {
            return None;
        }
        let m = d[i + 1];
        if m == 0xDA || m == 0xD9 || d.len() - i <= 3 {
            return None;
        }
        let len = d[i + 2] as usize * 256 + d[i + 3] as usize;
        if len < 2 {
            return None;
        }
        let body = i + 4;
        if len - 2 > d.len() - body {
            // The segment runs past the bytes: whatever it is, nothing comes
            // after it.
            return None;
        }
        let end = body + (len - 2);
        if m == 0xE1 && bytes_at(d, body, &hdr) {
            let t = body + 6;
            if t <= end {
                let block = slice_to_vec(slice_subrange(d, t, end));
                return Some((block, t as u64));
            }
            return None;
        }
        if end >= d.len() {
            return None;
        }
        i = end;
    }
    None
}

/// A start-of-frame marker: SOF0 to SOF15, less DHT, JPG and DAC.
pub open spec fn is_sof(m: u8) -> bool {
    0xC0 <= m <= 0xCF && m != 0xC4 && m != 0xC8 && m != 0xCC
}

/// The (width, height) of the first frame header from position `i` of the
/// segment walk on.
pub open spec fn size_from(d: Seq<u8>, i: int) -> Option<(u32, u32)>
    decreases d.len() - i,
{
    if i < 0 || i >= d.len() {
        None
    } else if i + 1 < d.len() && d[i] == 0xFF && d[i + 1] == 0xFF {
        size_from(d, i + 1)
    } else if d[i] != 0xFF || i + 1 >= d.len() {
        None
    } else if d[i + 1] == 0xDA || d[i + 1] == 0xD9 || i + 3 >= d.len() {
        None
    } else if be16(d, i + 2) < 2 {
        None
    } else {
        let m = d[i + 1];
        let body = i + 4;
        let end = body + be16(d, i + 2) - 2;
        if is_sof(m) {
            // Sample precision, then height, then width.
            if d.len() - body >= 5 {
                Some((be16(d, body + 3) as u32, be16(d, body + 1) as u32))
            } else {
                None
            }
        } else if end >= d.len() {
            None
        } else {
            size_from(d, end)
        }
    }
}

pub open spec fn dimensions_spec(d: Seq<u8>) -> Option<(u32, u32)> {
    if d.len() < 2 || d[0] != 0xFF || d[1] != 0xD8 {
        None
    } else {
        size_from(d, 2)
    }
}

/// The frame size from the first SOF segment, which is authoritative for a
/// JPEG and is the only source when the file carries no EXIF dimensions.
pub fn dimensions(d: &[u8]) -> (r: Option<(u32, u32)>)
    ensures
        r == dimensions_spec(d@),
{
    if d.len() < 2 || d[0] != 0xFF || d[1] != 0xD8 {
        return None;
    }
    let mut i: usize = 2;
    while i < d.len()
        invariant
            2 <= i,
            d@.len() <= usize::MAX,
            dimensions_spec(d@) == size_from(d@, i as int),
        decreases d@.len() - i,
    {
        if i + 1 < d.len() && d[i] == 0xFF && d[i + 1] == 0xFF {
            i += 1;
            continue;
        }
        if d[i] != 0xFF || i + 1 >= d.len() {
            return None;
        }
        let m = d[i + 1];
        if m == 0xDA || m == 0xD9 || d.len() - i <= 3 {
            return None;
        }
        let len = d[i + 2] as usize * 256 + d[i + 3] as usize;
        if len < 2 {
            return None;
        }
        let body = i + 4;
        if 0xC0 <= m && m <= 0xCF && m != 0xC4 && m != 0xC8 && m != 0xCC {
            if d.len() - body >= 5 {
                let h = d[body + 1] as u32 * 256 + d[body + 2] as u32;
                let w = d[body + 3] as u32 * 256 + d[body + 4] as u32;
                return Some((w, h));
            }
            return None;
        }
        if len - 2 >= d.len() - body {
            return None;
        }
        i = body + (len - 2);
    }
    None
}

} // verus!
