//! Fujifilm RAF.
//!
//! The container is a thin wrapper: a 112-byte header, then an embedded JPEG
//! that carries the whole EXIF including the MakerNotes. So RAF costs one
//! header read plus whatever the JPEG path needs, and reduces to it.

use crate::bytes::{has_prefix, starts_with};
use crate::fuji::sig_fujifilm;
use crate::text::{from_utf8_lossy, trim, trimmed, utf8_lossy};
use crate::tiff::{nul_at, rd32, read32};
use vstd::prelude::*;
use vstd::slice::slice_subrange;

verus! {

/// The camera model in the header: the NUL-terminated text at 0x1c, at most
/// 32 bytes, decoded and trimmed.
pub open spec fn model_spec(front: Seq<u8>) -> Option<Seq<char>> {
    if front.len() < 0x1c + 32 {
        None
    } else {
        let d = front.subrange(28, 60);
        Some(trim(utf8_lossy(d.take(nul_at(d)))))
    }
}

/// The camera model string in the RAF header, which is written there directly
/// rather than only in the embedded EXIF.
pub fn model(front: &[u8]) -> (r: Option<String>)
    ensures
        match r {
            Some(s) => model_spec(front@) == Some(s@),
            None => model_spec(front@) is None,
        },
{
    if front.len() < 0x1c + 32 {
        return None;
    }
    let d = slice_subrange(front, 0x1c, 0x1c + 32);
    let end = crate::tiff::find_nul(d, 0, 32);
    assert(d@.subrange(0, 32) =~= d@);
    proof {
        crate::tiff::lemma_nul_at_bound(d@);
    }
    let head = slice_subrange(d, 0, end);
    assert(head@ =~= d@.take(end as int));
    let s = from_utf8_lossy(head);
    let t = trimmed(s.as_str());
    Some(String::from_str(t))
}

/// Where the embedded JPEG is: (offset, length), read big-endian at byte 84,
/// when the header names a plausible one.
pub open spec fn jpeg_span_spec(front: Seq<u8>) -> Option<(u64, usize)> {
    if !starts_with(front, sig_fujifilm()) || front.len() < 92 {
        None
    } else {
        let pos = rd32(front, 84, false);
        let len = rd32(front, 88, false);
        if pos == 0 || len == 0 || (pos / 0x8000) % 2 == 1 {
            None
        } else {
            Some((pos as u64, len as usize))
        }
    }
}

/// Where the embedded JPEG lies in the file.
pub fn jpeg_span(front: &[u8]) -> (r: Option<(u64, usize)>)
    ensures
        r == jpeg_span_spec(front@),
{
    let magic = [0x46u8, 0x55, 0x4a, 0x49, 0x46, 0x49, 0x4c, 0x4d];
    assert(magic@ == sig_fujifilm());
    if !has_prefix(front, &magic) || front.len() < 92 {
        return None;
    }
    let pos = read32(front, 84, false);
    let len = read32(front, 88, false);
    if pos == 0 || len == 0 || (pos / 0x8000) % 2 == 1 {
        return None;
    }
    Some((pos as u64, len as usize))
}

} // verus!
