//! Editing a JPEG's metadata segments.
//!
//! Not a general metadata writer, and deliberately so. Both jobs this covers
//! are segment surgery rather than tag editing: dropping the APP markers, or
//! moving them from one file to another. Neither one parses or rebuilds a
//! single EXIF tag, so neither can corrupt one.
//!
//!   stripping   drops every APPn (JFIF, EXIF, XMP, ICC, IPTC) and COM,
//!               leaving the coding segments and the scan
//!   grafting    strips the destination the same way, then inserts the
//!               source's APP1 segments (EXIF and XMP) directly after SOI
//!
//! The entropy-coded scan is never touched, so both operations are lossless
//! in the strict sense: the pixels are the same bytes afterwards.

use crate::bytes::{append_bytes, bytes_at};
use crate::jpeg::{be16, exif_header};
use crate::text::{dec_nat, hex_nat, push_dec, push_hex};
use vstd::prelude::*;
use vstd::slice::{slice_subrange, slice_to_vec};

verus! {

/// Markers that carry metadata rather than coding tables: APP0 to APP15, and
/// COM.
pub open spec fn is_metadata(marker: u8) -> bool {
    (0xE0 <= marker <= 0xEF) || marker == 0xFE
}

fn metadata_marker(marker: u8) -> (r: bool)
    ensures
        r == is_metadata(marker),
{
    (0xE0 <= marker && marker <= 0xEF) || marker == 0xFE
}

/// Markers that stand alone, with no length after them: RST0 to RST7, and TEM.
pub open spec fn is_standalone(marker: u8) -> bool {
    (0xD0 <= marker <= 0xD7) || marker == 0x01
}

/// A segment before the scan: its marker, and where it starts (at its 0xFF)
/// and ends.
pub struct Seg {
    pub marker: u8,
    pub start: int,
    pub end: int,
}

/// A segment as the walk records it.
pub struct Span {
    pub marker: u8,
    pub start: usize,
    pub end: usize,
}

impl View for Span {
    type V = Seg;

    open spec fn view(&self) -> Seg {
        Seg { marker: self.marker, start: self.start as int, end: self.end as int }
    }
}

pub open spec fn spans_view(v: Seq<Span>) -> Seq<Seg> {
    v.map_values(|s: Span| s@)
}

/// Why the segments before the scan could not be walked.
pub enum WalkError {
    NotJpeg,
    RanOut,
    NoMarker(usize),
    Truncated,
    PastEnd,
}

/// The text each walk failure is reported with.
pub open spec fn walk_message(e: WalkError) -> Seq<char> {
    match e {
        WalkError::NotJpeg => "not a JPEG"@,
        WalkError::RanOut => "ran out of file before the scan"@,
        WalkError::NoMarker(i) => "expected a marker at 0x"@ + hex_nat(i as nat),
        WalkError::Truncated => "truncated segment header"@,
        WalkError::PastEnd => "segment length past the end of the file"@,
    }
}

fn walk_error_text(e: &WalkError) -> (r: String)
    ensures
        r@ == walk_message(*e),
{
    match e {
        WalkError::NotJpeg => String::from_str("not a JPEG"),
        WalkError::RanOut => String::from_str("ran out of file before the scan"),
        WalkError::NoMarker(i) => {
            let mut s = String::from_str("expected a marker at 0x");
            push_hex(&mut s, *i as u64);
            s
        },
        WalkError::Truncated => String::from_str("truncated segment header"),
        WalkError::PastEnd => String::from_str("segment length past the end of the file"),
    }
}

/// The segments from position `i` on, after the ones in `acc`, and where the
/// scan starts.
///
/// Stops at SOS, because everything after it is entropy-coded data in which
/// an 0xFF byte is data rather than a marker; EOI ends an image with none.
pub open spec fn walk_from(d: Seq<u8>, i: int, acc: Seq<Seg>) -> Result<
    (Seq<Seg>, int),
    WalkError,
>
    decreases d.len() - i,
{
    if i < 0 || i + 1 >= d.len() {
        Err(WalkError::RanOut)
    } else if d[i] != 0xFF {
        Err(WalkError::NoMarker(i as usize))
    } else {
        let m = d[i + 1];
        if m == 0xDA || m == 0xD9 {
            Ok((acc, i))
        } else if is_standalone(m) {
            walk_from(d, i + 2, acc)
        } else if i + 3 >= d.len() {
            Err(WalkError::Truncated)
        } else {
            let len = be16(d, i + 2);
            if len < 2 || i + 2 + len > d.len() {
                Err(WalkError::PastEnd)
            } else {
                walk_from(d, i + 2 + len, acc.push(Seg { marker: m, start: i, end: i + 2 + len }))
            }
        }
    }
}

/// The segments before the scan, in file order, and where the scan starts.
pub open spec fn walk_spec(d: Seq<u8>) -> Result<(Seq<Seg>, int), WalkError> {
    if d.len() < 2 || d[0] != 0xFF || d[1] != 0xD8 {
        Err(WalkError::NotJpeg)
    } else {
        walk_from(d, 2, Seq::empty())
    }
}

fn walk(d: &[u8]) -> (r: Result<(Vec<Span>, usize), WalkError>)
    ensures
        match r {
            Ok((v, scan)) => walk_spec(d@) == Ok::<(Seq<Seg>, int), WalkError>(
                (spans_view(v@), scan as int),
            ),
            Err(e) => walk_spec(d@) == Err::<(Seq<Seg>, int), WalkError>(e),
        },
{
    let len = d.len();
    if len < 2 || d[0] != 0xFF || d[1] != 0xD8 {
        return Err(WalkError::NotJpeg);
    }
    let mut spans: Vec<Span> = Vec::new();
    assert(spans_view(spans@) =~= Seq::<Seg>::empty());
    let mut i: usize = 2;
    loop
        invariant
            2 <= i <= len == d@.len(),
            walk_spec(d@) == walk_from(d@, i as int, spans_view(spans@)),
        decreases len - i,
    {
        if len - i <= 1 {
            return Err(WalkError::RanOut);
        }
        if d[i] != 0xFF {
            return Err(WalkError::NoMarker(i));
        }
        let m = d[i + 1];
        if m == 0xDA || m == 0xD9 {
            return Ok((spans, i));
        }
        if (0xD0 <= m && m <= 0xD7) || m == 0x01 {
            i = i + 2;
            continue;
        }
        if len - i <= 3 {
            return Err(WalkError::Truncated);
        }
        let seg_len = d[i + 2] as usize * 256 + d[i + 3] as usize;
        if seg_len < 2 || seg_len > len - i - 2 {
            return Err(WalkError::PastEnd);
        }
        let ghost before = spans@;
        let s = Span { marker: m, start: i, end: i + 2 + seg_len };
        spans.push(s);
        assert(spans_view(spans@) =~= spans_view(before).push(s@));
        i = i + 2 + seg_len;
    }
}

/// Every segment that `walk_from` records lies in the bytes, opens with 0xFF
/// and its marker, and declares its own length; and the scan position it
/// gives holds a marker, SOS or EOI.
pub open spec fn seg_ok(d: Seq<u8>, s: Seg) -> bool {
    &&& 0 <= s.start
    &&& s.start + 4 <= s.end <= d.len()
    &&& d[s.start] == 0xFF
    &&& d[s.start + 1] == s.marker
    &&& s.marker != 0xDA && s.marker != 0xD9 && !is_standalone(s.marker)
    &&& be16(d, s.start + 2) == s.end - s.start - 2
}

pub open spec fn all_ok(d: Seq<u8>, segs: Seq<Seg>) -> bool {
    forall|k: int| 0 <= k < segs.len() ==> seg_ok(d, #[trigger] segs[k])
}

pub proof fn lemma_walk_ok(d: Seq<u8>, i: int, acc: Seq<Seg>)
    requires
        all_ok(d, acc),
    ensures
        walk_from(d, i, acc) matches Ok((segs, scan)) ==> {
            &&& all_ok(d, segs)
            &&& 0 <= scan && scan + 1 < d.len()
            &&& d[scan] == 0xFF
            &&& (d[scan + 1] == 0xDA || d[scan + 1] == 0xD9)
        },
    decreases d.len() - i,
{
    if i < 0 || i + 1 >= d.len() {
    } else if d[i] != 0xFF {
    } else {
        let m = d[i + 1];
        if m == 0xDA || m == 0xD9 {
        } else if is_standalone(m) {
            lemma_walk_ok(d, i + 2, acc);
        } else if i + 3 >= d.len() {
        } else {
            let len = be16(d, i + 2);
            if len < 2 || i + 2 + len > d.len() {
            } else {
                let s = Seg { marker: m, start: i, end: i + 2 + len };
                let acc2 = acc.push(s);
                assert forall|k: int| 0 <= k < acc2.len() implies seg_ok(d, #[trigger] acc2[k]) by {
                    if k < acc.len() {
                        assert(acc2[k] == acc[k]);
                    }
                }
                lemma_walk_ok(d, i + 2 + len, acc2);
            }
        }
    }
}

/// The APP1 segments among `segs`, in order.
pub open spec fn app1_of(segs: Seq<Seg>) -> Seq<Seg>
    decreases segs.len(),
{
    if segs.len() == 0 {
        Seq::empty()
    } else if segs.last().marker == 0xE1 {
        app1_of(segs.drop_last()).push(segs.last())
    } else {
        app1_of(segs.drop_last())
    }
}

/// The segments among `segs` that are not metadata, in order.
pub open spec fn kept_of(segs: Seq<Seg>) -> Seq<Seg>
    decreases segs.len(),
{
    if segs.len() == 0 {
        Seq::empty()
    } else if !is_metadata(segs.last().marker) {
        kept_of(segs.drop_last()).push(segs.last())
    } else {
        kept_of(segs.drop_last())
    }
}

/// The bytes of each segment, one piece per segment.
pub open spec fn pieces(d: Seq<u8>, segs: Seq<Seg>) -> Seq<Seq<u8>> {
    Seq::new(segs.len(), |k: int| d.subrange(segs[k].start, segs[k].end))
}

/// Every APP1 segment, whole, in file order.
pub fn app1_segments(jpeg: &[u8]) -> (r: Result<Vec<Vec<u8>>, String>)
    ensures
        match walk_spec(jpeg@) {
            Ok((segs, _)) => r matches Ok(v) && v.deep_view() == pieces(jpeg@, app1_of(segs)),
            Err(e) => r matches Err(m) && m@ == walk_message(e),
        },
{
    let (spans, _) = match walk(jpeg) {
        Ok(w) => w,
        Err(e) => return Err(walk_error_text(&e)),
    };
    proof {
        lemma_walk_ok(jpeg@, 2, Seq::empty());
    }
    let ghost segs = spans_view(spans@);
    let mut out: Vec<Vec<u8>> = Vec::new();
    let mut k: usize = 0;
    while k < spans.len()
        invariant
            0 <= k <= spans@.len(),
            segs == spans_view(spans@),
            all_ok(jpeg@, segs),
            out.deep_view() == pieces(jpeg@, app1_of(segs.take(k as int))),
        decreases spans.len() - k,
    {
        let s = &spans[k];
        assert(segs.take(k + 1).drop_last() =~= segs.take(k as int));
        assert(segs[k as int] == s@);
        if s.marker == 0xE1 {
            let piece = slice_to_vec(slice_subrange(jpeg, s.start, s.end));
            let ghost before = out.deep_view();
            assert(piece.deep_view() =~= piece@);
            out.push(piece);
            assert(out.deep_view() =~= before.push(piece@));
            assert(pieces(jpeg@, app1_of(segs.take(k + 1))) =~= pieces(
                jpeg@,
                app1_of(segs.take(k as int)),
            ).push(jpeg@.subrange(s.start as int, s.end as int)));
        }
        k += 1;
    }
    assert(segs.take(spans@.len() as int) =~= segs);
    Ok(out)
}


/// An APP1 EXIF segment around a bare TIFF block: the marker, the segment
/// length (which counts itself), the `Exif\0\0` header, then the block.
pub open spec fn app1_spec(tiff: Seq<u8>) -> Seq<u8> {
    let len = tiff.len() + 8;
    seq![0xFFu8, 0xE1, (len / 256) as u8, (len % 256) as u8] + exif_header() + tiff
}

/// Wrap a bare TIFF block as an APP1 EXIF segment.
///
/// This is the path for a source that is not a JPEG. A HEIF keeps its EXIF
/// as an item rather than a segment, so there is nothing to copy across
/// verbatim and the envelope has to be built. A block too large for one
/// segment is refused: writing a truncated EXIF block would make a file that
/// parses and lies.
pub fn app1_from_tiff(tiff: &[u8]) -> (r: Result<Vec<u8>, String>)
    ensures
        tiff@.len() + 8 <= 0xFFFF ==> (r matches Ok(seg) && seg@ == app1_spec(tiff@)),
        tiff@.len() + 8 > 0xFFFF ==> (r matches Err(m) && m@ == "EXIF is "@ + dec_nat(
            tiff@.len(),
        ) + " bytes, too large for one APP1 segment"@),
{
    if tiff.len() > 0xFFFF - 8 {
        let mut m = String::from_str("EXIF is ");
        push_dec(&mut m, tiff.len() as u64);
        m.append(" bytes, too large for one APP1 segment");
        return Err(m);
    }
    let len = tiff.len() + 8;
    let mut seg: Vec<u8> = vec![
        0xFF,
        0xE1,
        (len / 256) as u8,
        (len % 256) as u8,
        0x45,
        0x78,
        0x69,
        0x66,
        0x00,
        0x00,
    ];
    assert(seg@ =~= seq![0xFFu8, 0xE1, (len / 256) as u8, (len % 256) as u8] + exif_header());
    append_bytes(&mut seg, tiff);
    Ok(seg)
}

pub open spec fn tiff_ii() -> Seq<u8> {
    seq![0x49u8, 0x49, 0x2A, 0x00]
}

pub open spec fn tiff_mm() -> Seq<u8> {
    seq![0x4Du8, 0x4D, 0x00, 0x2A]
}

/// The Orientation entry among `k` directory entries from position `e` of the
/// TIFF block `t` on: where its value sits in the segment.
pub open spec fn orientation_from(t: Seq<u8>, le: bool, e: int, k: nat) -> Result<
    Option<int>,
    Seq<char>,
>
    decreases k,
{
    if k == 0 {
        Ok(None)
    } else if e + 2 > t.len() {
        Err("truncated entry"@)
    } else if crate::tiff::rd16(t, e, le) == 0x0112 {
        Ok(Some(10 + e + 8))
    } else {
        orientation_from(t, le, e + 12, (k - 1) as nat)
    }
}

/// Where the Orientation value sits in an APP1 EXIF segment, and the byte
/// order of its TIFF block; `None` when IFD0 has no Orientation entry.
pub open spec fn orientation_spec(app1: Seq<u8>) -> Result<Option<(int, bool)>, Seq<char>> {
    if app1.len() < 20 || app1[0] != 0xFF || app1[1] != 0xE1 || app1.subrange(4, 10)
        != exif_header() {
        Err("not an APP1 EXIF segment"@)
    } else {
        let t = app1.subrange(10, app1.len() as int);
        let order: Option<bool> = if t.take(4) == tiff_ii() {
            Some(true)
        } else if t.take(4) == tiff_mm() {
            Some(false)
        } else {
            None
        };
        match order {
            None => Err("no TIFF header"@),
            Some(le) => {
                let ifd0 = crate::tiff::rd32(t, 4, le) as int;
                if ifd0 + 2 > t.len() {
                    Err("truncated IFD"@)
                } else {
                    let n = crate::tiff::rd16(t, ifd0, le);
                    match orientation_from(t, le, ifd0 + 2, n as nat) {
                        Err(m) => Err(m),
                        Ok(None) => Ok(None),
                        Ok(Some(at)) => Ok(Some((at, le))),
                    }
                }
            },
        }
    }
}

/// The two bytes of `value` in the given byte order.
pub open spec fn u16_bytes(value: u16, le: bool) -> (u8, u8) {
    if le {
        ((value % 256) as u8, (value / 256) as u8)
    } else {
        ((value / 256) as u8, (value % 256) as u8)
    }
}

proof fn lemma_orientation_at(t: Seq<u8>, le: bool, e: int, k: nat, i: int)
    requires
        0 <= e,
        0 <= i < k,
        e + 12 * i + 2 <= t.len(),
        crate::tiff::rd16(t, e + 12 * i, le) == 0x0112,
        forall|j: int| 0 <= j < i ==> #[trigger] crate::tiff::rd16(t, e + 12 * j, le) != 0x0112,
    ensures
        orientation_from(t, le, e, k) == Ok::<Option<int>, Seq<char>>(Some(10 + e + 12 * i + 8)),
    decreases i,
{
    if i > 0 {
        assert(crate::tiff::rd16(t, e + 12 * 0, le) != 0x0112);
        assert(e + 12 * 0 == e);
        assert forall|j: int| 0 <= j < i - 1 implies #[trigger] crate::tiff::rd16(
            t,
            (e + 12) + 12 * j,
            le,
        ) != 0x0112 by {
            assert(crate::tiff::rd16(t, e + 12 * (j + 1), le) != 0x0112);
            assert((e + 12) + 12 * j == e + 12 * (j + 1));
        }
        assert((e + 12) + 12 * (i - 1) == e + 12 * i);
        lemma_orientation_at(t, le, e + 12, (k - 1) as nat, i - 1);
    }
}

/// The Orientation that is set is IFD0's first Orientation entry, wherever
/// it stands among the directory's entries: the two value bytes of that
/// entry are overwritten, and they then read as the new value in the TIFF
/// block's own byte order.
pub proof fn law_the_first_orientation_entry_is_the_one_set(
    app1: Seq<u8>,
    t: Seq<u8>,
    le: bool,
    ifd0: int,
    i: int,
    value: u16,
)
    requires
        app1.len() >= 20,
        app1[0] == 0xFF,
        app1[1] == 0xE1,
        app1.subrange(4, 10) == exif_header(),
        t == app1.subrange(10, app1.len() as int),
        if le {
            t.take(4) == tiff_ii()
        } else {
            t.take(4) == tiff_mm()
        },
        ifd0 == crate::tiff::rd32(t, 4, le),
        ifd0 + 2 <= t.len(),
        0 <= i < crate::tiff::rd16(t, ifd0, le),
        ifd0 + 2 + 12 * i + 10 <= t.len(),
        crate::tiff::rd16(t, ifd0 + 2 + 12 * i, le) == 0x0112,
        forall|j: int|
            0 <= j < i ==> #[trigger] crate::tiff::rd16(t, ifd0 + 2 + 12 * j, le) != 0x0112,
    ensures
        orientation_spec(app1) == Ok::<Option<(int, bool)>, Seq<char>>(
            Some((10 + ifd0 + 2 + 12 * i + 8, le)),
        ),
        ({
            let at = 10 + ifd0 + 2 + 12 * i + 8;
            let out = app1.update(at, u16_bytes(value, le).0).update(at + 1, u16_bytes(value, le).1);
            &&& at + 2 <= app1.len()
            &&& out.len() == app1.len()
            &&& crate::tiff::rd16(out.subrange(10, out.len() as int), at - 10, le) == value
            &&& forall|x: int| 0 <= x < app1.len() && x != at && x != at + 1 ==> out[x] == app1[x]
        }),
{
    if !le {
        assert(t.take(4) != tiff_ii()) by {
            assert(t.take(4)[0] == 0x4D);
        }
    }
    lemma_orientation_at(t, le, ifd0 + 2, crate::tiff::rd16(t, ifd0, le) as nat, i);
    let at = 10 + ifd0 + 2 + 12 * i + 8;
    let out = app1.update(at, u16_bytes(value, le).0).update(at + 1, u16_bytes(value, le).1);
    let ot = out.subrange(10, out.len() as int);
    assert(ot[at - 10] == u16_bytes(value, le).0);
    assert(ot[at - 9] == u16_bytes(value, le).1);
    assert(at - 10 + 1 == at - 9);
}

/// Overwrite EXIF Orientation inside an APP1 segment.
///
/// The one tag worth being able to set. When metadata is copied onto an
/// export whose rotation is already baked into its pixels, carrying the
/// source's Orientation across tells every viewer that honours EXIF to turn
/// the frame a second time, and a portrait lands on its side.
///
/// Orientation is a SHORT stored inline in its directory entry, so this
/// overwrites two bytes and touches nothing else. A segment with no
/// Orientation entry is left alone rather than grown: inserting an entry
/// means rewriting every offset in the directory.
pub fn set_orientation(app1: &[u8], value: u16) -> (r: Result<Vec<u8>, String>)
    requires
        orientation_spec(app1@) matches Ok(Some((at, _))) ==> at + 2 <= app1@.len(),
    ensures
        match orientation_spec(app1@) {
            Err(m) => r matches Err(x) && x@ == m,
            Ok(None) => r matches Ok(out) && out@ == app1@,
            Ok(Some((at, le))) => r matches Ok(out) && out@ == app1@.update(
                at,
                u16_bytes(value, le).0,
            ).update(at + 1, u16_bytes(value, le).1),
        },
{
    let hdr = [0x45u8, 0x78, 0x69, 0x66, 0x00, 0x00];
    assert(hdr@ == exif_header());
    if app1.len() < 20 || app1[0] != 0xFF || app1[1] != 0xE1 || !bytes_at(app1, 4, &hdr) {
        return Err(String::from_str("not an APP1 EXIF segment"));
    }
    let t = slice_subrange(app1, 10, app1.len());
    let le = if t[0] == 0x49 && t[1] == 0x49 && t[2] == 0x2A && t[3] == 0x00 {
        assert(t@.take(4) =~= tiff_ii());
        true
    } else if t[0] == 0x4D && t[1] == 0x4D && t[2] == 0x00 && t[3] == 0x2A {
        assert(t@.take(4) =~= tiff_mm());
        assert(t@.take(4) != tiff_ii());
        false
    } else {
        assert(t@.take(4) != tiff_ii() && t@.take(4) != tiff_mm()) by {
            if t@.take(4) == tiff_ii() {
                assert(t@.take(4)[0] == 0x49);
            }
            if t@.take(4) == tiff_mm() {
                assert(t@.take(4)[0] == 0x4D);
            }
        }
        return Err(String::from_str("no TIFF header"));
    };
    let ifd0 = crate::tiff::read32(t, 4, le) as usize;
    if ifd0 > t.len() || t.len() - ifd0 < 2 {
        return Err(String::from_str("truncated IFD"));
    }
    let n = crate::tiff::read16(t, ifd0, le);
    let mut e = ifd0 + 2;
    let mut k: u16 = n;
    while k > 0
        invariant
            20 <= app1@.len() <= usize::MAX,
            t@ == app1@.subrange(10, app1@.len() as int),
            orientation_spec(app1@) == match orientation_from(t@, le, e as int, k as nat) {
                Err(m) => Err(m),
                Ok(None) => Ok(None),
                Ok(Some(at)) => Ok(Some((at, le))),
            },
            orientation_spec(app1@) matches Ok(Some((at, _))) ==> at + 2 <= app1@.len(),
        decreases k,
    {
        if e > t.len() || t.len() - e < 2 {
            return Err(String::from_str("truncated entry"));
        }
        if crate::tiff::read16(t, e, le) == 0x0112 {
            let at = 10 + e + 8;
            let mut out = slice_to_vec(app1);
            let (b0, b1): (u8, u8) = if le {
                ((value % 256) as u8, (value / 256) as u8)
            } else {
                ((value / 256) as u8, (value % 256) as u8)
            };
            out.set(at, b0);
            out.set(at + 1, b1);
            return Ok(out);
        }
        e = e + 12;
        k = k - 1;
    }
    Ok(slice_to_vec(app1))
}

/// How far past `i` the bytes go, or nothing past their end.
pub open spec fn room(d: Seq<u8>, i: int) -> nat {
    if i <= d.len() {
        (d.len() - i) as nat
    } else {
        0
    }
}

/// Where the image ends, from a marker at `i` on: just past it where it is
/// the EOI of an image with no scan, else the EOI that closes the last scan,
/// or the end of the bytes.
pub open spec fn scan_end_spec(d: Seq<u8>, i: int) -> int
    decreases room(d, i), 0int,
{
    if i < 0 || i + 1 >= d.len() {
        d.len() as int
    } else if d[i] == 0xFF && d[i + 1] == 0xD9 {
        i + 2
    } else if i + 3 >= d.len() {
        d.len() as int
    } else {
        // Skip this segment's header (SOS and friends carry a length).
        let len = be16(d, i + 2);
        entropy_end(d, i + 2 + if len < 2 {
            2
        } else {
            len
        })
    }
}

/// Where the image ends, from position `i` inside entropy-coded data on.
///
/// A literal 0xFF is stuffed as `FF 00`, and restart markers `FF D0` to
/// `FF D7` are part of the stream; EOI ends the image, and any other marker
/// starts a segment whose length is skipped before scanning resumes.
pub open spec fn entropy_end(d: Seq<u8>, i: int) -> int
    decreases room(d, i), 1int,
{
    if i < 0 || i + 1 >= d.len() {
        d.len() as int
    } else if d[i] != 0xFF {
        entropy_end(d, i + 1)
    } else {
        let m = d[i + 1];
        if m == 0x00 || m == 0xFF || (0xD0 <= m <= 0xD7) {
            entropy_end(d, i + 2)
        } else if m == 0xD9 {
            i + 2
        } else {
            scan_end_spec(d, i)
        }
    }
}

/// Where the image really ends: the EOI that closes the last scan.
///
/// A baseline JPEG has one scan, so the first marker after SOS is the end. A
/// progressive one has many, separated by DHT and further SOS segments, and
/// stopping at the first marker would cut it down to its first scan, which is
/// not a degraded image but a broken file.
fn scan_end(d: &[u8], scan_at: usize) -> (r: usize)
    requires
        scan_at <= d@.len(),
    ensures
        r == scan_end_spec(d@, scan_at as int),
        scan_at <= r <= d@.len(),
{
    let len = d.len();
    let mut i = scan_at;
    let mut header = true;
    loop
        invariant
            scan_at <= i <= len == d@.len(),
            header ==> scan_end_spec(d@, scan_at as int) == scan_end_spec(d@, i as int),
            !header ==> scan_end_spec(d@, scan_at as int) == entropy_end(d@, i as int),
        decreases len - i, if header {
            0int
        } else {
            1int
        },
    {
        if header {
            if len - i <= 1 {
                return len;
            }
            if d[i] == 0xFF && d[i + 1] == 0xD9 {
                return i + 2;
            }
            if len - i <= 3 {
                return len;
            }
            let seg_len = d[i + 2] as usize * 256 + d[i + 3] as usize;
            let step = 2 + if seg_len < 2 {
                2
            } else {
                seg_len
            };
            if step > len - i {
                return len;
            }
            i = i + step;
            header = false;
        } else {
            if len - i <= 1 {
                return len;
            }
            if d[i] != 0xFF {
                i = i + 1;
            } else {
                let m = d[i + 1];
                if m == 0x00 || m == 0xFF || (0xD0 <= m && m <= 0xD7) {
                    i = i + 2;
                } else if m == 0xD9 {
                    return i + 2;
                } else {
                    header = true;
                }
            }
        }
    }
}

/// All the pieces, one after another.
pub open spec fn concat(parts: Seq<Seq<u8>>) -> Seq<u8>
    decreases parts.len(),
{
    if parts.len() == 0 {
        Seq::empty()
    } else {
        concat(parts.drop_last()) + parts.last()
    }
}

/// What `rewrite` makes of a JPEG whose walk gave `segs` and `scan`: SOI, the
/// inserted segments, the segments that are not metadata, then the scan up
/// to and including the EOI that closes it.
pub open spec fn rewritten(d: Seq<u8>, insert: Seq<Seq<u8>>, segs: Seq<Seg>, scan: int) -> Seq<
    u8,
> {
    d.take(2) + concat(insert) + concat(pieces(d, kept_of(segs))) + d.subrange(
        scan,
        scan_end_spec(d, scan),
    )
}

/// Rebuild the JPEG without metadata, inserting `insert` after SOI.
///
/// Anything past the EOI that closes the scan is a trailer (some cameras
/// append a second image or a preview there); it is metadata too, and is
/// dropped.
pub fn rewrite(jpeg: &[u8], insert: &[Vec<u8>]) -> (r: Result<Vec<u8>, String>)
    ensures
        match walk_spec(jpeg@) {
            Ok((segs, scan)) => r matches Ok(out) && out@ == rewritten(
                jpeg@,
                insert.deep_view(),
                segs,
                scan,
            ),
            Err(e) => r matches Err(m) && m@ == walk_message(e),
        },
{
    let (spans, scan_at) = match walk(jpeg) {
        Ok(w) => w,
        Err(e) => return Err(walk_error_text(&e)),
    };
    proof {
        lemma_walk_ok(jpeg@, 2, Seq::empty());
    }
    let ghost segs = spans_view(spans@);
    let mut out: Vec<u8> = Vec::new();
    append_bytes(&mut out, slice_subrange(jpeg, 0, 2));
    let ghost soi = out@;
    assert(soi == jpeg@.take(2));
    let ghost ins = insert.deep_view();
    let mut k: usize = 0;
    while k < insert.len()
        invariant
            0 <= k <= insert@.len(),
            ins == insert.deep_view(),
            out@ == soi + concat(ins.take(k as int)),
        decreases insert.len() - k,
    {
        let seg = &insert[k];
        assert(ins[k as int] =~= seg@);
        assert(ins.take(k + 1).drop_last() =~= ins.take(k as int));
        append_bytes(&mut out, seg.as_slice());
        k += 1;
        assert(out@ =~= soi + concat(ins.take(k as int)));
    }
    assert(ins.take(insert@.len() as int) =~= ins);
    let ghost head = out@;
    let mut j: usize = 0;
    while j < spans.len()
        invariant
            0 <= j <= spans@.len(),
            segs == spans_view(spans@),
            all_ok(jpeg@, segs),
            out@ == head + concat(pieces(jpeg@, kept_of(segs.take(j as int)))),
        decreases spans.len() - j,
    {
        let s = &spans[j];
        assert(segs.take(j + 1).drop_last() =~= segs.take(j as int));
        assert(segs[j as int] == s@);
        if !metadata_marker(s.marker) {
            assert(pieces(jpeg@, kept_of(segs.take(j + 1))).drop_last() =~= pieces(
                jpeg@,
                kept_of(segs.take(j as int)),
            ));
            append_bytes(&mut out, slice_subrange(jpeg, s.start, s.end));
            assert(out@ =~= head + concat(pieces(jpeg@, kept_of(segs.take(j + 1)))));
        }
        j += 1;
    }
    assert(segs.take(spans@.len() as int) =~= segs);
    let end = scan_end(jpeg, scan_at);
    append_bytes(&mut out, slice_subrange(jpeg, scan_at, end));
    Ok(out)
}


// ------------------------------------------------------------------ the laws

/// A whole segment as bytes: 0xFF, a marker that opens a segment with a
/// length, and a length field that counts the rest of the segment.
pub open spec fn is_segment(b: Seq<u8>) -> bool {
    &&& b.len() >= 4
    &&& b[0] == 0xFF
    &&& b[1] != 0xDA && b[1] != 0xD9 && !is_standalone(b[1])
    &&& be16(b, 2) == b.len() - 2
}

/// A whole APP1 segment.
pub open spec fn is_app1_segment(b: Seq<u8>) -> bool {
    is_segment(b) && b[1] == 0xE1
}

/// Where the walk finds `parts` when their bytes start at position `i`.
pub open spec fn laid_out(parts: Seq<Seq<u8>>, i: int) -> Seq<Seg>
    decreases parts.len(),
{
    if parts.len() == 0 {
        Seq::empty()
    } else {
        let before = concat(parts.drop_last());
        laid_out(parts.drop_last(), i).push(
            Seg {
                marker: parts.last()[1],
                start: i + before.len(),
                end: i + before.len() + parts.last().len(),
            },
        )
    }
}

proof fn lemma_walk_one(d: Seq<u8>, p: int, acc: Seq<Seg>, b: Seq<u8>)
    requires
        0 <= p,
        p + b.len() <= d.len(),
        d.subrange(p, p + b.len()) == b,
        is_segment(b),
    ensures
        walk_from(d, p, acc) == walk_from(
            d,
            p + b.len(),
            acc.push(Seg { marker: b[1], start: p, end: p + b.len() }),
        ),
{
    assert(d[p] == b[0]);
    assert(d[p + 1] == b[1]);
    assert(d[p + 2] == b[2]);
    assert(d[p + 3] == b[3]);
}

proof fn lemma_walk_parts(d: Seq<u8>, i: int, acc: Seq<Seg>, parts: Seq<Seq<u8>>)
    requires
        0 <= i,
        i + concat(parts).len() <= d.len(),
        d.subrange(i, i + concat(parts).len()) == concat(parts),
        forall|k: int| 0 <= k < parts.len() ==> is_segment(#[trigger] parts[k]),
    ensures
        walk_from(d, i, acc) == walk_from(d, i + concat(parts).len(), acc + laid_out(parts, i)),
    decreases parts.len(),
{
    if parts.len() == 0 {
        assert(acc + laid_out(parts, i) =~= acc);
    } else {
        let init = parts.drop_last();
        let last = parts.last();
        let ci = concat(init);
        assert(concat(parts) == ci + last);
        assert(d.subrange(i, i + ci.len()) =~= concat(parts).subrange(0, ci.len() as int));
        assert(concat(parts).subrange(0, ci.len() as int) =~= ci);
        assert forall|k: int| 0 <= k < init.len() implies is_segment(#[trigger] init[k]) by {
            assert(init[k] == parts[k]);
        }
        lemma_walk_parts(d, i, acc, init);
        assert(is_segment(parts[parts.len() - 1]));
        let p = i + ci.len();
        assert(d.subrange(p, p + last.len()) =~= concat(parts).subrange(
            ci.len() as int,
            concat(parts).len() as int,
        ));
        assert(concat(parts).subrange(ci.len() as int, concat(parts).len() as int) =~= last);
        lemma_walk_one(d, p, acc + laid_out(init, i), last);
        assert((acc + laid_out(init, i)).push(Seg { marker: last[1], start: p, end: p + last.len() })
            =~= acc + laid_out(parts, i));
    }
}

proof fn lemma_pieces_laid_out(d: Seq<u8>, i: int, parts: Seq<Seq<u8>>)
    requires
        0 <= i,
        i + concat(parts).len() <= d.len(),
        d.subrange(i, i + concat(parts).len()) == concat(parts),
    ensures
        pieces(d, laid_out(parts, i)) == parts,
        laid_out(parts, i).len() == parts.len(),
        forall|k: int|
            0 <= k < parts.len() ==> (#[trigger] laid_out(parts, i)[k]).marker == parts[k][1],
    decreases parts.len(),
{
    if parts.len() == 0 {
        assert(pieces(d, laid_out(parts, i)) =~= parts);
    } else {
        let init = parts.drop_last();
        let last = parts.last();
        let ci = concat(init);
        assert(concat(parts) == ci + last);
        assert(d.subrange(i, i + ci.len()) =~= concat(parts).subrange(0, ci.len() as int));
        assert(concat(parts).subrange(0, ci.len() as int) =~= ci);
        lemma_pieces_laid_out(d, i, init);
        let p = i + ci.len();
        assert(d.subrange(p, p + last.len()) =~= concat(parts).subrange(
            ci.len() as int,
            concat(parts).len() as int,
        ));
        assert(pieces(d, laid_out(parts, i)) =~= parts) by {
            assert forall|k: int| 0 <= k < parts.len() implies pieces(d, laid_out(parts, i))[k]
                == parts[k] by {
                if k < init.len() {
                    assert(laid_out(parts, i)[k] == laid_out(init, i)[k]);
                    assert(pieces(d, laid_out(init, i))[k] == init[k]);
                }
            }
        }
        assert forall|k: int| 0 <= k < parts.len() implies (#[trigger] laid_out(
            parts,
            i,
        )[k]).marker == parts[k][1] by {
            if k < init.len() {
                assert(laid_out(parts, i)[k] == laid_out(init, i)[k]);
            }
        }
    }
}

proof fn lemma_app1_all(segs: Seq<Seg>)
    requires
        forall|k: int| 0 <= k < segs.len() ==> (#[trigger] segs[k]).marker == 0xE1,
    ensures
        app1_of(segs) == segs,
    decreases segs.len(),
{
    if segs.len() > 0 {
        let init = segs.drop_last();
        assert forall|k: int| 0 <= k < init.len() implies (#[trigger] init[k]).marker == 0xE1 by {
            assert(init[k] == segs[k]);
        }
        lemma_app1_all(init);
        assert(segs[segs.len() - 1].marker == 0xE1);
        assert(init.push(segs.last()) =~= segs);
    }
}

proof fn lemma_app1_append_none(a: Seq<Seg>, b: Seq<Seg>)
    requires
        forall|k: int| 0 <= k < b.len() ==> (#[trigger] b[k]).marker != 0xE1,
    ensures
        app1_of(a + b) == app1_of(a),
    decreases b.len(),
{
    if b.len() == 0 {
        assert(a + b =~= a);
    } else {
        let init = b.drop_last();
        assert forall|k: int| 0 <= k < init.len() implies (#[trigger] init[k]).marker != 0xE1 by {
            assert(init[k] == b[k]);
        }
        lemma_app1_append_none(a, init);
        assert((a + b).drop_last() =~= a + init);
        assert(b[b.len() - 1].marker != 0xE1);
    }
}

/// Kept segments, as bytes, are whole segments that are not metadata.
proof fn lemma_kept_pieces(d: Seq<u8>, segs: Seq<Seg>)
    requires
        all_ok(d, segs),
    ensures
        forall|k: int|
            0 <= k < kept_of(segs).len() ==> is_segment(#[trigger] pieces(d, kept_of(segs))[k])
                && !is_metadata(pieces(d, kept_of(segs))[k][1]),
    decreases segs.len(),
{
    if segs.len() > 0 {
        let init = segs.drop_last();
        assert forall|k: int| 0 <= k < init.len() implies seg_ok(d, #[trigger] init[k]) by {
            assert(init[k] == segs[k]);
        }
        lemma_kept_pieces(d, init);
        let s = segs.last();
        assert(seg_ok(d, segs[segs.len() - 1]));
        let b = d.subrange(s.start, s.end);
        assert(b[0] == d[s.start] && b[1] == d[s.start + 1] && b[2] == d[s.start + 2] && b[3]
            == d[s.start + 3]);
        assert forall|k: int| 0 <= k < kept_of(segs).len() implies is_segment(
            #[trigger] pieces(d, kept_of(segs))[k],
        ) && !is_metadata(pieces(d, kept_of(segs))[k][1]) by {
            if k < kept_of(init).len() {
                assert(kept_of(segs)[k] == kept_of(init)[k]);
                assert(pieces(d, kept_of(segs))[k] == pieces(d, kept_of(init))[k]);
            }
        }
    }
}

/// The walk of what `rewrite` produced: the inserted segments, then the kept
/// ones, then the scan.
proof fn lemma_walk_rewritten(d: Seq<u8>, ins: Seq<Seq<u8>>)
    requires
        walk_spec(d) is Ok,
        forall|k: int| 0 <= k < ins.len() ==> is_segment(#[trigger] ins[k]),
    ensures
        match walk_spec(d) {
            Ok((segs, scan)) => {
                let out = rewritten(d, ins, segs, scan);
                let kp = pieces(d, kept_of(segs));
                &&& walk_spec(out) matches Ok((segs2, scan2))
                &&& segs2 == laid_out(ins, 2) + laid_out(kp, 2 + concat(ins).len() as int)
                &&& scan2 == 2 + concat(ins).len() + concat(kp).len()
                &&& pieces(out, laid_out(ins, 2)) == ins
                &&& forall|k: int|
                    0 <= k < ins.len() ==> (#[trigger] laid_out(ins, 2)[k]).marker == ins[k][1]
                &&& laid_out(ins, 2).len() == ins.len()
                &&& forall|k: int|
                    0 <= k < laid_out(kp, 2 + concat(ins).len() as int).len() ==> !is_metadata(
                        (#[trigger] laid_out(kp, 2 + concat(ins).len() as int)[k]).marker,
                    )
            },
            Err(_) => true,
        },
{
    let (segs, scan) = walk_spec(d)->Ok_0;
    lemma_walk_ok(d, 2, Seq::empty());
    lemma_scan_end_bounds(d, scan);
    let end = scan_end_spec(d, scan);
    let out = rewritten(d, ins, segs, scan);
    let ci = concat(ins);
    let kp = pieces(d, kept_of(segs));
    let ck = concat(kp);
    let tail = d.subrange(scan, end);
    assert(out == d.take(2) + ci + ck + tail);
    lemma_kept_pieces(d, segs);
    // The inserted segments.
    assert(out.subrange(2, 2 + ci.len() as int) =~= ci);
    lemma_walk_parts(out, 2, Seq::empty(), ins);
    lemma_pieces_laid_out(out, 2, ins);
    // The kept segments.
    let q: int = 2 + ci.len() as int;
    assert(out.subrange(q, q + ck.len()) =~= ck);
    assert forall|k: int| 0 <= k < kp.len() implies is_segment(#[trigger] kp[k]) by {
        assert(kp[k] == pieces(d, kept_of(segs))[k]);
    }
    lemma_walk_parts(out, q, Seq::<Seg>::empty() + laid_out(ins, 2), kp);
    lemma_pieces_laid_out(out, q, kp);
    assert forall|k: int| 0 <= k < laid_out(kp, q).len() implies !is_metadata(
        (#[trigger] laid_out(kp, q)[k]).marker,
    ) by {
        assert(laid_out(kp, q)[k].marker == kp[k][1]);
    }
    // The scan.
    let r: int = q + ck.len();
    assert(out[r] == d[scan] && out[r + 1] == d[scan + 1]);
    assert(out[0] == d[0] && out[1] == d[1]);
    assert(Seq::<Seg>::empty() + laid_out(ins, 2) =~= laid_out(ins, 2));
}

/// Where the image ends lies at least one marker past where its scan
/// starts, and within the bytes.
pub proof fn lemma_scan_end_bounds(d: Seq<u8>, i: int)
    requires
        0 <= i,
        i + 1 < d.len(),
    ensures
        i + 2 <= scan_end_spec(d, i) <= d.len(),
{
    lemma_scan_end_range(d, i);
}

proof fn lemma_scan_end_range(d: Seq<u8>, i: int)
    ensures
        0 <= i <= d.len() ==> i <= scan_end_spec(d, i) <= d.len(),
        0 <= i && i + 1 < d.len() ==> i + 2 <= scan_end_spec(d, i),
    decreases room(d, i), 0int,
{
    if i < 0 || i + 3 >= d.len() {
    } else {
        let len = be16(d, i + 2);
        let j = i + 2 + if len < 2 {
            2
        } else {
            len
        };
        lemma_entropy_end_range(d, j);
    }
}

proof fn lemma_entropy_end_range(d: Seq<u8>, i: int)
    ensures
        0 <= i ==> i <= entropy_end(d, i) || entropy_end(d, i) == d.len(),
        entropy_end(d, i) <= d.len(),
        0 <= i ==> entropy_end(d, i) >= 0,
    decreases room(d, i), 1int,
{
    if i < 0 || i + 1 >= d.len() {
    } else if d[i] != 0xFF {
        lemma_entropy_end_range(d, i + 1);
    } else {
        let m = d[i + 1];
        if m == 0x00 || m == 0xFF || (0xD0 <= m <= 0xD7) {
            lemma_entropy_end_range(d, i + 2);
        } else if m == 0xD9 {
        } else {
            lemma_scan_end_range(d, i);
        }
    }
}

/// Stripping leaves no metadata: the rebuilt file walks cleanly, and none of
/// its segments before the scan is an APPn or a COM. In particular it has no
/// APP1 segment left.
pub proof fn law_stripping_drops_every_metadata_segment(d: Seq<u8>)
    requires
        walk_spec(d) is Ok,
    ensures
        match walk_spec(d) {
            Ok((segs, scan)) => walk_spec(rewritten(d, Seq::empty(), segs, scan)) matches Ok(
                (segs2, _),
            ) && (forall|k: int| 0 <= k < segs2.len() ==> !is_metadata(#[trigger] segs2[k].marker))
                && app1_of(segs2).len() == 0,
            Err(_) => true,
        },
{
    let ins = Seq::<Seq<u8>>::empty();
    lemma_walk_rewritten(d, ins);
    let (segs, scan) = walk_spec(d)->Ok_0;
    let (segs2, _) = walk_spec(rewritten(d, ins, segs, scan))->Ok_0;
    let kp = pieces(d, kept_of(segs));
    assert(concat(ins).len() == 0);
    assert(laid_out(ins, 2) =~= Seq::<Seg>::empty());
    assert(segs2 =~= laid_out(kp, 2));
    assert forall|k: int| 0 <= k < segs2.len() implies (#[trigger] segs2[k]).marker != 0xE1 by {
        assert(!is_metadata(laid_out(kp, 2)[k].marker));
    }
    lemma_app1_append_none(Seq::empty(), segs2);
    assert(Seq::<Seg>::empty() + segs2 =~= segs2);
}

/// Grafting puts the source's APP1 segments first: after rebuilding a JPEG
/// with whole APP1 segments inserted, its APP1 segments are exactly the
/// inserted ones, in order, and they sit directly after SOI.
pub proof fn law_grafting_gives_back_the_inserted_app1(d: Seq<u8>, ins: Seq<Seq<u8>>)
    requires
        walk_spec(d) is Ok,
        forall|k: int| 0 <= k < ins.len() ==> is_app1_segment(#[trigger] ins[k]),
    ensures
        match walk_spec(d) {
            Ok((segs, scan)) => {
                let out = rewritten(d, ins, segs, scan);
                &&& walk_spec(out) matches Ok((segs2, _))
                &&& pieces(out, app1_of(segs2)) == ins
                &&& out.subrange(2, 2 + concat(ins).len() as int) == concat(ins)
            },
            Err(_) => true,
        },
{
    assert forall|k: int| 0 <= k < ins.len() implies is_segment(#[trigger] ins[k]) by {
        assert(is_app1_segment(ins[k]));
    }
    lemma_walk_rewritten(d, ins);
    let (segs, scan) = walk_spec(d)->Ok_0;
    let out = rewritten(d, ins, segs, scan);
    let (segs2, _) = walk_spec(out)->Ok_0;
    let kp = pieces(d, kept_of(segs));
    let a = laid_out(ins, 2);
    let b = laid_out(kp, 2 + concat(ins).len() as int);
    assert forall|k: int| 0 <= k < a.len() implies (#[trigger] a[k]).marker == 0xE1 by {
        assert(a[k].marker == ins[k][1]);
        assert(is_app1_segment(ins[k]));
    }
    lemma_app1_all(a);
    assert forall|k: int| 0 <= k < b.len() implies (#[trigger] b[k]).marker != 0xE1 by {
        assert(!is_metadata(b[k].marker));
    }
    lemma_app1_append_none(a, b);
    assert(out == d.take(2) + concat(ins) + concat(kp) + d.subrange(scan, scan_end_spec(d, scan)));
    assert(out.subrange(2, 2 + concat(ins).len() as int) =~= concat(ins));
}

/// A segment built around a TIFF block is a whole APP1 segment, and the
/// EXIF reader gives that block back from a JPEG that opens with it.
pub proof fn law_a_built_app1_reads_back(tiff: Seq<u8>, rest: Seq<u8>)
    requires
        tiff.len() + 8 <= 0xFFFF,
    ensures
        is_app1_segment(app1_spec(tiff)),
        crate::jpeg::exif_spec(seq![0xFFu8, 0xD8] + app1_spec(tiff) + rest) == Some(
            (tiff, 12u64),
        ),
{
    let seg = app1_spec(tiff);
    let len = tiff.len() + 8;
    assert(seg[2] == (len / 256) as u8 && seg[3] == (len % 256) as u8);
    assert(be16(seg, 2) == len);
    let d = seq![0xFFu8, 0xD8] + seg + rest;
    assert(d[2] == 0xFF && d[3] == 0xE1 && d[4] == seg[2] && d[5] == seg[3]);
    assert(be16(d, 4) == len);
    assert(d.subrange(6, 12) =~= exif_header());
    assert(d.subrange(12, 12 + tiff.len() as int) =~= tiff);
    assert(d[0] == 0xFF && d[1] == 0xD8);
    assert(crate::jpeg::exif_from(d, 2) == Some((tiff, 12u64)));
}


/// Metadata copied across as a built APP1 segment is what the EXIF reader
/// finds in the rebuilt file.
pub proof fn law_a_grafted_tiff_reads_back(d: Seq<u8>, tiff: Seq<u8>)
    requires
        walk_spec(d) is Ok,
        tiff.len() + 8 <= 0xFFFF,
    ensures
        match walk_spec(d) {
            Ok((segs, scan)) => crate::jpeg::exif_spec(
                rewritten(d, seq![app1_spec(tiff)], segs, scan),
            ) == Some((tiff, 12u64)),
            Err(_) => true,
        },
{
    let (segs, scan) = walk_spec(d)->Ok_0;
    lemma_walk_ok(d, 2, Seq::empty());
    lemma_scan_end_bounds(d, scan);
    let ins = seq![app1_spec(tiff)];
    assert(ins.drop_last() =~= Seq::<Seq<u8>>::empty());
    assert(concat(ins.drop_last()) == Seq::<u8>::empty());
    assert(ins.last() == app1_spec(tiff));
    assert(concat(ins) =~= app1_spec(tiff));
    let rest = concat(pieces(d, kept_of(segs))) + d.subrange(scan, scan_end_spec(d, scan));
    assert(d.take(2) =~= seq![0xFFu8, 0xD8]);
    assert(rewritten(d, ins, segs, scan) =~= seq![0xFFu8, 0xD8] + app1_spec(tiff) + rest);
    law_a_built_app1_reads_back(tiff, rest);
}

/// The segments among `segs` that are not metadata, when those of `a` all
/// are and those of `b` none are, are `b`.
proof fn lemma_kept_split(a: Seq<Seg>, b: Seq<Seg>)
    requires
        forall|k: int| 0 <= k < a.len() ==> is_metadata((#[trigger] a[k]).marker),
        forall|k: int| 0 <= k < b.len() ==> !is_metadata((#[trigger] b[k]).marker),
    ensures
        kept_of(a + b) == b,
    decreases a.len() + b.len(),
{
    if b.len() == 0 {
        assert(a + b =~= a);
        if a.len() > 0 {
            let init = a.drop_last();
            assert forall|k: int| 0 <= k < init.len() implies is_metadata((#[trigger] init[k]).marker) by {
                assert(init[k] == a[k]);
            }
            lemma_kept_split(init, b);
            assert(init + b =~= init);
            assert(is_metadata(a[a.len() - 1].marker));
        }
    } else {
        let init = b.drop_last();
        assert forall|k: int| 0 <= k < init.len() implies !is_metadata((#[trigger] init[k]).marker) by {
            assert(init[k] == b[k]);
        }
        lemma_kept_split(a, init);
        assert((a + b).drop_last() =~= a + init);
        assert(!is_metadata(b[b.len() - 1].marker));
        assert(init.push(b.last()) =~= b);
    }
}

/// Where the image ends depends only on its own bytes: the same bytes from
/// the scan to its end, at another place and with nothing after them, end
/// at the same place relative to where they start.
proof fn lemma_scan_end_shift(d: Seq<u8>, e: Seq<u8>, o: int, i: int, end: int)
    requires
        0 <= i,
        0 <= i + o,
        end <= d.len(),
        e.len() == end + o,
        forall|j: int| i <= j < end ==> e[j + o] == #[trigger] d[j],
        scan_end_spec(d, i) == end,
    ensures
        scan_end_spec(e, i + o) == end + o,
    decreases room(d, i), 0int,
{
    if i + 1 >= end {
    } else {
        assert(e[i + o] == d[i] && e[i + 1 + o] == d[i + 1]);
        if d[i] == 0xFF && d[i + 1] == 0xD9 {
        } else if i + 3 >= d.len() {
        } else {
            let len = be16(d, i + 2);
            let j = i + 2 + if len < 2 {
                2
            } else {
                len
            };
            lemma_entropy_end_range(d, j);
            assert(e[i + 2 + o] == d[i + 2] && e[i + 3 + o] == d[i + 3]);
            assert(be16(e, i + o + 2) == len);
            lemma_entropy_end_shift(d, e, o, j, end);
            assert(j + o == i + o + 2 + if len < 2 {
                2
            } else {
                len
            });
        }
    }
}

proof fn lemma_entropy_end_shift(d: Seq<u8>, e: Seq<u8>, o: int, i: int, end: int)
    requires
        0 <= i,
        0 <= i + o,
        end <= d.len(),
        e.len() == end + o,
        forall|j: int| i <= j < end ==> e[j + o] == #[trigger] d[j],
        entropy_end(d, i) == end,
    ensures
        entropy_end(e, i + o) == end + o,
    decreases room(d, i), 1int,
{
    if i + 1 >= end {
    } else {
        assert(e[i + o] == d[i] && e[i + 1 + o] == d[i + 1]);
        if d[i] != 0xFF {
            lemma_entropy_end_shift(d, e, o, i + 1, end);
        } else {
            let m = d[i + 1];
            if m == 0x00 || m == 0xFF || (0xD0 <= m <= 0xD7) {
                lemma_entropy_end_shift(d, e, o, i + 2, end);
            } else if m == 0xD9 {
            } else {
                lemma_scan_end_shift(d, e, o, i, end);
            }
        }
    }
}

/// Stripping a rebuilt file gives the plain strip: once the inserted
/// segments are metadata, stripping what `rewrite` made of a JPEG gives what
/// stripping the JPEG itself gives. With nothing inserted, this says that a
/// second strip changes nothing.
pub proof fn law_stripping_a_rebuilt_file_gives_the_plain_strip(d: Seq<u8>, ins: Seq<Seq<u8>>)
    requires
        walk_spec(d) is Ok,
        forall|k: int| 0 <= k < ins.len() ==> is_segment(#[trigger] ins[k]) && is_metadata(ins[k][1]),
    ensures
        match walk_spec(d) {
            Ok((segs, scan)) => {
                let out = rewritten(d, ins, segs, scan);
                &&& walk_spec(out) matches Ok((segs2, scan2))
                &&& rewritten(out, Seq::empty(), segs2, scan2) == rewritten(d, Seq::empty(), segs, scan)
            },
            Err(_) => true,
        },
{
    lemma_walk_rewritten(d, ins);
    let (segs, scan) = walk_spec(d)->Ok_0;
    lemma_walk_ok(d, 2, Seq::empty());
    lemma_scan_end_bounds(d, scan);
    let out = rewritten(d, ins, segs, scan);
    let (segs2, scan2) = walk_spec(out)->Ok_0;
    let kp = pieces(d, kept_of(segs));
    let ci = concat(ins);
    let ck = concat(kp);
    let q: int = 2 + ci.len() as int;
    let a = laid_out(ins, 2);
    let b = laid_out(kp, q);
    let end = scan_end_spec(d, scan);
    let tail = d.subrange(scan, end);
    assert(out == d.take(2) + ci + ck + tail);
    // The segments kept the second time are the kept pieces.
    assert forall|k: int| 0 <= k < a.len() implies is_metadata((#[trigger] a[k]).marker) by {
        assert(a[k].marker == ins[k][1]);
    }
    lemma_kept_split(a, b);
    assert(kept_of(segs2) == b);
    assert(out.subrange(q, q + ck.len()) =~= ck);
    lemma_pieces_laid_out(out, q, kp);
    // The scan, up to where the image ends.
    let o = scan2 - scan;
    assert forall|j: int| scan <= j < end implies out[j + o] == #[trigger] d[j] by {
        assert(out[j + o] == tail[j - scan]);
    }
    lemma_scan_end_shift(d, out, o, scan, end);
    assert(out.subrange(scan2, scan_end_spec(out, scan2)) =~= tail);
    assert(out.take(2) =~= d.take(2));
    assert(concat(Seq::<Seq<u8>>::empty()) =~= Seq::<u8>::empty());
}

} // verus!
