//! ISO base media files: HEIF, HEIC and AVIF.
//!
//! The EXIF is an *item* rather than a segment. `iinf` says which item is the
//! EXIF, `iloc` says where its bytes are, and the bytes themselves open with a
//! header before the TIFF starts.

use crate::bytes::{bytes_at, has_prefix, starts_with};
use crate::tiff::{rd16, rd32, rd64, read16, read32};
use vstd::prelude::*;
use vstd::slice::{slice_subrange, slice_to_vec};

verus! {

/// A box: its four-character kind, where its body lies (start, end) in the
/// bytes walked, and where the next box starts.
pub struct BoxV {
    pub kind: Seq<u8>,
    pub start: int,
    pub end: int,
    pub next: int,
}

/// The box header at `off`: a 32-bit size (1 for a 64-bit size after the
/// kind, 0 for "to the end"), then the kind. A size that runs past the bytes
/// is cut at their end; one smaller than its own header, or past the end of
/// the address space, is not a box.
pub open spec fn box_spec(d: Seq<u8>, off: int) -> Option<BoxV> {
    if off < 0 || off + 8 > d.len() {
        None
    } else {
        let size32 = rd32(d, off, false);
        let kind = d.subrange(off + 4, off + 8);
        let sh: Option<(int, int)> = if size32 == 1 {
            if off + 16 > d.len() {
                None
            } else {
                Some((rd64(d, off + 8, false) as int, 16int))
            }
        } else if size32 == 0 {
            Some((d.len() - off, 8int))
        } else {
            Some((size32 as int, 8int))
        };
        match sh {
            None => None,
            Some((size, head)) => if size < head || off + size > usize::MAX {
                None
            } else {
                let end = off + size;
                let bend = if end < d.len() {
                    end
                } else {
                    d.len() as int
                };
                if off + head > bend {
                    None
                } else {
                    Some(BoxV { kind: kind, start: off + head, end: bend, next: end })
                }
            },
        }
    }
}

/// The first box of kind `kind` from `off` on, among boxes laid end to end.
pub open spec fn find_spec(d: Seq<u8>, kind: Seq<u8>, off: int) -> Option<BoxV>
    decreases d.len() - off,
{
    if off < 0 || off + 8 > d.len() {
        None
    } else {
        match box_spec(d, off) {
            None => None,
            Some(b) => if b.kind == kind {
                Some(b)
            } else if b.next <= off || b.next + 8 > d.len() {
                None
            } else {
                find_spec(d, kind, b.next)
            },
        }
    }
}

pub struct Bx {
    pub kind: [u8; 4],
    pub start: usize,
    pub end: usize,
    pub next: usize,
}

pub open spec fn bx_view(b: Bx) -> BoxV {
    BoxV { kind: b.kind@, start: b.start as int, end: b.end as int, next: b.next as int }
}

pub fn box_at(d: &[u8], off: usize) -> (r: Option<Bx>)
    ensures
        match r {
            Some(b) => box_spec(d@, off as int) == Some(bx_view(b)),
            None => box_spec(d@, off as int) is None,
        },
{
    let len = d.len();
    if off > len || len - off < 8 {
        return None;
    }
    let size32 = read32(d, off, false);
    let kind = [d[off + 4], d[off + 5], d[off + 6], d[off + 7]];
    assert(kind@ =~= d@.subrange(off + 4, off + 8));
    let (size, head): (u64, usize) = if size32 == 1 {
        if len - off < 16 {
            return None;
        }
        let hi = read32(d, off + 8, false) as u64;
        let lo = read32(d, off + 12, false) as u64;
        (hi * 4294967296 + lo, 16)
    } else if size32 == 0 {
        ((len - off) as u64, 8)
    } else {
        (size32 as u64, 8)
    };
    if size < head as u64 || size > (usize::MAX - off) as u64 {
        return None;
    }
    let end = off + size as usize;
    let bend = if end < len {
        end
    } else {
        len
    };
    if off + head > bend {
        return None;
    }
    Some(Bx { kind, start: off + head, end: bend, next: end })
}

/// The first box of kind `kind`.
pub fn find(d: &[u8], kind: &[u8; 4]) -> (r: Option<Bx>)
    ensures
        match r {
            Some(b) => find_spec(d@, kind@, 0) == Some(bx_view(b)),
            None => find_spec(d@, kind@, 0) is None,
        },
{
    let len = d.len();
    let mut off: usize = 0;
    while off <= len && len - off >= 8
        invariant
            find_spec(d@, kind@, 0) == find_spec(d@, kind@, off as int),
            len == d@.len(),
        decreases len - off,
    {
        let b = match box_at(d, off) {
            Some(b) => b,
            None => return None,
        };
        if b.kind[0] == kind[0] && b.kind[1] == kind[1] && b.kind[2] == kind[2] && b.kind[3]
            == kind[3] {
            assert(b.kind@ =~= kind@);
            return Some(b);
        }
        assert(b.kind@ != kind@) by {
            if b.kind@ == kind@ {
                assert(b.kind@[0] == kind@[0] && b.kind@[1] == kind@[1] && b.kind@[2] == kind@[2]
                    && b.kind@[3] == kind@[3]);
            }
        }
        if b.next <= off || b.next > len || len - b.next < 8 {
            return None;
        }
        off = b.next;
    }
    None
}

/// Where the `meta` box ends, from `off` on, read from the top-level box
/// headers alone.
pub open spec fn meta_end_spec(d: Seq<u8>, off: int) -> Option<int>
    decreases d.len() - off,
{
    if off < 0 || off + 8 > d.len() {
        None
    } else {
        let size32 = rd32(d, off, false);
        let size: Option<int> = if size32 == 1 {
            if off + 16 > d.len() {
                None
            } else {
                Some(rd64(d, off + 8, false) as int)
            }
        } else if size32 == 0 {
            None
        } else {
            Some(size32 as int)
        };
        match size {
            None => None,
            Some(size) => if d.subrange(off + 4, off + 8) == meta_kind() {
                if off + size > usize::MAX {
                    None
                } else {
                    Some(off + size)
                }
            } else if off + size > usize::MAX || size == 0 || off + size + 8 > d.len() {
                None
            } else {
                meta_end_spec(d, off + size)
            },
        }
    }
}

pub open spec fn meta_kind() -> Seq<u8> {
    seq![0x6du8, 0x65, 0x74, 0x61]
}

pub open spec fn iinf_kind() -> Seq<u8> {
    seq![0x69u8, 0x69, 0x6e, 0x66]
}

pub open spec fn iloc_kind() -> Seq<u8> {
    seq![0x69u8, 0x6c, 0x6f, 0x63]
}

pub open spec fn infe_kind() -> Seq<u8> {
    seq![0x69u8, 0x6e, 0x66, 0x65]
}

/// "Exif"
pub open spec fn exif_kind() -> Seq<u8> {
    seq![0x45u8, 0x78, 0x69, 0x66]
}

/// Where the `meta` box ends, read from the top-level box headers alone.
///
/// The `meta` box declares its own size, so one look at the box headers says
/// whether the window holds all of it.
pub fn meta_end(d: &[u8]) -> (r: Option<usize>)
    ensures
        match r {
            Some(e) => meta_end_spec(d@, 0) == Some(e as int),
            None => meta_end_spec(d@, 0) is None,
        },
{
    let len = d.len();
    let meta = [0x6du8, 0x65, 0x74, 0x61];
    assert(meta@ == meta_kind());
    let mut off: usize = 0;
    while off <= len && len - off >= 8
        invariant
            meta_end_spec(d@, 0) == meta_end_spec(d@, off as int),
            len == d@.len(),
            meta@ == meta_kind(),
        decreases len - off,
    {
        let size32 = read32(d, off, false);
        let size: u64 = if size32 == 1 {
            if len - off < 16 {
                return None;
            }
            let hi = read32(d, off + 8, false) as u64;
            let lo = read32(d, off + 12, false) as u64;
            hi * 4294967296 + lo
        } else if size32 == 0 {
            return None;
        } else {
            size32 as u64
        };
        let fits = size <= (usize::MAX - off) as u64;
        if bytes_at(d, off + 4, &meta) {
            if !fits {
                return None;
            }
            return Some(off + size as usize);
        }
        if !fits || size == 0 {
            return None;
        }
        let next = off + size as usize;
        if next > len || len - next < 8 {
            return None;
        }
        off = next;
    }
    proof {
        if off <= len {
            assert(off + 8 > d@.len());
        }
    }
    None
}

/// An item info entry's item ID and its type, read from the body of an
/// `infe` box. Versions 0, 1 and 2 store a 16-bit ID and only version 3
/// stores 32 bits; every camera measured writes version 2, so reading it as
/// 32-bit rejects the entry for being too short.
pub open spec fn infe_spec(body: Seq<u8>) -> Option<(u32, Seq<u8>)> {
    if body.len() < 1 {
        None
    } else if body[0] <= 2 {
        if body.len() < 12 {
            None
        } else {
            Some((rd16(body, 4, false) as u32, body.subrange(8, 12)))
        }
    } else {
        if body.len() < 14 {
            None
        } else {
            Some((rd32(body, 4, false), body.subrange(10, 14)))
        }
    }
}

/// The item ID whose type is `Exif`, among the `k` boxes from `off` on.
pub open spec fn item_from(iinf: Seq<u8>, off: int, k: nat) -> Option<u32>
    decreases k,
{
    if k == 0 {
        None
    } else {
        match box_spec(iinf, off) {
            None => None,
            Some(b) => {
                let body = iinf.subrange(b.start, b.end);
                let found: Option<Option<u32>> = if b.kind == infe_kind() {
                    match infe_spec(body) {
                        None => Some(None),
                        Some((id, ty)) => if ty == exif_kind() {
                            Some(Some(id))
                        } else {
                            None
                        },
                    }
                } else {
                    None
                };
                match found {
                    Some(r) => r,
                    None => if b.next <= off {
                        None
                    } else {
                        item_from(iinf, b.next, (k - 1) as nat)
                    },
                }
            },
        }
    }
}

/// The item ID whose type is `Exif`, from the body of an `iinf` box.
pub open spec fn exif_item_spec(iinf: Seq<u8>) -> Option<u32> {
    if iinf.len() < 1 {
        None
    } else if iinf[0] == 0 {
        if iinf.len() < 6 {
            None
        } else {
            item_from(iinf, 6, rd16(iinf, 4, false) as nat)
        }
    } else {
        if iinf.len() < 8 {
            None
        } else {
            item_from(iinf, 8, rd32(iinf, 4, false) as nat)
        }
    }
}

fn infe(body: &[u8]) -> (r: Option<(u32, [u8; 4])>)
    ensures
        match r {
            Some((id, ty)) => infe_spec(body@) == Some((id, ty@)),
            None => infe_spec(body@) is None,
        },
{
    let len = body.len();
    if len < 1 {
        return None;
    }
    if body[0] <= 2 {
        if len < 12 {
            return None;
        }
        let ty = [body[8], body[9], body[10], body[11]];
        assert(ty@ =~= body@.subrange(8, 12));
        Some((read16(body, 4, false) as u32, ty))
    } else {
        if len < 14 {
            return None;
        }
        let ty = [body[10], body[11], body[12], body[13]];
        assert(ty@ =~= body@.subrange(10, 14));
        Some((read32(body, 4, false), ty))
    }
}

fn same4(a: &[u8; 4], b: &[u8; 4]) -> (r: bool)
    ensures
        r == (a@ == b@),
{
    let r = a[0] == b[0] && a[1] == b[1] && a[2] == b[2] && a[3] == b[3];
    if r {
        assert(a@ =~= b@);
    } else {
        assert(a@ != b@) by {
            if a@ == b@ {
                assert(a@[0] == b@[0] && a@[1] == b@[1] && a@[2] == b@[2] && a@[3] == b@[3]);
            }
        }
    }
    r
}

/// The item ID whose type is `Exif`.
pub fn exif_item_id(iinf: &[u8]) -> (r: Option<u32>)
    ensures
        r == exif_item_spec(iinf@),
{
    let len = iinf.len();
    if len < 1 {
        return None;
    }
    let (count, start): (u32, usize) = if iinf[0] == 0 {
        if len < 6 {
            return None;
        }
        (read16(iinf, 4, false) as u32, 6)
    } else {
        if len < 8 {
            return None;
        }
        (read32(iinf, 4, false), 8)
    };
    let infe_k = [0x69u8, 0x6e, 0x66, 0x65];
    let exif_k = [0x45u8, 0x78, 0x69, 0x66];
    assert(infe_k@ == infe_kind());
    assert(exif_k@ == exif_kind());
    let mut off = start;
    let mut j: u32 = 0;
    while j < count
        invariant
            j <= count,
            exif_item_spec(iinf@) == item_from(iinf@, off as int, (count - j) as nat),
            infe_k@ == infe_kind(),
            exif_k@ == exif_kind(),
        decreases count - j,
    {
        let b = match box_at(iinf, off) {
            Some(b) => b,
            None => return None,
        };
        if same4(&b.kind, &infe_k) {
            let body = slice_subrange(iinf, b.start, b.end);
            match infe(body) {
                None => return None,
                Some((id, ty)) => {
                    if same4(&ty, &exif_k) {
                        return Some(id);
                    }
                },
            }
        }
        if b.next <= off {
            return None;
        }
        off = b.next;
        j += 1;
    }
    proof {
        assert((count - j) as nat == 0);
    }
    None
}


/// The big-endian value of `s`, unbounded.
pub open spec fn be_value(s: Seq<u8>) -> nat
    decreases s.len(),
{
    if s.len() == 0 {
        0
    } else {
        be_value(s.drop_last()) * 256 + s.last() as nat
    }
}

/// A field of `n` bytes at `p`, big-endian, kept to its low 64 bits, and the
/// position after it. A width of 0 reads nothing and gives 0.
pub open spec fn var_spec(d: Seq<u8>, p: int, n: int) -> Option<(u64, int)> {
    if n == 0 {
        Some((0u64, p))
    } else if p < 0 || n < 0 || p + n > d.len() {
        None
    } else {
        Some(((be_value(d.subrange(p, p + n)) % 0x1_0000_0000_0000_0000) as u64, p + n))
    }
}

proof fn lemma_fold_step(x: nat, c: u8)
    ensures
        (x * 256 + c) % 0x1_0000_0000_0000_0000 == ((x % 0x1_0000_0000_0000_0000)
            % 0x100_0000_0000_0000) * 256 + c,
{
    let k: int = 0x100_0000_0000_0000;
    vstd::arithmetic::div_mod::lemma_mod_mod(x as int, k, 256);
    assert(k * 256 == 0x1_0000_0000_0000_0000);
    let q = (x as int) / k;
    let r = (x as int) % k;
    vstd::arithmetic::div_mod::lemma_fundamental_div_mod(x as int, k);
    assert(x * 256 + c == (k * 256) * q + (r * 256 + c)) by (nonlinear_arith)
        requires
            x == k * q + r,
    ;
    vstd::arithmetic::div_mod::lemma_mod_multiples_vanish(q, r * 256 + c, k * 256);
    assert(0 <= r < k);
    vstd::arithmetic::div_mod::lemma_small_mod((r * 256 + c) as nat, (k * 256) as nat);
}

/// Reads a field of `n` bytes at `p`.
fn var(d: &[u8], p: usize, n: usize) -> (r: Option<(u64, usize)>)
    ensures
        match r {
            Some((v, q)) => var_spec(d@, p as int, n as int) == Some((v, q as int)),
            None => var_spec(d@, p as int, n as int) is None,
        },
{
    if n == 0 {
        return Some((0, p));
    }
    let len = d.len();
    if p > len || n > len - p {
        return None;
    }
    let mut a: u64 = 0;
    let mut i: usize = p;
    while i < p + n
        invariant
            p <= i <= p + n <= len == d@.len(),
            a as int == be_value(d@.subrange(p as int, i as int)) % 0x1_0000_0000_0000_0000,
        decreases p + n - i,
    {
        let c = d[i];
        proof {
            let s = d@.subrange(p as int, i as int + 1);
            assert(s.drop_last() =~= d@.subrange(p as int, i as int));
            lemma_fold_step(be_value(d@.subrange(p as int, i as int)), c);
        }
        a = (a % 0x100_0000_0000_0000) * 256 + c as u64;
        i = i + 1;
    }
    Some((a, p + n))
}

/// How an `iloc` box lays out its fields: which version family it is and the
/// byte widths of the offset, length, base-offset and index fields.
pub struct Layout {
    pub version: u8,
    pub osz: int,
    pub lsz: int,
    pub bsz: int,
    pub isz: int,
}

/// Versions 1 and 2 carry an index and a construction method.
pub open spec fn indexed(version: u8) -> bool {
    version == 1 || version == 2
}

/// The extents of one item from `p` on, `k` of them: where they end and the
/// first one's absolute offset and length. A base plus offset past 64 bits
/// gives no answer at all.
pub open spec fn extents_spec(
    d: Seq<u8>,
    lay: Layout,
    base: u64,
    p: int,
    k: nat,
    first: Option<(u64, u64)>,
) -> Option<(int, Option<(u64, u64)>)>
    decreases k,
{
    if k == 0 {
        Some((p, first))
    } else {
        let idx = if indexed(lay.version) {
            var_spec(d, p, lay.isz)
        } else {
            Some((0u64, p))
        };
        match idx {
            None => None,
            Some((_, p1)) => match var_spec(d, p1, lay.osz) {
                None => None,
                Some((off, p2)) => match var_spec(d, p2, lay.lsz) {
                    None => None,
                    Some((len, p3)) => if first is Some {
                        extents_spec(d, lay, base, p3, (k - 1) as nat, first)
                    } else if base + off > u64::MAX {
                        None
                    } else {
                        extents_spec(
                            d,
                            lay,
                            base,
                            p3,
                            (k - 1) as nat,
                            Some(((base + off) as u64, len)),
                        )
                    },
                },
            },
        }
    }
}

proof fn lemma_extents_keep_first(
    d: Seq<u8>,
    lay: Layout,
    base: u64,
    p: int,
    k: nat,
    f: (u64, u64),
)
    ensures
        extents_spec(d, lay, base, p, k, Some(f)) matches Some((_, x)) ==> x == Some(f),
    decreases k,
{
    if k > 0 {
        let idx = if indexed(lay.version) {
            var_spec(d, p, lay.isz)
        } else {
            Some((0u64, p))
        };
        if let Some((_, p1)) = idx {
            if let Some((_, p2)) = var_spec(d, p1, lay.osz) {
                if let Some((_, p3)) = var_spec(d, p2, lay.lsz) {
                    lemma_extents_keep_first(d, lay, base, p3, (k - 1) as nat, f);
                }
            }
        }
    }
}

/// An item's location is its first extent: of the extents an entry lists,
/// the first one read gives the offset (added to the entry's base) and the
/// length, whatever the extents after it say.
pub proof fn law_the_first_extent_is_the_location(
    d: Seq<u8>,
    lay: Layout,
    base: u64,
    p: int,
    k: nat,
    p1: int,
    off: u64,
    p2: int,
    len: u64,
    p3: int,
)
    requires
        k > 0,
        p1 == if indexed(lay.version) {
            (var_spec(d, p, lay.isz)->0).1
        } else {
            p
        },
        indexed(lay.version) ==> var_spec(d, p, lay.isz) is Some,
        var_spec(d, p1, lay.osz) == Some((off, p2)),
        var_spec(d, p2, lay.lsz) == Some((len, p3)),
    ensures
        extents_spec(d, lay, base, p, k, None) matches Some((_, first)) ==> first == Some(
            ((base + off) as u64, len),
        ),
{
    if base + off <= u64::MAX {
        lemma_extents_keep_first(d, lay, base, p3, (k - 1) as nat, ((base + off) as u64, len));
    }
}

/// One item entry of an `iloc` box.
pub struct EntryV {
    pub id: u32,
    pub construction: u16,
    pub dref: u16,
    pub first: Option<(u64, u64)>,
    pub next: int,
}

/// The item entry at `p`.
pub open spec fn entry_spec(d: Seq<u8>, lay: Layout, p: int) -> Option<EntryV> {
    let wide = lay.version >= 2;
    let idw: int = if wide {
        4
    } else {
        2
    };
    if p < 0 || p + idw > d.len() {
        None
    } else {
        let id: u32 = if wide {
            rd32(d, p, false)
        } else {
            rd16(d, p, false) as u32
        };
        let p1 = p + idw;
        let cw: int = if indexed(lay.version) {
            2
        } else {
            0
        };
        if p1 + cw + 2 > d.len() {
            None
        } else {
            let construction: u16 = if indexed(lay.version) {
                (rd16(d, p1, false) % 16) as u16
            } else {
                0
            };
            let dref = rd16(d, p1 + cw, false);
            match var_spec(d, p1 + cw + 2, lay.bsz) {
                None => None,
                Some((base, p2)) => if p2 + 2 > d.len() {
                    None
                } else {
                    let count = rd16(d, p2, false);
                    match extents_spec(d, lay, base, p2 + 2, count as nat, None) {
                        None => None,
                        Some((next, first)) => Some(
                            EntryV { id, construction, dref, first, next },
                        ),
                    }
                },
            }
        }
    }
}

/// Item `want` among the `k` entries from `p` on: the first extent of the
/// first entry with that ID whose bytes are in this file (construction method
/// 0 and data reference 0).
pub open spec fn locate_from(d: Seq<u8>, lay: Layout, p: int, k: nat, want: u32) -> Option<
    (u64, u64),
>
    decreases k,
{
    if k == 0 {
        None
    } else {
        match entry_spec(d, lay, p) {
            None => None,
            Some(e) => if e.id == want && e.construction == 0 && e.dref == 0 {
                e.first
            } else {
                locate_from(d, lay, e.next, (k - 1) as nat, want)
            },
        }
    }
}

/// Whether an entry is item `want`, stored in this file.
pub open spec fn is_wanted(e: EntryV, want: u32) -> bool {
    e.id == want && e.construction == 0 && e.dref == 0
}

proof fn lemma_locate_chain(
    d: Seq<u8>,
    lay: Layout,
    start: int,
    es: Seq<EntryV>,
    k: nat,
    want: u32,
    j: int,
    i: int,
)
    requires
        0 <= j <= i < k,
        i < es.len(),
        entry_spec(d, lay, start) == Some(es[0]),
        forall|m: int| 0 <= m < i ==> entry_spec(d, lay, #[trigger] es[m].next) == Some(es[m + 1]),
        forall|m: int| 0 <= m < i ==> !is_wanted(#[trigger] es[m], want),
        is_wanted(es[i], want),
    ensures
        locate_from(d, lay, if j == 0 { start } else { es[j - 1].next }, (k - j) as nat, want)
            == es[i].first,
    decreases i - j,
{
    let p = if j == 0 { start } else { es[j - 1].next };
    assert(entry_spec(d, lay, p) == Some(es[j])) by {
        if j > 0 {
            assert(entry_spec(d, lay, es[j - 1].next) == Some(es[j - 1 + 1]));
        }
    }
    if j < i {
        assert(!is_wanted(es[j], want));
        lemma_locate_chain(d, lay, start, es, k, want, j + 1, i);
        assert((k - j - 1) as nat == (k - (j + 1)) as nat);
    }
}

proof fn lemma_locate_none(
    d: Seq<u8>,
    lay: Layout,
    start: int,
    es: Seq<EntryV>,
    k: nat,
    want: u32,
    j: int,
)
    requires
        0 <= j <= k,
        es.len() == k,
        k > 0 ==> entry_spec(d, lay, start) == Some(es[0]),
        forall|m: int| 0 <= m < k - 1 ==> entry_spec(d, lay, #[trigger] es[m].next) == Some(es[m + 1]),
        forall|m: int| 0 <= m < k ==> !is_wanted(#[trigger] es[m], want),
    ensures
        locate_from(d, lay, if j == 0 { start } else { es[j - 1].next }, (k - j) as nat, want)
            is None,
    decreases k - j,
{
    if j < k {
        let p = if j == 0 { start } else { es[j - 1].next };
        assert(entry_spec(d, lay, p) == Some(es[j])) by {
            if j > 0 {
                assert(entry_spec(d, lay, es[j - 1].next) == Some(es[j - 1 + 1]));
            }
        }
        assert(!is_wanted(es[j], want));
        lemma_locate_none(d, lay, start, es, k, want, j + 1);
        assert((k - j - 1) as nat == (k - (j + 1)) as nat);
    }
}

/// Where the item entries of an `iloc` body start, and how many it declares.
pub open spec fn entries_start(iloc: Seq<u8>) -> (int, nat) {
    if layout_of(iloc).version < 2 {
        (8, rd16(iloc, 6, false) as nat)
    } else {
        (10, rd32(iloc, 6, false) as nat)
    }
}

/// An item is found wherever its entry stands: where the entries of an
/// `iloc` body, read one after another from the first, are `es`, the item
/// is the first extent of the first entry with its ID, construction method
/// 0 and data reference 0, however many other entries precede it; and
/// where none of the declared entries is that, there is none.
pub proof fn law_an_item_is_found_after_any_other_entries(
    iloc: Seq<u8>,
    es: Seq<EntryV>,
    want: u32,
    i: int,
)
    requires
        iloc.len() >= 6,
        iloc.len() >= entries_start(iloc).0,
        0 < es.len() <= entries_start(iloc).1,
        entry_spec(iloc, layout_of(iloc), entries_start(iloc).0) == Some(es[0]),
        forall|m: int|
            0 <= m < es.len() - 1 ==> entry_spec(iloc, layout_of(iloc), #[trigger] es[m].next) == Some(
                es[m + 1],
            ),
        0 <= i < es.len(),
        is_wanted(es[i], want),
        forall|m: int| 0 <= m < i ==> !is_wanted(#[trigger] es[m], want),
    ensures
        locate_spec(iloc, want) == es[i].first,
{
    let (start, k) = entries_start(iloc);
    lemma_locate_chain(iloc, layout_of(iloc), start, es, k, want, 0, i);
}

/// Where every entry an `iloc` body declares is read, one after another,
/// and none is item `want` stored in this file, the item is not found.
pub proof fn law_an_item_without_an_entry_is_not_found(iloc: Seq<u8>, es: Seq<EntryV>, want: u32)
    requires
        iloc.len() >= 6,
        iloc.len() >= entries_start(iloc).0,
        es.len() == entries_start(iloc).1,
        es.len() > 0 ==> entry_spec(iloc, layout_of(iloc), entries_start(iloc).0) == Some(es[0]),
        forall|m: int|
            0 <= m < es.len() - 1 ==> entry_spec(iloc, layout_of(iloc), #[trigger] es[m].next) == Some(
                es[m + 1],
            ),
        forall|m: int| 0 <= m < es.len() ==> !is_wanted(#[trigger] es[m], want),
    ensures
        locate_spec(iloc, want) is None,
{
    let (start, k) = entries_start(iloc);
    lemma_locate_none(iloc, layout_of(iloc), start, es, k, want, 0);
}

/// The layout that the header of an `iloc` body declares.
pub open spec fn layout_of(iloc: Seq<u8>) -> Layout
    recommends
        iloc.len() >= 6,
{
    let sizes = rd16(iloc, 4, false);
    Layout {
        version: iloc[0],
        osz: (sizes / 4096) as int,
        lsz: ((sizes / 256) % 16) as int,
        bsz: ((sizes / 16) % 16) as int,
        isz: (sizes % 16) as int,
    }
}

/// Where item `want` lives, as an absolute offset and a length.
pub open spec fn locate_spec(iloc: Seq<u8>, want: u32) -> Option<(u64, u64)> {
    if iloc.len() < 6 {
        None
    } else {
        let lay = layout_of(iloc);
        if lay.version < 2 {
            if iloc.len() < 8 {
                None
            } else {
                locate_from(iloc, lay, 8, rd16(iloc, 6, false) as nat, want)
            }
        } else {
            if iloc.len() < 10 {
                None
            } else {
                locate_from(iloc, lay, 10, rd32(iloc, 6, false) as nat, want)
            }
        }
    }
}


/// The layout of an `iloc` body as the reader carries it.
pub struct Widths {
    pub version: u8,
    pub osz: usize,
    pub lsz: usize,
    pub bsz: usize,
    pub isz: usize,
}

pub open spec fn layout(w: Widths) -> Layout {
    Layout {
        version: w.version,
        osz: w.osz as int,
        lsz: w.lsz as int,
        bsz: w.bsz as int,
        isz: w.isz as int,
    }
}

fn extents(d: &[u8], w: &Widths, base: u64, p: usize, k: u16) -> (r: Option<
    (usize, Option<(u64, u64)>),
>)
    ensures
        match r {
            Some((q, f)) => extents_spec(d@, layout(*w), base, p as int, k as nat, None) == Some(
                (q as int, f),
            ),
            None => extents_spec(d@, layout(*w), base, p as int, k as nat, None) is None,
        },
{
    let ghost lay = layout(*w);
    let mut first: Option<(u64, u64)> = None;
    let mut q = p;
    let mut j: u16 = 0;
    while j < k
        invariant
            j <= k,
            lay == layout(*w),
            extents_spec(d@, lay, base, p as int, k as nat, None) == extents_spec(
                d@,
                lay,
                base,
                q as int,
                (k - j) as nat,
                first,
            ),
        decreases k - j,
    {
        let q1 = if w.version == 1 || w.version == 2 {
            match var(d, q, w.isz) {
                None => return None,
                Some((_, q1)) => q1,
            }
        } else {
            q
        };
        let (off, q2) = match var(d, q1, w.osz) {
            None => return None,
            Some(x) => x,
        };
        let (len, q3) = match var(d, q2, w.lsz) {
            None => return None,
            Some(x) => x,
        };
        if first.is_none() {
            if off > u64::MAX - base {
                return None;
            }
            first = Some((base + off, len));
        }
        q = q3;
        j = j + 1;
    }
    Some((q, first))
}

fn entry(d: &[u8], w: &Widths, p: usize) -> (r: Option<(u32, u16, u16, Option<(u64, u64)>, usize)>)
    ensures
        match r {
            Some((id, c, dr, f, n)) => entry_spec(d@, layout(*w), p as int) == Some(
                EntryV { id, construction: c, dref: dr, first: f, next: n as int },
            ),
            None => entry_spec(d@, layout(*w), p as int) is None,
        },
{
    let len = d.len();
    let wide = w.version >= 2;
    let idw: usize = if wide {
        4
    } else {
        2
    };
    if p > len || idw > len - p {
        return None;
    }
    let id: u32 = if wide {
        read32(d, p, false)
    } else {
        read16(d, p, false) as u32
    };
    let p1 = p + idw;
    let indexed = w.version == 1 || w.version == 2;
    let cw: usize = if indexed {
        2
    } else {
        0
    };
    if cw + 2 > len - p1 {
        return None;
    }
    let construction: u16 = if indexed {
        read16(d, p1, false) % 16
    } else {
        0
    };
    let dref = read16(d, p1 + cw, false);
    let (base, p2) = match var(d, p1 + cw + 2, w.bsz) {
        None => return None,
        Some(x) => x,
    };
    if p2 > len || 2 > len - p2 {
        return None;
    }
    let count = read16(d, p2, false);
    match extents(d, w, base, p2 + 2, count) {
        None => None,
        Some((next, first)) => Some((id, construction, dref, first, next)),
    }
}

/// Where item `want` lives, as an absolute offset and a length.
///
/// The field widths are stored in the box: one packed 16-bit field carries
/// four nibbles giving the byte size of the offset, length, base-offset and
/// index fields, so the entry stride is per-file rather than fixed. An entry
/// whose bytes sit in an `idat` box (construction method 1) or in another file
/// (a data reference) is passed over: reporting nothing beats reporting the
/// wrong bytes.
pub fn locate(iloc: &[u8], want: u32) -> (r: Option<(u64, u64)>)
    ensures
        r == locate_spec(iloc@, want),
{
    let len = iloc.len();
    if len < 6 {
        return None;
    }
    let sizes = read16(iloc, 4, false);
    let w = Widths {
        version: iloc[0],
        osz: (sizes / 4096) as usize,
        lsz: ((sizes / 256) % 16) as usize,
        bsz: ((sizes / 16) % 16) as usize,
        isz: (sizes % 16) as usize,
    };
    assert(layout(w) == layout_of(iloc@));
    let (count, start): (u32, usize) = if w.version < 2 {
        if len < 8 {
            return None;
        }
        (read16(iloc, 6, false) as u32, 8)
    } else {
        if len < 10 {
            return None;
        }
        (read32(iloc, 6, false), 10)
    };
    let ghost lay = layout(w);
    let mut p = start;
    let mut j: u32 = 0;
    while j < count
        invariant
            j <= count,
            lay == layout(w),
            locate_spec(iloc@, want) == locate_from(iloc@, lay, p as int, (count - j) as nat, want),
        decreases count - j,
    {
        let (id, construction, dref, first, next) = match entry(iloc, &w, p) {
            None => return None,
            Some(e) => e,
        };
        if id == want && construction == 0 && dref == 0 {
            return first;
        }
        p = next;
        j = j + 1;
    }
    None
}


/// Every box that `find_spec` gives lies inside the bytes it walked.
pub proof fn lemma_find_bounds(d: Seq<u8>, kind: Seq<u8>, off: int)
    ensures
        match find_spec(d, kind, off) {
            Some(b) => 0 <= b.start <= b.end <= d.len(),
            None => true,
        },
    decreases d.len() - off,
{
    if off < 0 || off + 8 > d.len() {
    } else {
        match box_spec(d, off) {
            None => {},
            Some(b) => if b.kind == kind {
            } else if b.next <= off || b.next + 8 > d.len() {
            } else {
                lemma_find_bounds(d, kind, b.next);
            },
        }
    }
}

/// Where the EXIF item lies in the file, as an absolute offset and a length,
/// read from the `meta` box among the top-level boxes of `front`.
pub open spec fn exif_location_spec(front: Seq<u8>) -> Option<(u64, u64)> {
    match find_spec(front, meta_kind(), 0) {
        None => None,
        Some(m) => if m.end - m.start < 4 {
            None
        } else {
            // meta is a FullBox: four bytes of version and flags before its children.
            let kids = front.subrange(m.start + 4, m.end);
            match find_spec(kids, iinf_kind(), 0) {
                None => None,
                Some(i) => match exif_item_spec(kids.subrange(i.start, i.end)) {
                    None => None,
                    Some(item) => match find_spec(kids, iloc_kind(), 0) {
                        None => None,
                        Some(l) => locate_spec(kids.subrange(l.start, l.end), item),
                    },
                },
            }
        },
    }
}

/// Where the EXIF item lies in the file, as an absolute offset and a length.
pub fn exif_location(front: &[u8]) -> (r: Option<(u64, u64)>)
    ensures
        r == exif_location_spec(front@),
{
    let meta = match find(front, &[0x6du8, 0x65, 0x74, 0x61]) {
        None => return None,
        Some(m) => m,
    };
    proof {
        lemma_find_bounds(front@, meta_kind(), 0);
    }
    if meta.end - meta.start < 4 {
        return None;
    }
    let kids = slice_subrange(front, meta.start + 4, meta.end);
    let iinf = match find(kids, &[0x69u8, 0x69, 0x6e, 0x66]) {
        None => return None,
        Some(b) => b,
    };
    proof {
        lemma_find_bounds(kids@, iinf_kind(), 0);
    }
    let item = match exif_item_id(slice_subrange(kids, iinf.start, iinf.end)) {
        None => return None,
        Some(id) => id,
    };
    let iloc = match find(kids, &[0x69u8, 0x6c, 0x6f, 0x63]) {
        None => return None,
        Some(b) => b,
    };
    proof {
        lemma_find_bounds(kids@, iloc_kind(), 0);
    }
    locate(slice_subrange(kids, iloc.start, iloc.end), item)
}

pub open spec fn tiff_mm() -> Seq<u8> {
    seq![0x4du8, 0x4d, 0x00, 0x2a]
}

pub open spec fn tiff_ii() -> Seq<u8> {
    seq![0x49u8, 0x49, 0x2a, 0x00]
}

/// "Exif\0\0"
pub open spec fn exif_header() -> Seq<u8> {
    seq![0x45u8, 0x78, 0x69, 0x66, 0x00, 0x00]
}

/// Where the TIFF begins in an EXIF item's bytes.
///
/// The payload normally opens with a four-byte big-endian count of bytes to
/// skip, which is 6 because an `Exif\0\0` header follows it. Two malformed
/// shapes are common enough to be named: the TIFF with no header at all, and
/// the `Exif\0\0` header with no count before it.
pub open spec fn tiff_start_spec(payload: Seq<u8>) -> Option<int> {
    if payload.len() < 4 {
        None
    } else if starts_with(payload, tiff_mm()) || starts_with(payload, tiff_ii()) {
        Some(0)
    } else if starts_with(payload, exif_header()) {
        Some(6)
    } else {
        let start = 4 + rd32(payload, 0, false);
        if start <= payload.len() {
            Some(start)
        } else {
            None
        }
    }
}

/// Where the TIFF begins in an EXIF item's bytes.
pub fn tiff_start(payload: &[u8]) -> (r: Option<usize>)
    ensures
        match r {
            Some(s) => tiff_start_spec(payload@) == Some(s as int),
            None => tiff_start_spec(payload@) is None,
        },
{
    let len = payload.len();
    if len < 4 {
        return None;
    }
    let mm = [0x4du8, 0x4d, 0x00, 0x2a];
    let ii = [0x49u8, 0x49, 0x2a, 0x00];
    let hd = [0x45u8, 0x78, 0x69, 0x66, 0x00, 0x00];
    assert(mm@ == tiff_mm());
    assert(ii@ == tiff_ii());
    assert(hd@ == exif_header());
    if has_prefix(payload, &mm) || has_prefix(payload, &ii) {
        return Some(0);
    }
    if has_prefix(payload, &hd) {
        return Some(6);
    }
    let start = 4 + read32(payload, 0, false) as u64;
    if start <= len as u64 {
        Some(start as usize)
    } else {
        None
    }
}

/// The TIFF block of an EXIF item whose bytes were read from file position
/// `offset`, and the absolute position where that block starts.
pub fn exif_from_payload(payload: &[u8], offset: u64) -> (r: Option<(Vec<u8>, u64)>)
    requires
        offset + payload@.len() <= u64::MAX,
    ensures
        match tiff_start_spec(payload@) {
            None => r is None,
            Some(s) => r matches Some((t, at)) && t@ == payload@.subrange(s, payload@.len() as int)
                && at == offset + s,
        },
{
    let start = match tiff_start(payload) {
        None => return None,
        Some(s) => s,
    };
    let tiff = slice_to_vec(slice_subrange(payload, start, payload.len()));
    Some((tiff, offset + start as u64))
}

} // verus!
