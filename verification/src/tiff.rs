//! TIFF/EXIF directory walking.
//!
//! One rule decides the whole design: **offsets in an IFD are relative to the
//! block the IFD belongs to**, and different containers hand you a different
//! block. Standard EXIF counts from the TIFF header. A Fujifilm MakerNotes
//! directory counts from the start of the MakerNotes value instead.
//!
//! So `Dir` holds the block, and every offset indexes straight into it. Getting
//! this wrong is quiet rather than loud: inline values are unaffected, so the
//! numbers keep looking right while every string comes back empty.

use crate::text::{from_utf8_lossy, trim, trimmed, utf8_lossy};
use crate::value::{Value, ValueV};
use vstd::prelude::*;
use vstd::slice::slice_subrange;
use vstd::slice::slice_to_vec;

verus! {

#[derive(Clone, Copy)]
pub struct Dir<'a> {
    /// The block offsets are relative to.
    pub data: &'a [u8],
    pub le: bool,
}

#[derive(Debug, Clone, Copy)]
pub struct Entry {
    pub tag: u16,
    pub format: u16,
    pub count: u32,
    pub value: u32,
}

// ------------------------------------------------------------------ the model

/// Two bytes at `at`, in the given byte order.
pub open spec fn rd16(d: Seq<u8>, at: int, le: bool) -> u16 {
    if le {
        (d[at] + 256 * d[at + 1]) as u16
    } else {
        (256 * d[at] + d[at + 1]) as u16
    }
}

/// Four bytes at `at`, in the given byte order.
pub open spec fn rd32(d: Seq<u8>, at: int, le: bool) -> u32 {
    if le {
        (d[at] + 256 * d[at + 1] + 65536 * d[at + 2] + 16777216 * d[at + 3]) as u32
    } else {
        (16777216 * d[at] + 65536 * d[at + 1] + 256 * d[at + 2] + d[at + 3]) as u32
    }
}

/// Eight bytes at `at`, in the given byte order.
pub open spec fn rd64(d: Seq<u8>, at: int, le: bool) -> u64 {
    if le {
        (rd32(d, at, true) + 4294967296 * rd32(d, at + 4, true)) as u64
    } else {
        (4294967296 * rd32(d, at, false) + rd32(d, at + 4, false)) as u64
    }
}

/// A 16-bit field as the signed integer it encodes.
pub open spec fn signed16(v: u16) -> i32 {
    if v >= 32768 {
        (v - 65536) as i32
    } else {
        v as i32
    }
}

/// A 32-bit field as the signed integer it encodes.
pub open spec fn signed32(v: u32) -> i32 {
    if v >= 0x8000_0000 {
        (v - 0x1_0000_0000) as i32
    } else {
        v as i32
    }
}

pub open spec fn u16_at(d: Seq<u8>, at: int, le: bool) -> Option<u16> {
    if 0 <= at && at + 2 <= d.len() {
        Some(rd16(d, at, le))
    } else {
        None
    }
}

pub open spec fn u32_at(d: Seq<u8>, at: int, le: bool) -> Option<u32> {
    if 0 <= at && at + 4 <= d.len() {
        Some(rd32(d, at, le))
    } else {
        None
    }
}

/// The 12-byte directory entry starting at `o`.
pub open spec fn entry_at(d: Seq<u8>, le: bool, o: int) -> Entry {
    Entry {
        tag: rd16(d, o, le),
        format: rd16(d, o + 2, le),
        count: rd32(d, o + 4, le),
        value: rd32(d, o + 8, le),
    }
}

/// The entries of the IFD at `at`: a count, then that many entries. A
/// directory whose claimed entries run past the block has none.
pub open spec fn entries_of(d: Seq<u8>, le: bool, at: int) -> Seq<Entry> {
    match u16_at(d, at, le) {
        None => Seq::empty(),
        Some(c) => if at + 2 + 12 * c > d.len() {
            Seq::empty()
        } else {
            Seq::new(c as nat, |i: int| entry_at(d, le, at + 2 + 12 * i))
        },
    }
}

/// The offset of the next IFD after the one at `at`, when it is not zero.
pub open spec fn next_ifd_of(d: Seq<u8>, le: bool, at: int) -> Option<usize> {
    match u16_at(d, at, le) {
        None => None,
        Some(c) => match u32_at(d, at + 2 + 12 * c, le) {
            None => None,
            Some(n) => if n == 0 {
                None
            } else {
                Some(n as usize)
            },
        },
    }
}

/// Byte width of each TIFF format code.
pub open spec fn format_size(f: u16) -> Option<nat> {
    if f == 0 {
        Some(0)
    } else if f == 1 || f == 2 || f == 6 || f == 7 {
        Some(1)
    } else if f == 3 || f == 8 {
        Some(2)
    } else if f == 4 || f == 9 || f == 11 || f == 13 {
        Some(4)
    } else if f == 5 || f == 10 || f == 12 {
        Some(8)
    } else {
        None
    }
}

/// Where an entry's value lives: (start, length) in the block. Four bytes or
/// fewer sit inline in the entry; anything larger is addressed by an offset.
pub open spec fn raw_range(len: int, e: Entry, at_entry: int) -> Option<(int, int)> {
    match format_size(e.format) {
        None => None,
        Some(size) => {
            let total = size * e.count;
            if size == 0 || total > usize::MAX {
                None
            } else if total <= 4 {
                if at_entry + 8 + total <= len {
                    Some((at_entry + 8, total as int))
                } else {
                    None
                }
            } else if e.value + total <= len {
                Some((e.value as int, total as int))
            } else {
                None
            }
        },
    }
}

/// Where the first NUL byte is, or the length when there is none.
pub open spec fn nul_at(r: Seq<u8>) -> int
    decreases r.len(),
{
    if r.len() == 0 {
        0
    } else if r[0] == 0 {
        0
    } else {
        1 + nul_at(r.drop_first())
    }
}

/// An ASCII field: the bytes before the first NUL, decoded. Trailing spaces
/// are content and are kept; a field that is entirely blank is empty.
pub open spec fn ascii_text(r: Seq<u8>) -> Seq<char> {
    let s = utf8_lossy(r.take(nul_at(r)));
    if trim(s).len() == 0 {
        Seq::empty()
    } else {
        s
    }
}

/// One rational at `at`: numerator then denominator.
pub open spec fn rational(d: Seq<u8>, at: int, le: bool, signed: bool) -> (i64, i64) {
    if signed {
        (signed32(rd32(d, at, le)) as i64, signed32(rd32(d, at + 4, le)) as i64)
    } else {
        (rd32(d, at, le) as i64, rd32(d, at + 4, le) as i64)
    }
}

/// The value of an entry whose `total` bytes start at `start` in `d`.
pub open spec fn decode(d: Seq<u8>, start: int, total: int, e: Entry, le: bool) -> Option<
    ValueV,
> {
    let n = e.count as nat;
    let f = e.format;
    if f == 2 {
        Some(ValueV::Text(ascii_text(d.subrange(start, start + total))))
    } else if f == 1 || f == 6 || f == 7 {
        if n == 1 && f == 1 {
            Some(ValueV::U32(d[start] as u32))
        } else {
            Some(ValueV::Bytes(d.subrange(start, start + total)))
        }
    } else if f == 3 {
        if n == 1 {
            Some(ValueV::U32(rd16(d, start, le) as u32))
        } else {
            Some(ValueV::U32s(Seq::new(n, |i: int| rd16(d, start + 2 * i, le) as u32)))
        }
    } else if f == 8 {
        if n == 1 {
            Some(ValueV::I32(signed16(rd16(d, start, le))))
        } else {
            Some(ValueV::I32s(Seq::new(n, |i: int| signed16(rd16(d, start + 2 * i, le)))))
        }
    } else if f == 4 {
        if n == 1 {
            Some(ValueV::U32(rd32(d, start, le)))
        } else {
            Some(ValueV::U32s(Seq::new(n, |i: int| rd32(d, start + 4 * i, le))))
        }
    } else if f == 9 {
        if n == 1 {
            Some(ValueV::I32(signed32(rd32(d, start, le))))
        } else {
            Some(ValueV::I32s(Seq::new(n, |i: int| signed32(rd32(d, start + 4 * i, le)))))
        }
    } else if f == 5 || f == 10 {
        let rs = Seq::new(n, |i: int| rational(d, start + 8 * i, le, f == 10));
        if n == 1 {
            Some(ValueV::Ratio(rs[0].0, rs[0].1))
        } else {
            Some(ValueV::Ratios(rs))
        }
    } else if f == 11 {
        if n == 0 {
            None
        } else {
            Some(ValueV::F32(rd32(d, start, le)))
        }
    } else if f == 12 {
        if n == 0 {
            None
        } else {
            Some(ValueV::F64(rd64(d, start, le)))
        }
    } else {
        Some(ValueV::Bytes(d.subrange(start, start + total)))
    }
}

/// The value of entry `e`, whose 12 bytes begin at `at_entry`.
pub open spec fn value_of(d: Seq<u8>, le: bool, e: Entry, at_entry: int) -> Option<ValueV> {
    match raw_range(d.len() as int, e, at_entry) {
        None => None,
        Some((start, total)) => decode(d, start, total, e, le),
    }
}

/// The TIFF header: byte order, then the offset of the first IFD.
pub open spec fn header_of(d: Seq<u8>) -> Option<(usize, bool)> {
    if d.len() < 8 {
        None
    } else if d[0] == 0x49 && d[1] == 0x49 && d[2] == 0x2a && d[3] == 0x00 {
        Some((rd32(d, 4, true) as usize, true))
    } else if d[0] == 0x4d && d[1] == 0x4d && d[2] == 0x00 && d[3] == 0x2a {
        Some((rd32(d, 4, false) as usize, false))
    } else {
        None
    }
}

// ------------------------------------------------------------- the readers

pub fn read16(d: &[u8], at: usize, le: bool) -> (r: u16)
    requires
        at + 2 <= d@.len(),
    ensures
        r == rd16(d@, at as int, le),
{
    let b0 = d[at] as u16;
    let b1 = d[at + 1] as u16;
    if le {
        b0 + 256 * b1
    } else {
        256 * b0 + b1
    }
}

pub fn read32(d: &[u8], at: usize, le: bool) -> (r: u32)
    requires
        at + 4 <= d@.len(),
    ensures
        r == rd32(d@, at as int, le),
{
    let b0 = d[at] as u32;
    let b1 = d[at + 1] as u32;
    let b2 = d[at + 2] as u32;
    let b3 = d[at + 3] as u32;
    if le {
        b0 + 256 * b1 + 65536 * b2 + 16777216 * b3
    } else {
        16777216 * b0 + 65536 * b1 + 256 * b2 + b3
    }
}

fn read64(d: &[u8], at: usize, le: bool) -> (r: u64)
    requires
        at + 8 <= d@.len(),
    ensures
        r == rd64(d@, at as int, le),
{
    let _len = d.len();
    if le {
        read32(d, at, true) as u64 + 4294967296 * (read32(d, at + 4, true) as u64)
    } else {
        4294967296 * (read32(d, at, false) as u64) + read32(d, at + 4, false) as u64
    }
}

fn to_signed16(v: u16) -> (r: i32)
    ensures
        r == signed16(v),
{
    if v >= 32768 {
        v as i32 - 65536
    } else {
        v as i32
    }
}

fn to_signed32(v: u32) -> (r: i32)
    ensures
        r == signed32(v),
{
    if v >= 0x8000_0000 {
        (v - 0x8000_0000) as i32 - 0x4000_0000 - 0x4000_0000
    } else {
        v as i32
    }
}

/// Where the first NUL byte is in `d[start..start + len]`, relative to start.
pub fn find_nul(d: &[u8], start: usize, len: usize) -> (r: usize)
    requires
        start + len <= d@.len(),
    ensures
        r as int == nul_at(d@.subrange(start as int, start + len)),
{
    let ghost r = d@.subrange(start as int, start + len);
    let _dlen = d.len();
    assert(r.subrange(0, r.len() as int) =~= r);
    let mut i: usize = 0;
    while i < len && d[start + i] != 0
        invariant
            0 <= i <= len,
            d@.len() <= usize::MAX,
            start + len <= d@.len(),
            r == d@.subrange(start as int, start + len),
            nul_at(r) == i + nul_at(r.subrange(i as int, r.len() as int)),
        decreases len - i,
    {
        proof {
            let rest = r.subrange(i as int, r.len() as int);
            assert(rest.drop_first() =~= r.subrange(i + 1, r.len() as int));
        }
        i += 1;
    }
    proof {
        let rest = r.subrange(i as int, r.len() as int);
        if i == len {
            assert(rest.len() == 0);
        } else {
            assert(rest[0] == 0);
        }
    }
    i
}

/// Read a TIFF header and return (first IFD offset, little-endian).
pub fn header(data: &[u8]) -> (r: Option<(usize, bool)>)
    ensures
        r == header_of(data@),
{
    if data.len() < 8 {
        return None;
    }
    let le = if data[0] == 0x49 && data[1] == 0x49 && data[2] == 0x2a && data[3] == 0x00 {
        true
    } else if data[0] == 0x4d && data[1] == 0x4d && data[2] == 0x00 && data[3] == 0x2a {
        false
    } else {
        return None;
    };
    Some((read32(data, 4, le) as usize, le))
}

impl<'a> Dir<'a> {
    pub fn new(data: &'a [u8], le: bool) -> (r: Self)
        ensures
            r.data == data,
            r.le == le,
    {
        Self { data, le }
    }

    fn u16_at(&self, at: usize) -> (r: Option<u16>)
        ensures
            r == u16_at(self.data@, at as int, self.le),
    {
        if at <= self.data.len() && self.data.len() - at >= 2 {
            Some(read16(self.data, at, self.le))
        } else {
            None
        }
    }

    fn u32_at(&self, at: usize) -> (r: Option<u32>)
        ensures
            r == u32_at(self.data@, at as int, self.le),
    {
        if at <= self.data.len() && self.data.len() - at >= 4 {
            Some(read32(self.data, at, self.le))
        } else {
            None
        }
    }

    /// Every entry of the IFD starting at `at`.
    ///
    /// A malformed count is bounded rather than trusted: the entry count is two
    /// attacker-controlled bytes and 65535 entries is 786 KB of claimed
    /// directory.
    pub fn entries(&self, at: usize) -> (r: Vec<Entry>)
        ensures
            r@ == entries_of(self.data@, self.le, at as int),
    {
        let count = match self.u16_at(at) {
            Some(c) => c as usize,
            None => return Vec::new(),
        };
        if count * 12 > self.data.len() - (at + 2) {
            return Vec::new();
        }
        let ghost want = entries_of(self.data@, self.le, at as int);
        let mut out: Vec<Entry> = Vec::new();
        let mut i: usize = 0;
        while i < count
            invariant
                0 <= i <= count,
                self.data@.len() <= usize::MAX,
                at + 2 + 12 * count <= self.data@.len(),
                count == want.len(),
                want == entries_of(self.data@, self.le, at as int),
                want == Seq::new(count as nat, |k: int| entry_at(self.data@, self.le, at + 2 + 12 * k)),
                out@ == want.take(i as int),
            decreases count - i,
        {
            let o = at + 2 + i * 12;
            let e = Entry {
                tag: read16(self.data, o, self.le),
                format: read16(self.data, o + 2, self.le),
                count: read32(self.data, o + 4, self.le),
                value: read32(self.data, o + 8, self.le),
            };
            out.push(e);
            assert(want.take(i + 1) =~= want.take(i as int).push(want[i as int]));
            i += 1;
        }
        assert(want.take(count as int) =~= want);
        out
    }

    /// Offset of the next IFD after the one at `at`, if any.
    pub fn next_ifd(&self, at: usize) -> (r: Option<usize>)
        ensures
            r == next_ifd_of(self.data@, self.le, at as int),
    {
        let count = match self.u16_at(at) {
            Some(c) => c as usize,
            None => return None,
        };
        if count * 12 > self.data.len() - (at + 2) {
            return None;
        }
        let n = match self.u32_at(at + 2 + count * 12) {
            Some(n) => n,
            None => return None,
        };
        if n == 0 {
            None
        } else {
            Some(n as usize)
        }
    }

    /// The bytes an entry's value occupies, as (start, length).
    ///
    /// Four bytes or fewer live inline in the entry itself; anything larger is
    /// addressed by an offset into the block.
    fn raw(&self, e: &Entry, at_entry: usize) -> (r: Option<(usize, usize)>)
        requires
            at_entry + 12 <= usize::MAX,
        ensures
            match r {
                Some((s, t)) => raw_range(self.data@.len() as int, *e, at_entry as int) == Some(
                    (s as int, t as int),
                ),
                None => raw_range(self.data@.len() as int, *e, at_entry as int) is None,
            },
    {
        let _len = self.data.len();
        let f = e.format;
        let size: usize = if f == 0 {
            0
        } else if f == 1 || f == 2 || f == 6 || f == 7 {
            1
        } else if f == 3 || f == 8 {
            2
        } else if f == 4 || f == 9 || f == 11 || f == 13 {
            4
        } else if f == 5 || f == 10 || f == 12 {
            8
        } else {
            return None;
        };
        if size == 0 {
            return None;
        }
        let count = e.count as usize;
        if count > usize::MAX / size {
            assert(size * count > usize::MAX) by (nonlinear_arith)
                requires
                    count > usize::MAX / size,
                    size >= 1,
            ;
            return None;
        }
        assert(size * count <= usize::MAX) by (nonlinear_arith)
            requires
                count <= usize::MAX / size,
                size >= 1,
        ;
        let total = size * count;
        if total <= 4 {
            if at_entry + 8 + total <= self.data.len() {
                Some((at_entry + 8, total))
            } else {
                None
            }
        } else {
            let start = e.value as usize;
            if start > usize::MAX - total {
                return None;
            }
            if start + total <= self.data.len() {
                Some((start, total))
            } else {
                None
            }
        }
    }

    /// Decode one entry. `at_entry` is where its 12 bytes begin.
    pub fn value(&self, e: &Entry, at_entry: usize) -> (r: Option<Value>)
        requires
            at_entry + 12 <= usize::MAX,
        ensures
            match r {
                Some(v) => value_of(self.data@, self.le, *e, at_entry as int) == Some(v@),
                None => value_of(self.data@, self.le, *e, at_entry as int) is None,
            },
    {
        let (start, total) = match self.raw(e, at_entry) {
            Some(p) => p,
            None => return None,
        };
        let d = self.data;
        let _dlen = d.len();
        let le = self.le;
        let n = e.count as usize;
        let f = e.format;
        let ghost want = value_of(d@, le, *e, at_entry as int);
        assert(want == decode(d@, start as int, total as int, *e, le));
        assert(start + total <= d@.len());
        if f == 2 {
            // ASCII, NUL-terminated. Trailing SPACES are kept: Fujifilm pads
            // Quality to "FINE   " and ExifTool reports the padding. A field that
            // is ENTIRELY blank is a different thing: cameras write 300 spaces
            // into an unset Artist or Copyright, and that is an empty field.
            let end = find_nul(d, start, total);
            let ghost r = d@.subrange(start as int, start + total);
            proof {
                lemma_nul_at_bound(r);
            }
            let bytes = slice_subrange(d, start, start + end);
            assert(bytes@ =~= r.take(end as int));
            let s = from_utf8_lossy(bytes);
            let t = trimmed(s.as_str());
            if t.is_empty() {
                return Some(Value::Text(String::new()));
            }
            return Some(Value::Text(s));
        }
        if f == 1 || f == 6 || f == 7 {
            if n == 1 && f == 1 {
                return Some(Value::U32(d[start] as u32));
            }
            let b = slice_to_vec(slice_subrange(d, start, start + total));
            return Some(Value::Bytes(b));
        }
        if f == 3 || f == 8 {
            if n == 1 {
                let v = read16(d, start, le);
                return Some(
                    if f == 3 {
                        Value::U32(v as u32)
                    } else {
                        Value::I32(to_signed16(v))
                    },
                );
            }
            assert(total == 2 * n);
            let mut us: Vec<u32> = Vec::new();
            let mut is: Vec<i32> = Vec::new();
            let mut i: usize = 0;
            while i < n
                invariant
                    0 <= i <= n,
                    start + 2 * n <= d@.len(),
                    d@.len() <= usize::MAX,
                    us@ =~= Seq::new(i as nat, |k: int| rd16(d@, start + 2 * k, le) as u32),
                    is@ =~= Seq::new(i as nat, |k: int| signed16(rd16(d@, start + 2 * k, le))),
                decreases n - i,
            {
                let v = read16(d, start + 2 * i, le);
                us.push(v as u32);
                is.push(to_signed16(v));
                i += 1;
            }
            return Some(
                if f == 3 {
                    Value::U32s(us)
                } else {
                    Value::I32s(is)
                },
            );
        }
        if f == 4 || f == 9 {
            if n == 1 {
                let v = read32(d, start, le);
                return Some(
                    if f == 4 {
                        Value::U32(v)
                    } else {
                        Value::I32(to_signed32(v))
                    },
                );
            }
            assert(total == 4 * n);
            let mut us: Vec<u32> = Vec::new();
            let mut is: Vec<i32> = Vec::new();
            let mut i: usize = 0;
            while i < n
                invariant
                    0 <= i <= n,
                    start + 4 * n <= d@.len(),
                    d@.len() <= usize::MAX,
                    us@ =~= Seq::new(i as nat, |k: int| rd32(d@, start + 4 * k, le)),
                    is@ =~= Seq::new(i as nat, |k: int| signed32(rd32(d@, start + 4 * k, le))),
                decreases n - i,
            {
                let v = read32(d, start + 4 * i, le);
                us.push(v);
                is.push(to_signed32(v));
                i += 1;
            }
            return Some(
                if f == 4 {
                    Value::U32s(us)
                } else {
                    Value::I32s(is)
                },
            );
        }
        if f == 5 || f == 10 {
            let signed = f == 10;
            assert(total == 8 * n);
            let mut out: Vec<(i64, i64)> = Vec::new();
            let mut i: usize = 0;
            while i < n
                invariant
                    0 <= i <= n,
                    start + 8 * n <= d@.len(),
                    d@.len() <= usize::MAX,
                    out@ =~= Seq::new(i as nat, |k: int| rational(d@, start + 8 * k, le, signed)),
                decreases n - i,
            {
                let a = read32(d, start + 8 * i, le);
                let b = read32(d, start + 8 * i + 4, le);
                if signed {
                    out.push((to_signed32(a) as i64, to_signed32(b) as i64));
                } else {
                    out.push((a as i64, b as i64));
                }
                i += 1;
            }
            if out.len() == 1 {
                return Some(Value::Ratio(out[0].0, out[0].1));
            }
            return Some(Value::Ratios(out));
        }
        if f == 11 {
            if n == 0 {
                return None;
            }
            return Some(Value::F32(read32(d, start, le)));
        }
        if f == 12 {
            if n == 0 {
                return None;
            }
            return Some(Value::F64(read64(d, start, le)));
        }
        let b = slice_to_vec(slice_subrange(d, start, start + total));
        Some(Value::Bytes(b))
    }
}

pub proof fn lemma_nul_at_bound(r: Seq<u8>)
    ensures
        0 <= nul_at(r) <= r.len(),
    decreases r.len(),
{
    if r.len() > 0 && r[0] != 0 {
        lemma_nul_at_bound(r.drop_first());
    }
}

} // verus!
