//! Walk IFD0, the directories it points at, and the MakerNotes.

use crate::fuji::{fuji_parse, spec_is_fuji};
use crate::tags::{
    exif_defs, find, find_def, print_exact, Table, EXIF_IFD, MAKER_NOTE, SUBFILE_TYPE_TAG, SUB_IFD,
};
use crate::tiff::{entries_of, header, header_of, value_of, Dir, Entry};
use crate::value::{as_i64, Value, ValueV};
use crate::{readings_view, Group, Reading, ReadingV};
use vstd::prelude::*;
use vstd::slice::slice_subrange;

verus! {

/// What one directory contributes: the directory offsets it points at, the
/// readings it adds, and (of those) the ones from its own standard entries.
pub struct Visit {
    pub pushed: Seq<usize>,
    pub added: Seq<ReadingV>,
    pub here: Seq<ReadingV>,
}

pub open spec fn entry_pos(at: int, i: int) -> int {
    at + 2 + 12 * i
}

/// The MakerNotes bytes an entry points at, when they lie inside the block.
pub open spec fn maker_block(tiff: Seq<u8>, e: Entry) -> Option<Seq<u8>> {
    let start = e.value as int;
    let end = if start + e.count > usize::MAX {
        usize::MAX as int
    } else {
        start + e.count
    };
    if end <= tiff.len() {
        Some(tiff.subrange(start, end))
    } else {
        None
    }
}

/// The reading of a standard EXIF tag.
pub open spec fn exif_reading(def: crate::tags::TagDef, v: ValueV) -> ReadingV {
    ReadingV {
        group: Group::Exif,
        name: def.name@,
        value: v,
        print: print_exact(def.conv, v),
        conv: def.conv,
    }
}

/// One entry, the `i`th of the directory at `at`, folded into what the
/// directory has contributed so far.
pub open spec fn visit_entry(tiff: Seq<u8>, le: bool, at: int, e: Entry, i: int, acc: Visit) -> Visit {
    let pos = entry_pos(at, i);
    if e.tag == EXIF_IFD {
        Visit { pushed: acc.pushed.push(e.value as usize), ..acc }
    } else if e.tag == SUB_IFD {
        // SubIFDs are a pointer ARRAY: a DNG commonly has three.
        match value_of(tiff, le, e, pos) {
            Some(ValueV::U32(v)) => Visit { pushed: acc.pushed.push(v as usize), ..acc },
            Some(ValueV::U32s(vs)) => Visit {
                pushed: acc.pushed + vs.map_values(|x: u32| x as usize),
                ..acc
            },
            _ => acc,
        }
    } else if e.tag == MAKER_NOTE {
        match maker_block(tiff, e) {
            Some(b) => if spec_is_fuji(b) {
                Visit { added: acc.added + fuji_parse(b), ..acc }
            } else {
                acc
            },
            None => acc,
        }
    } else {
        match find_def(exif_defs(), e.tag) {
            None => acc,
            Some(def) => match value_of(tiff, le, e, pos) {
                None => acc,
                Some(v) => Visit {
                    added: acc.added.push(exif_reading(def, v)),
                    here: acc.here.push(exif_reading(def, v)),
                    ..acc
                },
            },
        }
    }
}

/// The first `n` entries of a directory, folded.
pub open spec fn visit_upto(tiff: Seq<u8>, le: bool, at: int, es: Seq<Entry>, n: nat) -> Visit
    decreases n,
{
    if n == 0 || n > es.len() {
        Visit { pushed: Seq::empty(), added: Seq::empty(), here: Seq::empty() }
    } else {
        visit_entry(
            tiff,
            le,
            at,
            es[n - 1],
            n - 1,
            visit_upto(tiff, le, at, es, (n - 1) as nat),
        )
    }
}

/// The index of the first entry with tag `tag`.
pub open spec fn first_with_tag(es: Seq<Entry>, tag: u16) -> Option<int>
    decreases es.len(),
{
    if es.len() == 0 {
        None
    } else if es[0].tag == tag {
        Some(0)
    } else {
        match first_with_tag(es.drop_first(), tag) {
            Some(i) => Some(i + 1),
            None => None,
        }
    }
}

/// Whether the directory declares itself the full-resolution image: its
/// first SubfileType reads 0.
pub open spec fn full_res(tiff: Seq<u8>, le: bool, at: int) -> bool {
    let es = entries_of(tiff, le, at);
    match first_with_tag(es, SUBFILE_TYPE_TAG) {
        Some(i) => match value_of(tiff, le, es[i], entry_pos(at, i)) {
            Some(v) => as_i64(v) == Some(0i64),
            None => false,
        },
        None => false,
    }
}

/// The first reading with name `name`.
pub open spec fn named(s: Seq<ReadingV>, name: Seq<char>) -> Option<ReadingV>
    decreases s.len(),
{
    if s.len() == 0 {
        None
    } else if s[0].name == name {
        Some(s[0])
    } else {
        named(s.drop_first(), name)
    }
}

/// The directory walk from the queue position `cursor` on: breadth-first,
/// each directory once, at most nine of them. Returns the readings and the
/// full-resolution frame's width and height, if a directory declared one.
pub open spec fn run(
    tiff: Seq<u8>,
    le: bool,
    queue: Seq<usize>,
    cursor: int,
    seen: Seq<usize>,
    out: Seq<ReadingV>,
    primary: Option<(ReadingV, ReadingV)>,
) -> (Seq<ReadingV>, Option<(ReadingV, ReadingV)>)
    decreases 10 - seen.len(), queue.len() - cursor,
{
    if cursor < 0 || cursor >= queue.len() || seen.len() > 9 {
        (out, primary)
    } else {
        let at = queue[cursor];
        if seen.contains(at) || seen.len() > 8 {
            run(tiff, le, queue, cursor + 1, seen, out, primary)
        } else {
            let es = entries_of(tiff, le, at as int);
            let v = visit_upto(tiff, le, at as int, es, es.len());
            let p = if full_res(tiff, le, at as int) {
                match (named(v.here, "ImageWidth"@), named(v.here, "ImageHeight"@)) {
                    (Some(w), Some(h)) => Some((w, h)),
                    _ => primary,
                }
            } else {
                primary
            };
            run(tiff, le, queue + v.pushed, cursor + 1, seen.push(at), out + v.added, p)
        }
    }
}

pub open spec fn same_key(a: ReadingV, b: ReadingV) -> bool {
    a.group == b.group && a.name == b.name
}

/// One reading per (group, name): the first one.
pub open spec fn dedup(s: Seq<ReadingV>) -> Seq<ReadingV>
    decreases s.len(),
{
    if s.len() == 0 {
        s
    } else {
        let d = dedup(s.drop_last());
        if exists|j: int| 0 <= j < s.len() - 1 && same_key(#[trigger] s[j], s.last()) {
            d
        } else {
            d.push(s.last())
        }
    }
}

pub open spec fn is_size(r: ReadingV) -> bool {
    r.name == "ImageWidth"@ || r.name == "ImageHeight"@
}

/// The readings without any ImageWidth or ImageHeight.
pub open spec fn drop_sizes(s: Seq<ReadingV>) -> Seq<ReadingV>
    decreases s.len(),
{
    if s.len() == 0 {
        s
    } else if is_size(s.last()) {
        drop_sizes(s.drop_last())
    } else {
        drop_sizes(s.drop_last()).push(s.last())
    }
}

pub open spec fn size_reading(name: Seq<char>, r: ReadingV) -> ReadingV {
    ReadingV { group: Group::Exif, name: name, value: r.value, print: r.print, conv: r.conv }
}

/// What a walk adds to the readings `prior`: every directory's readings, one
/// per (group, name), with the full-resolution frame's size in place of any
/// other.
pub open spec fn walk_spec(tiff: Seq<u8>, prior: Seq<ReadingV>) -> Seq<ReadingV> {
    match header_of(tiff) {
        None => prior,
        Some((first, le)) => {
            let (out, p) = run(tiff, le, seq![first], 0, Seq::empty(), prior, None);
            let d = dedup(out);
            match p {
                None => d,
                Some((w, h)) => drop_sizes(d).push(size_reading("ImageWidth"@, w)).push(
                    size_reading("ImageHeight"@, h),
                ),
            }
        },
    }
}

} // verus!

verus! {

pub open spec fn primary_view(p: Option<(Reading, Reading)>) -> Option<(ReadingV, ReadingV)> {
    match p {
        Some((w, h)) => Some((w@, h@)),
        None => None,
    }
}

fn push_all(out: &mut Vec<Reading>, more: Vec<Reading>)
    ensures
        readings_view(final(out)@) == readings_view(old(out)@) + readings_view(more@),
{
    let mut more = more;
    let ghost m = more@;
    out.append(&mut more);
    assert(readings_view(out@) =~= readings_view(old(out)@) + readings_view(m));
}

fn push_one(out: &mut Vec<Reading>, r: Reading)
    ensures
        readings_view(final(out)@) == readings_view(old(out)@).push(r@),
{
    out.push(r);
    assert(readings_view(out@) =~= readings_view(old(out)@).push(r@));
}

fn contains(seen: &Vec<usize>, at: usize) -> (r: bool)
    ensures
        r == seen@.contains(at),
{
    let mut i: usize = 0;
    while i < seen.len()
        invariant
            0 <= i <= seen@.len(),
            forall|j: int| 0 <= j < i ==> seen@[j] != at,
        decreases seen.len() - i,
    {
        if seen[i] == at {
            assert(seen@[i as int] == at);
            return true;
        }
        i += 1;
    }
    false
}

/// Process the directory at `at`: push the directories it points at onto
/// `queue`, its readings onto `out`, and return its own standard readings.
fn visit(dir: &Dir, at: usize, queue: &mut Vec<usize>, out: &mut Vec<Reading>) -> (here: Vec<
    Reading,
>)
    ensures
        ({
            let es = entries_of(dir.data@, dir.le, at as int);
            let v = visit_upto(dir.data@, dir.le, at as int, es, es.len());
            &&& final(queue)@ == old(queue)@ + v.pushed
            &&& readings_view(final(out)@) == readings_view(old(out)@) + v.added
            &&& readings_view(here@) == v.here
        }),
{
    let tiff = dir.data;
    let _len = tiff.len();
    let es = dir.entries(at);
    let ghost ges = es@;
    let ghost q0 = queue@;
    let ghost o0 = readings_view(out@);
    let mut here: Vec<Reading> = Vec::new();
    let mut i: usize = 0;
    assert(queue@ =~= q0 + Seq::<usize>::empty());
    assert(readings_view(out@) =~= o0 + Seq::<ReadingV>::empty());
    assert(readings_view(here@) =~= Seq::<ReadingV>::empty());
    while i < es.len()
        invariant
            0 <= i <= ges.len(),
            es@ == ges,
            ges == entries_of(tiff@, dir.le, at as int),
            ges.len() > 0 ==> at + 2 + 12 * ges.len() <= tiff@.len(),
            tiff@.len() <= usize::MAX,
            tiff == dir.data,
            ({
                let v = visit_upto(tiff@, dir.le, at as int, ges, i as nat);
                &&& queue@ == q0 + v.pushed
                &&& readings_view(out@) == o0 + v.added
                &&& readings_view(here@) == v.here
            }),
        decreases es.len() - i,
    {
        let e = es[i];
        let pos = at + 2 + i * 12;
        let ghost prev = visit_upto(tiff@, dir.le, at as int, ges, i as nat);
        assert(visit_upto(tiff@, dir.le, at as int, ges, (i + 1) as nat) == visit_entry(
            tiff@,
            dir.le,
            at as int,
            e,
            i as int,
            prev,
        ));
        if e.tag == EXIF_IFD {
            queue.push(e.value as usize);
            assert(queue@ =~= q0 + prev.pushed.push(e.value as usize));
        } else if e.tag == SUB_IFD {
            match dir.value(&e, pos) {
                Some(Value::U32(v)) => {
                    queue.push(v as usize);
                    assert(queue@ =~= q0 + prev.pushed.push(v as usize));
                },
                Some(Value::U32s(vs)) => {
                    let ghost qb = queue@;
                    let mut k: usize = 0;
                    while k < vs.len()
                        invariant
                            0 <= k <= vs@.len(),
                            queue@ == qb + vs@.take(k as int).map_values(|x: u32| x as usize),
                        decreases vs.len() - k,
                    {
                        queue.push(vs[k] as usize);
                        assert(vs@.take(k + 1).map_values(|x: u32| x as usize) =~= vs@.take(
                            k as int,
                        ).map_values(|x: u32| x as usize).push(vs@[k as int] as usize));
                        k += 1;
                    }
                    assert(vs@.take(vs@.len() as int) =~= vs@);
                    assert(queue@ =~= q0 + (prev.pushed + vs@.map_values(|x: u32| x as usize)));
                },
                _ => {},
            }
        } else if e.tag == MAKER_NOTE {
            let start = e.value as usize;
            let count = e.count as usize;
            let end = if start > usize::MAX - count {
                usize::MAX
            } else {
                start + count
            };
            if end <= tiff.len() {
                let block = slice_subrange(tiff, start, end);
                assert(block@ == tiff@.subrange(start as int, end as int));
                if crate::fuji::is_fuji(block) {
                    let rs = crate::fuji::parse(block);
                    push_all(out, rs);
                    assert(readings_view(out@) =~= o0 + (prev.added + fuji_parse(block@)));
                }
            }
        } else {
            match find(Table::Exif, e.tag) {
                Some(def) => match dir.value(&e, pos) {
                    Some(v) => {
                        proof {
                            crate::fuji::lemma_decoded_ok(tiff@, dir.le, e, pos as int);
                        }
                        let print = def.print(&v);
                        let r = Reading {
                            group: Group::Exif,
                            name: def.name,
                            value: v,
                            print,
                            conv: def.conv,
                        };
                        assert(r@ == exif_reading(def, v@));
                        push_one(&mut here, r.duplicate());
                        push_one(out, r);
                        assert(readings_view(out@) =~= o0 + prev.added.push(exif_reading(def, v@)));
                    },
                    None => {},
                },
                None => {},
            }
        }
        i += 1;
    }
    here
}

/// Whether the directory at `at` declares itself the full-resolution image.
fn is_full_res(dir: &Dir, at: usize) -> (r: bool)
    ensures
        r == full_res(dir.data@, dir.le, at as int),
{
    let _len = dir.data.len();
    let es = dir.entries(at);
    let ghost ges = es@;
    let mut i: usize = 0;
    assert(ges.subrange(0, ges.len() as int) =~= ges);
    assert(first_with_tag(ges, SUBFILE_TYPE_TAG) == match first_with_tag(
        ges.subrange(0, ges.len() as int),
        SUBFILE_TYPE_TAG,
    ) {
        Some(j) => Some(j + 0),
        None => None::<int>,
    });
    while i < es.len()
        invariant
            0 <= i <= ges.len(),
            es@ == ges,
            ges == entries_of(dir.data@, dir.le, at as int),
            ges.len() > 0 ==> at + 2 + 12 * ges.len() <= dir.data@.len(),
            dir.data@.len() <= usize::MAX,
            first_with_tag(ges, SUBFILE_TYPE_TAG) == match first_with_tag(
                ges.subrange(i as int, ges.len() as int),
                SUBFILE_TYPE_TAG,
            ) {
                Some(j) => Some(j + i),
                None => None::<int>,
            },
        decreases es.len() - i,
    {
        assert(ges.subrange(i + 1, ges.len() as int) =~= ges.subrange(
            i as int,
            ges.len() as int,
        ).drop_first());
        if es[i].tag == SUBFILE_TYPE_TAG {
            let pos = at + 2 + i * 12;
            proof {
                crate::fuji::lemma_decoded_ok(dir.data@, dir.le, es@[i as int], pos as int);
            }
            return match dir.value(&es[i], pos) {
                Some(v) => match v.as_i64() {
                    Some(n) => n == 0,
                    None => false,
                },
                None => false,
            };
        }
        i += 1;
    }
    false
}

/// The index of the first reading named `name`.
fn find_named(s: &Vec<Reading>, name: &str) -> (r: Option<usize>)
    ensures
        match r {
            Some(i) => i < s@.len() && named(readings_view(s@), name@) == Some(s@[i as int]@),
            None => named(readings_view(s@), name@) is None,
        },
{
    let ghost rv = readings_view(s@);
    let mut i: usize = 0;
    assert(rv.subrange(0, rv.len() as int) =~= rv);
    while i < s.len()
        invariant
            0 <= i <= s@.len(),
            rv == readings_view(s@),
            named(rv, name@) == named(rv.subrange(i as int, rv.len() as int), name@),
        decreases s.len() - i,
    {
        assert(rv.subrange(i + 1, rv.len() as int) =~= rv.subrange(
            i as int,
            rv.len() as int,
        ).drop_first());
        if crate::text::str_eq(s[i].name, name) {
            return Some(i);
        }
        i += 1;
    }
    None
}

/// One reading per (group, name), the first, as copies.
fn dedup_readings(all: &Vec<Reading>) -> (r: Vec<Reading>)
    ensures
        readings_view(r@) == dedup(readings_view(all@)),
{
    let ghost av = readings_view(all@);
    let mut kept: Vec<Reading> = Vec::new();
    let mut i: usize = 0;
    assert(av.take(0) =~= Seq::<ReadingV>::empty());
    assert(readings_view(kept@) =~= Seq::<ReadingV>::empty());
    while i < all.len()
        invariant
            0 <= i <= all@.len(),
            av == readings_view(all@),
            readings_view(kept@) == dedup(av.take(i as int)),
        decreases all.len() - i,
    {
        let mut j: usize = 0;
        let mut dup = false;
        while j < i
            invariant
                0 <= j <= i < all@.len(),
                av == readings_view(all@),
                dup == exists|k: int| 0 <= k < j && same_key(#[trigger] av[k], av[i as int]),
            decreases i - j,
        {
            if all[j].group == all[i].group && crate::text::str_eq(all[j].name, all[i].name) {
                assert(same_key(av[j as int], av[i as int]));
                dup = true;
            }
            j += 1;
        }
        let ghost t = av.take(i + 1);
        assert(t.drop_last() =~= av.take(i as int));
        assert(t.last() == av[i as int]);
        assert(dup == exists|k: int| 0 <= k < t.len() - 1 && same_key(#[trigger] t[k], t.last())) by {
            if dup {
                let k = choose|k: int| 0 <= k < i && same_key(#[trigger] av[k], av[i as int]);
                assert(t[k] == av[k]);
            }
            if exists|k: int| 0 <= k < t.len() - 1 && same_key(#[trigger] t[k], t.last()) {
                let k = choose|k: int| 0 <= k < t.len() - 1 && same_key(#[trigger] t[k], t.last());
                assert(av[k] == t[k]);
            }
        }
        if !dup {
            push_one(&mut kept, all[i].duplicate());
        }
        i += 1;
    }
    assert(av.take(all@.len() as int) =~= av);
    kept
}

/// The readings without any ImageWidth or ImageHeight.
fn drop_size_readings(all: Vec<Reading>) -> (r: Vec<Reading>)
    ensures
        readings_view(r@) == drop_sizes(readings_view(all@)),
{
    let ghost av = readings_view(all@);
    let mut kept: Vec<Reading> = Vec::new();
    let mut i: usize = 0;
    assert(av.take(0) =~= Seq::<ReadingV>::empty());
    assert(readings_view(kept@) =~= Seq::<ReadingV>::empty());
    while i < all.len()
        invariant
            0 <= i <= all@.len(),
            av == readings_view(all@),
            readings_view(kept@) == drop_sizes(av.take(i as int)),
        decreases all.len() - i,
    {
        let ghost t = av.take(i + 1);
        assert(t.drop_last() =~= av.take(i as int));
        assert(t.last() == av[i as int]);
        if !(crate::text::str_eq(all[i].name, "ImageWidth") || crate::text::str_eq(
            all[i].name,
            "ImageHeight",
        )) {
            push_one(&mut kept, all[i].duplicate());
        }
        i += 1;
    }
    assert(av.take(all@.len() as int) =~= av);
    kept
}

/// Walk IFD0, the EXIF sub-directory it points at, and the MakerNotes,
/// appending what they hold to `out`.
///
/// Breadth-first from IFD0, so that when a tag appears in several directories
/// the one a reader means is reached first. A DNG puts a thumbnail in IFD0 and
/// the photograph in a SubIFD, so the frame a person means is the one that
/// declares itself full-resolution rather than the first one or the biggest.
/// One entry per (group, name) survives, since a JSON object cannot hold a key
/// twice anyway.
pub fn walk(tiff: &[u8], out: &mut Vec<Reading>)
    ensures
        readings_view(final(out)@) == walk_spec(tiff@, readings_view(old(out)@)),
{
    let (first, le) = match header(tiff) {
        Some(h) => h,
        None => return,
    };
    let dir = Dir::new(tiff, le);
    let mut queue: Vec<usize> = Vec::new();
    queue.push(first);
    let mut seen: Vec<usize> = Vec::new();
    let mut primary: Option<(Reading, Reading)> = None;
    let mut cursor: usize = 0;
    let ghost target = run(tiff@, le, seq![first], 0, Seq::empty(), readings_view(out@), None);
    assert(queue@ =~= seq![first]);
    assert(seen@ =~= Seq::<usize>::empty());
    while cursor < queue.len()
        invariant
            0 <= cursor <= queue@.len(),
            seen@.len() <= 9,
            dir.data == tiff,
            dir.le == le,
            run(tiff@, le, queue@, cursor as int, seen@, readings_view(out@), primary_view(primary))
                == target,
        decreases 10 - seen@.len(), queue@.len() - cursor,
    {
        let at = queue[cursor];
        cursor += 1;
        // A malformed file can point a directory at itself.
        if contains(&seen, at) || seen.len() > 8 {
            continue;
        }
        seen.push(at);
        let full = is_full_res(&dir, at);
        let here = visit(&dir, at, &mut queue, out);
        if full {
            match (find_named(&here, "ImageWidth"), find_named(&here, "ImageHeight")) {
                (Some(wi), Some(hi)) => {
                    primary = Some((here[wi].duplicate(), here[hi].duplicate()));
                },
                _ => {},
            }
        }
    }
    let d = dedup_readings(out);
    let result = match primary {
        None => d,
        Some((w, h)) => {
            let mut r = drop_size_readings(d);
            push_one(
                &mut r,
                Reading {
                    group: Group::Exif,
                    name: "ImageWidth",
                    value: w.value,
                    print: w.print,
                    conv: w.conv,
                },
            );
            push_one(
                &mut r,
                Reading {
                    group: Group::Exif,
                    name: "ImageHeight",
                    value: h.value,
                    print: h.print,
                    conv: h.conv,
                },
            );
            r
        },
    };
    *out = result;
}

} // verus!
