//! Fujifilm MakerNotes.
//!
//! Two details decide whether this works, and both fail quietly.
//!
//! Byte 8 holds a POINTER to the directory rather than a count of bytes to
//! skip. It reads 12 on every X-series file measured, and it is not a constant.
//!
//! Value offsets inside are relative to the start of the MakerNotes block
//! rather than to the TIFF header. Inline values survive the wrong base, so
//! getting this wrong leaves the numbers correct and every string empty.

use crate::bytes::{has_prefix, starts_with};
use crate::tags::{
    find, find_def, formatted, fuji_defs, fuji_override, format_with, print_exact,
    Conv, Table, TagDef,
};
use crate::text::{dec_nat, dec_string};
use crate::tiff::{entries_of, rd32, read32, value_of, Dir, Entry};
use crate::value::{as_i64, value_ok, Value, ValueV};
use crate::{readings_view, Group, Reading, ReadingV};
use vstd::prelude::*;

verus! {

/// "FUJIFILM"
pub open spec fn sig_fujifilm() -> Seq<u8> {
    seq![0x46u8, 0x55, 0x4a, 0x49, 0x46, 0x49, 0x4c, 0x4d]
}

/// "GENERALE"
pub open spec fn sig_generale() -> Seq<u8> {
    seq![0x47u8, 0x45, 0x4e, 0x45, 0x52, 0x41, 0x4c, 0x45]
}

pub open spec fn spec_is_fuji(block: Seq<u8>) -> bool {
    starts_with(block, sig_fujifilm()) || starts_with(block, sig_generale())
}

/// True if this MakerNotes block is Fujifilm's.
///
/// The test is on the DATA and never on the camera make, because the same
/// header is written by some Leica, Minolta and Sharp bodies, and GE models
/// write "GENERALE".
pub fn is_fuji(block: &[u8]) -> (r: bool)
    ensures
        r == spec_is_fuji(block@),
{
    let f = [0x46u8, 0x55, 0x4a, 0x49, 0x46, 0x49, 0x4c, 0x4d];
    let g = [0x47u8, 0x45, 0x4e, 0x45, 0x52, 0x41, 0x4c, 0x45];
    assert(f@ == sig_fujifilm());
    assert(g@ == sig_generale());
    has_prefix(block, &f) || has_prefix(block, &g)
}

} // verus!

verus! {

/// The DriveSettings word, when the value carries one: a long, or at least
/// four bytes read little-endian.
pub open spec fn drive_bits(v: ValueV) -> Option<u32> {
    match v {
        ValueV::U32(n) => Some(n),
        ValueV::Bytes(b) => if b.len() >= 4 {
            Some(rd32(b, 0, true))
        } else {
            None
        },
        _ => None,
    }
}

/// How a Fujifilm tag prints: its override where that has a reading, else
/// the table's conversion.
pub open spec fn fuji_print(def: TagDef, v: ValueV) -> Option<Seq<char>> {
    match crate::tags::override_of(def.id) {
        Some(f) => match formatted(f, v) {
            Some(r) => r,
            None => print_exact(def.conv, v),
        },
        None => print_exact(def.conv, v),
    }
}

/// The first `n` entries of the directory at `ifd`, decoded: the readings of
/// the tags the table knows, and the last DriveSettings word seen.
pub open spec fn scan(block: Seq<u8>, ifd: int, es: Seq<Entry>, n: nat) -> (
    Seq<ReadingV>,
    Option<u32>,
)
    decreases n,
{
    if n == 0 || n > es.len() {
        (Seq::empty(), None)
    } else {
        let prev = scan(block, ifd, es, (n - 1) as nat);
        let e = es[n - 1];
        match value_of(block, true, e, ifd + 2 + 12 * (n - 1)) {
            None => prev,
            Some(v) => if e.tag == 0x1103 {
                (prev.0, drive_bits(v))
            } else {
                match find_def(fuji_defs(), e.tag) {
                    None => prev,
                    Some(def) => (
                        prev.0.push(
                            ReadingV {
                                group: Group::Fuji,
                                name: def.name@,
                                value: v,
                                print: fuji_print(def, v),
                                conv: def.conv,
                            },
                        ),
                        prev.1,
                    ),
                }
            },
        }
    }
}

pub open spec fn drive_mode_text(mode: nat) -> Seq<char> {
    if mode == 0 {
        "Single"@
    } else if mode == 1 {
        "Continuous Low"@
    } else if mode == 2 {
        "Continuous High"@
    } else {
        dec_nat(mode)
    }
}

pub open spec fn drive_speed_text(speed: nat) -> Seq<char> {
    if speed == 0 {
        "n/a"@
    } else {
        dec_nat(speed) + " fps"@
    }
}

/// DriveSettings is one long carrying two masked fields: the drive mode in
/// the low byte and the frame rate in the high one.
pub open spec fn drive_readings(bits: u32) -> Seq<ReadingV> {
    let mode = bits % 256;
    let speed = (bits / 16777216) % 256;
    seq![
        ReadingV {
            group: Group::Fuji,
            name: "DriveMode"@,
            value: ValueV::U32(mode),
            print: Some(drive_mode_text(mode as nat)),
            conv: Conv::AsIs,
        },
        ReadingV {
            group: Group::Fuji,
            name: "DriveSpeed"@,
            value: ValueV::U32(speed),
            print: Some(drive_speed_text(speed as nat)),
            conv: Conv::AsIs,
        },
    ]
}

/// 0x100b written as 0x100, which every X-series body writes to mean "not
/// this tag".
pub open spec fn is_nr100(r: ReadingV) -> bool {
    r.name == "NoiseReduction"@ && as_i64(r.value) == Some(0x100i64)
}

/// The readings without the first placeholder NoiseReduction.
pub open spec fn drop_nr100(s: Seq<ReadingV>) -> Seq<ReadingV>
    decreases s.len(),
{
    if s.len() == 0 {
        s
    } else if is_nr100(s[0]) {
        s.drop_first()
    } else {
        seq![s[0]] + drop_nr100(s.drop_first())
    }
}

/// Everything the MakerNotes block yields, in directory order.
pub open spec fn fuji_parse(block: Seq<u8>) -> Seq<ReadingV> {
    if block.len() < 12 || !spec_is_fuji(block) {
        Seq::empty()
    } else {
        let ifd = rd32(block, 8, true) as int;
        let es = entries_of(block, true, ifd);
        let (out, drive) = scan(block, ifd, es, es.len());
        let all = match drive {
            Some(b) => out + drive_readings(b),
            None => out,
        };
        drop_nr100(all)
    }
}

proof fn lemma_scan_drive(block: Seq<u8>, ifd: int, es: Seq<Entry>, n: nat, i: int, bits: u32)
    requires
        0 <= i < n <= es.len(),
        es[i].tag == 0x1103,
        value_of(block, true, es[i], ifd + 2 + 12 * i) == Some(ValueV::U32(bits)),
        forall|j: int| i < j < es.len() ==> (#[trigger] es[j]).tag != 0x1103,
    ensures
        scan(block, ifd, es, n).1 == Some(bits),
    decreases n,
{
    if n > i + 1 {
        lemma_scan_drive(block, ifd, es, (n - 1) as nat, i, bits);
        assert(es[n - 1].tag != 0x1103);
    }
}

proof fn lemma_drop_nr100_none(d: Seq<ReadingV>)
    requires
        forall|j: int| 0 <= j < d.len() ==> !is_nr100(#[trigger] d[j]),
    ensures
        drop_nr100(d) == d,
    decreases d.len(),
{
    if d.len() > 0 {
        assert(!is_nr100(d[0]));
        assert forall|j: int| 0 <= j < d.drop_first().len() implies !is_nr100(
            #[trigger] d.drop_first()[j],
        ) by {
            assert(d.drop_first()[j] == d[j + 1]);
        }
        lemma_drop_nr100_none(d.drop_first());
        assert(seq![d[0]] + d.drop_first() =~= d);
    }
}

proof fn lemma_drop_nr100_append(a: Seq<ReadingV>, d: Seq<ReadingV>)
    requires
        forall|j: int| 0 <= j < d.len() ==> !is_nr100(#[trigger] d[j]),
    ensures
        drop_nr100(a + d) == drop_nr100(a) + d,
    decreases a.len(),
{
    if a.len() == 0 {
        assert(a + d =~= d);
        lemma_drop_nr100_none(d);
        assert(drop_nr100(a) + d =~= d);
    } else {
        assert((a + d)[0] == a[0]);
        assert((a + d).drop_first() =~= a.drop_first() + d);
        lemma_drop_nr100_append(a.drop_first(), d);
        if !is_nr100(a[0]) {
            assert(seq![a[0]] + (drop_nr100(a.drop_first()) + d) =~= (seq![a[0]] + drop_nr100(
                a.drop_first(),
            )) + d);
        }
    }
}

/// DriveSettings reads as a drive mode and a frame rate: where IFD entry
/// `i` is the directory's last DriveSettings (0x1103) and holds the long
/// `bits`, the readings end with DriveMode, the low byte, printed "Single"
/// for 0, "Continuous Low" for 1, "Continuous High" for 2 and as its number
/// otherwise; then DriveSpeed, the high byte, printed as frames per second,
/// or "n/a" for 0.
pub proof fn law_drive_settings_read_as_mode_and_speed(
    block: Seq<u8>,
    es: Seq<Entry>,
    i: int,
    bits: u32,
)
    requires
        block.len() >= 12,
        spec_is_fuji(block),
        es == entries_of(block, true, rd32(block, 8, true) as int),
        0 <= i < es.len(),
        es[i].tag == 0x1103,
        value_of(block, true, es[i], rd32(block, 8, true) as int + 2 + 12 * i) == Some(
            ValueV::U32(bits),
        ),
        forall|j: int| i < j < es.len() ==> (#[trigger] es[j]).tag != 0x1103,
    ensures
        ({
            let r = fuji_parse(block);
            let mode = bits % 256;
            let speed = (bits / 16777216) % 256;
            &&& r.len() >= 2
            &&& r[r.len() - 2].group == Group::Fuji
            &&& r[r.len() - 2].name == "DriveMode"@
            &&& r[r.len() - 2].value == ValueV::U32(mode)
            &&& r[r.len() - 2].print == Some(
                if mode == 0 {
                    "Single"@
                } else if mode == 1 {
                    "Continuous Low"@
                } else if mode == 2 {
                    "Continuous High"@
                } else {
                    dec_nat(mode as nat)
                },
            )
            &&& r[r.len() - 1].group == Group::Fuji
            &&& r[r.len() - 1].name == "DriveSpeed"@
            &&& r[r.len() - 1].value == ValueV::U32(speed)
            &&& r[r.len() - 1].print == Some(
                if speed == 0 {
                    "n/a"@
                } else {
                    dec_nat(speed as nat) + " fps"@
                },
            )
        }),
{
    let ifd = rd32(block, 8, true) as int;
    lemma_scan_drive(block, ifd, es, es.len() as nat, i, bits);
    let out = scan(block, ifd, es, es.len()).0;
    let d = drive_readings(bits);
    reveal_strlit("NoiseReduction");
    reveal_strlit("DriveMode");
    reveal_strlit("DriveSpeed");
    assert(d[0].name != "NoiseReduction"@) by {
        assert(d[0].name.len() != "NoiseReduction"@.len());
    }
    assert(d[1].name != "NoiseReduction"@) by {
        assert(d[1].name.len() != "NoiseReduction"@.len());
    }
    assert forall|j: int| 0 <= j < d.len() implies !is_nr100(#[trigger] d[j]) by {}
    lemma_drop_nr100_append(out, d);
    let r = fuji_parse(block);
    assert(r == drop_nr100(out) + d);
    assert(r[r.len() - 2] == d[0]);
    assert(r[r.len() - 1] == d[1]);
}

pub open spec fn all_ok(s: Seq<ReadingV>) -> bool {
    forall|i: int| 0 <= i < s.len() ==> value_ok(#[trigger] s[i].value)
}

/// A decoded value never holds the one quotient `as_i64` cannot take.
pub proof fn lemma_decoded_ok(d: Seq<u8>, le: bool, e: Entry, at: int)
    ensures
        value_of(d, le, e, at) matches Some(v) ==> value_ok(v),
{
}

proof fn lemma_scan_ok(block: Seq<u8>, ifd: int, es: Seq<Entry>, n: nat)
    ensures
        all_ok(scan(block, ifd, es, n).0),
    decreases n,
{
    if n > 0 && n <= es.len() {
        lemma_scan_ok(block, ifd, es, (n - 1) as nat);
        lemma_decoded_ok(block, true, es[n - 1], ifd + 2 + 12 * (n - 1));
    }
}

proof fn lemma_drop_prefix(s: Seq<ReadingV>, k: int)
    requires
        0 <= k <= s.len(),
        forall|j: int| 0 <= j < k ==> !is_nr100(#[trigger] s[j]),
    ensures
        drop_nr100(s) == s.take(k) + drop_nr100(s.skip(k)),
    decreases k,
{
    if k > 0 {
        lemma_drop_prefix(s.drop_first(), k - 1);
        assert(s.drop_first().skip(k - 1) =~= s.skip(k));
        assert(seq![s[0]] + s.drop_first().take(k - 1) =~= s.take(k));
    } else {
        assert(s.skip(0) =~= s);
    }
}

fn push_reading(out: &mut Vec<Reading>, r: Reading)
    ensures
        readings_view(final(out)@) == readings_view(old(out)@).push(r@),
{
    out.push(r);
    assert(readings_view(out@) =~= readings_view(old(out)@).push(r@));
}

pub fn parse(block: &[u8]) -> (r: Vec<Reading>)
    ensures
        readings_view(r@) == fuji_parse(block@),
{
    let mut out: Vec<Reading> = Vec::new();
    if block.len() < 12 || !is_fuji(block) {
        assert(readings_view(out@) =~= Seq::<ReadingV>::empty());
        return out;
    }
    let ifd = read32(block, 8, true) as usize;
    // Fujifilm forces little-endian regardless of the file's own byte order.
    let dir = Dir::new(block, true);
    let es = dir.entries(ifd);
    let ghost ges = es@;
    let mut drive_settings: Option<u32> = None;
    let mut i: usize = 0;
    assert(readings_view(out@) =~= Seq::<ReadingV>::empty());
    while i < es.len()
        invariant
            0 <= i <= es@.len(),
            es@ == ges,
            dir.data == block,
            dir.le == true,
            ges == entries_of(block@, true, ifd as int),
            ges.len() > 0 ==> ifd + 2 + 12 * ges.len() <= block@.len(),
            block@.len() <= usize::MAX,
            (readings_view(out@), drive_settings) == scan(block@, ifd as int, ges, i as nat),
        decreases es.len() - i,
    {
        let e = es[i];
        let at = ifd + 2 + i * 12;
        let ghost prev = scan(block@, ifd as int, ges, i as nat);
        assert(scan(block@, ifd as int, ges, (i + 1) as nat).0 == {
            let p = scan(block@, ifd as int, ges, i as nat);
            match value_of(block@, true, ges[i as int], ifd + 2 + 12 * i) {
                None => p,
                Some(v) => if ges[i as int].tag == 0x1103 {
                    (p.0, drive_bits(v))
                } else {
                    match find_def(fuji_defs(), ges[i as int].tag) {
                        None => p,
                        Some(def) => (
                            p.0.push(
                                ReadingV {
                                    group: Group::Fuji,
                                    name: def.name@,
                                    value: v,
                                    print: fuji_print(def, v),
                                    conv: def.conv,
                                },
                            ),
                            p.1,
                        ),
                    }
                },
            }
        }.0);
        i += 1;
        let v = match dir.value(&e, at) {
            Some(v) => v,
            None => continue,
        };
        if e.tag == 0x1103 {
            drive_settings = match &v {
                Value::U32(n) => Some(*n),
                Value::Bytes(b) => {
                    if b.len() >= 4 {
                        Some(read32(b.as_slice(), 0, true))
                    } else {
                        None
                    }
                },
                _ => None,
            };
            continue;
        }
        let def = match find(Table::Fuji, e.tag) {
            Some(d) => d,
            None => continue,
        };
        proof {
            lemma_decoded_ok(block@, true, e, at as int);
        }
        let print = match fuji_override(e.tag) {
            Some(f) => match format_with(f, &v) {
                Some(r) => r,
                None => def.print(&v),
            },
            None => def.print(&v),
        };
        assert(def.id == e.tag) by {
            lemma_find_def_id(fuji_defs(), e.tag);
        }
        push_reading(
            &mut out,
            Reading { group: Group::Fuji, name: def.name, value: v, print, conv: def.conv },
        );
    }
    // 0x1103 DriveSettings is one int32u carrying two masked fields, decoded
    // here rather than through the tag table because the table is keyed by
    // tag id and these two share one.
    if let Some(bits) = drive_settings {
        let mode = bits % 256;
        let speed = (bits / 16777216) % 256;
        let mode_text = if mode == 0 {
            String::from_str("Single")
        } else if mode == 1 {
            String::from_str("Continuous Low")
        } else if mode == 2 {
            String::from_str("Continuous High")
        } else {
            dec_string(mode as u64)
        };
        let speed_text = if speed == 0 {
            String::from_str("n/a")
        } else {
            let mut s = dec_string(speed as u64);
            s.append(" fps");
            s
        };
        push_reading(
            &mut out,
            Reading {
                group: Group::Fuji,
                name: "DriveMode",
                value: Value::U32(mode),
                print: Some(mode_text),
                conv: Conv::AsIs,
            },
        );
        push_reading(
            &mut out,
            Reading {
                group: Group::Fuji,
                name: "DriveSpeed",
                value: Value::U32(speed),
                print: Some(speed_text),
                conv: Conv::AsIs,
            },
        );
        assert(readings_view(out@) =~= scan(block@, ifd as int, ges, ges.len()).0
            + drive_readings(bits));
    }
    // 0x100b is NoiseReduction only when it is not 0x100, which is the value
    // every X-series body writes to mean "not this tag". Keeping it would
    // collide with 0x100e, whose name is also NoiseReduction.
    let ghost all = readings_view(out@);
    assert(drop_nr100(all) == fuji_parse(block@));
    proof {
        lemma_scan_ok(block@, ifd as int, ges, ges.len());
        assert(all_ok(all));
    }
    let mut k: usize = 0;
    while k < out.len()
        invariant
            0 <= k <= out@.len(),
            readings_view(out@) == all,
            all_ok(all),
            drop_nr100(all) == fuji_parse(block@),
            forall|j: int| 0 <= j < k ==> !is_nr100(#[trigger] all[j]),
        decreases out.len() - k,
    {
        assert(all[k as int] == out@[k as int]@);
        assert(value_ok(all[k as int].value));
        let hit = crate::text::str_eq(out[k].name, "NoiseReduction") && match out[k].value.as_i64() {
            Some(n) => n == 0x100,
            None => false,
        };
        if hit {
            proof {
                lemma_drop_prefix(all, k as int);
                assert(all.skip(k as int)[0] == all[k as int]);
                assert(all.skip(k as int).drop_first() =~= all.skip(k + 1));
            }
            out.remove(k);
            assert(readings_view(out@) =~= all.take(k as int) + all.skip(k + 1));
            return out;
        }
        k += 1;
    }
    proof {
        lemma_drop_prefix(all, all.len() as int);
        assert(all.skip(all.len() as int) =~= Seq::<ReadingV>::empty());
        assert(all.take(all.len() as int) =~= all);
    }
    out
}

proof fn lemma_find_def_id(s: Seq<TagDef>, id: u16)
    ensures
        find_def(s, id) matches Some(d) ==> d.id == id,
    decreases s.len(),
{
    if s.len() > 0 && s[0].id != id {
        lemma_find_def_id(s.drop_first(), id);
    }
}

} // verus!
