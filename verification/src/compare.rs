//! Checking what this library reports against what ExifTool reports, over a
//! folder of real photographs.
//!
//! Two checks share this module. The tag check is one-directional on
//! purpose: every tag this library emits has to match ExifTool, tags are
//! matched within their group (FujiFilm:Sharpness and EXIF:Sharpness are
//! different tags that share a word), and a run that compares nothing fails.
//! The pipeline check runs one real ExifTool argument list through both
//! programs and counts a key ExifTool emitted and this did not as a
//! difference.
//!
//! Running the programs is the caller's part; this module reads their JSON,
//! keys the objects by file, compares, and writes the report.

use crate::fuji_gen::{insert_sorted, sorted_by_key, insert_by_key};
use crate::json::chars_of;
use crate::site::{
    chars_eq, doc_insert, doc_put, key_less, key_lt, lookup, place, Doc, DocV, FieldsV,
};
use crate::text::{dec_nat, file_name, last_part, plain_path, push_char, push_dec};
use serde_json::Value as JsonValue;
use vstd::prelude::*;

verus! {

// ------------------------------------------------------------ reading JSON

#[verifier::external_type_specification]
#[verifier::external_body]
pub struct ExJsonValue(JsonValue);

#[verifier::external_type_specification]
#[verifier::external_body]
pub struct ExJsonNumber(serde_json::Number);

/// A JSON value, variant for variant as `serde_json` reads it: an object's
/// members in key order.
pub enum Json {
    Null,
    Bool(bool),
    Number(serde_json::Number),
    Str(String),
    Array(Vec<Json>),
    Object(Vec<(String, Json)>),
}

/// A `serde_json::Value` as a `Json`, variant for variant, moving each
/// field across (`serde_json::Map`'s iterator hands its members out in key
/// order). Nothing is stated of it: `parse_json` uses it to hand over what
/// `serde_json::from_slice` read.
#[verifier::external_body]
fn from_value(v: JsonValue) -> Json {
    match v {
        JsonValue::Null => Json::Null,
        JsonValue::Bool(b) => Json::Bool(b),
        JsonValue::Number(n) => Json::Number(n),
        JsonValue::String(s) => Json::Str(s),
        JsonValue::Array(a) => Json::Array(a.into_iter().map(from_value).collect()),
        JsonValue::Object(o) => Json::Object(o.into_iter().map(|(k, x)| (k, from_value(x))).collect()),
    }
}

/// A `Json` as a `serde_json::Value`, variant for variant, the inverse of
/// `from_value`. It states nothing: `json_text` uses it to hand a value to
/// `serde_json`'s printer.
#[verifier::external_body]
fn to_value(j: &Json) -> JsonValue {
    match j {
        Json::Null => JsonValue::Null,
        Json::Bool(b) => JsonValue::Bool(*b),
        Json::Number(n) => JsonValue::Number(n.clone()),
        Json::Str(s) => JsonValue::String(s.clone()),
        Json::Array(a) => JsonValue::Array(a.iter().map(to_value).collect()),
        Json::Object(o) => JsonValue::Object(o.iter().map(|(k, x)| (k.clone(), to_value(x))).collect()),
    }
}

/// The value `serde_json` reads from `bytes`, if it reads one.
pub uninterp spec fn json_of(bytes: Seq<u8>) -> Option<Json>;

/// Read JSON text.
///
/// Wraps `serde_json::from_slice::<JsonValue>`: the value it reads,
/// converted variant for variant, is the name `json_of` of the bytes, and
/// where it refuses them the name is `None` and its error's message comes
/// back, of which nothing is stated. Which texts it reads, and to what, is
/// left to the name.
#[verifier::external_body]
fn parse_json(bytes: &[u8]) -> (r: Result<Json, String>)
    ensures
        match r {
            Ok(j) => json_of(bytes@) == Some(j),
            Err(_) => json_of(bytes@) is None,
        },
{
    serde_json::from_slice::<JsonValue>(bytes).map(from_value).map_err(|e| e.to_string())
}

/// The compact JSON text `serde_json` prints for a value.
pub uninterp spec fn json_text_of(v: Json) -> Seq<char>;

/// A value as compact JSON text.
///
/// Wraps `Display for serde_json::Value` on the value converted back
/// variant for variant; the text is the name `json_text_of` of the value.
#[verifier::external_body]
fn json_text(v: &Json) -> (r: String)
    ensures
        r@ == json_text_of(*v),
{
    to_value(v).to_string()
}

/// An entry's scalar: a string's own text, any other value as JSON; and
/// whether it is a string.
pub open spec fn scalar_of(v: Json) -> (Seq<char>, bool) {
    match v {
        Json::Str(s) => (s@, true),
        _ => (json_text_of(v), false),
    }
}

/// An item's entries, each its key and scalar; an item that is not an object
/// has none.
pub open spec fn entries_spec(item: Json) -> Seq<(Seq<char>, Seq<char>, bool)> {
    match item {
        Json::Object(o) => o@.map_values(
            |e: (String, Json)| (e.0@, scalar_of(e.1).0, scalar_of(e.1).1),
        ),
        _ => Seq::empty(),
    }
}

/// The items of a document: the elements of a top-level array, else the one
/// value.
pub open spec fn items_spec(j: Json) -> Seq<Json> {
    match j {
        Json::Array(a) => a@,
        _ => seq![j],
    }
}

/// What a tool's JSON output holds, as this module reads it: each item's
/// entries, where `serde_json` reads the bytes.
pub open spec fn json_items_of(bytes: Seq<u8>) -> Option<
    Seq<Seq<(Seq<char>, Seq<char>, bool)>>,
> {
    match json_of(bytes) {
        Some(j) => Some(items_spec(j).map_values(|it: Json| entries_spec(it))),
        None => None,
    }
}

/// An item's entries.
fn entries(item: &Json) -> (r: Vec<(String, String, bool)>)
    ensures
        r.deep_view() == entries_spec(*item),
{
    let mut r: Vec<(String, String, bool)> = Vec::new();
    match item {
        Json::Object(o) => {
            let mut i: usize = 0;
            while i < o.len()
                invariant
                    i <= o@.len(),
                    r.deep_view() == entries_spec(*item).take(i as int),
                    entries_spec(*item).len() == o@.len(),
                    *item == Json::Object(*o),
                decreases o@.len() - i,
            {
                let k = o[i].0.clone();
                let ghost x = o@[i as int].1;
                assert(entries_spec(*item)[i as int] == (o@[i as int].0@, scalar_of(x).0, scalar_of(x).1));
                let e = match &o[i].1 {
                    Json::Str(s) => (k, s.clone(), true),
                    other => (k, json_text(other), false),
                };
                assert(e.deep_view() == entries_spec(*item)[i as int]);
                let ghost before = r.deep_view();
                r.push(e);
                assert(r.deep_view() =~= before.push(e.deep_view()));
                assert(r.deep_view() =~= entries_spec(*item).take(i + 1));
                i += 1;
            }
            assert(entries_spec(*item).take(i as int) =~= entries_spec(*item));
        },
        _ => {
            assert(r.deep_view() =~= entries_spec(*item));
        },
    }
    r
}

/// Read a tool's JSON output: each item's entries, or the reader's message.
fn json_items(bytes: &[u8]) -> (r: Result<Vec<Vec<(String, String, bool)>>, String>)
    ensures
        match r {
            Ok(items) => json_items_of(bytes@) == Some(items.deep_view()),
            Err(_) => json_items_of(bytes@) is None,
        },
{
    let j = match parse_json(bytes) {
        Ok(j) => j,
        Err(e) => return Err(e),
    };
    let ghost its = items_spec(j);
    let ghost want = its.map_values(|it: Json| entries_spec(it));
    let mut out: Vec<Vec<(String, String, bool)>> = Vec::new();
    match &j {
        Json::Array(a) => {
            let mut i: usize = 0;
            while i < a.len()
                invariant
                    i <= a@.len(),
                    its == a@,
                    want == its.map_values(|it: Json| entries_spec(it)),
                    out.deep_view() == want.take(i as int),
                decreases a@.len() - i,
            {
                let e = entries(&a[i]);
                assert(e.deep_view() == want[i as int]);
                let ghost before = out.deep_view();
                out.push(e);
                assert(out.deep_view() =~= before.push(e.deep_view()));
                assert(out.deep_view() =~= want.take(i + 1));
                i += 1;
            }
            assert(want.take(i as int) =~= want);
        },
        _ => {
            let e = entries(&j);
            out.push(e);
            assert(out.deep_view() =~= want);
        },
    }
    Ok(out)
}

/// What `{:?}` writes for a string.
pub uninterp spec fn str_debug(s: Seq<char>) -> Seq<char>;

/// A string as `{:?}` shows it.
///
/// Wraps `<str as Debug>::fmt`: the text in double quotes, with quotes,
/// backslashes and characters that do not print escaped. Text of printable
/// ASCII without a quote or backslash is only quoted, which is stated; the
/// escapes of the rest are left to the name `str_debug`.
#[verifier::external_body]
pub(crate) fn debug_str(s: &str) -> (r: String)
    ensures
        r@ == str_debug(s@),
        (forall|i: int|
            0 <= i < s@.len() ==> 0x20 <= (#[trigger] s@[i] as u32) <= 0x7e && s@[i] != '"'
                && s@[i] != '\\') ==> r@ == seq!['"'] + s@ + seq!['"'],
{
    format!("{:?}", s)
}

// ------------------------------------------------------------ keying objects

/// An object's entry for `k`, as its text and whether it is a string.
pub open spec fn entry_of(rec: Seq<(Seq<char>, Seq<char>, bool)>, k: Seq<char>) -> Option<
    (Seq<char>, bool),
>
    decreases rec.len(),
{
    if rec.len() == 0 {
        None
    } else if rec[0].0 == k {
        Some((rec[0].1, rec[0].2))
    } else {
        entry_of(rec.drop_first(), k)
    }
}

/// An object's string entry for `k`.
pub open spec fn string_of(rec: Seq<(Seq<char>, Seq<char>, bool)>, k: Seq<char>) -> Option<
    Seq<char>,
> {
    match entry_of(rec, k) {
        Some((t, true)) => Some(t),
        _ => None,
    }
}

/// An object's entries as keys and scalar texts.
pub open spec fn scalars(rec: Seq<(Seq<char>, Seq<char>, bool)>) -> FieldsV {
    rec.map_values(|f: (Seq<char>, Seq<char>, bool)| (f.0, f.1))
}

/// `doc` with each item filed under its name, a later item replacing an
/// earlier one of the same name; an item without a name is passed over.
pub open spec fn filed(doc: DocV, items: Seq<Seq<(Seq<char>, Seq<char>, bool)>>, names: Seq<
    Option<Seq<char>>,
>) -> DocV
    decreases items.len(),
{
    if items.len() == 0 || names.len() != items.len() {
        doc
    } else {
        let d = filed(doc, items.drop_last(), names.drop_last());
        match names.last() {
            Some(n) => doc_insert(d, n, scalars(items.last())),
            None => d,
        }
    }
}

fn find_entry(rec: &Vec<(String, String, bool)>, k: &str) -> (r: Option<(String, bool)>)
    ensures
        match r {
            Some((t, s)) => entry_of(rec.deep_view(), k@) == Some((t@, s)),
            None => entry_of(rec.deep_view(), k@) is None,
        },
{
    let ghost d = rec.deep_view();
    let mut i: usize = 0;
    assert(d.skip(0) =~= d);
    while i < rec.len()
        invariant
            i <= rec@.len(),
            d == rec.deep_view(),
            entry_of(d, k@) == entry_of(d.skip(i as int), k@),
        decreases rec@.len() - i,
    {
        assert(d.skip(i as int).drop_first() =~= d.skip(i + 1));
        assert(d.skip(i as int)[0] == d[i as int]);
        if crate::text::str_eq(rec[i].0.as_str(), k) {
            return Some((rec[i].1.clone(), rec[i].2));
        }
        i += 1;
    }
    None
}

/// An object's string entry for `k`.
pub fn string_entry(rec: &Vec<(String, String, bool)>, k: &str) -> (r: Option<String>)
    ensures
        r.deep_view() == string_of(rec.deep_view(), k@),
{
    match find_entry(rec, k) {
        Some((t, true)) => Some(t),
        _ => None,
    }
}

fn scalar_pairs(rec: &Vec<(String, String, bool)>) -> (r: Vec<(String, String)>)
    ensures
        r.deep_view() == scalars(rec.deep_view()),
{
    let ghost d = rec.deep_view();
    let mut out: Vec<(String, String)> = Vec::new();
    let mut i: usize = 0;
    while i < rec.len()
        invariant
            i <= rec@.len(),
            d == rec.deep_view(),
            out.deep_view() == scalars(d.take(i as int)),
        decreases rec@.len() - i,
    {
        let a = rec[i].0.clone();
        let b = rec[i].1.clone();
        assert(d[i as int] == (a@, b@, rec@[i as int].2));
        let ghost before = out.deep_view();
        out.push((a, b));
        assert(out.deep_view() =~= before.push((a@, b@)));
        assert(scalars(d.take(i + 1)) =~= scalars(d.take(i as int)).push((d[i as int].0, d[i as int].1)));
        i += 1;
    }
    assert(d.take(rec@.len() as int) =~= d);
    out
}

/// File each item under its name, a later one replacing an earlier one of
/// the same name; an item without a name is passed over.
pub fn file_items(doc: &mut Doc, items: &Vec<Vec<(String, String, bool)>>, names: &Vec<Option<String>>)
    requires
        items@.len() == names@.len(),
    ensures
        final(doc).deep_view() == filed(old(doc).deep_view(), items.deep_view(), names.deep_view()),
{
    let ghost start = doc.deep_view();
    let ghost all = items.deep_view();
    let ghost ns = names.deep_view();
    let mut i: usize = 0;
    while i < items.len()
        invariant
            i <= items@.len() == names@.len(),
            all == items.deep_view(),
            ns == names.deep_view(),
            doc.deep_view() == filed(start, all.take(i as int), ns.take(i as int)),
        decreases items@.len() - i,
    {
        assert(all.take(i + 1).drop_last() =~= all.take(i as int));
        assert(ns.take(i + 1).drop_last() =~= ns.take(i as int));
        assert(ns[i as int] == names@[i as int].deep_view());
        match &names[i] {
            Some(n) => {
                let key = chars_of(n.as_str());
                let fields = scalar_pairs(&items[i]);
                doc_put(doc, key, fields);
            },
            None => {},
        }
        i += 1;
    }
    assert(all.take(items@.len() as int) =~= all);
    assert(ns.take(items@.len() as int) =~= ns);
}


/// How a tool's objects are told apart.
pub enum Naming {
    /// By the file name of `SourceFile`, or the whole of it where it has
    /// none.
    SourceFile,
    /// By `FileName`, else by the file name of `SourceFile`.
    FileName,
}

/// Whether `n` may be the name of `rec` under `naming`. What the file name
/// of a path is depends on the platform, so of a general path only that it
/// is a run of the path is known; of a path whose only separator is `/` and
/// that has no prefix, it is the part after the last `/`.
pub open spec fn name_fits(rec: Seq<(Seq<char>, Seq<char>, bool)>, naming: Naming, n: Option<
    Seq<char>,
>) -> bool {
    let src = string_of(rec, "SourceFile"@);
    let part_of_src = |x: Seq<char>|
        src matches Some(p) && exists|i: int, j: int| 0 <= i <= j <= p.len() && x == p.subrange(i, j);
    match naming {
        Naming::SourceFile => match src {
            None => n is None,
            Some(p) => n matches Some(x) && (x == p || part_of_src(x)) && (plain_path(p) ==> x
                == last_part(p)),
        },
        Naming::FileName => match string_of(rec, "FileName"@) {
            Some(f) => n == Some(f),
            None => match n {
                None => !(src matches Some(p) && plain_path(p)),
                Some(x) => part_of_src(x) && match src {
                    Some(p) => plain_path(p) ==> x == last_part(p),
                    None => true,
                },
            },
        },
    }
}

/// The name each object is filed under.
pub fn object_names(items: &Vec<Vec<(String, String, bool)>>, naming: &Naming) -> (r: Vec<
    Option<String>,
>)
    ensures
        r@.len() == items@.len(),
        forall|i: int|
            0 <= i < items@.len() ==> name_fits(
                #[trigger] items.deep_view()[i],
                *naming,
                r.deep_view()[i],
            ),
{
    let mut out: Vec<Option<String>> = Vec::new();
    let mut i: usize = 0;
    while i < items.len()
        invariant
            i <= items@.len(),
            out@.len() == i,
            forall|j: int|
                0 <= j < i ==> name_fits(#[trigger] items.deep_view()[j], *naming, out.deep_view()[j]),
        decreases items@.len() - i,
    {
        let rec = &items[i];
        assert(items.deep_view()[i as int] == rec.deep_view());
        let src = string_entry(rec, "SourceFile");
        let from_src = match &src {
            Some(p) => file_name(p.as_str()),
            None => None,
        };
        let n = match naming {
            Naming::SourceFile => match src {
                Some(p) => match from_src {
                    Some(x) => Some(x),
                    None => Some(p),
                },
                None => None,
            },
            Naming::FileName => match string_entry(rec, "FileName") {
                Some(f) => Some(f),
                None => from_src,
            },
        };
        let ghost before = out.deep_view();
        out.push(n);
        assert(out.deep_view() =~= before.push(n.deep_view()));
        i += 1;
    }
    out
}

/// Whether a tool wrote nothing but ASCII whitespace, as
/// `u8::is_ascii_whitespace` counts it.
pub open spec fn blank(bytes: Seq<u8>) -> bool {
    forall|i: int|
        0 <= i < bytes.len() ==> (#[trigger] bytes[i] == 0x20 || bytes[i] == 0x09 || bytes[i]
            == 0x0A || bytes[i] == 0x0C || bytes[i] == 0x0D)
}

/// Whether `bytes` is blank.
pub fn is_blank(bytes: &[u8]) -> (r: bool)
    ensures
        r == blank(bytes@),
{
    let mut i: usize = 0;
    while i < bytes.len()
        invariant
            i <= bytes@.len(),
            forall|j: int|
                0 <= j < i ==> (#[trigger] bytes@[j] == 0x20 || bytes@[j] == 0x09 || bytes@[j]
                    == 0x0A || bytes@[j] == 0x0C || bytes@[j] == 0x0D),
        decreases bytes@.len() - i,
    {
        let b = bytes[i];
        if !(b == 0x20 || b == 0x09 || b == 0x0A || b == 0x0C || b == 0x0D) {
            return false;
        }
        i += 1;
    }
    true
}

/// File a tool's JSON output into `doc`; where the output is not JSON, the
/// reader's message, with `doc` untouched.
pub fn file_output(doc: &mut Doc, bytes: &[u8], naming: &Naming) -> (r: Result<(), String>)
    ensures
        r is Ok == (json_items_of(bytes@) is Some),
        r is Err ==> *final(doc) == *old(doc),
        json_items_of(bytes@) matches Some(items) ==> exists|names: Seq<Option<Seq<char>>>|
            names.len() == items.len() && (forall|i: int|
                0 <= i < items.len() ==> name_fits(#[trigger] items[i], *naming, names[i]))
                && final(doc).deep_view() == filed(old(doc).deep_view(), items, names),
{
    match json_items(bytes) {
        Err(e) => Err(e),
        Ok(items) => {
            let names = object_names(&items, naming);
            file_items(doc, &items, &names);
            assert(items.deep_view().len() == names.deep_view().len());
            Ok(())
        },
    }
}


// ------------------------------------------------------------ tallies

/// The text of the entry for `k` among `fs`.
pub open spec fn field_get(fs: FieldsV, k: Seq<char>) -> Option<Seq<char>>
    decreases fs.len(),
{
    if fs.len() == 0 {
        None
    } else if fs[0].0 == k {
        Some(fs[0].1)
    } else {
        field_get(fs.drop_first(), k)
    }
}

fn get_field(fs: &Vec<(String, String)>, k: &Vec<char>) -> (r: Option<String>)
    ensures
        r.deep_view() == field_get(fs.deep_view(), k@),
{
    let ghost d = fs.deep_view();
    let mut i: usize = 0;
    assert(d.skip(0) =~= d);
    while i < fs.len()
        invariant
            i <= fs@.len(),
            d == fs.deep_view(),
            field_get(d, k@) == field_get(d.skip(i as int), k@),
        decreases fs@.len() - i,
    {
        assert(d.skip(i as int).drop_first() =~= d.skip(i + 1));
        assert(d.skip(i as int)[0] == d[i as int]);
        let key = chars_of(fs[i].0.as_str());
        if chars_eq(&key, k) {
            return Some(fs[i].1.clone());
        }
        i += 1;
    }
    None
}

fn copy_chars(k: &Vec<char>) -> (r: Vec<char>)
    ensures
        r@ == k@,
{
    let mut r: Vec<char> = Vec::new();
    let mut i: usize = 0;
    while i < k.len()
        invariant
            i <= k@.len(),
            r@ == k@.take(i as int),
        decreases k@.len() - i,
    {
        r.push(k[i]);
        assert(k@.take(i + 1) =~= k@.take(i as int).push(k@[i as int]));
        i += 1;
    }
    assert(k@.take(k@.len() as int) =~= k@);
    r
}

/// `c`, kept in key order, with one more for `k`.
pub open spec fn bump(c: Seq<(Seq<char>, u64)>, k: Seq<char>) -> Seq<(Seq<char>, u64)>
    decreases c.len(),
{
    if c.len() == 0 {
        seq![(k, 1u64)]
    } else if c[0].0 == k {
        seq![(k, (c[0].1 + 1) as u64)] + c.drop_first()
    } else if key_lt(k, c[0].0) {
        seq![(k, 1u64)] + c
    } else {
        seq![c[0]] + bump(c.drop_first(), k)
    }
}

proof fn lemma_bump_bound(c: Seq<(Seq<char>, u64)>, k: Seq<char>, n: u64)
    requires
        forall|i: int| 0 <= i < c.len() ==> #[trigger] c[i].1 <= n,
        n < u64::MAX,
    ensures
        forall|i: int| 0 <= i < bump(c, k).len() ==> #[trigger] bump(c, k)[i].1 <= n + 1,
    decreases c.len(),
{
    if c.len() > 0 && c[0].0 != k && !key_lt(k, c[0].0) {
        assert forall|i: int| 0 <= i < c.drop_first().len() implies #[trigger] c.drop_first()[i].1
            <= n by {
            assert(c.drop_first()[i] == c[i + 1]);
        }
        lemma_bump_bound(c.drop_first(), k, n);
        assert forall|i: int| 0 <= i < bump(c, k).len() implies #[trigger] bump(c, k)[i].1 <= n + 1 by {
            if i > 0 {
                assert(bump(c, k)[i] == bump(c.drop_first(), k)[i - 1]);
            }
        }
    } else if c.len() > 0 {
        assert forall|i: int| 0 <= i < bump(c, k).len() implies #[trigger] bump(c, k)[i].1 <= n + 1 by {
            if i > 0 && c[0].0 == k {
                assert(bump(c, k)[i] == c[i]);
            } else if i > 0 {
                assert(bump(c, k)[i] == c[i - 1]);
            }
        }
    }
}

/// Count one more for `k`.
fn bump_count(c: &mut Vec<(Vec<char>, u64)>, k: &Vec<char>)
    requires
        forall|i: int| 0 <= i < old(c)@.len() ==> #[trigger] old(c)@[i].1 < u64::MAX,
    ensures
        final(c).deep_view() == bump(old(c).deep_view(), k@),
{
    let ghost d = c.deep_view();
    let ghost before = c@;
    let n = c.len();
    let mut p: usize = 0;
    assert(d.skip(0) =~= d && d.take(0) + bump(d.skip(0), k@) =~= bump(d, k@));
    while p < n
        invariant
            p <= n == c@.len(),
            d == c.deep_view(),
            d == old(c).deep_view(),
            before == c@,
            forall|i: int| 0 <= i < before.len() ==> #[trigger] before[i].1 < u64::MAX,
            bump(d, k@) == d.take(p as int) + bump(d.skip(p as int), k@),
        decreases n - p,
    {
        assert(d[p as int] == (c@[p as int].0@, c@[p as int].1));
        assert(d.skip(p as int)[0] == d[p as int]);
        assert(d.skip(p as int).drop_first() =~= d.skip(p + 1));
        if chars_eq(&c[p].0, k) {
            let m = c[p].1;
            assert(before[p as int].1 < u64::MAX);
            c.set(p, (copy_chars(k), m + 1));
            assert(c.deep_view() =~= bump(d, k@)) by {
                assert(bump(d.skip(p as int), k@) =~= seq![(k@, (m + 1) as u64)] + d.skip(p + 1));
            }
            return;
        }
        if key_less(k, &c[p].0) {
            c.insert(p, (copy_chars(k), 1));
            assert(c.deep_view() =~= bump(d, k@)) by {
                assert(bump(d.skip(p as int), k@) =~= seq![(k@, 1u64)] + d.skip(p as int));
                assert forall|j: int| 0 <= j < c@.len() implies c.deep_view()[j] == bump(d, k@)[j] by {
                    if j > p {
                        assert(c@[j] == before[j - 1]);
                    } else if j < p {
                        assert(c@[j] == before[j]);
                    }
                }
            }
            return;
        }
        assert(d.take(p as int) + bump(d.skip(p as int), k@) =~= d.take(p + 1) + bump(
            d.skip(p + 1),
            k@,
        ));
        p += 1;
    }
    let ghost last = c.deep_view();
    let kk = copy_chars(k);
    assert(kk.deep_view() =~= k@);
    c.push((kk, 1));
    assert(c.deep_view() =~= last.push((k@, 1u64)));
    assert(d.skip(n as int) =~= Seq::<(Seq<char>, u64)>::empty());
    assert(d.take(n as int) =~= d);
    assert(c.deep_view() =~= bump(d, k@));
}

/// An example of a difference: the file, ExifTool's text, and this
/// library's, if it reported the key.
pub type ExampleV = (Seq<char>, Seq<char>, Option<Seq<char>>);

/// The example for `k`.
pub open spec fn example_of(ex: Seq<(Seq<char>, ExampleV)>, k: Seq<char>) -> Option<ExampleV>
    decreases ex.len(),
{
    if ex.len() == 0 {
        None
    } else if ex[0].0 == k {
        Some(ex[0].1)
    } else {
        example_of(ex.drop_first(), k)
    }
}

/// `ex` with `e` as the example for `k`, unless `k` has one already.
pub open spec fn keep_first(ex: Seq<(Seq<char>, ExampleV)>, k: Seq<char>, e: ExampleV) -> Seq<
    (Seq<char>, ExampleV),
> {
    if example_of(ex, k) is Some {
        ex
    } else {
        ex.push((k, e))
    }
}

fn find_example(ex: &Vec<(Vec<char>, (String, String, Option<String>))>, k: &Vec<char>) -> (r:
    Option<usize>)
    ensures
        match r {
            Some(i) => i < ex@.len() && example_of(ex.deep_view(), k@) == Some(
                ex.deep_view()[i as int].1,
            ),
            None => example_of(ex.deep_view(), k@) is None,
        },
{
    let ghost d = ex.deep_view();
    let mut i: usize = 0;
    assert(d.skip(0) =~= d);
    while i < ex.len()
        invariant
            i <= ex@.len(),
            d == ex.deep_view(),
            example_of(d, k@) == example_of(d.skip(i as int), k@),
        decreases ex@.len() - i,
    {
        assert(d.skip(i as int).drop_first() =~= d.skip(i + 1));
        assert(d.skip(i as int)[0] == d[i as int]);
        assert(d[i as int].0 == ex@[i as int].0@);
        if chars_eq(&ex[i].0, k) {
            return Some(i);
        }
        i += 1;
    }
    None
}

fn put_example(
    ex: &mut Vec<(Vec<char>, (String, String, Option<String>))>,
    k: &Vec<char>,
    e: (String, String, Option<String>),
)
    ensures
        final(ex).deep_view() == keep_first(old(ex).deep_view(), k@, e.deep_view()),
{
    if find_example(ex, k).is_none() {
        let ghost before = ex.deep_view();
        let ghost ev = e.deep_view();
        let kk = copy_chars(k);
        assert(kk.deep_view() =~= k@);
        ex.push((kk, e));
        assert(ex.deep_view() =~= before.push((k@, ev)));
    }
}


/// What a comparison has counted so far.
pub struct TallyV {
    /// Values that agree.
    pub same: nat,
    /// Values that differ or are missing.
    pub differ: nat,
    /// Objects ExifTool reported that this library did not.
    pub absent: nat,
    /// Differences per label, in label order.
    pub counts: Seq<(Seq<char>, u64)>,
    /// The first example of each key that differed.
    pub examples: Seq<(Seq<char>, ExampleV)>,
}

pub open spec fn empty_tally() -> TallyV {
    TallyV { same: 0, differ: 0, absent: 0, counts: Seq::empty(), examples: Seq::empty() }
}

/// A tally at work.
pub struct Tally {
    pub same: u64,
    pub differ: u64,
    pub absent: u64,
    pub counts: Vec<(Vec<char>, u64)>,
    pub examples: Vec<(Vec<char>, (String, String, Option<String>))>,
}

impl Tally {
    pub open spec fn view_tally(&self) -> TallyV {
        TallyV {
            same: self.same as nat,
            differ: self.differ as nat,
            absent: self.absent as nat,
            counts: self.counts.deep_view(),
            examples: self.examples.deep_view(),
        }
    }

    /// Every count is at most the number of differences.
    pub open spec fn bounded(&self) -> bool {
        forall|i: int| 0 <= i < self.counts@.len() ==> #[trigger] self.counts@[i].1 <= self.differ
    }

    pub fn new() -> (r: Tally)
        ensures
            r.view_tally() == empty_tally(),
            r.bounded(),
    {
        let r = Tally { same: 0, differ: 0, absent: 0, counts: Vec::new(), examples: Vec::new() };
        assert(r.counts.deep_view() =~= Seq::<(Seq<char>, u64)>::empty());
        assert(r.examples.deep_view() =~= Seq::<(Seq<char>, ExampleV)>::empty());
        r
    }
}

/// Count a difference under `label`, with `ex` as the example for `key`.
pub open spec fn differs(t: TallyV, label: Seq<char>, key: Seq<char>, ex: ExampleV) -> TallyV {
    TallyV {
        differ: t.differ + 1,
        counts: bump(t.counts, label),
        examples: keep_first(t.examples, key, ex),
        ..t
    }
}

pub open spec fn agrees(t: TallyV) -> TallyV {
    TallyV { same: t.same + 1, ..t }
}

fn count_difference(t: &mut Tally, label: &Vec<char>, key: &Vec<char>, ex: (String, String, Option<String>))
    requires
        old(t).bounded(),
        old(t).differ < i64::MAX,
    ensures
        final(t).view_tally() == differs(old(t).view_tally(), label@, key@, ex.deep_view()),
        final(t).bounded(),
        final(t).same == old(t).same,
{
    proof {
        lemma_bump_bound(t.counts.deep_view(), label@, t.differ);
        assert forall|i: int| 0 <= i < t.counts@.len() implies #[trigger] t.counts@[i].1 < u64::MAX by {
            assert(t.counts.deep_view()[i].1 == t.counts@[i].1);
        }
    }
    let ghost exv = ex.deep_view();
    bump_count(&mut t.counts, label);
    put_example(&mut t.examples, key, ex);
    t.differ = t.differ + 1;
    assert forall|i: int| 0 <= i < t.counts@.len() implies #[trigger] t.counts@[i].1 <= t.differ by {
        assert(t.counts.deep_view()[i].1 == t.counts@[i].1);
    }
}

// ------------------------------------------------------------ the tag check

/// Whether `k` begins with `p`.
pub open spec fn begins(k: Seq<char>, p: Seq<char>) -> bool {
    k.len() >= p.len() && k.take(p.len() as int) == p
}

/// Where the first `:` of `k` stands; `k.len()` where there is none.
pub open spec fn colon_at(k: Seq<char>) -> int
    decreases k.len(),
{
    if k.len() == 0 || k[0] == ':' {
        0
    } else {
        1 + colon_at(k.drop_first())
    }
}

proof fn lemma_colon_at(k: Seq<char>)
    ensures
        0 <= colon_at(k) <= k.len(),
        colon_at(k) < k.len() ==> k[colon_at(k)] == ':',
        forall|j: int| 0 <= j < colon_at(k) ==> k[j] != ':',
    decreases k.len(),
{
    if k.len() > 0 && k[0] != ':' {
        lemma_colon_at(k.drop_first());
        assert forall|j: int| 0 <= j < colon_at(k) implies k[j] != ':' by {
            if j > 0 {
                assert(k[j] == k.drop_first()[j - 1]);
            }
        }
    }
}

/// Whether the tag check looks at our key `k`: a group-qualified tag that is
/// neither the file type nor a computed value.
pub open spec fn compared_key(k: Seq<char>) -> bool {
    colon_at(k) < k.len() && !begins(k, "File:FileType"@) && !begins(k, "Computed:"@)
}

/// The tag of a group-qualified key.
pub open spec fn tag_part(k: Seq<char>) -> Seq<char> {
    k.skip(colon_at(k) + 1)
}

/// The key ExifTool reports the same tag under: maker notes are its group
/// `MakerNotes`.
pub open spec fn exiftool_key(k: Seq<char>) -> Seq<char> {
    let g = k.take(colon_at(k));
    (if g == "FujiFilm"@ {
        "MakerNotes"@
    } else {
        g
    }) + seq![':'] + tag_part(k)
}

/// One of our entries held against ExifTool's object `a` for file `name`.
pub open spec fn tag_step(t: TallyV, name: Seq<char>, a: FieldsV, kv: (Seq<char>, Seq<char>)) -> TallyV {
    if !compared_key(kv.0) {
        t
    } else {
        match field_get(a, exiftool_key(kv.0)) {
            None => t,
            Some(theirs) => if theirs == kv.1 {
                agrees(t)
            } else {
                differs(t, tag_part(kv.0), tag_part(kv.0), (name, theirs, Some(kv.1)))
            },
        }
    }
}

pub open spec fn tag_steps(t: TallyV, name: Seq<char>, a: FieldsV, fs: FieldsV) -> TallyV
    decreases fs.len(),
{
    if fs.len() == 0 {
        t
    } else {
        tag_step(tag_steps(t, name, a, fs.drop_last()), name, a, fs.last())
    }
}

/// The tag check over `files`, each looked up in both tools' objects.
pub open spec fn tag_check(et: DocV, ours: DocV, files: Seq<Seq<char>>) -> TallyV
    decreases files.len(),
{
    if files.len() == 0 {
        empty_tally()
    } else {
        let t = tag_check(et, ours, files.drop_last());
        let f = files.last();
        match (lookup(et, f), lookup(ours, f)) {
            (Some(a), Some(b)) => tag_steps(t, f, a, b),
            _ => t,
        }
    }
}

/// How many of our entries the tag check looks at, at most.
pub open spec fn tag_work(ours: DocV, files: Seq<Seq<char>>) -> nat
    decreases files.len(),
{
    if files.len() == 0 {
        0
    } else {
        tag_work(ours, files.drop_last()) + match lookup(ours, files.last()) {
            Some(b) => b.len(),
            None => 0,
        }
    }
}

fn chars_begin(k: &Vec<char>, p: &str) -> (r: bool)
    ensures
        r == begins(k@, p@),
{
    let pc = chars_of(p);
    if pc.len() > k.len() {
        return false;
    }
    let mut i: usize = 0;
    while i < pc.len()
        invariant
            pc@ == p@,
            pc@.len() <= k@.len(),
            i <= pc@.len(),
            forall|j: int| 0 <= j < i ==> k@[j] == pc@[j],
        decreases pc@.len() - i,
    {
        if k[i] != pc[i] {
            assert(k@.take(pc@.len() as int)[i as int] != pc@[i as int]);
            return false;
        }
        i += 1;
    }
    assert(k@.take(pc@.len() as int) =~= pc@);
    true
}

fn find_colon(k: &Vec<char>) -> (r: usize)
    ensures
        r == colon_at(k@),
{
    proof {
        lemma_colon_at(k@);
    }
    let mut i: usize = 0;
    while i < k.len() && k[i] != ':'
        invariant
            i <= k@.len(),
            forall|j: int| 0 <= j < i ==> k@[j] != ':',
            0 <= colon_at(k@) <= k@.len(),
            colon_at(k@) < k@.len() ==> k@[colon_at(k@)] == ':',
            forall|j: int| 0 <= j < colon_at(k@) ==> k@[j] != ':',
        decreases k@.len() - i,
    {
        i += 1;
    }
    i
}

fn slice_chars(k: &Vec<char>, from: usize, to: usize) -> (r: Vec<char>)
    requires
        from <= to <= k@.len(),
    ensures
        r@ == k@.subrange(from as int, to as int),
{
    let mut r: Vec<char> = Vec::new();
    let mut i = from;
    while i < to
        invariant
            from <= i <= to <= k@.len(),
            r@ == k@.subrange(from as int, i as int),
        decreases to - i,
    {
        r.push(k[i]);
        assert(k@.subrange(from as int, i + 1) =~= k@.subrange(from as int, i as int).push(k@[i as int]));
        i += 1;
    }
    r
}

/// Hold one of our entries against ExifTool's object `a`.
fn tag_entry(t: &mut Tally, name: &String, a: &Vec<(String, String)>, k: &String, v: &String)
    requires
        old(t).bounded(),
        old(t).same + old(t).differ < i64::MAX,
    ensures
        final(t).view_tally() == tag_step(old(t).view_tally(), name@, a.deep_view(), (k@, v@)),
        final(t).bounded(),
        final(t).same + final(t).differ <= old(t).same + old(t).differ + 1,
{
    let kc = chars_of(k.as_str());
    let c = find_colon(&kc);
    proof {
        lemma_colon_at(k@);
    }
    if c >= kc.len() || chars_begin(&kc, "File:FileType") || chars_begin(&kc, "Computed:") {
        return;
    }
    let g = slice_chars(&kc, 0, c);
    let tag = slice_chars(&kc, c + 1, kc.len());
    assert(tag@ =~= tag_part(k@));
    let fuji = chars_of("FujiFilm");
    let mut key = if chars_eq(&g, &fuji) {
        chars_of("MakerNotes")
    } else {
        g
    };
    assert(k@.take(colon_at(k@)) =~= g@);
    key.push(':');
    let mut j: usize = 0;
    let ghost head = key@;
    while j < tag.len()
        invariant
            j <= tag@.len(),
            key@ == head + tag@.take(j as int),
        decreases tag@.len() - j,
    {
        key.push(tag[j]);
        assert(tag@.take(j + 1) =~= tag@.take(j as int).push(tag@[j as int]));
        j += 1;
    }
    assert(tag@.take(tag@.len() as int) =~= tag@);
    assert(key@ =~= exiftool_key(k@));
    match get_field(a, &key) {
        None => {},
        Some(theirs) => {
            if crate::text::str_eq(theirs.as_str(), v.as_str()) {
                t.same = t.same + 1;
            } else {
                let ex = (name.clone(), theirs, Some(v.clone()));
                count_difference(t, &tag, &tag, ex);
            }
        },
    }
}

/// Hold each of our entries `b` for file `name` against ExifTool's `a`.
fn tag_entries(t: &mut Tally, name: &String, a: &Vec<(String, String)>, b: &Vec<(String, String)>)
    requires
        old(t).bounded(),
        old(t).same + old(t).differ + b@.len() < i64::MAX,
    ensures
        final(t).view_tally() == tag_steps(old(t).view_tally(), name@, a.deep_view(), b.deep_view()),
        final(t).bounded(),
        final(t).same + final(t).differ <= old(t).same + old(t).differ + b@.len(),
{
    let ghost start = t.view_tally();
    let ghost s0 = t.same + t.differ;
    let ghost bs = b.deep_view();
    let mut i: usize = 0;
    while i < b.len()
        invariant
            i <= b@.len(),
            bs == b.deep_view(),
            t.bounded(),
            t.same + t.differ <= s0 + i,
            s0 + b@.len() < i64::MAX,
            t.view_tally() == tag_steps(start, name@, a.deep_view(), bs.take(i as int)),
        decreases b@.len() - i,
    {
        assert(bs.take(i + 1).drop_last() =~= bs.take(i as int));
        assert(bs[i as int] == (b@[i as int].0@, b@[i as int].1@));
        tag_entry(t, name, a, &b[i].0, &b[i].1);
        i += 1;
    }
    assert(bs.take(b@.len() as int) =~= bs);
}

/// Hold what this library reported against what ExifTool reported, file by
/// file, within each tag's group.
pub fn check_tags(et: &Doc, ours: &Doc, files: &Vec<String>) -> (r: Tally)
    requires
        tag_work(ours.deep_view(), files.deep_view()) < i64::MAX,
    ensures
        r.view_tally() == tag_check(et.deep_view(), ours.deep_view(), files.deep_view()),
        r.bounded(),
        r.differ < i64::MAX,
{
    let ghost fs = files.deep_view();
    let mut t = Tally::new();
    let mut i: usize = 0;
    while i < files.len()
        invariant
            i <= files@.len(),
            fs == files.deep_view(),
            t.bounded(),
            t.same + t.differ <= tag_work(ours.deep_view(), fs.take(i as int)),
            tag_work(ours.deep_view(), fs) < i64::MAX,
            t.view_tally() == tag_check(et.deep_view(), ours.deep_view(), fs.take(i as int)),
        decreases files@.len() - i,
    {
        assert(fs.take(i + 1).drop_last() =~= fs.take(i as int));
        proof {
            lemma_work_grows(ours.deep_view(), fs, i + 1);
        }
        let name = &files[i];
        let key = chars_of(name.as_str());
        let (pa, fa) = place(et, &key);
        let (pb, fb) = place(ours, &key);
        if fa && fb {
            assert(et.deep_view()[pa as int].1 == et@[pa as int].1.deep_view());
            assert(ours.deep_view()[pb as int].1 == ours@[pb as int].1.deep_view());
            tag_entries(&mut t, name, &et[pa].1, &ours[pb].1);
        }
        i += 1;
    }
    assert(fs.take(files@.len() as int) =~= fs);
    t
}

proof fn lemma_work_grows(ours: DocV, files: Seq<Seq<char>>, k: int)
    requires
        0 <= k <= files.len(),
    ensures
        tag_work(ours, files.take(k)) <= tag_work(ours, files),
    decreases files.len() - k,
{
    if k < files.len() {
        lemma_work_grows(ours, files, k + 1);
        assert(files.take(k + 1).drop_last() =~= files.take(k));
    } else {
        assert(files.take(k) =~= files);
    }
}


// ------------------------------------------------------------ the pipeline check

/// The label a missing key is counted under.
pub open spec fn missing_label(k: Seq<char>) -> Seq<char> {
    k + " (missing)"@
}

/// The label a differing key is counted under.
pub open spec fn differs_label(k: Seq<char>) -> Seq<char> {
    k + " (differs)"@
}

/// One of ExifTool's entries for file `name` held against this library's
/// object `b` for the same file, if it reported one.
pub open spec fn pipe_step(t: TallyV, name: Seq<char>, b: Option<FieldsV>, kv: (Seq<char>, Seq<char>)) -> TallyV {
    if kv.0 == "SourceFile"@ {
        t
    } else {
        match match b {
            Some(fs) => field_get(fs, kv.0),
            None => None,
        } {
            None => differs(t, missing_label(kv.0), kv.0, (name, kv.1, None)),
            Some(mine) => if mine != kv.1 {
                differs(t, differs_label(kv.0), kv.0, (name, kv.1, Some(mine)))
            } else {
                agrees(t)
            },
        }
    }
}

pub open spec fn pipe_steps(t: TallyV, name: Seq<char>, b: Option<FieldsV>, fs: FieldsV) -> TallyV
    decreases fs.len(),
{
    if fs.len() == 0 {
        t
    } else {
        pipe_step(pipe_steps(t, name, b, fs.drop_last()), name, b, fs.last())
    }
}

/// The pipeline check: every file ExifTool reported, in name order, every
/// key of it held against this library's object for the file.
pub open spec fn pipe_check(et: DocV, ours: DocV) -> TallyV
    decreases et.len(),
{
    if et.len() == 0 {
        empty_tally()
    } else {
        let t = pipe_check(et.drop_last(), ours);
        let (name, a) = et.last();
        let b = lookup(ours, name);
        let t1 = if b is None {
            TallyV { absent: t.absent + 1, ..t }
        } else {
            t
        };
        pipe_steps(t1, name, b, a)
    }
}

/// How many entries the pipeline check looks at.
pub open spec fn pipe_work(et: DocV) -> nat
    decreases et.len(),
{
    if et.len() == 0 {
        0
    } else {
        pipe_work(et.drop_last()) + et.last().1.len()
    }
}

fn with_suffix(k: &Vec<char>, suffix: &str) -> (r: Vec<char>)
    ensures
        r@ == k@ + suffix@,
{
    let mut r = copy_chars(k);
    let s = chars_of(suffix);
    let mut i: usize = 0;
    while i < s.len()
        invariant
            i <= s@.len(),
            r@ == k@ + s@.take(i as int),
        decreases s@.len() - i,
    {
        r.push(s[i]);
        assert(s@.take(i + 1) =~= s@.take(i as int).push(s@[i as int]));
        i += 1;
    }
    assert(s@.take(s@.len() as int) =~= s@);
    r
}

fn pipe_entry(t: &mut Tally, name: &Vec<char>, b: Option<&Vec<(String, String)>>, k: &String, v: &String)
    requires
        old(t).bounded(),
        old(t).same + old(t).differ < i64::MAX,
    ensures
        final(t).view_tally() == pipe_step(
            old(t).view_tally(),
            name@,
            match b {
                Some(fs) => Some(fs.deep_view()),
                None => None,
            },
            (k@, v@),
        ),
        final(t).bounded(),
        final(t).absent == old(t).absent,
        final(t).same + final(t).differ <= old(t).same + old(t).differ + 1,
{
    if crate::text::str_eq(k.as_str(), "SourceFile") {
        return;
    }
    let kc = chars_of(k.as_str());
    let mine = match b {
        Some(fs) => get_field(fs, &kc),
        None => None,
    };
    let fname = string_from(name);
    match mine {
        None => {
            let label = with_suffix(&kc, " (missing)");
            count_difference(t, &label, &kc, (fname, v.clone(), None));
        },
        Some(m) => {
            if crate::text::str_eq(m.as_str(), v.as_str()) {
                t.same = t.same + 1;
            } else {
                let label = with_suffix(&kc, " (differs)");
                count_difference(t, &label, &kc, (fname, v.clone(), Some(m)));
            }
        },
    }
}

fn string_from(v: &Vec<char>) -> (r: String)
    ensures
        r@ == v@,
{
    let mut s = String::new();
    let mut i: usize = 0;
    while i < v.len()
        invariant
            i <= v@.len(),
            s@ == v@.take(i as int),
        decreases v@.len() - i,
    {
        push_char(&mut s, v[i]);
        assert(v@.take(i + 1) =~= v@.take(i as int).push(v@[i as int]));
        i += 1;
    }
    assert(v@.take(v@.len() as int) =~= v@);
    s
}

/// Hold every entry of every object ExifTool reported against this
/// library's object for the same file.
pub fn check_pipeline(et: &Doc, ours: &Doc) -> (r: Tally)
    requires
        pipe_work(et.deep_view()) + et@.len() < i64::MAX,
    ensures
        r.view_tally() == pipe_check(et.deep_view(), ours.deep_view()),
        r.bounded(),
        r.differ < i64::MAX,
{
    let ghost d = et.deep_view();
    let mut t = Tally::new();
    let mut i: usize = 0;
    while i < et.len()
        invariant
            i <= et@.len(),
            d == et.deep_view(),
            t.bounded(),
            t.same + t.differ <= pipe_work(d.take(i as int)),
            t.absent <= i,
            pipe_work(d) + et@.len() < i64::MAX,
            t.view_tally() == pipe_check(d.take(i as int), ours.deep_view()),
        decreases et@.len() - i,
    {
        assert(d.take(i + 1).drop_last() =~= d.take(i as int));
        proof {
            lemma_pipe_work_grows(d, i + 1);
        }
        let name = &et[i].0;
        let a = &et[i].1;
        assert(d[i as int] == (name@, a.deep_view()));
        let (pb, fb) = place(ours, name);
        let b = if fb {
            assert(ours.deep_view()[pb as int].1 == ours@[pb as int].1.deep_view());
            Some(&ours[pb].1)
        } else {
            t.absent = t.absent + 1;
            None
        };
        let ghost start = t.view_tally();
        let ghost s0 = t.same + t.differ;
        let ghost av = a.deep_view();
        let mut j: usize = 0;
        while j < a.len()
            invariant
                j <= a@.len(),
                av == a.deep_view(),
                t.bounded(),
                t.same + t.differ <= s0 + j,
                s0 + a@.len() < i64::MAX,
                t.absent == start.absent,
                t.view_tally() == pipe_steps(
                    start,
                    name@,
                    match b {
                        Some(fs) => Some(fs.deep_view()),
                        None => None,
                    },
                    av.take(j as int),
                ),
            decreases a@.len() - j,
        {
            assert(av.take(j + 1).drop_last() =~= av.take(j as int));
            assert(av[j as int] == (a@[j as int].0@, a@[j as int].1@));
            pipe_entry(&mut t, name, b, &a[j].0, &a[j].1);
            j += 1;
        }
        assert(av.take(a@.len() as int) =~= av);
        i += 1;
    }
    assert(d.take(et@.len() as int) =~= d);
    t
}

proof fn lemma_pipe_work_grows(et: DocV, k: int)
    requires
        0 <= k <= et.len(),
    ensures
        pipe_work(et.take(k)) <= pipe_work(et),
    decreases et.len() - k,
{
    if k < et.len() {
        lemma_pipe_work_grows(et, k + 1);
        assert(et.take(k + 1).drop_last() =~= et.take(k));
    } else {
        assert(et.take(k) =~= et);
    }
}


// ------------------------------------------------------------ the reports

/// The labels ordered by their counts, most first, labels of equal count
/// keeping their order; each with its count negated, the key it is ordered
/// by.
pub open spec fn ranked(c: Seq<(Seq<char>, u64)>) -> Seq<(i64, Seq<char>)> {
    sorted_by_key(c.map_values(|p: (Seq<char>, u64)| ((-(p.1 as int)) as i64, p.0)))
}

/// Order the labels by count, most first.
pub fn rank(t: &Tally) -> (r: Vec<(i64, String)>)
    requires
        t.bounded(),
        t.differ < i64::MAX,
    ensures
        r.deep_view() == ranked(t.counts.deep_view()),
{
    let ghost c = t.counts.deep_view();
    let ghost keyed = c.map_values(|p: (Seq<char>, u64)| ((-(p.1 as int)) as i64, p.0));
    let mut out: Vec<(i64, String)> = Vec::new();
    let mut i: usize = 0;
    assert(keyed.take(0) =~= Seq::<(i64, Seq<char>)>::empty());
    while i < t.counts.len()
        invariant
            i <= t.counts@.len(),
            c == t.counts.deep_view(),
            keyed == c.map_values(|p: (Seq<char>, u64)| ((-(p.1 as int)) as i64, p.0)),
            t.bounded(),
            t.differ < i64::MAX,
            out.deep_view() == sorted_by_key(keyed.take(i as int)),
        decreases t.counts@.len() - i,
    {
        assert(keyed.take(i + 1).drop_last() =~= keyed.take(i as int));
        assert(c[i as int] == (t.counts@[i as int].0@, t.counts@[i as int].1));
        let n = t.counts[i].1;
        assert(n <= t.differ);
        let label = string_from(&t.counts[i].0);
        insert_sorted(&mut out, (-(n as i64), label));
        i += 1;
    }
    assert(keyed.take(t.counts@.len() as int) =~= keyed);
    out
}

/// `s` with spaces after it up to `w` characters, as `format!` pads a
/// string to a width.
pub open spec fn pad(s: Seq<char>, w: nat) -> Seq<char> {
    if s.len() >= w {
        s
    } else {
        s + Seq::new((w - s.len()) as nat, |i: int| ' ')
    }
}

/// This library's text in an example, or `(absent)`.
pub open spec fn shown(m: Option<Seq<char>>) -> Seq<char> {
    match m {
        Some(x) => x,
        None => "(absent)"@,
    }
}

/// One ranked line of a report.
pub open spec fn diff_line(label: Seq<char>, width: nat, n: nat, ex: ExampleV) -> Seq<char> {
    "  "@ + pad(label, width) + " x"@ + pad(dec_nat(n), 4) + " "@ + pad(ex.0, 16) + " exiftool="@
        + str_debug(ex.1) + " ours="@ + str_debug(shown(ex.2)) + "\n"@
}

/// Where the first space of `s` stands; `s.len()` where there is none.
pub open spec fn space_at(s: Seq<char>) -> int
    decreases s.len(),
{
    if s.len() == 0 || s[0] == ' ' {
        0
    } else {
        1 + space_at(s.drop_first())
    }
}

/// The key a label counts: the whole label, or where `cut` is set, its text
/// before the first space.
pub open spec fn label_key(label: Seq<char>, cut: bool) -> Seq<char> {
    if cut {
        label.take(space_at(label))
    } else {
        label
    }
}

/// The ranked lines, each with the example of its key; a label whose key
/// has no example gives no line.
pub open spec fn diff_lines(r: Seq<(i64, Seq<char>)>, ex: Seq<(Seq<char>, ExampleV)>, width: nat, cut: bool) -> Seq<char>
    decreases r.len(),
{
    if r.len() == 0 {
        Seq::empty()
    } else {
        diff_lines(r.drop_last(), ex, width, cut) + match example_of(ex, label_key(r.last().1, cut)) {
            Some(e) => diff_line(r.last().1, width, (-r.last().0) as nat, e),
            None => Seq::<char>::empty(),
        }
    }
}

/// At most the first `n` of `s`.
pub open spec fn first_n<A>(s: Seq<A>, n: nat) -> Seq<A> {
    if s.len() <= n {
        s
    } else {
        s.take(n as int)
    }
}

/// What the tag check prints, on standard output and standard error, and
/// the status it exits with, for `files` files.
pub open spec fn tag_report(files: nat, t: TallyV) -> (Seq<char>, Seq<char>, int) {
    (
        dec_nat(files) + " files: "@ + dec_nat(t.same) + " tags agree, "@ + dec_nat(t.differ)
            + " disagree\n"@ + if t.differ > 0 {
            "\nmismatches:\n"@ + diff_lines(first_n(ranked(t.counts), 20), t.examples, 26, false)
        } else {
            Seq::empty()
        },
        if t.same == 0 {
            "\ncompared 0 tags, which means the harness is broken rather than the tool\n"@
        } else {
            Seq::empty()
        },
        if t.same == 0 || t.differ > 0 {
            1
        } else {
            0
        },
    )
}

/// What the pipeline check prints, and the status it exits with, for the
/// `files` files ExifTool reported.
pub open spec fn pipe_report(files: nat, t: TallyV) -> (Seq<char>, Seq<char>, int) {
    (
        dec_nat(files) + " files, "@ + dec_nat(t.same) + " field values identical, "@ + dec_nat(
            t.differ,
        ) + " differences\n"@ + if t.absent > 0 {
            dec_nat(t.absent) + " of those files were not reported at all\n"@
        } else {
            Seq::empty()
        } + diff_lines(first_n(ranked(t.counts), 10), t.examples, 30, true),
        if t.same == 0 {
            "\ncompared nothing, so the harness is broken rather than the tool\n"@
        } else {
            Seq::empty()
        },
        if t.same == 0 || t.differ > 0 {
            1
        } else {
            0
        },
    )
}

pub(crate) fn push_padded(out: &mut String, s: &str, w: usize)
    ensures
        final(out)@ == old(out)@ + pad(s@, w as nat),
{
    let ghost start = out@;
    let cs = chars_of(s);
    out.append(s);
    let mut k = cs.len();
    let ghost fill = if s@.len() >= w {
        Seq::<char>::empty()
    } else {
        Seq::new((w - s@.len()) as nat, |i: int| ' ')
    };
    assert(fill.take(0) =~= Seq::<char>::empty());
    while k < w
        invariant
            cs@ == s@,
            cs@.len() <= k <= w || (k == cs@.len() && k >= w),
            out@ == start + s@ + fill.take(k - cs@.len()),
            fill == if s@.len() >= w {
                Seq::<char>::empty()
            } else {
                Seq::new((w - s@.len()) as nat, |i: int| ' ')
            },
        decreases w - k,
    {
        push_char(out, ' ');
        assert(fill.take(k + 1 - cs@.len()) =~= fill.take(k - cs@.len()).push(' '));
        k += 1;
    }
    assert(fill.take(k - cs@.len()) =~= fill);
    assert(out@ =~= start + pad(s@, w as nat));
}

fn key_of_label(label: &String, cut: bool) -> (r: Vec<char>)
    ensures
        r@ == label_key(label@, cut),
{
    let cs = chars_of(label.as_str());
    if !cut {
        return cs;
    }
    proof {
        lemma_space_at(label@);
    }
    let mut i: usize = 0;
    while i < cs.len() && cs[i] != ' '
        invariant
            cs@ == label@,
            i <= cs@.len(),
            forall|j: int| 0 <= j < i ==> cs@[j] != ' ',
            0 <= space_at(label@) <= label@.len(),
            space_at(label@) < label@.len() ==> label@[space_at(label@)] == ' ',
            forall|j: int| 0 <= j < space_at(label@) ==> label@[j] != ' ',
        decreases cs@.len() - i,
    {
        i += 1;
    }
    slice_chars(&cs, 0, i)
}

proof fn lemma_space_at(k: Seq<char>)
    ensures
        0 <= space_at(k) <= k.len(),
        space_at(k) < k.len() ==> k[space_at(k)] == ' ',
        forall|j: int| 0 <= j < space_at(k) ==> k[j] != ' ',
    decreases k.len(),
{
    if k.len() > 0 && k[0] != ' ' {
        lemma_space_at(k.drop_first());
        assert forall|j: int| 0 <= j < space_at(k) implies k[j] != ' ' by {
            if j > 0 {
                assert(k[j] == k.drop_first()[j - 1]);
            }
        }
    }
}

fn push_diff_line(out: &mut String, label: &String, width: usize, n: i64, e: &(String, String, Option<String>))
    requires
        n >= 0,
    ensures
        final(out)@ == old(out)@ + diff_line(label@, width as nat, n as nat, e.deep_view()),
{
    let ghost before = out@;
    out.append("  ");
    push_padded(out, label.as_str(), width);
    out.append(" x");
    let d = dec_text(n);
    push_padded(out, d.as_str(), 4);
    out.append(" ");
    push_padded(out, e.0.as_str(), 16);
    out.append(" exiftool=");
    let a = debug_str(e.1.as_str());
    out.append(a.as_str());
    out.append(" ours=");
    let b = match &e.2 {
        Some(m) => debug_str(m.as_str()),
        None => debug_str("(absent)"),
    };
    out.append(b.as_str());
    out.append("\n");
    assert(out@ =~= before + diff_line(label@, width as nat, n as nat, e.deep_view()));
}

fn write_lines(out: &mut String, r: &Vec<(i64, String)>, upto: usize, t: &Tally, width: usize, cut: bool)
    requires
        forall|i: int| 0 <= i < r@.len() ==> #[trigger] r.deep_view()[i].0 <= 0,
        forall|i: int| 0 <= i < r@.len() ==> #[trigger] r.deep_view()[i].0 > i64::MIN,
    ensures
        final(out)@ == old(out)@ + diff_lines(first_n(r.deep_view(), upto as nat), t.examples.deep_view(), width as nat, cut),
{
    let ghost start = out@;
    let ghost rs = first_n(r.deep_view(), upto as nat);
    let m = if r.len() <= upto {
        r.len()
    } else {
        upto
    };
    assert(rs =~= r.deep_view().take(m as int));
    let mut i: usize = 0;
    while i < m
        invariant
            i <= m <= r@.len(),
            rs == r.deep_view().take(m as int),
            forall|j: int| 0 <= j < r@.len() ==> #[trigger] r.deep_view()[j].0 <= 0,
            forall|j: int| 0 <= j < r@.len() ==> #[trigger] r.deep_view()[j].0 > i64::MIN,
            out@ == start + diff_lines(rs.take(i as int), t.examples.deep_view(), width as nat, cut),
        decreases m - i,
    {
        assert(rs.take(i + 1).drop_last() =~= rs.take(i as int));
        let (neg, label) = (&r[i].0, &r[i].1);
        assert(rs.take(i + 1).last() == (*neg, label@));
        let key = key_of_label(label, cut);
        match find_example(&t.examples, &key) {
            Some(x) => {
                let e = &t.examples[x].1;
                assert(t.examples.deep_view()[x as int].1 == e.deep_view());
                assert(r.deep_view()[i as int].0 == *neg);
                push_diff_line(out, label, width, -*neg, e);
            },
            None => {},
        }
        i += 1;
    }
    assert(rs.take(m as int) =~= rs);
}

fn dec_text(n: i64) -> (r: String)
    requires
        n >= 0,
    ensures
        r@ == dec_nat(n as nat),
{
    let mut s = String::new();
    push_dec(&mut s, n as u64);
    assert(s@ =~= dec_nat(n as nat));
    s
}

/// Write the tag check's report for `files` files: what goes to standard
/// output, what goes to standard error, and the exit status.
pub fn tag_report_text(files: usize, t: &Tally) -> (r: (String, String, i32))
    requires
        t.bounded(),
        t.differ < i64::MAX,
    ensures
        (r.0@, r.1@, r.2 as int) == tag_report(files as nat, t.view_tally()),
{
    let mut out = String::new();
    push_dec(&mut out, files as u64);
    out.append(" files: ");
    push_dec(&mut out, t.same);
    out.append(" tags agree, ");
    push_dec(&mut out, t.differ);
    out.append(" disagree\n");
    let ghost head = out@;
    if t.differ > 0 {
        out.append("\nmismatches:\n");
        let r = rank(t);
        proof {
            lemma_ranked_keys(t.counts.deep_view(), t.differ);
        }
        write_lines(&mut out, &r, 20, t, 26, false);
    }
    let mut err = String::new();
    if t.same == 0 {
        err.append("\ncompared 0 tags, which means the harness is broken rather than the tool\n");
    }
    let code = if t.same == 0 || t.differ > 0 {
        1
    } else {
        0
    };
    proof {
        if t.differ == 0 {
            assert(out@ =~= head + Seq::<char>::empty());
        }
        if t.same != 0 {
            assert(err@ =~= Seq::<char>::empty());
        }
    }
    (out, err, code)
}

/// Write the pipeline check's report for the `files` files ExifTool
/// reported.
pub fn pipe_report_text(files: usize, t: &Tally) -> (r: (String, String, i32))
    requires
        t.bounded(),
        t.differ < i64::MAX,
    ensures
        (r.0@, r.1@, r.2 as int) == pipe_report(files as nat, t.view_tally()),
{
    let mut out = String::new();
    push_dec(&mut out, files as u64);
    out.append(" files, ");
    push_dec(&mut out, t.same);
    out.append(" field values identical, ");
    push_dec(&mut out, t.differ);
    out.append(" differences\n");
    let ghost head = out@;
    if t.absent > 0 {
        push_dec(&mut out, t.absent);
        out.append(" of those files were not reported at all\n");
    }
    proof {
        if t.absent == 0 {
            assert(out@ =~= head + Seq::<char>::empty());
        }
    }
    let r = rank(t);
    proof {
        lemma_ranked_keys(t.counts.deep_view(), t.differ);
    }
    write_lines(&mut out, &r, 10, t, 30, true);
    let mut err = String::new();
    if t.same == 0 {
        err.append("\ncompared nothing, so the harness is broken rather than the tool\n");
    }
    let code = if t.same == 0 || t.differ > 0 {
        1
    } else {
        0
    };
    proof {
        if t.same != 0 {
            assert(err@ =~= Seq::<char>::empty());
        }
    }
    (out, err, code)
}


proof fn lemma_insert_elems(t: Seq<(i64, Seq<char>)>, e: (i64, Seq<char>))
    ensures
        forall|i: int|
            0 <= i < insert_by_key(t, e).len() ==> #[trigger] insert_by_key(t, e)[i] == e
                || t.contains(insert_by_key(t, e)[i]),
    decreases t.len(),
{
    if t.len() > 0 {
        lemma_insert_elems(t.drop_first(), e);
        let r = insert_by_key(t, e);
        assert forall|i: int| 0 <= i < r.len() implies #[trigger] r[i] == e || t.contains(r[i]) by {
            if t[0].0 > e.0 {
                if i > 0 {
                    assert(r[i] == t[i - 1]);
                }
            } else if i == 0 {
                assert(r[0] == t[0]);
            } else {
                assert(r[i] == insert_by_key(t.drop_first(), e)[i - 1]);
                if r[i] != e {
                    let k = choose|k: int| 0 <= k < t.drop_first().len() && t.drop_first()[k] == r[i];
                    assert(t[k + 1] == r[i]);
                }
            }
        }
    }
}

proof fn lemma_sorted_elems(s: Seq<(i64, Seq<char>)>)
    ensures
        forall|i: int| 0 <= i < sorted_by_key(s).len() ==> s.contains(#[trigger] sorted_by_key(s)[i]),
    decreases s.len(),
{
    if s.len() > 0 {
        lemma_sorted_elems(s.drop_last());
        lemma_insert_elems(sorted_by_key(s.drop_last()), s.last());
        let r = sorted_by_key(s);
        assert forall|i: int| 0 <= i < r.len() implies s.contains(#[trigger] r[i]) by {
            if r[i] == s.last() {
                assert(s[s.len() - 1] == r[i]);
            } else {
                let t = sorted_by_key(s.drop_last());
                let k = choose|k: int| 0 <= k < t.len() && t[k] == r[i];
                assert(s.drop_last().contains(t[k]));
                let m = choose|m: int| 0 <= m < s.drop_last().len() && s.drop_last()[m] == t[k];
                assert(s[m] == r[i]);
            }
        }
    }
}

/// Every ranked key is a negated count, so it lies in `(i64::MIN, 0]`.
proof fn lemma_ranked_keys(c: Seq<(Seq<char>, u64)>, d: u64)
    requires
        forall|i: int| 0 <= i < c.len() ==> #[trigger] c[i].1 <= d,
        d < i64::MAX,
    ensures
        forall|i: int| 0 <= i < ranked(c).len() ==> #[trigger] ranked(c)[i].0 <= 0,
        forall|i: int| 0 <= i < ranked(c).len() ==> #[trigger] ranked(c)[i].0 > i64::MIN,
{
    let keyed = c.map_values(|p: (Seq<char>, u64)| ((-(p.1 as int)) as i64, p.0));
    lemma_sorted_elems(keyed);
    assert forall|i: int| 0 <= i < ranked(c).len() implies #[trigger] ranked(c)[i].0 <= 0 && ranked(
        c,
    )[i].0 > i64::MIN by {
        let k = choose|k: int| 0 <= k < keyed.len() && keyed[k] == ranked(c)[i];
        assert(c[k].1 <= d);
    }
}


// ------------------------------------------------------------ the photographs

/// The extensions the checks read, in lower case.
pub open spec fn listed_exts() -> Seq<Seq<char>> {
    seq!["jpg"@, "jpeg"@, "heif"@, "heic"@, "hif"@, "raf"@, "dng"@, "tif"@, "tiff"@]
}

/// Where the last `.` of `s` stands; -1 where there is none.
pub open spec fn last_dot(s: Seq<char>) -> int
    decreases s.len(),
{
    if s.len() == 0 {
        -1
    } else if s.last() == '.' {
        s.len() - 1
    } else {
        last_dot(s.drop_last())
    }
}

/// The extension of a file name, as `Path::extension` reads it: the text
/// after the last `.`, where that dot does not begin the name.
pub open spec fn name_extension(name: Seq<char>) -> Option<Seq<char>> {
    if name == ".."@ || last_dot(name) <= 0 {
        None
    } else {
        Some(name.skip(last_dot(name) + 1))
    }
}

/// Whether `name` is a photograph's: one whose extension, in lower case,
/// is among `exts`.
pub open spec fn is_photo(name: Seq<char>, exts: Seq<Seq<char>>) -> bool {
    match name_extension(name) {
        Some(e) => exts.contains(crate::site::ascii_lower(e)),
        None => false,
    }
}

/// `t` with `x` put before the first name that sorts after it.
pub open spec fn insert_name(t: Seq<Seq<char>>, x: Seq<char>) -> Seq<Seq<char>>
    decreases t.len(),
{
    if t.len() == 0 {
        seq![x]
    } else if key_lt(x, t[0]) {
        seq![x] + t
    } else {
        seq![t[0]] + insert_name(t.drop_first(), x)
    }
}

/// The photographs among `names`, by `exts`, in the order their text
/// sorts.
pub open spec fn photos(names: Seq<Seq<char>>, exts: Seq<Seq<char>>) -> Seq<Seq<char>>
    decreases names.len(),
{
    if names.len() == 0 {
        Seq::empty()
    } else if is_photo(names.last(), exts) {
        insert_name(photos(names.drop_last(), exts), names.last())
    } else {
        photos(names.drop_last(), exts)
    }
}

proof fn lemma_last_dot(s: Seq<char>)
    ensures
        -1 <= last_dot(s) < s.len(),
        last_dot(s) >= 0 ==> s[last_dot(s)] == '.',
        forall|j: int| last_dot(s) < j < s.len() ==> s[j] != '.',
    decreases s.len(),
{
    if s.len() > 0 && s.last() != '.' {
        lemma_last_dot(s.drop_last());
        assert forall|j: int| last_dot(s) < j < s.len() implies s[j] != '.' by {
            if j < s.len() - 1 {
                assert(s[j] == s.drop_last()[j]);
            }
        }
    }
}

fn photo_name(name: &String, exts: &[&str]) -> (r: bool)
    ensures
        r == is_photo(name@, exts@.map_values(|e: &str| e@)),
{
    let ghost ev = exts@.map_values(|e: &str| e@);
    let cs = chars_of(name.as_str());
    proof {
        lemma_last_dot(name@);
    }
    if crate::text::str_eq(name.as_str(), "..") {
        return false;
    }
    let mut d = cs.len();
    while d > 0 && cs[d - 1] != '.'
        invariant
            cs@ == name@,
            d <= cs@.len(),
            forall|j: int| d <= j < cs@.len() ==> cs@[j] != '.',
            -1 <= last_dot(name@) < name@.len(),
            last_dot(name@) >= 0 ==> name@[last_dot(name@)] == '.',
            forall|j: int| last_dot(name@) < j < name@.len() ==> name@[j] != '.',
        decreases d,
    {
        d -= 1;
    }
    assert(d == 0 ==> last_dot(name@) == -1);
    assert(d > 0 ==> last_dot(name@) == d - 1);
    if d <= 1 {
        return false;
    }
    let ext = slice_chars(&cs, d, cs.len());
    let low = crate::site::lower_ascii(&ext);
    let mut k: usize = 0;
    while k < exts.len()
        invariant
            k <= exts@.len(),
            low@ == crate::site::ascii_lower(name@.skip(d as int)),
            last_dot(name@) == d - 1,
            d > 1,
            name@ != ".."@,
            ev == exts@.map_values(|e: &str| e@),
            forall|j: int| 0 <= j < k ==> low@ != #[trigger] ev[j],
        decreases exts@.len() - k,
    {
        let e = chars_of(exts[k]);
        assert(ev[k as int] == exts@[k as int]@);
        if chars_eq(&low, &e) {
            assert(ev[k as int] == low@);
            assert(name_extension(name@) == Some(name@.skip(d as int)));
            assert(ev.contains(low@));
            return true;
        }
        k += 1;
    }
    assert(!ev.contains(low@));
    false
}

/// The photographs the checks read among the file names of a folder, in
/// the order their text sorts.
pub fn photo_files(names: &Vec<String>) -> (r: Vec<String>)
    ensures
        r.deep_view() == photos(names.deep_view(), listed_exts()),
{
    let exts = ["jpg", "jpeg", "heif", "heic", "hif", "raf", "dng", "tif", "tiff"];
    assert(exts@.map_values(|e: &str| e@) =~= listed_exts());
    select_photos(names, &exts)
}

/// The images the command line reads among the file names of a folder, in
/// the order their text sorts.
pub fn image_files(names: &Vec<String>) -> (r: Vec<String>)
    ensures
        r.deep_view() == photos(names.deep_view(), crate::image_exts()),
{
    let exts = ["jpg", "jpeg", "heif", "heic", "hif", "raf"];
    assert(exts@.map_values(|e: &str| e@) =~= crate::image_exts());
    select_photos(names, &exts)
}

#[verifier::rlimit(30)]
fn select_photos(names: &Vec<String>, exts: &[&str]) -> (r: Vec<String>)
    ensures
        r.deep_view() == photos(names.deep_view(), exts@.map_values(|e: &str| e@)),
{
    let ghost ev = exts@.map_values(|e: &str| e@);
    let ghost ns = names.deep_view();
    let mut out: Vec<String> = Vec::new();
    let mut i: usize = 0;
    while i < names.len()
        invariant
            i <= names@.len(),
            ns == names.deep_view(),
            ev == exts@.map_values(|e: &str| e@),
            out.deep_view() == photos(ns.take(i as int), ev),
        decreases names@.len() - i,
    {
        assert(ns.take(i + 1).drop_last() =~= ns.take(i as int));
        assert(ns[i as int] == names@[i as int]@);
        if photo_name(&names[i], exts) {
            let x = chars_of(names[i].as_str());
            let ghost t = out.deep_view();
            let n = out.len();
            let mut j: usize = 0;
            assert(t.skip(0) =~= t);
            assert(t.take(0) + insert_name(t.skip(0), x@) =~= insert_name(t, x@));
            while j < n
                invariant
                    j <= n == out@.len(),
                    t == out.deep_view(),
                    insert_name(t, x@) == t.take(j as int) + insert_name(t.skip(j as int), x@),
                ensures
                    j <= n == out@.len(),
                    insert_name(t, x@) == t.take(j as int) + insert_name(t.skip(j as int), x@),
                    j < n ==> key_lt(x@, t[j as int]),
                decreases n - j,
            {
                let y = chars_of(out[j].as_str());
                assert(t[j as int] == y@);
                assert(t.skip(j as int)[0] == t[j as int]);
                if key_less(&x, &y) {
                    break;
                }
                assert(t.skip(j as int).drop_first() =~= t.skip(j + 1));
                assert(t.take(j as int) + insert_name(t.skip(j as int), x@) =~= t.take(j + 1)
                    + insert_name(t.skip(j + 1), x@));
                j += 1;
            }
            let ghost before = out@;
            out.insert(j, names[i].clone());
            assert(out.deep_view() =~= insert_name(t, x@)) by {
                if j < n {
                    assert(t.skip(j as int)[0] == t[j as int]);
                    assert(insert_name(t.skip(j as int), x@) =~= seq![x@] + t.skip(j as int));
                } else {
                    assert(t.skip(j as int) =~= Seq::<Seq<char>>::empty());
                }
                assert forall|k: int| 0 <= k < out@.len() implies out.deep_view()[k] == insert_name(
                    t,
                    x@,
                )[k] by {
                    if k < j {
                        assert(out@[k] == before[k]);
                    } else if k > j {
                        assert(out@[k] == before[k - 1]);
                    }
                }
            }
        }
        i += 1;
    }
    assert(ns.take(names@.len() as int) =~= ns);
    out
}


// ------------------------------------------------------------ laws

/// The counts, added up.
pub open spec fn count_sum(c: Seq<(Seq<char>, u64)>) -> nat
    decreases c.len(),
{
    if c.len() == 0 {
        0
    } else {
        c[0].1 as nat + count_sum(c.drop_first())
    }
}

proof fn lemma_bump_sum(c: Seq<(Seq<char>, u64)>, k: Seq<char>)
    requires
        forall|i: int| 0 <= i < c.len() ==> #[trigger] c[i].1 < u64::MAX,
    ensures
        count_sum(bump(c, k)) == count_sum(c) + 1,
    decreases c.len(),
{
    if c.len() == 0 {
        assert(bump(c, k).drop_first() =~= Seq::<(Seq<char>, u64)>::empty());
        assert(count_sum(bump(c, k).drop_first()) == 0);
    } else if c[0].0 == k {
        assert(bump(c, k).drop_first() =~= c.drop_first());
        assert(bump(c, k)[0].1 == c[0].1 + 1);
    } else if key_lt(k, c[0].0) {
        assert(bump(c, k).drop_first() =~= c);
        assert(bump(c, k)[0].1 == 1);
    } else {
        assert forall|i: int| 0 <= i < c.drop_first().len() implies #[trigger] c.drop_first()[i].1
            < u64::MAX by {
            assert(c.drop_first()[i] == c[i + 1]);
        }
        lemma_bump_sum(c.drop_first(), k);
        assert(bump(c, k).drop_first() =~= bump(c.drop_first(), k));
    }
}

/// What every tally the checks make keeps: the counts add up to the
/// differences, and none is more than they are.
pub open spec fn tally_ok(t: TallyV) -> bool {
    &&& count_sum(t.counts) == t.differ
    &&& forall|i: int| 0 <= i < t.counts.len() ==> #[trigger] t.counts[i].1 <= t.differ
}

proof fn lemma_differs_ok(t: TallyV, label: Seq<char>, key: Seq<char>, ex: ExampleV)
    requires
        tally_ok(t),
        t.differ < i64::MAX,
    ensures
        tally_ok(differs(t, label, key, ex)),
{
    lemma_bump_sum(t.counts, label);
    lemma_bump_bound(t.counts, label, t.differ as u64);
}

proof fn lemma_pipe_steps_ok(t: TallyV, name: Seq<char>, b: Option<FieldsV>, fs: FieldsV)
    requires
        tally_ok(t),
        t.differ + fs.len() < i64::MAX,
    ensures
        tally_ok(pipe_steps(t, name, b, fs)),
        pipe_steps(t, name, b, fs).differ <= t.differ + fs.len(),
    decreases fs.len(),
{
    if fs.len() > 0 {
        lemma_pipe_steps_ok(t, name, b, fs.drop_last());
        let u = pipe_steps(t, name, b, fs.drop_last());
        let kv = fs.last();
        if kv.0 != "SourceFile"@ {
            let m = match b {
                Some(x) => field_get(x, kv.0),
                None => None,
            };
            match m {
                None => lemma_differs_ok(u, missing_label(kv.0), kv.0, (name, kv.1, None)),
                Some(mine) => if mine != kv.1 {
                    lemma_differs_ok(u, differs_label(kv.0), kv.0, (name, kv.1, Some(mine)));
                },
            }
        }
    }
}

proof fn lemma_pipe_check_ok(et: DocV, ours: DocV)
    requires
        pipe_work(et) < i64::MAX,
    ensures
        tally_ok(pipe_check(et, ours)),
        pipe_check(et, ours).differ <= pipe_work(et),
    decreases et.len(),
{
    if et.len() == 0 {
        assert(count_sum(Seq::<(Seq<char>, u64)>::empty()) == 0);
    } else {
        lemma_pipe_check_ok(et.drop_last(), ours);
        let t = pipe_check(et.drop_last(), ours);
        let (name, a) = et.last();
        let b = lookup(ours, name);
        let t1 = if b is None {
            TallyV { absent: t.absent + 1, ..t }
        } else {
            t
        };
        lemma_pipe_steps_ok(t1, name, b, a);
    }
}

proof fn lemma_tag_steps_ok(t: TallyV, name: Seq<char>, a: FieldsV, fs: FieldsV)
    requires
        tally_ok(t),
        t.differ + fs.len() < i64::MAX,
    ensures
        tally_ok(tag_steps(t, name, a, fs)),
        tag_steps(t, name, a, fs).differ <= t.differ + fs.len(),
    decreases fs.len(),
{
    if fs.len() > 0 {
        lemma_tag_steps_ok(t, name, a, fs.drop_last());
        let u = tag_steps(t, name, a, fs.drop_last());
        let kv = fs.last();
        if compared_key(kv.0) {
            if let Some(theirs) = field_get(a, exiftool_key(kv.0)) {
                if theirs != kv.1 {
                    lemma_differs_ok(u, tag_part(kv.0), tag_part(kv.0), (name, theirs, Some(kv.1)));
                }
            }
        }
    }
}

proof fn lemma_tag_check_ok(et: DocV, ours: DocV, files: Seq<Seq<char>>)
    requires
        tag_work(ours, files) < i64::MAX,
    ensures
        tally_ok(tag_check(et, ours, files)),
        tag_check(et, ours, files).differ <= tag_work(ours, files),
    decreases files.len(),
{
    if files.len() == 0 {
        assert(count_sum(Seq::<(Seq<char>, u64)>::empty()) == 0);
    } else {
        lemma_tag_check_ok(et, ours, files.drop_last());
        let t = tag_check(et, ours, files.drop_last());
        let f = files.last();
        if let (Some(a), Some(b)) = (lookup(et, f), lookup(ours, f)) {
            lemma_tag_steps_ok(t, f, a, b);
        }
    }
}

/// The differences a check reports are the sum of its per-tag or per-key
/// counts: nothing counted is left out of the total and nothing is counted
/// twice.
pub proof fn law_the_total_is_the_sum_of_the_counts(et: DocV, ours: DocV, files: Seq<Seq<char>>)
    ensures
        pipe_work(et) < i64::MAX ==> count_sum(pipe_check(et, ours).counts) == pipe_check(
            et,
            ours,
        ).differ,
        tag_work(ours, files) < i64::MAX ==> count_sum(tag_check(et, ours, files).counts)
            == tag_check(et, ours, files).differ,
{
    if pipe_work(et) < i64::MAX {
        lemma_pipe_check_ok(et, ours);
    }
    if tag_work(ours, files) < i64::MAX {
        lemma_tag_check_ok(et, ours, files);
    }
}

/// A check that compares nothing fails, whatever else it found: a harness
/// that stopped matching must not read as a pass.
pub proof fn law_a_check_that_compares_nothing_fails(files: nat, t: TallyV)
    requires
        t.same == 0,
    ensures
        tag_report(files, t).2 == 1,
        tag_report(files, t).1.len() > 0,
        pipe_report(files, t).2 == 1,
        pipe_report(files, t).1.len() > 0,
{
    reveal_strlit("\ncompared 0 tags, which means the harness is broken rather than the tool\n");
    reveal_strlit("\ncompared nothing, so the harness is broken rather than the tool\n");
}

/// A check passes only where it compared something and found no
/// difference.
pub proof fn law_a_check_passes_only_without_differences(files: nat, t: TallyV)
    ensures
        tag_report(files, t).2 == 0 <==> (t.same > 0 && t.differ == 0),
        pipe_report(files, t).2 == 0 <==> (t.same > 0 && t.differ == 0),
{
}

/// In the tag check, a value is held only against ExifTool's value for the
/// same tag in the same group (maker notes being ExifTool's `MakerNotes`),
/// and only a value ExifTool reports at all can differ.
pub proof fn law_tags_are_compared_within_their_group(t: TallyV, name: Seq<char>, a: FieldsV, kv: (
    Seq<char>,
    Seq<char>,
))
    ensures
        tag_step(t, name, a, kv).differ == t.differ + 1 <==> (compared_key(kv.0) && (field_get(
            a,
            exiftool_key(kv.0),
        ) matches Some(theirs) && theirs != kv.1)),
        !compared_key(kv.0) || field_get(a, exiftool_key(kv.0)) is None ==> tag_step(
            t,
            name,
            a,
            kv,
        ) == t,
{
}

/// In the pipeline check, a key ExifTool emitted that this library did not
/// emit for the same file is a difference, counted as missing.
pub proof fn law_a_missing_key_is_a_difference(t: TallyV, name: Seq<char>, b: Option<FieldsV>, kv: (
    Seq<char>,
    Seq<char>,
))
    requires
        kv.0 != "SourceFile"@,
        match b {
            Some(fs) => field_get(fs, kv.0) is None,
            None => true,
        },
    ensures
        pipe_step(t, name, b, kv).differ == t.differ + 1,
        pipe_step(t, name, b, kv).counts == bump(t.counts, missing_label(kv.0)),
        pipe_step(t, name, b, kv).same == t.same,
{
}

} // verus!
