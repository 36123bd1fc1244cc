//! The stem-keyed record shape, and a merge that preserves what it does not
//! know.
//!
//! A photo pipeline keeps one accumulated `metadata.json` shaped
//! `{stem: {field: value, …}, …}`. Emitting that shape here removes a reshape
//! step, and merging here removes the need for a recursive-merge operator in
//! whatever tool would otherwise do it.
//!
//! THE MERGE CONTRACT, which is the whole reason this is not a one-liner. A
//! fresh read produces the fields of `fields()`. The document on disk may carry
//! more than that per photo (a `recipe` card added by a later step, for one).
//! So the rule is:
//!
//!   * a stem the fresh read did not see passes through untouched
//!   * a stem it did see keeps every key it already had, with the freshly
//!     read fields written over the top
//!
//! which is a recursive merge at this depth and not a shallow one. Getting
//! this backwards costs the recipe card on every re-merged photo, silently.
//!
//! Preserved values are copied as raw text rather than parsed and re-emitted,
//! so a key this library has never heard of survives byte-exact. That is also
//! why the reader below is a structural scanner rather than a JSON parser: it
//! needs object boundaries and key names, and deliberately does not need to
//! understand values it is only going to hand back.

use crate::json::{chars_of, escape, escape_chars, quoted, scalar, scalar_text};
use crate::json::{is_digit, spells, spells_from};
use crate::text::{char_debug, dec_int, dec_nat, debug_char, digit, int_string, push_char, trim, trimmed};
use crate::text::{is_white_space, trim_end, trim_start};
use crate::value::{div_trunc, Value, ValueV};
use crate::{first_in, first_named, fuji_text, int_of, int_readable, opt_view, print_of, rotated, tags_view, Group, Photo, TagV};
use crate::tag_readable;
use vstd::prelude::*;
use vstd::string::StringSliceAdditionalSpecFns;
use vstd::utf8::*;

verus! {

// ------------------------------------------------------------- the scanner

pub open spec fn is_ws(c: u8) -> bool {
    c == 0x20 || c == 0x0A || c == 0x09 || c == 0x0D
}

/// The first position from `i` on that is not JSON whitespace.
pub open spec fn ws_end(b: Seq<u8>, i: int) -> int
    decreases b.len() - i,
{
    if 0 <= i < b.len() && is_ws(b[i]) {
        ws_end(b, i + 1)
    } else {
        i
    }
}

fn skip_ws(b: &[u8], i: usize) -> (r: usize)
    requires
        i <= b@.len(),
    ensures
        r == ws_end(b@, i as int),
        i <= r <= b@.len(),
{
    let mut j = i;
    while j < b.len() && (b[j] == 0x20 || b[j] == 0x0A || b[j] == 0x09 || b[j] == 0x0D)
        invariant
            i <= j <= b@.len(),
            ws_end(b@, i as int) == ws_end(b@, j as int),
        decreases b@.len() - j,
    {
        j += 1;
    }
    j
}

/// The closing quote of a string whose contents start at `j`. Escapes are
/// understood only as far as finding that quote: a backslash and the byte
/// after it are passed over together.
pub open spec fn string_end(b: Seq<u8>, j: int) -> Result<int, Seq<char>>
    decreases b.len() - j,
{
    if j < 0 || j >= b.len() {
        Err("unterminated string"@)
    } else if b[j] == 0x22 {
        Ok(j)
    } else if b[j] == 0x5C {
        if j + 1 >= b.len() {
            Err("unterminated escape"@)
        } else {
            string_end(b, j + 2)
        }
    } else {
        string_end(b, j + 1)
    }
}

pub proof fn lemma_string_end(b: Seq<u8>, j: int)
    requires
        0 <= j,
    ensures
        string_end(b, j) matches Ok(q) ==> j <= q < b.len() && b[q] == 0x22,
    decreases b.len() - j,
{
    if j < 0 || j >= b.len() {
    } else if b[j] == 0x22 {
    } else if b[j] == 0x5C {
        if j + 1 < b.len() {
            lemma_string_end(b, j + 2);
        }
    } else {
        lemma_string_end(b, j + 1);
    }
}

/// The closing quote of the string that opens at `i`.
fn read_string(b: &[u8], i: usize) -> (r: Result<usize, String>)
    requires
        i < b@.len(),
    ensures
        match string_end(b@, i + 1) {
            Ok(q) => r matches Ok(x) && x == q,
            Err(m) => r matches Err(e) && e@ == m,
        },
{
    let n = b.len();
    let mut j = i + 1;
    loop
        invariant
            i + 1 <= j,
            n == b@.len(),
            string_end(b@, i + 1) == string_end(b@, j as int),
        decreases n - j,
    {
        if j >= n {
            return Err(String::from_str("unterminated string"));
        }
        if b[j] == 0x22 {
            return Ok(j);
        }
        if b[j] == 0x5C {
            if j + 1 >= n {
                return Err(String::from_str("unterminated escape"));
            }
            j = j + 2;
        } else {
            j = j + 1;
        }
    }
}

/// Where a value that runs from `start` to `e` ends once the whitespace
/// before `e` is left out: after its last byte that is not whitespace.
pub open spec fn ws_back(b: Seq<u8>, start: int, e: int) -> int
    decreases e - start,
{
    if e > start && 0 <= e - 1 < b.len() && is_ws(b[e - 1]) {
        ws_back(b, start, e - 1)
    } else {
        e
    }
}

proof fn lemma_ws_back(b: Seq<u8>, start: int, e: int)
    requires
        0 <= start <= e <= b.len(),
    ensures
        start <= ws_back(b, start, e) <= e,
        forall|k: int| ws_back(b, start, e) <= k < e ==> is_ws(#[trigger] b[k]),
        ws_back(b, start, e) > start ==> !is_ws(b[ws_back(b, start, e) - 1]),
    decreases e - start,
{
    if e > start && is_ws(b[e - 1]) {
        lemma_ws_back(b, start, e - 1);
    }
}

fn trim_back(b: &[u8], start: usize, e: usize) -> (r: usize)
    requires
        start <= e <= b@.len(),
    ensures
        r == ws_back(b@, start as int, e as int),
{
    let mut t = e;
    while t > start && (b[t - 1] == 0x20 || b[t - 1] == 0x0A || b[t - 1] == 0x09 || b[t - 1] == 0x0D)
        invariant
            start <= t <= e <= b@.len(),
            ws_back(b@, start as int, e as int) == ws_back(b@, start as int, t as int),
        decreases t - start,
    {
        t -= 1;
    }
    t
}

/// The text of bytes `from..to` of `src`, which sit between two ASCII bytes.
fn piece_text(src: &str, b: &[u8], from: usize, to: usize) -> (r: String)
    requires
        b@ == src.spec_bytes(),
        1 <= from <= to < b@.len(),
        b@[from - 1] < 0x80,
        b@[to as int] < 0x80,
    ensures
        r@ == decode_utf8(b@.subrange(from as int, to as int)),
{
    proof {
        broadcast use encode_utf8_valid_utf8, encode_utf8_decode_utf8;

        lemma_ascii_boundary(b@, from - 1);
        lemma_boundary_step(b@, from - 1);
        valid_utf8_split(b@, from as int);
        let rest = b@.subrange(from as int, b@.len() as int);
        assert(rest[to - from] == b@[to as int]);
        lemma_ascii_boundary(rest, to - from);
    }
    let (_, rest) = src.split_at(from);
    let (piece, _) = rest.split_at(to - from);
    proof {
        broadcast use encode_utf8_decode_utf8;

        assert(piece.spec_bytes() =~= b@.subrange(from as int, to as int));
    }
    String::from_str(piece)
}

/// Where the value starting at `i` ends: at the comma, or the closing brace
/// or bracket, that follows it outside every nesting. Strings are skipped
/// whole so a brace inside one cannot unbalance the count.
pub open spec fn value_end(b: Seq<u8>, i: int, depth: nat) -> Result<int, Seq<char>>
    decreases b.len() - i,
{
    if i < 0 || i >= b.len() {
        Err("unterminated value"@)
    } else {
        let c = b[i];
        if c == 0x22 {
            match string_end(b, i + 1) {
                Err(m) => Err(m),
                Ok(q) => {
                    proof {
                        lemma_string_end(b, i + 1);
                    }
                    value_end(b, q + 1, depth)
                },
            }
        } else if c == 0x7B || c == 0x5B {
            value_end(b, i + 1, depth + 1)
        } else if c == 0x7D || c == 0x5D {
            if depth > 0 {
                value_end(b, i + 1, (depth - 1) as nat)
            } else {
                Ok(i)
            }
        } else if c == 0x2C && depth == 0 {
            Ok(i)
        } else {
            value_end(b, i + 1, depth)
        }
    }
}

pub proof fn lemma_value_end(b: Seq<u8>, i: int, depth: nat)
    requires
        0 <= i,
    ensures
        value_end(b, i, depth) matches Ok(e) ==> i <= e < b.len() && (b[e] == 0x2C || b[e]
            == 0x7D || b[e] == 0x5D),
    decreases b.len() - i,
{
    if i < 0 || i >= b.len() {
    } else {
        let c = b[i];
        if c == 0x22 {
            lemma_string_end(b, i + 1);
            match string_end(b, i + 1) {
                Err(m) => {},
                Ok(q) => {
                    lemma_value_end(b, q + 1, depth);
                },
            }
        } else if c == 0x7B || c == 0x5B {
            lemma_value_end(b, i + 1, depth + 1);
        } else if c == 0x7D || c == 0x5D {
            if depth > 0 {
                lemma_value_end(b, i + 1, (depth - 1) as nat);
            }
        } else if c == 0x2C && depth == 0 {
        } else {
            lemma_value_end(b, i + 1, depth);
        }
    }
}

/// Advance past one value of any type, tracking nesting.
fn skip_value(b: &[u8], i: usize) -> (r: Result<usize, String>)
    requires
        i <= b@.len(),
    ensures
        match value_end(b@, i as int, 0) {
            Ok(e) => r matches Ok(x) && x == e,
            Err(m) => r matches Err(x) && x@ == m,
        },
{
    let n = b.len();
    let mut j = i;
    let mut depth: usize = 0;
    loop
        invariant
            i <= j,
            depth <= j,
            n == b@.len(),
            value_end(b@, i as int, 0) == value_end(b@, j as int, depth as nat),
        decreases n - j,
    {
        if j >= n {
            return Err(String::from_str("unterminated value"));
        }
        let c = b[j];
        if c == 0x22 {
            proof {
                lemma_string_end(b@, j + 1);
            }
            let q = match read_string(b, j) {
                Ok(q) => q,
                Err(e) => return Err(e),
            };
            j = q + 1;
        } else if c == 0x7B || c == 0x5B {
            depth = depth + 1;
            j = j + 1;
        } else if c == 0x7D || c == 0x5D {
            if depth > 0 {
                depth = depth - 1;
                j = j + 1;
            } else {
                return Ok(j);
            }
        } else if c == 0x2C && depth == 0 {
            return Ok(j);
        } else {
            j = j + 1;
        }
    }
}


// ------------------------------------------------------------ the document

/// One record's fields: key, and value as raw JSON text, in order.
pub type FieldsV = Seq<(Seq<char>, Seq<char>)>;

/// The document: stems and their records, in stem order.
pub type DocV = Seq<(Seq<char>, FieldsV)>;

/// Stems in the order their text sorts: character by character, by code
/// point, a prefix first. It is the order of their UTF-8 bytes, the order
/// `str` compares by.
pub open spec fn key_lt(a: Seq<char>, b: Seq<char>) -> bool
    decreases a.len(),
{
    if a.len() == 0 {
        b.len() > 0
    } else if b.len() == 0 {
        false
    } else if a[0] != b[0] {
        (a[0] as u32) < (b[0] as u32)
    } else {
        key_lt(a.drop_first(), b.drop_first())
    }
}

pub(crate) fn key_less(a: &Vec<char>, b: &Vec<char>) -> (r: bool)
    ensures
        r == key_lt(a@, b@),
{
    let mut i: usize = 0;
    assert(a@.skip(0) =~= a@ && b@.skip(0) =~= b@);
    while i < a.len() && i < b.len() && a[i] == b[i]
        invariant
            0 <= i <= a@.len(),
            i <= b@.len(),
            key_lt(a@, b@) == key_lt(a@.skip(i as int), b@.skip(i as int)),
        decreases a@.len() - i,
    {
        assert(a@.skip(i as int).drop_first() =~= a@.skip(i + 1));
        assert(b@.skip(i as int).drop_first() =~= b@.skip(i + 1));
        i += 1;
    }
    if i == a.len() {
        i < b.len()
    } else if i == b.len() {
        false
    } else {
        assert(a@.skip(i as int)[0] == a@[i as int]);
        assert(b@.skip(i as int)[0] == b@[i as int]);
        (a[i] as u32) < (b[i] as u32)
    }
}

pub(crate) fn chars_eq(a: &Vec<char>, b: &Vec<char>) -> (r: bool)
    ensures
        r == (a@ == b@),
{
    if a.len() != b.len() {
        return false;
    }
    let mut i: usize = 0;
    while i < a.len()
        invariant
            0 <= i <= a@.len() == b@.len(),
            forall|j: int| 0 <= j < i ==> a@[j] == b@[j],
        decreases a@.len() - i,
    {
        if a[i] != b[i] {
            return false;
        }
        i += 1;
    }
    assert(a@ =~= b@);
    true
}

/// `doc` with `k` set to `v`: in place where `k` is already a stem, else at
/// the first stem that sorts after it.
pub open spec fn doc_insert(doc: DocV, k: Seq<char>, v: FieldsV) -> DocV
    decreases doc.len(),
{
    if doc.len() == 0 {
        seq![(k, v)]
    } else if doc[0].0 == k {
        seq![(k, v)] + doc.drop_first()
    } else if key_lt(k, doc[0].0) {
        seq![(k, v)] + doc
    } else {
        seq![doc[0]] + doc_insert(doc.drop_first(), k, v)
    }
}

/// The record of stem `k`, if the document has one, searched for the way
/// `doc_insert` places it: up to the first stem that sorts after it.
pub open spec fn lookup(doc: DocV, k: Seq<char>) -> Option<FieldsV>
    decreases doc.len(),
{
    if doc.len() == 0 {
        None
    } else if doc[0].0 == k {
        Some(doc[0].1)
    } else if key_lt(k, doc[0].0) {
        None
    } else {
        lookup(doc.drop_first(), k)
    }
}

/// An exec document: stems by their characters, and each record's fields.
pub type Doc = Vec<(Vec<char>, Vec<(String, String)>)>;

/// Where `k` goes in `doc`: the index of its entry or of the first stem that
/// sorts after it, and whether the entry is already there.
pub(crate) fn place(doc: &Doc, k: &Vec<char>) -> (r: (usize, bool))
    ensures
        r.0 <= doc@.len(),
        r.1 ==> r.0 < doc@.len() && doc.deep_view()[r.0 as int].0 == k@,
        forall|v: FieldsV|
            #![auto]
            doc_insert(doc.deep_view(), k@, v) == if r.1 {
                doc.deep_view().take(r.0 as int).push((k@, v)) + doc.deep_view().skip(r.0 + 1)
            } else {
                doc.deep_view().take(r.0 as int).push((k@, v)) + doc.deep_view().skip(r.0 as int)
            },
        lookup(doc.deep_view(), k@) == if r.1 {
            Some(doc.deep_view()[r.0 as int].1)
        } else {
            None::<FieldsV>
        },
{
    let ghost d = doc.deep_view();
    let mut p: usize = 0;
    assert(d.skip(0) =~= d);
    assert forall|v: FieldsV| #![auto] doc_insert(d, k@, v) == d.take(0) + doc_insert(d.skip(0), k@, v) by {
        assert(d.take(0) + doc_insert(d.skip(0), k@, v) =~= doc_insert(d, k@, v));
    }
    while p < doc.len()
        invariant
            0 <= p <= doc@.len(),
            d == doc.deep_view(),
            forall|v: FieldsV|
                #![auto]
                doc_insert(d, k@, v) == d.take(p as int) + doc_insert(d.skip(p as int), k@, v),
            lookup(d, k@) == lookup(d.skip(p as int), k@),
        decreases doc@.len() - p,
    {
        assert(d[p as int].0 == doc@[p as int].0@);
        if chars_eq(&doc[p].0, k) {
            assert forall|v: FieldsV| #![auto]
                doc_insert(d, k@, v) == d.take(p as int).push((k@, v)) + d.skip(p + 1) by {
                assert(d.skip(p as int).drop_first() =~= d.skip(p + 1));
                assert(d.take(p as int) + (seq![(k@, v)] + d.skip(p + 1)) =~= d.take(p as int).push(
                    (k@, v),
                ) + d.skip(p + 1));
            }
            return (p, true);
        }
        if key_less(k, &doc[p].0) {
            assert forall|v: FieldsV| #![auto]
                doc_insert(d, k@, v) == d.take(p as int).push((k@, v)) + d.skip(p as int) by {
                assert(d.take(p as int) + (seq![(k@, v)] + d.skip(p as int)) =~= d.take(
                    p as int,
                ).push((k@, v)) + d.skip(p as int));
            }
            return (p, false);
        }
        assert forall|v: FieldsV| #![auto]
            doc_insert(d, k@, v) == d.take(p + 1) + doc_insert(d.skip(p + 1), k@, v) by {
            assert(d.skip(p as int).drop_first() =~= d.skip(p + 1));
            assert(d.take(p as int) + (seq![d[p as int]] + doc_insert(d.skip(p + 1), k@, v))
                =~= d.take(p + 1) + doc_insert(d.skip(p + 1), k@, v));
        }
        assert(d.skip(p as int).drop_first() =~= d.skip(p + 1));
        p += 1;
    }
    assert forall|v: FieldsV| #![auto]
        doc_insert(d, k@, v) == d.take(p as int).push((k@, v)) + d.skip(p as int) by {
        assert(d.skip(p as int) =~= Seq::<(Seq<char>, FieldsV)>::empty());
        assert(d.take(p as int) + seq![(k@, v)] =~= d.take(p as int).push((k@, v)) + d.skip(
            p as int,
        ));
    }
    assert(d.skip(p as int) =~= Seq::<(Seq<char>, FieldsV)>::empty());
    (p, false)
}


/// Set `k` to `v` in `doc`, as `doc_insert` says.
pub(crate) fn doc_put(doc: &mut Doc, k: Vec<char>, v: Vec<(String, String)>)
    ensures
        final(doc).deep_view() == doc_insert(old(doc).deep_view(), k@, v.deep_view()),
{
    let ghost d = doc.deep_view();
    let ghost before = doc@;
    let ghost x = (k, v);
    let (p, found) = place(doc, &k);
    let ghost want = doc_insert(d, k@, v.deep_view());
    assert(x.deep_view() == (k@, v.deep_view()));
    if found {
        doc.remove(p);
        doc.insert(p, (k, v));
        assert(doc@ =~= before.update(p as int, x));
    } else {
        doc.insert(p, (k, v));
        assert(doc@ =~= before.insert(p as int, x));
    }
    assert forall|i: int| 0 <= i < want.len() implies doc.deep_view()[i] == want[i] by {
        if i < p {
            assert(doc@[i] == before[i]);
        } else if i > p {
            if found {
                assert(doc@[i] == before[i]);
            } else {
                assert(doc@[i] == before[i - 1]);
            }
        }
    }
    assert(doc.deep_view() =~= want);
}

pub proof fn lemma_ws_end(b: Seq<u8>, i: int)
    ensures
        ws_end(b, i) >= i,
        0 <= i <= b.len() ==> ws_end(b, i) <= b.len(),
        forall|j: int| i <= j < ws_end(b, i) ==> is_ws(#[trigger] b[j]),
    decreases b.len() - i,
{
    if 0 <= i < b.len() && is_ws(b[i]) {
        lemma_ws_end(b, i + 1);
    }
}

/// In valid UTF-8, the position after an ASCII byte that starts a character
/// starts one too.
pub proof fn lemma_boundary_step(b: Seq<u8>, p: int)
    requires
        valid_utf8(b),
        0 <= p < b.len(),
        is_char_boundary(b, p),
        b[p] < 0x80,
    ensures
        is_char_boundary(b, p + 1),
    decreases b.len(),
{
    let l = length_of_first_scalar(b);
    if p == 0 {
        assert(l == 1);
        assert(is_char_boundary(pop_first_scalar(b), 0));
    } else {
        assert(valid_utf8(pop_first_scalar(b)));
        assert(is_char_boundary(pop_first_scalar(b), p - l));
        assert(1 <= l);
        if p - l < 0 {
            assert(false);
        }
        let t = pop_first_scalar(b);
        assert(t[p - l] == b[p]);
        lemma_boundary_step(t, p - l);
    }
}

/// An ASCII byte of valid UTF-8 starts a character.
pub proof fn lemma_ascii_boundary(b: Seq<u8>, p: int)
    requires
        valid_utf8(b),
        0 <= p < b.len(),
        b[p] < 0x80,
    ensures
        is_char_boundary(b, p),
{
    is_char_boundary_iff_not_is_continuation_byte(b, p);
}

proof fn lemma_ws_boundary(b: Seq<u8>, j: int)
    requires
        valid_utf8(b),
        0 <= j <= b.len(),
        is_char_boundary(b, j),
    ensures
        is_char_boundary(b, ws_end(b, j)),
    decreases b.len() - j,
{
    if 0 <= j < b.len() && is_ws(b[j]) {
        lemma_boundary_step(b, j);
        lemma_ws_boundary(b, j + 1);
    }
}

/// A record's fields from position `i` on, after those in `acc`, and the
/// position after its closing brace.
pub open spec fn fields_from(b: Seq<u8>, i: int, key: Seq<char>, acc: FieldsV) -> Result<
    (FieldsV, int),
    Seq<char>,
>
    decreases b.len() - i,
{
    let i1 = ws_end(b, i);
    if i < 0 || i1 >= b.len() {
        Err("unterminated record"@)
    } else if b[i1] == 0x7D {
        Ok((acc, i1 + 1))
    } else if b[i1] != 0x22 {
        Err(key + ": expected a field, found "@ + char_debug(b[i1] as char))
    } else {
        match string_end(b, i1 + 1) {
            Err(m) => Err(m),
            Ok(q) => {
                let fk = decode_utf8(b.subrange(i1 + 1, q));
                let i2 = ws_end(b, q + 1);
                if i2 >= b.len() || b[i2] != 0x3A {
                    Err(key + "."@ + fk + ": expected ':'"@)
                } else {
                    let start = ws_end(b, i2 + 1);
                    match value_end(b, start, 0) {
                        Err(m) => Err(m),
                        Ok(e) => if e == start {
                            Err(key + "."@ + fk + ": expected a value"@)
                        } else {
                            let i5 = ws_end(b, e);
                            let i6 = if i5 < b.len() && b[i5] == 0x2C {
                                i5 + 1
                            } else {
                                i5
                            };
                            proof {
                                lemma_ws_end(b, i);
                                lemma_string_end(b, i1 + 1);
                                lemma_ws_end(b, q + 1);
                                lemma_ws_end(b, i2 + 1);
                                lemma_value_end(b, start, 0);
                                lemma_ws_end(b, e);
                            }
                            fields_from(
                                b,
                                i6,
                                key,
                                acc.push((fk, decode_utf8(b.subrange(start, ws_back(b, start, e))))),
                            )
                        },
                    }
                }
            },
        }
    }
}

/// The records from position `i` on, set into `doc` one after another.
pub open spec fn entries_from(b: Seq<u8>, i: int, doc: DocV) -> Result<DocV, Seq<char>>
    decreases b.len() - i,
{
    let i1 = ws_end(b, i);
    if i < 0 || i1 >= b.len() {
        Err("unterminated object"@)
    } else if b[i1] == 0x7D {
        Ok(doc)
    } else if b[i1] != 0x22 {
        Err("expected a key, found "@ + char_debug(b[i1] as char))
    } else {
        match string_end(b, i1 + 1) {
            Err(m) => Err(m),
            Ok(q) => {
                let key = decode_utf8(b.subrange(i1 + 1, q));
                let i2 = ws_end(b, q + 1);
                if i2 >= b.len() || b[i2] != 0x3A {
                    Err("expected ':' after "@ + key)
                } else {
                    let i3 = ws_end(b, i2 + 1);
                    if i3 >= b.len() || b[i3] != 0x7B {
                        Err(key + ": expected an object"@)
                    } else {
                        match fields_from(b, i3 + 1, key, Seq::empty()) {
                            Err(m) => Err(m),
                            Ok((fields, i4)) => {
                                let i5 = ws_end(b, i4);
                                let i6 = if i5 < b.len() && b[i5] == 0x2C {
                                    i5 + 1
                                } else {
                                    i5
                                };
                                proof {
                                    lemma_ws_end(b, i);
                                    lemma_string_end(b, i1 + 1);
                                    lemma_ws_end(b, q + 1);
                                    lemma_ws_end(b, i2 + 1);
                                    lemma_fields_from(b, i3 + 1, key, Seq::empty());
                                    lemma_ws_end(b, i4);
                                }
                                entries_from(b, i6, doc_insert(doc, key, fields))
                            },
                        }
                    }
                }
            },
        }
    }
}

pub proof fn lemma_fields_from(b: Seq<u8>, i: int, key: Seq<char>, acc: FieldsV)
    ensures
        fields_from(b, i, key, acc) matches Ok((f, e)) ==> i < e <= b.len(),
    decreases b.len() - i,
{
    let i1 = ws_end(b, i);
    lemma_ws_end(b, i);
    if i < 0 || i1 >= b.len() {
    } else if b[i1] == 0x7D {
    } else if b[i1] != 0x22 {
    } else {
        lemma_string_end(b, i1 + 1);
        match string_end(b, i1 + 1) {
            Err(m) => {},
            Ok(q) => {
                let fk = decode_utf8(b.subrange(i1 + 1, q));
                let i2 = ws_end(b, q + 1);
                lemma_ws_end(b, q + 1);
                if i2 >= b.len() || b[i2] != 0x3A {
                } else {
                    let start = ws_end(b, i2 + 1);
                    lemma_ws_end(b, i2 + 1);
                    lemma_value_end(b, start, 0);
                    match value_end(b, start, 0) {
                        Err(m) => {},
                        Ok(e) => if e != start {
                            let i5 = ws_end(b, e);
                            lemma_ws_end(b, e);
                            let i6 = if i5 < b.len() && b[i5] == 0x2C {
                                i5 + 1
                            } else {
                                i5
                            };
                            lemma_fields_from(
                                b,
                                i6,
                                key,
                                acc.push((fk, decode_utf8(b.subrange(start, ws_back(b, start, e))))),
                            );
                        },
                    }
                }
            },
        }
    }
}

/// What a document's text holds: its records by stem, or why it was refused.
pub open spec fn scan_spec(b: Seq<u8>) -> Result<DocV, Seq<char>> {
    let i = ws_end(b, 0);
    if i >= b.len() || b[i] != 0x7B {
        Err("expected a JSON object at the top level"@)
    } else {
        entries_from(b, i + 1, Seq::empty())
    }
}


/// The raw text of a value: the characters that bytes `start..end` of `src`
/// encode.
fn value_text(src: &str, b: &[u8], i2: usize, start: usize, end: usize) -> (r: String)
    requires
        b@ == src.spec_bytes(),
        i2 < b@.len(),
        b@[i2 as int] == 0x3A,
        start == ws_end(b@, i2 + 1),
        start <= end < b@.len(),
        b@[end as int] < 0x80,
    ensures
        r@ == decode_utf8(b@.subrange(start as int, end as int)),
        encode_utf8(r@) == b@.subrange(start as int, end as int),
{
    proof {
        broadcast use encode_utf8_valid_utf8, encode_utf8_decode_utf8;

        lemma_ascii_boundary(b@, i2 as int);
        lemma_boundary_step(b@, i2 as int);
        lemma_ws_boundary(b@, i2 + 1);
        valid_utf8_split(b@, start as int);
        let rest = b@.subrange(start as int, b@.len() as int);
        assert(rest[end - start] == b@[end as int]);
        lemma_ascii_boundary(rest, end - start);
    }
    let (_, rest) = src.split_at(start);
    let (piece, _) = rest.split_at(end - start);
    proof {
        broadcast use encode_utf8_decode_utf8;

        assert(piece.spec_bytes() =~= b@.subrange(start as int, end as int));
    }
    String::from_str(piece)
}

/// The fields of the record whose opening brace is just before `i`.
fn read_fields(src: &str, b: &[u8], i: usize, key: &String) -> (r: Result<
    (Vec<(String, String)>, usize),
    String,
>)
    requires
        b@ == src.spec_bytes(),
        i <= b@.len(),
    ensures
        match fields_from(b@, i as int, key@, Seq::empty()) {
            Ok((f, e)) => r matches Ok((v, x)) && v.deep_view() == f && x == e,
            Err(m) => r matches Err(x) && x@ == m,
        },
{
    let n = b.len();
    let mut fields: Vec<(String, String)> = Vec::new();
    assert(fields.deep_view() =~= Seq::<(Seq<char>, Seq<char>)>::empty());
    let mut j = i;
    loop
        invariant
            j <= n == b@.len(),
            b@ == src.spec_bytes(),
            fields_from(b@, i as int, key@, Seq::empty()) == fields_from(
                b@,
                j as int,
                key@,
                fields.deep_view(),
            ),
        decreases n - j,
    {
        proof {
            lemma_ws_end(b@, j as int);
        }
        let i1 = skip_ws(b, j);
        if i1 >= n {
            return Err(String::from_str("unterminated record"));
        }
        if b[i1] == 0x7D {
            return Ok((fields, i1 + 1));
        }
        if b[i1] != 0x22 {
            let mut m = String::new();
            m.append(key.as_str());
            m.append(": expected a field, found ");
            let d = debug_char(b[i1] as char);
            m.append(d.as_str());
            return Err(m);
        }
        proof {
            lemma_string_end(b@, i1 + 1);
        }
        let q = match read_string(b, i1) {
            Ok(q) => q,
            Err(e) => return Err(e),
        };
        let fk = piece_text(src, b, i1 + 1, q);
        let i2 = skip_ws(b, q + 1);
        if i2 >= n || b[i2] != 0x3A {
            let mut m = String::new();
            m.append(key.as_str());
            m.append(".");
            m.append(fk.as_str());
            m.append(": expected ':'");
            return Err(m);
        }
        proof {
            lemma_ws_end(b@, i2 + 1);
        }
        let start = skip_ws(b, i2 + 1);
        proof {
            lemma_value_end(b@, start as int, 0);
        }
        let e = match skip_value(b, start) {
            Ok(e) => e,
            Err(m) => return Err(m),
        };
        if e == start {
            let mut m = String::new();
            m.append(key.as_str());
            m.append(".");
            m.append(fk.as_str());
            m.append(": expected a value");
            return Err(m);
        }
        let t = trim_back(b, start, e);
        proof {
            lemma_ws_back(b@, start as int, e as int);
        }
        let v = value_text(src, b, i2, start, t);
        let ghost before = fields.deep_view();
        fields.push((fk, v));
        assert(fields.deep_view() =~= before.push(
            (decode_utf8(b@.subrange(i1 + 1, q as int)), decode_utf8(b@.subrange(start as int, t as int))),
        ));
        let i5 = skip_ws(b, e);
        j = if i5 < n && b[i5] == 0x2C {
            i5 + 1
        } else {
            i5
        };
    }
}

/// A document's records by stem, in stem order.
///
/// A structural scan of `{ "stem": { "key": <value>, … }, … }`: values come
/// back as their source text, without the whitespace that follows them, and
/// are never interpreted, so a key this library has never heard of
/// round-trips byte-exact. Stems and keys are read as UTF-8, and a field with
/// no value is refused. Only enough JSON is understood
/// to find where each value starts and stops. A stem given twice keeps its
/// last record.
fn scan_object(src: &str) -> (r: Result<Doc, String>)
    ensures
        match scan_spec(src.spec_bytes()) {
            Ok(d) => r matches Ok(doc) && doc.deep_view() == d,
            Err(m) => r matches Err(x) && x@ == m,
        },
{
    let b = src.as_bytes();
    let n = b.len();
    let i0 = skip_ws(b, 0);
    if i0 >= n || b[i0] != 0x7B {
        return Err(String::from_str("expected a JSON object at the top level"));
    }
    let mut doc: Doc = Vec::new();
    assert(doc.deep_view() =~= Seq::<(Seq<char>, FieldsV)>::empty());
    let mut j = i0 + 1;
    loop
        invariant
            j <= n == b@.len(),
            b@ == src.spec_bytes(),
            scan_spec(b@) == entries_from(b@, j as int, doc.deep_view()),
        decreases n - j,
    {
        proof {
            lemma_ws_end(b@, j as int);
        }
        let i1 = skip_ws(b, j);
        if i1 >= n {
            return Err(String::from_str("unterminated object"));
        }
        if b[i1] == 0x7D {
            return Ok(doc);
        }
        if b[i1] != 0x22 {
            let mut m = String::from_str("expected a key, found ");
            let d = debug_char(b[i1] as char);
            m.append(d.as_str());
            return Err(m);
        }
        proof {
            lemma_string_end(b@, i1 + 1);
        }
        let q = match read_string(b, i1) {
            Ok(q) => q,
            Err(e) => return Err(e),
        };
        let key = piece_text(src, b, i1 + 1, q);
        let i2 = skip_ws(b, q + 1);
        if i2 >= n || b[i2] != 0x3A {
            let mut m = String::from_str("expected ':' after ");
            m.append(key.as_str());
            return Err(m);
        }
        proof {
            lemma_ws_end(b@, i2 + 1);
        }
        let i3 = skip_ws(b, i2 + 1);
        if i3 >= n || b[i3] != 0x7B {
            let mut m = String::new();
            m.append(key.as_str());
            m.append(": expected an object");
            return Err(m);
        }
        proof {
            lemma_fields_from(b@, i3 + 1, key@, Seq::empty());
        }
        let (fields, i4) = match read_fields(src, b, i3 + 1, &key) {
            Ok(x) => x,
            Err(m) => return Err(m),
        };
        let k = chars_of(key.as_str());
        doc_put(&mut doc, k, fields);
        proof {
            lemma_ws_end(b@, i4 as int);
        }
        let i5 = skip_ws(b, i4);
        j = if i5 < n && b[i5] == 0x2C {
            i5 + 1
        } else {
            i5
        };
    }
}


// --------------------------------------------------------------- the merge

/// The value `fresh` gives key `k`: that of its first entry with the key.
pub open spec fn fresh_value(fresh: FieldsV, k: Seq<char>) -> Option<Seq<char>>
    decreases fresh.len(),
{
    if fresh.len() == 0 {
        None
    } else if fresh[0].0 == k {
        Some(fresh[0].1)
    } else {
        fresh_value(fresh.drop_first(), k)
    }
}

/// The prior fields in their order, each with the fresh value where the
/// fresh read has one.
pub open spec fn overlay(prior: FieldsV, fresh: FieldsV) -> FieldsV {
    Seq::new(
        prior.len(),
        |i: int|
            (
                prior[i].0,
                match fresh_value(fresh, prior[i].0) {
                    Some(v) => v,
                    None => prior[i].1,
                },
            ),
    )
}

pub open spec fn has_key(f: FieldsV, k: Seq<char>) -> bool {
    exists|i: int| 0 <= i < f.len() && #[trigger] f[i].0 == k
}

/// `acc`, then the fresh fields in their order whose key is not there yet.
pub open spec fn append_new(acc: FieldsV, fresh: FieldsV) -> FieldsV
    decreases fresh.len(),
{
    if fresh.len() == 0 {
        acc
    } else {
        let a = append_new(acc, fresh.drop_last());
        if has_key(a, fresh.last().0) {
            a
        } else {
            a.push(fresh.last())
        }
    }
}

/// A record merged with a fresh read of it: every prior key kept, in its
/// place, with the fresh value written over it; then the fresh keys that are
/// new, in the fresh order.
pub open spec fn merge_fields(prior: FieldsV, fresh: FieldsV) -> FieldsV {
    append_new(overlay(prior, fresh), fresh)
}

pub open spec fn record_of(doc: DocV, k: Seq<char>) -> FieldsV {
    match lookup(doc, k) {
        Some(f) => f,
        None => Seq::empty(),
    }
}

/// One fresh record merged into the document.
pub open spec fn merge_step(doc: DocV, stem: Seq<char>, fresh: FieldsV) -> DocV {
    doc_insert(doc, stem, merge_fields(record_of(doc, stem), fresh))
}

/// Every fresh record merged into the document, in order.
pub open spec fn merge_all(doc: DocV, fresh: Seq<(Seq<char>, FieldsV)>) -> DocV
    decreases fresh.len(),
{
    if fresh.len() == 0 {
        doc
    } else {
        merge_step(merge_all(doc, fresh.drop_last()), fresh.last().0, fresh.last().1)
    }
}

fn find_fresh(fresh: &Vec<(&str, String)>, k: &String) -> (r: Option<String>)
    ensures
        match fresh_value(fresh.deep_view(), k@) {
            Some(v) => r matches Some(x) && x@ == v,
            None => r is None,
        },
{
    let ghost f = fresh.deep_view();
    let mut j: usize = 0;
    assert(f.skip(0) =~= f);
    while j < fresh.len()
        invariant
            0 <= j <= fresh@.len(),
            f == fresh.deep_view(),
            fresh_value(f, k@) == fresh_value(f.skip(j as int), k@),
        decreases fresh@.len() - j,
    {
        assert(f.skip(j as int).drop_first() =~= f.skip(j + 1));
        assert(f.skip(j as int)[0] == f[j as int]);
        if crate::text::str_eq(fresh[j].0, k.as_str()) {
            return Some(fresh[j].1.clone());
        }
        j += 1;
    }
    None
}

fn has_field(fields: &Vec<(String, String)>, k: &str) -> (r: bool)
    ensures
        r == has_key(fields.deep_view(), k@),
{
    let ghost f = fields.deep_view();
    let mut j: usize = 0;
    while j < fields.len()
        invariant
            0 <= j <= fields@.len(),
            f == fields.deep_view(),
            forall|i: int| 0 <= i < j ==> f[i].0 != k@,
        decreases fields@.len() - j,
    {
        if crate::text::str_eq(fields[j].0.as_str(), k) {
            assert(f[j as int].0 == k@);
            return true;
        }
        j += 1;
    }
    false
}

/// A record merged with a fresh read of it.
fn merge_fields_exec(prior: Vec<(String, String)>, fresh: &Vec<(&str, String)>) -> (r: Vec<
    (String, String),
>)
    ensures
        r.deep_view() == merge_fields(prior.deep_view(), fresh.deep_view()),
{
    let ghost p = prior.deep_view();
    let ghost f = fresh.deep_view();
    let mut merged: Vec<(String, String)> = Vec::new();
    let mut i: usize = 0;
    while i < prior.len()
        invariant
            0 <= i <= prior@.len(),
            p == prior.deep_view(),
            f == fresh.deep_view(),
            merged.deep_view() == overlay(p, f).take(i as int),
        decreases prior@.len() - i,
    {
        let k = &prior[i].0;
        assert(p[i as int] == (prior@[i as int].0@, prior@[i as int].1@));
        let v = match find_fresh(fresh, k) {
            Some(nv) => nv,
            None => prior[i].1.clone(),
        };
        let ghost before = merged.deep_view();
        let ghost item = (k@, v@);
        assert(item == overlay(p, f)[i as int]);
        merged.push((k.clone(), v));
        assert(merged.deep_view() =~= before.push(item));
        assert(overlay(p, f).take(i + 1) =~= overlay(p, f).take(i as int).push(item));
        i += 1;
    }
    assert(overlay(p, f).take(prior@.len() as int) =~= overlay(p, f));
    let ghost base = merged.deep_view();
    let mut j: usize = 0;
    while j < fresh.len()
        invariant
            0 <= j <= fresh@.len(),
            f == fresh.deep_view(),
            base == overlay(p, f),
            merged.deep_view() == append_new(base, f.take(j as int)),
        decreases fresh@.len() - j,
    {
        let (k, v) = (fresh[j].0, &fresh[j].1);
        assert(f.take(j + 1).drop_last() =~= f.take(j as int));
        if !has_field(&merged, k) {
            let ghost before = merged.deep_view();
            merged.push((String::from_str(k), v.clone()));
            assert(merged.deep_view() =~= before.push(f[j as int]));
        }
        j += 1;
    }
    assert(f.take(fresh@.len() as int) =~= f);
    merged
}

/// Merge one fresh record into the document.
fn merge_one(doc: &mut Doc, stem: &String, fresh: &Vec<(&str, String)>)
    ensures
        final(doc).deep_view() == merge_step(old(doc).deep_view(), stem@, fresh.deep_view()),
{
    let k = chars_of(stem.as_str());
    let (p, found) = place(doc, &k);
    let ghost d = doc.deep_view();
    let prior: Vec<(String, String)> = if found {
        let (_, f) = doc.remove(p);
        proof {
            assert(f.deep_view() == d[p as int].1);
        }
        f
    } else {
        Vec::new()
    };
    assert(prior.deep_view() =~= record_of(d, k@));
    let ghost before = doc@;
    let merged = merge_fields_exec(prior, fresh);
    let ghost x = (k, merged);
    let ghost want = merge_step(d, stem@, fresh.deep_view());
    doc.insert(p, (k, merged));
    assert forall|i: int| 0 <= i < want.len() implies doc.deep_view()[i] == want[i] by {
        if i < p {
            assert(doc@[i] == before[i]);
        } else if i > p {
            assert(doc@[i] == before[i - 1]);
        }
    }
    assert(doc.deep_view() =~= want);
}

// ------------------------------------------------------------ the writing

pub open spec fn field_line(f: (Seq<char>, Seq<char>)) -> Seq<char> {
    "    "@ + quoted(f.0) + ": "@ + f.1
}

/// The field lines of a record, separated by a comma and a line break.
pub open spec fn field_lines(fs: FieldsV) -> Seq<char>
    decreases fs.len(),
{
    if fs.len() == 0 {
        Seq::empty()
    } else if fs.len() == 1 {
        field_line(fs[0])
    } else {
        field_lines(fs.drop_last()) + ",\n"@ + field_line(fs.last())
    }
}

/// One stem and its record, as the document writes them.
pub open spec fn entry_text(k: Seq<char>, fs: FieldsV) -> Seq<char> {
    "  "@ + quoted(k) + ": {\n"@ + field_lines(fs) + "\n  }"@
}

pub open spec fn entries_text(doc: DocV) -> Seq<char>
    decreases doc.len(),
{
    if doc.len() == 0 {
        Seq::empty()
    } else if doc.len() == 1 {
        entry_text(doc[0].0, doc[0].1)
    } else {
        entries_text(doc.drop_last()) + ",\n"@ + entry_text(doc.last().0, doc.last().1)
    }
}

/// The document's text.
pub open spec fn render(doc: DocV) -> Seq<char> {
    "{\n"@ + entries_text(doc) + "\n}\n"@
}

/// Append one stem and its record.
fn write_entry(key: &[char], fields: &Vec<(String, String)>, out: &mut String)
    ensures
        final(out)@ == old(out)@ + entry_text(key@, fields.deep_view()),
{
    let ghost start = out@;
    let ghost f = fields.deep_view();
    out.append("  ");
    escape_chars(key, out);
    out.append(": {\n");
    let ghost head = out@;
    let mut i: usize = 0;
    while i < fields.len()
        invariant
            0 <= i <= fields@.len(),
            f == fields.deep_view(),
            out@ == head + field_lines(f.take(i as int)),
        decreases fields@.len() - i,
    {
        let ghost before = out@;
        assert(f.take(i + 1).drop_last() =~= f.take(i as int));
        if i > 0 {
            out.append(",\n");
        }
        out.append("    ");
        escape(fields[i].0.as_str(), out);
        out.append(": ");
        out.append(fields[i].1.as_str());
        i += 1;
        proof {
            if i == 1 {
                assert(f.take(0) =~= Seq::<(Seq<char>, Seq<char>)>::empty());
                assert(field_lines(f.take(0)) =~= Seq::<char>::empty());
            }
        }
        assert(out@ =~= head + field_lines(f.take(i as int)));
    }
    assert(f.take(fields@.len() as int) =~= f);
    out.append("\n  }");
    assert(out@ =~= start + entry_text(key@, f));
}

/// Write the whole document.
fn write_doc(doc: &Doc) -> (r: String)
    ensures
        r@ == render(doc.deep_view()),
{
    let ghost d = doc.deep_view();
    let mut out = String::from_str("{\n");
    let ghost head = out@;
    let mut i: usize = 0;
    while i < doc.len()
        invariant
            0 <= i <= doc@.len(),
            d == doc.deep_view(),
            out@ == head + entries_text(d.take(i as int)),
        decreases doc@.len() - i,
    {
        assert(d.take(i + 1).drop_last() =~= d.take(i as int));
        assert(d[i as int] == (doc@[i as int].0@, doc@[i as int].1.deep_view()));
        if i > 0 {
            out.append(",\n");
        }
        write_entry(doc[i].0.as_slice(), &doc[i].1, &mut out);
        i += 1;
        proof {
            if i == 1 {
                assert(entries_text(d.take(0)) =~= Seq::<char>::empty());
            }
        }
        assert(out@ =~= head + entries_text(d.take(i as int)));
    }
    assert(d.take(doc@.len() as int) =~= d);
    out.append("\n}\n");
    out
}

/// Merge freshly read records into an existing stem-keyed document.
///
/// `existing` is the document's text; each fresh record is its stem and its
/// fields as raw JSON text. A stem the document holds that no fresh record
/// names is copied through untouched, and a key within a touched stem that
/// the fresh record does not carry is kept. The result lists the stems in
/// their sort order.
pub fn merge_records(existing: &str, fresh_all: &[(String, Vec<(&str, String)>)]) -> (r: Result<
    String,
    String,
>)
    ensures
        match scan_spec(existing.spec_bytes()) {
            Ok(doc) => r matches Ok(out) && out@ == render(
                merge_all(doc, fresh_all.deep_view()),
            ),
            Err(m) => r matches Err(x) && x@ == m,
        },
{
    let mut doc = match scan_object(existing) {
        Ok(d) => d,
        Err(m) => return Err(m),
    };
    let ghost d0 = doc.deep_view();
    let ghost fa = fresh_all.deep_view();
    let mut i: usize = 0;
    while i < fresh_all.len()
        invariant
            0 <= i <= fresh_all@.len(),
            fa == fresh_all.deep_view(),
            doc.deep_view() == merge_all(d0, fa.take(i as int)),
        decreases fresh_all@.len() - i,
    {
        assert(fa.take(i + 1).drop_last() =~= fa.take(i as int));
        merge_one(&mut doc, &fresh_all[i].0, &fresh_all[i].1);
        i += 1;
    }
    assert(fa.take(fresh_all@.len() as int) =~= fa);
    Ok(write_doc(&doc))
}


// ---------------------------------------------------------------- the laws

/// Stems sort strictly: no stem sorts before itself.
pub proof fn lemma_key_lt_irreflexive(a: Seq<char>)
    ensures
        !key_lt(a, a),
    decreases a.len(),
{
    if a.len() > 0 {
        lemma_key_lt_irreflexive(a.drop_first());
    }
}

/// Stem order is transitive.
pub proof fn lemma_key_lt_transitive(a: Seq<char>, b: Seq<char>, c: Seq<char>)
    requires
        key_lt(a, b),
        key_lt(b, c),
    ensures
        key_lt(a, c),
    decreases a.len(),
{
    if a.len() > 0 && b.len() > 0 && c.len() > 0 && a[0] == b[0] && b[0] == c[0] {
        lemma_key_lt_transitive(a.drop_first(), b.drop_first(), c.drop_first());
    }
}

/// Of two different stems, one sorts first.
pub proof fn lemma_key_lt_total(a: Seq<char>, b: Seq<char>)
    requires
        a != b,
    ensures
        key_lt(a, b) || key_lt(b, a),
    decreases a.len(),
{
    if a.len() > 0 && b.len() > 0 && a[0] == b[0] {
        if a.drop_first() == b.drop_first() {
            assert(a =~= seq![a[0]] + a.drop_first());
            assert(b =~= seq![b[0]] + b.drop_first());
        }
        lemma_key_lt_total(a.drop_first(), b.drop_first());
    } else if a.len() > 0 && b.len() > 0 {
        if (a[0] as u32) == (b[0] as u32) {
            char_u32_cast(a[0], a[0] as u32);
            char_u32_cast(b[0], b[0] as u32);
        }
    } else if a.len() == 0 && b.len() == 0 {
        assert(a =~= b);
    }
}

/// Setting a stem changes what that stem looks up to and nothing else.
#[verifier::spinoff_prover]
pub proof fn lemma_lookup_insert(doc: DocV, s: Seq<char>, v: FieldsV, t: Seq<char>)
    ensures
        lookup(doc_insert(doc, s, v), t) == if t == s {
            Some(v)
        } else {
            lookup(doc, t)
        },
    decreases doc.len(),
{
    let n = doc_insert(doc, s, v);
    if doc.len() == 0 {
        assert(n[0] == (s, v));
        assert(n.drop_first() =~= Seq::<(Seq<char>, FieldsV)>::empty());
    } else if doc[0].0 == s {
        assert(n[0] == (s, v));
        assert(n.drop_first() =~= doc.drop_first());
    } else if key_lt(s, doc[0].0) {
        assert(n[0] == (s, v));
        assert(n.drop_first() =~= doc);
        if t != s && key_lt(t, s) {
            lemma_key_lt_transitive(t, s, doc[0].0);
            lemma_key_lt_irreflexive(t);
        }
    } else {
        assert(n[0] == doc[0]);
        assert(n.drop_first() =~= doc_insert(doc.drop_first(), s, v));
        lemma_lookup_insert(doc.drop_first(), s, v, t);
    }
}

/// A stem that no fresh record names passes through the merge untouched.
pub proof fn law_an_unseen_stem_passes_through_untouched(
    doc: DocV,
    fresh: Seq<(Seq<char>, FieldsV)>,
    t: Seq<char>,
)
    requires
        forall|i: int| 0 <= i < fresh.len() ==> (#[trigger] fresh[i]).0 != t,
    ensures
        lookup(merge_all(doc, fresh), t) == lookup(doc, t),
    decreases fresh.len(),
{
    if fresh.len() > 0 {
        let init = fresh.drop_last();
        assert forall|i: int| 0 <= i < init.len() implies (#[trigger] init[i]).0 != t by {
            assert(init[i] == fresh[i]);
        }
        law_an_unseen_stem_passes_through_untouched(doc, init, t);
        let last = fresh.last();
        assert(fresh[fresh.len() - 1].0 != t);
        lemma_lookup_insert(
            merge_all(doc, init),
            last.0,
            merge_fields(record_of(merge_all(doc, init), last.0), last.1),
            t,
        );
    }
}

/// A stem a fresh record names comes out of merging that record as its
/// prior record merged with the fresh one.
pub proof fn law_a_seen_stem_is_merged_with_its_fresh_record(
    doc: DocV,
    stem: Seq<char>,
    fresh: FieldsV,
)
    ensures
        lookup(merge_step(doc, stem, fresh), stem) == Some(
            merge_fields(record_of(doc, stem), fresh),
        ),
{
    lemma_lookup_insert(doc, stem, merge_fields(record_of(doc, stem), fresh), stem);
}

/// Where key `k` first occurs among `f`.
pub open spec fn first_index(f: FieldsV, k: Seq<char>) -> int
    decreases f.len(),
{
    if f.len() == 0 {
        0
    } else if f[0].0 == k {
        0
    } else {
        1 + first_index(f.drop_first(), k)
    }
}

proof fn lemma_fresh_value(f: FieldsV, k: Seq<char>)
    ensures
        has_key(f, k) <==> fresh_value(f, k) is Some,
        has_key(f, k) ==> 0 <= first_index(f, k) < f.len() && f[first_index(f, k)].0 == k
            && fresh_value(f, k) == Some(f[first_index(f, k)].1) && forall|j: int|
            0 <= j < first_index(f, k) ==> (#[trigger] f[j]).0 != k,
    decreases f.len(),
{
    if f.len() > 0 {
        let t = f.drop_first();
        lemma_fresh_value(t, k);
        if f[0].0 != k {
            if has_key(f, k) {
                let i = choose|i: int| 0 <= i < f.len() && #[trigger] f[i].0 == k;
                assert(t[i - 1].0 == k);
            }
            if has_key(t, k) {
                let i = choose|i: int| 0 <= i < t.len() && #[trigger] t[i].0 == k;
                assert(f[i + 1].0 == k);
                assert forall|j: int| 0 <= j < first_index(f, k) implies (#[trigger] f[j]).0 != k by {
                    if j > 0 {
                        assert(f[j] == t[j - 1]);
                    }
                }
            }
        } else {
            assert(f[0].0 == k);
        }
    }
}

proof fn lemma_first_index_init(f: FieldsV, k: Seq<char>)
    requires
        f.len() > 0,
        has_key(f.drop_last(), k),
    ensures
        first_index(f, k) == first_index(f.drop_last(), k),
        fresh_value(f, k) == fresh_value(f.drop_last(), k),
    decreases f.len(),
{
    let init = f.drop_last();
    if f[0].0 != k {
        let i = choose|i: int| 0 <= i < init.len() && #[trigger] init[i].0 == k;
        assert(i > 0);
        assert(f.drop_first().drop_last() =~= init.drop_first());
        assert(init.drop_first()[i - 1].0 == k);
        lemma_first_index_init(f.drop_first(), k);
    } else {
        assert(init[0] == f[0]);
    }
}

/// What `append_new` keeps and adds.
proof fn lemma_append_new(acc: FieldsV, f: FieldsV)
    ensures
        append_new(acc, f).len() >= acc.len(),
        append_new(acc, f).take(acc.len() as int) == acc,
        forall|j: int| 0 <= j < f.len() ==> has_key(append_new(acc, f), (#[trigger] f[j]).0),
        forall|i: int|
            acc.len() <= i < append_new(acc, f).len() ==> !has_key(
                acc,
                (#[trigger] append_new(acc, f)[i]).0,
            ) && has_key(f, append_new(acc, f)[i].0) && append_new(acc, f)[i] == f[first_index(
                f,
                append_new(acc, f)[i].0,
            )],
        forall|i1: int, i2: int|
            acc.len() <= i1 < i2 < append_new(acc, f).len() ==> first_index(
                f,
                (#[trigger] append_new(acc, f)[i1]).0,
            ) < first_index(f, (#[trigger] append_new(acc, f)[i2]).0),
        forall|k: Seq<char>| #[trigger]
            has_key(append_new(acc, f), k) ==> has_key(acc, k) || has_key(f, k),
    decreases f.len(),
{
    let m = append_new(acc, f);
    if f.len() == 0 {
        assert(m.take(acc.len() as int) =~= acc);
    } else {
        let init = f.drop_last();
        let last = f.last();
        let a = append_new(acc, init);
        lemma_append_new(acc, init);
        // Keys that were in `init` keep their first index in `f`.
        assert forall|k: Seq<char>| has_key(init, k) implies first_index(f, k) == first_index(
            init,
            k,
        ) && fresh_value(f, k) == fresh_value(init, k) by {
            lemma_first_index_init(f, k);
        }
        assert forall|k: Seq<char>| has_key(init, k) implies #[trigger] has_key(f, k) by {
            let i = choose|i: int| 0 <= i < init.len() && #[trigger] init[i].0 == k;
            assert(f[i].0 == k);
        }
        if !has_key(a, last.0) {
            // `last`'s key is new: its first index is the last position.
            assert(!has_key(init, last.0));
            lemma_fresh_value(init, last.0);
            lemma_fresh_value(f, last.0);
            assert(has_key(f, last.0)) by {
                assert(f[f.len() - 1].0 == last.0);
            }
            assert(first_index(f, last.0) == f.len() - 1) by {
                let fi = first_index(f, last.0);
                if fi < f.len() - 1 {
                    assert(init[fi].0 == last.0);
                }
            }
            assert(m == a.push(last));
            assert(m.take(acc.len() as int) =~= a.take(acc.len() as int));
            assert forall|j: int| 0 <= j < f.len() implies has_key(m, (#[trigger] f[j]).0) by {
                if j < init.len() {
                    assert(init[j] == f[j]);
                    let i = choose|i: int| 0 <= i < a.len() && #[trigger] a[i].0 == f[j].0;
                    assert(m[i] == a[i]);
                } else {
                    assert(m[a.len() as int] == last);
                }
            }
            assert forall|i: int| acc.len() <= i < m.len() implies !has_key(
                acc,
                (#[trigger] m[i]).0,
            ) && has_key(f, m[i].0) && m[i] == f[first_index(f, m[i].0)] by {
                if i < a.len() {
                    assert(m[i] == a[i]);
                    let k = a[i].0;
                    assert(has_key(init, k));
                    lemma_fresh_value(init, k);
                    lemma_first_index_init(f, k);
                    let fi = first_index(init, k);
                    assert(a[i] == init[fi]);
                    assert(init[fi] == f[fi]);
                    assert(has_key(f, k));
                } else {
                    assert(m[i] == last);
                    assert(f[f.len() - 1] == last);
                    if has_key(acc, last.0) {
                        let j = choose|j: int| 0 <= j < acc.len() && #[trigger] acc[j].0 == last.0;
                        assert(a.take(acc.len() as int)[j] == a[j]);
                        assert(a[j].0 == last.0);
                    }
                }
            }
            assert forall|i1: int, i2: int|
                acc.len() <= i1 < i2 < m.len() implies first_index(f, (#[trigger] m[i1]).0)
                < first_index(f, (#[trigger] m[i2]).0) by {
                assert(m[i1] == a[i1]);
                assert(has_key(init, a[i1].0));
                lemma_fresh_value(init, a[i1].0);
                if i2 < a.len() {
                    assert(m[i2] == a[i2]);
                    assert(has_key(init, a[i2].0));
                }
            }
            assert forall|k: Seq<char>| #[trigger] has_key(m, k) implies has_key(acc, k)
                || has_key(f, k) by {
                let i = choose|i: int| 0 <= i < m.len() && #[trigger] m[i].0 == k;
                if i < a.len() {
                    assert(m[i] == a[i]);
                    assert(has_key(a, k));
                } else {
                    assert(f[f.len() - 1].0 == k);
                }
            }
        } else {
            assert(m == a);
            assert forall|j: int| 0 <= j < f.len() implies has_key(m, (#[trigger] f[j]).0) by {
                if j < init.len() {
                    assert(init[j] == f[j]);
                }
            }
            assert forall|i: int| acc.len() <= i < m.len() implies !has_key(
                acc,
                (#[trigger] m[i]).0,
            ) && has_key(f, m[i].0) && m[i] == f[first_index(f, m[i].0)] by {
                assert(m[i] == a[i]);
                let k = a[i].0;
                assert(!has_key(acc, k));
                assert(has_key(init, k));
                lemma_fresh_value(init, k);
                lemma_first_index_init(f, k);
                let fi = first_index(init, k);
                assert(0 <= fi < init.len());
                assert(a[i] == init[fi]);
                assert(first_index(f, k) == fi);
                assert(init[fi] == f[fi]);
                assert(has_key(f, k));
            }
            assert forall|i1: int, i2: int|
                acc.len() <= i1 < i2 < m.len() implies first_index(f, (#[trigger] m[i1]).0)
                < first_index(f, (#[trigger] m[i2]).0) by {
                assert(has_key(init, a[i1].0));
                assert(has_key(init, a[i2].0));
            }
            assert forall|k: Seq<char>| #[trigger] has_key(m, k) implies has_key(acc, k)
                || has_key(f, k) by {
                if has_key(a, k) {
                }
            }
        }
    }
}

/// The merge of one record keeps every prior key, in its place and in its
/// order; a key the fresh read carries takes the fresh value, and one it does
/// not keeps its value as it was; every fresh key lands in the result; and
/// the keys that are new come after the prior ones, in the order the fresh
/// read gives them, each with its fresh value.
pub proof fn law_a_merge_keeps_prior_keys_and_writes_fresh_values_over_them(
    prior: FieldsV,
    fresh: FieldsV,
)
    ensures
        merge_fields(prior, fresh).len() >= prior.len(),
        forall|i: int|
            0 <= i < prior.len() ==> (#[trigger] merge_fields(prior, fresh)[i]).0 == prior[i].0,
        forall|i: int|
            0 <= i < prior.len() && !has_key(fresh, prior[i].0) ==> (#[trigger] merge_fields(
                prior,
                fresh,
            )[i]).1 == prior[i].1,
        forall|i: int|
            0 <= i < prior.len() && has_key(fresh, prior[i].0) ==> Some(
                (#[trigger] merge_fields(prior, fresh)[i]).1,
            ) == fresh_value(fresh, prior[i].0),
        forall|j: int|
            0 <= j < fresh.len() ==> has_key(merge_fields(prior, fresh), (#[trigger] fresh[j]).0),
        forall|i: int|
            prior.len() <= i < merge_fields(prior, fresh).len() ==> !has_key(
                prior,
                (#[trigger] merge_fields(prior, fresh)[i]).0,
            ) && Some(merge_fields(prior, fresh)[i].1) == fresh_value(
                fresh,
                merge_fields(prior, fresh)[i].0,
            ),
        forall|i1: int, i2: int|
            prior.len() <= i1 < i2 < merge_fields(prior, fresh).len() ==> first_index(
                fresh,
                (#[trigger] merge_fields(prior, fresh)[i1]).0,
            ) < first_index(fresh, (#[trigger] merge_fields(prior, fresh)[i2]).0),
{
    let o = overlay(prior, fresh);
    let m = merge_fields(prior, fresh);
    lemma_append_new(o, fresh);
    assert forall|i: int| 0 <= i < prior.len() implies m[i] == o[i] by {
        assert(m.take(o.len() as int)[i] == o[i]);
    }
    assert forall|i: int| 0 <= i < prior.len() implies (#[trigger] m[i]).0 == prior[i].0 && (
    !has_key(fresh, prior[i].0) ==> m[i].1 == prior[i].1) && (has_key(fresh, prior[i].0) ==> Some(
        m[i].1,
    ) == fresh_value(fresh, prior[i].0)) by {
        assert(m[i] == o[i]);
        lemma_fresh_value(fresh, prior[i].0);
    }
    assert forall|i: int| prior.len() <= i < m.len() implies !has_key(prior, (#[trigger] m[i]).0)
        && Some(m[i].1) == fresh_value(fresh, m[i].0) by {
        if has_key(prior, m[i].0) {
            let j = choose|j: int| 0 <= j < prior.len() && #[trigger] prior[j].0 == m[i].0;
            assert(o[j].0 == m[i].0);
        }
        lemma_fresh_value(fresh, m[i].0);
    }
}

/// A record with no key twice.
pub open spec fn distinct_keys(f: FieldsV) -> bool {
    forall|i: int, j: int| 0 <= i < j < f.len() ==> (#[trigger] f[i]).0 != (#[trigger] f[j]).0
}

proof fn lemma_append_new_distinct(f: FieldsV)
    requires
        distinct_keys(f),
    ensures
        append_new(Seq::empty(), f) == f,
    decreases f.len(),
{
    if f.len() > 0 {
        let init = f.drop_last();
        assert(distinct_keys(init)) by {
            assert forall|i: int, j: int| 0 <= i < j < init.len() implies (#[trigger] init[i]).0
                != (#[trigger] init[j]).0 by {
                assert(init[i] == f[i] && init[j] == f[j]);
            }
        }
        lemma_append_new_distinct(init);
        if has_key(init, f.last().0) {
            let i = choose|i: int| 0 <= i < init.len() && #[trigger] init[i].0 == f.last().0;
            assert(f[i].0 == f[f.len() - 1].0);
        }
        assert(init.push(f.last()) =~= f);
    }
}

/// On a first run there is nothing to preserve: merging fresh records with
/// different stems, none with a key twice, into an empty document gives each
/// stem exactly its fresh record.
pub proof fn law_a_first_run_gives_the_fresh_records(fresh: Seq<(Seq<char>, FieldsV)>)
    requires
        forall|i: int, j: int|
            0 <= i < j < fresh.len() ==> (#[trigger] fresh[i]).0 != (#[trigger] fresh[j]).0,
        forall|i: int| 0 <= i < fresh.len() ==> distinct_keys(#[trigger] fresh[i].1),
    ensures
        forall|i: int|
            0 <= i < fresh.len() ==> lookup(merge_all(Seq::empty(), fresh), (#[trigger] fresh[i]).0)
                == Some(fresh[i].1),
    decreases fresh.len(),
{
    if fresh.len() > 0 {
        let init = fresh.drop_last();
        let last = fresh.last();
        assert forall|i: int, j: int| 0 <= i < j < init.len() implies (#[trigger] init[i]).0 != (
        #[trigger] init[j]).0 by {
            assert(init[i] == fresh[i] && init[j] == fresh[j]);
        }
        assert forall|i: int| 0 <= i < init.len() implies distinct_keys(#[trigger] init[i].1) by {
            assert(init[i] == fresh[i]);
        }
        law_a_first_run_gives_the_fresh_records(init);
        let prev = merge_all(Seq::empty(), init);
        assert forall|i: int| 0 <= i < init.len() implies (#[trigger] init[i]).0 != last.0 by {
            assert(init[i] == fresh[i]);
            assert(fresh[fresh.len() - 1] == last);
        }
        law_an_unseen_stem_passes_through_untouched(Seq::empty(), init, last.0);
        assert(record_of(prev, last.0) == Seq::<(Seq<char>, Seq<char>)>::empty());
        assert(distinct_keys(fresh[fresh.len() - 1].1));
        lemma_append_new_distinct(last.1);
        assert(overlay(Seq::empty(), last.1) =~= Seq::<(Seq<char>, Seq<char>)>::empty());
        assert forall|i: int| 0 <= i < fresh.len() implies lookup(
            merge_all(Seq::empty(), fresh),
            (#[trigger] fresh[i]).0,
        ) == Some(fresh[i].1) by {
            lemma_lookup_insert(
                prev,
                last.0,
                merge_fields(record_of(prev, last.0), last.1),
                fresh[i].0,
            );
            if i < init.len() {
                assert(init[i] == fresh[i]);
                assert(fresh[i].0 != last.0);
            }
        }
    }
}

/// Stems strictly in order.
pub open spec fn sorted(doc: DocV) -> bool {
    forall|i: int, j: int| 0 <= i < j < doc.len() ==> key_lt((#[trigger] doc[i]).0, (#[trigger] doc[j]).0)
}

proof fn lemma_insert_sorted(doc: DocV, s: Seq<char>, v: FieldsV)
    requires
        sorted(doc),
    ensures
        sorted(doc_insert(doc, s, v)),
        forall|i: int|
            0 <= i < doc_insert(doc, s, v).len() ==> (#[trigger] doc_insert(doc, s, v)[i]).0 == s
                || exists|j: int| 0 <= j < doc.len() && doc[j].0 == doc_insert(doc, s, v)[i].0,
    decreases doc.len(),
{
    let n = doc_insert(doc, s, v);
    if doc.len() == 0 {
    } else if doc[0].0 == s {
        assert forall|i: int, j: int| 0 <= i < j < n.len() implies key_lt((#[trigger] n[i]).0, (
        #[trigger] n[j]).0) by {
            assert(n[j] == doc[j]);
            if i > 0 {
                assert(n[i] == doc[i]);
            }
        }
        assert forall|i: int| 0 <= i < n.len() implies (#[trigger] n[i]).0 == s || exists|j: int|
            0 <= j < doc.len() && doc[j].0 == n[i].0 by {
            if i > 0 {
                assert(n[i] == doc[i]);
            }
        }
    } else if key_lt(s, doc[0].0) {
        assert forall|i: int, j: int| 0 <= i < j < n.len() implies key_lt((#[trigger] n[i]).0, (
        #[trigger] n[j]).0) by {
            assert(n[j] == doc[j - 1]);
            if i > 0 {
                assert(n[i] == doc[i - 1]);
            } else if j > 1 {
                lemma_key_lt_transitive(s, doc[0].0, doc[j - 1].0);
            }
        }
        assert forall|i: int| 0 <= i < n.len() implies (#[trigger] n[i]).0 == s || exists|j: int|
            0 <= j < doc.len() && doc[j].0 == n[i].0 by {
            if i > 0 {
                assert(n[i] == doc[i - 1]);
            }
        }
    } else {
        let t = doc.drop_first();
        assert(sorted(t)) by {
            assert forall|i: int, j: int| 0 <= i < j < t.len() implies key_lt((#[trigger] t[i]).0, (
            #[trigger] t[j]).0) by {
                assert(t[i] == doc[i + 1] && t[j] == doc[j + 1]);
            }
        }
        lemma_insert_sorted(t, s, v);
        let r = doc_insert(t, s, v);
        assert(n == seq![doc[0]] + r);
        lemma_key_lt_total(s, doc[0].0);
        assert forall|i: int, j: int| 0 <= i < j < n.len() implies key_lt((#[trigger] n[i]).0, (
        #[trigger] n[j]).0) by {
            assert(n[j] == r[j - 1]);
            if i > 0 {
                assert(n[i] == r[i - 1]);
            } else {
                if r[j - 1].0 != s {
                    let jj = choose|jj: int| 0 <= jj < t.len() && t[jj].0 == r[j - 1].0;
                    assert(t[jj] == doc[jj + 1]);
                }
            }
        }
        assert forall|i: int| 0 <= i < n.len() implies (#[trigger] n[i]).0 == s || exists|j: int|
            0 <= j < doc.len() && doc[j].0 == n[i].0 by {
            if i > 0 {
                assert(n[i] == r[i - 1]);
                if r[i - 1].0 != s {
                    let jj = choose|jj: int| 0 <= jj < t.len() && t[jj].0 == r[i - 1].0;
                    assert(t[jj] == doc[jj + 1]);
                }
            } else {
                assert(doc[0].0 == n[0].0);
            }
        }
    }
}

/// Merging keeps a document in stem order.
pub proof fn law_merging_keeps_the_stems_in_order(doc: DocV, fresh: Seq<(Seq<char>, FieldsV)>)
    requires
        sorted(doc),
    ensures
        sorted(merge_all(doc, fresh)),
    decreases fresh.len(),
{
    if fresh.len() > 0 {
        law_merging_keeps_the_stems_in_order(doc, fresh.drop_last());
        let prev = merge_all(doc, fresh.drop_last());
        lemma_insert_sorted(
            prev,
            fresh.last().0,
            merge_fields(record_of(prev, fresh.last().0), fresh.last().1),
        );
    }
}

proof fn lemma_entries_sorted(b: Seq<u8>, i: int, doc: DocV)
    requires
        sorted(doc),
    ensures
        entries_from(b, i, doc) matches Ok(d) ==> sorted(d),
    decreases b.len() - i,
{
    let i1 = ws_end(b, i);
    if i < 0 || i1 >= b.len() {
    } else if b[i1] == 0x7D {
    } else if b[i1] != 0x22 {
    } else {
        match string_end(b, i1 + 1) {
            Err(m) => {},
            Ok(q) => {
                let key = decode_utf8(b.subrange(i1 + 1, q));
                let i2 = ws_end(b, q + 1);
                if i2 >= b.len() || b[i2] != 0x3A {
                } else {
                    let i3 = ws_end(b, i2 + 1);
                    if i3 >= b.len() || b[i3] != 0x7B {
                    } else {
                        match fields_from(b, i3 + 1, key, Seq::empty()) {
                            Err(m) => {},
                            Ok((fields, i4)) => {
                                let i5 = ws_end(b, i4);
                                let i6 = if i5 < b.len() && b[i5] == 0x2C {
                                    i5 + 1
                                } else {
                                    i5
                                };
                                lemma_ws_end(b, i);
                                lemma_string_end(b, i1 + 1);
                                lemma_ws_end(b, q + 1);
                                lemma_ws_end(b, i2 + 1);
                                lemma_fields_from(b, i3 + 1, key, Seq::empty());
                                lemma_ws_end(b, i4);
                                lemma_insert_sorted(doc, key, fields);
                                lemma_entries_sorted(b, i6, doc_insert(doc, key, fields));
                            },
                        }
                    }
                }
            },
        }
    }
}

/// A document as read is in stem order, however its text ordered them.
pub proof fn law_a_read_document_is_in_stem_order(b: Seq<u8>)
    ensures
        scan_spec(b) matches Ok(d) ==> sorted(d),
{
    let i = ws_end(b, 0);
    if i >= b.len() || b[i] != 0x7B {
    } else {
        lemma_entries_sorted(b, i + 1, Seq::empty());
    }
}


// ------------------------------------------------------- the recipe card
//
// What the photographer set, not what the sensor wrote: "Standard" is not a
// dynamic range, "Soft" is not a sharpness, and "Red +40, Blue -100" is not
// how anyone writes a white-balance shift. Fujifilm stores the tone knobs as
// internal codes, and the setting number is the leading token of their
// printed form ("-1 (medium soft)"), so that is what is read.

/// How many ASCII digits `s` opens with.
pub open spec fn digit_run(s: Seq<char>) -> nat
    decreases s.len(),
{
    if s.len() > 0 && is_digit(s[0]) {
        1 + digit_run(s.drop_first())
    } else {
        0
    }
}

/// The number that ASCII digits spell.
pub open spec fn dec_value(s: Seq<char>) -> nat
    decreases s.len(),
{
    if s.len() == 0 {
        0
    } else {
        dec_value(s.drop_last()) * 10 + ((s.last() as u32) - 48) as nat
    }
}

/// The leading signed integer of a printed setting: "-1 (medium soft)" is
/// -1, "+3 (very high)" is 3, and "Strong" has none. Leading and trailing
/// whitespace is ignored; digits past what an `i64` holds give none.
pub open spec fn leading_num_spec(s: Seq<char>) -> Option<i64> {
    let t = trim(s);
    let neg = t.len() > 0 && t[0] == '-';
    let rest = if t.len() > 0 && (t[0] == '-' || t[0] == '+') {
        t.drop_first()
    } else {
        t
    };
    let d = rest.take(digit_run(rest) as int);
    if d.len() == 0 || dec_value(d) > i64::MAX {
        None
    } else if neg {
        Some((-dec_value(d)) as i64)
    } else {
        Some(dec_value(d) as i64)
    }
}

proof fn lemma_digit_run(s: Seq<char>)
    ensures
        digit_run(s) <= s.len(),
        forall|i: int| 0 <= i < digit_run(s) ==> is_digit(#[trigger] s[i]),
        digit_run(s) < s.len() ==> !is_digit(s[digit_run(s) as int]),
    decreases s.len(),
{
    if s.len() > 0 && is_digit(s[0]) {
        lemma_digit_run(s.drop_first());
        assert forall|i: int| 0 <= i < digit_run(s) implies is_digit(#[trigger] s[i]) by {
            if i > 0 {
                assert(s[i] == s.drop_first()[i - 1]);
            }
        }
    }
}

proof fn lemma_dec_value_mono(s: Seq<char>, k: int)
    requires
        0 <= k <= s.len(),
        forall|i: int| 0 <= i < s.len() ==> is_digit(#[trigger] s[i]),
    ensures
        dec_value(s.take(k)) <= dec_value(s),
    decreases s.len() - k,
{
    if k < s.len() {
        lemma_dec_value_mono(s, k + 1);
        assert(s.take(k + 1).drop_last() =~= s.take(k));
    } else {
        assert(s.take(k) =~= s);
    }
}

/// The leading signed integer of a printed setting.
pub fn leading_num(s: &str) -> (r: Option<i64>)
    ensures
        r == leading_num_spec(s@),
{
    let t = chars_of(trimmed(s));
    let n = t.len();
    let neg = n > 0 && t[0] == '-';
    let from: usize = if n > 0 && (t[0] == '-' || t[0] == '+') {
        1
    } else {
        0
    };
    let ghost rest = t@.skip(from as int);
    assert(rest =~= if t@.len() > 0 && (t@[0] == '-' || t@[0] == '+') {
        t@.drop_first()
    } else {
        t@
    });
    proof {
        lemma_digit_run(rest);
    }
    let ghost run = digit_run(rest) as int;
    let mut v: u64 = 0;
    let mut i = from;
    while i < n && '0' <= t[i] && t[i] <= '9'
        invariant
            from <= i <= n == t@.len(),
            t@ == trim(s@),
            rest == t@.skip(from as int),
            rest == if t@.len() > 0 && (t@[0] == '-' || t@[0] == '+') {
                t@.drop_first()
            } else {
                t@
            },
            run == digit_run(rest),
            run <= rest.len(),
            i - from <= run,
            forall|j: int| 0 <= j < run ==> is_digit(#[trigger] rest[j]),
            run < rest.len() ==> !is_digit(rest[run]),
            v == dec_value(rest.take(i - from)),
            v <= i64::MAX,
        decreases n - i,
    {
        assert(rest[i - from] == t@[i as int]);
        let d = (t[i] as u32 - 48) as u64;
        assert(rest.take(i - from + 1).drop_last() =~= rest.take(i - from));
        if v > (9223372036854775807u64 - d) / 10 {
            // Past what an i64 holds: the whole run is too.
            proof {
                assert(i - from < run) by {
                    if i - from >= run {
                        assert(run == i - from);
                        assert(!is_digit(rest[run]));
                    }
                }
                let digits = rest.take(run);
                assert forall|j: int| 0 <= j < digits.len() implies is_digit(#[trigger] digits[j]) by {
                    assert(digits[j] == rest[j]);
                }
                lemma_dec_value_mono(digits, i - from + 1);
                assert(digits.take(i - from + 1) =~= rest.take(i - from + 1));
                let x = rest.take(i - from + 1);
                assert(x.last() == t@[i as int]);
                assert(dec_value(x) == dec_value(x.drop_last()) * 10 + ((x.last() as u32) - 48) as nat);
                assert(dec_value(x) == v * 10 + d);
                assert(d <= 9);
                assert(v * 10 + d > 9223372036854775807) by (nonlinear_arith)
                    requires
                        v > (9223372036854775807u64 - d) / 10,
                        d <= 9,
                ;
                assert(dec_value(digits) > i64::MAX);
                assert(t@ == trim(s@));
                assert(leading_num_spec(s@) is None);
            }
            return None;
        }
        v = v * 10 + d;
        i += 1;
    }
    assert(i - from == run) by {
        if i - from < run {
            assert(is_digit(rest[i - from]));
            assert(rest[i - from] == t@[i as int]);
        }
    }
    if i == from {
        return None;
    }
    if neg {
        Some(-(v as i64))
    } else {
        Some(v as i64)
    }
}

/// A card number always shows its sign: 0 is "0", 2 is "+2".
pub open spec fn signed_text(n: i64) -> Seq<char> {
    if n > 0 {
        seq!['+'] + dec_int(n as int)
    } else {
        dec_int(n as int)
    }
}

/// A card number, with its sign.
pub fn signed(n: i64) -> (r: String)
    ensures
        r@ == signed_text(n),
{
    if n > 0 {
        let mut s = String::from_str("+");
        proof {
            reveal_strlit("+");
        }
        let d = int_string(n);
        s.append(d.as_str());
        s
    } else {
        int_string(n)
    }
}


proof fn lemma_dec_nat_reads_back(m: nat)
    ensures
        dec_nat(m).len() > 0,
        forall|i: int| 0 <= i < dec_nat(m).len() ==> is_digit(#[trigger] dec_nat(m)[i]),
        dec_value(dec_nat(m)) == m,
    decreases m,
{
    let d = m % 10;
    assert(digit(d) as u32 == 48 + d);
    if m < 10 {
        let s = dec_nat(m);
        assert(s.drop_last() =~= Seq::<char>::empty());
        assert(s.last() == digit(d));
        assert(dec_value(s) == dec_value(s.drop_last()) * 10 + ((s.last() as u32) - 48) as nat);
    } else {
        lemma_dec_nat_reads_back(m / 10);
        let s = dec_nat(m);
        assert(s.drop_last() =~= dec_nat(m / 10));
        assert(s.last() == digit(d));
        assert(dec_value(s) == dec_value(s.drop_last()) * 10 + ((s.last() as u32) - 48) as nat);
        assert(dec_value(s) == (m / 10) * 10 + d);
        assert forall|i: int| 0 <= i < s.len() implies is_digit(#[trigger] s[i]) by {
            if i < s.len() - 1 {
                assert(s[i] == dec_nat(m / 10)[i]);
            }
        }
    }
}

proof fn lemma_digit_run_stops(ds: Seq<char>, note: Seq<char>)
    requires
        forall|i: int| 0 <= i < ds.len() ==> is_digit(#[trigger] ds[i]),
        note.len() == 0 || !is_digit(note[0]),
    ensures
        digit_run(ds + note) == ds.len(),
    decreases ds.len(),
{
    if ds.len() > 0 {
        assert((ds + note).drop_first() =~= ds.drop_first() + note);
        assert(is_digit(ds[0]));
        lemma_digit_run_stops(ds.drop_first(), note);
    } else {
        assert(ds + note =~= note);
    }
}

/// A card number reads back: the leading number of its signed text, alone
/// or followed by a space and a note, is the number. (The least `i64` has
/// no positive counterpart, so its text reads as none.)
pub proof fn law_signed_reads_back(n: i64, note: Seq<char>)
    requires
        n != i64::MIN,
        note.len() == 0 || (note[0] == ' ' && !is_white_space(note.last())),
    ensures
        leading_num_spec(signed_text(n) + note) == Some(n),
{
    let m: nat = if n < 0 { (-n) as nat } else { n as nat };
    lemma_dec_nat_reads_back(m);
    let ds = dec_nat(m);
    let s = signed_text(n) + note;
    let head: Seq<char> = if n > 0 { seq!['+'] } else if n < 0 { seq!['-'] } else { Seq::empty() };
    assert(signed_text(n) =~= head + ds);
    assert(s =~= head + (ds + note));
    assert(s[0] == head[0] || s[0] == ds[0]);
    assert(!is_white_space(s[0]));
    assert(trim_start(s) == s);
    if note.len() == 0 {
        assert(s.last() == ds.last());
    } else {
        assert(s.last() == note.last());
    }
    assert(trim_end(s) == s);
    assert(trim(s) == s);
    let rest = if n != 0 { s.drop_first() } else { s };
    assert(rest =~= ds + note);
    lemma_digit_run_stops(ds, note);
    assert(rest.take(ds.len() as int) =~= ds);
}

/// Where `c` first occurs in `s`.
pub open spec fn index_of(s: Seq<char>, c: char) -> Option<int>
    decreases s.len(),
{
    if s.len() == 0 {
        None
    } else if s[0] == c {
        Some(0)
    } else {
        match index_of(s.drop_first(), c) {
            Some(i) => Some(i + 1),
            None => None,
        }
    }
}

/// Where the pair `a b` first occurs in `s`.
pub open spec fn index_of_pair(s: Seq<char>, a: char, b: char) -> Option<int>
    decreases s.len(),
{
    if s.len() < 2 {
        None
    } else if s[0] == a && s[1] == b {
        Some(0)
    } else {
        match index_of_pair(s.drop_first(), a, b) {
            Some(i) => Some(i + 1),
            None => None,
        }
    }
}

/// "F0/Standard (Provia)" becomes "Provia/Standard": the name in brackets,
/// a slash, then what follows the first slash up to the next slash or " (".
/// A name with no bracket or no slash passes through.
pub open spec fn film_name_spec(raw: Seq<char>) -> Seq<char> {
    match (index_of(raw, '('), index_of(raw, '/')) {
        (Some(open), Some(slash)) => match index_of(raw.skip(open), ')') {
            Some(close) => {
                let inner = raw.subrange(open + 1, open + close);
                let rest = raw.skip(slash + 1);
                let after = match index_of(rest, '/') {
                    Some(k) => rest.take(k),
                    None => rest,
                };
                let name = match index_of_pair(after, ' ', '(') {
                    Some(k) => after.take(k),
                    None => after,
                };
                inner + seq!['/'] + name
            },
            None => raw,
        },
        _ => raw,
    }
}

proof fn lemma_index_of(s: Seq<char>, c: char)
    ensures
        index_of(s, c) matches Some(i) ==> 0 <= i < s.len() && s[i] == c && forall|j: int|
            0 <= j < i ==> s[j] != c,
        index_of(s, c) is None ==> forall|j: int| 0 <= j < s.len() ==> s[j] != c,
    decreases s.len(),
{
    if s.len() > 0 && s[0] != c {
        lemma_index_of(s.drop_first(), c);
        assert forall|j: int| 0 < j < s.len() implies s[j] == s.drop_first()[j - 1] by {}
    }
}

/// Where `c` first occurs in `s[from..]`, counted from `from`.
fn find_char(s: &Vec<char>, from: usize, c: char) -> (r: Option<usize>)
    requires
        from <= s@.len(),
    ensures
        match index_of(s@.skip(from as int), c) {
            Some(i) => r == Some((from + i) as usize),
            None => r is None,
        },
        r matches Some(x) ==> from <= x < s@.len() && s@[x as int] == c,
{
    let ghost t = s@.skip(from as int);
    let mut i = from;
    while i < s.len()
        invariant
            from <= i <= s@.len(),
            t == s@.skip(from as int),
            forall|j: int| from <= j < i ==> s@[j] != c,
        decreases s@.len() - i,
    {
        if s[i] == c {
            proof {
                lemma_index_of(t, c);
                assert(t[i - from] == s@[i as int]);
                if let Some(k) = index_of(t, c) {
                    assert(t[k] == s@[from + k]);
                    if k > i - from {
                        assert(t[i - from] != c);
                    }
                }
            }
            return Some(i);
        }
        i += 1;
    }
    proof {
        lemma_index_of(t, c);
        if let Some(k) = index_of(t, c) {
            assert(t[k] == s@[from + k]);
        }
    }
    None
}

proof fn lemma_index_of_pair(s: Seq<char>, a: char, b: char)
    ensures
        index_of_pair(s, a, b) matches Some(i) ==> 0 <= i && i + 1 < s.len() && s[i] == a && s[i
            + 1] == b && forall|j: int| 0 <= j < i ==> !(#[trigger] s[j] == a && s[j + 1] == b),
        index_of_pair(s, a, b) is None ==> forall|j: int|
            0 <= j && j + 1 < s.len() ==> !(#[trigger] s[j] == a && s[j + 1] == b),
    decreases s.len(),
{
    if s.len() >= 2 && !(s[0] == a && s[1] == b) {
        lemma_index_of_pair(s.drop_first(), a, b);
        assert forall|j: int| 0 < j < s.len() implies s[j] == s.drop_first()[j - 1] by {}
    }
}

/// Where `a b` first occurs in `s[from..to]`, counted from `from`.
fn find_pair(s: &Vec<char>, from: usize, to: usize, a: char, b: char) -> (r: Option<usize>)
    requires
        from <= to <= s@.len(),
    ensures
        match index_of_pair(s@.subrange(from as int, to as int), a, b) {
            Some(i) => r == Some((from + i) as usize),
            None => r is None,
        },
        r matches Some(x) ==> from <= x && x + 1 < to,
{
    let ghost t = s@.subrange(from as int, to as int);
    let mut i = from;
    while to - i >= 2
        invariant
            from <= i <= to <= s@.len(),
            t == s@.subrange(from as int, to as int),
            forall|j: int|
                from <= j < i && j + 1 < to ==> !(#[trigger] s@[j] == a && s@[j + 1] == b),
        decreases to - i,
    {
        if s[i] == a && s[i + 1] == b {
            proof {
                lemma_index_of_pair(t, a, b);
                assert(t[i - from] == s@[i as int] && t[i - from + 1] == s@[i + 1]);
                if let Some(k) = index_of_pair(t, a, b) {
                    assert(t[k] == s@[from + k] && t[k + 1] == s@[from + k + 1]);
                }
            }
            return Some(i);
        }
        i += 1;
    }
    proof {
        lemma_index_of_pair(t, a, b);
        if let Some(k) = index_of_pair(t, a, b) {
            assert(t[k] == s@[from + k] && t[k + 1] == s@[from + k + 1]);
        }
    }
    None
}

fn push_chars(out: &mut String, s: &Vec<char>, from: usize, to: usize)
    requires
        from <= to <= s@.len(),
    ensures
        final(out)@ == old(out)@ + s@.subrange(from as int, to as int),
{
    let ghost start = out@;
    let mut i = from;
    while i < to
        invariant
            from <= i <= to <= s@.len(),
            out@ == start + s@.subrange(from as int, i as int),
        decreases to - i,
    {
        push_char(out, s[i]);
        i += 1;
        assert(out@ =~= start + s@.subrange(from as int, i as int));
    }
}

/// The film simulation's name as a card shows it.
pub fn film_name(raw: &str) -> (r: String)
    ensures
        r@ == film_name_spec(raw@),
{
    let cs = chars_of(raw);
    let n = cs.len();
    assert(cs@.skip(0) =~= cs@);
    proof {
        lemma_index_of(cs@, '(');
        lemma_index_of(cs@, '/');
    }
    let open = match find_char(&cs, 0, '(') {
        Some(o) => o,
        None => return String::from_str(raw),
    };
    let slash = match find_char(&cs, 0, '/') {
        Some(k) => k,
        None => return String::from_str(raw),
    };
    assert(index_of(raw@, '(') == Some(open as int));
    assert(index_of(raw@, '/') == Some(slash as int));
    proof {
        lemma_index_of(cs@.skip(open as int), ')');
    }
    let close = match find_char(&cs, open, ')') {
        Some(c) => c,
        None => return String::from_str(raw),
    };
    assert(index_of(raw@.skip(open as int), ')') == Some(close - open));
    let end = match find_char(&cs, slash + 1, '/') {
        Some(k) => k,
        None => n,
    };
    let ghost rest = cs@.skip(slash + 1);
    let ghost after = cs@.subrange(slash + 1, end as int);
    proof {
        lemma_index_of(rest, '/');
        assert(after =~= match index_of(rest, '/') {
            Some(k) => rest.take(k),
            None => rest,
        });
    }
    let stop = match find_pair(&cs, slash + 1, end, ' ', '(') {
        Some(k) => k,
        None => end,
    };
    let ghost name = cs@.subrange(slash + 1, stop as int);
    proof {
        lemma_index_of_pair(after, ' ', '(');
        assert(name =~= match index_of_pair(after, ' ', '(') {
            Some(k) => after.take(k),
            None => after,
        });
        assert(cs@.subrange(open + 1, close as int) =~= cs@.subrange(
            open + 1,
            open + (close - open),
        ));
    }
    let mut out = String::new();
    push_chars(&mut out, &cs, open + 1, close);
    push_char(&mut out, '/');
    push_chars(&mut out, &cs, slash + 1, stop);
    assert(out@ =~= cs@.subrange(open + 1, close as int) + seq!['/'] + name);
    out
}

/// ASCII letters in lower case, everything else as it is.
pub open spec fn ascii_lower(s: Seq<char>) -> Seq<char> {
    s.map_values(
        |c: char|
            if 'A' <= c <= 'Z' {
                (((c as u8) + 32) as u8) as char
            } else {
                c
            },
    )
}

/// Whether `w` occurs in `s`.
pub open spec fn contains_seq(s: Seq<char>, w: Seq<char>) -> bool {
    exists|i: int| 0 <= i && i + w.len() <= s.len() && #[trigger] s.subrange(i, i + w.len()) == w
}

/// The words that mark a black-and-white simulation.
pub open spec fn bw_words() -> Seq<Seq<char>> {
    seq!["acros"@, "monochrome"@, "b&w"@, "b & w"@, "bw"@, "sepia"@]
}

/// A black-and-white simulation: Fujifilm leaves FilmMode blank for Acros and
/// Monochrome and records the choice in Saturation.
pub open spec fn is_bw_spec(sat: Option<Seq<char>>) -> bool {
    let s = ascii_lower(
        match sat {
            Some(x) => x,
            None => Seq::empty(),
        },
    );
    exists|k: int| 0 <= k < bw_words().len() && contains_seq(s, #[trigger] bw_words()[k])
}

fn contains_word(s: &Vec<char>, w: &str) -> (r: bool)
    ensures
        r == contains_seq(s@, w@),
{
    let wc = chars_of(w);
    let m = wc.len();
    let n = s.len();
    if m == 0 {
        assert(s@.subrange(0, 0 + w@.len() as int) =~= w@);
        return true;
    }
    if m > n {
        assert(!contains_seq(s@, w@));
        return false;
    }
    let mut i: usize = 0;
    while i <= n - m
        invariant
            0 <= i <= n - m + 1,
            m <= n == s@.len(),
            m == wc@.len(),
            wc@ == w@,
            forall|j: int| 0 <= j < i ==> #[trigger] s@.subrange(j, j + m) != w@,
        decreases n - i,
    {
        let mut k: usize = 0;
        while k < m && s[i + k] == wc[k]
            invariant
                0 <= k <= m,
                i + m <= n == s@.len(),
                m == wc@.len(),
                forall|j: int| 0 <= j < k ==> s@[i + j] == wc@[j],
            decreases m - k,
        {
            k += 1;
        }
        if k == m {
            assert(s@.subrange(i as int, i + m) =~= w@);
            return true;
        }
        assert(s@.subrange(i as int, i + m)[k as int] != w@[k as int]);
        i += 1;
    }
    assert forall|j: int| 0 <= j && j + w@.len() <= s@.len() implies #[trigger] s@.subrange(
        j,
        j + w@.len(),
    ) != w@ by {}
    false
}

/// `s` with its ASCII letters in lower case.
pub fn lower_ascii(raw: &Vec<char>) -> (r: Vec<char>)
    ensures
        r@ == ascii_lower(raw@),
{
    let mut low: Vec<char> = Vec::new();
    let mut i: usize = 0;
    while i < raw.len()
        invariant
            0 <= i <= raw@.len(),
            low@ == ascii_lower(raw@.take(i as int)),
        decreases raw@.len() - i,
    {
        let c = raw[i];
        let l = if 'A' <= c && c <= 'Z' {
            ((c as u8) + 32) as char
        } else {
            c
        };
        low.push(l);
        i += 1;
        assert(low@ =~= ascii_lower(raw@.take(i as int)));
    }
    assert(raw@.take(raw@.len() as int) =~= raw@);
    low
}

/// Whether a Saturation reading names a black-and-white simulation.
pub fn is_bw(sat: Option<&str>) -> (r: bool)
    ensures
        r == is_bw_spec(
            match sat {
                Some(x) => Some(x@),
                None => None,
            },
        ),
{
    let raw = match sat {
        Some(x) => chars_of(x),
        None => Vec::new(),
    };
    let low = lower_ascii(&raw);
    let ghost s = low@;
    proof {
        assert(raw@ =~= match sat {
            Some(x) => x@,
            None => Seq::<char>::empty(),
        });
    }
    let r = contains_word(&low, "acros") || contains_word(&low, "monochrome") || contains_word(
        &low,
        "b&w",
    ) || contains_word(&low, "b & w") || contains_word(&low, "bw") || contains_word(&low, "sepia");
    proof {
        let words = bw_words();
        assert(words[0] == "acros"@ && words[1] == "monochrome"@ && words[2] == "b&w"@ && words[3]
            == "b & w"@ && words[4] == "bw"@ && words[5] == "sepia"@);
        if r {
            if contains_seq(s, "acros"@) {
                assert(contains_seq(s, words[0]));
            } else if contains_seq(s, "monochrome"@) {
                assert(contains_seq(s, words[1]));
            } else if contains_seq(s, "b&w"@) {
                assert(contains_seq(s, words[2]));
            } else if contains_seq(s, "b & w"@) {
                assert(contains_seq(s, words[3]));
            } else if contains_seq(s, "bw"@) {
                assert(contains_seq(s, words[4]));
            } else {
                assert(contains_seq(s, words[5]));
            }
        } else {
            assert forall|k: int| 0 <= k < words.len() implies !contains_seq(
                s,
                #[trigger] words[k],
            ) by {}
        }
    }
    r
}


/// Grain as a card shows it: roughness then size, "Weak, Small"; "Off"
/// collapses to one word.
pub open spec fn grain_card_spec(s: Seq<TagV>) -> Option<Seq<char>> {
    match first_in(s, Group::Fuji, "GrainEffectRoughness"@) {
        None => None,
        Some(t) => {
            let rough = t.print;
            if rough.len() == 0 {
                None
            } else if spells(rough, "off"@) {
                Some("Off"@)
            } else {
                match first_in(s, Group::Fuji, "GrainEffectSize"@) {
                    Some(z) => if z.print.len() > 0 && !spells(z.print, "off"@) {
                        Some(rough + ", "@ + z.print)
                    } else {
                        Some(rough)
                    },
                    None => Some(rough),
                }
            }
        },
    }
}

fn spells_off(s: &String) -> (r: bool)
    ensures
        r == spells(s@, "off"@),
{
    let cs = chars_of(s.as_str());
    assert(cs@.skip(0) =~= cs@);
    spells_from(&cs, 0, "off")
}

fn grain_card(p: &Photo) -> (r: Option<String>)
    ensures
        opt_view(r) == grain_card_spec(tags_view(p.tags@)),
{
    let rough = match p.get_in(Group::Fuji, "GrainEffectRoughness") {
        Some(t) => t.print.clone(),
        None => return None,
    };
    if rough.as_str().is_empty() {
        return None;
    }
    if spells_off(&rough) {
        return Some(String::from_str("Off"));
    }
    match p.get_in(Group::Fuji, "GrainEffectSize") {
        Some(z) => {
            if !z.print.as_str().is_empty() && !spells_off(&z.print) {
                let mut out = rough;
                out.append(", ");
                out.append(z.print.as_str());
                Some(out)
            } else {
                Some(rough)
            }
        },
        None => Some(rough),
    }
}

pub open spec fn is_num_char(c: char) -> bool {
    is_digit(c) || c == '-'
}

/// The end of the run of digits and dashes that starts at `i`.
pub open spec fn word_end(s: Seq<char>, i: int) -> int
    decreases s.len() - i,
{
    if 0 <= i < s.len() && is_num_char(s[i]) {
        word_end(s, i + 1)
    } else {
        i
    }
}

pub proof fn lemma_word_end(s: Seq<char>, i: int)
    ensures
        word_end(s, i) >= i,
        0 <= i <= s.len() ==> word_end(s, i) <= s.len(),
        forall|j: int| i <= j < word_end(s, i) ==> is_num_char(#[trigger] s[j]),
        0 <= i ==> word_end(s, i) >= s.len() || !is_num_char(s[word_end(s, i)]),
    decreases s.len() - i,
{
    if 0 <= i < s.len() && is_num_char(s[i]) {
        lemma_word_end(s, i + 1);
    }
}

/// A word of digits and dashes as `i64` parses it: an optional minus, then
/// at least one digit, within range.
pub open spec fn parse_i64(w: Seq<char>) -> Option<i64> {
    if w.len() >= 2 && w[0] == '-' && crate::json::all_digits(w.drop_first()) {
        if dec_value(w.drop_first()) <= 9223372036854775808 {
            Some((-dec_value(w.drop_first())) as i64)
        } else {
            None
        }
    } else if w.len() >= 1 && crate::json::all_digits(w) {
        if dec_value(w) <= i64::MAX {
            Some(dec_value(w) as i64)
        } else {
            None
        }
    } else {
        None
    }
}

/// The numbers among the words of `s` from `i` on, a word being a run of
/// digits and dashes; a word that is not a number is passed over.
pub open spec fn numbers_from(s: Seq<char>, i: int) -> Seq<i64>
    decreases s.len() - i,
{
    if i < 0 || i >= s.len() {
        Seq::empty()
    } else if !is_num_char(s[i]) {
        numbers_from(s, i + 1)
    } else {
        let e = word_end(s, i);
        proof {
            lemma_word_end(s, i);
            lemma_word_end(s, i + 1);
        }
        match parse_i64(s.subrange(i, e)) {
            Some(n) => seq![n] + numbers_from(s, e),
            None => numbers_from(s, e),
        }
    }
}

/// The white-balance fine-tune pair: from the value where it is a list of
/// integers, else from the numbers in its printed form.
pub open spec fn wb_numbers(v: ValueV, print: Seq<char>) -> Seq<i64> {
    match v {
        ValueV::I32s(x) => x.map_values(|n: i32| n as i64),
        ValueV::U32s(x) => x.map_values(|n: u32| n as i64),
        _ => numbers_from(print, 0),
    }
}

/// Fujifilm's fine-tune is stored in units of 20 per on-camera step.
pub open spec fn wb_step() -> int {
    20
}

/// White balance as a card shows it: the base mode, with the Kelvin value
/// when it is set by temperature, then the fine-tune in on-camera steps,
/// "Kelvin (4500K), +2 Red & -5 Blue".
pub open spec fn wb_card_spec(s: Seq<TagV>) -> Option<Seq<char>> {
    let bt = match first_in(s, Group::Fuji, "WhiteBalance"@) {
        Some(t) => Some(t),
        None => first_named(s, "WhiteBalance"@),
    };
    match bt {
        None => None,
        Some(t) => if t.print.len() == 0 {
            None
        } else {
            let base = if t.print == "Kelvin"@ {
                match int_of(first_named(s, "ColorTemperature"@)) {
                    Some(k) => "Kelvin ("@ + dec_int(k as int) + "K)"@,
                    None => t.print,
                }
            } else {
                t.print
            };
            match first_in(s, Group::Fuji, "WhiteBalanceFineTune"@) {
                None => Some(base),
                Some(sh) => {
                    let nums = wb_numbers(sh.value, sh.print);
                    if nums.len() < 2 {
                        Some(base)
                    } else {
                        let r = div_trunc(nums[0] as int, wb_step());
                        let b = div_trunc(nums[1] as int, wb_step());
                        if r == 0 && b == 0 {
                            Some(base + ", 0 shift"@)
                        } else {
                            Some(
                                base + ", "@ + signed_text(r as i64) + " Red & "@ + signed_text(
                                    b as i64,
                                ) + " Blue"@,
                            )
                        }
                    }
                },
            }
        },
    }
}

/// The number a word of digits and dashes spells, as `i64` parses it.
fn parse_word(s: &Vec<char>, from: usize, to: usize) -> (r: Option<i64>)
    requires
        from <= to <= s@.len(),
    ensures
        r == parse_i64(s@.subrange(from as int, to as int)),
{
    let ghost w = s@.subrange(from as int, to as int);
    let neg = to - from >= 2 && s[from] == '-';
    let start = if neg {
        from + 1
    } else {
        from
    };
    let ghost d = s@.subrange(start as int, to as int);
    if neg {
        assert(d =~= w.drop_first());
    } else {
        assert(d =~= w);
    }
    if start == to {
        return None;
    }
    let limit: u64 = if neg {
        9223372036854775808
    } else {
        9223372036854775807
    };
    let mut v: u64 = 0;
    let mut i = start;
    while i < to
        invariant
            start <= i <= to <= s@.len(),
            w == s@.subrange(from as int, to as int),
            neg == (to - from >= 2 && s@[from as int] == '-'),
            neg ==> start == from + 1 && d == w.drop_first(),
            !neg ==> start == from && d == w,
            d == s@.subrange(start as int, to as int),
            forall|j: int| start <= j < i ==> is_digit(#[trigger] s@[j]),
            v == dec_value(s@.subrange(start as int, i as int)),
            limit == if neg {
                9223372036854775808u64
            } else {
                9223372036854775807u64
            },
            v <= limit,
        decreases to - i,
    {
        let c = s[i];
        if !('0' <= c && c <= '9') {
            assert(!crate::json::all_digits(d)) by {
                assert(d[i - start] == c);
            }
            proof {
                if neg {
                    assert(w[0] == s@[from as int]);
                    assert(!is_digit(w[0]));
                } else {
                    if w.len() >= 2 && w[0] == '-' {
                        assert(w[0] == s@[from as int]);
                    }
                }
            }
            return None;
        }
        let dg = (c as u32 - 48) as u64;
        let ghost x = s@.subrange(start as int, i + 1);
        assert(x.drop_last() =~= s@.subrange(start as int, i as int));
        assert(x.last() == c);
        assert(dec_value(x) == dec_value(x.drop_last()) * 10 + ((x.last() as u32) - 48) as nat);
        if v > (limit - dg) / 10 {
            proof {
                assert(v * 10 + dg > limit) by (nonlinear_arith)
                    requires
                        v > (limit - dg) / 10,
                        dg <= 9,
                ;
                // The rest of the word only makes it larger, if it is digits.
                if crate::json::all_digits(d) {
                    assert forall|j: int| 0 <= j < d.len() implies is_digit(#[trigger] d[j]) by {}
                    lemma_dec_value_mono(d, i + 1 - start);
                    assert(d.take(i + 1 - start) =~= x);
                }
                if !neg && w.len() >= 2 && w[0] == '-' {
                    assert(false);
                }
            }
            return None;
        }
        v = v * 10 + dg;
        i += 1;
    }
    assert forall|j: int| 0 <= j < d.len() implies is_digit(#[trigger] d[j]) by {
        assert(d[j] == s@[start + j]);
    }
    proof {
        if !neg && w.len() >= 2 && w[0] == '-' {
            assert(w[0] == s@[from as int]);
            assert(!is_digit(w[0]));
            assert(d[0] == w[0]);
        }
    }
    if neg {
        if v == 9223372036854775808 {
            Some(i64::MIN)
        } else {
            Some(-(v as i64))
        }
    } else {
        Some(v as i64)
    }
}

/// The numbers among the words of `s`.
fn numbers_in(s: &String) -> (r: Vec<i64>)
    ensures
        r@ == numbers_from(s@, 0),
{
    let cs = chars_of(s.as_str());
    let n = cs.len();
    let mut out: Vec<i64> = Vec::new();
    let mut i: usize = 0;
    while i < n
        invariant
            0 <= i <= n == cs@.len(),
            cs@ == s@,
            numbers_from(s@, 0) == out@ + numbers_from(s@, i as int),
        decreases n - i,
    {
        if !(('0' <= cs[i] && cs[i] <= '9') || cs[i] == '-') {
            i += 1;
            continue;
        }
        proof {
            lemma_word_end(cs@, i as int);
            lemma_word_end(cs@, i + 1);
        }
        let mut e = i + 1;
        while e < n && (('0' <= cs[e] && cs[e] <= '9') || cs[e] == '-')
            invariant
                i < e <= n == cs@.len(),
                word_end(cs@, i as int) == word_end(cs@, e as int),
            decreases n - e,
        {
            e += 1;
        }
        let ghost before = out@;
        match parse_word(&cs, i, e) {
            Some(v) => {
                out.push(v);
                assert(before + (seq![v] + numbers_from(s@, e as int)) =~= out@ + numbers_from(
                    s@,
                    e as int,
                ));
            },
            None => {},
        }
        i = e;
    }
    assert(out@ + numbers_from(s@, i as int) =~= out@);
    out
}

/// The white-balance tag a card shows: the Fujifilm one, else the EXIF one.
pub open spec fn wb_tag(s: Seq<TagV>) -> Option<TagV> {
    match first_in(s, Group::Fuji, "WhiteBalance"@) {
        Some(t) => Some(t),
        None => first_named(s, "WhiteBalance"@),
    }
}

/// The integer reading the white-balance line takes does not overflow: the
/// colour temperature, read where the white balance is "Kelvin".
pub open spec fn wb_readable(s: Seq<TagV>) -> bool {
    (wb_tag(s) matches Some(t) && t.print == "Kelvin"@) ==> int_readable(
        first_named(s, "ColorTemperature"@),
    )
}

/// The integer readings a recipe card takes do not overflow: the Fujifilm
/// dynamic range, and the colour temperature of a Kelvin white balance.
pub open spec fn card_readable(s: Seq<TagV>) -> bool {
    int_readable(first_in(s, Group::Fuji, "DevelopmentDynamicRange"@)) && wb_readable(s)
}

/// The integer readings a record takes do not overflow: each of width and
/// height, the EXIF tag only where the other gives no number, and the
/// Orientation.
pub open spec fn dims_readable(s: Seq<TagV>) -> bool {
    let iw = first_named(s, "ImageWidth"@);
    let ih = first_named(s, "ImageHeight"@);
    &&& int_readable(iw)
    &&& (int_of(iw) is None ==> int_readable(first_named(s, "ExifImageWidth"@)))
    &&& int_readable(ih)
    &&& (int_of(ih) is None ==> int_readable(first_named(s, "ExifImageHeight"@)))
    &&& int_readable(first_named(s, "Orientation"@))
}

/// The integer readings a record with its card takes do not overflow.
pub open spec fn full_readable(s: Seq<TagV>) -> bool {
    dims_readable(s) && card_readable(s)
}

/// Whether `recipe_card` can read `p`: false only where a tag it reads as
/// an integer is a rational whose quotient overflows, `i64::MIN / -1`.
pub fn card_is_readable(p: &Photo) -> (r: bool)
    ensures
        r == card_readable(tags_view(p.tags@)),
{
    if !tag_readable(p.get_in(Group::Fuji, "DevelopmentDynamicRange")) {
        return false;
    }
    let t = match p.get_in(Group::Fuji, "WhiteBalance") {
        Some(t) => t,
        None => match p.get("WhiteBalance") {
            Some(t) => t,
            None => return true,
        },
    };
    if crate::text::str_eq(t.print.as_str(), "Kelvin") {
        tag_readable(p.get("ColorTemperature"))
    } else {
        true
    }
}

/// Whether `record` can read `p`: false only where a tag it reads as an
/// integer is a rational whose quotient overflows, `i64::MIN / -1`.
pub fn record_is_readable(p: &Photo) -> (r: bool)
    ensures
        r == dims_readable(tags_view(p.tags@)),
{
    if !tag_readable(p.get("ImageWidth")) {
        return false;
    }
    if p.number("ImageWidth").is_none() && !tag_readable(p.get("ExifImageWidth")) {
        return false;
    }
    if !tag_readable(p.get("ImageHeight")) {
        return false;
    }
    if p.number("ImageHeight").is_none() && !tag_readable(p.get("ExifImageHeight")) {
        return false;
    }
    tag_readable(p.get("Orientation"))
}

fn wb_card(p: &Photo) -> (r: Option<String>)
    requires
        wb_readable(tags_view(p.tags@)),
    ensures
        opt_view(r) == wb_card_spec(tags_view(p.tags@)),
{
    let t = match p.get_in(Group::Fuji, "WhiteBalance") {
        Some(t) => t,
        None => match p.get("WhiteBalance") {
            Some(t) => t,
            None => return None,
        },
    };
    if t.print.as_str().is_empty() {
        return None;
    }
    let mut base = t.print.clone();
    if crate::text::str_eq(base.as_str(), "Kelvin") {
        match p.number("ColorTemperature") {
            Some(k) => {
                let mut b = String::from_str("Kelvin (");
                let ks = int_string(k);
                b.append(ks.as_str());
                b.append("K)");
                base = b;
            },
            None => {},
        }
    }
    let shift = match p.get_in(Group::Fuji, "WhiteBalanceFineTune") {
        Some(t) => t,
        None => return Some(base),
    };
    let nums: Vec<i64> = match &shift.value {
        Value::I32s(v) => {
            let mut out: Vec<i64> = Vec::new();
            let mut i: usize = 0;
            while i < v.len()
                invariant
                    0 <= i <= v@.len(),
                    out@ == v@.take(i as int).map_values(|n: i32| n as i64),
                decreases v@.len() - i,
            {
                out.push(v[i] as i64);
                i += 1;
                assert(out@ =~= v@.take(i as int).map_values(|n: i32| n as i64));
            }
            assert(v@.take(v@.len() as int) =~= v@);
            out
        },
        Value::U32s(v) => {
            let mut out: Vec<i64> = Vec::new();
            let mut i: usize = 0;
            while i < v.len()
                invariant
                    0 <= i <= v@.len(),
                    out@ == v@.take(i as int).map_values(|n: u32| n as i64),
                decreases v@.len() - i,
            {
                out.push(v[i] as i64);
                i += 1;
                assert(out@ =~= v@.take(i as int).map_values(|n: u32| n as i64));
            }
            assert(v@.take(v@.len() as int) =~= v@);
            out
        },
        _ => numbers_in(&shift.print),
    };
    assert(nums@ == wb_numbers(shift@.value, shift@.print));
    if nums.len() < 2 {
        return Some(base);
    }
    let r = nums[0] / 20;
    let b = nums[1] / 20;
    if r == 0 && b == 0 {
        base.append(", 0 shift");
        return Some(base);
    }
    base.append(", ");
    let rs = signed(r);
    base.append(rs.as_str());
    base.append(" Red & ");
    let bs = signed(b);
    base.append(bs.as_str());
    base.append(" Blue");
    Some(base)
}


/// A card line `k`, when the setting has a non-empty reading.
pub open spec fn put(card: FieldsV, k: Seq<char>, v: Option<Seq<char>>) -> FieldsV {
    match v {
        Some(x) => if x.len() > 0 {
            card.push((k, x))
        } else {
            card
        },
        None => card,
    }
}

/// A tone knob as a card shows it: the leading number of its printed
/// setting, with its sign.
pub open spec fn knob(v: Option<Seq<char>>) -> Option<Seq<char>> {
    match v {
        Some(x) => match leading_num_spec(x) {
            Some(n) => Some(signed_text(n)),
            None => None,
        },
        None => None,
    }
}

pub open spec fn nonempty(v: Option<Seq<char>>) -> bool {
    v matches Some(x) && x.len() > 0
}

/// The recipe card of a frame with tags `s`: what the photographer set, in
/// the order a card lists it, or none for a frame with no film simulation and
/// none of the recipe knobs. `exposure` is the exposure compensation as the
/// card prints it, in thirds of a stop.
pub open spec fn card_spec(s: Seq<TagV>, exposure: Option<Seq<char>>) -> Option<FieldsV> {
    let sat = fuji_text(s, "Saturation"@);
    let bw = is_bw_spec(sat);
    let film = match fuji_text(s, "FilmMode"@) {
        Some(f) => Some(film_name_spec(f)),
        None => if bw {
            sat
        } else {
            None
        },
    };
    let dr = match int_of(first_in(s, Group::Fuji, "DevelopmentDynamicRange"@)) {
        Some(n) => Some("DR"@ + dec_int(n as int)),
        None => None,
    };
    let grain = grain_card_spec(s);
    let chrome = fuji_text(s, "ColorChromeEffect"@);
    let c = put(Seq::empty(), "Film Simulation"@, film);
    let c = put(c, "Dynamic Range"@, dr);
    let c = put(c, "Grain Effect"@, grain);
    let c = put(c, "Color Chrome Effect"@, chrome);
    let c = put(c, "Color Chrome FX Blue"@, fuji_text(s, "ColorChromeFXBlue"@));
    let c = put(c, "White Balance"@, wb_card_spec(s));
    let c = put(c, "Highlight"@, knob(fuji_text(s, "HighlightTone"@)));
    let c = put(c, "Shadow"@, knob(fuji_text(s, "ShadowTone"@)));
    let c = put(
        c,
        "Color"@,
        if bw {
            None
        } else {
            knob(sat)
        },
    );
    let c = put(c, "Sharpness"@, knob(fuji_text(s, "Sharpness"@)));
    let c = put(c, "High ISO NR"@, knob(fuji_text(s, "NoiseReduction"@)));
    let c = put(c, "Clarity"@, knob(fuji_text(s, "Clarity"@)));
    let c = put(c, "ISO"@, print_of(first_named(s, "ISO"@)));
    let c = put(c, "Exposure Compensation"@, exposure);
    if film is None && !(nonempty(dr) || nonempty(grain) || nonempty(chrome)) {
        None
    } else {
        Some(c)
    }
}

fn put_line(card: &mut Vec<(String, String)>, k: &str, v: Option<String>)
    ensures
        final(card).deep_view() == put(old(card).deep_view(), k@, opt_view(v)),
{
    match v {
        Some(x) => {
            if !x.as_str().is_empty() {
                let ghost before = card.deep_view();
                card.push((String::from_str(k), x));
                assert(card.deep_view() =~= before.push((k@, x@)));
            }
        },
        None => {},
    }
}

fn knob_of(v: Option<String>) -> (r: Option<String>)
    ensures
        opt_view(r) == knob(opt_view(v)),
{
    match v {
        Some(x) => match leading_num(x.as_str()) {
            Some(n) => Some(signed(n)),
            None => None,
        },
        None => None,
    }
}

fn filled(v: &Option<String>) -> (r: bool)
    ensures
        r == nonempty(opt_view(*v)),
{
    match v {
        Some(x) => !x.as_str().is_empty(),
        None => false,
    }
}

proof fn lemma_put_keeps(card: FieldsV, k: Seq<char>, v: Option<Seq<char>>, x: (Seq<char>, Seq<char>))
    requires
        card.contains(x),
    ensures
        put(card, k, v).contains(x),
{
    let i = choose|i: int| 0 <= i < card.len() && card[i] == x;
    assert(put(card, k, v)[i] == x);
}

/// The white-balance fine-tune shows the red step first: where the card's
/// white balance is not empty and carries a Fujifilm fine-tune pair, the
/// line is the mode (a "Kelvin" mode with the colour temperature it reads,
/// "Kelvin (4500K)"), then the first number of the pair, in steps of 20, as
/// the Red shift and the second as the Blue one; a pair under one step
/// either way is "0 shift". The recipe card carries that line as its White
/// Balance.
pub proof fn law_a_fine_tune_shows_red_then_blue(
    s: Seq<TagV>,
    exposure: Option<Seq<char>>,
    t: TagV,
    sh: TagV,
    v: Seq<i32>,
)
    requires
        wb_tag(s) == Some(t),
        t.print.len() > 0,
        first_in(s, Group::Fuji, "WhiteBalanceFineTune"@) == Some(sh),
        sh.value == ValueV::I32s(v),
        v.len() >= 2,
    ensures
        wb_card_spec(s) == Some(
            (if t.print == "Kelvin"@ && int_of(first_named(s, "ColorTemperature"@)) is Some {
                "Kelvin ("@ + dec_int(int_of(first_named(s, "ColorTemperature"@))->0 as int) + "K)"@
            } else {
                t.print
            }) + if div_trunc(v[0] as int, 20) == 0 && div_trunc(v[1] as int, 20) == 0 {
                ", 0 shift"@
            } else {
                ", "@ + signed_text(div_trunc(v[0] as int, 20) as i64) + " Red & "@ + signed_text(
                    div_trunc(v[1] as int, 20) as i64,
                ) + " Blue"@
            },
        ),
        card_spec(s, exposure) matches Some(c) ==> c.contains(("White Balance"@, wb_card_spec(s)->0)),
{
    let nums = wb_numbers(sh.value, sh.print);
    assert(nums[0] == v[0] as i64 && nums[1] == v[1] as i64);
    let line = wb_card_spec(s)->0;
    assert(line.len() > 0);
    let sat = fuji_text(s, "Saturation"@);
    let bw = is_bw_spec(sat);
    let film = match fuji_text(s, "FilmMode"@) {
        Some(f) => Some(film_name_spec(f)),
        None => if bw {
            sat
        } else {
            None
        },
    };
    let dr = match int_of(first_in(s, Group::Fuji, "DevelopmentDynamicRange"@)) {
        Some(n) => Some("DR"@ + dec_int(n as int)),
        None => None,
    };
    let grain = grain_card_spec(s);
    let chrome = fuji_text(s, "ColorChromeEffect"@);
    let x = ("White Balance"@, line);
    let c = put(Seq::empty(), "Film Simulation"@, film);
    let c = put(c, "Dynamic Range"@, dr);
    let c = put(c, "Grain Effect"@, grain);
    let c = put(c, "Color Chrome Effect"@, chrome);
    let c = put(c, "Color Chrome FX Blue"@, fuji_text(s, "ColorChromeFXBlue"@));
    let c = put(c, "White Balance"@, wb_card_spec(s));
    assert(c[c.len() - 1] == x);
    assert(c.contains(x));
    let c1 = put(c, "Highlight"@, knob(fuji_text(s, "HighlightTone"@)));
    lemma_put_keeps(c, "Highlight"@, knob(fuji_text(s, "HighlightTone"@)), x);
    let c2 = put(c1, "Shadow"@, knob(fuji_text(s, "ShadowTone"@)));
    lemma_put_keeps(c1, "Shadow"@, knob(fuji_text(s, "ShadowTone"@)), x);
    let cv = if bw {
        None
    } else {
        knob(sat)
    };
    let c3 = put(c2, "Color"@, cv);
    lemma_put_keeps(c2, "Color"@, cv, x);
    let c4 = put(c3, "Sharpness"@, knob(fuji_text(s, "Sharpness"@)));
    lemma_put_keeps(c3, "Sharpness"@, knob(fuji_text(s, "Sharpness"@)), x);
    let c5 = put(c4, "High ISO NR"@, knob(fuji_text(s, "NoiseReduction"@)));
    lemma_put_keeps(c4, "High ISO NR"@, knob(fuji_text(s, "NoiseReduction"@)), x);
    let c6 = put(c5, "Clarity"@, knob(fuji_text(s, "Clarity"@)));
    lemma_put_keeps(c5, "Clarity"@, knob(fuji_text(s, "Clarity"@)), x);
    let c7 = put(c6, "ISO"@, print_of(first_named(s, "ISO"@)));
    lemma_put_keeps(c6, "ISO"@, print_of(first_named(s, "ISO"@)), x);
    let c8 = put(c7, "Exposure Compensation"@, exposure);
    lemma_put_keeps(c7, "Exposure Compensation"@, exposure, x);
}

/// The recipe card, ordered, or none when the frame is not a Fujifilm one.
///
/// `exposure` is the exposure compensation as the card prints it, in thirds
/// of a stop ("-1/3", "+1", "0"); it rides along as the card's last line.
pub fn recipe_card(p: &Photo, exposure: Option<String>) -> (r: Option<Vec<(String, String)>>)
    requires
        card_readable(tags_view(p.tags@)),
    ensures
        match card_spec(tags_view(p.tags@), opt_view(exposure)) {
            Some(c) => r matches Some(v) && v.deep_view() == c,
            None => r is None,
        },
{
    let sat = p.fuji("Saturation");
    let bw = is_bw(
        match &sat {
            Some(x) => Some(x.as_str()),
            None => None,
        },
    );
    assert(bw == is_bw_spec(opt_view(sat)));
    let film = match p.fuji("FilmMode") {
        Some(f) => Some(film_name(f.as_str())),
        None => if bw {
            crate::copy_opt_string(&sat)
        } else {
            None
        },
    };
    let dr = match p.number_in(Group::Fuji, "DevelopmentDynamicRange") {
        Some(n) => {
            let mut d = String::from_str("DR");
            let ns = int_string(n);
            d.append(ns.as_str());
            Some(d)
        },
        None => None,
    };
    let grain = grain_card(p);
    let chrome = p.fuji("ColorChromeEffect");
    let knobbed = filled(&dr) || filled(&grain) || filled(&chrome);
    let film_none = film.is_none();
    let mut card: Vec<(String, String)> = Vec::new();
    assert(card.deep_view() =~= Seq::<(Seq<char>, Seq<char>)>::empty());
    put_line(&mut card, "Film Simulation", film);
    put_line(&mut card, "Dynamic Range", dr);
    put_line(&mut card, "Grain Effect", grain);
    put_line(&mut card, "Color Chrome Effect", chrome);
    put_line(&mut card, "Color Chrome FX Blue", p.fuji("ColorChromeFXBlue"));
    put_line(&mut card, "White Balance", wb_card(p));
    put_line(&mut card, "Highlight", knob_of(p.fuji("HighlightTone")));
    put_line(&mut card, "Shadow", knob_of(p.fuji("ShadowTone")));
    put_line(
        &mut card,
        "Color",
        if bw {
            None
        } else {
            knob_of(sat)
        },
    );
    put_line(&mut card, "Sharpness", knob_of(p.fuji("Sharpness")));
    put_line(&mut card, "High ISO NR", knob_of(p.fuji("NoiseReduction")));
    put_line(&mut card, "Clarity", knob_of(p.fuji("Clarity")));
    put_line(&mut card, "ISO", p.text("ISO"));
    put_line(&mut card, "Exposure Compensation", exposure);
    if film_none && !knobbed {
        return None;
    }
    Some(card)
}


// ------------------------------------------------------------- the record

/// The record's field order. This is a contract, not a preference: a
/// consuming pipeline diffs regenerated artifacts against committed ones, so
/// a reordering reads downstream as every photo having changed.
pub open spec fn fields_spec() -> Seq<Seq<char>> {
    seq![
        "camera"@,
        "lens"@,
        "aperture"@,
        "shutter"@,
        "iso"@,
        "focal"@,
        "ev"@,
        "date"@,
        "width"@,
        "height"@,
        "color_space"@,
        "white_balance"@,
        "color_temp"@,
        "wb_shift"@,
        "flash"@,
        "exposure_mode"@,
        "meter"@,
        "focus_mode"@,
        "drive"@,
        "sharpness"@,
        "noise_reduction"@,
        "clarity"@,
        "dr_value"@,
        "film"@,
        "dr"@,
        "chrome"@,
        "chrome_blue"@,
        "grain"@,
        "grain_size"@,
        "highlight_tone"@,
        "shadow_tone"@,
        "saturation"@,
    ]
}

/// The record's field names, in order.
pub fn fields() -> (r: Vec<&'static str>)
    ensures
        r@.map_values(|f: &str| f@) == fields_spec(),
{
    let v = vec![
        "camera",
        "lens",
        "aperture",
        "shutter",
        "iso",
        "focal",
        "ev",
        "date",
        "width",
        "height",
        "color_space",
        "white_balance",
        "color_temp",
        "wb_shift",
        "flash",
        "exposure_mode",
        "meter",
        "focus_mode",
        "drive",
        "sharpness",
        "noise_reduction",
        "clarity",
        "dr_value",
        "film",
        "dr",
        "chrome",
        "chrome_blue",
        "grain",
        "grain_size",
        "highlight_tone",
        "shadow_tone",
        "saturation",
    ];
    assert(v@.map_values(|f: &str| f@) =~= fields_spec());
    v
}

/// Pixel dimensions as a viewer sees them, from the pair the site's records
/// were built from (ImageWidth/ImageHeight), falling back to the EXIF pair,
/// and swapped when the Orientation turns the frame a quarter.
pub open spec fn pick(s: Seq<TagV>, a: Seq<char>, b: Seq<char>) -> Option<i64> {
    match int_of(first_named(s, a)) {
        Some(n) => Some(n),
        None => int_of(first_named(s, b)),
    }
}

pub open spec fn dims_spec(s: Seq<TagV>) -> (Option<i64>, Option<i64>) {
    let w = pick(s, "ImageWidth"@, "ExifImageWidth"@);
    let h = pick(s, "ImageHeight"@, "ExifImageHeight"@);
    if rotated(s) {
        (h, w)
    } else {
        (w, h)
    }
}

fn dims(p: &Photo) -> (r: (Option<i64>, Option<i64>))
    requires
        dims_readable(tags_view(p.tags@)),
    ensures
        r == dims_spec(tags_view(p.tags@)),
{
    let w = match p.number("ImageWidth") {
        Some(n) => Some(n),
        None => p.number("ExifImageWidth"),
    };
    let h = match p.number("ImageHeight") {
        Some(n) => Some(n),
        None => p.number("ExifImageHeight"),
    };
    let turned = match p.number("Orientation") {
        Some(o) => 5 <= o && o <= 8,
        None => false,
    };
    if turned {
        (h, w)
    } else {
        (w, h)
    }
}

/// A text reading as a JSON fragment: a scalar, or `null` when absent.
pub open spec fn lit(v: Option<Seq<char>>) -> Seq<char> {
    match v {
        Some(x) => scalar_text(x),
        None => "null"@,
    }
}

/// A number as a JSON fragment, or `null` when absent.
pub open spec fn num(v: Option<i64>) -> Seq<char> {
    match v {
        Some(n) => dec_int(n as int),
        None => "null"@,
    }
}

pub open spec fn or_else(a: Option<Seq<char>>, b: Option<Seq<char>>) -> Option<Seq<char>> {
    match a {
        Some(x) => Some(x),
        None => b,
    }
}

/// One photo's fields, in the order of `fields_spec`, as raw JSON fragments.
///
/// Fujifilm writes two Sharpness tags; the MakerNotes one carries the
/// setting a recipe needs, so it is preferred. An empty LensModel (an adapted
/// manual lens) is recorded as `null`: "not recorded" rather than "recorded
/// as nothing".
pub open spec fn record_spec(s: Seq<TagV>) -> FieldsV {
    let txt = |n: Seq<char>| print_of(first_named(s, n));
    let fj = |n: Seq<char>| fuji_text(s, n);
    let d = dims_spec(s);
    seq![
        ("camera"@, lit(crate::camera_spec(s))),
        ("lens"@, lit(crate::lens_spec(s))),
        ("aperture"@, lit(match txt("FNumber"@) {
            Some(v) => Some("f/"@ + v),
            None => None,
        })),
        ("shutter"@, lit(txt("ExposureTime"@))),
        ("iso"@, lit(txt("ISO"@))),
        ("focal"@, lit(txt("FocalLengthIn35mmFormat"@))),
        ("ev"@, lit(txt("ExposureCompensation"@))),
        ("date"@, lit(txt("DateTimeOriginal"@))),
        ("width"@, num(d.0)),
        ("height"@, num(d.1)),
        ("color_space"@, lit(txt("ColorSpace"@))),
        ("white_balance"@, lit(txt("WhiteBalance"@))),
        ("color_temp"@, lit(txt("ColorTemperature"@))),
        ("wb_shift"@, lit(txt("WhiteBalanceFineTune"@))),
        ("flash"@, lit(txt("Flash"@))),
        ("exposure_mode"@, lit(or_else(txt("ExposureMode"@), txt("ExposureProgram"@)))),
        ("meter"@, lit(txt("MeteringMode"@))),
        ("focus_mode"@, lit(txt("FocusMode"@))),
        ("drive"@, lit(txt("DriveMode"@))),
        ("sharpness"@, lit(or_else(fj("Sharpness"@), txt("Sharpness"@)))),
        ("noise_reduction"@, lit(txt("NoiseReduction"@))),
        ("clarity"@, lit(txt("Clarity"@))),
        ("dr_value"@, lit(txt("DevelopmentDynamicRange"@))),
        ("film"@, lit(fj("FilmMode"@))),
        ("dr"@, lit(fj("DynamicRange"@))),
        ("chrome"@, lit(fj("ColorChromeEffect"@))),
        ("chrome_blue"@, lit(fj("ColorChromeFXBlue"@))),
        ("grain"@, lit(fj("GrainEffectRoughness"@))),
        ("grain_size"@, lit(fj("GrainEffectSize"@))),
        ("highlight_tone"@, lit(fj("HighlightTone"@))),
        ("shadow_tone"@, lit(fj("ShadowTone"@))),
        ("saturation"@, lit(fj("Saturation"@))),
    ]
}

/// The record's names are the fields, in order.
pub proof fn law_a_record_lists_the_fields_in_order(s: Seq<TagV>)
    ensures
        record_spec(s).len() == fields_spec().len(),
        forall|i: int| 0 <= i < fields_spec().len() ==> (#[trigger] record_spec(s)[i]).0 == fields_spec()[i],
{
    assert(record_spec(s).map_values(|f: (Seq<char>, Seq<char>)| f.0) =~= fields_spec());
    assert forall|i: int| 0 <= i < fields_spec().len() implies (#[trigger] record_spec(s)[i]).0 == fields_spec()[i] by {
        assert(record_spec(s).map_values(|f: (Seq<char>, Seq<char>)| f.0)[i] == record_spec(s)[i].0);
    }
}

fn lit_of(v: Option<String>) -> (r: String)
    ensures
        r@ == lit(opt_view(v)),
{
    match v {
        Some(x) => {
            let mut o = String::new();
            scalar(x.as_str(), &mut o);
            assert(o@ =~= scalar_text(x@));
            o
        },
        None => String::from_str("null"),
    }
}

fn num_of(v: Option<i64>) -> (r: String)
    ensures
        r@ == num(v),
{
    match v {
        Some(n) => int_string(n),
        None => String::from_str("null"),
    }
}

fn first_of(a: Option<String>, b: Option<String>) -> (r: Option<String>)
    ensures
        opt_view(r) == or_else(opt_view(a), opt_view(b)),
{
    match a {
        Some(x) => Some(x),
        None => b,
    }
}

/// One photo's fields, in order, as raw JSON fragments (`null` included).
pub fn record(p: &Photo) -> (r: Vec<(&'static str, String)>)
    requires
        dims_readable(tags_view(p.tags@)),
    ensures
        r.deep_view() == record_spec(tags_view(p.tags@)),
{
    let (w, h) = dims(p);
    let aperture = match p.text("FNumber") {
        Some(v) => {
            let mut a = String::from_str("f/");
            a.append(v.as_str());
            Some(a)
        },
        None => None,
    };
    let out: Vec<(&'static str, String)> = vec![
        ("camera", lit_of(p.camera())),
        ("lens", lit_of(p.lens())),
        ("aperture", lit_of(aperture)),
        ("shutter", lit_of(p.text("ExposureTime"))),
        ("iso", lit_of(p.text("ISO"))),
        ("focal", lit_of(p.text("FocalLengthIn35mmFormat"))),
        ("ev", lit_of(p.text("ExposureCompensation"))),
        ("date", lit_of(p.text("DateTimeOriginal"))),
        ("width", num_of(w)),
        ("height", num_of(h)),
        ("color_space", lit_of(p.text("ColorSpace"))),
        ("white_balance", lit_of(p.text("WhiteBalance"))),
        ("color_temp", lit_of(p.text("ColorTemperature"))),
        ("wb_shift", lit_of(p.text("WhiteBalanceFineTune"))),
        ("flash", lit_of(p.text("Flash"))),
        ("exposure_mode", lit_of(first_of(p.text("ExposureMode"), p.text("ExposureProgram")))),
        ("meter", lit_of(p.text("MeteringMode"))),
        ("focus_mode", lit_of(p.text("FocusMode"))),
        ("drive", lit_of(p.text("DriveMode"))),
        ("sharpness", lit_of(first_of(p.fuji("Sharpness"), p.text("Sharpness")))),
        ("noise_reduction", lit_of(p.text("NoiseReduction"))),
        ("clarity", lit_of(p.text("Clarity"))),
        ("dr_value", lit_of(p.text("DevelopmentDynamicRange"))),
        ("film", lit_of(p.fuji("FilmMode"))),
        ("dr", lit_of(p.fuji("DynamicRange"))),
        ("chrome", lit_of(p.fuji("ColorChromeEffect"))),
        ("chrome_blue", lit_of(p.fuji("ColorChromeFXBlue"))),
        ("grain", lit_of(p.fuji("GrainEffectRoughness"))),
        ("grain_size", lit_of(p.fuji("GrainEffectSize"))),
        ("highlight_tone", lit_of(p.fuji("HighlightTone"))),
        ("shadow_tone", lit_of(p.fuji("ShadowTone"))),
        ("saturation", lit_of(p.fuji("Saturation"))),
    ];
    assert(out.deep_view() =~= record_spec(tags_view(p.tags@)));
    out
}


pub open spec fn card_line(f: (Seq<char>, Seq<char>)) -> Seq<char> {
    "      "@ + quoted(f.0) + ": "@ + quoted(f.1)
}

pub open spec fn card_lines(card: FieldsV) -> Seq<char>
    decreases card.len(),
{
    if card.len() == 0 {
        Seq::empty()
    } else if card.len() == 1 {
        card_line(card[0])
    } else {
        card_lines(card.drop_last()) + ",\n"@ + card_line(card.last())
    }
}

/// A recipe card as a nested JSON object. Its values are always strings: a
/// card value is a formatted display string ("0", "+2", "DR400", "-1/3"),
/// and unquoting the ones that happen to parse as numbers would make the type
/// of a column depend on the sign.
pub open spec fn card_json(card: FieldsV) -> Seq<char> {
    "{\n"@ + card_lines(card) + "\n    }"@
}

fn card_text(card: &Vec<(String, String)>) -> (r: String)
    ensures
        r@ == card_json(card.deep_view()),
{
    let ghost c = card.deep_view();
    let mut o = String::from_str("{\n");
    let ghost head = o@;
    let mut i: usize = 0;
    while i < card.len()
        invariant
            0 <= i <= card@.len(),
            c == card.deep_view(),
            o@ == head + card_lines(c.take(i as int)),
        decreases card@.len() - i,
    {
        assert(c.take(i + 1).drop_last() =~= c.take(i as int));
        assert(c[i as int] == (card@[i as int].0@, card@[i as int].1@));
        if i > 0 {
            o.append(",\n");
        }
        o.append("      ");
        escape(card[i].0.as_str(), &mut o);
        o.append(": ");
        escape(card[i].1.as_str(), &mut o);
        i += 1;
        proof {
            if i == 1 {
                assert(card_lines(c.take(0)) =~= Seq::<char>::empty());
            }
        }
        assert(o@ =~= head + card_lines(c.take(i as int)));
    }
    assert(c.take(card@.len() as int) =~= c);
    o.append("\n    }");
    o
}

/// The fields plus the `recipe` card, when the frame has one.
pub open spec fn record_full_spec(s: Seq<TagV>, exposure: Option<Seq<char>>) -> FieldsV {
    match card_spec(s, exposure) {
        Some(c) => record_spec(s).push(("recipe"@, card_json(c))),
        None => record_spec(s),
    }
}

/// One photo's fields plus its recipe card, when it has one. `exposure` is
/// the exposure compensation as the card prints it.
pub fn record_full(p: &Photo, exposure: Option<String>) -> (r: Vec<(&'static str, String)>)
    requires
        full_readable(tags_view(p.tags@)),
    ensures
        r.deep_view() == record_full_spec(tags_view(p.tags@), opt_view(exposure)),
{
    let mut r = record(p);
    match recipe_card(p, exposure) {
        Some(card) => {
            let ghost before = r.deep_view();
            let o = card_text(&card);
            r.push(("recipe", o));
            assert(r.deep_view() =~= before.push(("recipe"@, o@)));
        },
        None => {},
    }
    r
}

/// The stem of a file name, as `Path::file_stem` documents it: the whole
/// name where it has no `.` or its only `.` begins it, else the part before
/// the last `.`.
pub open spec fn name_stem(name: Seq<char>) -> Seq<char> {
    if crate::compare::last_dot(name) <= 0 {
        name
    } else {
        name.take(crate::compare::last_dot(name))
    }
}

/// What `Path::file_stem` gives for `path`, as text.
///
/// Wraps `std::path::Path::file_stem`, documented as the file name without
/// its extension. Where the file name starts depends on the platform's path
/// separators, so for a general path what is stated is only that the stem is
/// a run of the path's own characters, since it is a slice of the path. For
/// a path whose only separator is `/` and that has no prefix, the file name
/// is the plain name after its last `/` on every platform, and its stem is
/// then what the documentation says: that is stated.
#[verifier::external_body]
fn file_stem(path: &str) -> (r: Option<String>)
    ensures
        r matches Some(s) ==> exists|i: int, j: int|
            0 <= i <= j <= path@.len() && s@ == path@.subrange(i, j),
        match r {
            Some(s) => crate::text::plain_path(path@) ==> s@ == name_stem(
                crate::text::last_part(path@),
            ),
            None => !crate::text::plain_path(path@),
        },
{
    std::path::Path::new(path).file_stem().map(|s| s.to_string_lossy().into_owned())
}

/// Whether `st` may be the stem of the photo at `path`: what `stem` states
/// of its result.
pub open spec fn stem_fits(st: Seq<char>, path: Seq<char>) -> bool {
    &&& (st.len() == 0 || exists|i: int, j: int| 0 <= i <= j <= path.len() && st == path.subrange(i, j))
    &&& (crate::text::plain_path(path) ==> st == name_stem(crate::text::last_part(path)))
}

/// Whether each record's key may be its photo's stem.
pub open spec fn stems_fit(stems: Seq<Seq<char>>, photos: Seq<&Photo>) -> bool {
    forall|i: int| 0 <= i < stems.len() ==> stem_fits(#[trigger] stems[i], photos[i].path@)
}

/// The file name with its extension removed, which is how every downstream
/// artifact keys a photo; empty for a path with no file name.
pub fn stem(p: &Photo) -> (r: String)
    ensures
        r@.len() == 0 || exists|i: int, j: int|
            0 <= i <= j <= p.path@.len() && r@ == p.path@.subrange(i, j),
        crate::text::plain_path(p.path@) ==> r@ == name_stem(crate::text::last_part(p.path@)),
{
    match file_stem(p.path.as_str()) {
        Some(s) => s,
        None => String::new(),
    }
}

/// Records set into a document one after another, a later one for a stem
/// replacing an earlier.
pub open spec fn insert_all(doc: DocV, records: Seq<(Seq<char>, FieldsV)>) -> DocV
    decreases records.len(),
{
    if records.len() == 0 {
        doc
    } else {
        let d = insert_all(doc, records.drop_last());
        doc_insert(d, records.last().0, records.last().1)
    }
}

fn owned_fields(f: &Vec<(&str, String)>) -> (r: Vec<(String, String)>)
    ensures
        r.deep_view() == f.deep_view(),
{
    let mut out: Vec<(String, String)> = Vec::new();
    let mut i: usize = 0;
    while i < f.len()
        invariant
            0 <= i <= f@.len(),
            out.deep_view() == f.deep_view().take(i as int),
        decreases f@.len() - i,
    {
        let ghost before = out.deep_view();
        let ghost item = (f@[i as int].0@, f@[i as int].1@);
        assert(item == f.deep_view()[i as int]);
        out.push((String::from_str(f[i].0), f[i].1.clone()));
        assert(out.deep_view() =~= before.push(item));
        assert(f.deep_view().take(i + 1) =~= f.deep_view().take(i as int).push(item));
        i += 1;
    }
    assert(f.deep_view().take(f@.len() as int) =~= f.deep_view());
    out
}

/// `{stem: {…}}` for records already read, with no merge: a later record for
/// a stem replaces an earlier one.
pub fn keyed_records(records: &[(String, Vec<(&str, String)>)]) -> (r: String)
    ensures
        r@ == render(insert_all(Seq::empty(), records.deep_view())),
{
    let ghost f = records.deep_view();
    let mut doc: Doc = Vec::new();
    assert(doc.deep_view() =~= Seq::<(Seq<char>, FieldsV)>::empty());
    let mut i: usize = 0;
    while i < records.len()
        invariant
            0 <= i <= records@.len(),
            f == records.deep_view(),
            doc.deep_view() == insert_all(Seq::empty(), f.take(i as int)),
        decreases records@.len() - i,
    {
        assert(f.take(i + 1).drop_last() =~= f.take(i as int));
        let k = chars_of(records[i].0.as_str());
        let fields = owned_fields(&records[i].1);
        doc_put(&mut doc, k, fields);
        i += 1;
    }
    assert(f.take(records@.len() as int) =~= f);
    write_doc(&doc)
}

/// Each photo's stem (as given) with its full record.
pub open spec fn fresh_records(
    stems: Seq<Seq<char>>,
    photos: Seq<&Photo>,
    exposures: Seq<Option<String>>,
) -> Seq<(Seq<char>, FieldsV)> {
    Seq::new(
        photos.len(),
        |i: int|
            (stems[i], record_full_spec(tags_view(photos[i].tags@), opt_view(exposures[i]))),
    )
}

/// The photos' records keyed by stem.
fn fresh_of(photos: &[&Photo], exposures: &[Option<String>]) -> (r: Vec<
    (String, Vec<(&'static str, String)>),
>)
    requires
        photos@.len() == exposures@.len(),
        forall|i: int| 0 <= i < photos@.len() ==> full_readable(tags_view((#[trigger] photos@[i]).tags@)),
    ensures
        r@.len() == photos@.len(),
        r.deep_view() == fresh_records(
            Seq::new(r@.len(), |i: int| r@[i].0@),
            photos@,
            exposures@,
        ),
        stems_fit(Seq::new(r@.len(), |i: int| r@[i].0@), photos@),
{
    let mut out: Vec<(String, Vec<(&'static str, String)>)> = Vec::new();
    let mut i: usize = 0;
    while i < photos.len()
        invariant
            0 <= i <= photos@.len() == exposures@.len(),
            forall|j: int| 0 <= j < photos@.len() ==> full_readable(tags_view((#[trigger] photos@[j]).tags@)),
            out@.len() == i,
            forall|j: int|
                0 <= j < i ==> (#[trigger] out.deep_view()[j]).1 == record_full_spec(
                    tags_view(photos@[j].tags@),
                    opt_view(exposures@[j]),
                ),
            forall|j: int| 0 <= j < i ==> stem_fits(#[trigger] out@[j].0@, photos@[j].path@),
        decreases photos@.len() - i,
    {
        let p = photos[i];
        let e = crate::copy_opt_string(&exposures[i]);
        let rec = record_full(p, e);
        let st = stem(p);
        let ghost before = out@;
        let ghost bdv = out.deep_view();
        let ghost rv = rec.deep_view();
        assert(rv == record_full_spec(tags_view(photos@[i as int].tags@), opt_view(exposures@[i as int])));
        out.push((st, rec));
        assert forall|j: int| 0 <= j < i + 1 implies (#[trigger] out.deep_view()[j]).1
            == record_full_spec(tags_view(photos@[j].tags@), opt_view(exposures@[j])) by {
            assert(out.deep_view()[j] == out@[j].deep_view());
            if j < i {
                assert(out@[j] == before[j]);
                assert(bdv[j] == before[j].deep_view());
            } else {
                assert(out@[j].1.deep_view() == rv);
            }
        }
        assert forall|j: int| 0 <= j < i + 1 implies stem_fits(#[trigger] out@[j].0@, photos@[j].path@) by {
            if j < i {
                assert(out@[j] == before[j]);
            }
        }
        i += 1;
    }
    let ghost stems = Seq::new(out@.len(), |i: int| out@[i].0@);
    assert(out.deep_view() =~= fresh_records(stems, photos@, exposures@));
    assert forall|i: int| 0 <= i < stems.len() implies stem_fits(#[trigger] stems[i], photos@[i].path@) by {
        assert(stems[i] == out@[i].0@);
    }
    out
}

/// `{stem: {…}}` for the photos read, with no merge. `exposures` gives each
/// photo's exposure compensation as its recipe card prints it.
pub fn keyed(photos: &[&Photo], exposures: &[Option<String>]) -> (r: String)
    requires
        photos@.len() == exposures@.len(),
        forall|i: int| 0 <= i < photos@.len() ==> full_readable(tags_view((#[trigger] photos@[i]).tags@)),
    ensures
        exists|stems: Seq<Seq<char>>|
            stems.len() == photos@.len() && stems_fit(stems, photos@) && r@ == render(
                insert_all(Seq::empty(), #[trigger] fresh_records(stems, photos@, exposures@)),
            ),
{
    let fresh = fresh_of(photos, exposures);
    let ghost stems = Seq::new(fresh@.len(), |i: int| fresh@[i].0@);
    let recs = fresh.as_slice();
    assert(recs.deep_view() =~= fresh.deep_view());
    let r = keyed_records(recs);
    assert(r@ == render(insert_all(Seq::empty(), fresh_records(stems, photos@, exposures@))));
    r
}

/// Merge freshly read photos into an existing keyed document; see
/// `merge_records` for the contract. `exposures` gives each photo's exposure
/// compensation as its recipe card prints it.
pub fn merge_into(existing: &str, photos: &[&Photo], exposures: &[Option<String>]) -> (r: Result<
    String,
    String,
>)
    requires
        photos@.len() == exposures@.len(),
        forall|i: int| 0 <= i < photos@.len() ==> full_readable(tags_view((#[trigger] photos@[i]).tags@)),
    ensures
        exists|stems: Seq<Seq<char>>|
            stems.len() == photos@.len() && stems_fit(stems, photos@) && match scan_spec(existing.spec_bytes()) {
                Ok(doc) => r matches Ok(out) && out@ == render(
                    merge_all(doc, #[trigger] fresh_records(stems, photos@, exposures@)),
                ),
                Err(m) => r matches Err(x) && x@ == m,
            },
{
    let fresh = fresh_of(photos, exposures);
    let ghost stems = Seq::new(fresh@.len(), |i: int| fresh@[i].0@);
    let recs = fresh.as_slice();
    assert(recs.deep_view() =~= fresh.deep_view());
    let r = merge_records(existing, recs);
    assert(fresh_records(stems, photos@, exposures@) == fresh.deep_view());
    r
}

} // verus!
