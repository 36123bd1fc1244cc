//! The Fujifilm MakerNotes table, read out of ExifTool's FujiFilm.pm.
//!
//! Transcribing lookup tables by hand is how a film simulation ends up
//! reading "Velvia" when the camera said "Provia", so the tables are
//! extracted rather than typed. Only the wanted tags are emitted: the goal is
//! the film recipe and the fields a photographer reads, not all 200 in the
//! table.
//!
//! The Perl source is read with regular expressions from the `regex` crate,
//! and everything between the matches (which tags are wanted, where a block
//! ends, how a key reads, the order of the entries and the text written) is
//! this module's own logic.

use crate::site::lemma_ascii_boundary;
use crate::json::chars_of;
use crate::text::{dec_int, dec_nat, push_char, push_dec, push_int};
use vstd::prelude::*;
use vstd::string::StringSliceAdditionalSpecFns;
use vstd::utf8::*;

verus! {

// ------------------------------------------------------ regular expressions

#[verifier::external_type_specification]
#[verifier::external_body]
pub struct ExRegex(regex::Regex);

/// A compiled regular expression, with the pattern it was compiled from.
pub struct Pattern {
    text: String,
    re: regex::Regex,
}

impl View for Pattern {
    type V = Seq<char>;

    closed spec fn view(&self) -> Seq<char> {
        self.text@
    }
}

/// Whether `Regex::new` compiles `pattern`: whether it is a valid
/// expression whose compiled form fits the crate's default size limit.
pub uninterp spec fn regex_compiles(pattern: Seq<char>) -> bool;

/// Compile `text`.
///
/// Wraps `regex::Regex::new`, which fails on an invalid pattern or one
/// whose compiled form exceeds the default size limit; which patterns those
/// are is left to the name `regex_compiles`. A compiled pattern remembers the
/// text it came from.
#[verifier::external_body]
pub(crate) fn compile(text: &str) -> (r: Option<Pattern>)
    ensures
        r is Some <==> regex_compiles(text@),
        r matches Some(p) ==> p@ == text@,
{
    regex::Regex::new(text).ok().map(|re| Pattern { text: text.to_string(), re })
}

/// A byte range of `hay`'s UTF-8 that starts and ends on character
/// boundaries.
pub open spec fn span_ok(hay: Seq<char>, sp: (usize, usize)) -> bool {
    &&& sp.0 <= sp.1 <= encode_utf8(hay).len()
    &&& is_char_boundary(encode_utf8(hay), sp.0 as int)
    &&& is_char_boundary(encode_utf8(hay), sp.1 as int)
}

/// Every group of a match that took part is a range on boundaries, and the
/// whole match (group 0) always took part.
pub open spec fn caps_ok(hay: Seq<char>, caps: Seq<Option<(usize, usize)>>) -> bool {
    &&& caps.len() > 0
    &&& caps[0] is Some
    &&& forall|g: int| 0 <= g < caps.len() ==> (#[trigger] caps[g] matches Some(sp) ==> span_ok(hay, sp))
}

/// The matches `Regex::captures_iter` yields for `pattern` over `hay`: the
/// successive non-overlapping matches, each as its capture groups' byte
/// ranges, `None` for a group that took no part.
pub uninterp spec fn captures_iter_of(pattern: Seq<char>, hay: Seq<char>) -> Seq<
    Seq<Option<(usize, usize)>>,
>;

/// The first match `Regex::captures` finds for `pattern` in `hay`, as its
/// capture groups' byte ranges.
pub uninterp spec fn captures_of(pattern: Seq<char>, hay: Seq<char>) -> Option<
    Seq<Option<(usize, usize)>>,
>;

/// The byte range of the first match `Regex::find` finds for `pattern` in
/// `hay`.
pub uninterp spec fn find_of(pattern: Seq<char>, hay: Seq<char>) -> Option<(usize, usize)>;

/// Every match of `p` in `hay`.
///
/// Wraps `regex::Regex::captures_iter`, converting each `Captures` into its
/// groups' byte ranges. The crate documents that every offset it reports
/// falls on a UTF-8 boundary of the haystack and that group 0, the whole
/// match, is always present; that much is stated, and which matches there
/// are is left to the name `captures_iter_of`.
#[verifier::external_body]
fn captures_all(p: &Pattern, hay: &str) -> (r: Vec<Vec<Option<(usize, usize)>>>)
    ensures
        r.deep_view() == captures_iter_of(p@, hay@),
        forall|i: int| 0 <= i < r@.len() ==> caps_ok(hay@, #[trigger] r.deep_view()[i]),
{
    p.re.captures_iter(hay).map(|c| c.iter().map(|m| m.map(|m| (m.start(), m.end()))).collect()).collect()
}

/// The first match of `p` in `hay`.
///
/// Wraps `regex::Regex::captures`, converting the `Captures` into its
/// groups' byte ranges, as `captures_all` does.
#[verifier::external_body]
fn captures_first(p: &Pattern, hay: &str) -> (r: Option<Vec<Option<(usize, usize)>>>)
    ensures
        match r {
            Some(c) => captures_of(p@, hay@) == Some(c@) && caps_ok(hay@, c@),
            None => captures_of(p@, hay@) is None,
        },
{
    p.re.captures(hay).map(|c| c.iter().map(|m| m.map(|m| (m.start(), m.end()))).collect())
}

/// The first match of `p` in `hay`, as a byte range.
///
/// Wraps `regex::Regex::find`; the crate documents that the range falls on
/// UTF-8 boundaries.
#[verifier::external_body]
fn find_first(p: &Pattern, hay: &str) -> (r: Option<(usize, usize)>)
    ensures
        r == find_of(p@, hay@),
        r matches Some(sp) ==> span_ok(hay@, sp),
{
    p.re.find(hay).map(|m| (m.start(), m.end()))
}

// ------------------------------------------------------------ byte helpers

/// The part of `s` between byte offsets `a` and `b`, both on boundaries.
fn sub_str(s: &str, a: usize, b: usize) -> (r: &str)
    requires
        a <= b <= s.spec_bytes().len(),
        is_char_boundary(s.spec_bytes(), a as int),
        is_char_boundary(s.spec_bytes(), b as int),
    ensures
        r.spec_bytes() == s.spec_bytes().subrange(a as int, b as int),
        r@ == decode_utf8(s.spec_bytes().subrange(a as int, b as int)),
{
    proof {
        broadcast use encode_utf8_valid_utf8, encode_utf8_decode_utf8;

        let bs = s.spec_bytes();
        valid_utf8_split(bs, a as int);
        let rest = bs.subrange(a as int, bs.len() as int);
        if b < bs.len() {
            is_char_boundary_iff_not_is_continuation_byte(bs, b as int);
            assert(rest[b - a] == bs[b as int]);
            is_char_boundary_iff_not_is_continuation_byte(rest, b - a);
        } else {
            is_char_boundary_start_end_of_seq(rest);
        }
    }
    let (_, rest) = s.split_at(a);
    let (piece, _) = rest.split_at(b - a);
    proof {
        broadcast use encode_utf8_decode_utf8;

        assert(piece.spec_bytes() =~= s.spec_bytes().subrange(a as int, b as int));
    }
    piece
}

/// Where `pat` first occurs in `hay` at or after byte `i`.
pub open spec fn find_bytes(hay: Seq<u8>, pat: Seq<u8>, i: int) -> Option<int>
    decreases hay.len() - i,
{
    if i < 0 || i + pat.len() > hay.len() {
        None
    } else if hay.subrange(i, i + pat.len()) == pat {
        Some(i)
    } else {
        proof {
            if pat.len() == 0 {
                assert(hay.subrange(i, i) =~= pat);
            }
        }
        find_bytes(hay, pat, i + 1)
    }
}

proof fn lemma_find_bytes(hay: Seq<u8>, pat: Seq<u8>, i: int)
    ensures
        match find_bytes(hay, pat, i) {
            Some(x) => i <= x && x + pat.len() <= hay.len() && hay.subrange(x, x + pat.len())
                == pat,
            None => true,
        },
    decreases hay.len() - i,
{
    if 0 <= i && i + pat.len() <= hay.len() && hay.subrange(i, i + pat.len()) != pat {
        if pat.len() == 0 {
            assert(hay.subrange(i, i) =~= pat);
        }
        lemma_find_bytes(hay, pat, i + 1);
    }
}

/// Where `pat` first occurs in `hay` at or after byte `from`.
fn find_from(hay: &[u8], from: usize, pat: &[u8]) -> (r: Option<usize>)
    requires
        from <= hay@.len(),
    ensures
        match find_bytes(hay@, pat@, from as int) {
            Some(x) => r == Some(x as usize),
            None => r is None,
        },
        r matches Some(x) ==> from <= x && x + pat@.len() <= hay@.len() && hay@.subrange(
            x as int,
            x + pat@.len(),
        ) == pat@ && find_bytes(hay@, pat@, from as int) == Some(x as int),
{
    proof {
        lemma_find_bytes(hay@, pat@, from as int);
    }
    let n = hay.len();
    let m = pat.len();
    let mut i = from;
    while m <= n - i
        invariant
            from <= i <= n == hay@.len(),
            m == pat@.len(),
            find_bytes(hay@, pat@, from as int) == find_bytes(hay@, pat@, i as int),
        decreases n - i,
    {
        if crate::bytes::bytes_at(hay, i, pat) {
            return Some(i);
        }
        assert(m > 0) by {
            if m == 0 {
                assert(hay@.subrange(i as int, i as int) =~= pat@);
            }
        }
        i += 1;
    }
    None
}

/// Where the brace opening at `open` closes: walking forward from it,
/// counting `{` up and `}` down, the `}` that brings the count back to
/// zero.
pub open spec fn brace_from(b: Seq<u8>, i: int, depth: nat) -> Option<int>
    decreases b.len() - i,
{
    if i < 0 || i >= b.len() {
        None
    } else if b[i] == 0x7B {
        brace_from(b, i + 1, depth + 1)
    } else if b[i] == 0x7D {
        if depth <= 1 {
            Some(i)
        } else {
            brace_from(b, i + 1, (depth - 1) as nat)
        }
    } else {
        brace_from(b, i + 1, depth)
    }
}

/// Walk forward from an opening brace at `open` to its match.
pub fn brace_match(s: &str, open: usize) -> (r: Option<usize>)
    requires
        open < s.spec_bytes().len(),
        s.spec_bytes()[open as int] == 0x7B,
    ensures
        r == match brace_from(s.spec_bytes(), open as int, 0) {
            Some(i) => Some(i as usize),
            None => None::<usize>,
        },
        r matches Some(c) ==> open < c < s.spec_bytes().len() && s.spec_bytes()[c as int] == 0x7D
            && brace_from(s.spec_bytes(), open as int, 0) == Some(c as int),
{
    let b = s.as_bytes();
    let n = b.len();
    proof {
        lemma_brace_from(b@, open as int, 0);
    }
    let mut depth: usize = 0;
    let mut i = open;
    while i < n
        invariant
            open <= i <= n == b@.len(),
            b@ == s.spec_bytes(),
            b@[open as int] == 0x7B,
            i == open ==> depth == 0,
            i > open ==> depth >= 1,
            depth <= i - open,
            brace_from(b@, open as int, 0) == brace_from(b@, i as int, depth as nat),
        decreases n - i,
    {
        let c = b[i];
        if c == 0x7B {
            depth += 1;
        } else if c == 0x7D {
            if depth <= 1 {
                return Some(i);
            }
            depth -= 1;
        }
        i += 1;
    }
    None
}

proof fn lemma_brace_from(b: Seq<u8>, i: int, depth: nat)
    ensures
        match brace_from(b, i, depth) {
            Some(j) => i <= j < b.len() && b[j] == 0x7D,
            None => true,
        },
    decreases b.len() - i,
{
    if 0 <= i < b.len() {
        if b[i] == 0x7B {
            lemma_brace_from(b, i + 1, depth + 1);
        } else if b[i] == 0x7D {
            if depth > 1 {
                lemma_brace_from(b, i + 1, (depth - 1) as nat);
            }
        } else {
            lemma_brace_from(b, i + 1, depth);
        }
    }
}

// ------------------------------------------------------------ numbers in text

/// The value of a digit in any radix up to 36, as `char::to_digit` reads
/// it: `0`-`9`, then `a`-`z` or `A`-`Z` from ten on.
pub open spec fn digit_value(c: char) -> Option<nat> {
    if '0' <= c && c <= '9' {
        Some((c as int - 48) as nat)
    } else if 'a' <= c && c <= 'z' {
        Some((c as int - 87) as nat)
    } else if 'A' <= c && c <= 'Z' {
        Some((c as int - 55) as nat)
    } else {
        None
    }
}

pub open spec fn is_radix_digit(c: char, radix: nat) -> bool {
    match digit_value(c) {
        Some(d) => d < radix,
        None => false,
    }
}

/// The number that radix digits spell, most significant first.
pub open spec fn radix_value(s: Seq<char>, radix: nat) -> nat
    decreases s.len(),
{
    if s.len() == 0 {
        0
    } else {
        radix_value(s.drop_last(), radix) * radix + match digit_value(s.last()) {
            Some(d) => d,
            None => 0,
        }
    }
}

/// An `i64` written in `radix`, as `i64::from_str_radix` reads it: an
/// optional `+` or `-`, then at least one digit, and nothing else; a value
/// beyond the `i64` range gives none.
pub open spec fn int_text(s: Seq<char>, radix: nat) -> Option<i64> {
    let digits = unsigned_part(s);
    if digits.len() == 0 || !all_radix_digits(digits, radix) {
        None
    } else if s[0] == '-' {
        if radix_value(digits, radix) <= 0x8000_0000_0000_0000 {
            Some((-radix_value(digits, radix)) as i64)
        } else {
            None
        }
    } else if radix_value(digits, radix) <= i64::MAX {
        Some(radix_value(digits, radix) as i64)
    } else {
        None
    }
}

/// `s` without the sign in front of it, if it has one.
pub open spec fn unsigned_part(s: Seq<char>) -> Seq<char> {
    if s.len() > 0 && (s[0] == '+' || s[0] == '-') {
        s.drop_first()
    } else {
        s
    }
}

pub open spec fn all_radix_digits(d: Seq<char>, radix: nat) -> bool {
    forall|i: int| 0 <= i < d.len() ==> is_radix_digit(#[trigger] d[i], radix)
}

proof fn lemma_radix_grows(s: Seq<char>, radix: nat, k: int)
    requires
        radix >= 1,
        0 <= k <= s.len(),
    ensures
        radix_value(s.take(k), radix) <= radix_value(s, radix),
    decreases s.len() - k,
{
    if k < s.len() {
        lemma_radix_grows(s, radix, k + 1);
        assert(s.take(k + 1).drop_last() =~= s.take(k));
        let v = radix_value(s.take(k), radix);
        let d: nat = match digit_value(s.take(k + 1).last()) {
            Some(d) => d,
            None => 0,
        };
        assert(v * radix + d >= v) by (nonlinear_arith)
            requires
                radix >= 1,
        ;
    } else {
        assert(s.take(k) =~= s);
    }
}

fn digit_of(c: char) -> (r: Option<u32>)
    ensures
        match digit_value(c) {
            Some(d) => r == Some(d as u32),
            None => r is None,
        },
{
    if '0' <= c && c <= '9' {
        Some((c as u32) - 48)
    } else if 'a' <= c && c <= 'z' {
        Some((c as u32) - 87)
    } else if 'A' <= c && c <= 'Z' {
        Some((c as u32) - 55)
    } else {
        None
    }
}

/// Read `s[from..]` as an `i64` in `radix`.
pub fn parse_int(s: &Vec<char>, from: usize, radix: u32) -> (r: Option<i64>)
    requires
        from <= s@.len(),
        2 <= radix <= 36,
    ensures
        r == int_text(s@.skip(from as int), radix as nat),
{
    let ghost t = s@.skip(from as int);
    let n = s.len();
    let mut i = from;
    let mut neg = false;
    if i < n && (s[i] == '+' || s[i] == '-') {
        neg = s[i] == '-';
        i += 1;
    }
    let start = i;
    let ghost digits = s@.skip(start as int);
    assert(digits =~= unsigned_part(t));
    if start == n {
        return None;
    }
    let mut mag: u128 = 0;
    let mut over = false;
    while i < n
        invariant
            start <= i <= n == s@.len(),
            start < n,
            digits == s@.skip(start as int),
            t == s@.skip(from as int),
            digits == unsigned_part(t),
            neg == (t.len() > 0 && t[0] == '-'),
            2 <= radix <= 36,
            forall|j: int| 0 <= j < i - start ==> is_radix_digit(#[trigger] digits[j], radix as nat),
            !over ==> mag == radix_value(digits.take(i - start), radix as nat),
            !over ==> mag <= 0x8000_0000_0000_0000,
            over ==> radix_value(digits.take(i - start), radix as nat) > 0x8000_0000_0000_0000,
        decreases n - i,
    {
        assert(digits[i - start] == s@[i as int]);
        let d = match digit_of(s[i]) {
            Some(d) => d,
            None => {
                assert(!is_radix_digit(digits[i - start], radix as nat));
                assert(!all_radix_digits(digits, radix as nat));
                return None;
            },
        };
        if d >= radix {
            assert(!is_radix_digit(digits[i - start], radix as nat));
            assert(!all_radix_digits(digits, radix as nat));
            return None;
        }
        assert(digits.take(i - start + 1).drop_last() =~= digits.take(i - start));
        assert(digits.take(i - start + 1).last() == s@[i as int]);
        if !over {
            assert(mag * (radix as u128) <= 36 * 0x8000_0000_0000_0000) by (nonlinear_arith)
                requires
                    mag <= 0x8000_0000_0000_0000,
                    radix <= 36,
            ;
            let next = mag * (radix as u128) + (d as u128);
            if next > 0x8000_0000_0000_0000 {
                over = true;
            } else {
                mag = next;
            }
        } else {
            let ghost v = radix_value(digits.take(i - start), radix as nat);
            assert(v * (radix as nat) + (d as nat) >= v) by (nonlinear_arith)
                requires
                    radix >= 1,
            ;
        }
        i += 1;
    }
    assert(digits.take(n - start) =~= digits);
    if over {
        return None;
    }
    if neg {
        if mag == 0x8000_0000_0000_0000 {
            Some(i64::MIN)
        } else {
            Some(-(mag as i64))
        }
    } else if mag <= 0x7FFF_FFFF_FFFF_FFFF {
        Some(mag as i64)
    } else {
        None
    }
}

/// `s` with every leading `0x` taken off, as `str::trim_start_matches`
/// takes them.
pub open spec fn trim_0x(s: Seq<char>) -> Seq<char>
    decreases s.len(),
{
    if s.len() >= 2 && s[0] == '0' && s[1] == 'x' {
        trim_0x(s.skip(2))
    } else {
        s
    }
}

/// Where `s` is left once `trim_0x` has taken its prefixes.
fn skip_0x(s: &Vec<char>) -> (r: usize)
    ensures
        r <= s@.len(),
        s@.skip(r as int) == trim_0x(s@),
{
    let n = s.len();
    let mut i: usize = 0;
    assert(s@.skip(0) =~= s@);
    while n - i >= 2 && s[i] == '0' && s[i + 1] == 'x'
        invariant
            i <= n == s@.len(),
            trim_0x(s@) == trim_0x(s@.skip(i as int)),
        decreases n - i,
    {
        assert(s@.skip(i as int).skip(2) =~= s@.skip(i + 2));
        i += 2;
    }
    assert(s@.skip(0) =~= s@);
    i
}

/// A key of a lookup table: hexadecimal after a single `0x`, else decimal.
pub open spec fn key_text(k: Seq<char>) -> Option<i64> {
    if k.len() >= 2 && k[0] == '0' && k[1] == 'x' {
        int_text(k.skip(2), 16)
    } else {
        int_text(k, 10)
    }
}

fn parse_key(k: &Vec<char>) -> (r: Option<i64>)
    ensures
        r == key_text(k@),
{
    if k.len() >= 2 && k[0] == '0' && k[1] == 'x' {
        parse_int(k, 2, 16)
    } else {
        assert(k@.skip(0) =~= k@);
        parse_int(k, 0, 10)
    }
}

// ------------------------------------------------------------ replacing text

/// `s` with every occurrence of `pat`, scanning from the left without
/// overlap, replaced by `to`, as `str::replace` does for a pattern that is
/// not empty.
pub open spec fn replaced(s: Seq<char>, pat: Seq<char>, to: Seq<char>) -> Seq<char>
    recommends
        pat.len() > 0,
    decreases s.len(),
{
    if pat.len() == 0 || s.len() < pat.len() {
        s
    } else if s.take(pat.len() as int) == pat {
        to + replaced(s.skip(pat.len() as int), pat, to)
    } else {
        seq![s[0]] + replaced(s.skip(1), pat, to)
    }
}

fn chars_at(s: &Vec<char>, at: usize, pat: &[char]) -> (r: bool)
    requires
        at <= s@.len(),
    ensures
        r == (at + pat@.len() <= s@.len() && s@.subrange(at as int, at + pat@.len()) == pat@),
{
    let n = s.len();
    if pat.len() > n - at {
        return false;
    }
    let mut i: usize = 0;
    while i < pat.len()
        invariant
            at + pat@.len() <= n == s@.len(),
            i <= pat@.len(),
            forall|j: int| 0 <= j < i ==> s@[at + j] == pat@[j],
        decreases pat@.len() - i,
    {
        if s[at + i] != pat[i] {
            assert(s@.subrange(at as int, at + pat@.len())[i as int] != pat@[i as int]);
            return false;
        }
        i += 1;
    }
    assert(s@.subrange(at as int, at + pat@.len()) =~= pat@);
    true
}

/// Replace every occurrence of `pat` in `s` by `to`.
pub fn replace_chars(s: &Vec<char>, pat: &[char], to: &[char]) -> (r: Vec<char>)
    requires
        pat@.len() > 0,
    ensures
        r@ == replaced(s@, pat@, to@),
{
    let n = s.len();
    let mut out: Vec<char> = Vec::new();
    let mut i: usize = 0;
    assert(out@ + replaced(s@.skip(0), pat@, to@) =~= replaced(s@, pat@, to@)) by {
        assert(s@.skip(0) =~= s@);
    }
    while i < n
        invariant
            i <= n == s@.len(),
            pat@.len() > 0,
            out@ + replaced(s@.skip(i as int), pat@, to@) == replaced(s@, pat@, to@),
        decreases n - i,
    {
        let ghost rest = s@.skip(i as int);
        if chars_at(s, i, pat) {
            assert(rest.take(pat@.len() as int) =~= s@.subrange(i as int, i + pat@.len()));
            assert(rest.skip(pat@.len() as int) =~= s@.skip(i + pat@.len()));
            let mut j: usize = 0;
            let ghost before = out@;
            while j < to.len()
                invariant
                    j <= to@.len(),
                    out@ == before + to@.take(j as int),
                decreases to@.len() - j,
            {
                out.push(to[j]);
                assert(to@.take(j + 1) =~= to@.take(j as int).push(to@[j as int]));
                j += 1;
            }
            assert(to@.take(to@.len() as int) =~= to@);
            assert(out@ + replaced(s@.skip(i + pat@.len()), pat@, to@) =~= before + replaced(
                rest,
                pat@,
                to@,
            ));
            i += pat.len();
        } else {
            proof {
                if rest.len() >= pat@.len() {
                    assert(rest.take(pat@.len() as int) =~= s@.subrange(i as int, i + pat@.len()));
                }
            }
            assert(rest.skip(1) =~= s@.skip(i + 1));
            let ghost before = out@;
            out.push(s[i]);
            assert(out@ + replaced(s@.skip(i + 1), pat@, to@) =~= before + replaced(
                rest,
                pat@,
                to@,
            ));
            i += 1;
        }
    }
    assert(out@ + replaced(s@.skip(n as int), pat@, to@) =~= out@);
    out
}


// ------------------------------------------------------------ sorting by key

/// `t` with `e` put in front of the first entry whose key is greater than
/// `e`'s, so that it lands after every entry with an equal key.
pub open spec fn insert_by_key(t: Seq<(i64, Seq<char>)>, e: (i64, Seq<char>)) -> Seq<
    (i64, Seq<char>),
>
    decreases t.len(),
{
    if t.len() == 0 {
        seq![e]
    } else if t[0].0 > e.0 {
        seq![e] + t
    } else {
        seq![t[0]] + insert_by_key(t.drop_first(), e)
    }
}

/// `s` ordered by key, entries with equal keys keeping their order, as
/// `slice::sort_by_key` orders them.
pub open spec fn sorted_by_key(s: Seq<(i64, Seq<char>)>) -> Seq<(i64, Seq<char>)>
    decreases s.len(),
{
    if s.len() == 0 {
        s
    } else {
        insert_by_key(sorted_by_key(s.drop_last()), s.last())
    }
}

proof fn lemma_insert_at(t: Seq<(i64, Seq<char>)>, e: (i64, Seq<char>), j: int)
    requires
        0 <= j <= t.len(),
        forall|k: int| 0 <= k < j ==> #[trigger] t[k].0 <= e.0,
        j < t.len() ==> t[j].0 > e.0,
    ensures
        insert_by_key(t, e) == t.insert(j, e),
    decreases t.len(),
{
    if j > 0 {
        assert forall|k: int| 0 <= k < j - 1 implies #[trigger] t.drop_first()[k].0 <= e.0 by {
            assert(t.drop_first()[k] == t[k + 1]);
        }
        lemma_insert_at(t.drop_first(), e, j - 1);
        assert(seq![t[0]] + t.drop_first().insert(j - 1, e) =~= t.insert(j, e));
    } else {
        assert(seq![e] + t =~= t.insert(0, e));
    }
}

/// Put `e` into `out`, which is kept in the order `sorted_by_key` gives.
pub(crate) fn insert_sorted(out: &mut Vec<(i64, String)>, e: (i64, String))
    ensures
        final(out).deep_view() == insert_by_key(old(out).deep_view(), e.deep_view()),
{
    let ghost t = out.deep_view();
    let n = out.len();
    let mut j: usize = 0;
    while j < n && out[j].0 <= e.0
        invariant
            j <= n == out@.len(),
            t == out.deep_view(),
            forall|k: int| 0 <= k < j ==> #[trigger] t[k].0 <= e.0,
        decreases n - j,
    {
        j += 1;
    }
    proof {
        lemma_insert_at(t, e.deep_view(), j as int);
    }
    out.insert(j, e);
    assert(out.deep_view() =~= t.insert(j as int, e.deep_view()));
}

// ------------------------------------------------------------ hexadecimal

/// A hexadecimal digit, upper or lower case.
pub open spec fn hex_char_of(d: nat, upper: bool) -> char {
    if d < 10 {
        ((48 + d) as u8) as char
    } else if upper {
        ((55 + d) as u8) as char
    } else {
        ((87 + d) as u8) as char
    }
}

/// The hexadecimal digits of `n`, most significant first.
pub open spec fn hex_of(n: nat, upper: bool) -> Seq<char>
    decreases n,
{
    if n < 16 {
        seq![hex_char_of(n, upper)]
    } else {
        hex_of(n / 16, upper).push(hex_char_of(n % 16, upper))
    }
}

/// `s` with zeros in front up to `width` characters, as a `0` flag and a
/// width pad a number in `format!`.
pub open spec fn zero_pad(s: Seq<char>, width: nat) -> Seq<char> {
    if s.len() >= width {
        s
    } else {
        Seq::new((width - s.len()) as nat, |i: int| '0') + s
    }
}

/// What `{:#06x}` writes for `n`.
pub open spec fn hex06(n: nat) -> Seq<char> {
    "0x"@ + zero_pad(hex_of(n, false), 4)
}

/// What `{:04X}` writes for `n`.
pub open spec fn hex04_upper(n: nat) -> Seq<char> {
    zero_pad(hex_of(n, true), 4)
}

fn hex_digits(n: u64, upper: bool) -> (r: Vec<char>)
    ensures
        r@ == hex_of(n as nat, upper),
    decreases n,
{
    let mut v = if n >= 16 {
        hex_digits(n / 16, upper)
    } else {
        Vec::new()
    };
    let d: u8 = (n % 16) as u8;
    let c = if d < 10 {
        (48u8 + d) as char
    } else if upper {
        (55u8 + d) as char
    } else {
        (87u8 + d) as char
    };
    v.push(c);
    proof {
        if n < 16 {
            assert(v@ =~= seq![hex_char_of(n as nat, upper)]);
        }
    }
    v
}

/// Append `n` in hexadecimal, padded with zeros to `width` digits.
fn push_hex_padded(out: &mut String, n: u64, width: usize, upper: bool)
    ensures
        final(out)@ == old(out)@ + zero_pad(hex_of(n as nat, upper), width as nat),
{
    let ghost start = out@;
    let digits = hex_digits(n, upper);
    let mut k: usize = digits.len();
    let ghost pad = if digits@.len() >= width {
        Seq::<char>::empty()
    } else {
        Seq::new((width - digits@.len()) as nat, |i: int| '0')
    };
    while k < width
        invariant
            digits@.len() <= k <= width || (k == digits@.len() && k >= width),
            out@ == start + pad.take(k - digits@.len()),
            pad == if digits@.len() >= width {
                Seq::<char>::empty()
            } else {
                Seq::new((width - digits@.len()) as nat, |i: int| '0')
            },
        decreases width - k,
    {
        push_char(out, '0');
        assert(pad.take(k + 1 - digits@.len()) =~= pad.take(k - digits@.len()).push('0'));
        k += 1;
    }
    assert(pad.take(k - digits@.len()) =~= pad);
    let ghost mid = out@;
    let mut i: usize = 0;
    while i < digits.len()
        invariant
            i <= digits@.len(),
            out@ == mid + digits@.take(i as int),
        decreases digits@.len() - i,
    {
        push_char(out, digits[i]);
        assert(digits@.take(i + 1) =~= digits@.take(i as int).push(digits@[i as int]));
        i += 1;
    }
    assert(digits@.take(digits@.len() as int) =~= digits@);
    assert(out@ =~= start + zero_pad(hex_of(n as nat, upper), width as nat));
}


// ------------------------------------------------------------ reading a block

/// The Perl source's tag entries: a line indented four spaces, a hex id,
/// and the brace that opens its definition.
pub const ENTRY_PATTERN: &'static str = "\n    (0x[0-9a-fA-F]+) => \\{";

/// A tag's name. ExifTool quotes with either mark, and 0x104c uses the
/// double one.
pub const NAME_PATTERN: &'static str = "Name\\s*=>\\s*['\"]([^'\"]+)['\"]";

/// Where a tag's lookup table opens.
pub const PRINT_CONV_PATTERN: &'static str = "PrintConv\\s*=>\\s*\\{";

/// One key and value of a lookup table; the value may hold escaped quotes.
pub const PAIR_PATTERN: &'static str = "(0x[0-9a-fA-F]+|-?\\d+)\\s*=>\\s*['\"]((?:[^'\"\\\\]|\\\\.)*)['\"]";

pub open spec fn entry_pattern() -> Seq<char> {
    ENTRY_PATTERN@
}

pub open spec fn name_pattern() -> Seq<char> {
    NAME_PATTERN@
}

pub open spec fn print_conv_pattern() -> Seq<char> {
    PRINT_CONV_PATTERN@
}

pub open spec fn pair_pattern() -> Seq<char> {
    PAIR_PATTERN@
}

/// The four expressions the Perl source is read with.
pub struct Patterns {
    entry: Pattern,
    name: Pattern,
    print_conv: Pattern,
    pair: Pattern,
}

/// Whether all four expressions compile.
pub open spec fn all_compile() -> bool {
    &&& regex_compiles(entry_pattern())
    &&& regex_compiles(name_pattern())
    &&& regex_compiles(print_conv_pattern())
    &&& regex_compiles(pair_pattern())
}

impl Patterns {
    pub closed spec fn wf(&self) -> bool {
        &&& self.entry@ == entry_pattern()
        &&& self.name@ == name_pattern()
        &&& self.print_conv@ == print_conv_pattern()
        &&& self.pair@ == pair_pattern()
    }

    /// Compile the four expressions.
    pub fn new() -> (r: Option<Patterns>)
        ensures
            r is Some <==> all_compile(),
            r matches Some(p) ==> p.wf(),
    {
        let entry = compile(ENTRY_PATTERN)?;
        let name = compile(NAME_PATTERN)?;
        let print_conv = compile(PRINT_CONV_PATTERN)?;
        let pair = compile(PAIR_PATTERN)?;
        Some(Patterns { entry, name, print_conv, pair })
    }
}

/// The text of the bytes in `sp`.
pub open spec fn text_of(b: Seq<u8>, sp: (usize, usize)) -> Seq<char> {
    decode_utf8(b.subrange(sp.0 as int, sp.1 as int))
}

/// Capture group `g` of a match, if it took part.
pub open spec fn group(c: Seq<Option<(usize, usize)>>, g: int) -> Option<(usize, usize)> {
    if 0 <= g < c.len() {
        c[g]
    } else {
        None
    }
}

/// The name a tag is emitted under when its own cannot be read.
pub open spec fn fallback_name(id: int) -> Seq<char> {
    "Tag_"@ + hex04_upper(id as nat)
}

/// A tag's name from what the name expression found in its block, and
/// whether it was read there.
pub open spec fn name_spec(blob: Seq<u8>, caps: Option<Seq<Option<(usize, usize)>>>, id: int) -> (
    Seq<char>,
    bool,
) {
    match caps {
        Some(c) => match group(c, 1) {
            Some(sp) => (text_of(blob, sp), true),
            None => (fallback_name(id), false),
        },
        None => (fallback_name(id), false),
    }
}

/// A lookup value with `\'` and then `\\` unescaped, as Perl wrote them.
pub open spec fn unescaped(v: Seq<char>) -> Seq<char> {
    replaced(replaced(v, seq!['\\', '\''], seq!['\'']), seq!['\\', '\\'], seq!['\\'])
}

/// The entry one pair match gives: none where a group is missing or the key
/// does not read as a number.
pub open spec fn pair_spec(inner: Seq<u8>, m: Seq<Option<(usize, usize)>>) -> Seq<
    (i64, Seq<char>),
> {
    match (group(m, 1), group(m, 2)) {
        (Some(a), Some(v)) => match key_text(text_of(inner, a)) {
            Some(k) => seq![(k, unescaped(text_of(inner, v)))],
            None => Seq::empty(),
        },
        _ => Seq::empty(),
    }
}

/// The entries of all pair matches, in the order they were found.
pub open spec fn pairs_spec(inner: Seq<u8>, ms: Seq<Seq<Option<(usize, usize)>>>) -> Seq<
    (i64, Seq<char>),
>
    decreases ms.len(),
{
    if ms.len() == 0 {
        Seq::empty()
    } else {
        pairs_spec(inner, ms.drop_last()) + pair_spec(inner, ms.last())
    }
}

/// The characters of a `Vec`, as a `String`.
fn string_of(v: &Vec<char>) -> (r: String)
    ensures
        r@ == v@,
{
    let mut s = String::new();
    let mut i: usize = 0;
    while i < v.len()
        invariant
            i <= v@.len(),
            s@ == v@.take(i as int),
        decreases v@.len() - i,
    {
        push_char(&mut s, v[i]);
        assert(v@.take(i + 1) =~= v@.take(i as int).push(v@[i as int]));
        i += 1;
    }
    assert(v@.take(v@.len() as int) =~= v@);
    s
}

/// The text of a span that the regex engine reported.
fn span_text(s: &str, sp: (usize, usize)) -> (r: Vec<char>)
    requires
        span_ok(s@, sp),
    ensures
        r@ == text_of(s.spec_bytes(), sp),
{
    chars_of(sub_str(s, sp.0, sp.1))
}

/// A tag's name from what the name expression found in its block.
pub fn name_from(blob: &str, caps: &Option<Vec<Option<(usize, usize)>>>, id: i64) -> (r: (
    String,
    bool,
))
    requires
        id >= 0,
        caps matches Some(c) ==> caps_ok(blob@, c@),
    ensures
        (r.0@, r.1) == name_spec(
            blob.spec_bytes(),
            match caps {
                Some(c) => Some(c@),
                None => None,
            },
            id as int,
        ),
{
    if let Some(c) = caps {
        if c.len() > 1 {
            if let Some(sp) = c[1] {
                assert(c@[1] == Some(sp));
                let t = span_text(blob, sp);
                return (string_of(&t), true);
            }
        }
    }
    let mut s = String::new();
    s.append("Tag_");
    push_hex_padded(&mut s, id as u64, 4, true);
    (s, false)
}

/// A lookup table's entries, from the pair matches found in its text:
/// each key read as a number, each value unescaped, ordered by key.
pub fn pairs_from(inner: &str, ms: &Vec<Vec<Option<(usize, usize)>>>) -> (r: Vec<(i64, String)>)
    requires
        forall|i: int| 0 <= i < ms@.len() ==> caps_ok(inner@, #[trigger] ms.deep_view()[i]),
    ensures
        r.deep_view() == sorted_by_key(pairs_spec(inner.spec_bytes(), ms.deep_view())),
{
    let ghost all = ms.deep_view();
    let ghost b = inner.spec_bytes();
    let mut out: Vec<(i64, String)> = Vec::new();
    let mut i: usize = 0;
    while i < ms.len()
        invariant
            i <= ms@.len(),
            all == ms.deep_view(),
            b == inner.spec_bytes(),
            forall|j: int| 0 <= j < ms@.len() ==> caps_ok(inner@, #[trigger] all[j]),
            out.deep_view() == sorted_by_key(pairs_spec(b, all.take(i as int))),
        decreases ms@.len() - i,
    {
        let m = &ms[i];
        let ghost mv = all[i as int];
        assert(mv == m@);
        assert(all.take(i + 1).drop_last() =~= all.take(i as int));
        assert(caps_ok(inner@, mv));
        let ghost before = pairs_spec(b, all.take(i as int));
        if m.len() > 2 {
            if let (Some(a), Some(v)) = (m[1], m[2]) {
                assert(mv[1] == Some(a) && mv[2] == Some(v));
                let kt = span_text(inner, a);
                if let Some(k) = parse_key(&kt) {
                    let vt = span_text(inner, v);
                    let q1 = ['\\', '\''];
                    let r1 = ['\''];
                    let q2 = ['\\', '\\'];
                    let r2 = ['\\'];
                    assert(q1@ =~= seq!['\\', '\''] && r1@ =~= seq!['\'']);
                    assert(q2@ =~= seq!['\\', '\\'] && r2@ =~= seq!['\\']);
                    let once = replace_chars(&vt, &q1, &r1);
                    let twice = replace_chars(&once, &q2, &r2);
                    let val = string_of(&twice);
                    proof {
                        assert(val@ == unescaped(text_of(b, v)));
                        assert(group(mv, 1) == Some(a));
                        assert(group(mv, 2) == Some(v));
                        assert(pair_spec(b, mv) == seq![(k, val@)]);
                        assert(before.push((k, val@)).drop_last() =~= before);
                        assert(pairs_spec(b, all.take(i + 1)) =~= before.push((k, val@)));
                    }
                    insert_sorted(&mut out, (k, val));
                    i += 1;
                    continue;
                }
            }
        }
        assert(pair_spec(b, mv) =~= Seq::empty());
        assert(pairs_spec(b, all.take(i + 1)) =~= before);
        i += 1;
    }
    assert(all.take(ms@.len() as int) =~= all);
    out
}


/// A tag's lookup table from its block: the entries of the braces that
/// follow `PrintConv =>`, or none where there are no such braces.
pub open spec fn conv_spec(blob: Seq<u8>) -> Seq<(i64, Seq<char>)> {
    match find_of(print_conv_pattern(), decode_utf8(blob)) {
        Some(pm) => if 1 <= pm.1 <= blob.len() && blob[pm.1 - 1] == 0x7B {
            match brace_from(blob, pm.1 - 1, 0) {
                Some(c) => {
                    let inner = blob.subrange(pm.1 - 1, c + 1);
                    sorted_by_key(
                        pairs_spec(inner, captures_iter_of(pair_pattern(), decode_utf8(inner))),
                    )
                },
                None => Seq::empty(),
            }
        } else {
            Seq::empty()
        },
        None => Seq::empty(),
    }
}

/// Bytes `a` to `c`, both ASCII, of valid UTF-8 start and end on
/// character boundaries.
proof fn lemma_ascii_piece(b: Seq<u8>, a: int, c: int)
    requires
        valid_utf8(b),
        0 <= a <= c < b.len(),
        b[a] < 0x80,
        b[c] < 0x80,
    ensures
        is_char_boundary(b, a),
        is_char_boundary(b, c + 1),
{
    lemma_ascii_boundary(b, a);
    lemma_ascii_boundary(b, c);
    crate::site::lemma_boundary_step(b, c);
}

/// A tag's lookup table from its block.
fn conv_from(blob: &str, pats: &Patterns) -> (r: Vec<(i64, String)>)
    requires
        pats.wf(),
    ensures
        r.deep_view() == conv_spec(blob.spec_bytes()),
{
    proof {
        broadcast use encode_utf8_decode_utf8, encode_utf8_valid_utf8;

        reveal(Patterns::wf);
    }
    let b = blob.as_bytes();
    let pm = find_first(&pats.print_conv, blob);
    if let Some((_, e)) = pm {
        if e >= 1 && b[e - 1] == 0x7B {
            let o = e - 1;
            if let Some(c) = brace_match(blob, o) {
                proof {
                    lemma_ascii_piece(b@, o as int, c as int);
                }
                let inner = sub_str(blob, o, c + 1);
                let ms = captures_all(&pats.pair, inner);
                return pairs_from(inner, &ms);
            }
        }
    }
    Vec::new()
}

// ------------------------------------------------------------ the table

/// The tag ids the table keeps, ascending. 0x1103 (DriveSettings) is left
/// out on purpose: it is a binary subdirectory that the MakerNotes reader
/// decodes itself, masked fields and all, so a table entry for it would
/// never be read.
pub open spec fn wanted() -> Seq<u16> {
    seq![
        0x1000u16, 0x1001, 0x1002, 0x1003, 0x1004, 0x1005, 0x1006, 0x100a, 0x100b, 0x100e,
        0x100f, 0x1010, 0x1011, 0x1020, 0x1021, 0x1023, 0x1030, 0x1031, 0x1040, 0x1041,
        0x1044, 0x1045, 0x1047, 0x1048, 0x104c, 0x104d, 0x104e, 0x1050, 0x1100, 0x1101,
        0x1153, 0x1400, 0x1401, 0x1402, 0x1403, 0x1404, 0x1405, 0x1406, 0x1407, 0x140b,
        0x1443, 0x1444, 0x1445,
    ]
}

/// The wanted ids, for the code.
pub fn wanted_ids() -> (r: Vec<u16>)
    ensures
        r@ == wanted(),
{
    let r = vec![
        0x1000u16, 0x1001, 0x1002, 0x1003, 0x1004, 0x1005, 0x1006, 0x100a, 0x100b, 0x100e,
        0x100f, 0x1010, 0x1011, 0x1020, 0x1021, 0x1023, 0x1030, 0x1031, 0x1040, 0x1041,
        0x1044, 0x1045, 0x1047, 0x1048, 0x104c, 0x104d, 0x104e, 0x1050, 0x1100, 0x1101,
        0x1153, 0x1400, 0x1401, 0x1402, 0x1403, 0x1404, 0x1405, 0x1406, 0x1407, 0x140b,
        0x1443, 0x1444, 0x1445,
    ];
    assert(r@ =~= wanted());
    r
}

/// Where `x` first stands in `w`; `w.len()` where it does not.
pub open spec fn index_in(w: Seq<u16>, x: u16) -> int
    decreases w.len(),
{
    if w.len() == 0 || w[0] == x {
        0
    } else {
        1 + index_in(w.drop_first(), x)
    }
}

proof fn lemma_index_in(w: Seq<u16>, x: u16)
    ensures
        0 <= index_in(w, x) <= w.len(),
        index_in(w, x) < w.len() ==> w[index_in(w, x)] == x,
        forall|k: int| 0 <= k < index_in(w, x) ==> w[k] != x,
    decreases w.len(),
{
    if w.len() > 0 && w[0] != x {
        lemma_index_in(w.drop_first(), x);
        assert forall|k: int| 0 <= k < index_in(w, x) implies w[k] != x by {
            if k > 0 {
                assert(w[k] == w.drop_first()[k - 1]);
            }
        }
    }
}

/// Where `x` first stands in `w`.
fn find_id(w: &Vec<u16>, x: u16) -> (r: usize)
    ensures
        r == index_in(w@, x),
{
    proof {
        lemma_index_in(w@, x);
    }
    let mut j: usize = 0;
    while j < w.len() && w[j] != x
        invariant
            j <= w@.len(),
            forall|k: int| 0 <= k < j ==> w@[k] != x,
            0 <= index_in(w@, x) <= w@.len(),
            index_in(w@, x) < w@.len() ==> w@[index_in(w@, x)] == x,
            forall|k: int| 0 <= k < index_in(w@, x) ==> w@[k] != x,
        decreases w@.len() - j,
    {
        j += 1;
    }
    j
}


/// One tag of the table: its id, its name, and its lookup table
/// ordered by key, empty where the value prints as it is.
pub struct TagEntry {
    pub id: u16,
    pub name: String,
    pub conv: Vec<(i64, String)>,
}

/// A table entry as plain values.
pub struct EntryV {
    pub id: u16,
    pub name: Seq<char>,
    pub conv: Seq<(i64, Seq<char>)>,
}

impl DeepView for TagEntry {
    type V = EntryV;

    open spec fn deep_view(&self) -> EntryV {
        EntryV { id: self.id, name: self.name@, conv: self.conv.deep_view() }
    }
}

/// What one entry match yields: the entry, whether its name was read, and
/// the id as the source wrote it (the entry keeps its low 16 bits).
pub struct BlockV {
    pub entry: EntryV,
    pub named: bool,
    pub id: i64,
}

/// The entry a match of the entry expression gives in `b`, the table's
/// text: none when its id does not read as a non-negative number, is not
/// wanted, or its braces do not close.
pub open spec fn block_spec(b: Seq<u8>, c: Seq<Option<(usize, usize)>>) -> Option<BlockV> {
    match group(c, 1) {
        None => None,
        Some(sp1) => match int_text(trim_0x(text_of(b, sp1)), 16) {
            None => None,
            Some(id) => if id < 0 || index_in(wanted(), (id % 65536) as u16) >= wanted().len() {
                None
            } else {
                match group(c, 0) {
                    None => None,
                    Some(g0) => if g0.1 < 1 || g0.1 > b.len() || b[g0.1 - 1] != 0x7B {
                        None
                    } else {
                        match brace_from(b, g0.1 - 1, 0) {
                            None => None,
                            Some(close) => {
                                let blob = b.subrange(g0.1 - 1, close + 1);
                                let nm = name_spec(
                                    blob,
                                    captures_of(name_pattern(), decode_utf8(blob)),
                                    id as int,
                                );
                                Some(
                                    BlockV {
                                        entry: EntryV {
                                            id: (id % 65536) as u16,
                                            name: nm.0,
                                            conv: conv_spec(blob),
                                        },
                                        named: nm.1,
                                        id,
                                    },
                                )
                            },
                        }
                    },
                }
            },
        },
    }
}

/// Read the block one match of the entry expression points at.
fn block_entry(body: &str, c: &Vec<Option<(usize, usize)>>, w: &Vec<u16>, pats: &Patterns) -> (r:
    Option<(TagEntry, bool, i64)>)
    requires
        caps_ok(body@, c@),
        w@ == wanted(),
        pats.wf(),
    ensures
        match r {
            Some((e, named, id)) => block_spec(body.spec_bytes(), c@) == Some(
                BlockV { entry: e.deep_view(), named, id },
            ),
            None => block_spec(body.spec_bytes(), c@) is None,
        },
{
    proof {
        broadcast use encode_utf8_decode_utf8, encode_utf8_valid_utf8;

        reveal(Patterns::wf);
    }
    if c.len() < 2 {
        return None;
    }
    let sp1 = match c[1] {
        Some(sp) => sp,
        None => return None,
    };
    assert(c@[1] == Some(sp1));
    let idt = span_text(body, sp1);
    let at = skip_0x(&idt);
    let id = match parse_int(&idt, at, 16) {
        Some(id) => id,
        None => return None,
    };
    if id < 0 {
        return None;
    }
    let key = (id % 65536) as u16;
    if find_id(w, key) >= w.len() {
        return None;
    }
    let g0 = match c[0] {
        Some(g) => g,
        None => return None,
    };
    assert(c@[0] == Some(g0));
    let b = body.as_bytes();
    if g0.1 < 1 || b[g0.1 - 1] != 0x7B {
        return None;
    }
    let open = g0.1 - 1;
    let close = match brace_match(body, open) {
        Some(x) => x,
        None => return None,
    };
    proof {
        lemma_ascii_piece(b@, open as int, close as int);
    }
    let blob = sub_str(body, open, close + 1);
    let caps = captures_first(&pats.name, blob);
    let (name, named) = name_from(blob, &caps, id);
    let conv = conv_from(blob, pats);
    Some((TagEntry { id: key, name, conv }, named, id))
}


/// One slot per wanted id, none filled.
pub open spec fn empty_slots() -> Seq<Option<EntryV>> {
    Seq::new(wanted().len(), |i: int| None)
}

/// The table after the matches `ms`, one slot per wanted id: each entry
/// goes to its id's slot, a later one for the same id replacing the earlier.
pub open spec fn slots_spec(b: Seq<u8>, ms: Seq<Seq<Option<(usize, usize)>>>) -> Seq<
    Option<EntryV>,
>
    decreases ms.len(),
{
    if ms.len() == 0 {
        empty_slots()
    } else {
        let prev = slots_spec(b, ms.drop_last());
        match block_spec(b, ms.last()) {
            Some(k) => prev.update(index_in(wanted(), k.entry.id), Some(k.entry)),
            None => prev,
        }
    }
}

/// The report on a wanted tag whose name could not be read.
pub open spec fn warning_text(id: int) -> Seq<char> {
    "no Name for "@ + hex06(id as nat) + ", emitting "@ + fallback_name(id)
}

/// One report per entry whose name could not be read, in order.
pub open spec fn warnings_spec(b: Seq<u8>, ms: Seq<Seq<Option<(usize, usize)>>>) -> Seq<Seq<char>>
    decreases ms.len(),
{
    if ms.len() == 0 {
        Seq::empty()
    } else {
        let prev = warnings_spec(b, ms.drop_last());
        match block_spec(b, ms.last()) {
            Some(k) => if k.named {
                prev
            } else {
                prev.push(warning_text(k.id as int))
            },
            None => prev,
        }
    }
}

/// The filled slots, in order.
pub open spec fn present(slots: Seq<Option<EntryV>>) -> Seq<EntryV>
    decreases slots.len(),
{
    if slots.len() == 0 {
        Seq::empty()
    } else {
        present(slots.drop_last()) + match slots.last() {
            Some(e) => seq![e],
            None => Seq::<EntryV>::empty(),
        }
    }
}

/// Append what `{:#06x}` writes for `n`.
fn push_hex06(out: &mut String, n: u64)
    ensures
        final(out)@ == old(out)@ + hex06(n as nat),
{
    let ghost start = out@;
    out.append("0x");
    push_hex_padded(out, n, 4, false);
    assert(out@ =~= start + hex06(n as nat));
}

fn warning(id: i64) -> (r: String)
    requires
        id >= 0,
    ensures
        r@ == warning_text(id as int),
{
    let mut s = String::new();
    s.append("no Name for ");
    push_hex06(&mut s, id as u64);
    s.append(", emitting ");
    s.append("Tag_");
    push_hex_padded(&mut s, id as u64, 4, true);
    assert(s@ =~= warning_text(id as int));
    s
}

/// The entries and reports the entry matches `ms` of the table text `body`
/// give.
pub fn table_from(body: &str, ms: &Vec<Vec<Option<(usize, usize)>>>, pats: &Patterns) -> (r: (
    Vec<TagEntry>,
    Vec<String>,
))
    requires
        pats.wf(),
        forall|i: int| 0 <= i < ms@.len() ==> caps_ok(body@, #[trigger] ms.deep_view()[i]),
    ensures
        r.0.deep_view() == present(slots_spec(body.spec_bytes(), ms.deep_view())),
        r.1.deep_view() == warnings_spec(body.spec_bytes(), ms.deep_view()),
{
    let ghost all = ms.deep_view();
    let ghost b = body.spec_bytes();
    let w = wanted_ids();
    let mut slots: Vec<Option<TagEntry>> = Vec::new();
    while slots.len() < w.len()
        invariant
            slots@.len() <= w@.len(),
            w@ == wanted(),
            forall|j: int| 0 <= j < slots@.len() ==> slots@[j] is None,
        decreases w@.len() - slots@.len(),
    {
        slots.push(None);
    }
    assert(slots.deep_view() =~= empty_slots());
    let mut warnings: Vec<String> = Vec::new();
    let mut i: usize = 0;
    while i < ms.len()
        invariant
            i <= ms@.len(),
            all == ms.deep_view(),
            b == body.spec_bytes(),
            w@ == wanted(),
            pats.wf(),
            forall|j: int| 0 <= j < ms@.len() ==> caps_ok(body@, #[trigger] all[j]),
            slots.deep_view() == slots_spec(b, all.take(i as int)),
            slots@.len() == wanted().len(),
            warnings.deep_view() == warnings_spec(b, all.take(i as int)),
        decreases ms@.len() - i,
    {
        assert(all.take(i + 1).drop_last() =~= all.take(i as int));
        assert(all.take(i + 1).last() == all[i as int]);
        assert(all[i as int] == ms@[i as int]@);
        assert(caps_ok(body@, all[i as int]));
        let ghost prev_slots = slots.deep_view();
        let ghost prev_warn = warnings.deep_view();
        if let Some((e, named, id)) = block_entry(body, &ms[i], &w, pats) {
            let j = find_id(&w, e.id);
            proof {
                lemma_index_in(wanted(), e.id);
            }
            if !named {
                warnings.push(warning(id));
                assert(warnings.deep_view() =~= prev_warn.push(warning_text(id as int)));
            }
            let ghost ev = e.deep_view();
            slots.set(j, Some(e));
            assert(slots.deep_view() =~= prev_slots.update(j as int, Some(ev)));
        }
        i += 1;
    }
    assert(all.take(ms@.len() as int) =~= all);
    let ghost full = slots.deep_view();
    let mut entries: Vec<TagEntry> = Vec::new();
    let mut k: usize = 0;
    while slots.len() > 0
        invariant
            k + slots@.len() == full.len(),
            full.len() == wanted().len(),
            slots.deep_view() == full.skip(k as int),
            entries.deep_view() == present(full.take(k as int)),
        decreases slots@.len(),
    {
        assert(full.take(k + 1).drop_last() =~= full.take(k as int));
        assert(full[k as int] == slots.deep_view()[0]);
        let ghost old_raw = slots@;
        let s = slots.remove(0);
        assert forall|j: int| 0 <= j < slots@.len() implies slots.deep_view()[j] == full.skip(
            k + 1,
        )[j] by {
            assert(slots@[j] == old_raw[j + 1]);
            assert(full.skip(k as int)[j + 1] == old_raw[j + 1].deep_view());
        }
        assert(slots.deep_view() =~= full.skip(k + 1));
        if let Some(e) = s {
            let ghost before = entries.deep_view();
            entries.push(e);
            assert(entries.deep_view() =~= before + seq![full[k as int]->Some_0]);
        } else {
            assert(present(full.take(k + 1)) =~= present(full.take(k as int)));
        }
        k += 1;
    }
    assert(full.take(k as int) =~= full);
    (entries, warnings)
}


// ------------------------------------------------------------ the whole run

/// Where the Main table is declared.
pub const MAIN_DECL: &'static str = "%Image::ExifTool::FujiFilm::Main = (";

/// What every table declaration of the module starts with.
pub const TABLE_PREFIX: &'static str = "%Image::ExifTool::FujiFilm::";

/// The Main table's extent in `b`: from its declaration to the next table
/// declared after it, or to the end.
pub open spec fn main_body(b: Seq<u8>) -> Option<(int, int)> {
    match find_bytes(b, encode_utf8(MAIN_DECL@), 0) {
        None => None,
        Some(start) => Some(
            (
                start,
                match find_bytes(b, encode_utf8(TABLE_PREFIX@), start + 10) {
                    Some(e) => e,
                    None => b.len() as int,
                },
            ),
        ),
    }
}

/// The fewest entries a table may have; fewer means the source was not
/// read, and an empty table would print every Fujifilm tag as a number.
pub open spec fn min_entries() -> int {
    (wanted().len() / 2) as int
}

/// The table read from the source.
pub struct FujiTable {
    /// One per wanted id that was found, ascending.
    pub entries: Vec<TagEntry>,
    /// One per entry whose name could not be read.
    pub warnings: Vec<String>,
}

/// Why no table came out.
pub enum TableError {
    /// The source declares no FujiFilm Main table.
    NoMainTable,
    /// One of the regular expressions did not compile.
    BadPattern,
    /// Fewer entries than `min_entries` matched: how many did, and the
    /// reports on the tags whose name could not be read.
    TooFew { found: usize, warnings: Vec<String> },
}

impl TableError {
    /// The report for the source read from `path`.
    pub fn message(&self, path: &str) -> (r: String)
        ensures
            r@ == match self {
                TableError::NoMainTable => "no FujiFilm::Main table in "@ + path@,
                TableError::BadPattern => "a regular expression did not compile"@,
                TableError::TooFew { found: n, .. } => "only "@ + dec_nat(*n as nat) + " of "@ + dec_nat(
                    wanted().len(),
                ) + " tags matched, refusing to write a gutted table"@,
            },
    {
        let mut s = String::new();
        match self {
            TableError::NoMainTable => {
                s.append("no FujiFilm::Main table in ");
                s.append(path);
            },
            TableError::BadPattern => {
                s.append("a regular expression did not compile");
            },
            TableError::TooFew { found: n, .. } => {
                s.append("only ");
                push_dec(&mut s, *n as u64);
                s.append(" of ");
                push_dec(&mut s, 43);
                s.append(" tags matched, refusing to write a gutted table");
            },
        }
        s
    }
}

/// A non-empty pattern's encoding, found in valid UTF-8, starts a character.
proof fn lemma_occurrence_boundary(b: Seq<u8>, p: Seq<char>, at: int)
    requires
        valid_utf8(b),
        p.len() > 0,
        0 <= at,
        at + encode_utf8(p).len() <= b.len(),
        b.subrange(at, at + encode_utf8(p).len()) == encode_utf8(p),
    ensures
        is_char_boundary(b, at),
{
    encode_utf8_first_scalar(p);
    let e = encode_utf8(p);
    assert(e.len() >= 1);
    assert(b[at] == b.subrange(at, at + e.len())[0]);
    is_char_boundary_iff_not_is_continuation_byte(b, at);
}

/// Read the FujiFilm Main table out of the Perl source `src`: the wanted
/// tags' names and lookup tables.
pub fn fuji_table(src: &str) -> (r: Result<FujiTable, TableError>)
    ensures
        (r matches Err(TableError::NoMainTable)) <==> main_body(src.spec_bytes()) is None,
        match main_body(src.spec_bytes()) {
            Some((start, end)) => {
                let body = src.spec_bytes().subrange(start, end);
                let ms = captures_iter_of(entry_pattern(), decode_utf8(body));
                let es = present(slots_spec(body, ms));
                match r {
                    Ok(t) => all_compile() && es.len() >= min_entries() && t.entries.deep_view() == es
                        && t.warnings.deep_view() == warnings_spec(body, ms),
                    Err(TableError::TooFew { found, warnings }) => all_compile() && es.len()
                        < min_entries() && found == es.len() && warnings.deep_view()
                        == warnings_spec(body, ms),
                    Err(TableError::BadPattern) => !all_compile(),
                    Err(TableError::NoMainTable) => false,
                }
            },
            None => true,
        },
{
    proof {
        broadcast use encode_utf8_decode_utf8, encode_utf8_valid_utf8;

        reveal_strlit("%Image::ExifTool::FujiFilm::Main = (");
        reveal_strlit("%Image::ExifTool::FujiFilm::");
    }
    let b = src.as_bytes();
    let n = b.len();
    let decl = MAIN_DECL.as_bytes();
    let start = match find_from(b, 0, decl) {
        Some(x) => x,
        None => {
            assert(b@.skip(0) =~= b@);
            return Err(TableError::NoMainTable);
        },
    };
    let prefix = TABLE_PREFIX.as_bytes();
    let end = if n - start >= 10 {
        match find_from(b, start + 10, prefix) {
            Some(e) => e,
            None => n,
        }
    } else {
        n
    };
    proof {
        lemma_occurrence_boundary(b@, MAIN_DECL@, start as int);
        if end < n {
            lemma_occurrence_boundary(b@, TABLE_PREFIX@, end as int);
        } else {
            is_char_boundary_start_end_of_seq(b@);
        }
    }
    assert(main_body(b@) == Some((start as int, end as int)));
    let body = sub_str(src, start, end);
    let pats = match Patterns::new() {
        Some(p) => p,
        None => return Err(TableError::BadPattern),
    };
    let ms = captures_all(&pats.entry, body);
    let (entries, warnings) = table_from(body, &ms, &pats);
    proof {
        reveal(Patterns::wf);
    }
    assert(wanted().len() == 43);
    if entries.len() < 43 / 2 {
        return Err(TableError::TooFew { found: entries.len(), warnings });
    }
    Ok(FujiTable { entries, warnings })
}

// ------------------------------------------------------------ the Rust text

/// What the written file starts with.
pub const HEADER: &'static str = "//! Fujifilm MakerNotes tags.\n//!\n//! GENERATED by `cargo xtask fuji-tags` from ExifTool's FujiFilm.pm. Do not\n//! edit by hand: the point of generating it is that a mistyped film\n//! simulation is invisible until somebody reads the wrong recipe off a\n//! photo. Re-run it to pick up a new camera's values.\n//!\n//! Tag meanings are ExifTool's, 25 years of them. See NOTICE.\n\nuse crate::tags::{Conv, TagDef};\n\npub static FUJI: &[TagDef] = &[\n";

/// One lookup entry as Rust: the key, and the value quoted with its double
/// quotes escaped.
pub open spec fn pair_text(p: (i64, Seq<char>)) -> Seq<char> {
    "("@ + dec_int(p.0 as int) + ", \""@ + replaced(p.1, seq!['"'], seq!['\\', '"']) + "\")"@
}

/// Lookup entries joined by `, `.
pub open spec fn pairs_text(c: Seq<(i64, Seq<char>)>) -> Seq<char>
    decreases c.len(),
{
    if c.len() == 0 {
        Seq::empty()
    } else if c.len() == 1 {
        pair_text(c[0])
    } else {
        pairs_text(c.drop_last()) + ", "@ + pair_text(c.last())
    }
}

/// A lookup table as Rust: `Conv::None` when it is empty.
pub open spec fn conv_text(c: Seq<(i64, Seq<char>)>) -> Seq<char> {
    if c.len() == 0 {
        "Conv::None"@
    } else {
        "Conv::Map(&["@ + pairs_text(c) + "])"@
    }
}

/// One entry as a line of Rust.
pub open spec fn entry_line(e: EntryV) -> Seq<char> {
    "    TagDef { id: "@ + hex06(e.id as nat) + ", name: \""@ + e.name + "\", conv: "@
        + conv_text(e.conv) + " },\n"@
}

pub open spec fn entry_lines(es: Seq<EntryV>) -> Seq<char>
    decreases es.len(),
{
    if es.len() == 0 {
        Seq::empty()
    } else {
        entry_lines(es.drop_last()) + entry_line(es.last())
    }
}

/// The Rust file that holds the table.
pub open spec fn table_file(es: Seq<EntryV>) -> Seq<char> {
    HEADER@ + entry_lines(es) + "];\n"@
}

fn push_vec(out: &mut String, v: &Vec<char>)
    ensures
        final(out)@ == old(out)@ + v@,
{
    let ghost start = out@;
    let mut i: usize = 0;
    while i < v.len()
        invariant
            i <= v@.len(),
            out@ == start + v@.take(i as int),
        decreases v@.len() - i,
    {
        push_char(out, v[i]);
        assert(v@.take(i + 1) =~= v@.take(i as int).push(v@[i as int]));
        i += 1;
    }
    assert(v@.take(v@.len() as int) =~= v@);
}

fn push_pair(out: &mut String, p: &(i64, String))
    ensures
        final(out)@ == old(out)@ + pair_text(p.deep_view()),
{
    let ghost start = out@;
    out.append("(");
    push_int(out, p.0);
    out.append(", \"");
    let chars = chars_of(p.1.as_str());
    let q = ['"'];
    let esc = ['\\', '"'];
    assert(q@ =~= seq!['"'] && esc@ =~= seq!['\\', '"']);
    let quoted = replace_chars(&chars, &q, &esc);
    push_vec(out, &quoted);
    out.append("\")");
    assert(out@ =~= start + pair_text(p.deep_view()));
}

fn push_entry(out: &mut String, e: &TagEntry)
    ensures
        final(out)@ == old(out)@ + entry_line(e.deep_view()),
{
    let ghost start = out@;
    let ghost c = e.conv.deep_view();
    out.append("    TagDef { id: ");
    push_hex06(out, e.id as u64);
    out.append(", name: \"");
    out.append(e.name.as_str());
    out.append("\", conv: ");
    let ghost mid = out@;
    if e.conv.len() == 0 {
        out.append("Conv::None");
    } else {
        out.append("Conv::Map(&[");
        let ghost head = out@;
        let mut i: usize = 0;
        while i < e.conv.len()
            invariant
                1 <= e.conv@.len(),
                i <= e.conv@.len(),
                c == e.conv.deep_view(),
                out@ == head + pairs_text(c.take(i as int)),
            decreases e.conv@.len() - i,
        {
            assert(c.take(i + 1).drop_last() =~= c.take(i as int));
            if i > 0 {
                out.append(", ");
            }
            push_pair(out, &e.conv[i]);
            proof {
                if i == 0 {
                    assert(c.take(0) =~= Seq::<(i64, Seq<char>)>::empty());
                }
            }
            i += 1;
            assert(out@ =~= head + pairs_text(c.take(i as int)));
        }
        assert(c.take(e.conv@.len() as int) =~= c);
        out.append("])");
    }
    assert(out@ =~= mid + conv_text(c));
    out.append(" },\n");
    assert(out@ =~= start + entry_line(e.deep_view()));
}

/// The Rust file that holds the table of `entries`.
pub fn table_text(entries: &Vec<TagEntry>) -> (r: String)
    ensures
        r@ == table_file(entries.deep_view()),
{
    let ghost es = entries.deep_view();
    let mut out = String::new();
    out.append(HEADER);
    let ghost head = out@;
    let mut i: usize = 0;
    while i < entries.len()
        invariant
            i <= entries@.len(),
            es == entries.deep_view(),
            out@ == head + entry_lines(es.take(i as int)),
        decreases entries@.len() - i,
    {
        assert(es.take(i + 1).drop_last() =~= es.take(i as int));
        push_entry(&mut out, &entries[i]);
        i += 1;
        assert(out@ =~= head + entry_lines(es.take(i as int)));
    }
    assert(es.take(entries@.len() as int) =~= es);
    out.append("];\n");
    assert(out@ =~= table_file(es));
    out
}


// ------------------------------------------------------------ laws

/// Each wanted id is smaller than the next.
proof fn lemma_wanted_steps()
    ensures
        forall|i: int| 0 <= i < wanted().len() - 1 ==> #[trigger] wanted()[i] < wanted()[i + 1],
{
    assert forall|i: int| 0 <= i < wanted().len() - 1 implies #[trigger] wanted()[i] < wanted()[i + 1] by {
        if i == 0 {
            assert(wanted()[0] < wanted()[1]);
        } else if i == 1 {
            assert(wanted()[1] < wanted()[2]);
        } else if i == 2 {
            assert(wanted()[2] < wanted()[3]);
        } else if i == 3 {
            assert(wanted()[3] < wanted()[4]);
        } else if i == 4 {
            assert(wanted()[4] < wanted()[5]);
        } else if i == 5 {
            assert(wanted()[5] < wanted()[6]);
        } else if i == 6 {
            assert(wanted()[6] < wanted()[7]);
        } else if i == 7 {
            assert(wanted()[7] < wanted()[8]);
        } else if i == 8 {
            assert(wanted()[8] < wanted()[9]);
        } else if i == 9 {
            assert(wanted()[9] < wanted()[10]);
        } else if i == 10 {
            assert(wanted()[10] < wanted()[11]);
        } else if i == 11 {
            assert(wanted()[11] < wanted()[12]);
        } else if i == 12 {
            assert(wanted()[12] < wanted()[13]);
        } else if i == 13 {
            assert(wanted()[13] < wanted()[14]);
        } else if i == 14 {
            assert(wanted()[14] < wanted()[15]);
        } else if i == 15 {
            assert(wanted()[15] < wanted()[16]);
        } else if i == 16 {
            assert(wanted()[16] < wanted()[17]);
        } else if i == 17 {
            assert(wanted()[17] < wanted()[18]);
        } else if i == 18 {
            assert(wanted()[18] < wanted()[19]);
        } else if i == 19 {
            assert(wanted()[19] < wanted()[20]);
        } else if i == 20 {
            assert(wanted()[20] < wanted()[21]);
        } else if i == 21 {
            assert(wanted()[21] < wanted()[22]);
        } else if i == 22 {
            assert(wanted()[22] < wanted()[23]);
        } else if i == 23 {
            assert(wanted()[23] < wanted()[24]);
        } else if i == 24 {
            assert(wanted()[24] < wanted()[25]);
        } else if i == 25 {
            assert(wanted()[25] < wanted()[26]);
        } else if i == 26 {
            assert(wanted()[26] < wanted()[27]);
        } else if i == 27 {
            assert(wanted()[27] < wanted()[28]);
        } else if i == 28 {
            assert(wanted()[28] < wanted()[29]);
        } else if i == 29 {
            assert(wanted()[29] < wanted()[30]);
        } else if i == 30 {
            assert(wanted()[30] < wanted()[31]);
        } else if i == 31 {
            assert(wanted()[31] < wanted()[32]);
        } else if i == 32 {
            assert(wanted()[32] < wanted()[33]);
        } else if i == 33 {
            assert(wanted()[33] < wanted()[34]);
        } else if i == 34 {
            assert(wanted()[34] < wanted()[35]);
        } else if i == 35 {
            assert(wanted()[35] < wanted()[36]);
        } else if i == 36 {
            assert(wanted()[36] < wanted()[37]);
        } else if i == 37 {
            assert(wanted()[37] < wanted()[38]);
        } else if i == 38 {
            assert(wanted()[38] < wanted()[39]);
        } else if i == 39 {
            assert(wanted()[39] < wanted()[40]);
        } else if i == 40 {
            assert(wanted()[40] < wanted()[41]);
        } else if i == 41 {
            assert(wanted()[41] < wanted()[42]);
        }
    }
}

/// The wanted ids are strictly ascending.
pub proof fn lemma_wanted_ascending()
    ensures
        forall|i: int, j: int| 0 <= i < j < wanted().len() ==> wanted()[i] < wanted()[j],
{
    lemma_wanted_steps();
    assert forall|i: int, j: int| 0 <= i < j < wanted().len() implies wanted()[i] < wanted()[j] by {
        lemma_steps_chain(i, j);
    }
}

proof fn lemma_steps_chain(i: int, j: int)
    requires
        0 <= i < j < wanted().len(),
        forall|k: int| 0 <= k < wanted().len() - 1 ==> #[trigger] wanted()[k] < wanted()[k + 1],
    ensures
        wanted()[i] < wanted()[j],
    decreases j - i,
{
    if j > i + 1 {
        lemma_steps_chain(i, j - 1);
        assert(wanted()[j - 1] < wanted()[j]);
    }
}

/// A filled slot holds an entry for the id the slot stands for.
pub open spec fn slots_ok(slots: Seq<Option<EntryV>>) -> bool {
    &&& slots.len() == wanted().len()
    &&& forall|j: int| 0 <= j < slots.len() ==> (#[trigger] slots[j] matches Some(e) ==> index_in(wanted(), e.id) == j)
}

proof fn lemma_slots_ok(b: Seq<u8>, ms: Seq<Seq<Option<(usize, usize)>>>)
    ensures
        slots_ok(slots_spec(b, ms)),
    decreases ms.len(),
{
    if ms.len() > 0 {
        lemma_slots_ok(b, ms.drop_last());
        let prev = slots_spec(b, ms.drop_last());
        if let Some(k) = block_spec(b, ms.last()) {
            lemma_index_in(wanted(), k.entry.id);
            let j = index_in(wanted(), k.entry.id);
            assert forall|x: int| 0 <= x < prev.len() implies (#[trigger] prev.update(j, Some(k.entry))[x] matches Some(e) ==> index_in(wanted(), e.id) == x) by {
                if x != j {
                    assert(prev.update(j, Some(k.entry))[x] == prev[x]);
                }
            }
        }
    }
}

proof fn lemma_present_order(slots: Seq<Option<EntryV>>)
    requires
        forall|j: int| 0 <= j < slots.len() ==> (#[trigger] slots[j] matches Some(e) ==> index_in(wanted(), e.id) == j),
    ensures
        forall|i: int| 0 <= i < present(slots).len() ==> 0 <= #[trigger] index_in(wanted(), present(slots)[i].id) < slots.len(),
        forall|i: int, j: int| 0 <= i < j < present(slots).len() ==> index_in(wanted(), present(slots)[i].id) < index_in(wanted(), present(slots)[j].id),
    decreases slots.len(),
{
    if slots.len() > 0 {
        let s = slots.drop_last();
        assert forall|j: int| 0 <= j < s.len() implies (#[trigger] s[j] matches Some(e) ==> index_in(wanted(), e.id) == j) by {
            assert(s[j] == slots[j]);
        }
        lemma_present_order(s);
        let p = present(s);
        let q = present(slots);
        assert forall|i: int| 0 <= i < q.len() implies 0 <= #[trigger] index_in(wanted(), q[i].id) < slots.len() by {
            if i < p.len() {
                assert(q[i] == p[i]);
            }
        }
        assert forall|i: int, j: int| 0 <= i < j < q.len() implies index_in(wanted(), q[i].id) < index_in(wanted(), q[j].id) by {
            assert(q[i] == p[i]);
            if j < p.len() {
                assert(q[j] == p[j]);
            } else {
                assert(index_in(wanted(), p[i].id) < s.len());
            }
        }
    }
}

/// The table lists each tag at most once, in ascending order of id, and only
/// wanted tags.
pub proof fn law_the_table_is_in_ascending_id_order(b: Seq<u8>, ms: Seq<Seq<Option<(usize, usize)>>>)
    ensures
        forall|i: int, j: int|
            0 <= i < j < present(slots_spec(b, ms)).len() ==> present(slots_spec(b, ms))[i].id
                < present(slots_spec(b, ms))[j].id,
        forall|i: int|
            0 <= i < present(slots_spec(b, ms)).len() ==> wanted().contains(
                #[trigger] present(slots_spec(b, ms))[i].id,
            ),
{
    let slots = slots_spec(b, ms);
    lemma_slots_ok(b, ms);
    lemma_present_order(slots);
    lemma_wanted_ascending();
    let es = present(slots);
    assert forall|i: int| 0 <= i < es.len() implies wanted().contains(#[trigger] es[i].id) by {
        lemma_index_in(wanted(), es[i].id);
        assert(wanted()[index_in(wanted(), es[i].id)] == es[i].id);
    }
    assert forall|i: int, j: int| 0 <= i < j < es.len() implies es[i].id < es[j].id by {
        lemma_index_in(wanted(), es[i].id);
        lemma_index_in(wanted(), es[j].id);
        assert(index_in(wanted(), es[i].id) < index_in(wanted(), es[j].id));
    }
}

} // verus!
