//! A small JSON writer.
//!
//! The whole output is strings and numbers, so a writer this size covers it.

use crate::text::{hex2, hex_digit, push_char, push_hex2};
use vstd::prelude::*;

verus! {

/// How one character goes out inside a JSON string.
pub open spec fn escape_char(c: char) -> Seq<char> {
    if c == '"' {
        seq!['\\', '"']
    } else if c == '\\' {
        seq!['\\', '\\']
    } else if c == '\n' {
        seq!['\\', 'n']
    } else if c == '\r' {
        seq!['\\', 'r']
    } else if c == '\t' {
        seq!['\\', 't']
    } else if (c as u32) < 0x20 {
        seq!['\\', 'u', '0', '0'] + hex2((c as u32) as u8)
    } else {
        seq![c]
    }
}

/// The characters of `s` escaped for a JSON string, without the quotes.
pub open spec fn escaped(s: Seq<char>) -> Seq<char>
    decreases s.len(),
{
    if s.len() == 0 {
        Seq::empty()
    } else {
        escaped(s.drop_last()) + escape_char(s.last())
    }
}

/// `s` as a JSON string: quoted and escaped.
pub open spec fn quoted(s: Seq<char>) -> Seq<char> {
    seq!['"'] + escaped(s) + seq!['"']
}

fn push_escaped(out: &mut String, c: char)
    ensures
        final(out)@ == old(out)@ + escape_char(c),
{
    let ghost start = out@;
    if c == '"' {
        push_char(out, '\\');
        push_char(out, '"');
    } else if c == '\\' {
        push_char(out, '\\');
        push_char(out, '\\');
    } else if c == '\n' {
        push_char(out, '\\');
        push_char(out, 'n');
    } else if c == '\r' {
        push_char(out, '\\');
        push_char(out, 'r');
    } else if c == '\t' {
        push_char(out, '\\');
        push_char(out, 't');
    } else if (c as u32) < 0x20 {
        push_char(out, '\\');
        push_char(out, 'u');
        push_char(out, '0');
        push_char(out, '0');
        push_hex2(out, (c as u32) as u8);
        assert(out@ =~= start + escape_char(c));
        return ;
    } else {
        push_char(out, c);
    }
    assert(out@ =~= start + escape_char(c));
}

/// Append the characters `s` as a JSON string.
pub fn escape_chars(s: &[char], out: &mut String)
    ensures
        final(out)@ == old(out)@ + quoted(s@),
{
    let ghost start = out@;
    push_char(out, '"');
    let n = s.len();
    let mut i: usize = 0;
    while i < n
        invariant
            0 <= i <= n == s@.len(),
            out@ == start + seq!['"'] + escaped(s@.take(i as int)),
        decreases n - i,
    {
        assert(s@.take(i + 1).drop_last() =~= s@.take(i as int));
        push_escaped(out, s[i]);
        i += 1;
    }
    assert(s@.take(n as int) =~= s@);
    push_char(out, '"');
    assert(out@ =~= start + quoted(s@));
}

/// Append `s` as a JSON string.
pub fn escape(s: &str, out: &mut String)
    ensures
        final(out)@ == old(out)@ + quoted(s@),
{
    let cs = chars_of(s);
    escape_chars(cs.as_slice(), out);
}

// ------------------------------------------------ reading a string back
//
// What a JSON reader makes of a string literal (RFC 8259, section 7), as a
// relation between the text and the characters it stands for.

/// The value of a hexadecimal digit, either case.
pub open spec fn hex_value(c: char) -> int {
    if '0' <= c <= '9' {
        c as u32 - 48
    } else if 'a' <= c <= 'f' {
        c as u32 - 87
    } else if 'A' <= c <= 'F' {
        c as u32 - 55
    } else {
        -1
    }
}

/// The number four hexadecimal digits spell, or -1.
pub open spec fn hex4(t: Seq<char>) -> int {
    if t.len() == 4 && hex_value(t[0]) >= 0 && hex_value(t[1]) >= 0 && hex_value(t[2]) >= 0
        && hex_value(t[3]) >= 0 {
        ((hex_value(t[0]) * 16 + hex_value(t[1])) * 16 + hex_value(t[2])) * 16 + hex_value(t[3])
    } else {
        -1
    }
}

/// The character a one-letter escape `\e` stands for, if `e` is one.
pub open spec fn short_escape(e: char) -> Option<char> {
    if e == '"' {
        Some('"')
    } else if e == '\\' {
        Some('\\')
    } else if e == '/' {
        Some('/')
    } else if e == 'b' {
        Some('\u{8}')
    } else if e == 'f' {
        Some('\u{c}')
    } else if e == 'n' {
        Some('\n')
    } else if e == 'r' {
        Some('\r')
    } else if e == 't' {
        Some('\t')
    } else {
        None
    }
}

/// `t`, the inside of a JSON string literal, stands for the characters `s`:
/// unescaped characters are neither a quote, a backslash nor below U+0020;
/// `\uXXXX` gives a character outside the surrogates directly, and a high
/// and a low surrogate escape together give the character they encode.
pub open spec fn unescapes_to(t: Seq<char>, s: Seq<char>) -> bool
    decreases t.len(),
{
    if t.len() == 0 {
        s.len() == 0
    } else if s.len() == 0 {
        false
    } else if t[0] != '\\' {
        t[0] != '"' && (t[0] as u32) >= 0x20 && s[0] == t[0] && unescapes_to(t.drop_first(), s.drop_first())
    } else if t.len() < 2 {
        false
    } else if short_escape(t[1]) is Some {
        s[0] == short_escape(t[1])->0 && unescapes_to(t.skip(2), s.drop_first())
    } else if t[1] != 'u' || t.len() < 6 {
        false
    } else {
        let h = hex4(t.subrange(2, 6));
        if 0 <= h < 0xD800 || 0xE000 <= h {
            s[0] as u32 as int == h && unescapes_to(t.skip(6), s.drop_first())
        } else if 0xD800 <= h < 0xDC00 && t.len() >= 12 && t[6] == '\\' && t[7] == 'u' {
            let l = hex4(t.subrange(8, 12));
            0xDC00 <= l < 0xE000 && s[0] as u32 as int == 0x10000 + (h - 0xD800) * 0x400 + (l - 0xDC00)
                && unescapes_to(t.skip(12), s.drop_first())
        } else {
            false
        }
    }
}

/// `t` is a JSON string literal that stands for `s`.
pub open spec fn json_string_is(t: Seq<char>, s: Seq<char>) -> bool {
    t.len() >= 2 && t[0] == '"' && t.last() == '"' && unescapes_to(t.subrange(1, t.len() - 1), s)
}

proof fn lemma_escaped_first(s: Seq<char>)
    requires
        s.len() > 0,
    ensures
        escaped(s) == escape_char(s[0]) + escaped(s.drop_first()),
    decreases s.len(),
{
    if s.len() == 1 {
        assert(s.drop_last() =~= Seq::<char>::empty());
        assert(s.drop_first() =~= Seq::<char>::empty());
        assert(escaped(s.drop_first()) =~= Seq::<char>::empty());
        assert(escaped(s) =~= escape_char(s[0]));
    } else {
        lemma_escaped_first(s.drop_last());
        assert(s.drop_last().drop_first() =~= s.drop_first().drop_last());
        assert(s.drop_first().last() == s.last());
        assert(escaped(s) =~= escape_char(s[0]) + escaped(s.drop_first()));
    }
}

proof fn lemma_hex_digit(d: nat)
    requires
        d < 16,
    ensures
        hex_value(hex_digit(d)) == d,
{
}

proof fn lemma_unescapes_escaped(s: Seq<char>)
    ensures
        unescapes_to(escaped(s), s),
    decreases s.len(),
{
    if s.len() > 0 {
        lemma_escaped_first(s);
        lemma_unescapes_escaped(s.drop_first());
        let c = s[0];
        let e = escape_char(c);
        let rest = escaped(s.drop_first());
        let t = e + rest;
        assert(t.skip(e.len() as int) =~= rest);
        if c == '"' || c == '\\' || c == '\n' || c == '\r' || c == '\t' {
            assert(t[0] == '\\');
        } else if (c as u32) < 0x20 {
            let b = (c as u32) as u8;
            lemma_hex_digit((b / 16) as nat);
            lemma_hex_digit((b % 16) as nat);
            assert(t[0] == '\\' && t[1] == 'u');
            assert(t.subrange(2, 6) =~= seq!['0', '0'] + hex2(b));
            let u = t.subrange(2, 6);
            assert(u[0] == '0' && u[1] == '0');
            assert(u[2] == hex_digit((b / 16) as nat) && u[3] == hex_digit((b % 16) as nat));
            let w = c as u32;
            assert(w < 0x20);
            assert((w as u8) as u32 == w);
            assert(b as u32 == c as u32);
            assert(hex4(u) == ((0 * 16 + 0) * 16 + (b / 16) as int) * 16 + (b % 16) as int);
            assert(hex4(u) == c as u32 as int);
        } else {
            assert(t[0] == c);
            assert(t.drop_first() =~= rest);
        }
    }
}

/// Escaping is undone by reading: the text `escape` writes for `s` is one
/// JSON string literal, and a JSON reader gets `s` back from it.
pub proof fn law_escape_reads_back(s: Seq<char>)
    ensures
        json_string_is(quoted(s), s),
{
    lemma_unescapes_escaped(s);
    let t = quoted(s);
    assert(t.subrange(1, t.len() - 1) =~= escaped(s));
}

// ------------------------------------------------ what goes out as a number
//
// A value goes out unquoted exactly when it is a JSON number (RFC 8259):
//
//   Number ::= '-'? Int Frac? Exp?
//   Int    ::= '0' | [1-9] Digit*
//   Frac   ::= '.' Digit+
//   Exp    ::= [eE] [+-]? Digit+
pub open spec fn is_digit(c: char) -> bool {
    '0' <= c <= '9'
}

pub open spec fn all_digits(s: Seq<char>) -> bool {
    forall|i: int| 0 <= i < s.len() ==> is_digit(#[trigger] s[i])
}

pub open spec fn is_sign(c: char) -> bool {
    c == '+' || c == '-'
}

pub open spec fn is_exp(c: char) -> bool {
    c == 'e' || c == 'E'
}

/// Whether `c` is `lower` or its ASCII upper-case form.
pub open spec fn ascii_ci(c: char, lower: char) -> bool {
    c == lower || (c as u32) + 32 == (lower as u32)
}

/// `t` spells `word` (lower-case ASCII), ignoring ASCII case.
pub open spec fn spells(t: Seq<char>, word: Seq<char>) -> bool {
    t.len() == word.len() && forall|i: int| 0 <= i < t.len() ==> ascii_ci(#[trigger] t[i], word[i])
}

/// Where the run of digits that starts at `k` ends.
pub open spec fn digits_from(t: Seq<char>, k: int) -> int
    decreases t.len() - k,
{
    if 0 <= k < t.len() && is_digit(t[k]) {
        digits_from(t, k + 1)
    } else {
        k
    }
}

/// A JSON number's text without its leading `-`: an integer part with no
/// leading zero, then perhaps a fraction with at least one digit, then
/// perhaps an exponent with at least one digit, and nothing more.
pub open spec fn is_json_unsigned(t: Seq<char>) -> bool {
    let i = digits_from(t, 0);
    let j = if i < t.len() && t[i] == '.' {
        digits_from(t, i + 1)
    } else {
        i
    };
    let k0 = if j + 1 < t.len() && is_sign(t[j + 1]) {
        j + 2
    } else {
        j + 1
    };
    &&& i > 0
    &&& (i == 1 || t[0] != '0')
    &&& (j == i || j > i + 1)
    &&& (j == t.len() || (is_exp(t[j]) && digits_from(t, k0) > k0 && digits_from(t, k0)
        == t.len()))
}

/// Whether `s` is a JSON number.
pub open spec fn is_json_number(s: Seq<char>) -> bool {
    if s.len() >= 1 && s[0] == '-' {
        is_json_unsigned(s.drop_first())
    } else {
        is_json_unsigned(s)
    }
}

/// Numbers go out unquoted so a consumer can do arithmetic; everything else,
/// "0130" (a Fujifilm version) and "NaN" among it, is a string.
pub open spec fn is_plain_number(s: Seq<char>) -> bool {
    is_json_number(s)
}

/// What `scalar` writes for `s`.
pub open spec fn scalar_text(s: Seq<char>) -> Seq<char> {
    if is_plain_number(s) {
        s
    } else {
        quoted(s)
    }
}

/// Whether `s[from..]` spells `word`, ignoring ASCII case.
pub fn spells_from(s: &Vec<char>, from: usize, word: &str) -> (r: bool)
    requires
        from <= s@.len(),
    ensures
        r == spells(s@.skip(from as int), word@),
{
    let ghost t = s@.skip(from as int);
    let n = word.unicode_len();
    if s.len() - from != n {
        return false;
    }
    let mut i: usize = 0;
    while i < n
        invariant
            0 <= i <= n == word@.len(),
            from + n == s@.len() <= usize::MAX,
            t == s@.skip(from as int),
            t.len() == n,
            forall|j: int| 0 <= j < i ==> ascii_ci(#[trigger] t[j], word@[j]),
        decreases n - i,
    {
        let c = s[from + i];
        let w = word.get_char(i);
        assert(t[i as int] == c);
        if !(c == w || ((w as u32) >= 32 && (c as u32) == (w as u32) - 32)) {
            return false;
        }
        i += 1;
    }
    true
}

/// The characters of `s`, one by one.
pub fn chars_of(s: &str) -> (r: Vec<char>)
    ensures
        r@ == s@,
{
    broadcast use vstd::string::axiom_spec_iter;
    let mut v: Vec<char> = Vec::new();
    for c in it: s.chars()
        invariant
            it.seq() == s@,
            v@ == s@.take(it.index() as int),
    {
        v.push(c);
    }
    assert(s@.take(s@.len() as int) =~= s@);
    v
}

/// Append `s` as a JSON scalar: a number unquoted so a consumer can do
/// arithmetic, anything else as a string.
pub fn scalar(s: &str, out: &mut String)
    ensures
        final(out)@ == old(out)@ + scalar_text(s@),
{
    let cs = chars_of(s);
    if json_number(&cs) {
        out.append(s);
    } else {
        escape(s, out);
    }
}

proof fn lemma_digits_from(t: Seq<char>, k: int)
    requires
        0 <= k <= t.len(),
    ensures
        k <= digits_from(t, k) <= t.len(),
    decreases t.len() - k,
{
    if k < t.len() && is_digit(t[k]) {
        lemma_digits_from(t, k + 1);
    }
}

fn digits_end(t: &Vec<char>, k: usize) -> (r: usize)
    requires
        k <= t@.len(),
    ensures
        r == digits_from(t@, k as int),
        k <= r <= t@.len(),
{
    proof {
        lemma_digits_from(t@, k as int);
    }
    let mut i = k;
    while i < t.len() && '0' <= t[i] && t[i] <= '9'
        invariant
            k <= i <= t@.len(),
            digits_from(t@, k as int) == digits_from(t@, i as int),
        decreases t@.len() - i,
    {
        i += 1;
    }
    i
}

/// Whether `s` is a JSON number.
fn json_number(s: &Vec<char>) -> (r: bool)
    ensures
        r == is_json_number(s@),
{
    let n = s.len();
    let start: usize = if n >= 1 && s[0] == '-' {
        1
    } else {
        0
    };
    let ghost t = s@.skip(start as int);
    assert(t =~= if s@.len() >= 1 && s@[0] == '-' {
        s@.drop_first()
    } else {
        s@
    });
    let i = digits_end(s, start);
    proof {
        lemma_shift_digits(s@, start as int, start as int);
    }
    if i == start {
        return false;
    }
    if i - start > 1 && s[start] == '0' {
        return false;
    }
    let j = if i < n && s[i] == '.' {
        proof {
            lemma_shift_digits(s@, start as int, i + 1);
        }
        digits_end(s, i + 1)
    } else {
        i
    };
    if j > i && j - i == 1 {
        return false;
    }
    if j == n {
        return true;
    }
    if !(s[j] == 'e' || s[j] == 'E') {
        return false;
    }
    let k0 = if j + 1 < n && (s[j + 1] == '+' || s[j + 1] == '-') {
        j + 2
    } else {
        j + 1
    };
    proof {
        lemma_shift_digits(s@, start as int, k0 as int);
    }
    let e = digits_end(s, k0);
    e > k0 && e == n
}

/// Digit runs read the same in a suffix of `s`, shifted by where it starts.
proof fn lemma_shift_digits(s: Seq<char>, start: int, k: int)
    requires
        0 <= start <= k <= s.len(),
    ensures
        digits_from(s.skip(start), k - start) == digits_from(s, k) - start,
    decreases s.len() - k,
{
    if k < s.len() && is_digit(s[k]) {
        assert(s.skip(start)[k - start] == s[k]);
        lemma_shift_digits(s, start, k + 1);
    } else if k < s.len() {
        assert(s.skip(start)[k - start] == s[k]);
    }
}

} // verus!
