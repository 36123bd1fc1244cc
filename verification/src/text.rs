//! Text built from numbers and bytes, and the few string operations of std
//! that the rest of the library leans on.

use vstd::prelude::*;

verus! {

/// The ASCII digit for `d`, which is below 10.
pub open spec fn digit(d: nat) -> char {
    ((48 + d) as u8) as char
}

/// The decimal digits of a natural number, most significant first.
pub open spec fn dec_nat(n: nat) -> Seq<char>
    decreases n,
{
    if n < 10 {
        seq![digit(n)]
    } else {
        dec_nat(n / 10).push(digit(n % 10))
    }
}

/// A signed integer in decimal, with a leading `-` when it is negative.
pub open spec fn dec_int(i: int) -> Seq<char> {
    if i < 0 {
        seq!['-'] + dec_nat((-i) as nat)
    } else {
        dec_nat(i as nat)
    }
}

/// A lower-case hexadecimal digit for `d`, which is below 16.
pub open spec fn hex_digit(d: nat) -> char {
    if d < 10 {
        ((48 + d) as u8) as char
    } else {
        ((87 + d) as u8) as char
    }
}

/// A byte as two lower-case hexadecimal digits.
pub open spec fn hex2(b: u8) -> Seq<char> {
    seq![hex_digit((b / 16) as nat), hex_digit((b % 16) as nat)]
}

/// Parts joined with a single space between them.
pub open spec fn join_words(parts: Seq<Seq<char>>) -> Seq<char>
    decreases parts.len(),
{
    if parts.len() == 0 {
        Seq::empty()
    } else if parts.len() == 1 {
        parts[0]
    } else {
        join_words(parts.drop_last()) + seq![' '] + parts.last()
    }
}

/// Append one character.
///
/// Wraps `String::push`, which std documents as appending the character to
/// the end of the string.
#[verifier::external_body]
pub(crate) fn push_char(s: &mut String, c: char)
    ensures
        final(s)@ == old(s)@.push(c),
{
    s.push(c);
}

/// Whether two string slices hold the same text.
pub(crate) fn str_eq(a: &str, b: &str) -> (r: bool)
    ensures
        r == (a@ == b@),
{
    let x = crate::json::chars_of(a);
    let y = crate::json::chars_of(b);
    crate::site::chars_eq(&x, &y)
}

/// Append the decimal form of `n`.
pub fn push_dec(out: &mut String, n: u64)
    ensures
        final(out)@ == old(out)@ + dec_nat(n as nat),
    decreases n,
{
    if n >= 10 {
        push_dec(out, n / 10);
    }
    let d: u8 = (n % 10) as u8;
    push_char(out, (48u8 + d) as char);
    assert(dec_nat(n as nat) == if n < 10 {
        seq![digit(n as nat)]
    } else {
        dec_nat((n / 10) as nat).push(digit((n % 10) as nat))
    });
}

/// Append the decimal form of a signed `n`.
pub fn push_int(out: &mut String, n: i64)
    ensures
        final(out)@ == old(out)@ + dec_int(n as int),
{
    if n < 0 {
        push_char(out, '-');
        let m: u64 = ((-(n + 1)) as u64) + 1;
        push_dec(out, m);
        assert(old(out)@.push('-') + dec_nat(m as nat) == old(out)@ + (seq!['-'] + dec_nat(
            m as nat,
        )));
    } else {
        push_dec(out, n as u64);
    }
}

/// The decimal form of `n`.
pub fn dec_string(n: u64) -> (r: String)
    ensures
        r@ == dec_nat(n as nat),
{
    let mut s = String::new();
    push_dec(&mut s, n);
    assert(Seq::<char>::empty() + dec_nat(n as nat) == dec_nat(n as nat));
    s
}

/// The decimal form of a signed `n`.
pub fn int_string(n: i64) -> (r: String)
    ensures
        r@ == dec_int(n as int),
{
    let mut s = String::new();
    push_int(&mut s, n);
    assert(Seq::<char>::empty() + dec_int(n as int) == dec_int(n as int));
    s
}

fn hex_char(d: u8) -> (c: char)
    requires
        d < 16,
    ensures
        c == hex_digit(d as nat),
{
    if d < 10 {
        (48u8 + d) as char
    } else {
        (87u8 + d) as char
    }
}

/// Append a byte as two lower-case hexadecimal digits.
pub fn push_hex2(out: &mut String, b: u8)
    ensures
        final(out)@ == old(out)@ + hex2(b),
{
    push_char(out, hex_char(b / 16));
    push_char(out, hex_char(b % 16));
    assert(old(out)@.push(hex_digit((b / 16) as nat)).push(hex_digit((b % 16) as nat)) =~= old(
        out,
    )@ + hex2(b));
}

/// The lower-case hexadecimal digits of a natural number, most significant
/// first.
pub open spec fn hex_nat(n: nat) -> Seq<char>
    decreases n,
{
    if n < 16 {
        seq![hex_digit(n)]
    } else {
        hex_nat(n / 16).push(hex_digit(n % 16))
    }
}

/// Append the lower-case hexadecimal form of `n`.
pub fn push_hex(out: &mut String, n: u64)
    ensures
        final(out)@ == old(out)@ + hex_nat(n as nat),
    decreases n,
{
    if n >= 16 {
        push_hex(out, n / 16);
    }
    let d: u8 = (n % 16) as u8;
    push_char(out, hex_char(d));
    assert(hex_nat(n as nat) == if n < 16 {
        seq![hex_digit(n as nat)]
    } else {
        hex_nat((n / 16) as nat).push(hex_digit((n % 16) as nat))
    });
}

/// What `<char as Debug>::fmt` writes for `c`: the character in single
/// quotes, escaped as `char::escape_debug` escapes it.
pub uninterp spec fn char_debug(c: char) -> Seq<char>;

/// A character as `{:?}` shows it.
///
/// Wraps `<char as Debug>::fmt`. Its documentation gives the quoted form; for
/// printable ASCII other than the quote and the backslash, nothing is
/// escaped, which is stated; the escapes of the rest are left to the name
/// `char_debug`.
#[verifier::external_body]
pub(crate) fn debug_char(c: char) -> (r: String)
    ensures
        r@ == char_debug(c),
        (0x20 <= (c as u32) <= 0x7e && c != '\'' && c != '\\') ==> r@ == seq!['\'', c, '\''],
{
    format!("{:?}", c)
}

/// What `String::from_utf8_lossy` makes of `bytes`: the text they encode,
/// with every invalid sequence replaced by U+FFFD.
pub uninterp spec fn utf8_lossy(bytes: Seq<u8>) -> Seq<char>;

/// Decode bytes as UTF-8, replacing what does not decode.
///
/// Wraps `String::from_utf8_lossy`. Its documentation promises the decoded
/// text for valid UTF-8, which is stated here; which replacement characters
/// stand for an invalid sequence is left to the name `utf8_lossy`.
#[verifier::external_body]
pub(crate) fn from_utf8_lossy(bytes: &[u8]) -> (s: String)
    ensures
        s@ == utf8_lossy(bytes@),
        vstd::utf8::valid_utf8(bytes@) ==> s@ == vstd::utf8::decode_utf8(bytes@),
{
    String::from_utf8_lossy(bytes).into_owned()
}

/// Unicode White_Space, the property `char::is_whitespace` tests.
pub open spec fn is_white_space(c: char) -> bool {
    let u = c as u32;
    (0x09 <= u <= 0x0d) || u == 0x20 || u == 0x85 || u == 0xa0 || u == 0x1680 || (0x2000 <= u
        <= 0x200a) || u == 0x2028 || u == 0x2029 || u == 0x202f || u == 0x205f || u == 0x3000
}

/// `s` without its leading White_Space.
pub open spec fn trim_start(s: Seq<char>) -> Seq<char>
    decreases s.len(),
{
    if s.len() > 0 && is_white_space(s[0]) {
        trim_start(s.drop_first())
    } else {
        s
    }
}

/// `s` without its trailing White_Space.
pub open spec fn trim_end(s: Seq<char>) -> Seq<char>
    decreases s.len(),
{
    if s.len() > 0 && is_white_space(s.last()) {
        trim_end(s.drop_last())
    } else {
        s
    }
}

/// `s` without leading or trailing White_Space.
pub open spec fn trim(s: Seq<char>) -> Seq<char> {
    trim_end(trim_start(s))
}

/// Strip leading and trailing whitespace.
///
/// Wraps `str::trim`, documented as removing leading and trailing characters
/// with the Unicode White_Space property.
#[verifier::external_body]
pub(crate) fn trimmed(s: &str) -> (r: &str)
    ensures
        r@ == trim(s@),
{
    s.trim()
}

/// A path that is one plain file name on every platform: not empty, not
/// `.` or `..`, and without `/`, `\\` or `:`, so that it has no separator,
/// no root and no drive prefix.
pub open spec fn plain_name(s: Seq<char>) -> bool {
    &&& s.len() > 0
    &&& s != "."@
    &&& s != ".."@
    &&& forall|i: int| 0 <= i < s.len() ==> #[trigger] s[i] != '/' && s[i] != '\\' && s[i] != ':'
}

/// The text after the last `/` of `path`; all of it where it has none.
pub open spec fn last_part(path: Seq<char>) -> Seq<char>
    decreases path.len(),
{
    if path.len() == 0 {
        path
    } else if path.last() == '/' {
        Seq::empty()
    } else {
        last_part(path.drop_last()).push(path.last())
    }
}

/// A path whose final component is the same on every platform: no `\\` and
/// no `:` anywhere, so no other separator and no drive prefix; not opening
/// with `//`, so no network prefix; and a plain file name after its last
/// `/`. Its file name is that last part.
pub open spec fn plain_path(path: Seq<char>) -> bool {
    &&& forall|i: int| 0 <= i < path.len() ==> #[trigger] path[i] != '\\' && path[i] != ':'
    &&& !(path.len() >= 2 && path[0] == '/' && path[1] == '/')
    &&& plain_name(last_part(path))
}

/// The file name at the end of `path`, as text.
///
/// Wraps `std::path::Path::file_name`, which the documentation describes as
/// the final component of the path, when it is a normal one. Which part that
/// is depends on the platform's separators, so for a general path what is
/// stated is only that it is a run of the path's own characters. For a path
/// whose only separator is `/` and that has no prefix, the final component
/// on every platform is the plain name after its last `/`, and that is
/// stated.
#[verifier::external_body]
pub(crate) fn file_name(path: &str) -> (r: Option<String>)
    ensures
        r matches Some(s) ==> exists|i: int, j: int|
            0 <= i <= j <= path@.len() && s@ == path@.subrange(i, j),
        match r {
            Some(s) => plain_path(path@) ==> s@ == last_part(path@),
            None => !plain_path(path@),
        },
{
    std::path::Path::new(path).file_name().map(|s| s.to_string_lossy().into_owned())
}

} // verus!
