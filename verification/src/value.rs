//! Tag values.
//!
//! Every value is kept the way the file stores it: integers as integers,
//! rationals unreduced, and floats by their IEEE 754 bits. How a value reads to
//! a person is a separate question, answered by `display_exact` here and by
//! the tag conversions in `tags`.

use crate::float::{f32_to_i64, f64_to_i64, trunc_to_i64};
use crate::text::{dec_int, dec_nat, dec_string, hex2, int_string, join_words, push_char, push_dec, push_hex2, push_int};
use vstd::prelude::*;

verus! {

#[derive(Debug, Clone)]
pub enum Value {
    U32(u32),
    I32(i32),
    /// A single-precision float, by its bits.
    F32(u32),
    /// A double-precision float, by its bits.
    F64(u64),
    Text(String),
    Bytes(Vec<u8>),
    U32s(Vec<u32>),
    I32s(Vec<i32>),
    /// numerator, denominator, kept unreduced so a 0/0 stays distinguishable
    /// from a 0/1. Fujifilm writes 0/0 for the aperture of an adapted manual
    /// lens, and "undef" is the honest reading of that.
    Ratio(i64, i64),
    Ratios(Vec<(i64, i64)>),
}

/// A value as mathematics sees it.
pub enum ValueV {
    U32(u32),
    I32(i32),
    F32(u32),
    F64(u64),
    Text(Seq<char>),
    Bytes(Seq<u8>),
    U32s(Seq<u32>),
    I32s(Seq<i32>),
    Ratio(i64, i64),
    Ratios(Seq<(i64, i64)>),
}

impl View for Value {
    type V = ValueV;

    open spec fn view(&self) -> ValueV {
        match self {
            Value::U32(n) => ValueV::U32(*n),
            Value::I32(n) => ValueV::I32(*n),
            Value::F32(b) => ValueV::F32(*b),
            Value::F64(b) => ValueV::F64(*b),
            Value::Text(s) => ValueV::Text(s@),
            Value::Bytes(b) => ValueV::Bytes(b@),
            Value::U32s(v) => ValueV::U32s(v@),
            Value::I32s(v) => ValueV::I32s(v@),
            Value::Ratio(n, d) => ValueV::Ratio(*n, *d),
            Value::Ratios(v) => ValueV::Ratios(v@),
        }
    }
}

/// Integer division rounding toward zero, which is what `/` does on `i64`.
pub open spec fn div_trunc(n: int, d: int) -> int {
    let q = (if n < 0 {
        -n
    } else {
        n
    }) / (if d < 0 {
        -d
    } else {
        d
    });
    if (n < 0) != (d < 0) {
        -q
    } else {
        q
    }
}

/// A value `as_i64` can take without overflowing: the one quotient that does
/// not fit, `i64::MIN / -1`, is left out.
pub open spec fn value_ok(v: ValueV) -> bool {
    !(v matches ValueV::Ratio(n, d) && n == i64::MIN && d == -1)
}

/// The number, when there is a single integer-valued reading of it.
pub open spec fn as_i64(v: ValueV) -> Option<i64> {
    match v {
        ValueV::U32(n) => Some(n as i64),
        ValueV::I32(n) => Some(n as i64),
        ValueV::F32(b) => Some(trunc_to_i64(b as nat, 8, 23)),
        ValueV::F64(b) => Some(trunc_to_i64(b as nat, 11, 52)),
        ValueV::Ratio(n, d) => if d != 0 {
            Some(div_trunc(n as int, d as int) as i64)
        } else {
            None
        },
        _ => None,
    }
}

/// Bytes as lower-case hexadecimal, two digits each, with no separator.
pub open spec fn hex_bytes(b: Seq<u8>) -> Seq<char>
    decreases b.len(),
{
    if b.len() == 0 {
        Seq::empty()
    } else {
        hex_bytes(b.drop_last()) + hex2(b.last())
    }
}

/// Every rational in the list has a zero denominator.
pub open spec fn all_undef(v: Seq<(i64, i64)>) -> bool {
    forall|i: int| 0 <= i < v.len() ==> #[trigger] v[i].1 == 0
}

/// The default rendering, when it needs no floating-point formatting.
///
/// Integers print in decimal, bytes in hexadecimal, lists with single spaces,
/// and a rational with a zero denominator as `undef`. A float, or a rational
/// that has a value, prints through floating-point formatting, and there this
/// is `None`.
pub open spec fn display_exact(v: ValueV) -> Option<Seq<char>> {
    match v {
        ValueV::U32(n) => Some(dec_nat(n as nat)),
        ValueV::I32(n) => Some(dec_int(n as int)),
        ValueV::F32(_) => None,
        ValueV::F64(_) => None,
        ValueV::Text(s) => Some(s),
        ValueV::Bytes(b) => Some(hex_bytes(b)),
        ValueV::U32s(v) => Some(join_words(v.map_values(|x: u32| dec_nat(x as nat)))),
        ValueV::I32s(v) => Some(join_words(v.map_values(|x: i32| dec_int(x as int)))),
        ValueV::Ratio(_, d) => if d == 0 {
            Some("undef"@)
        } else {
            None
        },
        ValueV::Ratios(v) => if all_undef(v) {
            Some(join_words(v.map_values(|r: (i64, i64)| "undef"@)))
        } else {
            None
        },
    }
}

/// A copy of a vector of plain values.
pub fn copy_vec<T: Copy>(v: &Vec<T>) -> (r: Vec<T>)
    ensures
        r@ == v@,
{
    let mut r: Vec<T> = Vec::new();
    let mut i: usize = 0;
    while i < v.len()
        invariant
            0 <= i <= v.len(),
            r@ == v@.take(i as int),
        decreases v.len() - i,
    {
        r.push(v[i]);
        assert(v@.take(i + 1) =~= v@.take(i as int).push(v@[i as int]));
        i += 1;
    }
    assert(v@.take(v.len() as int) =~= v@);
    r
}

proof fn lemma_join_step(parts: Seq<Seq<char>>, i: int)
    requires
        0 <= i < parts.len(),
    ensures
        join_words(parts.take(i + 1)) == if i == 0 {
            parts[0]
        } else {
            join_words(parts.take(i)) + seq![' '] + parts[i]
        },
{
    assert(parts.take(i + 1).drop_last() =~= parts.take(i));
    if i == 0 {
        assert(parts.take(1)[0] == parts[0]);
    }
}

impl Value {
    pub open spec fn ok(&self) -> bool {
        value_ok(self@)
    }

    pub fn as_i64(&self) -> (r: Option<i64>)
        requires
            self.ok(),
        ensures
            r == as_i64(self@),
    {
        match self {
            Value::U32(v) => Some(*v as i64),
            Value::I32(v) => Some(*v as i64),
            Value::F32(b) => Some(f32_to_i64(*b)),
            Value::F64(b) => Some(f64_to_i64(*b)),
            Value::Ratio(n, d) => {
                if *d == 0 {
                    None
                } else {
                    let an: u64 = if *n < 0 {
                        ((-(*n + 1)) as u64) + 1
                    } else {
                        *n as u64
                    };
                    let ad: u64 = if *d < 0 {
                        ((-(*d + 1)) as u64) + 1
                    } else {
                        *d as u64
                    };
                    let q: u64 = an / ad;
                    if (*n < 0) != (*d < 0) {
                        // q <= 2^63 here, since |d| >= 1.
                        Some(if q == 0x8000_0000_0000_0000 {
                            i64::MIN
                        } else {
                            -(q as i64)
                        })
                    } else {
                        // q == 2^63 only for MIN / -1, which is left out.
                        assert(q < 0x8000_0000_0000_0000) by (nonlinear_arith)
                            requires
                                an <= 0x8000_0000_0000_0000,
                                ad >= 1,
                                q == an / ad,
                                an == 0x8000_0000_0000_0000 ==> ad >= 2,
                        ;
                        Some(q as i64)
                    }
                }
            },
            _ => None,
        }
    }

    /// A copy with the same view.
    pub fn duplicate(&self) -> (r: Value)
        ensures
            r@ == self@,
    {
        match self {
            Value::U32(n) => Value::U32(*n),
            Value::I32(n) => Value::I32(*n),
            Value::F32(b) => Value::F32(*b),
            Value::F64(b) => Value::F64(*b),
            Value::Text(s) => Value::Text(s.clone()),
            Value::Bytes(b) => Value::Bytes(copy_vec(b)),
            Value::U32s(v) => Value::U32s(copy_vec(v)),
            Value::I32s(v) => Value::I32s(copy_vec(v)),
            Value::Ratio(n, d) => Value::Ratio(*n, *d),
            Value::Ratios(v) => Value::Ratios(copy_vec(v)),
        }
    }

    pub fn as_str(&self) -> (r: Option<&str>)
        ensures
            match self@ {
                ValueV::Text(s) => r matches Some(t) && t@ == s,
                _ => r is None,
            },
    {
        match self {
            Value::Text(s) => Some(s.as_str()),
            _ => None,
        }
    }

    /// The default rendering where it needs no floating-point formatting.
    pub fn display_exact(&self) -> (r: Option<String>)
        ensures
            match r {
                Some(s) => display_exact(self@) == Some(s@),
                None => display_exact(self@) is None,
            },
    {
        match self {
            Value::U32(v) => Some(dec_string(*v as u64)),
            Value::I32(v) => Some(int_string(*v as i64)),
            Value::F32(_) => None,
            Value::F64(_) => None,
            Value::Text(s) => Some(s.clone()),
            Value::Bytes(b) => {
                let mut out = String::new();
                let mut i: usize = 0;
                while i < b.len()
                    invariant
                        0 <= i <= b.len(),
                        out@ == hex_bytes(b@.take(i as int)),
                    decreases b.len() - i,
                {
                    push_hex2(&mut out, b[i]);
                    assert(b@.take(i + 1).drop_last() =~= b@.take(i as int));
                    i += 1;
                }
                assert(b@.take(b.len() as int) =~= b@);
                Some(out)
            },
            Value::U32s(v) => {
                let ghost parts = v@.map_values(|x: u32| dec_nat(x as nat));
                let mut out = String::new();
                let mut i: usize = 0;
                while i < v.len()
                    invariant
                        0 <= i <= v.len(),
                        parts == v@.map_values(|x: u32| dec_nat(x as nat)),
                        out@ == join_words(parts.take(i as int)),
                    decreases v.len() - i,
                {
                    proof {
                        lemma_join_step(parts, i as int);
                    }
                    if i > 0 {
                        push_char(&mut out, ' ');
                    }
                    push_dec(&mut out, v[i] as u64);
                    i += 1;
                }
                assert(parts.take(v.len() as int) =~= parts);
                Some(out)
            },
            Value::I32s(v) => {
                let ghost parts = v@.map_values(|x: i32| dec_int(x as int));
                let mut out = String::new();
                let mut i: usize = 0;
                while i < v.len()
                    invariant
                        0 <= i <= v.len(),
                        parts == v@.map_values(|x: i32| dec_int(x as int)),
                        out@ == join_words(parts.take(i as int)),
                    decreases v.len() - i,
                {
                    proof {
                        lemma_join_step(parts, i as int);
                    }
                    if i > 0 {
                        push_char(&mut out, ' ');
                    }
                    push_int(&mut out, v[i] as i64);
                    i += 1;
                }
                assert(parts.take(v.len() as int) =~= parts);
                Some(out)
            },
            Value::Ratio(_, d) => {
                if *d == 0 {
                    Some(String::from_str("undef"))
                } else {
                    None
                }
            },
            Value::Ratios(v) => {
                let ghost parts = v@.map_values(|r: (i64, i64)| "undef"@);
                let mut out = String::new();
                let mut i: usize = 0;
                while i < v.len()
                    invariant
                        0 <= i <= v.len(),
                        parts == v@.map_values(|r: (i64, i64)| "undef"@),
                        out@ == join_words(parts.take(i as int)),
                        forall|j: int| 0 <= j < i ==> #[trigger] v@[j].1 == 0,
                        self@ == ValueV::Ratios(v@),
                    decreases v.len() - i,
                {
                    if v[i].1 != 0 {
                        assert(v@[i as int].1 != 0);
                        assert(!all_undef(v@));
                        return None;
                    }
                    proof {
                        lemma_join_step(parts, i as int);
                    }
                    if i > 0 {
                        push_char(&mut out, ' ');
                    }
                    out.append("undef");
                    i += 1;
                }
                assert(parts.take(v.len() as int) =~= parts);
                Some(out)
            },
        }
    }
}

} // verus!
