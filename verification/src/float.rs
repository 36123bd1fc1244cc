//! Binary floating-point values, held by their IEEE 754 bits.
//!
//! The library stores a float exactly as the file wrote it and never does
//! floating-point arithmetic on it. The one question it asks of a float is the
//! one `as i64` answers: the value truncated toward zero, saturated at the
//! bounds of `i64`, with NaN read as 0.

use vstd::arithmetic::div_mod::*;
use vstd::arithmetic::power2::*;
use vstd::bits::*;
use vstd::prelude::*;

verus! {

/// The magnitude of a finite float, truncated toward zero: the significand
/// `m` scaled by two to the power `e - shift`.
pub open spec fn scaled(m: nat, e: nat, shift: nat) -> nat {
    if e >= shift {
        m * pow2((e - shift) as nat)
    } else {
        m / pow2((shift - e) as nat)
    }
}

/// What `as i64` gives for the binary float with these bits, where the format
/// has `ebits` exponent bits and `fbits` fraction bits.
pub open spec fn trunc_to_i64(bits: nat, ebits: nat, fbits: nat) -> i64 {
    let frac = bits % pow2(fbits);
    let exp = (bits / pow2(fbits)) % pow2(ebits);
    let neg = (bits / pow2(fbits + ebits)) % 2 == 1;
    let bias = (pow2((ebits - 1) as nat) - 1) as nat;
    if exp == pow2(ebits) - 1 {
        if frac != 0 {
            0
        } else if neg {
            i64::MIN
        } else {
            i64::MAX
        }
    } else {
        let m = if exp == 0 {
            frac
        } else {
            frac + pow2(fbits)
        };
        let e = if exp == 0 {
            1
        } else {
            exp
        };
        let mag = scaled(m, e, bias + fbits);
        if neg {
            if mag >= pow2(63) {
                i64::MIN
            } else {
                (-mag) as i64
            }
        } else {
            if mag >= pow2(63) {
                i64::MAX
            } else {
                mag as i64
            }
        }
    }
}

proof fn lemma_big_divisor(m: nat, s: nat, k: nat)
    requires
        m < pow2(k),
        k <= s,
    ensures
        m / pow2(s) == 0,
{
    if k < s {
        lemma_pow2_strictly_increases(k, s);
    }
    lemma_basic_div(m as int, pow2(s) as int);
}

proof fn lemma_big_product(m: nat, s: nat, k: nat, j: nat)
    requires
        m >= pow2(k),
        s >= j,
        k + j == 63,
    ensures
        m * pow2(s) >= pow2(63),
{
    if j < s {
        lemma_pow2_strictly_increases(j, s);
    }
    lemma_pow2_adds(k, j);
    lemma_pow2_pos(s);
    vstd::arithmetic::mul::lemma_mul_inequality(pow2(k) as int, m as int, pow2(s) as int);
    vstd::arithmetic::mul::lemma_mul_inequality(pow2(j) as int, pow2(s) as int, pow2(k) as int);
    vstd::arithmetic::mul::lemma_mul_is_commutative(pow2(j) as int, pow2(k) as int);
}

/// Truncate a magnitude `m * 2^(e - shift)` and give it a sign, as `as i64`
/// does once the float is known to be finite.
fn finish(neg: bool, m: u64, e: u64, shift: u64, mbits: u64) -> (r: i64)
    requires
        m < pow2(mbits as nat),
        m >= pow2((mbits - 1) as nat) || e <= shift,
        1 <= mbits <= 53,
        shift <= 4096,
        e <= 4096,
    ensures
        r == (if neg {
            if scaled(m as nat, e as nat, shift as nat) >= pow2(63) {
                i64::MIN
            } else {
                (-scaled(m as nat, e as nat, shift as nat)) as i64
            }
        } else {
            if scaled(m as nat, e as nat, shift as nat) >= pow2(63) {
                i64::MAX
            } else {
                scaled(m as nat, e as nat, shift as nat) as i64
            }
        }),
{
    proof {
        lemma2_to64();
        lemma2_to64_rest();
    }
    let mag: u64;
    let big: bool;
    if e >= shift {
        let s: u64 = e - shift;
        if s + mbits >= 64 {
            proof {
                lemma_big_product(m as nat, s as nat, (mbits - 1) as nat, (64 - mbits) as nat);
            }
            return if neg {
                i64::MIN
            } else {
                i64::MAX
            };
        }
        proof {
            lemma_pow2_adds(mbits as nat, s as nat);
            lemma_pow2_strictly_increases((mbits + s) as nat, 64);
            lemma_pow2_pos(s as nat);
            vstd::arithmetic::mul::lemma_mul_strict_inequality(
                m as int,
                pow2(mbits as nat) as int,
                pow2(s as nat) as int,
            );
            lemma_u64_shl_is_mul(m, s);
        }
        mag = m << s;
    } else {
        let s: u64 = shift - e;
        if s >= 64 {
            proof {
                lemma_pow2_strictly_increases(mbits as nat, 64);
                lemma_big_divisor(m as nat, s as nat, 64);
            }
            mag = 0;
        } else {
            proof {
                lemma_u64_shr_is_div(m, s);
            }
            mag = m >> s;
        }
    }
    assert(mag == scaled(m as nat, e as nat, shift as nat));
    if neg {
        if mag >= 0x8000_0000_0000_0000 {
            i64::MIN
        } else {
            -(mag as i64)
        }
    } else {
        if mag >= 0x8000_0000_0000_0000 {
            i64::MAX
        } else {
            mag as i64
        }
    }
}

/// `as i64` of the double whose bits are `bits`.
pub fn f64_to_i64(bits: u64) -> (r: i64)
    ensures
        r == trunc_to_i64(bits as nat, 11, 52),
{
    proof {
        lemma2_to64();
        lemma2_to64_rest();
    }
    let frac: u64 = bits % 0x10_0000_0000_0000;
    let exp: u64 = (bits / 0x10_0000_0000_0000) % 2048;
    let neg: bool = bits >= 0x8000_0000_0000_0000;
    assert(neg == ((bits as nat / pow2(63)) % 2 == 1));
    if exp == 2047 {
        return if frac != 0 {
            0
        } else if neg {
            i64::MIN
        } else {
            i64::MAX
        };
    }
    let m: u64 = if exp == 0 {
        frac
    } else {
        frac + 0x10_0000_0000_0000
    };
    let e: u64 = if exp == 0 {
        1
    } else {
        exp
    };
    finish(neg, m, e, 1075, 53)
}

/// `as i64` of the single whose bits are `bits`, widened to a double first
/// (which is exact).
pub fn f32_to_i64(bits: u32) -> (r: i64)
    ensures
        r == trunc_to_i64(bits as nat, 8, 23),
{
    proof {
        lemma2_to64();
    }
    let frac: u64 = (bits % 0x80_0000) as u64;
    let exp: u64 = ((bits / 0x80_0000) % 256) as u64;
    let neg: bool = bits >= 0x8000_0000;
    assert(neg == ((bits as nat / pow2(31)) % 2 == 1));
    if exp == 255 {
        return if frac != 0 {
            0
        } else if neg {
            i64::MIN
        } else {
            i64::MAX
        };
    }
    let m: u64 = if exp == 0 {
        frac
    } else {
        frac + 0x80_0000
    };
    let e: u64 = if exp == 0 {
        1
    } else {
        exp
    };
    finish(neg, m, e, 150, 24)
}

} // verus!
