//! Byte-string helpers shared by the container parsers.

use vstd::prelude::*;

verus! {

/// Whether `d` opens with `prefix`.
pub open spec fn starts_with(d: Seq<u8>, prefix: Seq<u8>) -> bool {
    prefix.len() <= d.len() && d.take(prefix.len() as int) == prefix
}

/// Whether `d` opens with `prefix`.
pub fn has_prefix(d: &[u8], prefix: &[u8]) -> (r: bool)
    ensures
        r == starts_with(d@, prefix@),
{
    if prefix.len() > d.len() {
        return false;
    }
    let mut i: usize = 0;
    while i < prefix.len()
        invariant
            0 <= i <= prefix@.len() <= d@.len(),
            forall|j: int| 0 <= j < i ==> d@[j] == prefix@[j],
        decreases prefix.len() - i,
    {
        if d[i] != prefix[i] {
            assert(d@.take(prefix@.len() as int)[i as int] != prefix@[i as int]);
            return false;
        }
        i += 1;
    }
    assert(d@.take(prefix@.len() as int) =~= prefix@);
    true
}

/// Whether `d[at..at + want.len()]` is `want`.
pub fn bytes_at(d: &[u8], at: usize, want: &[u8]) -> (r: bool)
    ensures
        r == (at + want@.len() <= d@.len() && d@.subrange(at as int, at + want@.len()) == want@),
{
    if at > d.len() || want.len() > d.len() - at {
        return false;
    }
    let mut i: usize = 0;
    while i < want.len()
        invariant
            0 <= i <= want@.len(),
            at + want@.len() <= d@.len(),
            d@.len() <= usize::MAX,
            forall|j: int| 0 <= j < i ==> d@[at + j] == want@[j],
        decreases want.len() - i,
    {
        if d[at + i] != want[i] {
            assert(d@.subrange(at as int, at + want@.len())[i as int] != want@[i as int]);
            return false;
        }
        i += 1;
    }
    assert(d@.subrange(at as int, at + want@.len()) =~= want@);
    true
}


/// Append every byte of `s` to `out`.
pub fn append_bytes(out: &mut Vec<u8>, s: &[u8])
    ensures
        final(out)@ == old(out)@ + s@,
{
    let ghost start = out@;
    let mut i: usize = 0;
    while i < s.len()
        invariant
            0 <= i <= s@.len(),
            out@ == start + s@.take(i as int),
        decreases s.len() - i,
    {
        out.push(s[i]);
        i += 1;
        assert(s@.take(i as int) =~= s@.take(i - 1).push(s@[i - 1]));
    }
    assert(s@.take(s@.len() as int) =~= s@);
}

} // verus!
