//! Byte-string helpers shared by the rest of the library.

use vstd::prelude::*;

verus! {

/// Whether position `i` of `s` starts a UTF-8 character (or is an end of `s`):
/// the byte there is not a continuation byte.
pub open spec fn at_char_boundary(s: Seq<u8>, i: int) -> bool {
    ||| i == 0
    ||| i == s.len()
    ||| (0 <= i < s.len() && !(0x80 <= s[i] && s[i] < 0xC0))
}

/// Whether position `i` of `s` starts a character (see `at_char_boundary`).
pub fn char_boundary(s: &[u8], i: usize) -> (r: bool)
    requires
        i <= s@.len(),
    ensures
        r == at_char_boundary(s@, i as int),
{
    i == 0 || i == s.len() || !(0x80 <= s[i] && s[i] < 0xC0)
}

/// Appends every byte of `src` to `out`.
pub fn push_all(out: &mut Vec<u8>, src: &[u8])
    ensures
        final(out)@ == old(out)@ + src@,
{
    let ghost start = out@;
    let mut i: usize = 0;
    while i < src.len()
        invariant
            i <= src@.len(),
            out@ == start + src@.subrange(0, i as int),
        decreases src@.len() - i,
    {
        out.push(src[i]);
        i = i + 1;
        assert(out@ == start + src@.subrange(0, i as int));
    }
    assert(src@.subrange(0, src@.len() as int) == src@);
}

/// Whether `a` and `b` hold the same bytes.
pub fn bytes_eq(a: &[u8], b: &[u8]) -> (r: bool)
    ensures
        r == (a@ == b@),
{
    if a.len() != b.len() {
        return false;
    }
    let mut i: usize = 0;
    while i < a.len()
        invariant
            a@.len() == b@.len(),
            i <= a@.len(),
            forall|j: int| 0 <= j < i ==> a@[j] == b@[j],
        decreases a@.len() - i,
    {
        if a[i] != b[i] {
            return false;
        }
        i = i + 1;
    }
    assert(a@ =~= b@);
    true
}

/// Whether `a` begins with the bytes of `prefix`.
pub fn starts_with(a: &[u8], prefix: &[u8]) -> (r: bool)
    ensures
        r == (prefix@.len() <= a@.len() && a@.subrange(0, prefix@.len() as int) == prefix@),
{
    if prefix.len() > a.len() {
        return false;
    }
    let mut i: usize = 0;
    while i < prefix.len()
        invariant
            prefix@.len() <= a@.len(),
            i <= prefix@.len(),
            forall|j: int| 0 <= j < i ==> a@[j] == prefix@[j],
        decreases prefix@.len() - i,
    {
        if a[i] != prefix[i] {
            assert(a@.subrange(0, prefix@.len() as int)[i as int] != prefix@[i as int]);
            return false;
        }
        i = i + 1;
    }
    assert(a@.subrange(0, prefix@.len() as int) =~= prefix@);
    true
}

/// The decimal digits of `n`, most significant first, with no leading zero.
pub open spec fn decimal(n: nat) -> Seq<u8>
    decreases n,
{
    if n < 10 {
        seq![(48 + n) as u8]
    } else {
        decimal(n / 10).push((48 + n % 10) as u8)
    }
}

/// Appends the decimal digits of `n` to `out`.
pub fn push_decimal(out: &mut Vec<u8>, n: u64)
    ensures
        final(out)@ == old(out)@ + decimal(n as nat),
    decreases n,
{
    if n < 10 {
        out.push((48 + n) as u8);
        assert(decimal(n as nat) == seq![(48 + n) as u8]);
    } else {
        push_decimal(out, n / 10);
        out.push((48 + n % 10) as u8);
    }
}

} // verus!
