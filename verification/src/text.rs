//! Splitting byte strings into pieces and lines.

use vstd::prelude::*;
use crate::bytes::push_all;

verus! {

/// The pieces of `s` between occurrences of the byte `sep` (with empty pieces kept):
/// one more piece than `s` has separators.
pub open spec fn split(s: Seq<u8>, sep: u8) -> Seq<Seq<u8>>
    decreases s.len(),
{
    if s.len() == 0 {
        seq![Seq::<u8>::empty()]
    } else {
        let parts = split(s.drop_last(), sep);
        if s.last() == sep {
            parts.push(Seq::<u8>::empty())
        } else {
            parts.update(parts.len() - 1, parts.last().push(s.last()))
        }
    }
}

/// `split` always yields at least one piece.
pub proof fn lemma_split_nonempty(s: Seq<u8>, sep: u8)
    ensures
        split(s, sep).len() >= 1,
    decreases s.len(),
{
    if s.len() > 0 {
        lemma_split_nonempty(s.drop_last(), sep);
    }
}

/// Splits `s` at every byte `sep`.
pub fn split_bytes(s: &[u8], sep: u8) -> (parts: Vec<Vec<u8>>)
    ensures
        parts@.map_values(|p: Vec<u8>| p@) == split(s@, sep),
{
    let mut parts: Vec<Vec<u8>> = Vec::new();
    let mut cur: Vec<u8> = Vec::new();
    let mut i: usize = 0;
    while i < s.len()
        invariant
            i <= s@.len(),
            parts@.map_values(|p: Vec<u8>| p@).push(cur@) == split(s@.subrange(0, i as int), sep),
        decreases s@.len() - i,
    {
        let ghost pre = s@.subrange(0, i as int);
        let ghost next = s@.subrange(0, i + 1);
        assert(next.drop_last() == pre);
        assert(next.last() == s@[i as int]);
        proof {
            lemma_split_nonempty(pre, sep);
        }
        if s[i] == sep {
            parts.push(cur);
            cur = Vec::new();
            assert(parts@.map_values(|p: Vec<u8>| p@).push(cur@) =~= split(next, sep));
        } else {
            cur.push(s[i]);
            assert(parts@.map_values(|p: Vec<u8>| p@).push(cur@) =~= split(next, sep));
        }
        i = i + 1;
    }
    assert(s@.subrange(0, s@.len() as int) == s@);
    parts.push(cur);
    assert(parts@.map_values(|p: Vec<u8>| p@) =~= split(s@, sep));
    parts
}

/// The lines of a file: each ends with its '\n', except a last line that has none; no
/// empty line follows a final '\n'.
pub open spec fn lines_of(file: Seq<u8>) -> Seq<Seq<u8>> {
    let parts = split(file, 10u8);
    let n = if parts.last().len() > 0 { parts.len() } else { (parts.len() - 1) as nat };
    Seq::new(n, |i: int| if i < parts.len() - 1 { parts[i].push(10u8) } else { parts[i] })
}

/// Splits a file into its lines (see `lines_of`).
pub fn file_lines(file: &[u8]) -> (lines: Vec<Vec<u8>>)
    ensures
        lines@.map_values(|l: Vec<u8>| l@) == lines_of(file@),
{
    let mut parts = split_bytes(file, 10);
    let ghost ps = split(file@, 10u8);
    proof {
        lemma_split_nonempty(file@, 10u8);
    }
    let n = parts.len();
    let mut lines: Vec<Vec<u8>> = Vec::new();
    let mut i: usize = 0;
    while i + 1 < n
        invariant
            n == parts@.len(),
            n >= 1,
            i + 1 <= n,
            ps == parts@.map_values(|p: Vec<u8>| p@),
            lines@.len() == i,
            forall|j: int| 0 <= j < i ==> #[trigger] lines@[j]@ == ps[j].push(10u8),
        decreases n - i,
    {
        let mut l: Vec<u8> = Vec::new();
        push_all(&mut l, parts[i].as_slice());
        l.push(10);
        assert(l@ == ps[i as int].push(10u8));
        lines.push(l);
        i = i + 1;
    }
    let last = parts.pop().unwrap();
    assert(last@ == ps.last());
    if last.len() > 0 {
        lines.push(last);
    }
    assert(lines@.map_values(|l: Vec<u8>| l@) =~= lines_of(file@));
    lines
}

} // verus!
