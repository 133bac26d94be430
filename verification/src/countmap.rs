//! A map from byte strings to positive counts, kept in byte-wise lexicographic key order.

use vstd::prelude::*;

verus! {

/// Byte-wise lexicographic order: `a` comes before `b`.
pub open spec fn lex_lt(a: Seq<u8>, b: Seq<u8>) -> bool
    decreases a.len(),
{
    if b.len() == 0 {
        false
    } else if a.len() == 0 {
        true
    } else if a[0] < b[0] {
        true
    } else if a[0] > b[0] {
        false
    } else {
        lex_lt(a.drop_first(), b.drop_first())
    }
}

/// The lexicographic order is a strict total order.
pub proof fn lemma_lex_order(a: Seq<u8>, b: Seq<u8>, c: Seq<u8>)
    ensures
        !lex_lt(a, a),
        lex_lt(a, b) && lex_lt(b, c) ==> lex_lt(a, c),
        a != b ==> lex_lt(a, b) || lex_lt(b, a),
        lex_lt(a, b) ==> !lex_lt(b, a),
    decreases a.len(),
{
    if a.len() > 0 {
        lemma_lex_order(a.drop_first(), a.drop_first(), a.drop_first());
        if b.len() > 0 {
            if c.len() > 0 {
                lemma_lex_order(a.drop_first(), b.drop_first(), c.drop_first());
            } else {
                lemma_lex_order(a.drop_first(), b.drop_first(), b.drop_first());
            }
            if a != b && a[0] == b[0] {
                assert(a.drop_first() != b.drop_first()) by {
                    if a.drop_first() == b.drop_first() {
                        assert(a =~= seq![a[0]] + a.drop_first());
                        assert(b =~= seq![b[0]] + b.drop_first());
                    }
                }
            }
        }
    } else {
        if b.len() == 0 {
            assert(a =~= b);
        }
    }
}

/// Whether `a` comes before `b` in lexicographic order.
pub fn lex_less(a: &[u8], b: &[u8]) -> (r: bool)
    ensures
        r == lex_lt(a@, b@),
{
    let mut i: usize = 0;
    assert(a@.subrange(0, a@.len() as int) == a@);
    assert(b@.subrange(0, b@.len() as int) == b@);
    while i < a.len() && i < b.len()
        invariant
            i <= a@.len(),
            i <= b@.len(),
            lex_lt(a@, b@) == lex_lt(
                a@.subrange(i as int, a@.len() as int),
                b@.subrange(i as int, b@.len() as int),
            ),
        decreases a@.len() - i,
    {
        let ghost sa = a@.subrange(i as int, a@.len() as int);
        let ghost sb = b@.subrange(i as int, b@.len() as int);
        if a[i] < b[i] {
            return true;
        }
        if a[i] > b[i] {
            return false;
        }
        assert(sa.drop_first() == a@.subrange(i + 1, a@.len() as int));
        assert(sb.drop_first() == b@.subrange(i + 1, b@.len() as int));
        i = i + 1;
    }
    i < b.len()
}

/// All keys strictly increase along `s`.
pub open spec fn sorted_keys(s: Seq<(Seq<u8>, u64)>) -> bool {
    forall|i: int, j: int| 0 <= i < j < s.len() ==> lex_lt(s[i].0, s[j].0)
}

/// The map the entries describe.
pub open spec fn entries_map(s: Seq<(Seq<u8>, u64)>) -> Map<Seq<u8>, u64>
    decreases s.len(),
{
    if s.len() == 0 {
        Map::empty()
    } else {
        entries_map(s.drop_last()).insert(s.last().0, s.last().1)
    }
}

/// A map with keys in lexicographic order and every count positive.
pub struct CountMap {
    entries: Vec<(Vec<u8>, u64)>,
}

impl View for CountMap {
    type V = Seq<(Seq<u8>, u64)>;

    closed spec fn view(&self) -> Seq<(Seq<u8>, u64)> {
        self.entries@.map_values(|e: (Vec<u8>, u64)| (e.0@, e.1))
    }
}

/// In entries with increasing keys, a key maps to the count stored beside it.
proof fn lemma_entries_map_index(s: Seq<(Seq<u8>, u64)>, i: int)
    requires
        sorted_keys(s),
        0 <= i < s.len(),
    ensures
        entries_map(s).contains_key(s[i].0),
        entries_map(s)[s[i].0] == s[i].1,
    decreases s.len(),
{
    if i < s.len() - 1 {
        lemma_entries_map_index(s.drop_last(), i);
        lemma_lex_order(s[i].0, s.last().0, s.last().0);
    }
}

/// The keys of the map are exactly the keys of the entries.
proof fn lemma_entries_map_keys(s: Seq<(Seq<u8>, u64)>, k: Seq<u8>)
    ensures
        entries_map(s).contains_key(k) <==> exists|i: int| 0 <= i < s.len() && #[trigger] s[i].0 == k,
    decreases s.len(),
{
    if s.len() > 0 {
        lemma_entries_map_keys(s.drop_last(), k);
        if entries_map(s.drop_last()).contains_key(k) {
            let i = choose|i: int| 0 <= i < s.drop_last().len() && #[trigger] s.drop_last()[i].0 == k;
            assert(s[i].0 == k);
        }
        if exists|i: int| 0 <= i < s.len() && #[trigger] s[i].0 == k {
            let i = choose|i: int| 0 <= i < s.len() && #[trigger] s[i].0 == k;
            if i < s.len() - 1 {
                assert(s.drop_last()[i].0 == k);
            }
        }
    }
}

/// With increasing keys, the map holds exactly the entries' keys, each with its count:
/// the entries are the map, listed in key order.
pub proof fn lemma_entries_map_char(s: Seq<(Seq<u8>, u64)>)
    requires
        sorted_keys(s),
    ensures
        forall|k: Seq<u8>|
            entries_map(s).contains_key(k) <==> exists|i: int|
                0 <= i < s.len() && #[trigger] s[i].0 == k,
        forall|i: int| 0 <= i < s.len() ==> #[trigger] entries_map(s)[s[i].0] == s[i].1,
{
    assert forall|k: Seq<u8>|
        entries_map(s).contains_key(k) <==> exists|i: int|
            0 <= i < s.len() && #[trigger] s[i].0 == k by {
        lemma_entries_map_keys(s, k);
    }
    assert forall|i: int| 0 <= i < s.len() implies #[trigger] entries_map(s)[s[i].0] == s[i].1 by {
        lemma_entries_map_index(s, i);
    }
}

impl CountMap {
    /// Keys increase and every count is positive.
    pub open spec fn wf(&self) -> bool {
        &&& sorted_keys(self@)
        &&& forall|i: int| 0 <= i < self@.len() ==> #[trigger] self@[i].1 >= 1
    }

    /// The map from keys to counts.
    pub open spec fn as_map(&self) -> Map<Seq<u8>, u64> {
        entries_map(self@)
    }

    pub fn new() -> (m: CountMap)
        ensures
            m.wf(),
            m.as_map() == Map::<Seq<u8>, u64>::empty(),
            m@.len() == 0,
    {
        let m = CountMap { entries: Vec::new() };
        assert(m@ =~= Seq::<(Seq<u8>, u64)>::empty());
        m
    }

    pub fn len(&self) -> (n: usize)
        ensures
            n == self@.len(),
    {
        self.entries.len()
    }

    /// The key and count at position `i` in key order.
    pub fn entry(&self, i: usize) -> (r: (&Vec<u8>, u64))
        requires
            i < self@.len(),
        ensures
            r.0@ == self@[i as int].0,
            r.1 == self@[i as int].1,
    {
        (&self.entries[i].0, self.entries[i].1)
    }

    /// The count of `key`, if it has one.
    pub fn get(&self, key: &[u8]) -> (r: Option<u64>)
        requires
            self.wf(),
        ensures
            r matches Some(n) ==> self.as_map().contains_key(key@) && self.as_map()[key@] == n,
            r is None ==> !self.as_map().contains_key(key@),
    {
        let mut i: usize = 0;
        while i < self.entries.len()
            invariant
                self.wf(),
                i <= self@.len(),
                self@.len() == self.entries@.len(),
                forall|j: int| 0 <= j < i ==> self@[j].0 != key@,
            decreases self@.len() - i,
        {
            assert(self@[i as int].0 == self.entries@[i as int].0@);
            if crate::bytes::bytes_eq(self.entries[i].0.as_slice(), key) {
                proof {
                    lemma_entries_map_index(self@, i as int);
                }
                return Some(self.entries[i].1);
            }
            i = i + 1;
        }
        proof {
            lemma_entries_map_keys(self@, key@);
        }
        None
    }

    /// Adds `n` to the count of `key`, which starts from nothing when the key is new.
    pub fn add(&mut self, key: &[u8], n: u64)
        requires
            old(self).wf(),
            n >= 1,
            old(self).as_map().contains_key(key@) ==> old(self).as_map()[key@] + n <= u64::MAX,
        ensures
            final(self).wf(),
            final(self).as_map() == old(self).as_map().insert(
                key@,
                if old(self).as_map().contains_key(key@) {
                    (old(self).as_map()[key@] + n) as u64
                } else {
                    n
                },
            ),
    {
        let ghost s = self@;
        proof {
            lemma_entries_map_char(s);
        }
        let mut i: usize = 0;
        let mut searching = true;
        while searching && i < self.entries.len()
            invariant
                self.wf(),
                s == self@,
                i <= self@.len(),
                self@.len() == self.entries@.len(),
                forall|j: int| 0 <= j < i ==> lex_lt(#[trigger] self@[j].0, key@),
                !searching ==> i < self@.len() && !lex_lt(self@[i as int].0, key@),
            decreases self@.len() - i + (if searching { 1int } else { 0int }),
        {
            assert(self@[i as int].0 == self.entries@[i as int].0@);
            if lex_less(self.entries[i].0.as_slice(), key) {
                i = i + 1;
            } else {
                searching = false;
            }
        }
        let found = i < self.entries.len() && crate::bytes::bytes_eq(
            self.entries[i].0.as_slice(),
            key,
        );
        if found {
            assert(s[i as int].0 == key@);
            let old_count = self.entries[i].1;
            assert(old_count == entries_map(s)[key@]);
            let new_count = old_count + n;
            self.entries.set(i, (vstd::slice::slice_to_vec(key), new_count));
            let ghost t = s.update(i as int, (key@, new_count));
            assert(self@ =~= t);
            assert(sorted_keys(t));
            proof {
                lemma_entries_map_char(t);
                assert(entries_map(t) =~= entries_map(s).insert(key@, new_count)) by {
                    assert forall|k: Seq<u8>|
                        #[trigger] entries_map(t).contains_key(k) <==> entries_map(s).insert(
                            key@,
                            new_count,
                        ).contains_key(k) by {
                        if exists|j: int| 0 <= j < s.len() && #[trigger] s[j].0 == k {
                            let j = choose|j: int| 0 <= j < s.len() && #[trigger] s[j].0 == k;
                            assert(t[j].0 == k);
                        }
                        if exists|j: int| 0 <= j < t.len() && #[trigger] t[j].0 == k {
                            let j = choose|j: int| 0 <= j < t.len() && #[trigger] t[j].0 == k;
                            assert(s[j].0 == k);
                        }
                    }
                    assert forall|k: Seq<u8>| #[trigger]
                        entries_map(t).contains_key(k) implies entries_map(t)[k] == entries_map(
                        s,
                    ).insert(key@, new_count)[k] by {
                        let j = choose|j: int| 0 <= j < t.len() && #[trigger] t[j].0 == k;
                        assert(entries_map(t)[t[j].0] == t[j].1);
                        if j != i {
                            lemma_lex_order(s[j].0, s[i as int].0, s[i as int].0);
                            assert(entries_map(s)[s[j].0] == s[j].1);
                        }
                    }
                }
            }
        } else {
            let ghost t = s.insert(i as int, (key@, n));
            proof {
                assert forall|j: int| i <= j < s.len() implies lex_lt(key@, #[trigger] s[j].0) by {
                    lemma_lex_order(s[i as int].0, key@, s[i as int].0);
                    lemma_lex_order(key@, s[i as int].0, s[j].0);
                }
                assert forall|j: int| 0 <= j < s.len() implies #[trigger] s[j].0 != key@ by {
                    lemma_lex_order(key@, key@, key@);
                }
                assert(sorted_keys(t)) by {
                    assert forall|a: int, b: int| 0 <= a < b < t.len() implies lex_lt(
                        t[a].0,
                        t[b].0,
                    ) by {
                        if a < i && b > i {
                            lemma_lex_order(s[a].0, key@, s[b - 1].0);
                        }
                    }
                }
            }
            self.entries.insert(i, (vstd::slice::slice_to_vec(key), n));
            assert(self@ =~= t);
            proof {
                lemma_entries_map_char(t);
                assert(!entries_map(s).contains_key(key@));
                assert(t[i as int].0 == key@);
                assert(entries_map(t) =~= entries_map(s).insert(key@, n)) by {
                    assert forall|k: Seq<u8>|
                        #[trigger] entries_map(t).contains_key(k) <==> entries_map(s).insert(
                            key@,
                            n,
                        ).contains_key(k) by {
                        if exists|j: int| 0 <= j < s.len() && #[trigger] s[j].0 == k {
                            let j = choose|j: int| 0 <= j < s.len() && #[trigger] s[j].0 == k;
                            let q = if j < i { j } else { j + 1 };
                            assert(t[q].0 == k);
                        }
                        if exists|j: int| 0 <= j < t.len() && #[trigger] t[j].0 == k {
                            let j = choose|j: int| 0 <= j < t.len() && #[trigger] t[j].0 == k;
                            if j < i {
                                assert(s[j].0 == k);
                            } else if j > i {
                                assert(s[j - 1].0 == k);
                            }
                        }
                    }
                    assert forall|k: Seq<u8>| #[trigger]
                        entries_map(t).contains_key(k) implies entries_map(t)[k] == entries_map(
                        s,
                    ).insert(key@, n)[k] by {
                        let j = choose|j: int| 0 <= j < t.len() && #[trigger] t[j].0 == k;
                        assert(entries_map(t)[t[j].0] == t[j].1);
                        if j < i {
                            assert(entries_map(s)[s[j].0] == s[j].1);
                        } else if j > i {
                            assert(entries_map(s)[s[j - 1].0] == s[j - 1].1);
                        }
                    }
                }
            }
        }
    }
}

} // verus!
