//! A least-recently-used cache of file contents, keyed by path.

use vstd::prelude::*;
use crate::bytes::bytes_eq;

verus! {

/// One cached entry: a key and its value.
pub type Entry = (Seq<u8>, Seq<u8>);

/// No key occurs twice among `s`.
pub open spec fn keys_distinct(s: Seq<Entry>) -> bool {
    forall|i: int, j: int| 0 <= i < s.len() && 0 <= j < s.len() && i != j ==> s[i].0 != s[j].0
}

/// Some entry of `s` has key `k`.
pub open spec fn has_key(s: Seq<Entry>, k: Seq<u8>) -> bool {
    exists|i: int| 0 <= i < s.len() && #[trigger] s[i].0 == k
}

/// The position of the entry with key `k` in `s` (meaningful when `has_key(s, k)`).
pub open spec fn key_pos(s: Seq<Entry>, k: Seq<u8>) -> int {
    choose|i: int| 0 <= i < s.len() && #[trigger] s[i].0 == k
}

/// The entries after looking up `k`: a found entry moves to the front.
pub open spec fn after_get(s: Seq<Entry>, k: Seq<u8>) -> Seq<Entry> {
    if has_key(s, k) {
        seq![s[key_pos(s, k)]] + s.remove(key_pos(s, k))
    } else {
        s
    }
}

/// The value found for `k`, if any.
pub open spec fn lookup(s: Seq<Entry>, k: Seq<u8>) -> Option<Seq<u8>> {
    if has_key(s, k) {
        Some(s[key_pos(s, k)].1)
    } else {
        None
    }
}

/// The entries after storing `v` under `k` in a cache of capacity `cap`: an entry with
/// key `k` is replaced and moved to the front; otherwise the new entry goes in front and,
/// when that exceeds the capacity, the least recently used entry (the last) is dropped.
pub open spec fn after_put(s: Seq<Entry>, cap: nat, k: Seq<u8>, v: Seq<u8>) -> Seq<Entry> {
    if has_key(s, k) {
        seq![(k, v)] + s.remove(key_pos(s, k))
    } else {
        let t = seq![(k, v)] + s;
        if t.len() > cap {
            t.drop_last()
        } else {
            t
        }
    }
}

/// In an entry list with distinct keys, the entry with key `k` sits at any position
/// holding `k`.
proof fn lemma_key_pos_unique(s: Seq<Entry>, k: Seq<u8>, i: int)
    requires
        keys_distinct(s),
        0 <= i < s.len(),
        s[i].0 == k,
    ensures
        has_key(s, k),
        key_pos(s, k) == i,
{
    assert(has_key(s, k));
    let p = key_pos(s, k);
    assert(s[p].0 == k);
}

/// Storing keeps keys distinct and respects the capacity.
pub proof fn lemma_put_keeps_wf(s: Seq<Entry>, cap: nat, k: Seq<u8>, v: Seq<u8>)
    requires
        keys_distinct(s),
        s.len() <= cap,
    ensures
        keys_distinct(after_put(s, cap, k, v)),
        after_put(s, cap, k, v).len() <= cap,
{
    let t = after_put(s, cap, k, v);
    if has_key(s, k) {
        let p = key_pos(s, k);
        assert forall|a: int, b: int| 0 <= a < t.len() && 0 <= b < t.len() && a != b implies t[a].0
            != t[b].0 by {
            if a > 0 {
                let ia = if a - 1 < p { a - 1 } else { a };
                assert(t[a] == s[ia]);
            }
            if b > 0 {
                let ib = if b - 1 < p { b - 1 } else { b };
                assert(t[b] == s[ib]);
            }
        }
    } else {
        assert forall|a: int, b: int| 0 <= a < t.len() && 0 <= b < t.len() && a != b implies t[a].0
            != t[b].0 by {
            if a > 0 {
                assert(t[a] == s[a - 1]);
            }
            if b > 0 {
                assert(t[b] == s[b - 1]);
            }
        }
    }
}

/// Read after write: once `v` is stored under `k` in a cache that can hold an entry,
/// looking up `k` gives `v`.
pub proof fn lemma_get_after_put(s: Seq<Entry>, cap: nat, k: Seq<u8>, v: Seq<u8>)
    requires
        keys_distinct(s),
        s.len() <= cap,
        cap >= 1,
    ensures
        lookup(after_put(s, cap, k, v), k) == Some(v),
{
    lemma_put_keeps_wf(s, cap, k, v);
    let t = after_put(s, cap, k, v);
    assert(t[0] == (k, v));
    lemma_key_pos_unique(t, k, 0);
}

/// Storing under `k` leaves every other key's lookup unchanged, except the least recently
/// used entry, which a new key pushes out of a full cache.
pub proof fn lemma_put_keeps_others(
    s: Seq<Entry>,
    cap: nat,
    k: Seq<u8>,
    v: Seq<u8>,
    k2: Seq<u8>,
)
    requires
        keys_distinct(s),
        s.len() <= cap,
        k2 != k,
        !(!has_key(s, k) && s.len() == cap && s.len() > 0 && s.last().0 == k2),
    ensures
        lookup(after_put(s, cap, k, v), k2) == lookup(s, k2),
{
    lemma_put_keeps_wf(s, cap, k, v);
    let t = after_put(s, cap, k, v);
    if has_key(s, k2) {
        let p2 = key_pos(s, k2);
        if has_key(s, k) {
            let p = key_pos(s, k);
            assert(p2 != p);
            let q = if p2 < p { p2 + 1 } else { p2 };
            assert(t[q] == s[p2]);
            lemma_key_pos_unique(t, k2, q);
        } else {
            if cap == 0 {
                assert(false);
            }
            assert(p2 + 1 < t.len());
            assert(t[p2 + 1] == s[p2]);
            lemma_key_pos_unique(t, k2, p2 + 1);
        }
    } else {
        if has_key(t, k2) {
            let q = key_pos(t, k2);
            if has_key(s, k) {
                let p = key_pos(s, k);
                let r = if q - 1 < p { q - 1 } else { q };
                assert(t[q] == s[r]);
            } else {
                assert(t[q] == s[q - 1]);
            }
            assert(false);
        }
    }
}

/// A new key stored into a full cache pushes out exactly the least recently used entry.
pub proof fn lemma_put_evicts_lru(s: Seq<Entry>, cap: nat, k: Seq<u8>, v: Seq<u8>)
    requires
        keys_distinct(s),
        s.len() == cap,
        cap >= 1,
        !has_key(s, k),
    ensures
        !has_key(after_put(s, cap, k, v), s.last().0),
        after_put(s, cap, k, v).len() == cap,
{
    let t = after_put(s, cap, k, v);
    if has_key(t, s.last().0) {
        let q = key_pos(t, s.last().0);
        if q == 0 {
            assert(s[s.len() - 1].0 == k);
            assert(has_key(s, k));
        } else {
            assert(t[q] == s[q - 1]);
            assert(q - 1 != s.len() - 1);
        }
        assert(false);
    }
}

/// The entry just stored is the most recently used, whether its key was cached before or
/// not.
pub proof fn lemma_put_is_most_recent(s: Seq<Entry>, cap: nat, k: Seq<u8>, v: Seq<u8>)
    requires
        cap >= 1,
    ensures
        after_put(s, cap, k, v).len() >= 1,
        after_put(s, cap, k, v)[0] == (k, v),
{
    if !has_key(s, k) {
        let t = seq![(k, v)] + s;
        assert(t[0] == (k, v));
        if t.len() > cap {
            assert(t.drop_last()[0] == t[0]);
        }
    }
}

/// Two stores in a row: a store under another key, even a new key into a full cache,
/// never pushes out the entry stored just before (in a cache of two or more entries).
pub proof fn lemma_recent_put_survives_next_put(
    s: Seq<Entry>,
    cap: nat,
    k: Seq<u8>,
    v: Seq<u8>,
    k2: Seq<u8>,
    v2: Seq<u8>,
)
    requires
        keys_distinct(s),
        s.len() <= cap,
        cap >= 2,
        k2 != k,
    ensures
        lookup(after_put(after_put(s, cap, k, v), cap, k2, v2), k) == Some(v),
{
    let t = after_put(s, cap, k, v);
    lemma_put_keeps_wf(s, cap, k, v);
    lemma_get_after_put(s, cap, k, v);
    lemma_put_is_most_recent(s, cap, k, v);
    if t.len() == cap && t.last().0 == k {
        assert(t[t.len() - 1].0 == t[0].0);
        assert(false);
    }
    lemma_put_keeps_others(t, cap, k2, v2, k);
}

/// Looking a key up never changes what any key maps to, nor how many entries there are.
pub proof fn lemma_get_keeps_contents(s: Seq<Entry>, k: Seq<u8>, k2: Seq<u8>)
    requires
        keys_distinct(s),
    ensures
        lookup(after_get(s, k), k2) == lookup(s, k2),
        after_get(s, k).len() == s.len(),
        keys_distinct(after_get(s, k)),
{
    if has_key(s, k) {
        let p = key_pos(s, k);
        let t = after_get(s, k);
        assert(keys_distinct(t)) by {
            assert forall|a: int, b: int| 0 <= a < t.len() && 0 <= b < t.len() && a != b implies t[a].0
                != t[b].0 by {
                let ia = if a == 0 { p } else if a - 1 < p { a - 1 } else { a };
                let ib = if b == 0 { p } else if b - 1 < p { b - 1 } else { b };
                assert(t[a] == s[ia]);
                assert(t[b] == s[ib]);
            }
        }
        if has_key(s, k2) {
            let p2 = key_pos(s, k2);
            let q = if p2 == p { 0 } else if p2 < p { p2 + 1 } else { p2 };
            assert(t[q] == s[p2]);
            lemma_key_pos_unique(t, k2, q);
        } else if has_key(t, k2) {
            let q = key_pos(t, k2);
            let r = if q == 0 { p } else if q - 1 < p { q - 1 } else { q };
            assert(t[q] == s[r]);
            assert(false);
        }
    }
}

/// The cache: entries from most to least recently used, at most `capacity` of them.
pub struct LruCache {
    entries: Vec<(Vec<u8>, Vec<u8>)>,
    capacity: usize,
}

impl View for LruCache {
    type V = Seq<Entry>;

    closed spec fn view(&self) -> Seq<Entry> {
        self.entries@.map_values(|e: (Vec<u8>, Vec<u8>)| (e.0@, e.1@))
    }
}

impl LruCache {
    /// The number of entries the cache holds at most.
    pub closed spec fn cap(&self) -> nat {
        self.capacity as nat
    }

    /// Keys are distinct and the capacity is respected.
    pub open spec fn wf(&self) -> bool {
        keys_distinct(self@) && self@.len() <= self.cap()
    }

    /// An empty cache holding at most `capacity` entries.
    pub fn new(capacity: usize) -> (c: LruCache)
        ensures
            c.wf(),
            c@ == Seq::<Entry>::empty(),
            c.cap() == capacity,
    {
        let c = LruCache { entries: Vec::new(), capacity };
        assert(c@ =~= Seq::<Entry>::empty());
        c
    }

    pub fn len(&self) -> (n: usize)
        ensures
            n == self@.len(),
    {
        self.entries.len()
    }

    pub fn capacity(&self) -> (n: usize)
        ensures
            n == self.cap(),
    {
        self.capacity
    }

    /// The position of key `k`, if it is cached.
    fn find(&self, k: &[u8]) -> (r: Option<usize>)
        requires
            self.wf(),
        ensures
            r is None ==> !has_key(self@, k@),
            r matches Some(i) ==> i < self@.len() && self@[i as int].0 == k@ && key_pos(self@, k@)
                == i,
    {
        let mut i: usize = 0;
        while i < self.entries.len()
            invariant
                self.wf(),
                i <= self@.len(),
                self@.len() == self.entries@.len(),
                forall|j: int| 0 <= j < i ==> self@[j].0 != k@,
            decreases self@.len() - i,
        {
            assert(self@[i as int].0 == self.entries@[i as int].0@);
            if bytes_eq(self.entries[i].0.as_slice(), k) {
                let ghost p = key_pos(self@, k@);
                assert(has_key(self@, k@));
                assert(self@[p].0 == k@);
                return Some(i);
            }
            i = i + 1;
        }
        None
    }

    /// Looks up `k`. A found entry becomes the most recently used.
    pub fn get(&mut self, k: &[u8]) -> (r: Option<&Vec<u8>>)
        requires
            old(self).wf(),
        ensures
            final(self).wf(),
            final(self).cap() == old(self).cap(),
            final(self)@ == after_get(old(self)@, k@),
            r matches Some(v) ==> lookup(old(self)@, k@) == Some(v@),
            r is None ==> lookup(old(self)@, k@) is None,
    {
        match self.find(k) {
            None => None,
            Some(i) => {
                let ghost s = self@;
                let e = self.entries.remove(i);
                self.entries.insert(0, e);
                assert(self@ =~= seq![s[i as int]] + s.remove(i as int));
                assert(keys_distinct(self@)) by {
                    assert forall|a: int, b: int|
                        0 <= a < self@.len() && 0 <= b < self@.len() && a != b implies self@[a].0
                        != self@[b].0 by {
                        let ia = if a == 0 { i as int } else if a - 1 < i { a - 1 } else { a };
                        let ib = if b == 0 { i as int } else if b - 1 < i { b - 1 } else { b };
                        assert(self@[a] == s[ia]);
                        assert(self@[b] == s[ib]);
                    }
                }
                Some(&self.entries[0].1)
            },
        }
    }

    /// Stores `v` under `k` as the most recently used entry, dropping the least recently
    /// used entry when a new key would exceed the capacity.
    pub fn put(&mut self, k: Vec<u8>, v: Vec<u8>)
        requires
            old(self).wf(),
        ensures
            final(self).wf(),
            final(self).cap() == old(self).cap(),
            final(self)@ == after_put(old(self)@, old(self).cap(), k@, v@),
    {
        let ghost s = self@;
        let ghost kv = (k@, v@);
        match self.find(k.as_slice()) {
            Some(i) => {
                self.entries.remove(i);
                self.entries.insert(0, (k, v));
                assert(self@ =~= seq![kv] + s.remove(i as int));
                assert(keys_distinct(self@)) by {
                    assert forall|a: int, b: int|
                        0 <= a < self@.len() && 0 <= b < self@.len() && a != b implies self@[a].0
                        != self@[b].0 by {
                        if a > 0 {
                            let ia = if a - 1 < i { a - 1 } else { a };
                            assert(self@[a] == s[ia]);
                        }
                        if b > 0 {
                            let ib = if b - 1 < i { b - 1 } else { b };
                            assert(self@[b] == s[ib]);
                        }
                    }
                }
            },
            None => {
                self.entries.insert(0, (k, v));
                assert(self@ =~= seq![kv] + s);
                if self.entries.len() > self.capacity {
                    let ghost t = self@;
                    self.entries.pop();
                    assert(self@ =~= t.drop_last());
                }
                assert(keys_distinct(self@)) by {
                    assert forall|a: int, b: int|
                        0 <= a < self@.len() && 0 <= b < self@.len() && a != b implies self@[a].0
                        != self@[b].0 by {
                        if a > 0 {
                            assert(self@[a] == s[a - 1]);
                        }
                        if b > 0 {
                            assert(self@[b] == s[b - 1]);
                        }
                    }
                }
            },
        }
    }
}

} // verus!
