//! The peers whose connections are kept open until their queued request is served.

use vstd::prelude::*;
use crate::bytes::bytes_eq;
use crate::priority::RequestView;

verus! {

/// The names of the peers whose connections are kept, each name once. Keeping a
/// connection under a name already kept replaces the one kept before.
pub struct WaitingPeers {
    names: Vec<Vec<u8>>,
}

impl View for WaitingPeers {
    type V = Set<Seq<u8>>;

    closed spec fn view(&self) -> Set<Seq<u8>> {
        Set::new(|n: Seq<u8>| exists|i: int| 0 <= i < self.names@.len() && #[trigger] self.names@[i]@ == n)
    }
}

/// The peers of the queued requests, by name.
pub open spec fn queued_peers(q: Seq<RequestView>) -> Set<Seq<u8>> {
    Set::new(|n: Seq<u8>| exists|i: int| 0 <= i < q.len() && #[trigger] q[i].peer_name == n)
}

/// No two queued requests come from one peer.
pub open spec fn distinct_peers(q: Seq<RequestView>) -> bool {
    forall|i: int, j: int|
        0 <= i < q.len() && 0 <= j < q.len() && i != j ==> #[trigger] q[i].peer_name
            != #[trigger] q[j].peer_name
}

/// Queueing a request while its connection is kept under its peer's name keeps the kept
/// names equal to the queued peers; a request from a peer not queued yet keeps the
/// queued peers distinct.
pub proof fn lemma_queueing_keeps_streams_matched(q: Seq<RequestView>, w: Set<Seq<u8>>, r: RequestView)
    requires
        w == queued_peers(q),
    ensures
        w.insert(r.peer_name) == queued_peers(q.push(r)),
        distinct_peers(q) && !w.contains(r.peer_name) ==> distinct_peers(q.push(r)),
{
    let q1 = q.push(r);
    assert forall|n: Seq<u8>| #[trigger] queued_peers(q1).contains(n) == w.insert(r.peer_name).contains(n) by {
        if queued_peers(q1).contains(n) {
            let i = choose|i: int| 0 <= i < q1.len() && #[trigger] q1[i].peer_name == n;
            if i < q.len() {
                assert(q[i].peer_name == n);
                assert(queued_peers(q).contains(n));
            }
        }
        if w.contains(n) {
            let i = choose|i: int| 0 <= i < q.len() && #[trigger] q[i].peer_name == n;
            assert(q1[i].peer_name == n);
        }
        if n == r.peer_name {
            assert(q1[q.len() as int].peer_name == n);
        }
    }
    assert(w.insert(r.peer_name) =~= queued_peers(q1));
    if distinct_peers(q) && !w.contains(r.peer_name) {
        assert forall|i: int, j: int|
            0 <= i < q1.len() && 0 <= j < q1.len() && i != j implies #[trigger] q1[i].peer_name
                != #[trigger] q1[j].peer_name by {
            if i < q.len() && j < q.len() {
                assert(q1[i] == q[i] && q1[j] == q[j]);
            } else if i < q.len() {
                assert(q1[i] == q[i]);
                assert(w.contains(q[i].peer_name));
            } else {
                assert(q1[j] == q[j]);
                assert(w.contains(q[j].peer_name));
            }
        }
    }
}

/// While the kept names are the queued peers and no two queued requests share a peer,
/// the request taken out to be served finds its connection kept, and releasing it keeps
/// the kept names equal to the queued peers, still distinct.
pub proof fn lemma_serving_finds_its_stream(q: Seq<RequestView>, w: Set<Seq<u8>>, i: int)
    requires
        w == queued_peers(q),
        distinct_peers(q),
        0 <= i < q.len(),
    ensures
        w.contains(q[i].peer_name),
        w.remove(q[i].peer_name) == queued_peers(q.remove(i)),
        distinct_peers(q.remove(i)),
{
    let q1 = q.remove(i);
    let name = q[i].peer_name;
    assert(queued_peers(q).contains(name));
    assert forall|n: Seq<u8>| #[trigger] queued_peers(q1).contains(n) == w.remove(name).contains(n) by {
        if queued_peers(q1).contains(n) {
            let k = choose|k: int| 0 <= k < q1.len() && #[trigger] q1[k].peer_name == n;
            let j = if k < i { k } else { k + 1 };
            assert(q1[k] == q[j]);
            assert(q[j].peer_name == n);
            assert(w.contains(n));
            assert(j != i);
        }
        if w.remove(name).contains(n) {
            let j = choose|j: int| 0 <= j < q.len() && #[trigger] q[j].peer_name == n;
            assert(j != i);
            let k = if j < i { j } else { j - 1 };
            assert(q1[k] == q[j]);
            assert(q1[k].peer_name == n);
        }
    }
    assert(w.remove(name) =~= queued_peers(q1));
    assert forall|a: int, b: int|
        0 <= a < q1.len() && 0 <= b < q1.len() && a != b implies #[trigger] q1[a].peer_name
            != #[trigger] q1[b].peer_name by {
        let ja = if a < i { a } else { a + 1 };
        let jb = if b < i { b } else { b + 1 };
        assert(q1[a] == q[ja] && q1[b] == q[jb]);
    }
}

impl WaitingPeers {
    /// No name is kept twice.
    pub closed spec fn wf(&self) -> bool {
        forall|i: int, j: int|
            0 <= i < self.names@.len() && 0 <= j < self.names@.len() && i != j
                ==> #[trigger] self.names@[i]@ != #[trigger] self.names@[j]@
    }

    pub fn new() -> (w: WaitingPeers)
        ensures
            w.wf(),
            w@ == Set::<Seq<u8>>::empty(),
    {
        let w = WaitingPeers { names: Vec::new() };
        assert(w@ =~= Set::<Seq<u8>>::empty());
        w
    }

    /// Where `name` is kept, if it is.
    fn find(&self, name: &[u8]) -> (r: Option<usize>)
        ensures
            r matches Some(k) ==> k < self.names@.len() && self.names@[k as int]@ == name@,
            r is None ==> forall|i: int| 0 <= i < self.names@.len() ==> #[trigger] self.names@[i]@ != name@,
    {
        let mut i: usize = 0;
        while i < self.names.len()
            invariant
                i <= self.names@.len(),
                forall|j: int| 0 <= j < i ==> #[trigger] self.names@[j]@ != name@,
            decreases self.names@.len() - i,
        {
            if bytes_eq(self.names[i].as_slice(), name) {
                return Some(i);
            }
            i = i + 1;
        }
        None
    }

    /// Whether a connection is kept under `name`.
    pub fn contains(&self, name: &[u8]) -> (r: bool)
        ensures
            r == self@.contains(name@),
    {
        match self.find(name) {
            Some(k) => {
                assert(self.names@[k as int]@ == name@);
                true
            },
            None => false,
        }
    }

    /// Keeps a connection under `name`, in place of one kept under it before.
    pub fn keep(&mut self, name: Vec<u8>)
        requires
            old(self).wf(),
        ensures
            final(self).wf(),
            final(self)@ == old(self)@.insert(name@),
    {
        match self.find(name.as_slice()) {
            Some(k) => {
                assert(self@ =~= old(self)@.insert(name@)) by {
                    assert(self.names@[k as int]@ == name@);
                }
            },
            None => {
                let ghost before = self.names@;
                let ghost n = name@;
                self.names.push(name);
                assert(self.names@ == before.push(self.names@[before.len() as int]));
                assert forall|m: Seq<u8>| #[trigger] self@.contains(m) == old(self)@.insert(n).contains(m) by {
                    if old(self)@.contains(m) {
                        let i = choose|i: int| 0 <= i < before.len() && #[trigger] before[i]@ == m;
                        assert(self.names@[i] == before[i]);
                    }
                    if self@.contains(m) {
                        let i = choose|i: int| 0 <= i < self.names@.len() && #[trigger] self.names@[i]@ == m;
                        if i < before.len() {
                            assert(self.names@[i] == before[i]);
                        }
                    }
                    assert(self.names@[before.len() as int]@ == n);
                }
                assert(self@ =~= old(self)@.insert(n));
                assert forall|i: int, j: int|
                    0 <= i < self.names@.len() && 0 <= j < self.names@.len() && i != j
                        implies #[trigger] self.names@[i]@ != #[trigger] self.names@[j]@ by {
                    if i < before.len() && j < before.len() {
                        assert(self.names@[i] == before[i] && self.names@[j] == before[j]);
                    } else if i < before.len() {
                        assert(self.names@[i] == before[i]);
                    } else {
                        assert(self.names@[j] == before[j]);
                    }
                }
            },
        }
    }

    /// Releases the connection kept under `name`: whether one was kept.
    pub fn release(&mut self, name: &[u8]) -> (found: bool)
        requires
            old(self).wf(),
        ensures
            final(self).wf(),
            found == old(self)@.contains(name@),
            final(self)@ == old(self)@.remove(name@),
    {
        match self.find(name) {
            Some(k) => {
                let ghost before = self.names@;
                assert(old(self)@.contains(name@)) by {
                    assert(before[k as int]@ == name@);
                }
                self.names.remove(k);
                assert(self.names@ == before.remove(k as int));
                assert forall|m: Seq<u8>| #[trigger] self@.contains(m) == old(self)@.remove(name@).contains(m) by {
                    if self@.contains(m) {
                        let i = choose|i: int| 0 <= i < self.names@.len() && #[trigger] self.names@[i]@ == m;
                        let j = if i < k { i } else { i + 1 };
                        assert(self.names@[i] == before[j]);
                        assert(j != k);
                        assert(before[j]@ != before[k as int]@);
                    }
                    if old(self)@.remove(name@).contains(m) {
                        let j = choose|j: int| 0 <= j < before.len() && #[trigger] before[j]@ == m;
                        assert(j != k);
                        let i = if j < k { j } else { j - 1 };
                        assert(self.names@[i] == before[j]);
                    }
                }
                assert(self@ =~= old(self)@.remove(name@));
                assert forall|a: int, b: int|
                    0 <= a < self.names@.len() && 0 <= b < self.names@.len() && a != b
                        implies #[trigger] self.names@[a]@ != #[trigger] self.names@[b]@ by {
                    let ja = if a < k { a } else { a + 1 };
                    let jb = if b < k { b } else { b + 1 };
                    assert(self.names@[a] == before[ja] && self.names@[b] == before[jb]);
                }
                true
            },
            None => {
                assert(!old(self)@.contains(name@));
                assert(self@ =~= old(self)@.remove(name@));
                false
            },
        }
    }
}

} // verus!
