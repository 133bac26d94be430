//! The queue of static-file requests waiting to be served, highest rank first.

use vstd::prelude::*;
use crate::priority::{HTTP_Request, RequestView, name_examinable, outranks, priority_of};

verus! {

/// Queued requests, in arrival order. Serving takes out a request that no other
/// queued request outranks (see `outranks`).
pub struct RequestQueue {
    items: Vec<HTTP_Request>,
}

impl View for RequestQueue {
    type V = Seq<RequestView>;

    closed spec fn view(&self) -> Seq<RequestView> {
        self.items@.map_values(|r: HTTP_Request| r@)
    }
}

/// `b` outranking `a` is a strict partial order: it never holds of a request and itself,
/// and it chains.
pub proof fn lemma_outranks_strict_order(a: RequestView, b: RequestView, c: RequestView)
    ensures
        !outranks(a, a),
        outranks(c, b) && outranks(b, a) ==> outranks(c, a),
        outranks(b, a) ==> !outranks(a, b),
{
}

/// Among requests whose peers share a priority class, the one served is for a file at
/// least as large as any other queued.
pub proof fn lemma_same_class_largest_first(q: Seq<RequestView>, x: RequestView)
    requires
        forall|j: int| 0 <= j < q.len() ==> !outranks(#[trigger] q[j], x),
        forall|j: int|
            0 <= j < q.len() ==> priority_of(#[trigger] q[j].peer_name) == priority_of(x.peer_name),
    ensures
        forall|j: int| 0 <= j < q.len() ==> #[trigger] q[j].size <= x.size,
{
    assert forall|j: int| 0 <= j < q.len() implies #[trigger] q[j].size <= x.size by {
        assert(!outranks(q[j], x));
        assert(priority_of(q[j].peer_name) == priority_of(x.peer_name));
    }
}

/// Among requests for files of one size, the one served has a peer of the highest
/// priority class queued.
pub proof fn lemma_same_size_highest_class_first(q: Seq<RequestView>, x: RequestView)
    requires
        forall|j: int| 0 <= j < q.len() ==> !outranks(#[trigger] q[j], x),
        forall|j: int| 0 <= j < q.len() ==> #[trigger] q[j].size == x.size,
    ensures
        forall|j: int|
            0 <= j < q.len() ==> priority_of(#[trigger] q[j].peer_name) <= priority_of(x.peer_name),
{
    assert forall|j: int| 0 <= j < q.len() implies priority_of(#[trigger] q[j].peer_name)
        <= priority_of(x.peer_name) by {
        assert(!outranks(q[j], x));
        assert(q[j].size == x.size);
    }
}

/// The requests can be ranked against each other: when there are two or more, every one
/// names a peer whose priority can be examined. (A lone request is never compared.)
pub open spec fn rankable(q: Seq<RequestView>) -> bool {
    q.len() >= 2 ==> forall|i: int| 0 <= i < q.len() ==> name_examinable(#[trigger] q[i].peer_name)
}

impl RequestQueue {
    pub fn new() -> (q: RequestQueue)
        ensures
            q@ == Seq::<RequestView>::empty(),
    {
        let q = RequestQueue { items: Vec::new() };
        assert(q@ =~= Seq::<RequestView>::empty());
        q
    }

    pub fn len(&self) -> (n: usize)
        ensures
            n == self@.len(),
    {
        self.items.len()
    }

    pub fn is_empty(&self) -> (b: bool)
        ensures
            b == (self@.len() == 0),
    {
        self.items.len() == 0
    }

    /// Whether the queued requests can be ranked against each other (see `rankable`).
    pub fn is_rankable(&self) -> (r: bool)
        ensures
            r == rankable(self@),
    {
        let n = self.items.len();
        if n < 2 {
            return true;
        }
        let mut i: usize = 0;
        while i < n
            invariant
                n == self@.len(),
                n == self.items@.len(),
                n >= 2,
                i <= n,
                forall|j: int| 0 <= j < i ==> name_examinable(#[trigger] self@[j].peer_name),
            decreases n - i,
        {
            assert(self@[i as int] == self.items@[i as int]@);
            if !crate::priority::peer_name_examinable(self.items[i].peer_name.as_slice()) {
                assert(self.items@[i as int].peer_name@ == self@[i as int].peer_name);
                assert(!name_examinable(self@[i as int].peer_name));
                assert(self@.len() >= 2);
                assert(!rankable(self@));
                return false;
            }
            i = i + 1;
        }
        true
    }

        /// Adds a request at the back of the queue.
    pub fn push(&mut self, req: HTTP_Request)
        ensures
            final(self)@ == old(self)@.push(req@),
    {
        let ghost r = req@;
        self.items.push(req);
        assert(self@ =~= old(self)@.push(r));
    }

    /// Takes out a request that no queued request outranks, or `None` when the queue
    /// is empty. Of several such requests, the one found by a front-to-back scan that
    /// moves to a request only when it outranks the current pick.
    pub fn maybe_pop(&mut self) -> (r: Option<HTTP_Request>)
        requires
            rankable(old(self)@),
        ensures
            old(self)@.len() == 0 ==> r is None && final(self)@ == old(self)@,
            old(self)@.len() > 0 ==> r is Some,
            r matches Some(x) ==> exists|i: int|
                0 <= i < old(self)@.len() && x@ == old(self)@[i] && final(self)@ == old(
                    self,
                )@.remove(i),
            r matches Some(x) ==> forall|j: int|
                0 <= j < old(self)@.len() ==> !outranks(#[trigger] old(self)@[j], x@),
    {
        let n = self.items.len();
        if n == 0 {
            return None;
        }
        let ghost v = self@;
        if n == 1 {
            let x = self.items.remove(0);
            assert(self@ =~= v.remove(0));
            assert(x@ == v[0]);
            return Some(x);
        }
        let mut best: usize = 0;
        let mut i: usize = 1;
        while i < n
            invariant
                n == self.items@.len(),
                v == self@,
                v.len() == n,
                n >= 2,
                forall|j: int| 0 <= j < n ==> name_examinable(#[trigger] v[j].peer_name),
                best < i <= n,
                forall|j: int| 0 <= j < i ==> !outranks(#[trigger] v[j], v[best as int]),
            decreases n - i,
        {
            assert(v[i as int] == self.items@[i as int]@);
            assert(v[best as int] == self.items@[best as int]@);
            assert(name_examinable(v[i as int].peer_name));
            assert(name_examinable(v[best as int].peer_name));
            let up = self.items[best].lt(&self.items[i]);
            let down = self.items[i].lt(&self.items[best]);
            if up && !down {
                assert(outranks(v[i as int], v[best as int]));
                assert forall|j: int| 0 <= j < i + 1 implies !outranks(#[trigger] v[j], v[i as int]) by {
                    lemma_outranks_strict_order(v[best as int], v[i as int], v[j]);
                }
                best = i;
            }
            i = i + 1;
        }
        let x = self.items.remove(best);
        assert(self@ =~= v.remove(best as int));
        assert(x@ == v[best as int]);
        Some(x)
    }
}

} // verus!
