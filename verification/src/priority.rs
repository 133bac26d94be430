//! Peer priorities and the order in which queued static-file requests are served.

use vstd::prelude::*;
use crate::bytes::{at_char_boundary, char_boundary, starts_with};
use vstd::string::StringSliceAdditionalSpecFns;

verus! {

/// The first of the three address prefixes a peer name is compared with.
pub const CAMPUS_PREFIX: &'static str = "128.143.";
/// The second address prefix.
pub const MEDICAL_PREFIX: &'static str = "137.54.";
/// The loopback prefix.
pub const LOOPBACK_PREFIX: &'static str = "127.0.0.1";

/// A peer name can be examined only where its first 6, 7 and 9 bytes are whole
/// characters: the name is at least 9 bytes long and bytes 6, 7 and 9 start characters.
pub open spec fn name_examinable(name: Seq<u8>) -> bool {
    &&& name.len() >= 9
    &&& at_char_boundary(name, 6)
    &&& at_char_boundary(name, 7)
    &&& at_char_boundary(name, 9)
}

/// Whether a peer counts as local: its first 7 bytes are `CAMPUS_PREFIX`, its first 6
/// bytes are `MEDICAL_PREFIX`, or its first 9 bytes are `LOOPBACK_PREFIX`.
pub open spec fn is_local_peer(name: Seq<u8>) -> bool {
    ||| name.subrange(0, 7) == CAMPUS_PREFIX.spec_bytes()
    ||| name.subrange(0, 6) == MEDICAL_PREFIX.spec_bytes()
    ||| name.subrange(0, 9) == LOOPBACK_PREFIX.spec_bytes()
}

/// The priority class of a peer: 1 for a local peer, 2 for any other.
pub open spec fn priority_of(name: Seq<u8>) -> int {
    if is_local_peer(name) { 1 } else { 2 }
}

/// Whether the peer name `name` can be examined (see `name_examinable`).
pub fn peer_name_examinable(name: &[u8]) -> (r: bool)
    ensures
        r == name_examinable(name@),
{
    name.len() >= 9 && char_boundary(name, 6) && char_boundary(name, 7) && char_boundary(name, 9)
}

/// Whether the first `n` bytes of `a` are exactly `b`.
fn prefix_is(a: &[u8], n: usize, b: &[u8]) -> (r: bool)
    requires
        n <= a@.len(),
    ensures
        r == (a@.subrange(0, n as int) == b@),
{
    if b.len() != n {
        assert(a@.subrange(0, n as int).len() != b@.len());
        return false;
    }
    starts_with(a, b)
}

fn local_peer(name: &[u8]) -> (r: bool)
    requires
        name_examinable(name@),
    ensures
        r == is_local_peer(name@),
{
    prefix_is(name, 7, CAMPUS_PREFIX.as_bytes()) || prefix_is(name, 6, MEDICAL_PREFIX.as_bytes())
        || prefix_is(name, 9, LOOPBACK_PREFIX.as_bytes())
}

/// The priority class of the peer `other`: 1 when it is local (see `is_local_peer`),
/// 2 otherwise.
#[allow(non_snake_case)]
pub fn getPriority(other: &[u8]) -> (p: i64)
    requires
        name_examinable(other@),
    ensures
        p == priority_of(other@),
{
    if local_peer(other) {
        1
    } else {
        2
    }
}

/// A static-file request waiting to be served: who asked, for which path, and the
/// size of that file when the request was queued.
#[allow(non_camel_case_types)]
pub struct HTTP_Request {
    pub peer_name: Vec<u8>,
    pub path: Vec<u8>,
    pub size: u64,
}

/// The abstract content of a request.
pub struct RequestView {
    pub peer_name: Seq<u8>,
    pub path: Seq<u8>,
    pub size: nat,
}

impl View for HTTP_Request {
    type V = RequestView;

    open spec fn view(&self) -> RequestView {
        RequestView { peer_name: self.peer_name@, path: self.path@, size: self.size as nat }
    }
}

/// The request order: `a` comes before `b` when `b`'s file is larger, or else when
/// `a`'s peer has a smaller priority class than `b`'s.
pub open spec fn request_lt(a: RequestView, b: RequestView) -> bool {
    b.size > a.size || priority_of(a.peer_name) < priority_of(b.peer_name)
}

/// Request equality: equal file sizes and both peers local.
pub open spec fn request_eq(a: RequestView, b: RequestView) -> bool {
    b.size == a.size && is_local_peer(b.peer_name) && is_local_peer(a.peer_name)
}

/// `b` strictly outranks `a`: `a` comes before `b` and `b` does not come before `a`.
pub open spec fn outranks(b: RequestView, a: RequestView) -> bool {
    request_lt(a, b) && !request_lt(b, a)
}

impl HTTP_Request {
    pub fn new(peer_name: Vec<u8>, path: Vec<u8>, size: u64) -> (r: HTTP_Request)
        ensures
            r.peer_name@ == peer_name@,
            r.path@ == path@,
            r.size == size,
    {
        HTTP_Request { peer_name, path, size }
    }

    /// Two requests are equal when their files have the same size and both peers are local.
    /// The peers are examined only as far as the comparison goes.
    pub fn eq(&self, other: &HTTP_Request) -> (r: bool)
        requires
            self.size == other.size ==> name_examinable(other.peer_name@),
            self.size == other.size && is_local_peer(other.peer_name@) ==> name_examinable(
                self.peer_name@,
            ),
        ensures
            r == request_eq(self@, other@),
    {
        if other.size == self.size {
            if local_peer(other.peer_name.as_slice()) && local_peer(self.peer_name.as_slice()) {
                return true;
            }
        }
        false
    }

    /// `self` comes before `other` when `other`'s file is larger, or else when `self`'s
    /// peer has the smaller priority class.
    pub fn lt(&self, other: &HTTP_Request) -> (r: bool)
        requires
            other.size <= self.size ==> name_examinable(self.peer_name@) && name_examinable(
                other.peer_name@,
            ),
        ensures
            r == request_lt(self@, other@),
    {
        if other.size > self.size {
            true
        } else {
            getPriority(self.peer_name.as_slice()) < getPriority(other.peer_name.as_slice())
        }
    }
}

/// The request order never puts a request before itself; request equality is symmetric;
/// and equal requests are ordered neither way.
pub proof fn lemma_request_order(a: RequestView, b: RequestView)
    ensures
        !request_lt(a, a),
        request_eq(a, b) == request_eq(b, a),
        request_eq(a, b) ==> !request_lt(a, b) && !request_lt(b, a),
{
}

/// The campus prefixes are compared with slices one byte shorter than themselves, so only
/// the loopback prefix ever makes a peer local.
pub proof fn lemma_only_loopback_is_local(name: Seq<u8>)
    requires
        name.len() >= 9,
    ensures
        is_local_peer(name) <==> name.subrange(0, 9) == LOOPBACK_PREFIX.spec_bytes(),
{
    reveal_strlit("128.143.");
    reveal_strlit("137.54.");
    vstd::utf8::is_ascii_chars_encode_utf8(CAMPUS_PREFIX@);
    vstd::utf8::is_ascii_chars_encode_utf8(MEDICAL_PREFIX@);
    assert(CAMPUS_PREFIX.spec_bytes().len() == 8);
    assert(MEDICAL_PREFIX.spec_bytes().len() == 7);
}

} // verus!
