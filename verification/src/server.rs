//! The server: its state, and what it does on each event the outside world reports.

use vstd::prelude::*;
use vstd::string::StringSliceAdditionalSpecFns;
use crate::bytes::{decimal, push_all, push_decimal};
use crate::lru::{
    Entry, LruCache, after_get, after_put, has_key, key_pos, keys_distinct, lemma_get_after_put,
    lemma_get_keeps_contents, lemma_put_keeps_wf, lookup,
};
use crate::pages::{
    CANNOT_OPEN, COUNTER_END, COUNTER_GREETING, COUNTER_STYLE, HTTP_BAD, HTTP_OK, counter_page,
    error_page,
};
use crate::priority::{HTTP_Request, RequestView, name_examinable, outranks};
use crate::queue::{RequestQueue, rankable};
use crate::request::{
    Route, normalized_path, normalized_path_spec, request_path, request_path_spec,
    resolved_path, resolved_path_spec, route, route_spec,
};
use vstd::utf8::valid_utf8;
use crate::shtml::{commands_of, page_ok, page_pieces, render, render_page, shtml_commands};
use crate::waiting::WaitingPeers;

verus! {

/// How many files the page cache holds.
pub const CACHE_CAPACITY: usize = 10;
/// Files of this many bytes or more are not cached.
pub const CACHE_LIMIT: u64 = 1000000;

/// The address of a connected peer.
pub enum PeerAddr {
    /// An IPv4 address (its four octets) and a port.
    V4(u8, u8, u8, u8, u16),
    /// An IPv6 address, as text, and a port.
    V6(Vec<u8>, u16),
}

/// The text of a peer address: "a.b.c.d:port", or "[host]:port" for IPv6.
pub open spec fn peer_text(a: PeerAddr) -> Seq<u8> {
    match a {
        PeerAddr::V4(a, b, c, d, port) => decimal(a as nat).push(46u8) + decimal(b as nat).push(46u8)
            + decimal(c as nat).push(46u8) + decimal(d as nat).push(58u8) + decimal(port as nat),
        PeerAddr::V6(host, port) => seq![91u8] + host@ + seq![93u8, 58u8] + decimal(port as nat),
    }
}

/// The name of the peer behind a connection: the address text when there is a
/// connection whose peer is known, and empty otherwise.
pub open spec fn peer_name_spec(stream: Option<Option<PeerAddr>>) -> Seq<u8> {
    match stream {
        Some(Some(a)) => peer_text(a),
        _ => Seq::empty(),
    }
}

/// The visitor count after one more visitor (machine-word arithmetic wraps).
pub open spec fn next_count(c: u64) -> u64 {
    if c == u64::MAX { 0 } else { (c + 1) as u64 }
}

/// Once a file has been served, the cache holds a file for its path: what it held before
/// when the file was cached, and otherwise the file read, when that is under `CACHE_LIMIT`
/// bytes.
pub proof fn lemma_served_file_is_cached(
    c: Seq<Entry>,
    cap: nat,
    path: Seq<u8>,
    file: Seq<u8>,
    size: u64,
)
    requires
        keys_distinct(c),
        c.len() <= cap,
        cap >= 1,
        size < CACHE_LIMIT,
    ensures
        lookup(cache_after_serving(c, cap, path, file, size), path) == (if has_key(c, path) {
            lookup(c, path)
        } else {
            Some(file)
        }),
{
    lemma_get_keeps_contents(c, path, path);
    if !has_key(c, path) {
        lemma_get_after_put(c, cap, path, file);
    }
}

/// Every cached file is under `limit` bytes.
pub open spec fn values_below(s: Seq<Entry>, limit: nat) -> bool {
    forall|i: int| 0 <= i < s.len() ==> #[trigger] s[i].1.len() < limit
}

/// The bytes the cache holds, all files together.
pub open spec fn total_bytes(s: Seq<Entry>) -> nat
    decreases s.len(),
{
    if s.len() == 0 {
        0
    } else {
        total_bytes(s.drop_last()) + s.last().1.len()
    }
}

proof fn lemma_total_bytes_bound(s: Seq<Entry>)
    requires
        values_below(s, CACHE_LIMIT as nat),
    ensures
        total_bytes(s) <= s.len() * 999999,
    decreases s.len(),
{
    if s.len() > 0 {
        assert(values_below(s.drop_last(), CACHE_LIMIT as nat)) by {
            assert forall|i: int| 0 <= i < s.drop_last().len() implies #[trigger] s.drop_last()[i].1.len()
                < CACHE_LIMIT by {
                assert(s.drop_last()[i] == s[i]);
            }
        }
        lemma_total_bytes_bound(s.drop_last());
        assert(s[s.len() - 1].1.len() < CACHE_LIMIT);
    }
}

/// The cache the server keeps after serving a static file: a cached file is marked as
/// recently used; a file not cached, read from disk, is stored when it is under
/// `CACHE_LIMIT` bytes (see `WebServer::respond_with_static_file` and
/// `WebServer::respond_with_file`).
pub open spec fn cache_after_serving(c: Seq<Entry>, cap: nat, path: Seq<u8>, file: Seq<u8>, size: u64) -> Seq<Entry> {
    if has_key(c, path) {
        after_get(c, path)
    } else if size < CACHE_LIMIT {
        after_put(c, cap, path, file)
    } else {
        c
    }
}

/// The cache stays small: when the size on disk is the size of the file read, serving a
/// static file keeps the cache at most `cap` files, each under `CACHE_LIMIT` bytes, so that
/// `CACHE_CAPACITY` files hold less than ten times `CACHE_LIMIT` bytes in all.
pub proof fn lemma_cache_stays_small(c: Seq<Entry>, cap: nat, path: Seq<u8>, file: Seq<u8>, size: u64)
    requires
        keys_distinct(c),
        c.len() <= cap,
        values_below(c, CACHE_LIMIT as nat),
        file.len() == size,
    ensures
        keys_distinct(cache_after_serving(c, cap, path, file, size)),
        cache_after_serving(c, cap, path, file, size).len() <= cap,
        values_below(cache_after_serving(c, cap, path, file, size), CACHE_LIMIT as nat),
        total_bytes(cache_after_serving(c, cap, path, file, size)) <= cap * 999999,
        cap == CACHE_CAPACITY ==> total_bytes(cache_after_serving(c, cap, path, file, size))
            < CACHE_CAPACITY * CACHE_LIMIT,
{
    lemma_get_keeps_contents(c, path, path);
    let g = after_get(c, path);
    assert(values_below(g, CACHE_LIMIT as nat)) by {
        if has_key(c, path) {
            let p = key_pos(c, path);
            assert forall|i: int| 0 <= i < g.len() implies #[trigger] g[i].1.len() < CACHE_LIMIT by {
                let j = if i == 0 { p } else if i - 1 < p { i - 1 } else { i };
                assert(g[i] == c[j]);
            }
        }
    }
    let r = cache_after_serving(c, cap, path, file, size);
    if !has_key(c, path) && size < CACHE_LIMIT {
        lemma_put_keeps_wf(c, cap, path, file);
        let t = seq![(path, file)] + c;
        assert(r == (if t.len() > cap { t.drop_last() } else { t }));
        assert(t[0] == (path, file));
        assert(values_below(r, CACHE_LIMIT as nat)) by {
            assert forall|i: int| 0 <= i < r.len() implies #[trigger] r[i].1.len() < CACHE_LIMIT by {
                assert(r[i] == t[i]);
                if i > 0 {
                    assert(t[i] == c[i - 1]);
                    assert(c[i - 1].1.len() < CACHE_LIMIT);
                } else {
                    assert(r[0].1 == file);
                }
            }
        }
    }
    lemma_total_bytes_bound(r);
    vstd::arithmetic::mul::lemma_mul_inequality(r.len() as int, cap as int, 999999);
}

/// A connection's request can be read: it is UTF-8 text, and when it is answered with the
/// error page, the path that page names is UTF-8 text too.
pub open spec fn connection_readable(request: Seq<u8>, cwd: Seq<u8>, found: bool, is_dir: bool) -> bool {
    &&& valid_utf8(request)
    &&& match request_path_spec(request) {
        Some(p) => route_spec(p, found, is_dir) == Route::NotFound ==> valid_utf8(
            resolved_path_spec(cwd, p),
        ),
        None => true,
    }
}

/// Something the outside world reports to the server.
pub enum Event {
    /// A connection arrived. `request` is what was read from it and `cwd` the working
    /// directory; `found`, `is_dir` and `size` describe, on disk, the file that the
    /// requested path names under `cwd` (see `resolved_path_spec`).
    Connection {
        peer_name: Vec<u8>,
        request: Vec<u8>,
        cwd: Vec<u8>,
        found: bool,
        is_dir: bool,
        size: u64,
    },
    /// A static-file request was queued and the queue may be served.
    Notify,
}

/// What the outside world is to do next.
pub enum Action {
    /// Close the connection without an answer.
    Ignore,
    /// Send these bytes and close the connection.
    Respond(Vec<u8>),
    /// Serve the server-side-include page at this path.
    Dynamic(Vec<u8>),
    /// The request was queued: keep the connection under the peer's name until it is
    /// served, in place of one kept under that name before.
    Enqueued,
    /// Serve this queued static-file request, on the connection kept under its peer's
    /// name, which is released; the flag says whether one was kept.
    Serve(HTTP_Request, bool),
    /// Nothing to do.
    Idle,
}

/// The server's state: where it listens, what it serves, the requests waiting to be served
/// and the peers whose connections are kept for them, the page cache, and how many
/// visitors it has seen.
pub struct WebServer {
    pub ip: Vec<u8>,
    pub port: u64,
    pub www_dir_path: Vec<u8>,
    pub request_queue: RequestQueue,
    pub waiting: WaitingPeers,
    pub cache: LruCache,
    pub visitor_count: u64,
}

impl WebServer {
    /// The cache is well formed and holds `CACHE_CAPACITY` files, and no peer name is kept
    /// twice.
    pub open spec fn wf(&self) -> bool {
        &&& self.waiting.wf()
        &&& self.cache.wf()
        &&& self.cache.cap() == CACHE_CAPACITY
    }

    /// A server for `ip`, `port` and the directory `www_dir`, with no queued request, no
    /// connection kept, an empty cache and no visitor yet.
    pub fn new(ip: Vec<u8>, port: u64, www_dir: Vec<u8>) -> (s: WebServer)
        ensures
            s.wf(),
            s.ip@ == ip@,
            s.port == port,
            s.www_dir_path@ == www_dir@,
            s.request_queue@ == Seq::<RequestView>::empty(),
            s.waiting@ == Set::<Seq<u8>>::empty(),
            s.cache@.len() == 0,
            s.visitor_count == 0,
    {
        WebServer {
            ip,
            port,
            www_dir_path: www_dir,
            request_queue: RequestQueue::new(),
            waiting: WaitingPeers::new(),
            cache: LruCache::new(CACHE_CAPACITY),
            visitor_count: 0,
        }
    }

    /// The answer for a path that cannot be served: the 404 head, then "Cannot open: " and
    /// the path.
    pub fn respond_with_error_page(path: &[u8]) -> (out: Vec<u8>)
        requires
            valid_utf8(path@),
        ensures
            out@ == error_page(path@),
    {
        let mut out: Vec<u8> = Vec::new();
        push_all(&mut out, HTTP_BAD.as_bytes());
        push_all(&mut out, CANNOT_OPEN.as_bytes());
        push_all(&mut out, path);
        out
    }

    /// The counter page: the success head, the page style, a greeting and the visitor
    /// count in decimal.
    pub fn respond_with_counter_page(visitor_count: u64) -> (out: Vec<u8>)
        ensures
            out@ == counter_page(visitor_count as nat),
    {
        let mut out: Vec<u8> = Vec::new();
        push_all(&mut out, HTTP_OK.as_bytes());
        push_all(&mut out, COUNTER_STYLE.as_bytes());
        push_all(&mut out, COUNTER_GREETING.as_bytes());
        push_decimal(&mut out, visitor_count);
        push_all(&mut out, COUNTER_END.as_bytes());
        out
    }

    /// The answer for a static file, from the cache: when the cache holds the file for
    /// `path`, the success head and the cached bytes, and the entry becomes the most recently
    /// used; otherwise `None`, and the file is to be read from disk (see `respond_with_file`).
    pub fn respond_with_static_file(cache: &mut LruCache, path: &[u8]) -> (out: Option<Vec<u8>>)
        requires
            old(cache).wf(),
        ensures
            final(cache).wf(),
            final(cache).cap() == old(cache).cap(),
            final(cache)@ == after_get(old(cache)@, path@),
            match lookup(old(cache)@, path@) {
                Some(v) => out matches Some(b) && b@ == HTTP_OK.spec_bytes() + v,
                None => out is None,
            },
    {
        match cache.get(path) {
            Some(bytes) => {
                let mut out: Vec<u8> = Vec::new();
                push_all(&mut out, HTTP_OK.as_bytes());
                push_all(&mut out, bytes.as_slice());
                Some(out)
            },
            None => None,
        }
    }

    /// The answer for a static file not in the cache, read from disk as `file` with size
    /// `size` on disk: the success head and the file. A file under `CACHE_LIMIT` bytes is
    /// stored in the cache as its most recently used entry.
    pub fn respond_with_file(cache: &mut LruCache, path: &[u8], file: &[u8], size: u64) -> (out: Vec<u8>)
        requires
            old(cache).wf(),
        ensures
            final(cache).wf(),
            final(cache).cap() == old(cache).cap(),
            out@ == HTTP_OK.spec_bytes() + file@,
            final(cache)@ == (if size < CACHE_LIMIT {
                after_put(old(cache)@, old(cache).cap(), path@, file@)
            } else {
                old(cache)@
            }),
    {
        let mut out: Vec<u8> = Vec::new();
        push_all(&mut out, HTTP_OK.as_bytes());
        push_all(&mut out, file);
        if size < CACHE_LIMIT {
            cache.put(vstd::slice::slice_to_vec(path), vstd::slice::slice_to_vec(file));
        }
        out
    }

    /// The commands a server-side-include page runs, in page order.
    pub fn dynamic_page_commands(file: &[u8]) -> (cmds: Vec<Vec<u8>>)
        requires
            page_ok(file@),
        ensures
            cmds@.map_values(|c: Vec<u8>| c@) == commands_of(page_pieces(file@)),
    {
        shtml_commands(file)
    }

    /// The answer for a server-side-include page: the success head, then the page with
    /// each directive replaced by its command's output (`outputs`, in the order of
    /// `dynamic_page_commands`).
    pub fn respond_with_dynamic_page(file: &[u8], outputs: &Vec<Vec<u8>>) -> (out: Vec<u8>)
        requires
            page_ok(file@),
            outputs@.len() == commands_of(page_pieces(file@)).len(),
        ensures
            out@ == HTTP_OK.spec_bytes() + render(
                page_pieces(file@),
                outputs@.map_values(|o: Vec<u8>| o@),
            ),
    {
        let mut out: Vec<u8> = Vec::new();
        push_all(&mut out, HTTP_OK.as_bytes());
        render_page(file, outputs, &mut out);
        out
    }

    /// Queues a request by `peer_name` for the file at `path` of `size` bytes.
    pub fn enqueue_static_file_request(
        queue: &mut RequestQueue,
        peer_name: Vec<u8>,
        path: Vec<u8>,
        size: u64,
    )
        ensures
            final(queue)@ == old(queue)@.push(
                RequestView { peer_name: peer_name@, path: path@, size: size as nat },
            ),
    {
        queue.push(HTTP_Request::new(peer_name, path, size));
    }

    /// Takes the next request to serve out of the queue (see `RequestQueue::maybe_pop`).
    pub fn dequeue_static_file_request(queue: &mut RequestQueue) -> (r: Option<HTTP_Request>)
        requires
            rankable(old(queue)@),
        ensures
            old(queue)@.len() == 0 ==> r is None && final(queue)@ == old(queue)@,
            old(queue)@.len() > 0 ==> r is Some,
            r matches Some(x) ==> exists|i: int|
                0 <= i < old(queue)@.len() && x@ == old(queue)@[i] && final(queue)@ == old(
                    queue,
                )@.remove(i),
            r matches Some(x) ==> forall|j: int|
                0 <= j < old(queue)@.len() ==> !outranks(#[trigger] old(queue)@[j], x@),
    {
        queue.maybe_pop()
    }

    /// The name of the peer behind `stream` (see `peer_name_spec`).
    pub fn get_peer_name(stream: &Option<Option<PeerAddr>>) -> (name: Vec<u8>)
        ensures
            name@ == peer_name_spec(*stream),
    {
        let mut name: Vec<u8> = Vec::new();
        match stream {
            Some(Some(PeerAddr::V4(a, b, c, d, port))) => {
                push_decimal(&mut name, *a as u64);
                name.push(46);
                push_decimal(&mut name, *b as u64);
                name.push(46);
                push_decimal(&mut name, *c as u64);
                name.push(46);
                push_decimal(&mut name, *d as u64);
                name.push(58);
                push_decimal(&mut name, *port as u64);
                assert(name@ =~= peer_name_spec(*stream));
            },
            Some(Some(PeerAddr::V6(host, port))) => {
                name.push(91);
                push_all(&mut name, host.as_slice());
                name.push(93);
                name.push(58);
                push_decimal(&mut name, *port as u64);
                assert(name@ =~= peer_name_spec(*stream));
            },
            _ => {},
        }
        name
    }

    /// One step of the server: what it does on `event`.
    ///
    /// On a connection it counts one more visitor, then reads the requested path from the
    /// request. With no path the connection is dropped; the site root gets the counter
    /// page with the new count; a missing path or a directory gets the error page, which
    /// names the path resolved under the working directory; a
    /// ".shtml" file is handed out to be served as a dynamic page; any other file is queued
    /// under its normalized path, its connection kept under the peer's name. On a
    /// notification it takes the next request out of the queue to be served and releases
    /// the connection kept under its peer's name.
    pub fn run(&mut self, event: Event) -> (action: Action)
        requires
            old(self).wf(),
            event matches Event::Connection { request, cwd, found, is_dir, .. }
                ==> connection_readable(request@, cwd@, found, is_dir),
            event is Notify ==> rankable(old(self).request_queue@),
        ensures
            final(self).wf(),
            final(self).ip == old(self).ip,
            final(self).port == old(self).port,
            final(self).www_dir_path == old(self).www_dir_path,
            final(self).cache == old(self).cache,
            match event {
                Event::Connection { peer_name, request, cwd, found, is_dir, size } => {
                    &&& final(self).visitor_count == next_count(old(self).visitor_count)
                    &&& match request_path_spec(request@) {
                        None => {
                            &&& action is Ignore
                            &&& final(self).request_queue@ == old(self).request_queue@
                            &&& final(self).waiting@ == old(self).waiting@
                        },
                        Some(p) => match route_spec(p, found, is_dir) {
                            Route::Counter => {
                                &&& action matches Action::Respond(b) && b@ == counter_page(
                                    final(self).visitor_count as nat,
                                )
                                &&& final(self).request_queue@ == old(self).request_queue@
                                &&& final(self).waiting@ == old(self).waiting@
                            },
                            Route::NotFound => {
                                &&& action matches Action::Respond(b) && b@ == error_page(
                                    resolved_path_spec(cwd@, p),
                                )
                                &&& final(self).request_queue@ == old(self).request_queue@
                                &&& final(self).waiting@ == old(self).waiting@
                            },
                            Route::Dynamic => {
                                &&& action matches Action::Dynamic(q) && q@ == p
                                &&& final(self).request_queue@ == old(self).request_queue@
                                &&& final(self).waiting@ == old(self).waiting@
                            },
                            Route::Static => {
                                &&& action is Enqueued
                                &&& final(self).request_queue@ == old(self).request_queue@.push(
                                    RequestView {
                                        peer_name: peer_name@,
                                        path: normalized_path_spec(p),
                                        size: size as nat,
                                    },
                                )
                                &&& final(self).waiting@ == old(self).waiting@.insert(peer_name@)
                            },
                        },
                    }
                },
                Event::Notify => {
                    let q0 = old(self).request_queue@;
                    let q1 = final(self).request_queue@;
                    &&& final(self).visitor_count == old(self).visitor_count
                    &&& (q0.len() == 0 <==> action is Idle)
                    &&& q0.len() == 0 ==> q1 == q0
                    &&& action is Idle || action is Serve
                    &&& action is Idle ==> final(self).waiting@ == old(self).waiting@
                    &&& action matches Action::Serve(x, _) ==> exists|i: int|
                        0 <= i < q0.len() && x@ == q0[i] && q1 == q0.remove(i)
                    &&& action matches Action::Serve(x, _) ==> forall|j: int|
                        0 <= j < q0.len() ==> !outranks(#[trigger] q0[j], x@)
                    &&& action matches Action::Serve(x, kept) ==> {
                        &&& kept == old(self).waiting@.contains(x@.peer_name)
                        &&& final(self).waiting@ == old(self).waiting@.remove(x@.peer_name)
                    }
                },
            },
    {
        match event {
            Event::Connection { peer_name, request, cwd, found, is_dir, size } => {
                self.visitor_count = if self.visitor_count == u64::MAX {
                    0
                } else {
                    self.visitor_count + 1
                };
                let p = match request_path(request.as_slice()) {
                    None => {
                        return Action::Ignore;
                    },
                    Some(p) => p,
                };
                match route(p.as_slice(), found, is_dir) {
                    Route::Counter => {
                        Action::Respond(WebServer::respond_with_counter_page(self.visitor_count))
                    },
                    Route::NotFound => {
                        let shown = resolved_path(cwd.as_slice(), p.as_slice());
                        Action::Respond(WebServer::respond_with_error_page(shown.as_slice()))
                    },
                    Route::Dynamic => Action::Dynamic(p),
                    Route::Static => {
                        let path = normalized_path(p.as_slice());
                        self.waiting.keep(vstd::slice::slice_to_vec(peer_name.as_slice()));
                        WebServer::enqueue_static_file_request(
                            &mut self.request_queue,
                            peer_name,
                            path,
                            size,
                        );
                        Action::Enqueued
                    },
                }
            },
            Event::Notify => {
                match WebServer::dequeue_static_file_request(&mut self.request_queue) {
                    Some(r) => {
                        let kept = self.waiting.release(r.peer_name.as_slice());
                        Action::Serve(r, kept)
                    },
                    None => Action::Idle,
                }
            },
        }
    }
}

} // verus!
