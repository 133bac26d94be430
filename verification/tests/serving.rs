use zhtta::lru::LruCache;
use zhtta::pages::{COUNTER_STYLE, HTTP_BAD, HTTP_OK};
use zhtta::server::{Action, Event, PeerAddr, WebServer, CACHE_CAPACITY};

fn bytes(parts: &[&[u8]]) -> Vec<u8> {
    let mut v = Vec::new();
    for p in parts {
        v.extend_from_slice(p);
    }
    v
}

#[test]
fn lru_get_after_put() {
    let mut c = LruCache::new(2);
    c.put(b"a".to_vec(), b"1".to_vec());
    assert_eq!(c.get(b"a").unwrap(), &b"1".to_vec());
    assert!(c.get(b"b").is_none());
    c.put(b"a".to_vec(), b"2".to_vec());
    assert_eq!(c.get(b"a").unwrap(), &b"2".to_vec());
    assert_eq!(c.len(), 1);
    assert_eq!(c.capacity(), 2);
}

#[test]
fn lru_evicts_least_recently_used() {
    let mut c = LruCache::new(2);
    c.put(b"a".to_vec(), b"1".to_vec());
    c.put(b"b".to_vec(), b"2".to_vec());
    // Using "a" makes "b" the least recently used.
    assert!(c.get(b"a").is_some());
    c.put(b"c".to_vec(), b"3".to_vec());
    assert_eq!(c.len(), 2);
    assert!(c.get(b"b").is_none());
    assert_eq!(c.get(b"a").unwrap(), &b"1".to_vec());
    assert_eq!(c.get(b"c").unwrap(), &b"3".to_vec());
}

#[test]
fn lru_of_capacity_zero_keeps_nothing() {
    let mut c = LruCache::new(0);
    c.put(b"a".to_vec(), b"1".to_vec());
    assert_eq!(c.len(), 0);
    assert!(c.get(b"a").is_none());
}

#[test]
fn error_page_names_the_path() {
    let out = WebServer::respond_with_error_page(b"/srv/www/missing.html");
    assert_eq!(out, bytes(&[HTTP_BAD.as_bytes(), b"Cannot open: /srv/www/missing.html"]));
    assert!(out.starts_with(b"HTTP/1.1 404 Not Found\r\n\r\n"));
}

#[test]
fn counter_page_shows_the_count() {
    let out = WebServer::respond_with_counter_page(42);
    let expected = bytes(&[
        HTTP_OK.as_bytes(),
        COUNTER_STYLE.as_bytes(),
        b"<h1>Greetings, Krusty!</h1>\n                     <h2>Visitor count: 42</h2></body></html>\r\n",
    ]);
    assert_eq!(out, expected);
    let zero = WebServer::respond_with_counter_page(0);
    assert!(zero.ends_with(b"Visitor count: 0</h2></body></html>\r\n"));
    let big = WebServer::respond_with_counter_page(u64::MAX);
    assert!(big.ends_with(b"Visitor count: 18446744073709551615</h2></body></html>\r\n"));
}

fn serve(cache: &mut LruCache, path: &[u8], file: &[u8], size: u64) -> Vec<u8> {
    match WebServer::respond_with_static_file(cache, path) {
        Some(out) => out,
        None => WebServer::respond_with_file(cache, path, file, size),
    }
}

#[test]
fn static_file_is_cached_after_serving() {
    let mut cache = LruCache::new(CACHE_CAPACITY);
    assert!(WebServer::respond_with_static_file(&mut cache, b"index.html").is_none());
    let first = WebServer::respond_with_file(&mut cache, b"index.html", b"<p>hi</p>", 9);
    assert_eq!(first, bytes(&[HTTP_OK.as_bytes(), b"<p>hi</p>"]));
    // Once cached, the file is served from the cache, once.
    let second = WebServer::respond_with_static_file(&mut cache, b"index.html").unwrap();
    assert_eq!(second, bytes(&[HTTP_OK.as_bytes(), b"<p>hi</p>"]));
    // The cached copy is what goes out, even when the file on disk has changed since.
    let third = serve(&mut cache, b"index.html", b"<p>new</p>", 10);
    assert_eq!(third, bytes(&[HTTP_OK.as_bytes(), b"<p>hi</p>"]));
}

#[test]
fn large_static_file_is_not_cached() {
    let mut cache = LruCache::new(CACHE_CAPACITY);
    let out = serve(&mut cache, b"big.bin", b"xyz", 1000000);
    assert_eq!(out, bytes(&[HTTP_OK.as_bytes(), b"xyz"]));
    assert_eq!(cache.len(), 0);
    serve(&mut cache, b"small.bin", b"xyz", 999999);
    assert_eq!(cache.len(), 1);
}

#[test]
fn peer_names_are_formatted() {
    assert_eq!(
        WebServer::get_peer_name(&Some(Some(PeerAddr::V4(127, 0, 0, 1, 54321)))),
        b"127.0.0.1:54321".to_vec()
    );
    assert_eq!(
        WebServer::get_peer_name(&Some(Some(PeerAddr::V6(b"::1".to_vec(), 80)))),
        b"[::1]:80".to_vec()
    );
    assert_eq!(WebServer::get_peer_name(&Some(None)), Vec::<u8>::new());
    assert_eq!(WebServer::get_peer_name(&None), Vec::<u8>::new());
}

fn connection(peer: &str, request: &str, found: bool, is_dir: bool, size: u64) -> Event {
    Event::Connection {
        peer_name: peer.as_bytes().to_vec(),
        request: request.as_bytes().to_vec(),
        cwd: b"/srv/www".to_vec(),
        found,
        is_dir,
        size,
    }
}

#[test]
fn new_server_starts_empty() {
    let s = WebServer::new(b"127.0.0.1".to_vec(), 4414, b"./www".to_vec());
    assert_eq!(s.ip, b"127.0.0.1".to_vec());
    assert_eq!(s.port, 4414);
    assert_eq!(s.www_dir_path, b"./www".to_vec());
    assert_eq!(s.visitor_count, 0);
    assert!(s.request_queue.is_empty());
    assert_eq!(s.cache.len(), 0);
    assert_eq!(s.cache.capacity(), 10);
}

#[test]
fn run_counts_visitors_and_answers_the_root() {
    let mut s = WebServer::new(b"127.0.0.1".to_vec(), 4414, b"./www".to_vec());
    let a = s.run(connection("10.0.0.1:5", "GET / HTTP/1.1\r\n", true, true, 0));
    assert_eq!(s.visitor_count, 1);
    match a {
        Action::Respond(b) => assert_eq!(b, WebServer::respond_with_counter_page(1)),
        _ => panic!("expected the counter page"),
    }
    // A request without a path is dropped, but still counted.
    let b = s.run(connection("10.0.0.1:6", "GET", false, false, 0));
    assert!(matches!(b, Action::Ignore));
    assert_eq!(s.visitor_count, 2);
}

#[test]
fn run_answers_missing_files_with_the_error_page() {
    let mut s = WebServer::new(b"127.0.0.1".to_vec(), 4414, b"./www".to_vec());
    match s.run(connection("10.0.0.1:5", "GET /nope HTTP/1.1", false, false, 0)) {
        Action::Respond(b) => assert_eq!(b, WebServer::respond_with_error_page(b"/srv/www/nope")),
        _ => panic!("expected the error page"),
    }
    // The path shown is normalized under the working directory.
    match s.run(connection("10.0.0.1:5", "GET /../../etc/x HTTP/1.1", false, false, 0)) {
        Action::Respond(b) => assert_eq!(b, WebServer::respond_with_error_page(b"/etc/x")),
        _ => panic!("expected the error page"),
    }
}

#[test]
fn run_hands_out_dynamic_pages() {
    let mut s = WebServer::new(b"127.0.0.1".to_vec(), 4414, b"./www".to_vec());
    match s.run(connection("10.0.0.1:5", "GET /t.shtml HTTP/1.1", true, false, 10)) {
        Action::Dynamic(p) => assert_eq!(p, b"./t.shtml".to_vec()),
        _ => panic!("expected a dynamic page"),
    }
    assert!(s.request_queue.is_empty());
}

#[test]
fn run_queues_static_files_and_serves_them_on_notice() {
    let mut s = WebServer::new(b"127.0.0.1".to_vec(), 4414, b"./www".to_vec());
    let a = s.run(connection("10.0.0.1:5", "GET /a/../b.html HTTP/1.1", true, false, 10));
    assert!(matches!(a, Action::Enqueued));
    assert_eq!(s.request_queue.len(), 1);
    match s.run(Event::Notify) {
        Action::Serve(r, kept) => {
            assert!(kept);
            assert_eq!(r.path, b"b.html".to_vec());
            assert_eq!(r.peer_name, b"10.0.0.1:5".to_vec());
            assert_eq!(r.size, 10);
        },
        _ => panic!("expected a request to serve"),
    }
    assert!(matches!(s.run(Event::Notify), Action::Idle));
    assert_eq!(s.visitor_count, 1);
}

#[test]
fn visitor_count_wraps_at_the_word_limit() {
    let mut s = WebServer::new(b"127.0.0.1".to_vec(), 4414, b"./www".to_vec());
    s.visitor_count = u64::MAX;
    match s.run(connection("10.0.0.1:5", "GET / HTTP/1.1", true, true, 0)) {
        Action::Respond(b) => assert_eq!(b, WebServer::respond_with_counter_page(0)),
        _ => panic!("expected the counter page"),
    }
    assert_eq!(s.visitor_count, 0);
}

#[test]
fn peers_with_short_names_are_queued() {
    let mut s = WebServer::new(b"127.0.0.1".to_vec(), 4414, b"./www".to_vec());
    let a = s.run(connection("", "GET /a.html HTTP/1.1", true, false, 10));
    assert!(matches!(a, Action::Enqueued));
    assert!(s.request_queue.is_rankable());
    match s.run(Event::Notify) {
        Action::Serve(r, kept) => {
            assert!(kept);
            assert_eq!(r.peer_name, Vec::<u8>::new());
        },
        _ => panic!("expected a request to serve"),
    }
    s.run(connection("", "GET /a.html HTTP/1.1", true, false, 10));
    s.run(connection("10.0.0.1:5", "GET /b.html HTTP/1.1", true, false, 10));
    assert!(!s.request_queue.is_rankable());
}

#[test]
fn each_served_request_finds_its_connection() {
    let mut s = WebServer::new(b"127.0.0.1".to_vec(), 4414, b"./www".to_vec());
    s.run(connection("10.0.0.1:5", "GET /a.html HTTP/1.1", true, false, 10));
    s.run(connection("10.0.0.2:7", "GET /b.html HTTP/1.1", true, false, 20));
    assert!(s.waiting.contains(b"10.0.0.1:5"));
    assert!(s.waiting.contains(b"10.0.0.2:7"));
    let mut served = Vec::new();
    for _ in 0..2 {
        match s.run(Event::Notify) {
            Action::Serve(r, kept) => {
                assert!(kept);
                assert!(!s.waiting.contains(&r.peer_name));
                served.push(r.peer_name);
            },
            _ => panic!("expected a request to serve"),
        }
    }
    served.sort();
    assert_eq!(served, vec![b"10.0.0.1:5".to_vec(), b"10.0.0.2:7".to_vec()]);
    assert!(!s.waiting.contains(b"10.0.0.1:5"));
    assert!(matches!(s.run(Event::Notify), Action::Idle));
}

#[test]
fn a_second_request_from_one_peer_shares_its_connection() {
    let mut s = WebServer::new(b"127.0.0.1".to_vec(), 4414, b"./www".to_vec());
    s.run(connection("10.0.0.1:5", "GET /a.html HTTP/1.1", true, false, 10));
    s.run(connection("10.0.0.1:5", "GET /b.html HTTP/1.1", true, false, 10));
    assert_eq!(s.request_queue.len(), 2);
    match s.run(Event::Notify) {
        Action::Serve(_, kept) => assert!(kept),
        _ => panic!("expected a request to serve"),
    }
    match s.run(Event::Notify) {
        Action::Serve(r, kept) => {
            assert_eq!(r.peer_name, b"10.0.0.1:5".to_vec());
            assert!(!kept);
        },
        _ => panic!("expected a request to serve"),
    }
}

#[test]
fn pages_answered_at_once_keep_no_connection() {
    let mut s = WebServer::new(b"127.0.0.1".to_vec(), 4414, b"./www".to_vec());
    s.run(connection("10.0.0.1:5", "GET / HTTP/1.1", true, true, 0));
    s.run(connection("10.0.0.1:6", "GET /nope HTTP/1.1", false, false, 0));
    s.run(connection("10.0.0.1:7", "GET /t.shtml HTTP/1.1", true, false, 3));
    assert!(!s.waiting.contains(b"10.0.0.1:5"));
    assert!(!s.waiting.contains(b"10.0.0.1:6"));
    assert!(!s.waiting.contains(b"10.0.0.1:7"));
}
