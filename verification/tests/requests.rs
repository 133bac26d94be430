use zhtta::priority::{getPriority, HTTP_Request};
use zhtta::queue::RequestQueue;
use zhtta::request::{extension, normalized_path, path_components, request_path, route, Route};

fn req(peer: &str, path: &str, size: u64) -> HTTP_Request {
    HTTP_Request::new(peer.as_bytes().to_vec(), path.as_bytes().to_vec(), size)
}

#[test]
fn priority_of_loopback_peer_is_one() {
    assert_eq!(getPriority(b"127.0.0.1:4414"), 1);
}

#[test]
fn priority_of_other_peers_is_two() {
    assert_eq!(getPriority(b"10.0.0.1:80"), 2);
    // The campus prefixes are compared with slices one byte too short, so they never match.
    assert_eq!(getPriority(b"128.143.22.1:80"), 2);
    assert_eq!(getPriority(b"137.54.1.1:8080"), 2);
}

#[test]
fn request_order_prefers_larger_files_then_priority() {
    let small_remote = req("10.0.0.1:1000", "a", 10);
    let big_remote = req("10.0.0.2:1000", "b", 20);
    let small_local = req("127.0.0.1:1000", "c", 10);
    assert!(small_remote.lt(&big_remote));
    assert!(!big_remote.lt(&small_remote));
    assert!(small_local.lt(&small_remote));
    assert!(!small_remote.lt(&small_local));
    // Both ways hold when the larger file is a local peer's.
    let big_local = req("127.0.0.1:2000", "d", 20);
    assert!(big_local.lt(&small_remote));
    assert!(small_remote.lt(&big_local));
}

#[test]
fn request_equality_needs_local_peers_and_equal_sizes() {
    let a = req("127.0.0.1:1000", "a", 10);
    let b = req("127.0.0.1:2000", "b", 10);
    let c = req("127.0.0.1:3000", "c", 11);
    let d = req("10.0.0.1:1000", "d", 10);
    assert!(a.eq(&b));
    assert!(b.eq(&a));
    assert!(!a.eq(&c));
    assert!(!a.eq(&d));
    // A remote request is not even equal to itself.
    assert!(!d.eq(&d));
}

#[test]
fn empty_queue_serves_nothing() {
    let mut q = RequestQueue::new();
    assert!(q.is_empty());
    assert!(q.maybe_pop().is_none());
}

#[test]
fn queue_serves_largest_file_of_one_class_first() {
    let mut q = RequestQueue::new();
    q.push(req("10.0.0.1:1", "small", 5));
    q.push(req("10.0.0.2:1", "large", 500));
    q.push(req("10.0.0.3:1", "medium", 50));
    assert_eq!(q.len(), 3);
    let first = q.maybe_pop().unwrap();
    assert_eq!(first.path, b"large".to_vec());
    let second = q.maybe_pop().unwrap();
    assert_eq!(second.path, b"medium".to_vec());
    let third = q.maybe_pop().unwrap();
    assert_eq!(third.path, b"small".to_vec());
    assert!(q.maybe_pop().is_none());
}

#[test]
fn queue_serves_remote_before_local_for_equal_sizes() {
    let mut q = RequestQueue::new();
    q.push(req("127.0.0.1:1", "local", 7));
    q.push(req("10.0.0.9:1", "remote", 7));
    let first = q.maybe_pop().unwrap();
    assert_eq!(first.path, b"remote".to_vec());
    let second = q.maybe_pop().unwrap();
    assert_eq!(second.path, b"local".to_vec());
}

#[test]
fn queue_push_then_pop_gives_back_the_request() {
    let mut q = RequestQueue::new();
    q.push(req("10.0.0.1:1", "only", 3));
    let r = q.maybe_pop().unwrap();
    assert_eq!(r.peer_name, b"10.0.0.1:1".to_vec());
    assert_eq!(r.path, b"only".to_vec());
    assert_eq!(r.size, 3);
    assert_eq!(q.len(), 0);
}

#[test]
fn request_path_takes_the_second_word() {
    let r = request_path(b"GET /index.html HTTP/1.1\r\nHost: x\r\n\r\n").unwrap();
    assert_eq!(r, b"./index.html".to_vec());
    assert_eq!(request_path(b"GET / HTTP/1.1").unwrap(), b"./".to_vec());
}

#[test]
fn request_path_needs_three_words() {
    assert!(request_path(b"GET /index.html").is_none());
    assert!(request_path(b"").is_none());
    // An empty second word still counts.
    assert_eq!(request_path(b"GET  x").unwrap(), b".".to_vec());
}

#[test]
fn request_path_keeps_trailing_buffer_bytes_out_of_the_path() {
    let mut buf = b"GET /a.html HTTP/1.1".to_vec();
    buf.resize(500, 0);
    assert_eq!(request_path(&buf).unwrap(), b"./a.html".to_vec());
}

#[test]
fn path_components_are_normalized() {
    let c = path_components(b"./a/./b/../c");
    assert_eq!(c, vec![b"a".to_vec(), b"c".to_vec()]);
    let up = path_components(b"./../x");
    assert_eq!(up, vec![b"..".to_vec(), b"x".to_vec()]);
    assert!(path_components(b"./").is_empty());
    assert_eq!(normalized_path(b"./a/../b.html"), b"b.html".to_vec());
    assert_eq!(normalized_path(b"./d//e/"), b"d/e".to_vec());
}

#[test]
fn extensions_follow_the_last_dot() {
    assert_eq!(extension(b"index.shtml").unwrap(), b"shtml".to_vec());
    assert_eq!(extension(b"a.b.c").unwrap(), b"c".to_vec());
    assert_eq!(extension(b"trailing.").unwrap(), b"".to_vec());
    assert!(extension(b".bashrc").is_none());
    assert!(extension(b"noext").is_none());
}

#[test]
fn routes_follow_path_and_disk() {
    assert!(matches!(route(b"./", false, false), Route::Counter));
    assert!(matches!(route(b"./", true, true), Route::Counter));
    assert!(matches!(route(b"./missing.html", false, false), Route::NotFound));
    assert!(matches!(route(b"./dir", true, true), Route::NotFound));
    assert!(matches!(route(b"./page.shtml", true, false), Route::Dynamic));
    assert!(matches!(route(b"./sub/../page.shtml", true, false), Route::Dynamic));
    assert!(matches!(route(b"./page.html", true, false), Route::Static));
    assert!(matches!(route(b"./shtml", true, false), Route::Static));
}
