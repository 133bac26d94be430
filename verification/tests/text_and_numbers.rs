use zhtta::args::parse_uint;
use zhtta::bytes::{bytes_eq, push_decimal, starts_with};
use zhtta::countmap::lex_less;
use zhtta::request::resolved_path;
use zhtta::text::{file_lines, split_bytes};

#[test]
fn split_keeps_empty_pieces() {
    assert_eq!(split_bytes(b"a  b", b' '), vec![b"a".to_vec(), Vec::new(), b"b".to_vec()]);
    assert_eq!(split_bytes(b"", b' '), vec![Vec::<u8>::new()]);
    assert_eq!(split_bytes(b" ", b' '), vec![Vec::<u8>::new(), Vec::new()]);
}

#[test]
fn split_then_space_each_piece_gives_text_and_a_space() {
    let s = b"one two  three";
    let mut joined = Vec::new();
    for p in split_bytes(s, b' ') {
        joined.extend_from_slice(&p);
        joined.push(b' ');
    }
    let mut expected = s.to_vec();
    expected.push(b' ');
    assert_eq!(joined, expected);
}

#[test]
fn file_lines_keep_their_newlines() {
    assert_eq!(file_lines(b"a\nb\n"), vec![b"a\n".to_vec(), b"b\n".to_vec()]);
    assert_eq!(file_lines(b"a\nb"), vec![b"a\n".to_vec(), b"b".to_vec()]);
    assert!(file_lines(b"").is_empty());
    assert_eq!(file_lines(b"\n\n"), vec![b"\n".to_vec(), b"\n".to_vec()]);
}

#[test]
fn decimal_digits_read_back_as_the_number() {
    for n in [0u64, 7, 10, 4414, 1000000, u64::MAX] {
        let mut v = Vec::new();
        push_decimal(&mut v, n);
        assert_eq!(v, n.to_string().into_bytes());
        assert_eq!(parse_uint(&v), Some(n));
    }
}

#[test]
fn byte_comparisons() {
    assert!(bytes_eq(b"abc", b"abc"));
    assert!(!bytes_eq(b"abc", b"abd"));
    assert!(!bytes_eq(b"ab", b"abc"));
    assert!(starts_with(b"127.0.0.1:80", b"127.0.0.1"));
    assert!(!starts_with(b"127.0", b"127.0.0.1"));
    assert!(lex_less(b"a", b"b"));
    assert!(lex_less(b"a", b"ab"));
    assert!(!lex_less(b"ab", b"a"));
    assert!(!lex_less(b"a", b"a"));
    assert!(lex_less(b"", b"a"));
}

#[test]
fn resolved_paths_are_absolute_and_normalized() {
    assert_eq!(resolved_path(b"/srv/www", b"./index.html"), b"/srv/www/index.html".to_vec());
    assert_eq!(resolved_path(b"/srv/www", b"./a/../b"), b"/srv/www/b".to_vec());
    assert_eq!(resolved_path(b"/srv/www", b"./../../../x"), b"/x".to_vec());
    assert_eq!(resolved_path(b"/srv/www", b"./"), b"/srv/www".to_vec());
    assert_eq!(resolved_path(b"/", b"./.."), b"/".to_vec());
}
