use zhtta::analyze::{ip_of_line, location_of, lookup_url, report, tally_ips};
use zhtta::args::{get_args, parse_uint, settings_from, ArgsError, CommandLine};
use zhtta::countmap::CountMap;
use zhtta::pages::HTTP_OK;
use zhtta::server::WebServer;
use zhtta::shtml::page_scannable;

fn page(file: &str, outputs: &[&str]) -> Vec<u8> {
    let outs: Vec<Vec<u8>> = outputs.iter().map(|o| o.as_bytes().to_vec()).collect();
    WebServer::respond_with_dynamic_page(file.as_bytes(), &outs)
}

fn with_ok(body: &str) -> Vec<u8> {
    let mut v = HTTP_OK.as_bytes().to_vec();
    v.extend_from_slice(body.as_bytes());
    v
}

#[test]
fn plain_page_is_served_unchanged() {
    let file = "<p>Hello world</p>\n<p>Bye</p>\n";
    assert!(WebServer::dynamic_page_commands(file.as_bytes()).is_empty());
    assert_eq!(page(file, &[]), with_ok(file));
    assert_eq!(page("a b", &[]), with_ok("a b"));
    assert_eq!(page("", &[]), with_ok(""));
    assert_eq!(page("a --> b", &[]), with_ok("a --> b"));
}

#[test]
fn exec_directive_is_replaced_by_its_output() {
    let file = "Time: <!--#exec cmd=\"date\" -->\n";
    let cmds = WebServer::dynamic_page_commands(file.as_bytes());
    assert_eq!(cmds, vec![b"date".to_vec()]);
    assert_eq!(page(file, &["NOW"]), with_ok("Time: NOW\n"));
}

#[test]
fn command_is_the_whole_quoted_value() {
    let file = "<!--#exec cmd=\"ls -l\" -->";
    assert_eq!(WebServer::dynamic_page_commands(file.as_bytes()), vec![b"ls -l".to_vec()]);
    assert_eq!(page(file, &["x"]), with_ok("x"));
}

#[test]
fn exec_directive_glued_to_text() {
    let file = "x<!--#exec cmd=\"ls\" --> yes\n";
    assert_eq!(WebServer::dynamic_page_commands(file.as_bytes()), vec![b"ls".to_vec()]);
    assert_eq!(page(file, &["L"]), with_ok("xL yes\n"));
    let file2 = "<!--#exec cmd=\"a\" -->tail next\n";
    assert_eq!(page(file2, &["A"]), with_ok("Atail next\n"));
}

#[test]
fn short_word_after_a_directive() {
    let file = "<!--#exec cmd=\"date\" --> ok";
    assert!(page_scannable(file.as_bytes()));
    assert_eq!(WebServer::dynamic_page_commands(file.as_bytes()), vec![b"date".to_vec()]);
    assert_eq!(page(file, &["Tue"]), with_ok("Tue ok"));
}

#[test]
fn several_directives_run_in_page_order() {
    let file = "<!--#exec cmd=\"one\" -->\n<!--#exec cmd=\"two\" -->\n";
    assert_eq!(
        WebServer::dynamic_page_commands(file.as_bytes()),
        vec![b"one".to_vec(), b"two".to_vec()]
    );
    assert_eq!(page(file, &["1", "2"]), with_ok("1\n2\n"));
}

#[test]
fn unclosed_directive_runs_to_the_end() {
    let file = "a <!--#exec cmd=\"x\"";
    assert_eq!(WebServer::dynamic_page_commands(file.as_bytes()), vec![b"x".to_vec()]);
    assert_eq!(page(file, &["X"]), with_ok("a X"));
}

#[test]
fn unreadable_directives_are_found() {
    assert!(!page_scannable(b"<!--#exec nothing -->"));
    assert!(!page_scannable(b"<!--#exec cmd=x -->"));
    assert!(page_scannable(b"<!--#exec cmd=\"\" -->"));
    assert!(page_scannable(b"no directive at all"));
}

#[test]
fn log_lines_count_per_address() {
    let m = tally_ips(b"1.2.3.4:5\n5.6.7.8:1\n1.2.3.4:6\n");
    assert_eq!(m.len(), 2);
    let (k0, c0) = m.entry(0);
    assert_eq!(k0, &b"1.2.3.4".to_vec());
    assert_eq!(c0, 2);
    let (k1, c1) = m.entry(1);
    assert_eq!(k1, &b"5.6.7.8".to_vec());
    assert_eq!(c1, 1);
    assert_eq!(m.get(b"1.2.3.4"), Some(2));
    assert_eq!(m.get(b"9.9.9.9"), None);
}

#[test]
fn log_line_without_port_keeps_the_newline() {
    assert_eq!(ip_of_line(b"1.2.3.4:80\n"), b"1.2.3.4".to_vec());
    assert_eq!(ip_of_line(b"1.2.3.4\n"), b"1.2.3.4\n".to_vec());
}

#[test]
fn count_map_keeps_keys_sorted() {
    let mut m = CountMap::new();
    m.add(b"b", 1);
    m.add(b"a", 2);
    m.add(b"ab", 3);
    m.add(b"b", 4);
    let keys: Vec<Vec<u8>> = (0..m.len()).map(|i| m.entry(i).0.clone()).collect();
    assert_eq!(keys, vec![b"a".to_vec(), b"ab".to_vec(), b"b".to_vec()]);
    assert_eq!(m.get(b"b"), Some(5));
}

#[test]
fn locations_from_the_service_answer() {
    assert_eq!(lookup_url(b"8.8.8.8"), b"http://ip-api.com/csv/8.8.8.8".to_vec());
    assert_eq!(location_of(b"127.0.0.1", b"whatever"), b"Internal".to_vec());
    let body = b"success,\"United States\",US,CA,California,Mountain View,94035,37.4,-122.0";
    assert_eq!(location_of(b"8.8.8.8", body), b"United States\t\tCalifornia\t94035".to_vec());
}

#[test]
fn report_lists_counts_by_location() {
    let mut m = CountMap::new();
    m.add(b"Internal", 3);
    m.add(b"France\t\tParis\t75001", 2);
    let out = report(&m);
    let expected = "Count\tCountry\t\t\tState\t\tZip Code\n-----\t-----\t\t\t-----\t\t-----\n2\tFrance\t\tParis\t75001\n3\tInternal\n";
    assert_eq!(out, expected.as_bytes().to_vec());
}

fn cl(ip: Option<&str>, port: Option<&str>, www: Option<&str>) -> CommandLine {
    CommandLine {
        ip: ip.map(|s| s.as_bytes().to_vec()),
        port: port.map(|s| s.as_bytes().to_vec()),
        www: www.map(|s| s.as_bytes().to_vec()),
        h: false,
        help: false,
    }
}

fn argv(a: &[&str]) -> Vec<String> {
    a.iter().map(|s| s.to_string()).collect()
}

#[test]
fn settings_default_when_not_given() {
    let a = settings_from(cl(None, None, None)).ok().unwrap();
    assert_eq!(a.ip, b"127.0.0.1".to_vec());
    assert_eq!(a.port, 4414);
    assert_eq!(a.www_dir, b"./www".to_vec());
    let b = settings_from(cl(Some("0.0.0.0"), Some("8080"), Some("/srv"))).ok().unwrap();
    assert_eq!(b.ip, b"0.0.0.0".to_vec());
    assert_eq!(b.port, 8080);
    assert_eq!(b.www_dir, b"/srv".to_vec());
    assert!(matches!(settings_from(cl(None, Some("80x"), None)), Err(ArgsError::NotUint)));
}

#[test]
fn command_line_options_are_read() {
    let a = get_args(&argv(&["zhtta", "--ip", "0.0.0.0", "--port", "8080", "--www", "/srv"]))
        .ok()
        .unwrap();
    assert_eq!(a.ip, b"0.0.0.0".to_vec());
    assert_eq!(a.port, 8080);
    assert_eq!(a.www_dir, b"/srv".to_vec());
    let d = get_args(&argv(&["zhtta"])).ok().unwrap();
    assert_eq!(d.ip, b"127.0.0.1".to_vec());
    assert_eq!(d.port, 4414);
    assert_eq!(d.www_dir, b"./www".to_vec());
}

#[test]
fn command_line_failures() {
    assert!(matches!(get_args(&argv(&["zhtta", "-h"])), Err(ArgsError::Help)));
    assert!(matches!(get_args(&argv(&["zhtta", "--help"])), Err(ArgsError::Help)));
    assert!(matches!(get_args(&argv(&["zhtta", "--port", "abc"])), Err(ArgsError::NotUint)));
    assert!(matches!(get_args(&argv(&["zhtta", "--bogus"])), Err(ArgsError::BadOption(_))));
    assert!(matches!(get_args(&argv(&["zhtta", "--ip"])), Err(ArgsError::BadOption(_))));
}

#[test]
fn port_numbers_are_decimal_digits() {
    assert_eq!(parse_uint(b"0"), Some(0));
    assert_eq!(parse_uint(b"007"), Some(7));
    assert_eq!(parse_uint(b"18446744073709551615"), Some(u64::MAX));
    assert_eq!(parse_uint(b"18446744073709551616"), None);
    assert_eq!(parse_uint(b""), None);
    assert_eq!(parse_uint(b"12a"), None);
    assert_eq!(parse_uint(b"-1"), None);
    assert_eq!(parse_uint(b"+80"), Some(80));
    assert_eq!(parse_uint(b"+"), None);
    assert_eq!(parse_uint(b"++1"), None);
}
