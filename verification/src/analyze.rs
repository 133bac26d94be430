//! Analysis of the server's visitor log: visits per address, each address's location,
//! and visits per location.

use vstd::prelude::*;
use vstd::string::StringSliceAdditionalSpecFns;
use vstd::utf8::valid_utf8;
use crate::bytes::{at_char_boundary, bytes_eq, char_boundary, decimal, push_all, push_decimal};
use crate::countmap::CountMap;
use crate::text::{split, split_bytes, lines_of, file_lines, lemma_split_nonempty};

verus! {

/// Where an address's location is asked for; the address follows.
pub const REQUEST_STUB: &'static str = "http://ip-api.com/csv/";
/// The address whose location is not asked for.
pub const LOCAL_ADDRESS: &'static str = "127.0.0.1";
/// The location given to the local address.
pub const INTERNAL: &'static str = "Internal";
/// The heading of the report.
pub const REPORT_HEADER: &'static str = "Count\tCountry\t\t\tState\t\tZip Code\n-----\t-----\t\t\t-----\t\t-----\n";

/// The address a log line records: the text before its first ':' (the whole line when
/// there is none).
pub open spec fn ip_of(line: Seq<u8>) -> Seq<u8> {
    split(line, 58u8)[0]
}

/// The address recorded on a log line (see `ip_of`).
pub fn ip_of_line(line: &[u8]) -> (ip: Vec<u8>)
    ensures
        ip@ == ip_of(line@),
{
    let parts = split_bytes(line, 58);
    proof {
        lemma_split_nonempty(line@, 58u8);
    }
    assert(parts@.map_values(|p: Vec<u8>| p@)[0] == parts@[0]@);
    vstd::slice::slice_to_vec(parts[0].as_slice())
}

/// How many of `lines` record the address `ip`.
pub open spec fn occurrences(lines: Seq<Seq<u8>>, ip: Seq<u8>) -> nat
    decreases lines.len(),
{
    if lines.len() == 0 {
        0
    } else {
        occurrences(lines.drop_last(), ip) + if ip_of(lines.last()) == ip { 1nat } else { 0nat }
    }
}

proof fn lemma_occurrences_bound(lines: Seq<Seq<u8>>, ip: Seq<u8>)
    ensures
        occurrences(lines, ip) <= lines.len(),
    decreases lines.len(),
{
    if lines.len() > 0 {
        lemma_occurrences_bound(lines.drop_last(), ip);
    }
}

/// Every line counts once for the address it records: a line added at the end adds one
/// to its own address's count and nothing to any other's, whatever the lines before it.
pub proof fn lemma_every_line_counts(lines: Seq<Seq<u8>>, l: Seq<u8>, ip: Seq<u8>)
    ensures
        occurrences(lines.push(l), ip) == occurrences(lines, ip) + (if ip_of(l) == ip {
            1nat
        } else {
            0nat
        }),
{
    assert(lines.push(l).drop_last() =~= lines);
}

/// Counting is additive over the log: the count of an address in two stretches of lines
/// is the sum of its counts in each, so it is the number of lines recording it.
pub proof fn lemma_occurrences_add(a: Seq<Seq<u8>>, b: Seq<Seq<u8>>, ip: Seq<u8>)
    ensures
        occurrences(a + b, ip) == occurrences(a, ip) + occurrences(b, ip),
        occurrences(Seq::<Seq<u8>>::empty(), ip) == 0,
    decreases b.len(),
{
    if b.len() == 0 {
        assert(a + b =~= a);
    } else {
        let b0 = b.drop_last();
        lemma_occurrences_add(a, b0, ip);
        assert((a + b0).push(b.last()) =~= a + b);
        assert(b0.push(b.last()) =~= b);
        lemma_every_line_counts(a + b0, b.last(), ip);
        lemma_every_line_counts(b0, b.last(), ip);
    }
}

/// The visits per address in a log: every address recorded on some line, with the number
/// of lines recording it.
pub open spec fn visits(lines: Seq<Seq<u8>>) -> Map<Seq<u8>, u64> {
    Map::new(|ip: Seq<u8>| occurrences(lines, ip) > 0, |ip: Seq<u8>| occurrences(lines, ip) as u64)
}

/// Counts the visits per address in the log `log`, which must be UTF-8 text (see
/// `visits`), in address order.
pub fn tally_ips(log: &[u8]) -> (m: CountMap)
    requires
        valid_utf8(log@),
    ensures
        m.wf(),
        m.as_map() == visits(lines_of(log@)),
{
    let lines = file_lines(log);
    let ghost lv = lines@.map_values(|l: Vec<u8>| l@);
    let mut m = CountMap::new();
    let n = lines.len();
    let mut i: usize = 0;
    while i < n
        invariant
            n == lines@.len(),
            i <= n,
            lv == lines@.map_values(|l: Vec<u8>| l@),
            m.wf(),
            m.as_map() == visits(lv.subrange(0, i as int)),
        decreases n - i,
    {
        let ghost pre = lv.subrange(0, i as int);
        let ghost next = lv.subrange(0, i + 1);
        assert(next.drop_last() == pre);
        assert(next.last() == lines@[i as int]@);
        let ip = ip_of_line(lines[i].as_slice());
        proof {
            lemma_occurrences_bound(pre, ip@);
        }
        m.add(ip.as_slice(), 1);
        assert(m.as_map() =~= visits(next));
        i = i + 1;
    }
    assert(lv.subrange(0, n as int) == lv);
    m
}

/// The address of the location service's answer for `ip`.
pub fn lookup_url(ip: &[u8]) -> (url: Vec<u8>)
    ensures
        url@ == REQUEST_STUB.spec_bytes() + ip@,
{
    let mut url: Vec<u8> = Vec::new();
    push_all(&mut url, REQUEST_STUB.as_bytes());
    push_all(&mut url, ip);
    url
}

/// The fields of the location service's answer can be read for `ip`: unless `ip` is the
/// local address, the answer has at least seven comma-separated fields, the second at
/// least two bytes long with whole characters at its ends.
pub open spec fn fields_readable(ip: Seq<u8>, body: Seq<u8>) -> bool {
    let f = split(body, 44u8);
    ip != LOCAL_ADDRESS.spec_bytes() ==> {
        &&& f.len() >= 7
        &&& f[1].len() >= 2
        &&& at_char_boundary(f[1], 1)
        &&& at_char_boundary(f[1], f[1].len() - 1)
    }
}

/// The location service's answer can be read for `ip`: it is UTF-8 text whose fields can
/// be read (see `fields_readable`).
pub open spec fn answer_readable(ip: Seq<u8>, body: Seq<u8>) -> bool {
    valid_utf8(body) && fields_readable(ip, body)
}

/// Whether the fields of the answer `body` can be read for `ip` (see `fields_readable`).
pub fn answer_fields_readable(ip: &[u8], body: &[u8]) -> (r: bool)
    ensures
        r == fields_readable(ip@, body@),
{
    if bytes_eq(ip, LOCAL_ADDRESS.as_bytes()) {
        return true;
    }
    let f = split_bytes(body, 44);
    let ghost fv = f@.map_values(|p: Vec<u8>| p@);
    if f.len() < 7 {
        return false;
    }
    assert(fv[1] == f@[1]@);
    let country = f[1].as_slice();
    country.len() >= 2 && char_boundary(country, 1) && char_boundary(country, country.len() - 1)
}

/// The location of `ip` given the service's comma-separated answer `body`: "Internal" for
/// the local address, and otherwise the second field without its enclosing quotes, two
/// tabs, the fifth field, a tab and the seventh field.
pub open spec fn location_spec(ip: Seq<u8>, body: Seq<u8>) -> Seq<u8> {
    if ip == LOCAL_ADDRESS.spec_bytes() {
        INTERNAL.spec_bytes()
    } else {
        let f = split(body, 44u8);
        f[1].subrange(1, f[1].len() - 1) + seq![9u8, 9u8] + f[4] + seq![9u8] + f[6]
    }
}

/// Where a location comes from in the answer: for any address but the local one, it
/// starts with the second field stripped of its first and last bytes and ends with the
/// seventh field (the zip code), with the fifth field (the state) between tabs; so it
/// depends on the first seven fields alone, whatever fields follow them.
pub proof fn lemma_location_fields(ip: Seq<u8>, body: Seq<u8>, body2: Seq<u8>)
    requires
        fields_readable(ip, body),
    ensures
        ip != LOCAL_ADDRESS.spec_bytes() ==> {
            let f = split(body, 44u8);
            let loc = location_spec(ip, body);
            let c = f[1].len() - 2;
            &&& loc.len() == c + 3 + f[4].len() + f[6].len()
            &&& loc.subrange(0, c) == f[1].subrange(1, f[1].len() - 1)
            &&& loc.subrange(c, c + 2) == seq![9u8, 9u8]
            &&& loc.subrange(c + 2, c + 2 + f[4].len()) == f[4]
            &&& loc[c + 2 + f[4].len()] == 9u8
            &&& loc.subrange(loc.len() - f[6].len(), loc.len() as int) == f[6]
        },
        ip != LOCAL_ADDRESS.spec_bytes() && fields_readable(ip, body2) && split(body, 44u8).subrange(
            0,
            7,
        ) == split(body2, 44u8).subrange(0, 7) ==> location_spec(ip, body) == location_spec(
            ip,
            body2,
        ),
        ip == LOCAL_ADDRESS.spec_bytes() ==> location_spec(ip, body) == INTERNAL.spec_bytes(),
{
    if ip != LOCAL_ADDRESS.spec_bytes() {
        let f = split(body, 44u8);
        let loc = location_spec(ip, body);
        let c = f[1].len() - 2;
        assert(loc.subrange(0, c) =~= f[1].subrange(1, f[1].len() - 1));
        assert(loc.subrange(c, c + 2) =~= seq![9u8, 9u8]);
        assert(loc.subrange(c + 2, c + 2 + f[4].len()) =~= f[4]);
        assert(loc.subrange(loc.len() - f[6].len(), loc.len() as int) =~= f[6]);
        if fields_readable(ip, body2) && split(body, 44u8).subrange(0, 7) == split(body2, 44u8).subrange(0, 7) {
            let g = split(body2, 44u8);
            assert(f[1] == f.subrange(0, 7)[1] && g[1] == g.subrange(0, 7)[1]);
            assert(f[4] == f.subrange(0, 7)[4] && g[4] == g.subrange(0, 7)[4]);
            assert(f[6] == f.subrange(0, 7)[6] && g[6] == g.subrange(0, 7)[6]);
        }
    }
}

/// The location of `ip` (see `location_spec`).
pub fn location_of(ip: &[u8], body: &[u8]) -> (loc: Vec<u8>)
    requires
        answer_readable(ip@, body@),
    ensures
        loc@ == location_spec(ip@, body@),
{
    if bytes_eq(ip, LOCAL_ADDRESS.as_bytes()) {
        let mut loc: Vec<u8> = Vec::new();
        push_all(&mut loc, INTERNAL.as_bytes());
        return loc;
    }
    let f = split_bytes(body, 44);
    let ghost fv = f@.map_values(|p: Vec<u8>| p@);
    assert(fv[1] == f@[1]@);
    assert(fv[4] == f@[4]@);
    assert(fv[6] == f@[6]@);
    let country = f[1].as_slice();
    let mut loc: Vec<u8> = Vec::new();
    push_all(&mut loc, vstd::slice::slice_subrange(country, 1, country.len() - 1));
    loc.push(9);
    loc.push(9);
    push_all(&mut loc, f[4].as_slice());
    loc.push(9);
    push_all(&mut loc, f[6].as_slice());
    assert(loc@ =~= location_spec(ip@, body@));
    loc
}

/// The report's rows: for each entry, its count in decimal, a tab, its key and a newline.
pub open spec fn report_rows(entries: Seq<(Seq<u8>, u64)>) -> Seq<u8>
    decreases entries.len(),
{
    if entries.len() == 0 {
        Seq::empty()
    } else {
        report_rows(entries.drop_last()) + decimal(entries.last().1 as nat).push(9u8)
            + entries.last().0.push(10u8)
    }
}

/// The report has one row for every entry, whatever its count: an entry added at the end
/// adds its row (count in decimal, a tab, key, newline) after the others; and the rows of
/// two runs of entries are the rows of each, one after the other.
pub proof fn lemma_one_row_per_entry(
    entries: Seq<(Seq<u8>, u64)>,
    e: (Seq<u8>, u64),
    more: Seq<(Seq<u8>, u64)>,
)
    ensures
        report_rows(entries.push(e)) == report_rows(entries) + decimal(e.1 as nat).push(9u8)
            + e.0.push(10u8),
        report_rows(entries + more) == report_rows(entries) + report_rows(more),
    decreases more.len(),
{
    assert(entries.push(e).drop_last() =~= entries);
    if more.len() == 0 {
        assert(entries + more =~= entries);
        assert(report_rows(entries) + report_rows(more) =~= report_rows(entries));
    } else {
        let m0 = more.drop_last();
        let x = more.last();
        lemma_one_row_per_entry(entries, e, m0);
        assert((entries + m0).push(x) =~= entries + more);
        assert((entries + more).drop_last() =~= entries + m0);
        assert((entries + more).last() == x);
        let row = decimal(x.1 as nat).push(9u8) + x.0.push(10u8);
        assert(report_rows(entries + more) == report_rows(entries + m0) + row);
        assert(report_rows(more) == report_rows(m0) + row);
        assert(report_rows(entries) + report_rows(m0) + row =~= report_rows(entries) + (
        report_rows(m0) + row));
    }
}

/// The report of visits per location: the heading, then one row per location in key order.
pub fn report(m: &CountMap) -> (out: Vec<u8>)
    ensures
        out@ == REPORT_HEADER.spec_bytes() + report_rows(m@),
{
    let mut out: Vec<u8> = Vec::new();
    push_all(&mut out, REPORT_HEADER.as_bytes());
    let ghost head = out@;
    let n = m.len();
    let mut i: usize = 0;
    while i < n
        invariant
            n == m@.len(),
            i <= n,
            out@ == head + report_rows(m@.subrange(0, i as int)),
        decreases n - i,
    {
        assert(m@.subrange(0, i + 1).drop_last() == m@.subrange(0, i as int));
        let (key, count) = m.entry(i);
        push_decimal(&mut out, count);
        out.push(9);
        push_all(&mut out, key.as_slice());
        out.push(10);
        assert(out@ =~= head + report_rows(m@.subrange(0, i + 1)));
        i = i + 1;
    }
    assert(m@.subrange(0, n as int) == m@);
    out
}

} // verus!
