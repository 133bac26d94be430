//! Server-side includes: pages whose `<!--#exec cmd="..." -->` directives are replaced
//! by the output of the commands they name.
//!
//! Serving such a page takes two passes over it: the first collects the commands in page
//! order, and, once they have run, the second renders the page with each directive
//! replaced by its command's output. Which text is a command never depends on any output.

use vstd::prelude::*;
use crate::bytes::{at_char_boundary, bytes_eq, char_boundary, push_all};
use vstd::utf8::valid_utf8;

verus! {

/// The text that opens a directive: "<!--#exec".
pub open spec fn exec_open() -> Seq<u8> {
    seq![60u8, 33u8, 45u8, 45u8, 35u8, 101u8, 120u8, 101u8, 99u8]
}

/// The text that closes a directive: "-->".
pub open spec fn exec_close() -> Seq<u8> {
    seq![45u8, 45u8, 62u8]
}

/// `pat` occurs in `s` at position `q`.
pub open spec fn occurs_at(s: Seq<u8>, pat: Seq<u8>, q: int) -> bool {
    0 <= q && q + pat.len() <= s.len() && s.subrange(q, q + pat.len()) == pat
}

/// The position of the first occurrence of `pat` in `s`, or -1 when there is none.
pub open spec fn find(s: Seq<u8>, pat: Seq<u8>) -> int
    decreases s.len(),
{
    if s.len() < pat.len() {
        -1
    } else if s.subrange(0, pat.len() as int) == pat {
        0
    } else if s.len() == 0 {
        -1
    } else {
        let r = find(s.drop_first(), pat);
        if r < 0 {
            -1
        } else {
            r + 1
        }
    }
}

/// `find` gives the first occurrence, or -1 when `pat` does not occur.
pub proof fn lemma_find(s: Seq<u8>, pat: Seq<u8>)
    ensures
        -1 <= find(s, pat),
        find(s, pat) >= 0 ==> occurs_at(s, pat, find(s, pat)),
        forall|q: int| 0 <= q && (find(s, pat) < 0 || q < find(s, pat)) ==> !occurs_at(s, pat, q),
    decreases s.len(),
{
    if s.len() >= pat.len() && s.subrange(0, pat.len() as int) != pat && s.len() > 0 {
        let t = s.drop_first();
        lemma_find(t, pat);
        assert forall|q: int| 0 <= q && (find(s, pat) < 0 || q < find(s, pat)) implies !occurs_at(
            s,
            pat,
            q,
        ) by {
            if q > 0 && occurs_at(s, pat, q) {
                assert(t.subrange(q - 1, q - 1 + pat.len()) =~= s.subrange(q, q + pat.len()));
                assert(occurs_at(t, pat, q - 1));
            }
        }
        if find(t, pat) >= 0 {
            let r = find(t, pat);
            assert(s.subrange(r + 1, r + 1 + pat.len()) =~= t.subrange(r, r + pat.len()));
        }
    } else if s.len() >= pat.len() && s.subrange(0, pat.len() as int) == pat {
    } else {
        assert forall|q: int| 0 <= q implies !occurs_at(s, pat, q) by {
            if q + pat.len() <= s.len() && s.len() >= pat.len() {
                assert(q == 0);
                assert(s.subrange(0, pat.len() as int) == pat);
            }
        }
    }
}

/// A byte that `trim` removes: space, tab, newline or carriage return.
pub open spec fn is_blank(b: u8) -> bool {
    b == 32 || b == 9 || b == 10 || b == 13
}

/// `x` without its leading blanks.
pub open spec fn trim_start(x: Seq<u8>) -> Seq<u8>
    decreases x.len(),
{
    if x.len() > 0 && is_blank(x[0]) {
        trim_start(x.drop_first())
    } else {
        x
    }
}

/// `x` without its trailing blanks.
pub open spec fn trim_end(x: Seq<u8>) -> Seq<u8>
    decreases x.len(),
{
    if x.len() > 0 && is_blank(x.last()) {
        trim_end(x.drop_last())
    } else {
        x
    }
}

/// The value a directive gives its command: what follows the first '=' of the directive's
/// text, without the blanks around it.
pub open spec fn directive_value(body: Seq<u8>) -> Seq<u8> {
    let e = find(body, seq![61u8]);
    trim_end(trim_start(body.subrange(e + 1, body.len() as int)))
}

/// The command a directive names: its value without the enclosing quotes (its first and
/// last byte). For `cmd="ls -l"` it is `ls -l`.
pub open spec fn command_of(body: Seq<u8>) -> Seq<u8> {
    let v = directive_value(body);
    v.subrange(1, v.len() - 1)
}

/// A directive's text can be read: it has an '=', and its value is at least two bytes
/// long with whole characters after its first byte and before its last.
pub open spec fn directive_ok(body: Seq<u8>) -> bool {
    let v = directive_value(body);
    &&& find(body, seq![61u8]) >= 0
    &&& v.len() >= 2
    &&& at_char_boundary(v, 1)
    &&& at_char_boundary(v, v.len() - 1)
}

/// A piece of the rendered page: literal text, or a command whose output goes there.
pub enum Piece {
    Text(Seq<u8>),
    Command(Seq<u8>),
}

/// The pieces of a page: the text before the first directive, then the directive's
/// command, then the pieces of what follows the directive's closing "-->". A directive
/// with no closing text runs to the end of the page; a page with no directive is one
/// piece of text.
pub open spec fn pieces(s: Seq<u8>) -> Seq<Piece>
    decreases s.len(),
{
    let i = find(s, exec_open());
    if i < 0 {
        seq![Piece::Text(s)]
    } else {
        proof {
            lemma_find(s, exec_open());
        }
        let rest = s.subrange(i + 9, s.len() as int);
        let j = find(rest, exec_close());
        if j < 0 {
            seq![Piece::Text(s.subrange(0, i)), Piece::Command(command_of(rest))]
        } else {
            proof {
                lemma_find(rest, exec_close());
            }
            seq![Piece::Text(s.subrange(0, i)), Piece::Command(command_of(rest.subrange(0, j)))]
                + pieces(rest.subrange(j + 3, rest.len() as int))
        }
    }
}

/// Every directive of the page can be read (see `directive_ok`).
pub open spec fn directives_ok(s: Seq<u8>) -> bool
    decreases s.len(),
{
    let i = find(s, exec_open());
    if i < 0 {
        true
    } else {
        proof {
            lemma_find(s, exec_open());
        }
        let rest = s.subrange(i + 9, s.len() as int);
        let j = find(rest, exec_close());
        if j < 0 {
            directive_ok(rest)
        } else {
            proof {
                lemma_find(rest, exec_close());
            }
            directive_ok(rest.subrange(0, j)) && directives_ok(rest.subrange(j + 3, rest.len() as int))
        }
    }
}

/// The pieces of the page `file`.
pub open spec fn page_pieces(file: Seq<u8>) -> Seq<Piece> {
    pieces(file)
}

/// The page is UTF-8 text whose directives can all be read.
pub open spec fn page_ok(file: Seq<u8>) -> bool {
    valid_utf8(file) && directives_ok(file)
}

/// The commands among `pieces`, in order.
pub open spec fn commands_of(pieces: Seq<Piece>) -> Seq<Seq<u8>>
    decreases pieces.len(),
{
    if pieces.len() == 0 {
        Seq::empty()
    } else {
        let rest = commands_of(pieces.drop_last());
        match pieces.last() {
            Piece::Command(c) => rest.push(c),
            Piece::Text(_) => rest,
        }
    }
}

/// The text of `pieces` with the k-th command replaced by `outputs[k]`.
pub open spec fn render(pieces: Seq<Piece>, outputs: Seq<Seq<u8>>) -> Seq<u8>
    decreases pieces.len(),
{
    if pieces.len() == 0 {
        Seq::empty()
    } else {
        let front = render(pieces.drop_last(), outputs);
        match pieces.last() {
            Piece::Command(_) => front + outputs[commands_of(pieces.drop_last()).len() as int],
            Piece::Text(t) => front + t,
        }
    }
}

/// A piece as the scan produces it.
pub enum Chunk {
    Text(Vec<u8>),
    Command(Vec<u8>),
}

impl View for Chunk {
    type V = Piece;

    open spec fn view(&self) -> Piece {
        match self {
            Chunk::Text(t) => Piece::Text(t@),
            Chunk::Command(c) => Piece::Command(c@),
        }
    }
}

/// The abstract pieces of a run of chunks.
pub open spec fn chunks_view(cs: Seq<Chunk>) -> Seq<Piece> {
    cs.map_values(|c: Chunk| c@)
}

/// The position of the first occurrence of `pat` in `s` (see `find`).
fn find_bytes(s: &[u8], pat: &[u8]) -> (r: Option<usize>)
    ensures
        r matches Some(k) ==> find(s@, pat@) == k,
        r is None ==> find(s@, pat@) < 0,
{
    proof {
        lemma_find(s@, pat@);
    }
    let n = s.len();
    if pat.len() > n {
        return None;
    }
    let last = n - pat.len();
    let mut k: usize = 0;
    while k <= last
        invariant
            n == s@.len(),
            last == s@.len() - pat@.len(),
            forall|q: int| 0 <= q < k ==> !occurs_at(s@, pat@, q),
        decreases last + 1 - k,
    {
        proof {
            lemma_find(s@, pat@);
        }
        if bytes_eq(vstd::slice::slice_subrange(s, k, k + pat.len()), pat) {
            assert(occurs_at(s@, pat@, k as int));
            return Some(k);
        }
        assert(!occurs_at(s@, pat@, k as int));
        if k == last {
            assert forall|q: int| 0 <= q implies !occurs_at(s@, pat@, q) by {
                if q > last {
                    assert(!(q + pat@.len() <= s@.len()));
                }
            }
            return None;
        }
        k = k + 1;
    }
    None
}

/// The position of the first non-blank byte of `x`.
fn trim_start_index(x: &[u8]) -> (a: usize)
    ensures
        a <= x@.len(),
        trim_start(x@) == x@.subrange(a as int, x@.len() as int),
{
    let mut a: usize = 0;
    assert(x@.subrange(0, x@.len() as int) == x@);
    while a < x.len() && (x[a] == 32 || x[a] == 9 || x[a] == 10 || x[a] == 13)
        invariant
            a <= x@.len(),
            trim_start(x@) == trim_start(x@.subrange(a as int, x@.len() as int)),
        decreases x@.len() - a,
    {
        assert(x@.subrange(a as int, x@.len() as int).drop_first() == x@.subrange(a + 1, x@.len() as int));
        a = a + 1;
    }
    a
}

/// The position just after the last non-blank byte of `x`.
fn trim_end_index(x: &[u8]) -> (b: usize)
    ensures
        b <= x@.len(),
        trim_end(x@) == x@.subrange(0, b as int),
{
    let mut b: usize = x.len();
    assert(x@.subrange(0, x@.len() as int) == x@);
    while b > 0 && (x[b - 1] == 32 || x[b - 1] == 9 || x[b - 1] == 10 || x[b - 1] == 13)
        invariant
            b <= x@.len(),
            trim_end(x@) == trim_end(x@.subrange(0, b as int)),
        decreases b,
    {
        assert(x@.subrange(0, b as int).drop_last() == x@.subrange(0, b - 1));
        b = b - 1;
    }
    b
}

/// The value of a directive's text (see `directive_value`), when it has an '='.
fn directive_value_exec(body: &[u8]) -> (v: Option<&[u8]>)
    ensures
        v is None ==> find(body@, seq![61u8]) < 0,
        v matches Some(w) ==> find(body@, seq![61u8]) >= 0 && w@ == directive_value(body@),
{
    let eq: [u8; 1] = [61];
    assert(eq@ =~= seq![61u8]);
    match find_bytes(body, &eq) {
        None => None,
        Some(e) => {
            proof {
                lemma_find(body@, seq![61u8]);
            }
            let n = body.len();
            assert(e < n);
            let after = vstd::slice::slice_subrange(body, e + 1, n);
            let a = trim_start_index(after);
            let t = vstd::slice::slice_subrange(after, a, after.len());
            let b = trim_end_index(t);
            let w = vstd::slice::slice_subrange(t, 0, b);
            Some(w)
        },
    }
}

/// Whether a directive's text can be read (see `directive_ok`).
fn directive_readable(body: &[u8]) -> (r: bool)
    ensures
        r == directive_ok(body@),
{
    match directive_value_exec(body) {
        None => false,
        Some(v) => v.len() >= 2 && char_boundary(v, 1) && char_boundary(v, v.len() - 1),
    }
}

/// The command a readable directive names (see `command_of`).
fn command_exec(body: &[u8]) -> (c: Vec<u8>)
    requires
        directive_ok(body@),
    ensures
        c@ == command_of(body@),
{
    let v = directive_value_exec(body).unwrap();
    vstd::slice::slice_to_vec(vstd::slice::slice_subrange(v, 1, v.len() - 1))
}

/// Splits a page whose directives can be read into its pieces.
fn scan_page(s: &[u8]) -> (out: Vec<Chunk>)
    requires
        directives_ok(s@),
    ensures
        chunks_view(out@) == pieces(s@),
{
    let open: [u8; 9] = [60, 33, 45, 45, 35, 101, 120, 101, 99];
    let close: [u8; 3] = [45, 45, 62];
    assert(open@ =~= exec_open());
    assert(close@ =~= exec_close());
    let mut out: Vec<Chunk> = Vec::new();
    let mut pos: usize = 0;
    assert(s@.subrange(0, s@.len() as int) == s@);
    assert(chunks_view(out@) =~= Seq::<Piece>::empty());
    loop
        invariant
            open@ == exec_open(),
            close@ == exec_close(),
            pos <= s@.len(),
            directives_ok(s@.subrange(pos as int, s@.len() as int)),
            pieces(s@) == chunks_view(out@) + pieces(s@.subrange(pos as int, s@.len() as int)),
        decreases s@.len() - pos,
    {
        let rest = vstd::slice::slice_subrange(s, pos, s.len());
        let ghost r = rest@;
        proof {
            lemma_find(r, exec_open());
        }
        match find_bytes(rest, &open) {
            None => {
                let ghost before = chunks_view(out@);
                out.push(Chunk::Text(vstd::slice::slice_to_vec(rest)));
                assert(chunks_view(out@) =~= before + pieces(r));
                return out;
            },
            Some(i) => {
                let text = vstd::slice::slice_subrange(rest, 0, i);
                let after = vstd::slice::slice_subrange(rest, i + 9, rest.len());
                proof {
                    lemma_find(after@, exec_close());
                }
                match find_bytes(after, &close) {
                    None => {
                        let ghost before = chunks_view(out@);
                        out.push(Chunk::Text(vstd::slice::slice_to_vec(text)));
                        out.push(Chunk::Command(command_exec(after)));
                        assert(chunks_view(out@) =~= before + pieces(r));
                        return out;
                    },
                    Some(j) => {
                        let ghost before = chunks_view(out@);
                        let body = vstd::slice::slice_subrange(after, 0, j);
                        out.push(Chunk::Text(vstd::slice::slice_to_vec(text)));
                        out.push(Chunk::Command(command_exec(body)));
                        let next = pos + i + 9 + j + 3;
                        assert(after@.subrange(j + 3, after@.len() as int) =~= s@.subrange(
                            next as int,
                            s@.len() as int,
                        ));
                        assert(chunks_view(out@) =~= before + seq![
                            Piece::Text(r.subrange(0, i as int)),
                            Piece::Command(command_of(after@.subrange(0, j as int))),
                        ]);
                        pos = next;
                    },
                }
            },
        }
    }
}

/// A prefix of the pieces holds no more commands than all of them.
proof fn lemma_commands_prefix(ps: Seq<Piece>, k: int)
    requires
        0 <= k <= ps.len(),
    ensures
        commands_of(ps.subrange(0, k)).len() <= commands_of(ps).len(),
    decreases ps.len(),
{
    if k < ps.len() {
        assert(ps.drop_last().subrange(0, k) == ps.subrange(0, k));
        lemma_commands_prefix(ps.drop_last(), k);
    } else {
        assert(ps.subrange(0, k) == ps);
    }
}

/// The commands among the chunks, in order.
fn chunk_commands(cs: &Vec<Chunk>) -> (r: Vec<Vec<u8>>)
    ensures
        r@.map_values(|c: Vec<u8>| c@) == commands_of(chunks_view(cs@)),
{
    let ghost cv = chunks_view(cs@);
    let mut r: Vec<Vec<u8>> = Vec::new();
    let mut k: usize = 0;
    while k < cs.len()
        invariant
            k <= cs@.len(),
            cv == chunks_view(cs@),
            r@.map_values(|c: Vec<u8>| c@) == commands_of(cv.subrange(0, k as int)),
        decreases cs@.len() - k,
    {
        assert(cv.subrange(0, k + 1).drop_last() == cv.subrange(0, k as int));
        assert(cv.subrange(0, k + 1).last() == cs@[k as int]@);
        let ghost before = r@.map_values(|c: Vec<u8>| c@);
        match &cs[k] {
            Chunk::Command(c) => {
                r.push(vstd::slice::slice_to_vec(c.as_slice()));
                assert(r@.map_values(|c: Vec<u8>| c@) =~= before.push(c@));
            },
            Chunk::Text(_) => {},
        }
        k = k + 1;
    }
    assert(cv.subrange(0, cv.len() as int) == cv);
    r
}

/// Appends the chunks' text to `out`, with the k-th command replaced by `outputs[k]`.
fn render_chunks(cs: &Vec<Chunk>, outputs: &Vec<Vec<u8>>, out: &mut Vec<u8>)
    requires
        outputs@.len() == commands_of(chunks_view(cs@)).len(),
    ensures
        final(out)@ == old(out)@ + render(chunks_view(cs@), outputs@.map_values(|o: Vec<u8>| o@)),
{
    let ghost cv = chunks_view(cs@);
    let ghost ov = outputs@.map_values(|o: Vec<u8>| o@);
    let ghost start = out@;
    let n_out = outputs.len();
    let mut used: usize = 0;
    let mut k: usize = 0;
    while k < cs.len()
        invariant
            n_out == outputs@.len(),
            k <= cs@.len(),
            cv == chunks_view(cs@),
            ov == outputs@.map_values(|o: Vec<u8>| o@),
            outputs@.len() == commands_of(cv).len(),
            used == commands_of(cv.subrange(0, k as int)).len(),
            out@ == start + render(cv.subrange(0, k as int), ov),
        decreases cs@.len() - k,
    {
        assert(cv.subrange(0, k + 1).drop_last() == cv.subrange(0, k as int));
        assert(cv.subrange(0, k + 1).last() == cs@[k as int]@);
        proof {
            lemma_commands_prefix(cv, k + 1);
        }
        match &cs[k] {
            Chunk::Command(_) => {
                assert(commands_of(cv.subrange(0, k + 1)).len() == used + 1);
                assert(used < n_out);
                push_all(out, outputs[used].as_slice());
                used = used + 1;
            },
            Chunk::Text(t) => {
                push_all(out, t.as_slice());
            },
        }
        k = k + 1;
    }
    assert(cv.subrange(0, cv.len() as int) == cv);
}

/// The commands of the page `file`, in the order their directives appear.
pub fn shtml_commands(file: &[u8]) -> (cmds: Vec<Vec<u8>>)
    requires
        page_ok(file@),
    ensures
        cmds@.map_values(|c: Vec<u8>| c@) == commands_of(page_pieces(file@)),
{
    let chunks = scan_page(file);
    chunk_commands(&chunks)
}

/// Appends the page `file` to `out`, each directive replaced by the output of its command
/// (`outputs` in the order of `shtml_commands`).
pub fn render_page(file: &[u8], outputs: &Vec<Vec<u8>>, out: &mut Vec<u8>)
    requires
        page_ok(file@),
        outputs@.len() == commands_of(page_pieces(file@)).len(),
    ensures
        final(out)@ == old(out)@ + render(page_pieces(file@), outputs@.map_values(|o: Vec<u8>| o@)),
{
    let chunks = scan_page(file);
    render_chunks(&chunks, outputs, out);
}

/// Whether every directive of the page `file` can be read (`page_ok`, less its UTF-8
/// condition).
pub fn page_scannable(file: &[u8]) -> (r: bool)
    ensures
        r == directives_ok(file@),
{
    let open: [u8; 9] = [60, 33, 45, 45, 35, 101, 120, 101, 99];
    let close: [u8; 3] = [45, 45, 62];
    assert(open@ =~= exec_open());
    assert(close@ =~= exec_close());
    let mut pos: usize = 0;
    assert(file@.subrange(0, file@.len() as int) == file@);
    loop
        invariant
            open@ == exec_open(),
            close@ == exec_close(),
            pos <= file@.len(),
            directives_ok(file@) == directives_ok(file@.subrange(pos as int, file@.len() as int)),
        decreases file@.len() - pos,
    {
        let rest = vstd::slice::slice_subrange(file, pos, file.len());
        proof {
            lemma_find(rest@, exec_open());
        }
        match find_bytes(rest, &open) {
            None => {
                return true;
            },
            Some(i) => {
                let after = vstd::slice::slice_subrange(rest, i + 9, rest.len());
                proof {
                    lemma_find(after@, exec_close());
                }
                match find_bytes(after, &close) {
                    None => {
                        return directive_readable(after);
                    },
                    Some(j) => {
                        if !directive_readable(vstd::slice::slice_subrange(after, 0, j)) {
                            return false;
                        }
                        let next = pos + i + 9 + j + 3;
                        assert(after@.subrange(j + 3, after@.len() as int) =~= file@.subrange(
                            next as int,
                            file@.len() as int,
                        ));
                        pos = next;
                    },
                }
            },
        }
    }
}

/// A page without a directive is served as it is and runs no command.
pub proof fn lemma_plain_page(file: Seq<u8>, outs: Seq<Seq<u8>>)
    requires
        find(file, exec_open()) < 0,
    ensures
        commands_of(page_pieces(file)).len() == 0,
        render(page_pieces(file), outs) == file,
{
    let p = page_pieces(file);
    assert(p == seq![Piece::Text(file)]);
    assert(p.drop_last() =~= Seq::<Piece>::empty());
    assert(p.last() == Piece::Text(file));
    assert(commands_of(p.drop_last()).len() == 0);
    assert(render(p.drop_last(), outs) == Seq::<u8>::empty());
    assert(render(p, outs) == render(p.drop_last(), outs) + file);
    assert(render(p, outs) =~= file);
}

/// A page is the text before its first directive, then that directive's command, then the
/// rest of the page after the directive's closing "-->", taken the same way.
pub proof fn lemma_first_directive(a: Seq<u8>, body: Seq<u8>, b: Seq<u8>)
    requires
        forall|q: int| 0 <= q < a.len() ==> !occurs_at(a + exec_open() + body + exec_close() + b, exec_open(), q),
        forall|q: int| 0 <= q < body.len() ==> !occurs_at(body + exec_close() + b, exec_close(), q),
    ensures
        pieces(a + exec_open() + body + exec_close() + b) == seq![
            Piece::Text(a),
            Piece::Command(command_of(body)),
        ] + pieces(b),
{
    let s = a + exec_open() + body + exec_close() + b;
    lemma_find(s, exec_open());
    assert(s.subrange(a.len() as int, a.len() as int + 9) =~= exec_open());
    assert(occurs_at(s, exec_open(), a.len() as int));
    assert(find(s, exec_open()) == a.len());
    let rest = s.subrange(a.len() as int + 9, s.len() as int);
    assert(rest =~= body + exec_close() + b);
    lemma_find(rest, exec_close());
    assert(rest.subrange(body.len() as int, body.len() as int + 3) =~= exec_close());
    assert(occurs_at(rest, exec_close(), body.len() as int));
    assert(find(rest, exec_close()) == body.len());
    assert(s.subrange(0, a.len() as int) =~= a);
    assert(rest.subrange(0, body.len() as int) =~= body);
    assert(rest.subrange(body.len() as int + 3, rest.len() as int) =~= b);
}

/// The command is the whole quoted value of `cmd=`, spaces included: for any text `c`,
/// the directive text ` cmd="c" ` names the command `c`.
pub proof fn lemma_quoted_command(c: Seq<u8>)
    ensures
        command_of(seq![32u8, 99u8, 109u8, 100u8, 61u8, 34u8] + c + seq![34u8, 32u8]) == c,
{
    let body = seq![32u8, 99u8, 109u8, 100u8, 61u8, 34u8] + c + seq![34u8, 32u8];
    let eq = seq![61u8];
    lemma_find(body, eq);
    assert(body.subrange(4, 5) =~= eq);
    assert(occurs_at(body, eq, 4));
    assert forall|q: int| 0 <= q < 4 implies !occurs_at(body, eq, q) by {
        if occurs_at(body, eq, q) {
            assert(body.subrange(q, q + 1)[0] == body[q]);
        }
    }
    assert(find(body, eq) == 4);
    let after = body.subrange(5, body.len() as int);
    assert(after =~= seq![34u8] + c + seq![34u8, 32u8]);
    assert(trim_start(after) == after);
    let w = seq![34u8] + c + seq![34u8];
    assert(after.drop_last() =~= w);
    assert(trim_end(w) == w);
    assert(trim_end(after) == trim_end(after.drop_last()));
    assert(w.subrange(1, w.len() - 1) =~= c);
}

} // verus!
