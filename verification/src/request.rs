//! Reading the request line and deciding how a request is answered.

use vstd::prelude::*;
use crate::bytes::{bytes_eq, push_all};
use crate::text::{split, split_bytes};
use vstd::utf8::valid_utf8;

verus! {

/// The space byte that separates the words of a request line.
pub open spec fn space() -> u8 {
    32
}

/// The path a request asks for: "." followed by the text between the request's first and
/// second space, or `None` when the request has fewer than two spaces.
pub open spec fn request_path_spec(req: Seq<u8>) -> Option<Seq<u8>> {
    let words = split(req, space());
    if words.len() > 2 {
        Some(seq![46u8] + words[1])
    } else {
        None
    }
}

/// The requested path ("." followed by the request's second word), when the request
/// has at least three words. The request must be UTF-8 text.
pub fn request_path(req: &[u8]) -> (r: Option<Vec<u8>>)
    requires
        valid_utf8(req@),
    ensures
        r matches Some(p) ==> request_path_spec(req@) == Some(p@),
        r is None ==> request_path_spec(req@) is None,
{
    let words = split_bytes(req, 32);
    if words.len() > 2 {
        let mut p: Vec<u8> = Vec::new();
        p.push(46);
        push_all(&mut p, words[1].as_slice());
        assert(words@.map_values(|w: Vec<u8>| w@)[1] == words@[1]@);
        assert(p@ =~= seq![46u8] + words@[1]@);
        Some(p)
    } else {
        None
    }
}

/// The component "." (the current directory).
pub open spec fn dot() -> Seq<u8> {
    seq![46u8]
}

/// The component ".." (the parent directory).
pub open spec fn dot_dot() -> Seq<u8> {
    seq![46u8, 46u8]
}

/// One step of path normalization: empty and "." components vanish, ".." cancels the
/// component before it unless that is itself "..", and any other component is kept.
pub open spec fn norm_step(acc: Seq<Seq<u8>>, c: Seq<u8>) -> Seq<Seq<u8>> {
    if c.len() == 0 || c == dot() {
        acc
    } else if c == dot_dot() {
        if acc.len() > 0 && acc.last() != dot_dot() {
            acc.drop_last()
        } else {
            acc.push(c)
        }
    } else {
        acc.push(c)
    }
}

/// The normalized components of a relative path, taken left to right.
pub open spec fn normalize(comps: Seq<Seq<u8>>) -> Seq<Seq<u8>>
    decreases comps.len(),
{
    if comps.len() == 0 {
        Seq::<Seq<u8>>::empty()
    } else {
        norm_step(normalize(comps.drop_last()), comps.last())
    }
}

/// The normalized components of the relative path `path`, split at '/'.
pub open spec fn path_components_spec(path: Seq<u8>) -> Seq<Seq<u8>> {
    normalize(split(path, 47u8))
}

fn is_dot(c: &[u8]) -> (r: bool)
    ensures
        r == (c@ == dot()),
{
    let r = c.len() == 1 && c[0] == 46;
    if r {
        assert(c@ =~= dot());
    }
    r
}

fn is_dot_dot(c: &[u8]) -> (r: bool)
    ensures
        r == (c@ == dot_dot()),
{
    let r = c.len() == 2 && c[0] == 46 && c[1] == 46;
    if r {
        assert(c@ =~= dot_dot());
    }
    r
}

/// The components of the relative path `path` after normalization: "." and empty
/// components dropped, and each ".." cancelling the component before it.
pub fn path_components(path: &[u8]) -> (r: Vec<Vec<u8>>)
    ensures
        r@.map_values(|c: Vec<u8>| c@) == path_components_spec(path@),
{
    let comps = split_bytes(path, 47);
    let ghost cs = comps@.map_values(|c: Vec<u8>| c@);
    let mut acc: Vec<Vec<u8>> = Vec::new();
    let mut i: usize = 0;
    while i < comps.len()
        invariant
            i <= comps@.len(),
            cs == comps@.map_values(|c: Vec<u8>| c@),
            acc@.map_values(|c: Vec<u8>| c@) == normalize(cs.subrange(0, i as int)),
        decreases comps@.len() - i,
    {
        let ghost pre = cs.subrange(0, i as int);
        assert(cs.subrange(0, i + 1).drop_last() == pre);
        assert(cs.subrange(0, i + 1).last() == comps@[i as int]@);
        let ghost before = acc@.map_values(|c: Vec<u8>| c@);
        let c = comps[i].as_slice();
        if c.len() == 0 || is_dot(c) {
        } else if is_dot_dot(c) {
            let n = acc.len();
            if n > 0 && !is_dot_dot(acc[n - 1].as_slice()) {
                acc.pop();
                assert(acc@.map_values(|c: Vec<u8>| c@) =~= before.drop_last());
            } else {
                acc.push(vstd::slice::slice_to_vec(c));
                assert(acc@.map_values(|c: Vec<u8>| c@) =~= before.push(c@));
            }
        } else {
            acc.push(vstd::slice::slice_to_vec(c));
            assert(acc@.map_values(|c: Vec<u8>| c@) =~= before.push(c@));
        }
        i = i + 1;
    }
    assert(cs.subrange(0, cs.len() as int) == cs);
    acc
}

/// The position of the last byte `b` in `s`, or -1 when there is none.
pub open spec fn last_index_of(s: Seq<u8>, b: u8) -> int
    decreases s.len(),
{
    if s.len() == 0 {
        -1
    } else if s.last() == b {
        s.len() - 1
    } else {
        last_index_of(s.drop_last(), b)
    }
}

/// The extension of a file name: what follows its last '.', unless it has no '.' or
/// its only leading '.' is its first byte.
pub open spec fn extension_spec(name: Seq<u8>) -> Option<Seq<u8>> {
    let i = last_index_of(name, 46u8);
    if i <= 0 {
        None
    } else {
        Some(name.subrange(i + 1, name.len() as int))
    }
}

/// The extension of the file name `name` (see `extension_spec`).
pub fn extension(name: &[u8]) -> (r: Option<Vec<u8>>)
    ensures
        r matches Some(e) ==> extension_spec(name@) == Some(e@),
        r is None ==> extension_spec(name@) is None,
{
    let mut i: usize = name.len();
    assert(name@.subrange(0, i as int) == name@);
    while i > 0
        invariant
            i <= name@.len(),
            last_index_of(name@, 46u8) == last_index_of(name@.subrange(0, i as int), 46u8),
        decreases i,
    {
        let ghost pre = name@.subrange(0, i as int);
        assert(pre.drop_last() == name@.subrange(0, i - 1));
        if name[i - 1] == 46 {
            assert(pre.last() == 46u8);
            if i - 1 == 0 {
                return None;
            }
            let mut e: Vec<u8> = Vec::new();
            push_all(&mut e, vstd::slice::slice_subrange(name, i, name.len()));
            return Some(e);
        }
        i = i - 1;
    }
    None
}

/// How a request is answered.
pub enum Route {
    /// The visitor-counter page, for the site root.
    Counter,
    /// The error page, for a path that does not exist or is a directory.
    NotFound,
    /// A server-side-include page, for an existing ".shtml" file.
    Dynamic,
    /// A static file, served from the queue.
    Static,
}

/// The extension that marks a page with server-side includes.
pub open spec fn shtml() -> Seq<u8> {
    seq![115u8, 104u8, 116u8, 109u8, 108u8]
}

/// The site root as a requested path: "./".
pub open spec fn root_path() -> Seq<u8> {
    seq![46u8, 47u8]
}

/// The route of a request for `path` whose target exists (`found`) and is a directory
/// (`is_dir`), as found on disk: the root gets the counter page, a missing target or a
/// directory the error page, a file whose name ends in ".shtml" the dynamic page, and any
/// other file the static-file queue.
pub open spec fn route_spec(path: Seq<u8>, found: bool, is_dir: bool) -> Route {
    let comps = path_components_spec(path);
    if path == root_path() {
        Route::Counter
    } else if !found || is_dir {
        Route::NotFound
    } else if comps.len() > 0 && extension_spec(comps.last()) == Some(shtml()) {
        Route::Dynamic
    } else {
        Route::Static
    }
}

/// What is on disk is looked at before the name: the site root always gets the counter
/// page; any other path whose target is missing or is a directory gets the error page,
/// whatever its extension (a ".shtml" name included); and only an existing file that is
/// not a directory is served, as a dynamic page or queued.
pub proof fn lemma_route_checks_disk_first(path: Seq<u8>, found: bool, is_dir: bool)
    ensures
        path == root_path() ==> route_spec(path, found, is_dir) == Route::Counter,
        path != root_path() && (!found || is_dir) ==> route_spec(path, found, is_dir)
            == Route::NotFound,
        route_spec(path, found, is_dir) == Route::Dynamic || route_spec(path, found, is_dir)
            == Route::Static ==> found && !is_dir && path != root_path(),
{
}

/// Decides how the request for `path` is answered (see `route_spec`).
pub fn route(path: &[u8], found: bool, is_dir: bool) -> (r: Route)
    ensures
        r == route_spec(path@, found, is_dir),
{
    if path.len() == 2 && path[0] == 46 && path[1] == 47 {
        assert(path@ =~= root_path());
        return Route::Counter;
    }
    assert(path@ != root_path()) by {
        if path@ == root_path() {
            assert(path@.len() == 2 && path@[0] == 46u8 && path@[1] == 47u8);
        }
    }
    if !found || is_dir {
        return Route::NotFound;
    }
    let comps = path_components(path);
    let n = comps.len();
    if n > 0 {
        assert(comps@.map_values(|c: Vec<u8>| c@).last() == comps@[n - 1]@);
        match extension(comps[n - 1].as_slice()) {
            Some(e) => {
                let shtml_bytes: [u8; 5] = [115, 104, 116, 109, 108];
                if bytes_eq(e.as_slice(), &shtml_bytes) {
                    assert(shtml_bytes@ =~= shtml());
                    return Route::Dynamic;
                }
                assert(shtml_bytes@ =~= shtml());
            },
            None => {},
        }
    }
    Route::Static
}


/// The components joined with the byte `sep` between neighbours.
pub open spec fn join(comps: Seq<Seq<u8>>, sep: u8) -> Seq<u8>
    decreases comps.len(),
{
    if comps.len() == 0 {
        Seq::empty()
    } else if comps.len() == 1 {
        comps[0]
    } else {
        join(comps.drop_last(), sep).push(sep) + comps.last()
    }
}

/// The normalized form of the relative path `path`: its normalized components joined
/// with '/'.
pub open spec fn normalized_path_spec(path: Seq<u8>) -> Seq<u8> {
    join(path_components_spec(path), 47u8)
}

/// The normalized form of the relative path `path` (see `normalized_path_spec`).
pub fn normalized_path(path: &[u8]) -> (r: Vec<u8>)
    ensures
        r@ == normalized_path_spec(path@),
{
    let comps = path_components(path);
    let ghost cv = comps@.map_values(|c: Vec<u8>| c@);
    let mut r: Vec<u8> = Vec::new();
    let mut k: usize = 0;
    while k < comps.len()
        invariant
            k <= comps@.len(),
            cv == comps@.map_values(|c: Vec<u8>| c@),
            r@ == join(cv.subrange(0, k as int), 47u8),
        decreases comps@.len() - k,
    {
        assert(cv.subrange(0, k + 1).drop_last() == cv.subrange(0, k as int));
        assert(cv.subrange(0, k + 1).last() == comps@[k as int]@);
        if k > 0 {
            r.push(47);
        } else {
            assert(r@ == Seq::<u8>::empty());
            assert(cv.subrange(0, 1)[0] == comps@[0]@);
        }
        push_all(&mut r, comps[k].as_slice());
        k = k + 1;
    }
    assert(cv.subrange(0, cv.len() as int) == cv);
    r
}

/// One step of normalizing an absolute path: empty and "." components vanish, ".."
/// removes the component before it (and vanishes at the root), and any other component is
/// kept.
pub open spec fn abs_norm_step(acc: Seq<Seq<u8>>, c: Seq<u8>) -> Seq<Seq<u8>> {
    if c.len() == 0 || c == dot() {
        acc
    } else if c == dot_dot() {
        if acc.len() > 0 {
            acc.drop_last()
        } else {
            acc
        }
    } else {
        acc.push(c)
    }
}

/// The normalized components of an absolute path, taken left to right.
pub open spec fn abs_normalize(comps: Seq<Seq<u8>>) -> Seq<Seq<u8>>
    decreases comps.len(),
{
    if comps.len() == 0 {
        Seq::<Seq<u8>>::empty()
    } else {
        abs_norm_step(abs_normalize(comps.drop_last()), comps.last())
    }
}

/// The absolute, normalized path that the relative path `path` names under the working
/// directory `cwd`: '/' followed by the normalized components of `cwd` and then `path`,
/// joined with '/'.
pub open spec fn resolved_path_spec(cwd: Seq<u8>, path: Seq<u8>) -> Seq<u8> {
    seq![47u8] + join(abs_normalize(split(cwd, 47u8) + split(path, 47u8)), 47u8)
}

/// The absolute path that `path` names under the working directory `cwd` (see
/// `resolved_path_spec`).
pub fn resolved_path(cwd: &[u8], path: &[u8]) -> (r: Vec<u8>)
    ensures
        r@ == resolved_path_spec(cwd@, path@),
{
    let mut comps = split_bytes(cwd, 47);
    let mut more = split_bytes(path, 47);
    let ghost cv0 = comps@.map_values(|c: Vec<u8>| c@);
    let ghost mv0 = more@.map_values(|c: Vec<u8>| c@);
    comps.append(&mut more);
    let ghost cv = comps@.map_values(|c: Vec<u8>| c@);
    assert(cv =~= cv0 + mv0);
    let mut acc: Vec<Vec<u8>> = Vec::new();
    let mut i: usize = 0;
    while i < comps.len()
        invariant
            i <= comps@.len(),
            cv == comps@.map_values(|c: Vec<u8>| c@),
            acc@.map_values(|c: Vec<u8>| c@) == abs_normalize(cv.subrange(0, i as int)),
        decreases comps@.len() - i,
    {
        assert(cv.subrange(0, i + 1).drop_last() == cv.subrange(0, i as int));
        assert(cv.subrange(0, i + 1).last() == comps@[i as int]@);
        let ghost before = acc@.map_values(|c: Vec<u8>| c@);
        let c = comps[i].as_slice();
        if c.len() == 0 || is_dot(c) {
        } else if is_dot_dot(c) {
            if acc.len() > 0 {
                acc.pop();
                assert(acc@.map_values(|c: Vec<u8>| c@) =~= before.drop_last());
            }
        } else {
            acc.push(vstd::slice::slice_to_vec(c));
            assert(acc@.map_values(|c: Vec<u8>| c@) =~= before.push(c@));
        }
        i = i + 1;
    }
    assert(cv.subrange(0, cv.len() as int) == cv);
    let ghost av = acc@.map_values(|c: Vec<u8>| c@);
    let mut r: Vec<u8> = Vec::new();
    r.push(47);
    let mut k: usize = 0;
    while k < acc.len()
        invariant
            k <= acc@.len(),
            av == acc@.map_values(|c: Vec<u8>| c@),
            r@ == seq![47u8] + join(av.subrange(0, k as int), 47u8),
        decreases acc@.len() - k,
    {
        assert(av.subrange(0, k + 1).drop_last() == av.subrange(0, k as int));
        assert(av.subrange(0, k + 1).last() == acc@[k as int]@);
        let ghost r0 = r@;
        if k > 0 {
            r.push(47);
        } else {
            assert(av.subrange(0, 1)[0] == acc@[0]@);
        }
        push_all(&mut r, acc[k].as_slice());
        assert(r@ =~= seq![47u8] + join(av.subrange(0, k + 1), 47u8));
        k = k + 1;
    }
    assert(av.subrange(0, av.len() as int) == av);
    r
}

} // verus!
