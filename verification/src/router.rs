//! Routing: which route serves a path, where its files lie, which methods it takes.

use vstd::prelude::*;
use crate::config::{RouteCfg, ServerCfg};
use crate::http::{Method, Response};
use crate::text::{chars_of, string_of, utf8};

verus! {

/// A route of a server.
pub struct Route<'a> {
    pub cfg: &'a RouteCfg,
}

/// The route that serves a path, with the local path the request names.
pub struct MatchedRoute<'a> {
    pub route: &'a RouteCfg,
    pub local_path: String,
}

/// `p` is a prefix of `s`.
pub open spec fn is_prefix(p: Seq<char>, s: Seq<char>) -> bool {
    p.len() <= s.len() && s.take(p.len() as int) == p
}

/// A route at `rpath` serves `path`: the path is the route's path or lies
/// below it (after a `/` that follows the route's path, or that ends it, as
/// for the root route `/`).
pub open spec fn route_matches(rpath: Seq<char>, path: Seq<char>) -> bool {
    ||| path == rpath
    ||| is_prefix(rpath.push('/'), path)
    ||| (rpath.len() > 0 && rpath.last() == '/' && is_prefix(rpath, path))
}

/// Among the first `n` routes, the index of the one that serves `path` with
/// the longest path (in bytes); the first of equally long ones.
pub open spec fn best_among(routes: Seq<RouteCfg>, path: Seq<char>, n: int) -> Option<int>
    decreases n,
{
    if n <= 0 {
        None
    } else {
        let b = best_among(routes, path, n - 1);
        if route_matches(routes[n - 1].path@, path) && (b is None || utf8(routes[n - 1].path@).len()
            > utf8(routes[b->0].path@).len()) {
            Some(n - 1)
        } else {
            b
        }
    }
}

proof fn lemma_best_among(routes: Seq<RouteCfg>, path: Seq<char>, n: int)
    requires
        0 <= n <= routes.len(),
    ensures
        best_among(routes, path, n) matches Some(b) ==> 0 <= b < n && route_matches(
            routes[b].path@,
            path,
        ),
    decreases n,
{
    if n > 0 {
        lemma_best_among(routes, path, n - 1);
    }
}

/// The index of the route that serves `path`.
pub open spec fn best_route(routes: Seq<RouteCfg>, path: Seq<char>) -> Option<int> {
    best_among(routes, path, routes.len() as int)
}

/// `Path::join` on Unix: an absolute `p` replaces `base`, otherwise `p` is
/// added after a `/` unless `base` is empty or already ends in one.
pub open spec fn path_join(base: Seq<char>, p: Seq<char>) -> Seq<char> {
    if p.len() > 0 && p[0] == '/' {
        p
    } else if base.len() == 0 || base.last() == '/' {
        base + p
    } else {
        base.push('/') + p
    }
}

/// The part of `path` below the route path `rpath`, without its first `/`.
pub open spec fn rest_after(rpath: Seq<char>, path: Seq<char>) -> Seq<char> {
    let r = path.skip(rpath.len() as int);
    if r.len() > 0 && r[0] == '/' {
        r.drop_first()
    } else {
        r
    }
}

/// The local path that `path` names under a route.
pub open spec fn local_path(route: RouteCfg, path: Seq<char>) -> Seq<char> {
    path_join(route.root@, rest_after(route.path@, path))
}

fn same_chars(a: &[char], b: &[char]) -> (r: bool)
    ensures
        r == (a@ == b@),
{
    if a.len() != b.len() {
        return false;
    }
    let mut i: usize = 0;
    while i < a.len()
        invariant
            i <= a@.len(),
            a@.len() == b@.len(),
            forall|j: int| 0 <= j < i ==> a@[j] == b@[j],
        decreases a.len() - i,
    {
        if a[i] != b[i] {
            return false;
        }
        i = i + 1;
    }
    assert(a@ =~= b@);
    true
}

fn matches_route(rc: &[char], pc: &[char]) -> (r: bool)
    ensures
        r == route_matches(rc@, pc@),
{
    if same_chars(rc, pc) {
        return true;
    }
    let n = rc.len();
    if n > 0 && rc[n - 1] == '/' && pc.len() >= n {
        let under = same_chars(&pc[0..n], rc);
        proof {
            assert(pc@.subrange(0, n as int) =~= pc@.take(n as int));
        }
        if under {
            return true;
        }
    }
    proof {
        if n > 0 && rc@.last() == '/' && is_prefix(rc@, pc@) {
            assert(pc@.subrange(0, n as int) =~= pc@.take(n as int));
        }
    }
    if pc.len() <= n {
        return false;
    }
    if pc[n] != '/' {
        proof {
            if is_prefix(rc@.push('/'), pc@) {
                assert(pc@.take(n + 1)[n as int] == pc@[n as int]);
            }
        }
        return false;
    }
    let r = same_chars(&pc[0..n], rc);
    proof {
        assert(pc@.subrange(0, n as int) =~= pc@.take(n as int));
        assert(pc@.take(n + 1) =~= pc@.take(n as int).push(pc@[n as int]));
        if is_prefix(rc@.push('/'), pc@) {
            assert(pc@.take(n as int) =~= pc@.take(n + 1).take(n as int));
            assert(rc@.push('/').take(n as int) =~= rc@);
        }
        if r {
            assert(pc@.take(n + 1) =~= rc@.push('/'));
        }
    }
    r
}

fn join_path(base: &[char], p: &[char]) -> (r: Vec<char>)
    ensures
        r@ == path_join(base@, p@),
{
    let mut v: Vec<char> = Vec::new();
    if p.len() > 0 && p[0] == '/' {
        push_chars(&mut v, p);
        return v;
    }
    push_chars(&mut v, base);
    if base.len() > 0 && base[base.len() - 1] != '/' {
        v.push('/');
    }
    push_chars(&mut v, p);
    v
}

fn push_chars(v: &mut Vec<char>, s: &[char])
    ensures
        final(v)@ == old(v)@ + s@,
{
    let mut i: usize = 0;
    while i < s.len()
        invariant
            i <= s@.len(),
            v@ == old(v)@ + s@.take(i as int),
        decreases s.len() - i,
    {
        v.push(s[i]);
        i = i + 1;
        assert(v@ =~= old(v)@ + s@.take(i as int));
    }
    assert(s@.take(s@.len() as int) =~= s@);
}

/// The route of `servers` that serves `path` (the longest matching route
/// path), and the local path under its root.
pub fn match_route<'a>(servers: &'a ServerCfg, path: &str) -> (r: Option<MatchedRoute<'a>>)
    ensures
        r is Some <==> best_route(servers.routes@, path@) is Some,
        r matches Some(m) ==> *m.route == servers.routes@[best_route(servers.routes@, path@)->0]
            && m.local_path@ == local_path(*m.route, path@),
{
    let pc = chars_of(path);
    let routes = &servers.routes;
    let mut best: Option<usize> = None;
    let mut i: usize = 0;
    while i < routes.len()
        invariant
            i <= routes@.len(),
            routes == &servers.routes,
            pc@ == path@,
            match best {
                Some(b) => best_among(routes@, path@, i as int) == Some(b as int) && b < i,
                None => best_among(routes@, path@, i as int) is None,
            },
        decreases routes.len() - i,
    {
        let rc = chars_of(routes[i].path.as_str());
        if matches_route(rc.as_slice(), pc.as_slice()) {
            match best {
                None => {
                    best = Some(i);
                },
                Some(b) => {
                    if routes[i].path.as_str().as_bytes().len() > routes[b].path.as_str().as_bytes().len() {
                        best = Some(i);
                    }
                },
            }
        }
        i = i + 1;
    }
    let b = match best {
        None => return None,
        Some(b) => b,
    };
    let route = &routes[b];
    let rc = chars_of(route.path.as_str());
    proof {
        lemma_best_among(routes@, path@, routes@.len() as int);
        assert(route_matches(rc@, pc@));
    }
    let n = pc.len();
    let k = rc.len();
    let mut s = k;
    if s < n && pc[s] == '/' {
        s = s + 1;
    }
    proof {
        if pc@ == rc@ {
        } else if is_prefix(rc@.push('/'), pc@) {
            assert(pc@.take(k + 1)[k as int] == pc@[k as int]);
        }
        assert(k <= n);
        let r0 = pc@.skip(k as int);
        if r0.len() > 0 && r0[0] == '/' {
            assert(r0.drop_first() =~= pc@.subrange(s as int, n as int));
        } else {
            assert(r0 =~= pc@.subrange(s as int, n as int));
        }
    }
    let local = join_path(chars_of(route.root.as_str()).as_slice(), &pc.as_slice()[s..n]);
    Some(MatchedRoute { route, local_path: string_of(local.as_slice()) })
}

/// `base` and `p` joined as paths.
pub fn join_strs(base: &str, p: &str) -> (r: String)
    ensures
        r@ == path_join(base@, p@),
{
    let j = join_path(chars_of(base).as_slice(), chars_of(p).as_slice());
    string_of(j.as_slice())
}

/// The name of a method.
pub open spec fn method_name(m: Method) -> Seq<char> {
    match m {
        Method::GET => "GET"@,
        Method::POST => "POST"@,
        Method::DELETE => "DELETE"@,
    }
}

/// The route takes the method: it lists it, or lists none.
pub open spec fn allows(route: RouteCfg, m: Method) -> bool {
    route.methods@.len() == 0 || exists|i: int| 0 <= i < route.methods@.len()
        && #[trigger] route.methods@[i]@ == method_name(m)
}

/// Whether `route` takes method `m`.
pub fn allow_method(route: &RouteCfg, m: &Method) -> (b: bool)
    ensures
        b == allows(*route, *m),
{
    if route.methods.len() == 0 {
        return true;
    }
    let name: String = match m {
        Method::GET => "GET".to_owned(),
        Method::POST => "POST".to_owned(),
        Method::DELETE => "DELETE".to_owned(),
    };
    let mut i: usize = 0;
    while i < route.methods.len()
        invariant
            i <= route.methods@.len(),
            name@ == method_name(*m),
            forall|j: int| 0 <= j < i ==> route.methods@[j]@ != method_name(*m),
        decreases route.methods.len() - i,
    {
        if route.methods[i] == name {
            return true;
        }
        i = i + 1;
    }
    false
}

/// The paths of the index files of a route under a local directory.
pub open spec fn index_paths(route: RouteCfg, local: Seq<char>) -> Seq<Seq<char>> {
    Seq::new(route.index@.len(), |i: int| path_join(local, route.index@[i]@))
}

/// The character sequences of a list of strings.
pub open spec fn strings_view(v: Seq<String>) -> Seq<Seq<char>> {
    Seq::new(v.len(), |i: int| v[i]@)
}

/// The paths of the index files to look for under `local`, in order.
pub fn index_candidates(route: &RouteCfg, local: &str) -> (v: Vec<String>)
    ensures
        strings_view(v@) == index_paths(*route, local@),
{
    let lc = chars_of(local);
    let mut v: Vec<String> = Vec::new();
    let mut i: usize = 0;
    while i < route.index.len()
        invariant
            i <= route.index@.len(),
            lc@ == local@,
            strings_view(v@) =~= index_paths(*route, local@).take(i as int),
        decreases route.index.len() - i,
    {
        let j = join_path(lc.as_slice(), chars_of(route.index[i].as_str()).as_slice());
        let s_new = string_of(j.as_slice());
        let ghost before = v@;
        v.push(s_new);
        assert(strings_view(v@) =~= strings_view(before).push(s_new@));
        i = i + 1;
        assert(strings_view(v@) =~= index_paths(*route, local@).take(i as int));
    }
    v
}

/// The first index file under `local` that exists; `is_file[i]` tells whether
/// the `i`-th candidate of `index_candidates` is a file.
pub fn resolve_index(route: &RouteCfg, local: &str, is_file: &[bool]) -> (r: Option<String>)
    requires
        is_file@.len() == route.index@.len(),
    ensures
        match r {
            Some(p) => crate::search::first_occurrence(is_file@, seq![true]) matches Some(i) && p@
                == index_paths(*route, local@)[i],
            None => crate::search::first_occurrence(is_file@, seq![true]) is None,
        },
{
    let mut i: usize = 0;
    while i < is_file.len()
        invariant
            i <= is_file@.len(),
            is_file@.len() == route.index@.len(),
            forall|j: int| 0 <= j < i ==> !is_file@[j],
        decreases is_file.len() - i,
    {
        if is_file[i] {
            proof {
                assert forall|j: int| #[trigger] crate::search::occurs_at(is_file@, seq![true], j) <==> (0
                    <= j < is_file@.len() && is_file@[j]) by {
                    if 0 <= j < is_file@.len() {
                        assert(is_file@.subrange(j, j + 1) =~= seq![is_file@[j]]);
                        if crate::search::occurs_at(is_file@, seq![true], j) {
                            assert(is_file@.subrange(j, j + 1)[0] == seq![true][0]);
                        }
                    }
                }
                crate::search::lemma_first_occurrence_unique(is_file@, seq![true], Some(i as int));
            }
            let lc = chars_of(local);
            let j = join_path(lc.as_slice(), chars_of(route.index[i].as_str()).as_slice());
            let p = string_of(j.as_slice());
            assert(p@ == index_paths(*route, local@)[i as int]);
            return Some(p);
        }
        i = i + 1;
    }
    proof {
        assert forall|j: int| #[trigger] crate::search::occurs_at(is_file@, seq![true], j) <==> (0 <= j
            < is_file@.len() && is_file@[j]) by {
            if 0 <= j < is_file@.len() {
                assert(is_file@.subrange(j, j + 1) =~= seq![is_file@[j]]);
                if crate::search::occurs_at(is_file@, seq![true], j) {
                    assert(is_file@.subrange(j, j + 1)[0] == seq![true][0]);
                }
            }
        }
        crate::search::lemma_first_occurrence_unique(is_file@, seq![true], None);
    }
    None
}

} // verus!

verus! {

/// The last index of `c` in `p`, or -1.
pub open spec fn last_index(p: Seq<char>, c: char) -> int
    decreases p.len(),
{
    if p.len() == 0 {
        -1
    } else if p.last() == c {
        p.len() - 1
    } else {
        last_index(p.drop_last(), c)
    }
}

proof fn lemma_last_index(p: Seq<char>, c: char, k: int)
    requires
        0 <= k <= p.len(),
        forall|i: int| k <= i < p.len() ==> p[i] != c,
        k == 0 || p[k - 1] == c,
    ensures
        last_index(p, c) == k - 1,
    decreases p.len(),
{
    if p.len() > k {
        lemma_last_index(p.drop_last(), c, k);
    }
}

pub proof fn lemma_last_index_bounds(p: Seq<char>, c: char)
    ensures
        -1 <= last_index(p, c) < p.len(),
        last_index(p, c) >= 0 ==> p[last_index(p, c)] == c,
        forall|i: int| last_index(p, c) < i < p.len() ==> p[i] != c,
    decreases p.len(),
{
    if p.len() > 0 {
        lemma_last_index_bounds(p.drop_last(), c);
        assert forall|i: int| last_index(p, c) < i < p.len() implies p[i] != c by {
            if i < p.len() - 1 {
                assert(p.drop_last()[i] == p[i]);
            }
        }
    }
}

/// The last component of a path (`Path::file_name` on Unix): trailing `/`
/// and `.` components are skipped; none for `/`, `.`, `..` or an empty path.
pub open spec fn file_name(p: Seq<char>) -> Option<Seq<char>>
    decreases p.len(),
{
    if p.len() == 0 {
        None
    } else if p.last() == '/' {
        file_name(p.drop_last())
    } else {
        proof {
            lemma_last_index_bounds(p, '/');
        }
        let k = last_index(p, '/');
        let seg = p.skip(k + 1);
        if seg == "."@ {
            file_name(p.take(k + 1))
        } else if seg == ".."@ {
            None
        } else {
            Some(seg)
        }
    }
}

/// The extension of a file name: the text after its last `.`, when that
/// dot is not its first character.
pub open spec fn name_extension(name: Seq<char>) -> Option<Seq<char>> {
    let d = last_index(name, '.');
    if d <= 0 {
        None
    } else {
        Some(name.skip(d + 1))
    }
}

/// `Path::extension` on Unix.
pub open spec fn path_extension(p: Seq<char>) -> Option<Seq<char>> {
    match file_name(p) {
        Some(n) => name_extension(n),
        None => None,
    }
}

fn file_name_bounds(p: &[char]) -> (r: Option<(usize, usize)>)
    ensures
        match r {
            Some((a, b)) => a <= b <= p@.len() && file_name(p@) == Some(p@.subrange(a as int, b as int)),
            None => file_name(p@) is None,
        },
{
    let mut end = p.len();
    assert(p@.take(end as int) =~= p@);
    loop
        invariant
            end <= p@.len(),
            file_name(p@) == file_name(p@.take(end as int)),
        decreases end,
    {
        let ghost e0 = end;
        while end > 0 && p[end - 1] == '/'
            invariant
                end <= e0,
                end <= p@.len(),
                file_name(p@) == file_name(p@.take(end as int)),
            decreases end,
        {
            assert(p@.take(end as int).drop_last() =~= p@.take(end - 1));
            end = end - 1;
        }
        if end == 0 {
            return None;
        }
        let mut k = end;
        while k > 0 && p[k - 1] != '/'
            invariant
                k <= end,
                end <= p@.len(),
                end > 0,
                p@[end - 1] != '/',
                forall|i: int| k <= i < end ==> p@[i] != '/',
            decreases k,
        {
            k = k - 1;
        }
        let ghost t = p@.take(end as int);
        proof {
            lemma_last_index(t, '/', k as int);
            assert(t.skip(k as int) =~= p@.subrange(k as int, end as int));
            assert(t.take(k as int) =~= p@.take(k as int));
        }
        if crate::text::slice_is(p, k, end, ".") {
            end = k;
        } else if crate::text::slice_is(p, k, end, "..") {
            return None;
        } else {
            return Some((k, end));
        }
    }
}

/// The extension of a path.
pub fn extension_of(p: &[char]) -> (r: Option<Vec<char>>)
    ensures
        match r {
            Some(e) => path_extension(p@) == Some(e@),
            None => path_extension(p@) is None,
        },
{
    let (a, b) = match file_name_bounds(p) {
        None => return None,
        Some(t) => t,
    };
    let name = &p[a..b];
    let mut d = name.len();
    while d > 0 && name[d - 1] != '.'
        invariant
            d <= name@.len(),
            forall|i: int| d <= i < name@.len() ==> name@[i] != '.',
        decreases d,
    {
        d = d - 1;
    }
    proof {
        lemma_last_index(name@, '.', d as int);
    }
    if d <= 1 {
        return None;
    }
    let mut e: Vec<char> = Vec::new();
    let n = name.len();
    push_chars(&mut e, &name[d..n]);
    assert(e@ =~= name@.skip(d as int));
    Some(e)
}

/// The media type for a file extension.
pub open spec fn mime_for(ext: Option<Seq<char>>) -> Seq<char> {
    match ext {
        Some(e) => if e == "html"@ || e == "htm"@ {
            "text/html; charset=utf-8"@
        } else if e == "css"@ {
            "text/css"@
        } else if e == "js"@ {
            "application/javascript"@
        } else if e == "json"@ {
            "application/json"@
        } else if e == "png"@ {
            "image/png"@
        } else if e == "jpg"@ || e == "jpeg"@ {
            "image/jpeg"@
        } else if e == "gif"@ {
            "image/gif"@
        } else if e == "svg"@ {
            "image/svg+xml"@
        } else if e == "ico"@ {
            "image/x-icon"@
        } else if e == "txt"@ {
            "text/plain; charset=utf-8"@
        } else {
            "application/octet-stream"@
        },
        None => "application/octet-stream"@,
    }
}

/// The media type of a file, by the extension of its path.
pub fn guess_mime(path: &str) -> (m: &'static str)
    ensures
        m@ == mime_for(path_extension(path@)),
{
    let pc = chars_of(path);
    let e = match extension_of(pc.as_slice()) {
        None => return "application/octet-stream",
        Some(e) => e,
    };
    let n = e.len();
    let s = e.as_slice();
    assert(s@.subrange(0, n as int) =~= e@);
    if crate::text::slice_is(s, 0, n, "html") || crate::text::slice_is(s, 0, n, "htm") {
        "text/html; charset=utf-8"
    } else if crate::text::slice_is(s, 0, n, "css") {
        "text/css"
    } else if crate::text::slice_is(s, 0, n, "js") {
        "application/javascript"
    } else if crate::text::slice_is(s, 0, n, "json") {
        "application/json"
    } else if crate::text::slice_is(s, 0, n, "png") {
        "image/png"
    } else if crate::text::slice_is(s, 0, n, "jpg") || crate::text::slice_is(s, 0, n, "jpeg") {
        "image/jpeg"
    } else if crate::text::slice_is(s, 0, n, "gif") {
        "image/gif"
    } else if crate::text::slice_is(s, 0, n, "svg") {
        "image/svg+xml"
    } else if crate::text::slice_is(s, 0, n, "ico") {
        "image/x-icon"
    } else if crate::text::slice_is(s, 0, n, "txt") {
        "text/plain; charset=utf-8"
    } else {
        "application/octet-stream"
    }
}

} // verus!

verus! {

/// How reading a file went.
pub enum FileRead {
    /// The file's bytes.
    Bytes(Vec<u8>),
    /// There is no such file.
    NotFound,
    /// Any other failure.
    Failed,
}

/// The response that serves a file: its bytes with their media type, 404
/// when it does not exist, 403 when it cannot be read.
pub fn static_file(path: &str, read: FileRead) -> (r: Response)
    ensures
        match read {
            FileRead::Bytes(b) => r.code == 200 && r.reason@ == "OK"@ && r.headers@ == crate::strmap::insert_entry(
                Seq::empty(),
                "Content-Type"@,
                mime_for(path_extension(path@)),
            ) && r.body@ == b@,
            FileRead::NotFound => r.code == 404 && r.reason@ == "Not Found"@ && r.headers@ == Seq::<(Seq<char>, Seq<char>)>::empty() && r.body@ == Seq::<u8>::empty(),
            FileRead::Failed => r.code == 403 && r.reason@ == "Forbidden"@ && r.headers@ == Seq::<(Seq<char>, Seq<char>)>::empty() && r.body@ == Seq::<u8>::empty(),
        },
{
    match read {
        FileRead::Bytes(bytes) => {
            let mime = guess_mime(path);
            Response::new(200, "OK").set_header("Content-Type", mime).set_body(bytes)
        },
        FileRead::NotFound => Response::new(404, "Not Found"),
        FileRead::Failed => Response::new(403, "Forbidden"),
    }
}

/// Directory entries as the contracts see them: name and whether it is a directory.
pub open spec fn entries_view(v: Seq<(String, bool)>) -> Seq<(Seq<char>, bool)> {
    Seq::new(v.len(), |i: int| (v[i].0@, v[i].1))
}

/// The list item of one directory entry; directories get a trailing `/`.
pub open spec fn listing_item(e: (Seq<char>, bool)) -> Seq<u8> {
    let slash = if e.1 {
        utf8("/"@)
    } else {
        Seq::empty()
    };
    utf8("<li><a href=\""@) + utf8(e.0) + slash + utf8("\">"@) + utf8(e.0) + slash + utf8(
        "</a></li>"@,
    )
}

/// The list items of all entries, in order.
pub open spec fn listing_items(es: Seq<(Seq<char>, bool)>) -> Seq<u8>
    decreases es.len(),
{
    if es.len() == 0 {
        Seq::empty()
    } else {
        listing_items(es.drop_last()) + listing_item(es.last())
    }
}

/// The HTML page that lists a directory.
pub open spec fn listing_page(url_path: Seq<char>, es: Seq<(Seq<char>, bool)>) -> Seq<u8> {
    utf8("<html><body><h1>Index of "@) + utf8(url_path) + utf8("</h1><ul>"@) + listing_items(es)
        + utf8("</ul></body></html>"@)
}

fn push_item(body: &mut Vec<u8>, name: &str, is_dir: bool)
    ensures
        final(body)@ == old(body)@ + listing_item((name@, is_dir)),
{
    crate::text::append_str(body, "<li><a href=\"");
    crate::text::append_str(body, name);
    if is_dir {
        crate::text::append_str(body, "/");
    }
    crate::text::append_str(body, "\">");
    crate::text::append_str(body, name);
    if is_dir {
        crate::text::append_str(body, "/");
    }
    crate::text::append_str(body, "</a></li>");
    assert(final(body)@ =~= old(body)@ + listing_item((name@, is_dir)));
}

/// The response that lists a directory's entries, or 403 when the directory
/// could not be read.
pub fn dir_listing_html(url_path: &str, entries: Option<Vec<(String, bool)>>) -> (r: Response)
    ensures
        match entries {
            Some(es) => r.code == 200 && r.reason@ == "OK"@ && r.headers@ == crate::strmap::insert_entry(
                Seq::empty(),
                "Content-Type"@,
                "text/html; charset=utf-8"@,
            ) && r.body@ == listing_page(url_path@, entries_view(es@)),
            None => r.code == 403 && r.reason@ == "Forbidden"@ && r.headers@ == Seq::<(Seq<char>, Seq<char>)>::empty() && r.body@ == Seq::<u8>::empty(),
        },
{
    let es = match entries {
        None => return Response::new(403, "Forbidden"),
        Some(es) => es,
    };
    let mut body: Vec<u8> = Vec::new();
    crate::text::append_str(&mut body, "<html><body><h1>Index of ");
    crate::text::append_str(&mut body, url_path);
    crate::text::append_str(&mut body, "</h1><ul>");
    let ghost start = body@;
    let mut i: usize = 0;
    while i < es.len()
        invariant
            i <= es@.len(),
            body@ == start + listing_items(entries_view(es@).take(i as int)),
        decreases es.len() - i,
    {
        let ghost before = body@;
        push_item(&mut body, es[i].0.as_str(), es[i].1);
        assert(entries_view(es@)[i as int] == (es@[i as int].0@, es@[i as int].1));
        i = i + 1;
        assert(entries_view(es@).take(i as int).drop_last() =~= entries_view(es@).take(i - 1));
        assert(body@ =~= start + listing_items(entries_view(es@).take(i as int)));
    }
    assert(entries_view(es@).take(es@.len() as int) =~= entries_view(es@));
    crate::text::append_str(&mut body, "</ul></body></html>");
    assert(body@ =~= listing_page(url_path@, entries_view(es@)));
    Response::new(200, "OK").set_header("Content-Type", "text/html; charset=utf-8").set_body(body)
}

} // verus!

verus! {

/// Longest-prefix routing: the route chosen for a path serves it, no route
/// that serves it has a longer path, and none before it has one as long;
/// no route is chosen only when none serves the path.
pub proof fn lemma_longest_prefix(routes: Seq<RouteCfg>, path: Seq<char>)
    ensures
        match best_route(routes, path) {
            Some(b) => {
                &&& 0 <= b < routes.len()
                &&& route_matches(routes[b].path@, path)
                &&& forall|j: int|
                    0 <= j < routes.len() && route_matches(#[trigger] routes[j].path@, path) ==> utf8(
                        routes[j].path@,
                    ).len() <= utf8(routes[b].path@).len()
                &&& forall|j: int|
                    0 <= j < b && route_matches(#[trigger] routes[j].path@, path) ==> utf8(
                        routes[j].path@,
                    ).len() < utf8(routes[b].path@).len()
            },
            None => forall|j: int| 0 <= j < routes.len() ==> !route_matches(#[trigger] routes[j].path@, path),
        },
{
    lemma_best_among_longest(routes, path, routes.len() as int);
}

proof fn lemma_best_among_longest(routes: Seq<RouteCfg>, path: Seq<char>, n: int)
    requires
        0 <= n <= routes.len(),
    ensures
        match best_among(routes, path, n) {
            Some(b) => {
                &&& 0 <= b < n
                &&& route_matches(routes[b].path@, path)
                &&& forall|j: int|
                    0 <= j < n && route_matches(#[trigger] routes[j].path@, path) ==> utf8(
                        routes[j].path@,
                    ).len() <= utf8(routes[b].path@).len()
                &&& forall|j: int|
                    0 <= j < b && route_matches(#[trigger] routes[j].path@, path) ==> utf8(
                        routes[j].path@,
                    ).len() < utf8(routes[b].path@).len()
            },
            None => forall|j: int| 0 <= j < n ==> !route_matches(#[trigger] routes[j].path@, path),
        },
    decreases n,
{
    if n > 0 {
        lemma_best_among_longest(routes, path, n - 1);
    }
}

/// A route that lists no methods takes every method.
pub proof fn lemma_no_methods_allows_all(route: RouteCfg, m: Method)
    requires
        route.methods@.len() == 0,
    ensures
        allows(route, m),
{
}

} // verus!
