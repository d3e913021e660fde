//! The decisions the server takes for a request: cookies, upload boundaries,
//! which action answers a request, and the responses it sends.

use vstd::prelude::*;
use crate::search::{first_occurrence, lemma_first_occurrence};
use crate::text::{Strip, trim, trim_by, chars_of, string_of, find_chars, trim_bounds, slice_is};
use crate::router::is_prefix;
use crate::config::ServerCfg;
use crate::http::Response;
use crate::strmap::{insert_entry, has_key, lookup};
use crate::text::{utf8, lower_seq, trim_start_by};
use crate::http::{Method, Request, RequestView};
use crate::router::{MatchedRoute, match_route, allow_method, allows, best_route, local_path, path_extension, extension_of, index_paths, resolve_index};
use crate::config::RouteCfg;
use crate::router::{FileRead, static_file, dir_listing_html, mime_for, listing_page, entries_view};
use crate::upload::{FilePart, FilePartView, Multipart, multipart, parts_view, parse_multipart};

verus! {

/// The session id that one `;`-separated piece of a `Cookie` header gives.
pub open spec fn sid_in_piece(piece: Seq<char>) -> Option<Seq<char>> {
    let t = trim(piece);
    if is_prefix("SID="@, t) {
        Some(t.skip("SID="@.len() as int))
    } else {
        None
    }
}

/// The session id in the first piece of `rest` that names one.
pub open spec fn sid_in_pieces(rest: Seq<char>) -> Option<Seq<char>>
    decreases rest.len(),
{
    match first_occurrence(rest, seq![';']) {
        Some(k) => {
            proof {
                lemma_first_occurrence(rest, seq![';']);
            }
            match sid_in_piece(rest.take(k)) {
                Some(v) => Some(v),
                None => sid_in_pieces(rest.skip(k + 1)),
            }
        },
        None => sid_in_piece(rest),
    }
}

fn sid_piece(piece: &[char]) -> (r: Option<String>)
    ensures
        match r {
            Some(v) => sid_in_piece(piece@) == Some(v@),
            None => sid_in_piece(piece@) is None,
        },
{
    let (a, b) = trim_bounds(piece, Strip::Space);
    let t = &piece[a..b];
    let p = chars_of("SID=");
    let n = t.len();
    let k = p.len();
    if n >= k && slice_is(t, 0, k, "SID=") {
        assert(t@.subrange(0, k as int) =~= t@.take(k as int));
        let v = &t[k..n];
        assert(v@ =~= t@.skip(k as int));
        Some(string_of(v))
    } else {
        proof {
            if n >= k {
                assert(t@.subrange(0, k as int) =~= t@.take(k as int));
            }
        }
        None
    }
}

/// The session id that a `Cookie` header carries as `SID=`.
pub fn session_cookie(cookie_header: &str) -> (r: Option<String>)
    ensures
        match r {
            Some(v) => sid_in_pieces(cookie_header@) == Some(v@),
            None => sid_in_pieces(cookie_header@) is None,
        },
{
    let cs = chars_of(cookie_header);
    let n = cs.len();
    let mut pos: usize = 0;
    assert(cs@.skip(0) =~= cs@);
    loop
        invariant
            pos <= n,
            n == cs@.len(),
            cs@ == cookie_header@,
            sid_in_pieces(cookie_header@) == sid_in_pieces(cs@.skip(pos as int)),
        decreases n - pos,
    {
        let rest = &cs.as_slice()[pos..n];
        assert(rest@ =~= cs@.skip(pos as int));
        match crate::text::find_char(rest, ';') {
            Some(k) => {
                proof {
                    lemma_first_occurrence(rest@, seq![';']);
                    assert(rest@.subrange(0, k as int) =~= rest@.take(k as int));
                    assert(rest@.skip(k + 1) =~= cs@.skip(pos + k + 1));
                }
                match sid_piece(&rest[0..k]) {
                    Some(v) => return Some(v),
                    None => {},
                }
                pos = pos + k + 1;
            },
            None => return sid_piece(rest),
        }
    }
}

/// The boundary that a `Content-Type` header names: the text after the
/// first `boundary=` up to a `;`, trimmed of white space and double quotes.
pub open spec fn boundary_of(ct: Seq<char>) -> Option<Seq<char>> {
    match first_occurrence(ct, "boundary="@) {
        None => None,
        Some(b) => {
            let rest = ct.skip(b + "boundary="@.len());
            let cut = match first_occurrence(rest, seq![';']) {
                Some(s) => rest.take(s),
                None => rest,
            };
            Some(trim_by(trim(cut), Strip::Only('"')))
        },
    }
}

/// The multipart boundary in a `Content-Type` header.
pub fn multipart_boundary(content_type: &str) -> (r: Option<String>)
    ensures
        match r {
            Some(v) => boundary_of(content_type@) == Some(v@),
            None => boundary_of(content_type@) is None,
        },
{
    let cs = chars_of(content_type);
    let key = chars_of("boundary=");
    let b = match find_chars(cs.as_slice(), key.as_slice()) {
        None => return None,
        Some(b) => b,
    };
    proof {
        lemma_first_occurrence(cs@, key@);
    }
    let n = cs.len();
    let rest = &cs.as_slice()[b + key.len()..n];
    assert(rest@ =~= cs@.skip(b + key@.len()));
    let cut: &[char] = match crate::text::find_char(rest, ';') {
        Some(s) => {
            proof {
                lemma_first_occurrence(rest@, seq![';']);
            }
            let c = &rest[0..s];
            assert(c@ =~= rest@.take(s as int));
            c
        },
        None => rest,
    };
    let (x, y) = trim_bounds(cut, Strip::Space);
    let t = &cut[x..y];
    let (u, w) = trim_bounds(t, Strip::Only('"'));
    Some(string_of(&t[u..w]))
}

/// A character that may stay in a stored file name.
pub open spec fn name_char(c: char) -> bool {
    ('a' <= c <= 'z') || ('A' <= c <= 'Z') || ('0' <= c <= '9') || c == '-' || c == '_' || c == '.'
}

/// The characters of `s` that may stay in a file name, in order.
pub open spec fn sanitized(s: Seq<char>) -> Seq<char>
    decreases s.len(),
{
    if s.len() == 0 {
        s
    } else if name_char(s.last()) {
        sanitized(s.drop_last()).push(s.last())
    } else {
        sanitized(s.drop_last())
    }
}

/// `name` with every character dropped but ASCII letters, digits, `-`, `_` and `.`.
pub fn sanitize(name: &str) -> (r: String)
    ensures
        r@ == sanitized(name@),
{
    let cs = chars_of(name);
    let mut out: Vec<char> = Vec::new();
    let mut i: usize = 0;
    while i < cs.len()
        invariant
            i <= cs@.len(),
            cs@ == name@,
            out@ == sanitized(cs@.take(i as int)),
        decreases cs.len() - i,
    {
        let c = cs[i];
        assert(cs@.take(i + 1).drop_last() =~= cs@.take(i as int));
        if ('a' <= c && c <= 'z') || ('A' <= c && c <= 'Z') || ('0' <= c && c <= '9') || c == '-'
            || c == '_' || c == '.' {
            out.push(c);
        }
        i = i + 1;
    }
    assert(cs@.take(cs@.len() as int) =~= cs@);
    string_of(out.as_slice())
}

} // verus!

verus! {

/// `a`, `b` and `c` joined.
pub fn concat3(a: &str, b: &str, c: &str) -> (r: String)
    ensures
        r@ == a@ + b@ + c@,
{
    let mut v = chars_of(a);
    let mut w = chars_of(b);
    let mut x = chars_of(c);
    v.append(&mut w);
    v.append(&mut x);
    string_of(v.as_slice())
}

/// The `Set-Cookie` value that hands out a session id.
pub open spec fn cookie_value(sid: Seq<char>) -> Seq<char> {
    "SID="@ + sid + "; Path=/; HttpOnly"@
}

/// The `Set-Cookie` value that hands out a session id with a CGI response.
pub open spec fn cgi_cookie_value(sid: Seq<char>) -> Seq<char> {
    "SID="@ + sid + "; HttpOnly; Path=/"@
}

/// The response with a `Set-Cookie` header for session `sid`.
pub fn with_cookie(resp: Response, sid: &str) -> (r: Response)
    ensures
        r.code == resp.code,
        r.reason@ == resp.reason@,
        r.headers@ == insert_entry(resp.headers@, "Set-Cookie"@, cookie_value(sid@)),
        r.body@ == resp.body@,
{
    let v = concat3("SID=", sid, "; Path=/; HttpOnly");
    resp.set_header("Set-Cookie", v.as_str())
}

/// The response of a CGI script with a `Set-Cookie` header for session `sid`.
pub fn with_cgi_cookie(resp: Response, sid: &str) -> (r: Response)
    ensures
        r.code == resp.code,
        r.reason@ == resp.reason@,
        r.headers@ == insert_entry(resp.headers@, "Set-Cookie"@, cgi_cookie_value(sid@)),
        r.body@ == resp.body@,
{
    let v = concat3("SID=", sid, "; HttpOnly; Path=/");
    resp.set_header("Set-Cookie", v.as_str())
}

/// The response with a `Date` header, unless it has one.
pub fn with_date(resp: Response, date: &str) -> (r: Response)
    ensures
        r.code == resp.code,
        r.reason@ == resp.reason@,
        r.headers@ == (if has_key(resp.headers@, "Date"@) {
            resp.headers@
        } else {
            insert_entry(resp.headers@, "Date"@, date@)
        }),
        r.body@ == resp.body@,
{
    let mut r = resp;
    r.headers.insert_if_absent("Date".to_owned(), date.to_owned());
    r
}

/// The response that redirects to `to` with status `status`.
pub fn redirect_response(status: u16, to: &str) -> (r: Response)
    ensures
        r.code == status,
        r.reason@ == ""@,
        r.headers@ == insert_entry(Seq::empty(), "Location"@, to@),
        r.body@ == Seq::<u8>::empty(),
{
    Response::new(status, "").set_header("Location", to)
}

/// The path of the error page configured for `code`, if any.
pub fn error_page_path(scfg: &ServerCfg, code: u16) -> (r: Option<String>)
    ensures
        match r {
            Some(p) => lookup(scfg.error_pages@, crate::text::dec_chars(code as nat)) == Some(p@),
            None => lookup(scfg.error_pages@, crate::text::dec_chars(code as nat)) is None,
        },
{
    let key = crate::text::decimal_string(code as u64);
    match scfg.error_pages.get(key.as_str()) {
        Some(p) => Some(p.to_owned()),
        None => None,
    }
}

/// The error response for `code`: the error page's bytes as HTML when it
/// could be read, an empty body otherwise.
pub fn error_from_cfg(code: u16, page: Option<Vec<u8>>) -> (r: Response)
    ensures
        r.code == code,
        r.reason@ == ""@,
        match page {
            Some(b) => r.headers@ == insert_entry(
                Seq::empty(),
                "Content-Type"@,
                "text/html; charset=utf-8"@,
            ) && r.body@ == b@,
            None => r.headers@ == Seq::<(Seq<char>, Seq<char>)>::empty() && r.body@ == Seq::<u8>::empty(),
        },
{
    match page {
        Some(bytes) => Response::new(code, "").set_header("Content-Type", "text/html; charset=utf-8").set_body(
            bytes,
        ),
        None => Response::new(code, ""),
    }
}

/// The answer to a POST on a route without uploads: the body sent back as JSON.
pub fn echo_response(body: Vec<u8>, sid: &str) -> (r: Response)
    ensures
        r.code == 200,
        r.reason@ == "OK"@,
        r.headers@ == insert_entry(
            insert_entry(Seq::empty(), "Content-Type"@, "application/json"@),
            "Set-Cookie"@,
            cookie_value(sid@),
        ),
        r.body@ == body@,
{
    with_cookie(Response::new(200, "OK").set_header("Content-Type", "application/json"), sid).set_body(body)
}

/// The answer to a successful upload.
pub fn created_response(sid: &str) -> (r: Response)
    ensures
        r.code == 201,
        r.reason@ == "Created"@,
        r.headers@ == insert_entry(Seq::empty(), "Set-Cookie"@, cookie_value(sid@)),
        r.body@ == utf8("uploaded"@),
{
    let mut body: Vec<u8> = Vec::new();
    crate::text::append_str(&mut body, "uploaded");
    with_cookie(Response::new(201, "Created"), sid).set_body(body)
}

/// The answer to a successful DELETE.
pub fn deleted_response(sid: &str) -> (r: Response)
    ensures
        r.code == 200,
        r.reason@ == "OK"@,
        r.headers@ == insert_entry(Seq::empty(), "Set-Cookie"@, cookie_value(sid@)),
        r.body@ == Seq::<u8>::empty(),
{
    with_cookie(Response::new(200, "OK"), sid)
}

} // verus!

verus! {

/// What the checks before a session give, as the contracts see it.
pub enum GateView {
    /// Answer with the error page for this status.
    Error(u16),
    /// Answer with a redirect.
    Redirect(u16, Seq<char>),
    /// Go on with the route at this index.
    Route(int),
}

/// The checks of a request against a server: body size (413), a route
/// (404), the method (405), then a redirect of the route.
pub open spec fn request_gate(scfg: ServerCfg, req: RequestView) -> GateView {
    if scfg.client_max_body_size > 0 && req.body.len() > scfg.client_max_body_size {
        GateView::Error(413)
    } else {
        match best_route(scfg.routes@, req.path) {
            None => GateView::Error(404),
            Some(i) => {
                let r = scfg.routes@[i];
                if !allows(r, req.method) {
                    GateView::Error(405)
                } else {
                    match r.redirect {
                        Some(rd) => GateView::Redirect(rd.status, rd.to@),
                        None => GateView::Route(i),
                    }
                }
            },
        }
    }
}

/// What the checks before a session give.
pub enum Gate<'a> {
    Error(u16),
    Redirect(u16, String),
    Route(MatchedRoute<'a>),
}

/// The checks of a request against a server.
pub fn gate_request<'a>(scfg: &'a ServerCfg, req: &Request) -> (a: Gate<'a>)
    ensures
        match a {
            Gate::Error(c) => request_gate(*scfg, req@) == GateView::Error(c),
            Gate::Redirect(s, t) => request_gate(*scfg, req@) == GateView::Redirect(s, t@),
            Gate::Route(m) => request_gate(*scfg, req@) matches GateView::Route(i) && *m.route
                == scfg.routes@[i] && m.local_path@ == local_path(*m.route, req.path@),
        },
{
    if scfg.client_max_body_size > 0 && req.body.len() > scfg.client_max_body_size {
        return Gate::Error(413);
    }
    let mr = match match_route(scfg, req.path.as_str()) {
        None => return Gate::Error(404),
        Some(m) => m,
    };
    if !allow_method(mr.route, &req.method) {
        return Gate::Error(405);
    }
    match &mr.route.redirect {
        Some(rd) => Gate::Redirect(rd.status, rd.to.clone()),
        None => Gate::Route(mr),
    }
}

/// Facts about the file system that the answer to a request depends on.
pub struct FsFacts {
    /// The local path is a directory.
    pub is_dir: bool,
    /// The local path is a file.
    pub is_file: bool,
    /// For each index file of the route, in order, whether it exists under the local path.
    pub index_present: Vec<bool>,
}

/// How a request is answered once it has a session.
pub enum Action {
    /// Run the CGI script at this path relative to the route root.
    Cgi(String),
    /// Serve this file.
    ServeFile(String),
    /// List the local directory.
    ListDir,
    /// Delete the local file.
    Delete,
    /// Store these files under the local path.
    Upload(Vec<FilePart>),
    /// Answer 400.
    BadRequest,
    /// Send the body back.
    Echo,
    /// Answer with the error page for this status.
    Error(u16),
}

/// An action as the contracts see it.
pub enum ActionView {
    Cgi(Seq<char>),
    ServeFile(Seq<char>),
    ListDir,
    Delete,
    Upload(Seq<FilePartView>),
    BadRequest,
    Echo,
    Error(u16),
}

impl View for Action {
    type V = ActionView;

    open spec fn view(&self) -> ActionView {
        match self {
            Action::Cgi(r) => ActionView::Cgi(r@),
            Action::ServeFile(p) => ActionView::ServeFile(p@),
            Action::ListDir => ActionView::ListDir,
            Action::Delete => ActionView::Delete,
            Action::Upload(fs) => ActionView::Upload(parts_view(fs@)),
            Action::BadRequest => ActionView::BadRequest,
            Action::Echo => ActionView::Echo,
            Action::Error(c) => ActionView::Error(*c),
        }
    }
}

/// The route runs the local path as a CGI script: its extension, after a
/// dot, is the route's CGI extension.
pub open spec fn cgi_applies(route: RouteCfg, local: Seq<char>) -> bool {
    &&& route.cgi matches Some(c)
    &&& path_extension(local) matches Some(e)
    &&& seq!['.'] + e == c.ext@
}

/// The path of a CGI script relative to its route root: the local path with
/// the root taken off (when it is a prefix of it), without leading `/`.
pub open spec fn cgi_rel_of(local: Seq<char>, stripped: Option<Seq<char>>) -> Seq<char> {
    trim_start_by(
        match stripped {
            Some(s) => s,
            None => local,
        },
        Strip::Only('/'),
    )
}

/// The `Content-Type` of a request, empty when it has none.
pub open spec fn content_type(req: RequestView) -> Seq<char> {
    match lookup(req.headers, lower_seq("content-type"@)) {
        Some(v) => v,
        None => ""@,
    }
}

/// The answer to an upload.
pub open spec fn upload_action(req: RequestView) -> ActionView {
    match boundary_of(content_type(req)) {
        None => ActionView::BadRequest,
        Some(b) => match multipart(req.body, b) {
            Multipart::Failed => ActionView::BadRequest,
            Multipart::Parts(ps) => if ps.len() == 0 {
                ActionView::BadRequest
            } else {
                ActionView::Upload(ps)
            },
        },
    }
}

/// How a request on a route is answered: a CGI script by its extension;
/// GET serves a file, a directory's first index file or its listing; DELETE
/// removes a file; POST stores uploads or sends the body back.
pub open spec fn action(
    route: RouteCfg,
    local: Seq<char>,
    req: RequestView,
    is_dir: bool,
    is_file: bool,
    present: Seq<bool>,
) -> ActionView {
    if cgi_applies(route, local) {
        ActionView::Cgi(cgi_rel_of(local, path_strip_prefix(local, route.root@)))
    } else {
        match req.method {
            Method::GET => if is_dir {
                match first_occurrence(present, seq![true]) {
                    Some(i) => ActionView::ServeFile(index_paths(route, local)[i]),
                    None => if route.dir_listing {
                        ActionView::ListDir
                    } else {
                        ActionView::Error(403)
                    },
                }
            } else {
                ActionView::ServeFile(local)
            },
            Method::DELETE => if is_file {
                ActionView::Delete
            } else {
                ActionView::Error(404)
            },
            Method::POST => if route.upload_enabled {
                upload_action(req)
            } else {
                ActionView::Echo
            },
        }
    }
}

/// What `Path::strip_prefix` gives for `path` and `base`, as a string.
pub uninterp spec fn path_strip_prefix(path: Seq<char>, base: Seq<char>) -> Option<Seq<char>>;

/// `std::path::Path::strip_prefix`, its result made a string. Nothing is
/// claimed of the component-wise comparison it makes: its result is named.
#[verifier::external_body]
fn strip_path_prefix(path: &str, base: &str) -> (r: Option<String>)
    ensures
        match r {
            Some(s) => path_strip_prefix(path@, base@) == Some(s@),
            None => path_strip_prefix(path@, base@) is None,
        },
{
    match std::path::Path::new(path).strip_prefix(base) {
        Ok(rest) => Some(rest.to_string_lossy().into_owned()),
        Err(_) => None,
    }
}

/// The characters of an optional string.
pub open spec fn opt_view(o: Option<String>) -> Option<Seq<char>> {
    match o {
        Some(s) => Some(s@),
        None => None,
    }
}

/// The path of a CGI script relative to its route root, given what
/// stripping the root off the local path gave.
pub fn cgi_rel(local: &str, stripped: Option<String>) -> (r: String)
    ensures
        r@ == cgi_rel_of(local@, opt_view(stripped)),
{
    let cs = match stripped {
        Some(s) => chars_of(s.as_str()),
        None => chars_of(local),
    };
    let a = crate::text::trim_start_bound(cs.as_slice(), Strip::Only('/'));
    let n = cs.len();
    let t = &cs.as_slice()[a..n];
    assert(t@ =~= cs@.skip(a as int));
    string_of(t)
}

fn upload_outcome(req: &Request) -> (a: Action)
    ensures
        upload_action(req@) == a@,
{
    let ct = match req.header("content-type") {
        Some(v) => v,
        None => "",
    };
    assert(ct@ == content_type(req@));
    let b = match multipart_boundary(ct) {
        None => return Action::BadRequest,
        Some(b) => b,
    };
    match parse_multipart(req.body.as_slice(), b.as_str()) {
        Err(_) => Action::BadRequest,
        Ok(files) => {
            if files.len() == 0 {
                Action::BadRequest
            } else {
                Action::Upload(files)
            }
        },
    }
}

/// How a request on a route is answered, given the facts about the file system.
pub fn dispatch(route: &RouteCfg, local: &str, req: &Request, facts: &FsFacts) -> (a: Action)
    requires
        facts.index_present@.len() == route.index@.len(),
    ensures
        action(*route, local@, req@, facts.is_dir, facts.is_file, facts.index_present@) == a@,
{
    match &route.cgi {
        Some(c) => {
            let lc = chars_of(local);
            match extension_of(lc.as_slice()) {
                Some(e) => {
                    let mut dotted: Vec<char> = Vec::new();
                    dotted.push('.');
                    let mut e2 = e;
                    dotted.append(&mut e2);
                    let ext = chars_of(c.ext.as_str());
                    let n = ext.len();
                    assert(ext@.subrange(0, n as int) =~= ext@);
                    if dotted.len() == n && crate::text::slice_is(dotted.as_slice(), 0, n, c.ext.as_str()) {
                        assert(dotted@.subrange(0, n as int) =~= dotted@);
                        let stripped = strip_path_prefix(local, route.root.as_str());
                        let ghost sv = opt_view(stripped);
                        assert(sv == path_strip_prefix(local@, route.root@));
                        return Action::Cgi(cgi_rel(local, stripped));
                    }
                    proof {
                        if dotted.len() == n {
                            assert(dotted@.subrange(0, n as int) =~= dotted@);
                        }
                    }
                },
                None => {},
            }
        },
        None => {},
    }
    match req.method {
        Method::GET => {
            if facts.is_dir {
                match resolve_index(route, local, facts.index_present.as_slice()) {
                    Some(p) => return Action::ServeFile(p),
                    None => {
                        if route.dir_listing {
                            return Action::ListDir;
                        }
                        return Action::Error(403);
                    },
                }
            }
            Action::ServeFile(local.to_owned())
        },
        Method::DELETE => {
            if facts.is_file {
                Action::Delete
            } else {
                Action::Error(404)
            }
        },
        Method::POST => {
            if route.upload_enabled {
                upload_outcome(req)
            } else {
                Action::Echo
            }
        },
    }
}

} // verus!

verus! {

/// A served file with the session cookie and a date.
pub fn ok_file_with_cookie(path: &str, read: FileRead, sid: &str, date: &str) -> (r: Response)
    ensures
        ({
            let f = static_file_view(path@, read);
            &&& r.code == f.0
            &&& r.reason@ == f.1
            &&& r.headers@ == dated(insert_entry(f.2, "Set-Cookie"@, cookie_value(sid@)), date@)
            &&& r.body@ == f.3
        }),
{
    with_date(with_cookie(static_file(path, read), sid), date)
}

/// A directory listing with the session cookie and a date.
pub fn dir_with_cookie(url_path: &str, entries: Option<Vec<(String, bool)>>, sid: &str, date: &str) -> (r: Response)
    ensures
        ({
            let l = listing_view(url_path@, entries);
            &&& r.code == l.0
            &&& r.reason@ == l.1
            &&& r.headers@ == dated(insert_entry(l.2, "Set-Cookie"@, cookie_value(sid@)), date@)
            &&& r.body@ == l.3
        }),
{
    with_date(with_cookie(dir_listing_html(url_path, entries), sid), date)
}

/// Headers with a `Date` added unless they have one.
pub open spec fn dated(h: crate::strmap::Entries, date: Seq<char>) -> crate::strmap::Entries {
    if has_key(h, "Date"@) {
        h
    } else {
        insert_entry(h, "Date"@, date)
    }
}

/// Status, reason, headers and body of the response that serves a file.
pub open spec fn static_file_view(path: Seq<char>, read: FileRead) -> (u16, Seq<char>, crate::strmap::Entries, Seq<u8>) {
    match read {
        FileRead::Bytes(b) => (
            200,
            "OK"@,
            insert_entry(Seq::empty(), "Content-Type"@, mime_for(path_extension(path))),
            b@,
        ),
        FileRead::NotFound => (404, "Not Found"@, Seq::empty(), Seq::empty()),
        FileRead::Failed => (403, "Forbidden"@, Seq::empty(), Seq::empty()),
    }
}

/// Status, reason, headers and body of the response that lists a directory.
pub open spec fn listing_view(url_path: Seq<char>, entries: Option<Vec<(String, bool)>>) -> (u16, Seq<char>, crate::strmap::Entries, Seq<u8>) {
    match entries {
        Some(es) => (
            200,
            "OK"@,
            insert_entry(Seq::empty(), "Content-Type"@, "text/html; charset=utf-8"@),
            listing_page(url_path, entries_view(es@)),
        ),
        None => (403, "Forbidden"@, Seq::empty(), Seq::empty()),
    }
}

/// The connections idle for longer than `timeout` at `now`, in order; one
/// last active after `now` (a clock set back) is not idle.
pub open spec fn idle(conns: Seq<(i32, u128)>, now: u128, timeout: u64) -> Seq<i32>
    decreases conns.len(),
{
    if conns.len() == 0 {
        Seq::empty()
    } else {
        let r = idle(conns.drop_last(), now, timeout);
        if conns.last().1 <= now && now - conns.last().1 > timeout {
            r.push(conns.last().0)
        } else {
            r
        }
    }
}

/// The connections (descriptor, last activity) to close at `now`.
pub fn timed_out(conns: &[(i32, u128)], now: u128, timeout_ms: u64) -> (v: Vec<i32>)
    ensures
        v@ == idle(conns@, now, timeout_ms),
{
    let mut v: Vec<i32> = Vec::new();
    let mut i: usize = 0;
    while i < conns.len()
        invariant
            i <= conns@.len(),
            v@ == idle(conns@.take(i as int), now, timeout_ms),
        decreases conns.len() - i,
    {
        assert(conns@.take(i + 1).drop_last() =~= conns@.take(i as int));
        let (fd, last) = conns[i];
        if last <= now && now - last > timeout_ms as u128 {
            v.push(fd);
        }
        i = i + 1;
    }
    assert(conns@.take(conns@.len() as int) =~= conns@);
    v
}

} // verus!

verus! {

proof fn lemma_sanitized_name_chars(s: Seq<char>)
    ensures
        forall|i: int| 0 <= i < sanitized(s).len() ==> name_char(#[trigger] sanitized(s)[i]),
    decreases s.len(),
{
    if s.len() > 0 {
        lemma_sanitized_name_chars(s.drop_last());
        let r = sanitized(s.drop_last());
        assert forall|i: int| 0 <= i < sanitized(s).len() implies name_char(#[trigger] sanitized(s)[i]) by {
            if i < r.len() {
                assert(sanitized(s)[i] == r[i]);
            }
        }
    }
}

proof fn lemma_sanitized_keeps(s: Seq<char>)
    requires
        forall|i: int| 0 <= i < s.len() ==> name_char(#[trigger] s[i]),
    ensures
        sanitized(s) == s,
    decreases s.len(),
{
    if s.len() > 0 {
        lemma_sanitized_keeps(s.drop_last());
        assert(s.drop_last().push(s.last()) =~= s);
    }
}

/// A sanitized name holds only letters, digits, `-`, `_` and `.`, and
/// sanitizing it again changes nothing.
pub proof fn lemma_sanitize(s: Seq<char>)
    ensures
        forall|i: int| 0 <= i < sanitized(s).len() ==> name_char(#[trigger] sanitized(s)[i]),
        sanitized(sanitized(s)) == sanitized(s),
{
    lemma_sanitized_name_chars(s);
    lemma_sanitized_keeps(sanitized(s));
}

/// A `Cookie` header that holds the session cookie as the server sets it
/// gives back the session id.
pub proof fn lemma_cookie_round_trip(sid: Seq<char>)
    requires
        forall|i: int| 0 <= i < sid.len() ==> #[trigger] sid[i] != ';' && !crate::text::is_ws(sid[i]),
    ensures
        sid_in_pieces("SID="@ + sid) == Some(sid),
{
    reveal_strlit("SID=");
    let c = "SID="@ + sid;
    assert forall|j: int| !crate::search::occurs_at(c, seq![';'], j) by {
        if crate::search::occurs_at(c, seq![';'], j) {
            assert(c.subrange(j, j + 1)[0] == c[j]);
            if j >= 4 {
                assert(c[j] == sid[j - 4]);
            }
        }
    }
    crate::search::lemma_first_occurrence_unique(c, seq![';'], None);
    assert(!crate::text::is_ws(c[0]));
    assert(crate::text::trim_start_by(c, Strip::Space) == c);
    assert(!crate::text::is_ws(c.last())) by {
        if sid.len() > 0 {
            assert(c.last() == sid[sid.len() - 1]);
        }
    }
    assert(trim(c) == c);
    assert(c.take(4) =~= "SID="@);
    assert(c.skip(4) =~= sid);
}

} // verus!

verus! {

/// Among the first `k` server sections, the index of the last one that
/// lists `port`.
pub open spec fn server_index(servers: Seq<crate::config::ServerCfg>, k: int, port: u16) -> Option<int>
    decreases k,
{
    if k <= 0 {
        None
    } else if servers[k - 1].ports@.contains(port) {
        Some(k - 1)
    } else {
        server_index(servers, k - 1, port)
    }
}

fn lists_port(ports: &Vec<u16>, port: u16) -> (b: bool)
    ensures
        b == ports@.contains(port),
{
    let mut i: usize = 0;
    while i < ports.len()
        invariant
            i <= ports@.len(),
            forall|j: int| 0 <= j < i ==> ports@[j] != port,
        decreases ports.len() - i,
    {
        if ports[i] == port {
            return true;
        }
        i = i + 1;
    }
    false
}

/// The server section that serves connections on `port`: the last one that
/// lists it.
pub fn server_for_port(cfg: &crate::config::Config, port: u16) -> (r: Option<&crate::config::ServerCfg>)
    ensures
        match r {
            Some(sc) => server_index(cfg.servers@, cfg.servers@.len() as int, port) matches Some(i)
                && *sc == cfg.servers@[i],
            None => server_index(cfg.servers@, cfg.servers@.len() as int, port) is None,
        },
{
    let mut i = cfg.servers.len();
    while i > 0
        invariant
            i <= cfg.servers@.len(),
            server_index(cfg.servers@, cfg.servers@.len() as int, port) == server_index(
                cfg.servers@,
                i as int,
                port,
            ),
        decreases i,
    {
        if lists_port(&cfg.servers[i - 1].ports, port) {
            return Some(&cfg.servers[i - 1]);
        }
        i = i - 1;
    }
    None
}

/// The answer when no server section serves the port a request came on.
pub fn server_error() -> (r: Response)
    ensures
        r.code == 500,
        r.reason@ == "Internal Server Error"@,
        r.headers@ == Seq::<(Seq<char>, Seq<char>)>::empty(),
        r.body@ == Seq::<u8>::empty(),
{
    Response::new(500, "Internal Server Error")
}

} // verus!

verus! {

/// The size limit answers 413 exactly when the server sets a limit and the
/// body exceeds it; a server that sets no limit (0) never answers 413.
pub proof fn lemma_body_limit(scfg: ServerCfg, req: RequestView)
    ensures
        (request_gate(scfg, req) == GateView::Error(413)) <==> (scfg.client_max_body_size > 0
            && req.body.len() > scfg.client_max_body_size),
        scfg.client_max_body_size == 0 ==> request_gate(scfg, req) != GateView::Error(413),
{
    match best_route(scfg.routes@, req.path) {
        Some(i) => {
            let r = scfg.routes@[i];
            match r.redirect {
                Some(rd) => {},
                None => {},
            }
        },
        None => {},
    }
}

/// A local path whose extension, after a dot, is the route's CGI extension
/// runs the script, whatever the request's method, body or headers, and
/// whatever the file system holds.
pub proof fn lemma_cgi_any_method(
    route: RouteCfg,
    local: Seq<char>,
    req: RequestView,
    is_dir: bool,
    is_file: bool,
    present: Seq<bool>,
    c: crate::config::CgiCfg,
    e: Seq<char>,
)
    requires
        route.cgi == Some(c),
        path_extension(local) == Some(e),
        seq!['.'] + e == c.ext@,
    ensures
        action(route, local, req, is_dir, is_file, present) is Cgi,
{
}

/// A session cookie after another cookie is found: for a first cookie that
/// holds no `;` and is not the session cookie, and an id without `;` or
/// white space, the header `a; SID=id` gives `id`.
pub proof fn lemma_cookie_after_other(a: Seq<char>, sid: Seq<char>)
    requires
        forall|i: int| 0 <= i < a.len() ==> #[trigger] a[i] != ';',
        !is_prefix("SID="@, trim(a)),
        forall|i: int| 0 <= i < sid.len() ==> #[trigger] sid[i] != ';' && !crate::text::is_ws(sid[i]),
    ensures
        sid_in_pieces(a + "; SID="@ + sid) == Some(sid),
{
    reveal_strlit("; SID=");
    reveal_strlit("SID=");
    let c = a + "; SID="@ + sid;
    let k = a.len() as int;
    assert(c[k] == ';');
    assert(c.subrange(k, k + 1) =~= seq![';']);
    assert forall|j: int| 0 <= j < k implies !crate::search::occurs_at(c, seq![';'], j) by {
        if crate::search::occurs_at(c, seq![';'], j) {
            assert(c.subrange(j, j + 1)[0] == c[j]);
            assert(c[j] == a[j]);
        }
    }
    crate::search::lemma_first_occurrence_unique(c, seq![';'], Some(k));
    assert(c.take(k) =~= a);
    let rest = c.skip(k + 1);
    let t = "SID="@ + sid;
    assert(rest =~= seq![' '] + t);
    assert forall|j: int| !crate::search::occurs_at(rest, seq![';'], j) by {
        if crate::search::occurs_at(rest, seq![';'], j) {
            assert(rest.subrange(j, j + 1)[0] == rest[j]);
            if j >= 5 {
                assert(rest[j] == sid[j - 5]);
            }
        }
    }
    crate::search::lemma_first_occurrence_unique(rest, seq![';'], None);
    assert(crate::text::is_ws(rest[0]));
    assert(rest.drop_first() =~= t);
    assert(!crate::text::is_ws(t[0]));
    assert(trim_start_by(t, Strip::Space) == t);
    assert(trim_start_by(rest, Strip::Space) == t);
    assert(!crate::text::is_ws(t.last())) by {
        if sid.len() > 0 {
            assert(t.last() == sid[sid.len() - 1]);
        }
    }
    assert(trim(rest) == t);
    assert(t.take(4) =~= "SID="@);
    assert(t.skip(4) =~= sid);
    assert(sid_in_piece(c.take(k)) is None);
    assert(is_prefix("SID="@, trim(rest)));
    assert(sid_in_piece(rest) == Some(sid));
    assert(sid_in_pieces(rest) == Some(sid));
}

} // verus!
