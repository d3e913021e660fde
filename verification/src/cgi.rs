//! CGI: the environment a script gets and the response made of its output.

use vstd::prelude::*;
use crate::http::{Request, Response, RequestView, add_header_lines, read_header_lines};
use crate::strmap::{StrMap, lookup};
use crate::search::{first_occurrence, lemma_first_occurrence};
use crate::text::{chars_of, string_of, lower_seq, utf8};
use crate::router::{method_name, path_join};

verus! {

/// What `String::from_utf8_lossy` gives for a byte sequence.
pub uninterp spec fn lossy_utf8(b: Seq<u8>) -> Seq<char>;

/// `String::from_utf8_lossy`, made an owned string. The contract claims what
/// std documents: valid UTF-8 is decoded as it is; the replacement of
/// invalid sequences is left to the name.
#[verifier::external_body]
fn utf8_lossy(b: &[u8]) -> (s: String)
    ensures
        s@ == lossy_utf8(b@),
        vstd::utf8::valid_utf8(b@) ==> s@ == vstd::utf8::decode_utf8(b@),
{
    String::from_utf8_lossy(b).into_owned()
}

/// The head and body of a script's output: split at the first blank line,
/// or all body under a plain-text content type.
pub open spec fn cgi_split(txt: Seq<char>) -> (Seq<char>, Seq<char>) {
    match first_occurrence(txt, seq!['\r', '\n', '\r', '\n']) {
        Some(p) => (txt.take(p), txt.skip(p + 4)),
        None => ("Content-Type: text/plain"@, txt),
    }
}

/// The response made of a script's output text: status 200, the head's
/// `Name: value` lines as headers (names as written), the rest as body.
pub open spec fn cgi_view(txt: Seq<char>) -> (crate::strmap::Entries, Seq<u8>) {
    let (head, body) = cgi_split(txt);
    (add_header_lines(Seq::empty(), head, false), utf8(body))
}

/// The response made of a script's output, read as text.
pub fn cgi_response_from_text(txt: &str) -> (r: Response)
    ensures
        r.code == 200,
        r.reason@ == "OK"@,
        (r.headers@, r.body@) == cgi_view(txt@),
{
    let cs = chars_of(txt);
    let sep = ['\r', '\n', '\r', '\n'];
    assert(sep@ =~= seq!['\r', '\n', '\r', '\n']);
    let n = cs.len();
    let (head, body): (Vec<char>, Vec<char>) = match crate::text::find_chars(cs.as_slice(), &sep) {
        Some(p) => {
            proof {
                lemma_first_occurrence(cs@, sep@);
            }
            let mut h: Vec<char> = Vec::new();
            let mut b: Vec<char> = Vec::new();
            push_all(&mut h, &cs.as_slice()[0..p]);
            push_all(&mut b, &cs.as_slice()[p + 4..n]);
            assert(h@ =~= cs@.take(p as int));
            assert(b@ =~= cs@.skip(p + 4));
            (h, b)
        },
        None => (chars_of("Content-Type: text/plain"), cs),
    };
    let mut resp = Response::new(200, "OK");
    let mut headers = StrMap::new();
    assert(head@.skip(0) =~= head@);
    read_header_lines(&mut headers, head.as_slice(), 0, false);
    resp.headers = headers;
    let mut bytes: Vec<u8> = Vec::new();
    let bs = string_of(body.as_slice());
    crate::text::append_str(&mut bytes, bs.as_str());
    resp.body = bytes;
    assert(bytes@ =~= utf8(body@));
    resp
}

fn push_all(v: &mut Vec<char>, s: &[char])
    ensures
        final(v)@ == old(v)@ + s@,
{
    let mut i: usize = 0;
    while i < s.len()
        invariant
            i <= s@.len(),
            v@ == old(v)@ + s@.take(i as int),
        decreases s.len() - i,
    {
        v.push(s[i]);
        i = i + 1;
        assert(v@ =~= old(v)@ + s@.take(i as int));
    }
    assert(s@.take(s@.len() as int) =~= s@);
}

/// The response made of what a CGI script wrote to its standard output.
pub fn cgi_response(stdout: &[u8]) -> (r: Response)
    ensures
        r.code == 200,
        r.reason@ == "OK"@,
        (r.headers@, r.body@) == cgi_view(lossy_utf8(stdout@)),
{
    let txt = utf8_lossy(stdout);
    cgi_response_from_text(txt.as_str())
}

/// The path of a CGI script: its path relative to the route root, under that root.
pub fn cgi_script_path(route_root: &str, rel_path: &str) -> (p: String)
    ensures
        p@ == path_join(route_root@, rel_path@),
{
    crate::router::join_strs(route_root, rel_path)
}

/// The environment of a CGI script: method, script path, and the request's
/// content type and length when it has them.
pub open spec fn cgi_env_view(req: RequestView, script: Seq<char>) -> Seq<(Seq<char>, Seq<char>)> {
    let base = seq![("REQUEST_METHOD"@, method_name(req.method)), ("PATH_INFO"@, script)];
    let with_ct = match lookup(req.headers, lower_seq("content-type"@)) {
        Some(v) => base.push(("CONTENT_TYPE"@, v)),
        None => base,
    };
    match lookup(req.headers, lower_seq("content-length"@)) {
        Some(v) => with_ct.push(("CONTENT_LENGTH"@, v)),
        None => with_ct,
    }
}

/// The character sequences of a list of string pairs.
pub open spec fn pairs_view(v: Seq<(String, String)>) -> Seq<(Seq<char>, Seq<char>)> {
    Seq::new(v.len(), |i: int| (v[i].0@, v[i].1@))
}

/// The environment variables to set for a CGI script.
pub fn cgi_env(req: &Request, script_path: &str) -> (env: Vec<(String, String)>)
    ensures
        pairs_view(env@) == cgi_env_view(req@, script_path@),
{
    let mut env: Vec<(String, String)> = Vec::new();
    let name = match req.method {
        crate::http::Method::GET => "GET",
        crate::http::Method::POST => "POST",
        crate::http::Method::DELETE => "DELETE",
    };
    env.push(("REQUEST_METHOD".to_owned(), name.to_owned()));
    env.push(("PATH_INFO".to_owned(), script_path.to_owned()));
    let ghost base = pairs_view(env@);
    assert(base =~= seq![("REQUEST_METHOD"@, method_name(req.method)), ("PATH_INFO"@, script_path@)]);
    match req.header("content-type") {
        Some(ct) => {
            let ghost b = env@;
            env.push(("CONTENT_TYPE".to_owned(), ct.to_owned()));
            assert(pairs_view(env@) =~= pairs_view(b).push(("CONTENT_TYPE"@, ct@)));
        },
        None => {},
    }
    let ghost mid = pairs_view(env@);
    match req.header("content-length") {
        Some(cl) => {
            let ghost b = env@;
            env.push(("CONTENT_LENGTH".to_owned(), cl.to_owned()));
            assert(pairs_view(env@) =~= pairs_view(b).push(("CONTENT_LENGTH"@, cl@)));
        },
        None => {},
    }
    env
}

} // verus!
