//! What the parsers give back for messages written in the usual shape: a
//! request whose head names its body's length, a request with a chunked
//! body, and a multipart body that carries one file.

use vstd::prelude::*;
use crate::http::fresh;
use crate::text::{trim_start_by, trim_end_by, Strip, utf8, is_ws, tokens, word_len, digit_value, digits_value, all_digits, parse_uint, dec_chars};

verus! {

/// Every character of `s` is ASCII.
pub open spec fn ascii(s: Seq<char>) -> bool {
    forall|i: int| 0 <= i < s.len() ==> (#[trigger] s[i] as u32) < 128
}

/// An ASCII text is encoded one byte per character, each byte the character's code.
pub proof fn lemma_utf8_ascii(s: Seq<char>)
    requires
        ascii(s),
    ensures
        utf8(s).len() == s.len(),
        forall|i: int| 0 <= i < s.len() ==> (#[trigger] utf8(s)[i]) as u32 == s[i] as u32,
    decreases s.len(),
{
    if s.len() > 0 {
        let v = s[0] as u32;
        assert(v < 128);
        assert(v <= 0x7F ==> (v & 0x7F) == v) by (bit_vector);
        lemma_utf8_ascii(s.drop_first());
        let e = utf8(s);
        assert(e == seq![((v & 0x7F) as u8)] + utf8(s.drop_first()));
        assert forall|i: int| 0 <= i < s.len() implies (#[trigger] utf8(s)[i]) as u32 == s[i] as u32 by {
            if i > 0 {
                assert(utf8(s)[i] == utf8(s.drop_first())[i - 1]);
                assert(s.drop_first()[i - 1] == s[i]);
            }
        }
    }
}

/// The hexadecimal digits of `n`, in lower case.
pub open spec fn hex_chars(n: nat) -> Seq<char>
    decreases n,
{
    if n < 16 {
        seq![hex_digit(n)]
    } else {
        hex_chars(n / 16).push(hex_digit(n % 16))
    }
}

/// The lower-case hexadecimal digit of `d`.
pub open spec fn hex_digit(d: nat) -> char {
    if d < 10 {
        ((48 + d) as u8) as char
    } else {
        ((87 + d) as u8) as char
    }
}

proof fn lemma_digits_push(s: Seq<char>, c: char, radix: nat)
    ensures
        digits_value(s.push(c), radix) == digits_value(s, radix) * radix + digit_value(c),
{
    assert(s.push(c).drop_last() =~= s);
}

/// The decimal digits of `n` read back as `n`.
pub proof fn lemma_dec_chars(n: nat)
    ensures
        dec_chars(n).len() > 0,
        all_digits(dec_chars(n), 10),
        digits_value(dec_chars(n), 10) == n,
        forall|i: int| 0 <= i < dec_chars(n).len() ==> 48 <= (#[trigger] dec_chars(n)[i]) as u32 <= 57,
    decreases n,
{
    if n < 10 {
        let c = ((48 + n) as u8) as char;
        assert(c as u32 == 48 + n);
        assert(dec_chars(n) =~= Seq::<char>::empty().push(c));
        lemma_digits_push(Seq::empty(), c, 10);
    } else {
        lemma_dec_chars(n / 10);
        let c = ((48 + n % 10) as u8) as char;
        assert(c as u32 == 48 + n % 10);
        lemma_digits_push(dec_chars(n / 10), c, 10);
        let s = dec_chars(n);
        assert forall|i: int| 0 <= i < s.len() implies 48 <= (#[trigger] s[i]) as u32 <= 57 by {
            if i < s.len() - 1 {
                assert(s[i] == dec_chars(n / 10)[i]);
            }
        }
    }
}

/// The hexadecimal digits of `n` read back as `n`.
pub proof fn lemma_hex_chars(n: nat)
    ensures
        hex_chars(n).len() > 0,
        all_digits(hex_chars(n), 16),
        digits_value(hex_chars(n), 16) == n,
        forall|i: int|
            0 <= i < hex_chars(n).len() ==> {
                let u = (#[trigger] hex_chars(n)[i]) as u32;
                (48 <= u <= 57) || (97 <= u <= 102)
            },
    decreases n,
{
    if n < 16 {
        let c = hex_digit(n);
        assert(c as u32 == if n < 10 { 48 + n } else { 87 + n });
        assert(hex_chars(n) =~= Seq::<char>::empty().push(c));
        lemma_digits_push(Seq::empty(), c, 16);
    } else {
        lemma_hex_chars(n / 16);
        let c = hex_digit(n % 16);
        assert(c as u32 == if n % 16 < 10 { 48 + n % 16 } else { 87 + n % 16 });
        lemma_digits_push(hex_chars(n / 16), c, 16);
        let s = hex_chars(n);
        assert forall|i: int| 0 <= i < s.len() implies {
            let u = (#[trigger] s[i]) as u32;
            (48 <= u <= 57) || (97 <= u <= 102)
        } by {
            if i < s.len() - 1 {
                assert(s[i] == hex_chars(n / 16)[i]);
            }
        }
    }
}

/// A number written in decimal parses back to itself.
pub proof fn lemma_parse_dec(n: nat)
    requires
        n <= usize::MAX,
    ensures
        parse_uint(dec_chars(n), 10) == Some(n),
{
    lemma_dec_chars(n);
    assert(dec_chars(n)[0] != '+');
}

/// A number written in hexadecimal parses back to itself.
pub proof fn lemma_parse_hex(n: nat)
    requires
        n <= usize::MAX,
    ensures
        parse_uint(hex_chars(n), 16) == Some(n),
{
    lemma_hex_chars(n);
    assert(hex_chars(n)[0] != '+');
}

/// A printable ASCII character other than the space.
pub open spec fn graphic(c: char) -> bool {
    33 <= c as u32 <= 126
}

/// Every character of `s` is printable ASCII other than the space.
pub open spec fn all_graphic(s: Seq<char>) -> bool {
    forall|i: int| 0 <= i < s.len() ==> graphic(#[trigger] s[i])
}

proof fn lemma_tokens_word(w: Seq<char>, rest: Seq<char>)
    requires
        w.len() > 0,
        all_graphic(w),
        rest.len() == 0 || is_ws(rest[0]),
    ensures
        tokens(w + rest) == seq![w] + tokens(rest),
{
    let s = w + rest;
    assert forall|i: int| 0 <= i < w.len() implies !is_ws(s[i]) by {
        assert(s[i] == w[i]);
        assert(graphic(w[i]));
    }
    if rest.len() > 0 {
        assert(s[w.len() as int] == rest[0]);
    }
    crate::text::lemma_word_len_exact(s, w.len() as int);
    assert(word_len(s) == w.len());
    assert(!is_ws(s[0]));
    assert(s.take(w.len() as int) =~= w);
    assert(s.skip(w.len() as int) =~= rest);
}

proof fn lemma_tokens_space(r: Seq<char>)
    ensures
        tokens(seq![' '] + r) == tokens(r),
{
    let s = seq![' '] + r;
    assert(is_ws(s[0]));
    assert(s.drop_first() =~= r);
}

/// The start line `METHOD PATH HTTP/1.1` reads back as its method, path and version.
pub proof fn lemma_start_line(m: crate::http::Method, path: Seq<char>)
    requires
        path.len() > 0,
        all_graphic(path),
    ensures
        crate::http::start_line(crate::router::method_name(m) + " "@ + path + " HTTP/1.1"@) == Ok::<
            (crate::http::Method, Seq<char>, Seq<char>),
            crate::http::HttpError,
        >((m, path, "HTTP/1.1"@)),
{
    reveal_strlit("GET");
    reveal_strlit("POST");
    reveal_strlit("DELETE");
    reveal_strlit(" ");
    reveal_strlit(" HTTP/1.1");
    reveal_strlit("HTTP/1.1");
    let w = crate::router::method_name(m);
    let v = "HTTP/1.1"@;
    let s = w + " "@ + path + " HTTP/1.1"@;
    assert(s =~= w + (seq![' '] + (path + (seq![' '] + (v + Seq::empty())))));
    assert(all_graphic(w));
    assert(all_graphic(v));
    lemma_tokens_word(w, seq![' '] + (path + (seq![' '] + (v + Seq::empty()))));
    lemma_tokens_space(path + (seq![' '] + (v + Seq::empty())));
    lemma_tokens_word(path, seq![' '] + (v + Seq::empty()));
    lemma_tokens_space(v + Seq::empty());
    lemma_tokens_word(v, Seq::empty());
    assert(tokens(Seq::<char>::empty()) =~= Seq::<Seq<char>>::empty());
    assert(tokens(s) =~= seq![w, path, v]);
    assert(crate::http::method_of(w) == Some(m));
}

proof fn lemma_trim_graphic(s: Seq<char>)
    requires
        s.len() > 0,
        all_graphic(s),
    ensures
        crate::text::trim(s) == s,
        crate::text::trim(seq![' '] + s) == s,
{
    assert(graphic(s[0]) && graphic(s.last()));
    assert(trim_start_by(s, Strip::Space) == s);
    assert(trim_end_by(s, Strip::Space) == s);
    let t = seq![' '] + s;
    assert(t.drop_first() =~= s);
    assert(trim_start_by(t, Strip::Space) == trim_start_by(s, Strip::Space));
}

/// `needle` occurs in `hay` exactly at `k` and nowhere before.
proof fn lemma_first_at<T>(hay: Seq<T>, needle: Seq<T>, k: int)
    requires
        0 <= k,
        k + needle.len() <= hay.len(),
        hay.subrange(k, k + needle.len()) == needle,
        needle.len() > 0,
        forall|j: int| 0 <= j < k ==> hay[j] != needle[0],
    ensures
        crate::search::first_occurrence(hay, needle) == Some(k),
{
    assert forall|j: int| 0 <= j < k implies !crate::search::occurs_at(hay, needle, j) by {
        if crate::search::occurs_at(hay, needle, j) {
            assert(hay.subrange(j, j + needle.len())[0] == hay[j]);
        }
    }
    crate::search::lemma_first_occurrence_unique(hay, needle, Some(k));
}

/// `needle` does not occur in `hay`: its first element never does.
proof fn lemma_first_none<T>(hay: Seq<T>, needle: Seq<T>)
    requires
        needle.len() > 0,
        forall|j: int| 0 <= j < hay.len() ==> hay[j] != needle[0],
    ensures
        crate::search::first_occurrence(hay, needle) is None,
{
    assert forall|j: int| !crate::search::occurs_at(hay, needle, j) by {
        if crate::search::occurs_at(hay, needle, j) {
            assert(hay.subrange(j, j + needle.len())[0] == hay[j]);
        }
    }
    crate::search::lemma_first_occurrence_unique(hay, needle, None);
}

/// The header line `NAME: VALUE` gives one header, its name in lower case.
pub proof fn lemma_header_line(name: Seq<char>, value: Seq<char>)
    requires
        name.len() > 0,
        all_graphic(name),
        forall|i: int| 0 <= i < name.len() ==> #[trigger] name[i] != ':',
        value.len() > 0,
        all_graphic(value),
    ensures
        crate::http::add_header_lines(Seq::empty(), name + ": "@ + value, true) == seq![
            (crate::text::lower_seq(name), value),
        ],
{
    reveal_strlit(": ");
    let line = name + ": "@ + value;
    let k = name.len() as int;
    assert(line =~= name + (seq![':'] + (seq![' '] + value)));
    assert forall|j: int| 0 <= j < line.len() implies line[j] != '\r' by {
        if j < k {
            assert(graphic(name[j]));
        } else if j >= k + 2 {
            assert(line[j] == value[j - k - 2]);
            assert(graphic(value[j - k - 2]));
        }
    }
    lemma_first_none(line, crate::http::crlf());
    assert(line.subrange(k, k + 1) =~= seq![':']);
    lemma_first_at(line, seq![':'], k);
    assert(line.take(k) =~= name);
    assert(line.skip(k + 1) =~= seq![' '] + value);
    lemma_trim_graphic(name);
    lemma_trim_graphic(value);
    let e: crate::strmap::Entries = Seq::empty();
    assert(!crate::strmap::has_key(e, crate::text::lower_seq(name)));
    assert(e.push((crate::text::lower_seq(name), value)) =~= seq![(crate::text::lower_seq(name), value)]);
}

/// Every character of `s` is printable ASCII, the space included.
pub open spec fn printable(s: Seq<char>) -> bool {
    forall|i: int| 0 <= i < s.len() ==> 32 <= (#[trigger] s[i]) as u32 <= 126
}

proof fn lemma_printable_concat(a: Seq<char>, b: Seq<char>)
    requires
        printable(a),
        printable(b),
    ensures
        printable(a + b),
{
    assert forall|i: int| 0 <= i < (a + b).len() implies 32 <= (#[trigger] (a + b)[i]) as u32 <= 126 by {
        if i < a.len() {
            assert((a + b)[i] == a[i]);
        } else {
            assert((a + b)[i] == b[i - a.len()]);
        }
    }
}

/// The start line of a request: method, path and version `HTTP/1.1`.
pub open spec fn start_text(m: crate::http::Method, path: Seq<char>) -> Seq<char> {
    crate::router::method_name(m) + " "@ + path + " HTTP/1.1"@
}

/// A request head of a start line and one header line `NAME: VALUE`.
pub open spec fn request_head(m: crate::http::Method, path: Seq<char>, name: Seq<char>, value: Seq<char>) -> Seq<char> {
    start_text(m, path) + "\r\n"@ + name + ": "@ + value
}

/// The bytes of a request: its head, a blank line, and then `rest`.
pub open spec fn request_bytes(
    m: crate::http::Method,
    path: Seq<char>,
    name: Seq<char>,
    value: Seq<char>,
    rest: Seq<u8>,
) -> Seq<u8> {
    utf8(request_head(m, path, name, value)) + crate::http::head_end() + rest
}

/// What the first step of the parser learns from such a head.
proof fn lemma_head(
    m: crate::http::Method,
    path: Seq<char>,
    name: Seq<char>,
    value: Seq<char>,
    rest: Seq<u8>,
)
    requires
        path.len() > 0,
        all_graphic(path),
        name.len() > 0,
        all_graphic(name),
        forall|i: int| 0 <= i < name.len() ==> #[trigger] name[i] != ':',
        value.len() > 0,
        all_graphic(value),
    ensures
        ({
            let head = request_head(m, path, name, value);
            let buf = request_bytes(m, path, name, value, rest);
            let n = utf8(head).len() as int;
            &&& crate::search::first_occurrence(buf, crate::http::head_end()) == Some(n)
            &&& buf.take(n) == utf8(head)
            &&& buf.skip(n + 4) == rest
            &&& vstd::utf8::valid_utf8(utf8(head))
            &&& vstd::utf8::decode_utf8(utf8(head)) == head
            &&& crate::http::first_line(head) == start_text(m, path)
            &&& crate::http::head_headers(Seq::empty(), head) == seq![(crate::text::lower_seq(name), value)]
        }),
{
    reveal_strlit("GET");
    reveal_strlit("POST");
    reveal_strlit("DELETE");
    reveal_strlit(" ");
    reveal_strlit(" HTTP/1.1");
    reveal_strlit("\r\n");
    reveal_strlit(": ");
    let w = crate::router::method_name(m);
    let start = start_text(m, path);
    let hl = name + ": "@ + value;
    let head = request_head(m, path, name, value);
    assert(head =~= start + (seq!['\r', '\n'] + hl));
    assert(printable(w));
    assert(printable(" "@));
    assert(printable(" HTTP/1.1"@));
    assert(printable(": "@));
    assert(printable(path));
    assert(printable(name));
    assert(printable(value));
    lemma_printable_concat(w, " "@);
    lemma_printable_concat(w + " "@, path);
    lemma_printable_concat(w + " "@ + path, " HTTP/1.1"@);
    lemma_printable_concat(name, ": "@);
    lemma_printable_concat(name + ": "@, value);
    let p = start.len() as int;
    let l = head.len() as int;
    assert(ascii(head)) by {
        assert forall|i: int| 0 <= i < head.len() implies (#[trigger] head[i] as u32) < 128 by {
            if i < p {
                assert(head[i] == start[i]);
            } else if i >= p + 2 {
                assert(head[i] == hl[i - p - 2]);
            }
        }
    }
    lemma_utf8_ascii(head);
    vstd::utf8::encode_utf8_valid_utf8(head);
    vstd::utf8::encode_utf8_decode_utf8(head);
    let e = utf8(head);
    let buf = request_bytes(m, path, name, value, rest);
    assert(buf.take(l) =~= e);
    assert(buf.skip(l + 4) =~= rest);
    assert(buf.subrange(l, l + 4) =~= crate::http::head_end());
    assert forall|j: int| 0 <= j < l implies !crate::search::occurs_at(buf, crate::http::head_end(), j) by {
        if crate::search::occurs_at(buf, crate::http::head_end(), j) {
            let sub = buf.subrange(j, j + 4);
            assert(sub[0] == buf[j]);
            assert(buf[j] == e[j]);
            assert(e[j] as u32 == head[j] as u32);
            if j < p {
                assert(head[j] == start[j]);
            } else if j == p {
                assert(sub[2] == buf[j + 2]);
                assert(buf[j + 2] == e[j + 2]);
                assert(head[j + 2] == name[0]);
                assert(graphic(name[0]));
            } else {
                assert(j >= p + 1);
                if j == p + 1 {
                } else {
                    assert(head[j] == hl[j - p - 2]);
                }
            }
        }
    }
    crate::search::lemma_first_occurrence_unique(buf, crate::http::head_end(), Some(l));
    assert(head.subrange(p, p + 2) =~= crate::http::crlf());
    assert forall|j: int| 0 <= j < p implies head[j] != crate::http::crlf()[0] by {
        assert(head[j] == start[j]);
    }
    lemma_first_at(head, crate::http::crlf(), p);
    assert(head.take(p) =~= start);
    assert(head.skip(p + 2) =~= hl);
    lemma_header_line(name, value);
}

/// A header name that reads, in lower case, as `lit` is printable and has no `:`.
proof fn lemma_name_from_lower(name: Seq<char>, lit: Seq<char>)
    requires
        crate::text::lower_seq(name) == lit,
        lit.len() > 0,
        all_graphic(lit),
        forall|i: int| 0 <= i < lit.len() ==> #[trigger] lit[i] != ':',
    ensures
        name.len() > 0,
        all_graphic(name),
        forall|i: int| 0 <= i < name.len() ==> #[trigger] name[i] != ':',
{
    assert(name.len() == lit.len());
    assert forall|i: int| 0 <= i < name.len() implies graphic(#[trigger] name[i]) && name[i] != ':' by {
        assert(crate::text::lower_seq(name)[i] == crate::text::lower(name[i]));
        assert(graphic(lit[i]) && lit[i] != ':');
    }
}

/// The only header of a one-header list.
proof fn lemma_single_header(k: Seq<char>, v: Seq<char>, other: Seq<char>)
    ensures
        crate::strmap::lookup(seq![(k, v)], k) == Some(v),
        other != k ==> crate::strmap::lookup(seq![(k, v)], other) is None,
{
    crate::strmap::lemma_index_of(seq![(k, v)], k, 0);
}

/// A request that gives the length of its body in a `Content-Length`
/// header named `name`, then that body.
pub open spec fn sized_request(m: crate::http::Method, path: Seq<char>, name: Seq<char>, body: Seq<u8>) -> Seq<u8> {
    request_bytes(m, path, name, dec_chars(body.len()), body)
}

/// The request that such bytes are read into.
pub open spec fn sized_view(m: crate::http::Method, path: Seq<char>, body: Seq<u8>) -> crate::http::RequestView {
    crate::http::RequestView {
        method: m,
        path,
        version: "HTTP/1.1"@,
        headers: seq![("content-length"@, dec_chars(body.len()))],
        body,
        chunked: false,
    }
}

/// A request whose head gives the length of its body in a `Content-Length`
/// header, its name written in any case, is read in one step into its
/// method, its path, version `HTTP/1.1`, that one header under its
/// lower-case name, and exactly its body; the parser is then ready for the
/// next request, holding the bytes that followed.
pub proof fn lemma_sized_request(
    m: crate::http::Method,
    path: Seq<char>,
    name: Seq<char>,
    body: Seq<u8>,
    more: Seq<u8>,
)
    requires
        path.len() > 0,
        all_graphic(path),
        crate::text::lower_seq(name) == "content-length"@,
        body.len() <= usize::MAX,
    ensures
        crate::http::step(fresh(sized_request(m, path, name, body) + more)) == (
            fresh(more),
            crate::http::Step::Done(sized_view(m, path, body)),
        ),
{
    reveal_strlit("content-length");
    reveal_strlit("transfer-encoding");
    let lit = "content-length"@;
    assert(all_graphic(lit));
    lemma_name_from_lower(name, lit);
    let n = body.len();
    let value = dec_chars(n);
    lemma_dec_chars(n);
    assert(all_graphic(value));
    assert(sized_request(m, path, name, body) + more =~= request_bytes(m, path, name, value, body + more));
    lemma_head(m, path, name, value, body + more);
    lemma_start_line(m, path);
    lemma_single_header(lit, value, "transfer-encoding"@);
    lemma_parse_dec(n);
    assert((body + more).take(n as int) =~= body);
    assert((body + more).skip(n as int) =~= more);
}

/// Keep-alive: two such requests sent one after the other on a connection
/// are read one per step, each in full, and the parser is then ready for a
/// third.
pub proof fn lemma_keep_alive(
    m1: crate::http::Method,
    path1: Seq<char>,
    name1: Seq<char>,
    body1: Seq<u8>,
    m2: crate::http::Method,
    path2: Seq<char>,
    name2: Seq<char>,
    body2: Seq<u8>,
)
    requires
        path1.len() > 0,
        all_graphic(path1),
        crate::text::lower_seq(name1) == "content-length"@,
        body1.len() <= usize::MAX,
        path2.len() > 0,
        all_graphic(path2),
        crate::text::lower_seq(name2) == "content-length"@,
        body2.len() <= usize::MAX,
    ensures
        ({
            let second = sized_request(m2, path2, name2, body2);
            let (q, r) = crate::http::step(fresh(sized_request(m1, path1, name1, body1) + second));
            &&& r == crate::http::Step::Done(sized_view(m1, path1, body1))
            &&& crate::http::step(q) == (
                fresh(Seq::empty()),
                crate::http::Step::Done(sized_view(m2, path2, body2)),
            )
        }),
{
    let second = sized_request(m2, path2, name2, body2);
    lemma_sized_request(m1, path1, name1, body1, second);
    lemma_sized_request(m2, path2, name2, body2, Seq::empty());
    assert(second + Seq::<u8>::empty() =~= second);
}

/// A body that arrives after its head: the step on the head and the first
/// `k` bytes of the body waits, and once the rest is pushed the next step
/// reads the request with its whole body.
pub proof fn lemma_body_later(
    m: crate::http::Method,
    path: Seq<char>,
    name: Seq<char>,
    body: Seq<u8>,
    k: int,
)
    requires
        path.len() > 0,
        all_graphic(path),
        crate::text::lower_seq(name) == "content-length"@,
        body.len() <= usize::MAX,
        0 <= k < body.len(),
    ensures
        ({
            let (q, r) = crate::http::step(fresh(request_bytes(m, path, name, dec_chars(body.len()), body.take(k))));
            &&& r == crate::http::Step::NeedMore
            &&& crate::http::step(crate::http::ParserView { buf: q.buf + body.skip(k), ..q }) == (
                fresh(Seq::empty()),
                crate::http::Step::Done(sized_view(m, path, body)),
            )
        }),
{
    reveal_strlit("content-length");
    reveal_strlit("transfer-encoding");
    let lit = "content-length"@;
    assert(all_graphic(lit));
    lemma_name_from_lower(name, lit);
    let n = body.len();
    let value = dec_chars(n);
    lemma_dec_chars(n);
    assert(all_graphic(value));
    lemma_head(m, path, name, value, body.take(k));
    lemma_start_line(m, path);
    lemma_single_header(lit, value, "transfer-encoding"@);
    lemma_parse_dec(n);
    assert(body.take(k) + body.skip(k) =~= body);
    assert(body.take(n as int) =~= body);
    assert(body.skip(n as int) =~= Seq::<u8>::empty());
}

/// No head ends within a prefix of the bytes that stops before the first
/// head end.
proof fn lemma_prefix_no_head(buf: Seq<u8>, n: int, k: int)
    requires
        crate::search::first_occurrence(buf, crate::http::head_end()) == Some(n),
        0 <= k < n + 4,
        k <= buf.len(),
    ensures
        crate::search::first_occurrence(buf.take(k), crate::http::head_end()) is None,
{
    let he = crate::http::head_end();
    crate::search::lemma_first_occurrence(buf, he);
    let a = buf.take(k);
    assert forall|j: int| !crate::search::occurs_at(a, he, j) by {
        if crate::search::occurs_at(a, he, j) {
            assert(a.subrange(j, j + 4) =~= buf.subrange(j, j + 4));
            assert(crate::search::occurs_at(buf, he, j));
        }
    }
    crate::search::lemma_first_occurrence_unique(a, he, None);
}

/// A request that names its body's length, pushed in two pieces split
/// anywhere before its head ends: the step on the first piece waits, and
/// once the rest is pushed the next step reads the request as if it had
/// come at once.
pub proof fn lemma_sized_request_in_pieces(
    m: crate::http::Method,
    path: Seq<char>,
    name: Seq<char>,
    body: Seq<u8>,
    k: int,
)
    requires
        path.len() > 0,
        all_graphic(path),
        crate::text::lower_seq(name) == "content-length"@,
        body.len() <= usize::MAX,
        0 <= k < utf8(request_head(m, path, name, dec_chars(body.len()))).len() + 4,
    ensures
        ({
            let buf = request_bytes(m, path, name, dec_chars(body.len()), body);
            let (q, r) = crate::http::step(fresh(buf.take(k)));
            &&& r == crate::http::Step::NeedMore
            &&& crate::http::ParserView { buf: q.buf + buf.skip(k), ..q } == fresh(buf)
            &&& crate::http::step(fresh(buf)).1 == crate::http::Step::Done(
                crate::http::RequestView {
                    method: m,
                    path,
                    version: "HTTP/1.1"@,
                    headers: seq![("content-length"@, dec_chars(body.len()))],
                    body,
                    chunked: false,
                },
            )
        }),
{
    reveal_strlit("content-length");
    let lit = "content-length"@;
    assert(all_graphic(lit));
    lemma_name_from_lower(name, lit);
    let value = dec_chars(body.len());
    lemma_dec_chars(body.len());
    lemma_head(m, path, name, value, body);
    let buf = request_bytes(m, path, name, value, body);
    let n = utf8(request_head(m, path, name, value)).len() as int;
    lemma_prefix_no_head(buf, n, k);
    assert(buf.take(k) + buf.skip(k) =~= buf);
    lemma_sized_request(m, path, name, body, Seq::empty());
    assert(buf + Seq::<u8>::empty() =~= buf);
}

/// One chunk of a chunked body: its size in hexadecimal, CRLF, its data, CRLF.
/// The chunk with no data is the last one, `0\r\n\r\n`.
pub open spec fn chunk_bytes(data: Seq<u8>) -> Seq<u8> {
    utf8(hex_chars(data.len())) + crate::http::crlf_bytes() + data + crate::http::crlf_bytes()
}

/// A chunked body that carries `chunks` in order, then the last chunk.
pub open spec fn chunked_bytes(chunks: Seq<Seq<u8>>) -> Seq<u8>
    decreases chunks.len(),
{
    if chunks.len() == 0 {
        chunk_bytes(Seq::empty())
    } else {
        chunk_bytes(chunks[0]) + chunked_bytes(chunks.drop_first())
    }
}

/// The chunk at the start of a buffer is read whole, whatever follows it.
proof fn lemma_read_chunk_bytes(data: Seq<u8>, more: Seq<u8>)
    requires
        (chunk_bytes(data) + more).len() <= usize::MAX,
    ensures
        crate::http::chunk_read(chunk_bytes(data) + more) == (if data.len() == 0 {
            crate::http::ChunkRead::End { consumed: chunk_bytes(data).len() as usize }
        } else {
            crate::http::ChunkRead::Chunk { size: data.len() as usize, consumed: chunk_bytes(data).len() as usize }
        }),
{
    let n = data.len();
    let h = hex_chars(n);
    lemma_hex_chars(n);
    assert(ascii(h));
    assert(all_graphic(h));
    lemma_utf8_ascii(h);
    let k = h.len() as int;
    let e = utf8(h);
    let buf = chunk_bytes(data) + more;
    assert(buf =~= e + (crate::http::crlf_bytes() + (data + (crate::http::crlf_bytes() + more))));
    assert(buf[k] == 13u8);
    assert(buf[k + 1] == 10u8);
    assert(buf.subrange(k + 1, k + 2) =~= seq![10u8]);
    assert forall|j: int| 0 <= j < k + 1 implies buf[j] != seq![10u8][0] by {
        if j < k {
            assert(buf[j] == e[j]);
            assert(e[j] as u32 == h[j] as u32);
        }
    }
    lemma_first_at(buf, seq![10u8], k + 1);
    assert(buf.take(k) =~= e);
    vstd::utf8::encode_utf8_valid_utf8(h);
    vstd::utf8::encode_utf8_decode_utf8(h);
    lemma_trim_graphic(h);
    lemma_parse_hex(n);
    let al = k + 2;
    assert(buf.subrange(al + n, al + n + 2) =~= crate::http::crlf_bytes());
}

/// Reading a chunked body made of `chunks` gives the data of all chunks in
/// order, and leaves what follows the last chunk.
pub proof fn lemma_chunk_loop(chunks: Seq<Seq<u8>>, rest: Seq<u8>, body: Seq<u8>)
    requires
        forall|i: int| 0 <= i < chunks.len() ==> (#[trigger] chunks[i]).len() > 0,
        (chunked_bytes(chunks) + rest).len() <= usize::MAX,
    ensures
        crate::http::chunk_loop(chunked_bytes(chunks) + rest, body) == (
            rest,
            crate::http::ChunkOutcome::Complete(body + chunks.flatten()),
        ),
    decreases chunks.len(),
{
    let buf = chunked_bytes(chunks) + rest;
    if chunks.len() == 0 {
        lemma_read_chunk_bytes(Seq::empty(), rest);
        assert(buf.skip(chunk_bytes(Seq::empty()).len() as int) =~= rest);
        assert(body + chunks.flatten() =~= body);
    } else {
        let c = chunks[0];
        let tail = chunks.drop_first();
        let more = chunked_bytes(tail) + rest;
        assert(buf =~= chunk_bytes(c) + more);
        lemma_read_chunk_bytes(c, more);
        let cl = chunk_bytes(c).len() as int;
        assert(buf.skip(cl) =~= more);
        assert(buf.subrange(cl - c.len() - 2, cl - 2) =~= c);
        assert forall|i: int| 0 <= i < tail.len() implies (#[trigger] tail[i]).len() > 0 by {
            assert(tail[i] == chunks[i + 1]);
        }
        lemma_chunk_loop(tail, rest, body + c);
        assert(body + c + tail.flatten() =~= body + chunks.flatten());
    }
}

/// A chunk cut short gives no chunk yet.
proof fn lemma_read_chunk_prefix(data: Seq<u8>, k: int)
    requires
        0 <= k < chunk_bytes(data).len(),
        chunk_bytes(data).len() <= usize::MAX,
    ensures
        crate::http::chunk_read(chunk_bytes(data).take(k)) == crate::http::ChunkRead::NeedMore,
{
    let n = data.len();
    let h = hex_chars(n);
    lemma_hex_chars(n);
    assert(ascii(h));
    assert(all_graphic(h));
    lemma_utf8_ascii(h);
    let hl = h.len() as int;
    let e = utf8(h);
    let cb = chunk_bytes(data);
    assert(cb =~= e + (crate::http::crlf_bytes() + (data + crate::http::crlf_bytes())));
    let a = cb.take(k);
    assert forall|j: int| 0 <= j < k && j <= hl implies a[j] != seq![10u8][0] by {
        assert(a[j] == cb[j]);
        if j < hl {
            assert(cb[j] == e[j]);
            assert(e[j] as u32 == h[j] as u32);
        }
    }
    if k <= hl + 1 {
        lemma_first_none(a, seq![10u8]);
    } else {
        assert(a.subrange(hl + 1, hl + 2) =~= seq![10u8]);
        lemma_first_at(a, seq![10u8], hl + 1);
        assert(a[hl] == 13u8);
        assert(a.take(hl) =~= e);
        vstd::utf8::encode_utf8_valid_utf8(h);
        vstd::utf8::encode_utf8_decode_utf8(h);
        lemma_trim_graphic(h);
        lemma_parse_hex(n);
    }
}

/// A chunked body cut short anywhere reads as not yet complete.
proof fn lemma_chunk_loop_prefix(chunks: Seq<Seq<u8>>, k: int, body: Seq<u8>)
    requires
        forall|i: int| 0 <= i < chunks.len() ==> (#[trigger] chunks[i]).len() > 0,
        chunked_bytes(chunks).len() <= usize::MAX,
        0 <= k < chunked_bytes(chunks).len(),
    ensures
        crate::http::chunk_loop(chunked_bytes(chunks).take(k), body).1 is Partial,
    decreases chunks.len(),
{
    let buf = chunked_bytes(chunks);
    let a = buf.take(k);
    if chunks.len() == 0 {
        lemma_read_chunk_prefix(Seq::empty(), k);
    } else {
        let c = chunks[0];
        let tail = chunks.drop_first();
        let cb = chunk_bytes(c);
        let l = cb.len() as int;
        assert(buf =~= cb + chunked_bytes(tail));
        if k < l {
            assert(a =~= cb.take(k));
            lemma_read_chunk_prefix(c, k);
        } else {
            let more = chunked_bytes(tail).take(k - l);
            assert(a =~= cb + more);
            lemma_read_chunk_bytes(c, more);
            assert(a.skip(l) =~= more);
            assert forall|i: int| 0 <= i < tail.len() implies (#[trigger] tail[i]).len() > 0 by {
                assert(tail[i] == chunks[i + 1]);
            }
            lemma_chunk_loop_prefix(tail, k - l, body + a.subrange(l - c.len() - 2, l - 2));
        }
    }
}

/// A chunked request pushed in two pieces, split anywhere in its body: the
/// step on the first piece waits and changes nothing, and once the rest is
/// pushed the next step reads the request with the data of all chunks; no
/// chunk is lost.
pub proof fn lemma_chunked_in_pieces(
    m: crate::http::Method,
    path: Seq<char>,
    name: Seq<char>,
    value: Seq<char>,
    chunks: Seq<Seq<u8>>,
    k: int,
)
    requires
        path.len() > 0,
        all_graphic(path),
        crate::text::lower_seq(name) == "transfer-encoding"@,
        crate::text::lower_seq(value) == "chunked"@,
        forall|i: int| 0 <= i < chunks.len() ==> (#[trigger] chunks[i]).len() > 0,
        chunked_bytes(chunks).len() <= usize::MAX,
        0 <= k < chunked_bytes(chunks).len(),
    ensures
        ({
            let cb = chunked_bytes(chunks);
            let (q, r) = crate::http::step(fresh(request_bytes(m, path, name, value, cb.take(k))));
            &&& r == crate::http::Step::NeedMore
            &&& crate::http::step(crate::http::ParserView { buf: q.buf + cb.skip(k), ..q }) == (
                fresh(Seq::empty()),
                crate::http::Step::Done(
                    crate::http::RequestView {
                        method: m,
                        path,
                        version: "HTTP/1.1"@,
                        headers: seq![("transfer-encoding"@, value)],
                        body: chunks.flatten(),
                        chunked: true,
                    },
                ),
            )
        }),
{
    reveal_strlit("content-length");
    reveal_strlit("transfer-encoding");
    reveal_strlit("chunked");
    let lit = "transfer-encoding"@;
    let ch = "chunked"@;
    assert(all_graphic(lit));
    assert(all_graphic(ch));
    lemma_name_from_lower(name, lit);
    lemma_name_from_lower(value, ch);
    let cb = chunked_bytes(chunks);
    lemma_head(m, path, name, value, cb.take(k));
    lemma_start_line(m, path);
    lemma_single_header(lit, value, "content-length"@);
    assert(ch.subrange(0, ch.len() as int) =~= ch);
    crate::search::lemma_first_occurrence(ch, ch);
    assert(crate::text::contains(crate::text::lower_seq(value), ch));
    lemma_chunk_loop_prefix(chunks, k, Seq::empty());
    assert(cb.take(k) + cb.skip(k) =~= cb);
    assert(cb + Seq::<u8>::empty() =~= cb);
    lemma_chunk_loop(chunks, Seq::empty(), Seq::empty());
    assert(Seq::<u8>::empty() + chunks.flatten() =~= chunks.flatten());
}

/// A request whose head says `Transfer-Encoding: chunked`, name and value
/// written in any case, followed by a chunked body, is read in the parser's
/// first step into its method, its path, version `HTTP/1.1`, that one
/// header under its lower-case name, and the data of all chunks in order;
/// nothing is left in the buffer.
pub proof fn lemma_chunked_request(
    m: crate::http::Method,
    path: Seq<char>,
    name: Seq<char>,
    value: Seq<char>,
    chunks: Seq<Seq<u8>>,
)
    requires
        path.len() > 0,
        all_graphic(path),
        crate::text::lower_seq(name) == "transfer-encoding"@,
        crate::text::lower_seq(value) == "chunked"@,
        forall|i: int| 0 <= i < chunks.len() ==> (#[trigger] chunks[i]).len() > 0,
        chunked_bytes(chunks).len() <= usize::MAX,
    ensures
        ({
            let (q, r) = crate::http::step(fresh(request_bytes(m, path, name, value, chunked_bytes(chunks))));
            &&& r == crate::http::Step::Done(
                crate::http::RequestView {
                    method: m,
                    path,
                    version: "HTTP/1.1"@,
                    headers: seq![("transfer-encoding"@, value)],
                    body: chunks.flatten(),
                    chunked: true,
                },
            )
            &&& q == fresh(Seq::empty())
        }),
{
    reveal_strlit("content-length");
    reveal_strlit("transfer-encoding");
    reveal_strlit("chunked");
    let lit = "transfer-encoding"@;
    let ch = "chunked"@;
    assert(all_graphic(lit));
    assert(all_graphic(ch));
    lemma_name_from_lower(name, lit);
    lemma_name_from_lower(value, ch);
    let body = chunked_bytes(chunks);
    lemma_head(m, path, name, value, body);
    lemma_start_line(m, path);
    lemma_single_header(lit, value, "content-length"@);
    assert(ch.subrange(0, ch.len() as int) =~= ch);
    crate::search::lemma_first_occurrence(ch, ch);
    assert(crate::text::contains(crate::text::lower_seq(value), ch));
    assert(body + Seq::<u8>::empty() =~= body);
    lemma_chunk_loop(chunks, Seq::empty(), Seq::empty());
    assert(Seq::<u8>::empty() + chunks.flatten() =~= chunks.flatten());
}

/// The usual header line of a file part.
pub open spec fn disposition(filename: Seq<char>) -> Seq<char> {
    "Content-Disposition: form-data; filename=\""@ + filename + "\""@
}

proof fn lemma_trim_quotes(f: Seq<char>)
    requires
        forall|i: int| 0 <= i < f.len() ==> #[trigger] f[i] != '"',
    ensures
        crate::text::trim_by(seq!['"'] + f + seq!['"'], Strip::Only('"')) == f,
{
    let s = seq!['"'] + f + seq!['"'];
    assert(s.drop_first() =~= f + seq!['"']);
    let t = f + seq!['"'];
    assert(t.drop_last() =~= f);
    if f.len() > 0 {
        assert(t[0] == f[0]);
        assert(trim_start_by(t, Strip::Only('"')) == t);
        assert(trim_end_by(f, Strip::Only('"')) == f);
    } else {
        assert(t =~= seq!['"']);
        assert(t.drop_first() =~= Seq::<char>::empty());
        assert(trim_start_by(Seq::<char>::empty(), Strip::Only('"')) == Seq::<char>::empty());
        assert(trim_start_by(t, Strip::Only('"')) == Seq::<char>::empty());
        assert(trim_end_by(Seq::<char>::empty(), Strip::Only('"')) == Seq::<char>::empty());
    }
}

/// The usual header line of a file part gives back its file name.
pub proof fn lemma_disposition(f: Seq<char>)
    requires
        all_graphic(f),
        forall|i: int| 0 <= i < f.len() ==> #[trigger] f[i] != '"',
    ensures
        crate::upload::filename_of(disposition(f)) == f,
{
    reveal_strlit("Content-Disposition: form-data; filename=\"");
    reveal_strlit("Content-Disposition:");
    reveal_strlit("filename=");
    reveal_strlit("\"");
    let pre = "Content-Disposition: form-data; filename=\""@;
    let line = disposition(f);
    let p = "Content-Disposition:"@;
    let key = "filename="@;
    assert(line =~= pre + (f + seq!['"']));
    assert(line.take(20) =~= p);
    let v = line.skip(20);
    assert forall|j: int| 0 <= j < line.len() implies line[j] != '\r' by {
        if j < 42 {
            assert(line[j] == pre[j]);
        } else if j < 42 + f.len() {
            assert(line[j] == f[j - 42]);
            assert(graphic(f[j - 42]));
        }
    }
    lemma_first_none(line, crate::http::crlf());
    assert forall|j: int| 0 <= j < 12 implies !crate::search::occurs_at(v, key, j) by {
        if crate::search::occurs_at(v, key, j) {
            let sub = v.subrange(j, j + 9);
            assert(sub[0] == v[j]);
            assert(sub[1] == v[j + 1]);
            assert(v[j] == pre[j + 20]);
            assert(v[j + 1] == pre[j + 21]);
        }
    }
    assert(v.subrange(12, 21) =~= key);
    crate::search::lemma_first_occurrence_unique(v, key, Some(12));
    let after = v.skip(21);
    assert(after =~= seq!['"'] + f + seq!['"']);
    assert(trim_start_by(after, Strip::Space) == after);
    assert(trim_end_by(after, Strip::Space) == after);
    assert(trim_start_by(after, Strip::Only(' ')) == after);
    assert(trim_end_by(after, Strip::Only(' ')) == after);
    lemma_trim_quotes(f);
}

/// A `multipart/form-data` body that carries one file: delimiter, the usual
/// header line, a blank line, the content, and the closing delimiter.
pub open spec fn one_file_body(boundary: Seq<char>, filename: Seq<char>, content: Seq<u8>) -> Seq<u8> {
    let delim = utf8("--"@) + utf8(boundary);
    delim + crate::http::crlf_bytes() + utf8(disposition(filename)) + crate::upload::blank_line() + content
        + crate::http::crlf_bytes() + delim + utf8("--"@)
}

/// The bytes of the usual header line hold no carriage return.
proof fn lemma_disposition_bytes(filename: Seq<char>)
    requires
        all_graphic(filename),
    ensures
        vstd::utf8::valid_utf8(utf8(disposition(filename))),
        vstd::utf8::decode_utf8(utf8(disposition(filename))) == disposition(filename),
        forall|j: int| 0 <= j < utf8(disposition(filename)).len() ==> #[trigger] utf8(disposition(filename))[j] != 13u8,
{
    reveal_strlit("Content-Disposition: form-data; filename=\"");
    reveal_strlit("\"");
    let pre = "Content-Disposition: form-data; filename=\""@;
    let line = disposition(filename);
    let h = utf8(line);
    assert(line =~= pre + (filename + seq!['"']));
    assert forall|j: int| 0 <= j < line.len() implies 32 <= (#[trigger] line[j] as u32) < 127 by {
        if j < 42 {
            assert(line[j] == pre[j]);
        } else if j < 42 + filename.len() {
            assert(line[j] == filename[j - 42]);
            assert(graphic(filename[j - 42]));
        }
    }
    lemma_utf8_ascii(line);
    assert forall|j: int| 0 <= j < h.len() implies #[trigger] h[j] != 13u8 by {
        assert(h[j] as u32 == line[j] as u32);
    }
    vstd::utf8::encode_utf8_valid_utf8(line);
    vstd::utf8::encode_utf8_decode_utf8(line);
}

/// The delimiter `--BOUNDARY` is printable ASCII, its first bytes `--`.
proof fn lemma_delim_bytes(boundary: Seq<char>)
    requires
        all_graphic(boundary),
    ensures
        utf8("--"@) == seq![45u8, 45u8],
        forall|k: int|
            0 <= k < (utf8("--"@) + utf8(boundary)).len() ==> 33 <= #[trigger] (utf8("--"@) + utf8(
                boundary,
            ))[k] <= 126,
{
    reveal_strlit("--");
    assert(ascii("--"@));
    lemma_utf8_ascii("--"@);
    assert(utf8("--"@) =~= seq![45u8, 45u8]);
    assert(ascii(boundary));
    lemma_utf8_ascii(boundary);
    let delim = utf8("--"@) + utf8(boundary);
    assert forall|k: int| 0 <= k < delim.len() implies 33 <= #[trigger] delim[k] <= 126 by {
        if k >= 2 {
            assert(delim[k] == utf8(boundary)[k - 2]);
            assert(utf8(boundary)[k - 2] as u32 == boundary[k - 2] as u32);
            assert(graphic(boundary[k - 2]));
        }
    }
}

/// Content without the delimiter, then CRLF and the delimiter: the first
/// delimiter is the one after the CRLF.
proof fn lemma_content_end(content: Seq<u8>, delim: Seq<u8>, more: Seq<u8>)
    requires
        forall|j: int| !crate::search::occurs_at(content, delim, j),
        forall|k: int| 0 <= k < delim.len() ==> 33 <= #[trigger] delim[k] <= 126,
        delim.len() > 0,
    ensures
        crate::search::first_occurrence(content + crate::http::crlf_bytes() + delim + more, delim) == Some(
            content.len() as int + 2,
        ),
{
    let t = content + crate::http::crlf_bytes() + delim + more;
    let cl = content.len() as int;
    let dl = delim.len() as int;
    assert(t.subrange(cl + 2, cl + 2 + dl) =~= delim);
    assert forall|j: int| 0 <= j < cl + 2 implies !crate::search::occurs_at(t, delim, j) by {
        if crate::search::occurs_at(t, delim, j) {
            let sub = t.subrange(j, j + dl);
            if j + dl <= cl {
                assert(content.subrange(j, j + dl) =~= sub);
                assert(crate::search::occurs_at(content, delim, j));
            } else if j <= cl {
                assert(sub[cl - j] == t[cl]);
                assert(delim[cl - j] == t[cl]);
            } else {
                assert(sub[0] == t[j]);
            }
        }
    }
    crate::search::lemma_first_occurrence_unique(t, delim, Some(cl + 2));
}

/// At the closing delimiter the reading of a multipart body stops.
proof fn lemma_closing(body: Seq<u8>, delim: Seq<u8>, endm: Seq<u8>, i: int, out: Seq<crate::upload::FilePartView>)
    requires
        0 <= i,
        delim.len() >= 2,
        delim[0] == 45u8,
        body.len() == i + delim.len() + 2,
        body.skip(i) == delim + seq![45u8, 45u8],
    ensures
        crate::upload::multipart_from(body, delim, endm, i, out) == crate::upload::Multipart::Parts(out),
{
    let t = body.skip(i);
    let dl = delim.len() as int;
    assert(t.subrange(0, dl) =~= delim);
    crate::search::lemma_first_occurrence_unique(t, delim, Some(0));
    assert(body.subrange(i + dl, i + dl + 2) =~= t.subrange(dl, dl + 2));
    assert(t.subrange(dl, dl + 2) =~= seq![45u8, 45u8]);
    assert(body.subrange(i + dl, i + dl + 2)[0] != crate::http::crlf_bytes()[0]);
    let t5 = body.skip(i + dl);
    assert(t5.len() == 2);
    assert(crate::search::first_occurrence(t5, crate::upload::blank_line()) is None);
}

/// One part read from the start of a multipart body, then the end.
proof fn lemma_first_part(
    body: Seq<u8>,
    delim: Seq<u8>,
    endm: Seq<u8>,
    dl: int,
    hl: int,
    part: crate::upload::FilePartView,
)
    requires
        dl == delim.len(),
        delim.len() >= 2,
        body.len() > 0,
        crate::search::first_occurrence(body.skip(0), delim) == Some(0int),
        dl + 2 <= body.len(),
        body.subrange(dl, dl + 2) == crate::http::crlf_bytes(),
        crate::search::first_occurrence(body.skip(dl + 2), crate::upload::blank_line()) == Some(hl),
        0 <= hl,
        vstd::utf8::valid_utf8(body.subrange(dl + 2, dl + 2 + hl)),
        crate::upload::filename_of(vstd::utf8::decode_utf8(body.subrange(dl + 2, dl + 2 + hl)))
            == part.filename,
        crate::search::first_occurrence(body.skip(dl + 2 + hl + 4), delim) == Some(
            part.content.len() as int + 2,
        ),
        body.subrange(dl + 2 + hl + 4, dl + 2 + hl + 4 + part.content.len()) == part.content,
        crate::upload::multipart_from(body, delim, endm, dl + 2 + hl + 4 + part.content.len() + 2, seq![part])
            == crate::upload::Multipart::Parts(seq![part]),
    ensures
        crate::upload::multipart_from(body, delim, endm, 0, Seq::empty()) == crate::upload::Multipart::Parts(
            seq![part],
        ),
{
    crate::search::lemma_first_occurrence(body.skip(dl + 2), crate::upload::blank_line());
    crate::search::lemma_first_occurrence(body.skip(dl + 2 + hl + 4), delim);
    assert(Seq::<crate::upload::FilePartView>::empty().push(part) =~= seq![part]);
}

/// A body that carries one file in the usual form gives back that one file:
/// its name and exactly its content.
pub proof fn lemma_one_file_body(boundary: Seq<char>, filename: Seq<char>, content: Seq<u8>)
    requires
        all_graphic(boundary),
        all_graphic(filename),
        forall|i: int| 0 <= i < filename.len() ==> #[trigger] filename[i] != '"',
        forall|j: int| !crate::search::occurs_at(content, utf8("--"@) + utf8(boundary), j),
    ensures
        crate::upload::multipart(one_file_body(boundary, filename, content), boundary)
            == crate::upload::Multipart::Parts(
            seq![crate::upload::FilePartView { filename, content }],
        ),
{
    let dd = utf8("--"@);
    let delim = dd + utf8(boundary);
    let endm = dd + utf8(boundary) + dd;
    let crlf = crate::http::crlf_bytes();
    let blank = crate::upload::blank_line();
    let h = utf8(disposition(filename));
    let body = one_file_body(boundary, filename, content);
    lemma_delim_bytes(boundary);
    lemma_disposition_bytes(filename);
    lemma_disposition(filename);
    let dl = delim.len() as int;
    let cl = content.len() as int;
    let hl = h.len() as int;
    let i2 = dl + 2;
    let i3 = i2 + hl + 4;
    let i4 = i3 + cl + 2;
    let part = crate::upload::FilePartView { filename, content };
    assert(crate::search::first_occurrence(body.skip(0), delim) == Some(0int)) by {
        assert(body.skip(0) =~= body);
        assert(body.subrange(0, dl) =~= delim);
        crate::search::lemma_first_occurrence_unique(body, delim, Some(0));
    }
    assert(body.subrange(dl, dl + 2) == crlf) by {
        assert(body.subrange(dl, dl + 2) =~= crlf);
    }
    assert(crate::search::first_occurrence(body.skip(i2), blank) == Some(hl)) by {
        assert(body.skip(i2) =~= h + (blank + (content + (crlf + (delim + dd)))));
        assert(body.skip(i2).subrange(hl, hl + 4) =~= blank);
        assert forall|j: int| 0 <= j < hl implies body.skip(i2)[j] != blank[0] by {
            assert(body.skip(i2)[j] == h[j]);
        }
        lemma_first_at(body.skip(i2), blank, hl);
    }
    assert(body.subrange(i2, i2 + hl) == h) by {
        assert(body.subrange(i2, i2 + hl) =~= h);
    }
    assert(crate::search::first_occurrence(body.skip(i3), delim) == Some(cl + 2)) by {
        assert(body.skip(i3) =~= content + crlf + delim + dd);
        lemma_content_end(content, delim, dd);
    }
    assert(body.subrange(i3, i3 + cl) == content) by {
        assert(body.subrange(i3, i3 + cl) =~= content);
    }
    assert(crate::upload::multipart_from(body, delim, endm, i4, seq![part]) == crate::upload::Multipart::Parts(
        seq![part],
    )) by {
        assert(body.skip(i4) =~= delim + seq![45u8, 45u8]);
        lemma_closing(body, delim, endm, i4, seq![part]);
    }
    lemma_first_part(body, delim, endm, dl, hl, part);
}

} // verus!

verus! {

/// The decimal digits of `n` as bytes are the digit characters' codes.
proof fn lemma_dec_digits_chars(n: nat)
    ensures
        crate::text::dec_digits(n).len() == dec_chars(n).len(),
        forall|i: int|
            0 <= i < dec_chars(n).len() ==> (#[trigger] crate::text::dec_digits(n)[i]) as u32 == dec_chars(n)[i] as u32,
    decreases n,
{
    if n < 10 {
        let c = ((48 + n) as u8) as char;
        assert(c as u32 == 48 + n);
    } else {
        lemma_dec_digits_chars(n / 10);
        let c = ((48 + n % 10) as u8) as char;
        assert(c as u32 == 48 + n % 10);
        let d = crate::text::dec_digits(n);
        let s = dec_chars(n);
        assert forall|i: int| 0 <= i < s.len() implies (#[trigger] d[i]) as u32 == s[i] as u32 by {
            if i < s.len() - 1 {
                assert(d[i] == crate::text::dec_digits(n / 10)[i]);
                assert(s[i] == dec_chars(n / 10)[i]);
            }
        }
    }
}

/// Without a `Content-Length` header of its own, a response's bytes carry,
/// after the status line and `Content-Length: `, decimal digits up to the
/// next carriage return that read back as the body's length, whatever that
/// length is.
pub proof fn lemma_length_line(code: u16, reason: Seq<char>, h: crate::strmap::Entries, body: Seq<u8>)
    requires
        !crate::strmap::has_key(h, "Content-Length"@),
        !crate::strmap::has_key(h, "content-length"@),
        body.len() <= usize::MAX,
    ensures
        ({
            let pre = utf8("HTTP/1.1 "@) + crate::text::dec_digits(code as nat) + utf8(" "@) + utf8(reason) + utf8(
                "\r\n"@,
            ) + utf8("Content-Length: "@);
            let out = crate::http::response_bytes(code, reason, h, body);
            let rest = out.skip(pre.len() as int);
            &&& out.take(pre.len() as int) == pre
            &&& crate::search::first_occurrence(rest, seq![13u8]) matches Some(k)
            &&& vstd::utf8::valid_utf8(rest.take(k))
            &&& crate::text::parse_uint(vstd::utf8::decode_utf8(rest.take(k)), 10) == Some(body.len())
        }),
{
    let n = body.len();
    let pre = utf8("HTTP/1.1 "@) + crate::text::dec_digits(code as nat) + utf8(" "@) + utf8(reason) + utf8("\r\n"@)
        + utf8("Content-Length: "@);
    let out = crate::http::response_bytes(code, reason, h, body);
    let d = crate::text::dec_digits(n);
    let tail = utf8("\r\n"@) + crate::http::header_lines(h) + utf8("\r\n"@) + body;
    assert(out =~= pre + (d + tail));
    let rest = out.skip(pre.len() as int);
    assert(rest =~= d + tail);
    assert(out.take(pre.len() as int) =~= pre);
    reveal_strlit("\r\n");
    assert(ascii("\r\n"@));
    lemma_utf8_ascii("\r\n"@);
    lemma_dec_chars(n);
    lemma_dec_digits_chars(n);
    let s = dec_chars(n);
    assert(ascii(s));
    lemma_utf8_ascii(s);
    assert(utf8(s) =~= d) by {
        assert forall|i: int| 0 <= i < d.len() implies utf8(s)[i] == d[i] by {
            assert(utf8(s)[i] as u32 == s[i] as u32);
        }
    }
    let k = d.len() as int;
    assert(rest[k] == tail[0]);
    assert(tail[0] == utf8("\r\n"@)[0]);
    assert(rest.subrange(k, k + 1) =~= seq![13u8]);
    assert forall|j: int| 0 <= j < k implies rest[j] != seq![13u8][0] by {
        assert(rest[j] == d[j]);
        assert(d[j] as u32 == s[j] as u32);
    }
    lemma_first_at(rest, seq![13u8], k);
    assert(rest.take(k) =~= d);
    vstd::utf8::encode_utf8_valid_utf8(s);
    vstd::utf8::encode_utf8_decode_utf8(s);
    lemma_parse_dec(n);
}

} // verus!

verus! {

/// A printable line of text is valid UTF-8, one byte per character, none a
/// carriage return.
proof fn lemma_line_bytes(h: Seq<char>)
    requires
        printable(h),
    ensures
        vstd::utf8::valid_utf8(utf8(h)),
        vstd::utf8::decode_utf8(utf8(h)) == h,
        forall|j: int| 0 <= j < utf8(h).len() ==> #[trigger] utf8(h)[j] != 13u8,
{
    assert(ascii(h));
    lemma_utf8_ascii(h);
    assert forall|j: int| 0 <= j < utf8(h).len() implies #[trigger] utf8(h)[j] != 13u8 by {
        assert(utf8(h)[j] as u32 == h[j] as u32);
    }
    vstd::utf8::encode_utf8_valid_utf8(h);
    vstd::utf8::encode_utf8_decode_utf8(h);
}

/// One part read at index `i` of a multipart body.
proof fn lemma_part_step(
    body: Seq<u8>,
    delim: Seq<u8>,
    endm: Seq<u8>,
    i: int,
    dl: int,
    hl: int,
    part: crate::upload::FilePartView,
    out: Seq<crate::upload::FilePartView>,
)
    requires
        dl == delim.len(),
        delim.len() >= 2,
        0 <= i < body.len(),
        crate::search::first_occurrence(body.skip(i), delim) == Some(0int),
        i + dl + 2 <= body.len(),
        body.subrange(i + dl, i + dl + 2) == crate::http::crlf_bytes(),
        crate::search::first_occurrence(body.skip(i + dl + 2), crate::upload::blank_line()) == Some(hl),
        0 <= hl,
        vstd::utf8::valid_utf8(body.subrange(i + dl + 2, i + dl + 2 + hl)),
        crate::upload::filename_of(vstd::utf8::decode_utf8(body.subrange(i + dl + 2, i + dl + 2 + hl)))
            == part.filename,
        crate::search::first_occurrence(body.skip(i + dl + 2 + hl + 4), delim) == Some(
            part.content.len() as int + 2,
        ),
        body.subrange(i + dl + 2 + hl + 4, i + dl + 2 + hl + 4 + part.content.len()) == part.content,
    ensures
        crate::upload::multipart_from(body, delim, endm, i, out) == crate::upload::multipart_from(
            body,
            delim,
            endm,
            i + dl + 2 + hl + 4 + part.content.len() + 2,
            out.push(part),
        ),
{
    crate::search::lemma_first_occurrence(body.skip(i + dl + 2), crate::upload::blank_line());
    crate::search::lemma_first_occurrence(body.skip(i + dl + 2 + hl + 4), delim);
}

/// A part laid out at index `i` (delimiter, CRLF, one header line, blank
/// line, content, CRLF, next delimiter) is read with its own file name and
/// content, and reading goes on at the next delimiter.
#[verifier::spinoff_prover]
#[verifier::rlimit(60)]
proof fn lemma_part_at(
    body: Seq<u8>,
    boundary: Seq<char>,
    endm: Seq<u8>,
    i: int,
    h: Seq<char>,
    c: Seq<u8>,
    after: Seq<u8>,
    out: Seq<crate::upload::FilePartView>,
)
    requires
        all_graphic(boundary),
        printable(h),
        forall|j: int| !crate::search::occurs_at(c, utf8("--"@) + utf8(boundary), j),
        0 <= i <= body.len(),
        body.skip(i) == (utf8("--"@) + utf8(boundary)) + crate::http::crlf_bytes() + utf8(h)
            + crate::upload::blank_line() + c + crate::http::crlf_bytes() + (utf8("--"@) + utf8(boundary)) + after,
    ensures
        ({
            let delim = utf8("--"@) + utf8(boundary);
            let next = i + delim.len() + 2 + utf8(h).len() + 4 + c.len() + 2;
            &&& crate::upload::multipart_from(body, delim, endm, i, out) == crate::upload::multipart_from(
                body,
                delim,
                endm,
                next,
                out.push(crate::upload::FilePartView { filename: crate::upload::filename_of(h), content: c }),
            )
            &&& next <= body.len()
            &&& body.skip(next) == delim + after
        }),
{
    let dd = utf8("--"@);
    let delim = dd + utf8(boundary);
    let crlf = crate::http::crlf_bytes();
    let blank = crate::upload::blank_line();
    let hb = utf8(h);
    lemma_delim_bytes(boundary);
    lemma_line_bytes(h);
    let dl = delim.len() as int;
    let hl = hb.len() as int;
    let cl = c.len() as int;
    let t = body.skip(i);
    assert(t =~= delim + (crlf + (hb + (blank + (c + (crlf + (delim + after)))))));
    let i2 = i + dl + 2;
    let i3 = i2 + hl + 4;
    assert(crate::search::first_occurrence(body.skip(i), delim) == Some(0int)) by {
        assert(t.subrange(0, dl) =~= delim);
        crate::search::lemma_first_occurrence_unique(t, delim, Some(0));
    }
    assert(body.subrange(i + dl, i + dl + 2) == crlf) by {
        assert(body.subrange(i + dl, i + dl + 2) =~= t.subrange(dl, dl + 2));
        assert(t.subrange(dl, dl + 2) =~= crlf);
    }
    assert(crate::search::first_occurrence(body.skip(i2), blank) == Some(hl)) by {
        let t2 = body.skip(i2);
        assert(t2 =~= t.skip(dl + 2));
        assert(t2 =~= hb + (blank + (c + (crlf + (delim + after)))));
        assert(t2.subrange(hl, hl + 4) =~= blank);
        assert forall|j: int| 0 <= j < hl implies t2[j] != blank[0] by {
            assert(t2[j] == hb[j]);
        }
        lemma_first_at(t2, blank, hl);
    }
    assert(body.subrange(i2, i2 + hl) == hb) by {
        assert(body.subrange(i2, i2 + hl) =~= t.subrange(dl + 2, dl + 2 + hl));
        assert(body.subrange(i2, i2 + hl) =~= hb);
    }
    assert(crate::search::first_occurrence(body.skip(i3), delim) == Some(cl + 2)) by {
        assert(body.skip(i3) =~= t.skip(dl + 2 + hl + 4));
        assert(body.skip(i3) =~= c + crlf + delim + after);
        lemma_content_end(c, delim, after);
    }
    assert(body.subrange(i3, i3 + cl) == c) by {
        assert(body.subrange(i3, i3 + cl) =~= t.subrange(dl + 2 + hl + 4, dl + 2 + hl + 4 + cl));
        assert(body.subrange(i3, i3 + cl) =~= c);
    }
    let part = crate::upload::FilePartView { filename: crate::upload::filename_of(h), content: c };
    lemma_part_step(body, delim, endm, i, dl, hl, part, out);
    assert(body.skip(i3 + cl + 2) =~= t.skip(dl + 2 + hl + 4 + cl + 2));
    assert(body.skip(i3 + cl + 2) =~= delim + after);
}

/// A body of two parts, each with one header line.
pub open spec fn two_part_body(boundary: Seq<char>, h1: Seq<char>, c1: Seq<u8>, h2: Seq<char>, c2: Seq<u8>) -> Seq<u8> {
    let delim = utf8("--"@) + utf8(boundary);
    let crlf = crate::http::crlf_bytes();
    let blank = crate::upload::blank_line();
    delim + crlf + utf8(h1) + blank + c1 + crlf + delim + crlf + utf8(h2) + blank + c2 + crlf + delim + utf8("--"@)
}

/// Each part takes its file name from its own header line alone: in a body
/// of two parts, the first part's name and content come from the first
/// part, and the second part's from the second, whatever the first holds
/// (a second part that names no file has an empty name).
#[verifier::spinoff_prover]
#[verifier::rlimit(60)]
pub proof fn lemma_two_parts(boundary: Seq<char>, h1: Seq<char>, c1: Seq<u8>, h2: Seq<char>, c2: Seq<u8>)
    requires
        all_graphic(boundary),
        printable(h1),
        printable(h2),
        forall|j: int| !crate::search::occurs_at(c1, utf8("--"@) + utf8(boundary), j),
        forall|j: int| !crate::search::occurs_at(c2, utf8("--"@) + utf8(boundary), j),
    ensures
        crate::upload::multipart(two_part_body(boundary, h1, c1, h2, c2), boundary)
            == crate::upload::Multipart::Parts(
            seq![
                crate::upload::FilePartView { filename: crate::upload::filename_of(h1), content: c1 },
                crate::upload::FilePartView { filename: crate::upload::filename_of(h2), content: c2 },
            ],
        ),
{
    let dd = utf8("--"@);
    let delim = dd + utf8(boundary);
    let endm = dd + utf8(boundary) + dd;
    let crlf = crate::http::crlf_bytes();
    let blank = crate::upload::blank_line();
    let body = two_part_body(boundary, h1, c1, h2, c2);
    lemma_delim_bytes(boundary);
    let p1 = crate::upload::FilePartView { filename: crate::upload::filename_of(h1), content: c1 };
    let p2 = crate::upload::FilePartView { filename: crate::upload::filename_of(h2), content: c2 };
    let after1 = crlf + utf8(h2) + blank + c2 + crlf + delim + dd;
    assert(body.skip(0) =~= delim + crlf + utf8(h1) + blank + c1 + crlf + delim + after1);
    lemma_part_at(body, boundary, endm, 0, h1, c1, after1, Seq::empty());
    let n1 = (delim.len() + 2 + utf8(h1).len() + 4 + c1.len() + 2) as int;
    assert(body.skip(n1) =~= delim + crlf + utf8(h2) + blank + c2 + crlf + delim + dd);
    lemma_part_at(body, boundary, endm, n1, h2, c2, dd, seq![p1]);
    let n2 = n1 + delim.len() + 2 + utf8(h2).len() + 4 + c2.len() + 2;
    assert(Seq::<crate::upload::FilePartView>::empty().push(p1) =~= seq![p1]);
    assert(seq![p1].push(p2) =~= seq![p1, p2]);
    assert(delim[0] == 45u8);
    lemma_closing(body, delim, endm, n2, seq![p1, p2]);
}

} // verus!
