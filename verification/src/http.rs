//! HTTP/1.1 messages: requests, responses and an incremental request parser.

use vstd::prelude::*;
use crate::strmap::{StrMap, Entries, has_key, lookup, insert_entry, remove_entry, keys_distinct};
use crate::text::{chars_of, string_of, lower_chars, lower_seq, utf8, append_str, append_bytes, push_decimal, dec_digits};

verus! {

/// The request methods the server understands.
#[allow(non_camel_case_types)]
#[derive(Debug, Clone, Copy, PartialEq, Eq, Structural)]
pub enum Method {
    GET,
    POST,
    DELETE,
}

/// A parsed request.
#[derive(Debug, Clone)]
pub struct Request {
    pub method: Method,
    pub path: String,
    pub version: String,
    /// Header names are lower case.
    pub headers: StrMap,
    pub body: Vec<u8>,
    pub chunked: bool,
}

/// A request as the contracts see it.
pub struct RequestView {
    pub method: Method,
    pub path: Seq<char>,
    pub version: Seq<char>,
    pub headers: Entries,
    pub body: Seq<u8>,
    pub chunked: bool,
}

impl View for Request {
    type V = RequestView;

    open spec fn view(&self) -> RequestView {
        RequestView {
            method: self.method,
            path: self.path@,
            version: self.version@,
            headers: self.headers@,
            body: self.body@,
            chunked: self.chunked,
        }
    }
}

impl Request {
    /// The value of header `k`, whatever the case of its letters.
    pub fn header(&self, k: &str) -> (r: Option<&str>)
        ensures
            match r {
                Some(v) => lookup(self.headers@, lower_seq(k@)) == Some(v@),
                None => lookup(self.headers@, lower_seq(k@)) is None,
            },
    {
        let lk = string_of(lower_chars(chars_of(k).as_slice()).as_slice());
        self.headers.get(lk.as_str())
    }

    /// The client asked to close the connection after this request: its
    /// `Connection` header names `close`.
    pub fn wants_close(&self) -> (b: bool)
        ensures
            b == asks_close(self@),
    {
        match self.headers.get("connection") {
            Some(v) => {
                let lc = lower_chars(chars_of(v).as_slice());
                crate::text::contains_chars(lc.as_slice(), chars_of("close").as_slice())
            },
            None => false,
        }
    }
}

/// The request's `Connection` header names `close`, in any case.
pub open spec fn asks_close(req: RequestView) -> bool {
    &&& lookup(req.headers, "connection"@) matches Some(v)
    &&& crate::text::contains(lower_seq(v), "close"@)
}

/// A response to be sent.
#[derive(Debug, Clone)]
pub struct Response {
    pub code: u16,
    pub reason: &'static str,
    pub headers: StrMap,
    pub body: Vec<u8>,
}

/// The bytes of one header line `k: v\r\n`.
pub open spec fn header_line(e: (Seq<char>, Seq<char>)) -> Seq<u8> {
    utf8(e.0) + utf8(": "@) + utf8(e.1) + utf8("\r\n"@)
}

/// The header lines of all entries, in order.
pub open spec fn header_lines(h: Entries) -> Seq<u8>
    decreases h.len(),
{
    if h.len() == 0 {
        Seq::empty()
    } else {
        header_lines(h.drop_last()) + header_line(h.last())
    }
}

/// The `Content-Length` line added when the headers give none.
pub open spec fn length_line(h: Entries, body_len: nat) -> Seq<u8> {
    if has_key(h, "Content-Length"@) || has_key(h, "content-length"@) {
        Seq::empty()
    } else {
        utf8("Content-Length: "@) + dec_digits(body_len) + utf8("\r\n"@)
    }
}

/// The bytes sent for a response: status line, length line, headers, blank
/// line, body.
pub open spec fn response_bytes(code: u16, reason: Seq<char>, h: Entries, body: Seq<u8>) -> Seq<u8> {
    utf8("HTTP/1.1 "@) + dec_digits(code as nat) + utf8(" "@) + utf8(reason) + utf8("\r\n"@)
        + length_line(h, body.len()) + header_lines(h) + utf8("\r\n"@) + body
}

impl Response {
    /// A response with no headers and an empty body.
    pub fn new(code: u16, reason: &'static str) -> (r: Self)
        ensures
            r.code == code,
            r.reason@ == reason@,
            r.headers@ == Seq::<(Seq<char>, Seq<char>)>::empty(),
            r.body@ == Seq::<u8>::empty(),
    {
        Response { code, reason, headers: StrMap::new(), body: Vec::new() }
    }

    /// The response with header `k` set to `v`.
    pub fn set_header(self, k: &str, v: &str) -> (r: Self)
        ensures
            r.code == self.code,
            r.reason@ == self.reason@,
            r.headers@ == insert_entry(self.headers@, k@, v@),
            r.body@ == self.body@,
    {
        let mut r = self;
        r.headers.insert(k.to_owned(), v.to_owned());
        r
    }

    /// The response with body `b`.
    pub fn set_body(self, b: Vec<u8>) -> (r: Self)
        ensures
            r.code == self.code,
            r.reason@ == self.reason@,
            r.headers@ == self.headers@,
            r.body@ == b@,
    {
        let mut r = self;
        r.body = b;
        r
    }

    /// The bytes of the response on the wire.
    pub fn to_bytes(&self) -> (out: Vec<u8>)
        ensures
            out@ == response_bytes(self.code, self.reason@, self.headers@, self.body@),
    {
        let mut out: Vec<u8> = Vec::new();
        append_str(&mut out, "HTTP/1.1 ");
        push_decimal(&mut out, self.code as u64);
        append_str(&mut out, " ");
        append_str(&mut out, self.reason);
        append_str(&mut out, "\r\n");
        let ghost start = out@;
        if !self.headers.contains_key("Content-Length") && !self.headers.contains_key("content-length") {
            append_str(&mut out, "Content-Length: ");
            push_decimal(&mut out, self.body.len() as u64);
            append_str(&mut out, "\r\n");
        }
        assert(out@ =~= start + length_line(self.headers@, self.body@.len()));
        let ghost mid = out@;
        let n = self.headers.len();
        let mut i: usize = 0;
        while i < n
            invariant
                i <= n,
                n == self.headers@.len(),
                out@ == mid + header_lines(self.headers@.take(i as int)),
            decreases n - i,
        {
            append_str(&mut out, self.headers.key_at(i));
            append_str(&mut out, ": ");
            append_str(&mut out, self.headers.value_at(i));
            append_str(&mut out, "\r\n");
            i = i + 1;
            assert(self.headers@.take(i as int).drop_last() =~= self.headers@.take(i - 1));
            assert(out@ =~= mid + header_lines(self.headers@.take(i as int)));
        }
        assert(self.headers@.take(n as int) =~= self.headers@);
        append_str(&mut out, "\r\n");
        append_bytes(&mut out, self.body.as_slice());
        assert(out@ =~= response_bytes(self.code, self.reason@, self.headers@, self.body@));
        out
    }
}

} // verus!

verus! {

/// Why a request head was refused.
#[derive(Debug, Clone, Copy, PartialEq, Eq, Structural)]
pub enum HttpError {
    /// The head is not valid UTF-8.
    InvalidUtf8,
    /// The start line lacks a method or a path.
    BadStartLine,
    /// The method is not one of GET, POST, DELETE.
    UnsupportedMethod,
}

/// The method that a word names.
pub open spec fn method_of(t: Seq<char>) -> Option<Method> {
    if t == "GET"@ {
        Some(Method::GET)
    } else if t == "POST"@ {
        Some(Method::POST)
    } else if t == "DELETE"@ {
        Some(Method::DELETE)
    } else {
        None
    }
}

/// Method, path and version of a start line; the version defaults to `HTTP/1.1`.
pub open spec fn start_line(s: Seq<char>) -> Result<(Method, Seq<char>, Seq<char>), HttpError> {
    let t = crate::text::tokens(s);
    if t.len() == 0 {
        Err(HttpError::BadStartLine)
    } else if method_of(t[0]) is None {
        Err(HttpError::UnsupportedMethod)
    } else if t.len() < 2 {
        Err(HttpError::BadStartLine)
    } else {
        Ok((method_of(t[0])->0, t[1], if t.len() >= 3 { t[2] } else { "HTTP/1.1"@ }))
    }
}

/// Parses a start line `METHOD PATH [VERSION]`.
pub fn parse_start_line(cs: &[char]) -> (r: Result<(Method, String, String), HttpError>)
    ensures
        match r {
            Ok((m, p, v)) => start_line(cs@) == Ok::<(Method, Seq<char>, Seq<char>), HttpError>((m, p@, v@)),
            Err(e) => start_line(cs@) == Err::<(Method, Seq<char>, Seq<char>), HttpError>(e),
        },
{
    assert(cs@.skip(0) =~= cs@);
    let (a0, b0) = match crate::text::next_token(cs, 0) {
        None => return Err(HttpError::BadStartLine),
        Some(t) => t,
    };
    let method = if crate::text::slice_is(cs, a0, b0, "GET") {
        Method::GET
    } else if crate::text::slice_is(cs, a0, b0, "POST") {
        Method::POST
    } else if crate::text::slice_is(cs, a0, b0, "DELETE") {
        Method::DELETE
    } else {
        return Err(HttpError::UnsupportedMethod);
    };
    let (a1, b1) = match crate::text::next_token(cs, b0) {
        None => return Err(HttpError::BadStartLine),
        Some(t) => t,
    };
    let path = string_of(&cs[a1..b1]);
    let version = match crate::text::next_token(cs, b1) {
        None => {
            let v = "HTTP/1.1".to_owned();
            v
        },
        Some((a2, b2)) => string_of(&cs[a2..b2]),
    };
    Ok((method, path, version))
}

/// The two characters that end a line.
pub open spec fn crlf() -> Seq<char> {
    seq!['\r', '\n']
}

/// The name of a header: as written, or in lower case.
pub open spec fn header_name(k: Seq<char>, lower: bool) -> Seq<char> {
    if lower {
        lower_seq(k)
    } else {
        k
    }
}

/// The headers after reading one header line: text before the first `:` is
/// the name (trimmed, and in lower case when `lower`), text after it the
/// value (trimmed); a line without `:` is ignored.
pub open spec fn add_header(acc: Entries, line: Seq<char>, lower: bool) -> Entries {
    match crate::search::first_occurrence(line, seq![':']) {
        Some(i) => insert_entry(
            acc,
            header_name(crate::text::trim(line.take(i)), lower),
            crate::text::trim(line.skip(i + 1)),
        ),
        None => acc,
    }
}

/// The headers after reading every `\r\n`-separated line of `rest`.
pub open spec fn add_header_lines(acc: Entries, rest: Seq<char>, lower: bool) -> Entries
    decreases rest.len(),
{
    match crate::search::first_occurrence(rest, crlf()) {
        Some(i) => {
            proof {
                crate::search::lemma_first_occurrence(rest, crlf());
            }
            add_header_lines(add_header(acc, rest.take(i), lower), rest.skip(i + 2), lower)
        },
        None => add_header(acc, rest, lower),
    }
}

/// The first line of a head.
pub open spec fn first_line(head: Seq<char>) -> Seq<char> {
    match crate::search::first_occurrence(head, crlf()) {
        Some(i) => head.take(i),
        None => head,
    }
}

/// The headers after reading the lines of a head that follow its first line.
pub open spec fn head_headers(acc: Entries, head: Seq<char>) -> Entries {
    match crate::search::first_occurrence(head, crlf()) {
        Some(i) => add_header_lines(acc, head.skip(i + 2), true),
        None => acc,
    }
}

/// Reads one header line into `headers`.
fn read_header_line(headers: &mut StrMap, line: &[char], lower: bool)
    requires
        keys_distinct(old(headers)@),
    ensures
        final(headers)@ == add_header(old(headers)@, line@, lower),
        keys_distinct(final(headers)@),
{
    match crate::text::find_char(line, ':') {
        Some(i) => {
            proof {
                crate::search::lemma_first_occurrence(line@, seq![':']);
            }
            let (ka, kb) = crate::text::trim_bounds(&line[0..i], crate::text::Strip::Space);
            let key = if lower {
                string_of(lower_chars(&line[ka..kb]).as_slice())
            } else {
                string_of(&line[ka..kb])
            };
            let n = line.len();
            let rest = &line[i + 1..n];
            let (va, vb) = crate::text::trim_bounds(rest, crate::text::Strip::Space);
            let value = string_of(&rest[va..vb]);
            proof {
                assert(line@.subrange(0, i as int) =~= line@.take(i as int));
                assert(line@.subrange(i + 1, line@.len() as int) =~= line@.skip(i + 1));
                assert(line@.take(i as int).subrange(ka as int, kb as int) =~= line@.subrange(ka as int, kb as int));
            }
            headers.insert(key, value);
        },
        None => {},
    }
}

/// Reads every `\r\n`-separated line of `cs[from..]` into `headers`.
pub fn read_header_lines(headers: &mut StrMap, cs: &[char], from: usize, lower: bool)
    requires
        from <= cs@.len(),
        keys_distinct(old(headers)@),
    ensures
        final(headers)@ == add_header_lines(old(headers)@, cs@.skip(from as int), lower),
        keys_distinct(final(headers)@),
{
    let mut pos = from;
    let crlf_chars = ['\r', '\n'];
    loop
        invariant
            pos <= cs@.len(),
            crlf_chars@ == crlf(),
            keys_distinct(headers@),
            add_header_lines(old(headers)@, cs@.skip(from as int), lower) == add_header_lines(
                headers@,
                cs@.skip(pos as int),
                lower,
            ),
        decreases cs@.len() - pos,
    {
        let rest = &cs[pos..cs.len()];
        assert(rest@ =~= cs@.skip(pos as int));
        match crate::text::find_chars(rest, &crlf_chars) {
            Some(i) => {
                proof {
                    crate::search::lemma_first_occurrence(rest@, crlf());
                    assert(rest@.take(i as int) =~= rest@.subrange(0, i as int));
                    assert(rest@.skip(i + 2) =~= cs@.skip(pos + i + 2));
                }
                read_header_line(headers, &rest[0..i], lower);
                pos = pos + i + 2;
            },
            None => {
                read_header_line(headers, rest, lower);
                return;
            },
        }
    }
}

} // verus!

verus! {

/// The number that a chunk-size line gives: UTF-8 text, trimmed, read as
/// hexadecimal.
pub open spec fn parse_hex(b: Seq<u8>) -> Option<nat> {
    if vstd::utf8::valid_utf8(b) {
        crate::text::parse_uint(crate::text::trim(vstd::utf8::decode_utf8(b)), 16)
    } else {
        None
    }
}

fn parse_hex_bytes(b: &[u8]) -> (r: Option<usize>)
    ensures
        match r {
            Some(n) => parse_hex(b@) == Some(n as nat),
            None => parse_hex(b@) is None,
        },
{
    match crate::text::decode_chars(b) {
        None => None,
        Some(cs) => {
            let (lo, hi) = crate::text::trim_bounds(cs.as_slice(), crate::text::Strip::Space);
            crate::text::parse_uint_chars(&cs.as_slice()[lo..hi], 16)
        },
    }
}

/// What the start of a chunked body holds.
#[derive(Debug, Clone, Copy, PartialEq, Eq, Structural)]
pub enum ChunkRead {
    /// Not enough bytes yet (or a line that never becomes one).
    NeedMore,
    /// A chunk of `size` bytes; `consumed` bytes make up its line, data and CRLF.
    Chunk { size: usize, consumed: usize },
    /// The last, empty chunk; `consumed` bytes make up its line and the CRLF after it.
    End { consumed: usize },
}

/// The bytes `\r\n`.
pub open spec fn crlf_bytes() -> Seq<u8> {
    seq![13u8, 10u8]
}

/// Reads the chunk at the start of `buf`.
pub open spec fn chunk_read(buf: Seq<u8>) -> ChunkRead {
    match crate::search::first_occurrence(buf, seq![10u8]) {
        None => ChunkRead::NeedMore,
        Some(le) => {
            if le == 0 || buf[le - 1] != 13u8 {
                ChunkRead::NeedMore
            } else {
                match parse_hex(buf.take(le - 1)) {
                    None => ChunkRead::NeedMore,
                    Some(size) => {
                        let al = le + 1;
                        if size == 0 {
                            if buf.len() >= al + 2 && buf.subrange(al, al + 2) == crlf_bytes() {
                                ChunkRead::End { consumed: (al + 2) as usize }
                            } else {
                                ChunkRead::NeedMore
                            }
                        } else if buf.len() < al + size + 2 || al + size + 2 > usize::MAX {
                            ChunkRead::NeedMore
                        } else if buf.subrange(al + size, al + size + 2) != crlf_bytes() {
                            ChunkRead::NeedMore
                        } else {
                            ChunkRead::Chunk { size: size as usize, consumed: (al + size + 2) as usize }
                        }
                    },
                }
            }
        },
    }
}

pub proof fn lemma_chunk_read(buf: Seq<u8>)
    ensures
        chunk_read(buf) matches ChunkRead::Chunk { size, consumed } ==> size + 4 <= consumed
            <= buf.len(),
        buf.len() <= usize::MAX ==> (chunk_read(buf) matches ChunkRead::End { consumed } ==> 4 <= consumed <= buf.len()),
{
    crate::search::lemma_first_occurrence(buf, seq![10u8]);
}

/// Reads the chunk at the start of `buf`.
fn read_chunk(buf: &[u8]) -> (r: ChunkRead)
    ensures
        r == chunk_read(buf@),
{
    let n = buf.len();
    let le = match crate::search::find_byte(buf, 10) {
        None => return ChunkRead::NeedMore,
        Some(i) => i,
    };
    proof {
        crate::search::lemma_first_occurrence(buf@, seq![10u8]);
    }
    if le == 0 || buf[le - 1] != 13 {
        return ChunkRead::NeedMore;
    }
    let size = match parse_hex_bytes(&buf[0..le - 1]) {
        None => {
            assert(buf@.subrange(0, le - 1) =~= buf@.take(le - 1));
            return ChunkRead::NeedMore;
        },
        Some(s) => s,
    };
    assert(buf@.subrange(0, le - 1) =~= buf@.take(le - 1));
    let al = le + 1;
    if size == 0 {
        if n - al >= 2 && buf[al] == 13 && buf[al + 1] == 10 {
            assert(buf@.subrange(al as int, al + 2) =~= crlf_bytes());
            return ChunkRead::End { consumed: al + 2 };
        } else {
            proof {
                if n - al >= 2 && buf@.subrange(al as int, al + 2) == crlf_bytes() {
                    assert(buf@.subrange(al as int, al + 2)[0] == buf@[al as int]);
                    assert(buf@.subrange(al as int, al + 2)[1] == buf@[al + 1]);
                }
            }
            return ChunkRead::NeedMore;
        }
    }
    if al > usize::MAX - 2 || size > usize::MAX - 2 - al {
        return ChunkRead::NeedMore;
    }
    let need = al + size + 2;
    if n < need {
        return ChunkRead::NeedMore;
    }
    if buf[al + size] != 13 || buf[al + size + 1] != 10 {
        proof {
            if buf@.subrange(al + size, al + size + 2) == crlf_bytes() {
                assert(buf@.subrange(al + size, al + size + 2)[0] == buf@[al + size]);
                assert(buf@.subrange(al + size, al + size + 2)[1] == buf@[al + size + 1]);
            }
        }
        return ChunkRead::NeedMore;
    }
    assert(buf@.subrange(al + size, al + size + 2) =~= crlf_bytes());
    ChunkRead::Chunk { size, consumed: need }
}

/// The length of the chunk-size line at the start of `buf`, with its `\r\n`.
fn hex_line_len(buf: &[u8]) -> (r: Option<usize>)
    ensures
        match r {
            Some(k) => crate::search::first_occurrence(buf@, seq![10u8]) == Some(k - 1) && k >= 2
                && buf@[k - 2] == 13u8,
            None => !(crate::search::first_occurrence(buf@, seq![10u8]) matches Some(le) && le > 0
                && buf@[le - 1] == 13u8),
        },
{
    match crate::search::find_byte(buf, 10) {
        Some(nl) => {
            proof {
                crate::search::lemma_first_occurrence(buf@, seq![10u8]);
            }
            if nl == 0 || buf[nl - 1] != 13 {
                None
            } else {
                Some(nl + 1)
            }
        },
        None => None,
    }
}

/// How a run of chunks ends.
pub enum ChunkOutcome {
    /// More bytes are needed.
    Partial,
    /// The last chunk was read; the body is the data of all chunks.
    Complete(Seq<u8>),
}

/// Reads chunks from `buf`, adding their data to `body`, until the last
/// chunk, a missing byte or an overflow; gives what is left of `buf`.
pub open spec fn chunk_loop(buf: Seq<u8>, body: Seq<u8>) -> (Seq<u8>, ChunkOutcome)
    decreases buf.len(),
{
    match chunk_read(buf) {
        ChunkRead::NeedMore => (buf, ChunkOutcome::Partial),
        ChunkRead::End { consumed } => (buf.skip(consumed as int), ChunkOutcome::Complete(body)),
        ChunkRead::Chunk { size, consumed } => {
            proof {
                lemma_chunk_read(buf);
            }
            chunk_loop(
                buf.skip(consumed as int),
                body + buf.subrange(consumed - size - 2, consumed - 2),
            )
        },
    }
}

} // verus!

verus! {

/// What a call of `try_parse` gives.
pub enum ParseProgress {
    NeedMore,
    Done(Request),
}

/// The state of a parser as the contracts see it.
pub struct ParserView {
    pub buf: Seq<u8>,
    pub headers_done: bool,
    pub content_len: Option<usize>,
    pub chunked: bool,
    pub method: Option<Method>,
    pub path: Seq<char>,
    pub version: Seq<char>,
    pub headers: Entries,
}

/// The result of one parsing step.
pub enum Step {
    Failed(HttpError),
    NeedMore,
    Done(RequestView),
}

/// The bytes that end a head.
pub open spec fn head_end() -> Seq<u8> {
    seq![13u8, 10u8, 13u8, 10u8]
}

/// A parser ready for a new request, holding the bytes `buf`.
pub open spec fn fresh(buf: Seq<u8>) -> ParserView {
    ParserView {
        buf,
        headers_done: false,
        content_len: None,
        chunked: false,
        method: None,
        path: Seq::empty(),
        version: Seq::empty(),
        headers: Seq::empty(),
    }
}

/// The request made of the parsed head of `q`, a body and a chunked flag.
pub open spec fn finish(q: ParserView, body: Seq<u8>, chunked: bool) -> RequestView {
    RequestView {
        method: q.method->0,
        path: q.path,
        version: q.version,
        headers: q.headers,
        body,
        chunked,
    }
}

/// Reading a chunked body from `q`: the request is done once the last chunk
/// has come, and the parser is then ready for the next request with the
/// bytes after it; until then nothing changes.
pub open spec fn chunk_phase(q: ParserView) -> (ParserView, Step) {
    let (rest, out) = chunk_loop(q.buf, Seq::empty());
    match out {
        ChunkOutcome::Partial => (q, Step::NeedMore),
        ChunkOutcome::Complete(body) => (fresh(rest), Step::Done(finish(q, body, true))),
    }
}

/// Reading a body of `Content-Length` bytes from `q`, or none without that
/// header: the request is done once the body is all there, and the parser
/// is then ready for the next request with the bytes after it.
pub open spec fn body_phase(q: ParserView) -> (ParserView, Step) {
    match q.content_len {
        Some(n) => if q.buf.len() >= n {
            (fresh(q.buf.skip(n as int)), Step::Done(finish(q, q.buf.take(n as int), false)))
        } else {
            (q, Step::NeedMore)
        },
        None => (fresh(q.buf), Step::Done(finish(q, Seq::empty(), false))),
    }
}

/// The value of `Transfer-Encoding` names `chunked`.
pub open spec fn says_chunked(hs: Entries) -> bool {
    match lookup(hs, "transfer-encoding"@) {
        Some(te) => crate::text::contains(lower_seq(te), "chunked"@),
        None => false,
    }
}

/// The body length that `Content-Length` gives, or `old` without that header.
pub open spec fn length_from(hs: Entries, old: Option<usize>) -> Option<usize> {
    match lookup(hs, "content-length"@) {
        Some(v) => match crate::text::parse_uint(v, 10) {
            Some(n) => Some(n as usize),
            None => None,
        },
        None => old,
    }
}

/// One step of the parser.
///
/// Before the head is complete nothing happens. A complete head is decoded as
/// UTF-8, its first line gives method, path and version, the other lines
/// give headers; a failure there leaves everything but the `headers_done`
/// flag unchanged, and the parser waits from then on. After a head, a
/// chunked body or a body of `Content-Length` bytes is read once it is all
/// there (a head without either ends the request); each finished request
/// leaves the parser ready for the next one.
pub open spec fn step(p: ParserView) -> (ParserView, Step) {
    if !p.headers_done {
        match crate::search::first_occurrence(p.buf, head_end()) {
            None => (p, Step::NeedMore),
            Some(pos) => {
                let hb = p.buf.take(pos);
                let failed = ParserView { headers_done: true, ..p };
                if !vstd::utf8::valid_utf8(hb) {
                    (failed, Step::Failed(HttpError::InvalidUtf8))
                } else {
                    let head = vstd::utf8::decode_utf8(hb);
                    match start_line(first_line(head)) {
                        Err(e) => (failed, Step::Failed(e)),
                        Ok((m, path, version)) => {
                            let hs = head_headers(p.headers, head);
                            let chunked = p.chunked || says_chunked(hs);
                            let cl = length_from(hs, p.content_len);
                            let q = ParserView {
                                buf: p.buf.skip(pos + 4),
                                headers_done: true,
                                content_len: cl,
                                chunked,
                                method: Some(m),
                                path,
                                version,
                                headers: hs,
                            };
                            if chunked {
                                chunk_phase(q)
                            } else {
                                body_phase(q)
                            }
                        },
                    }
                }
            },
        }
    } else if p.method is None {
        (p, Step::NeedMore)
    } else if p.chunked {
        chunk_phase(p)
    } else {
        body_phase(p)
    }
}

/// The step that a result of `try_parse` reports.
pub open spec fn reported(r: Result<ParseProgress, HttpError>) -> Step {
    match r {
        Err(e) => Step::Failed(e),
        Ok(ParseProgress::NeedMore) => Step::NeedMore,
        Ok(ParseProgress::Done(req)) => Step::Done(req@),
    }
}

/// A client asked for `100 Continue` and its body has not all come.
pub open spec fn wants_continue(p: ParserView) -> bool {
    &&& p.headers_done
    &&& lookup(p.headers, "expect"@) matches Some(e)
    &&& crate::text::contains(lower_seq(e), "100-continue"@)
    &&& !p.chunked
    &&& p.content_len matches Some(n)
    &&& p.buf.len() < n
}

/// An incremental parser of HTTP/1.1 requests.
pub struct Parser {
    buf: Vec<u8>,
    headers_done: bool,
    content_len: Option<usize>,
    chunked: bool,
    method: Option<Method>,
    path: String,
    version: String,
    headers: StrMap,
}

impl View for Parser {
    type V = ParserView;

    closed spec fn view(&self) -> ParserView {
        ParserView {
            buf: self.buf@,
            headers_done: self.headers_done,
            content_len: self.content_len,
            chunked: self.chunked,
            method: self.method,
            path: self.path@,
            version: self.version@,
            headers: self.headers@,
        }
    }
}

/// A parser state is consistent: a chunked body is only expected after a
/// head, a head that was read gave a method, and no header name occurs twice.
pub open spec fn parser_ok(v: ParserView) -> bool {
    &&& !v.headers_done ==> !v.chunked
    &&& v.chunked ==> v.method is Some
    &&& keys_distinct(v.headers)
}

impl Parser {
    /// The parser's state is consistent.
    pub open spec fn wf(&self) -> bool {
        parser_ok(self@)
    }

    /// A parser that has seen nothing yet.
    pub fn new() -> (p: Self)
        ensures
            p.wf(),
            p@ == (ParserView {
                buf: Seq::empty(),
                headers_done: false,
                content_len: None,
                chunked: false,
                method: None,
                path: Seq::empty(),
                version: Seq::empty(),
                headers: Seq::empty(),
            }),
    {
        Parser {
            buf: Vec::new(),
            headers_done: false,
            content_len: None,
            chunked: false,
            method: None,
            path: String::new(),
            version: String::new(),
            headers: StrMap::new(),
        }
    }

    /// Adds received bytes to the buffer.
    pub fn push(&mut self, data: &[u8])
        requires
            old(self).wf(),
        ensures
            final(self).wf(),
            final(self)@ == (ParserView { buf: old(self)@.buf + data@, ..old(self)@ }),
    {
        append_bytes(&mut self.buf, data);
    }

    /// One parsing step.
    pub fn try_parse(&mut self) -> (r: Result<ParseProgress, HttpError>)
        requires
            old(self).wf(),
        ensures
            final(self).wf(),
            (final(self)@, reported(r)) == step(old(self)@),
    {
        if !self.headers_done {
            let pos = match crate::search::find_bytes(self.buf.as_slice(), &[13u8, 10u8, 13u8, 10u8]) {
                Some(p) => p,
                None => {
                    assert([13u8, 10u8, 13u8, 10u8]@ =~= head_end());
                    return Ok(ParseProgress::NeedMore);
                },
            };
            proof {
                assert([13u8, 10u8, 13u8, 10u8]@ =~= head_end());
                crate::search::lemma_first_occurrence(self.buf@, head_end());
            }
            let total = self.buf.len();
            assert(pos + 4 <= total);
            let ghost p = self@;
            self.headers_done = true;
            let head = match crate::text::decode_chars(&self.buf.as_slice()[0..pos]) {
                Some(h) => h,
                None => {
                    assert(self.buf@.subrange(0, pos as int) =~= self.buf@.take(pos as int));
                    return Err(HttpError::InvalidUtf8);
                },
            };
            assert(self.buf@.subrange(0, pos as int) =~= self.buf@.take(pos as int));
            let crlf_chars = ['\r', '\n'];
            assert(crlf_chars@ =~= crlf());
            let line_end = crate::text::find_chars(head.as_slice(), &crlf_chars);
            let first: &[char] = match line_end {
                Some(i) => {
                    proof {
                        crate::search::lemma_first_occurrence(head@, crlf());
                    }
                    &head.as_slice()[0..i]
                },
                None => head.as_slice(),
            };
            assert(first@ =~= first_line(head@));
            let (m, path, version) = match parse_start_line(first) {
                Ok(t) => t,
                Err(e) => return Err(e),
            };
            self.method = Some(m);
            self.path = path;
            self.version = version;
            match line_end {
                Some(i) => {
                    proof {
                        crate::search::lemma_first_occurrence(head@, crlf());
                    }
                    let hlen = head.len();
                    assert(i + 2 <= hlen);
                    read_header_lines(&mut self.headers, head.as_slice(), i + 2, true);
                },
                None => {},
            }
            assert(self.headers@ == head_headers(p.headers, head@));
            match self.headers.get("transfer-encoding") {
                Some(te) => {
                    let lc = lower_chars(chars_of(te).as_slice());
                    if crate::text::contains_chars(lc.as_slice(), chars_of("chunked").as_slice()) {
                        self.chunked = true;
                    }
                },
                None => {},
            }
            match self.headers.get("content-length") {
                Some(cl) => {
                    self.content_len = crate::text::parse_uint_chars(chars_of(cl).as_slice(), 10);
                },
                None => {},
            }
            self.buf = self.buf.split_off(pos + 4);
            assert(self.chunked == (p.chunked || says_chunked(self.headers@)));
            assert(self.content_len == length_from(self.headers@, p.content_len));
            if self.chunked {
                return self.read_chunks();
            } else {
                return self.read_body();
            }
        }
        if self.method.is_none() {
            return Ok(ParseProgress::NeedMore);
        }
        if self.chunked {
            self.read_chunks()
        } else {
            self.read_body()
        }
    }

    /// Makes the parser ready for a new request, keeping its buffer.
    fn reset(&mut self)
        ensures
            final(self)@ == fresh(old(self)@.buf),
            final(self).wf(),
    {
        self.headers_done = false;
        self.content_len = None;
        self.chunked = false;
        self.method = None;
        self.path = String::new();
        self.version = String::new();
        self.headers = StrMap::new();
    }

    /// The request whose head has been read, with `body`; the parser is then
    /// ready for the next request.
    fn complete(&mut self, body: Vec<u8>, chunked: bool) -> (req: Request)
        requires
            old(self)@.method is Some,
        ensures
            req@ == finish(old(self)@, body@, chunked),
            final(self)@ == fresh(old(self)@.buf),
            final(self).wf(),
    {
        let m = match self.method {
            Some(m) => m,
            None => Method::GET,
        };
        let req = Request {
            method: m,
            path: self.path.clone(),
            version: self.version.clone(),
            headers: self.headers.take_all(),
            body,
            chunked,
        };
        self.reset();
        req
    }

    /// Reads a body of `Content-Length` bytes, or none without that header.
    fn read_body(&mut self) -> (r: Result<ParseProgress, HttpError>)
        requires
            old(self).wf(),
            old(self)@.method is Some,
        ensures
            final(self).wf(),
            (final(self)@, reported(r)) == body_phase(old(self)@),
    {
        match self.content_len {
            Some(n) => {
                if self.buf.len() >= n {
                    let mut body: Vec<u8> = Vec::new();
                    std::mem::swap(&mut body, &mut self.buf);
                    self.buf = body.split_off(n);
                    let req = self.complete(body, false);
                    Ok(ParseProgress::Done(req))
                } else {
                    Ok(ParseProgress::NeedMore)
                }
            },
            None => {
                let req = self.complete(Vec::new(), false);
                Ok(ParseProgress::Done(req))
            },
        }
    }

    /// Reads the chunks of a chunked body; nothing changes until the last
    /// chunk has come.
    fn read_chunks(&mut self) -> (r: Result<ParseProgress, HttpError>)
        requires
            old(self).wf(),
            old(self)@.method is Some,
        ensures
            final(self).wf(),
            (final(self)@, reported(r)) == chunk_phase(old(self)@),
    {
        let n = self.buf.len();
        let mut pos: usize = 0;
        let mut body: Vec<u8> = Vec::new();
        assert(self.buf@.skip(0) =~= self.buf@);
        loop
            invariant
                pos <= n,
                n == self.buf@.len(),
                self@ == old(self)@,
                old(self).wf(),
                old(self)@.method is Some,
                chunk_loop(self.buf@, Seq::empty()) == chunk_loop(self.buf@.skip(pos as int), body@),
            decreases n - pos,
        {
            let rest = &self.buf.as_slice()[pos..n];
            assert(rest@ =~= self.buf@.skip(pos as int));
            proof {
                lemma_chunk_read(rest@);
            }
            match read_chunk(rest) {
                ChunkRead::NeedMore => {
                    return Ok(ParseProgress::NeedMore);
                },
                ChunkRead::Chunk { size, consumed } => {
                    let al = match hex_line_len(rest) {
                        Some(k) => k,
                        None => 0,
                    };
                    proof {
                        crate::search::lemma_first_occurrence(rest@, seq![10u8]);
                    }
                    assert(al == consumed - size - 2);
                    append_bytes(&mut body, &rest[al..al + size]);
                    assert(rest@.skip(consumed as int) =~= self.buf@.skip(pos + consumed));
                    pos = pos + consumed;
                },
                ChunkRead::End { consumed } => {
                    assert(rest@.skip(consumed as int) =~= self.buf@.skip(pos + consumed));
                    self.buf = self.buf.split_off(pos + consumed);
                    let req = self.complete(body, true);
                    return Ok(ParseProgress::Done(req));
                },
            }
        }
    }

    /// A client sent `Expect: 100-continue` and its body has not all come.
    pub fn wants_100_continue(&self) -> (b: bool)
        ensures
            b == wants_continue(self@),
    {
        if !self.headers_done {
            return false;
        }
        match self.headers.get("expect") {
            Some(exp) => {
                let lc = lower_chars(chars_of(exp).as_slice());
                if crate::text::contains_chars(lc.as_slice(), chars_of("100-continue").as_slice()) {
                    if !self.chunked {
                        match self.content_len {
                            Some(n) => return self.buf.len() < n,
                            None => {},
                        }
                    }
                }
            },
            None => {},
        }
        false
    }

    /// Forgets the `Expect` header.
    pub fn clear_expect(&mut self)
        requires
            old(self).wf(),
        ensures
            final(self).wf(),
            final(self)@ == (ParserView {
                headers: remove_entry(old(self)@.headers, "expect"@),
                ..old(self)@
            }),
            !wants_continue(final(self)@),
    {
        self.headers.remove("expect");
        proof {
            lemma_clear_expect(old(self)@);
        }
    }
}

} // verus!

verus! {

/// A character is its own lower case once lowered.
proof fn lemma_lower_twice(c: char)
    ensures
        crate::text::lower(crate::text::lower(c)) == crate::text::lower(c),
{
    if 'A' <= c <= 'Z' {
        let u = (c as u32) + 32;
        assert((u as char) as u32 == u);
    }
}

/// A name is in lower case: lowering it changes nothing.
pub open spec fn is_lower(k: Seq<char>) -> bool {
    lower_seq(k) == k
}

/// Lowering a name twice gives what lowering it once gives.
pub proof fn lemma_lower_seq_twice(k: Seq<char>)
    ensures
        is_lower(lower_seq(k)),
{
    assert forall|i: int| 0 <= i < k.len() implies #[trigger] lower_seq(lower_seq(k))[i] == lower_seq(k)[i] by {
        lemma_lower_twice(k[i]);
    }
    assert(lower_seq(lower_seq(k)) =~= lower_seq(k));
}

/// Reading header lines with lowering keeps every header name in lower case.
pub proof fn lemma_header_names_lower(acc: Entries, rest: Seq<char>)
    requires
        forall|i: int| 0 <= i < acc.len() ==> is_lower(#[trigger] acc[i].0),
    ensures
        forall|i: int|
            0 <= i < add_header_lines(acc, rest, true).len() ==> is_lower(
                #[trigger] add_header_lines(acc, rest, true)[i].0,
            ),
    decreases rest.len(),
{
    crate::search::lemma_first_occurrence(rest, crlf());
    let line = match crate::search::first_occurrence(rest, crlf()) {
        Some(i) => rest.take(i),
        None => rest,
    };
    let next = add_header(acc, line, true);
    match crate::search::first_occurrence(line, seq![':']) {
        Some(j) => {
            let k = lower_seq(crate::text::trim(line.take(j)));
            lemma_lower_seq_twice(crate::text::trim(line.take(j)));
            assert forall|i: int| 0 <= i < next.len() implies is_lower(#[trigger] next[i].0) by {
                if i < acc.len() && next[i].0 != k {
                    assert(next[i] == acc[i]);
                }
            }
        },
        None => {},
    }
    assert(forall|i: int| 0 <= i < next.len() ==> is_lower(#[trigger] next[i].0));
    match crate::search::first_occurrence(rest, crlf()) {
        Some(i) => {
            lemma_header_names_lower(next, rest.skip(i + 2));
            assert(add_header_lines(acc, rest, true) == add_header_lines(next, rest.skip(i + 2), true));
        },
        None => {
            assert(add_header_lines(acc, rest, true) == next);
        },
    }
}

/// A header line read with lowering is found under its name written in any
/// case: the value after the `:`, trimmed.
pub proof fn lemma_header_any_case(acc: Entries, line: Seq<char>, k: Seq<char>)
    requires
        keys_distinct(acc),
        crate::search::first_occurrence(line, seq![':']) is Some,
        lower_seq(k) == lower_seq(
            crate::text::trim(line.take(crate::search::first_occurrence(line, seq![':'])->0)),
        ),
    ensures
        lookup(add_header(acc, line, true), lower_seq(k)) == Some(
            crate::text::trim(line.skip(crate::search::first_occurrence(line, seq![':'])->0 + 1)),
        ),
{
    let i = crate::search::first_occurrence(line, seq![':'])->0;
    crate::strmap::lemma_lookup_insert(
        acc,
        lower_seq(crate::text::trim(line.take(i))),
        crate::text::trim(line.skip(i + 1)),
        lower_seq(k),
    );
}

/// Once the `Expect` header is forgotten the parser no longer asks for
/// `100 Continue`.
pub proof fn lemma_clear_expect(p: ParserView)
    requires
        keys_distinct(p.headers),
    ensures
        !wants_continue(ParserView { headers: remove_entry(p.headers, "expect"@), ..p }),
{
    crate::strmap::lemma_lookup_remove(p.headers, "expect"@, "expect"@);
}

/// Bytes that arrive before the head is complete change nothing but the
/// buffer: a step on them waits, and the parser then stands as if all the
/// bytes pushed so far had come at once.
pub proof fn lemma_partial_head(p: ParserView, a: Seq<u8>, b: Seq<u8>)
    requires
        !p.headers_done,
        crate::search::first_occurrence(p.buf + a, head_end()) is None,
    ensures
        ({
            let (q, r) = step(ParserView { buf: p.buf + a, ..p });
            &&& r == Step::NeedMore
            &&& ParserView { buf: q.buf + b, ..q } == ParserView { buf: p.buf + (a + b), ..p }
        }),
{
    assert(p.buf + a + b =~= p.buf + (a + b));
}

} // verus!
