//! `multipart/form-data` bodies: the files they carry.

use vstd::prelude::*;
use crate::search::{first_occurrence, lemma_first_occurrence, find_bytes};
use crate::text::{Strip, trim, trim_by, utf8, append_str, chars_of, string_of};

verus! {

/// One uploaded file.
pub struct FilePart {
    pub filename: String,
    pub content: Vec<u8>,
}

/// A file part as the contracts see it.
pub struct FilePartView {
    pub filename: Seq<char>,
    pub content: Seq<u8>,
}

impl View for FilePart {
    type V = FilePartView;

    open spec fn view(&self) -> FilePartView {
        FilePartView { filename: self.filename@, content: self.content@ }
    }
}

/// Why a multipart body was refused.
#[derive(Debug, Clone, Copy, PartialEq, Eq, Structural)]
pub enum MultipartError {
    /// The headers of a part are not valid UTF-8.
    HeaderUtf8,
}

/// The file name that one header line of a part gives: after
/// `Content-Disposition:`, the text after the first `filename=`, trimmed of
/// white space, spaces and double quotes.
pub open spec fn filename_in_line(line: Seq<char>) -> Option<Seq<char>> {
    let p = "Content-Disposition:"@;
    if line.len() >= p.len() && line.take(p.len() as int) == p {
        let v = line.skip(p.len() as int);
        match first_occurrence(v, "filename="@) {
            Some(f) => Some(
                trim_by(trim_by(trim(v.skip(f + "filename="@.len())), Strip::Only(' ')), Strip::Only('"')),
            ),
            None => None,
        }
    } else {
        None
    }
}

/// The file name after reading the lines of `rest`; the last line that names one wins.
pub open spec fn filename_lines(cur: Seq<char>, rest: Seq<char>) -> Seq<char>
    decreases rest.len(),
{
    let upd = |line: Seq<char>|
        match filename_in_line(line) {
            Some(f) => f,
            None => cur,
        };
    match first_occurrence(rest, crate::http::crlf()) {
        Some(k) => {
            proof {
                lemma_first_occurrence(rest, crate::http::crlf());
            }
            filename_lines(upd(rest.take(k)), rest.skip(k + 2))
        },
        None => upd(rest),
    }
}

/// The file name that the headers of a part give, empty when none does.
pub open spec fn filename_of(headers: Seq<char>) -> Seq<char> {
    filename_lines(Seq::empty(), headers)
}

/// How reading a multipart body ends.
pub enum Multipart {
    /// The headers of a part are not valid UTF-8.
    Failed,
    /// The parts read.
    Parts(Seq<FilePartView>),
}

/// The length of a part's content that runs for `k` bytes up to the next
/// delimiter: without the CRLF before it, and empty when the delimiter
/// follows the blank line at once.
pub open spec fn content_len(k: int) -> int {
    if k >= 2 {
        k - 2
    } else {
        0
    }
}

/// The bytes `\r\n\r\n`.
pub open spec fn blank_line() -> Seq<u8> {
    seq![13u8, 10u8, 13u8, 10u8]
}

/// Reads the parts of `body` from index `i` on; `delim` is `--boundary` and
/// `end` is `--boundary--`. A part runs from a delimiter (and an optional
/// CRLF) through its headers and a blank line to the CRLF before the next
/// delimiter; reading stops at the first place where that shape breaks.
pub open spec fn multipart_from(
    body: Seq<u8>,
    delim: Seq<u8>,
    end: Seq<u8>,
    i: int,
    out: Seq<FilePartView>,
) -> Multipart
    decreases body.len() - i,
{
    if i < 0 || i >= body.len() || delim.len() < 2 {
        Multipart::Parts(out)
    } else {
        match first_occurrence(body.skip(i), delim) {
            None => Multipart::Parts(out),
            Some(pos) => {
                let i1 = i + pos + delim.len();
                let i2 = if i1 + 2 <= body.len() && body.subrange(i1, i1 + 2) == crate::http::crlf_bytes() {
                    i1 + 2
                } else {
                    i1
                };
                match first_occurrence(body.skip(i2), blank_line()) {
                    None => Multipart::Parts(out),
                    Some(h) => {
                        let hr = body.subrange(i2, i2 + h);
                        let i3 = i2 + h + 4;
                        if !vstd::utf8::valid_utf8(hr) {
                            Multipart::Failed
                        } else {
                            let filename = filename_of(vstd::utf8::decode_utf8(hr));
                            match first_occurrence(body.skip(i3), delim) {
                                Some(next) => {
                                    proof {
                                        lemma_first_occurrence(body.skip(i), delim);
                                        lemma_first_occurrence(body.skip(i2), blank_line());
                                        lemma_first_occurrence(body.skip(i3), delim);
                                    }
                                    multipart_from(
                                        body,
                                        delim,
                                        end,
                                        i3 + next,
                                        out.push(
                                            FilePartView {
                                                filename,
                                                content: body.subrange(i3, i3 + content_len(next)),
                                            },
                                        ),
                                    )
                                },
                                None => match first_occurrence(body.skip(i3), end) {
                                    Some(ep) => Multipart::Parts(
                                        out.push(
                                            FilePartView {
                                                filename,
                                                content: body.subrange(i3, i3 + content_len(ep)),
                                            },
                                        ),
                                    ),
                                    None => Multipart::Parts(out),
                                },
                            }
                        }
                    },
                }
            },
        }
    }
}

/// The parts of a multipart body with the given boundary.
pub open spec fn multipart(body: Seq<u8>, boundary: Seq<char>) -> Multipart {
    multipart_from(
        body,
        utf8("--"@) + utf8(boundary),
        utf8("--"@) + utf8(boundary) + utf8("--"@),
        0,
        Seq::empty(),
    )
}

} // verus!

verus! {

/// The views of a list of file parts.
pub open spec fn parts_view(v: Seq<FilePart>) -> Seq<FilePartView> {
    v.map_values(|p: FilePart| p@)
}

fn filename_line(line: &[char]) -> (r: Option<String>)
    ensures
        match r {
            Some(f) => filename_in_line(line@) == Some(f@),
            None => filename_in_line(line@) is None,
        },
{
    let p = chars_of("Content-Disposition:");
    let plen = p.len();
    let n = line.len();
    if n < plen || !crate::text::slice_is(line, 0, plen, "Content-Disposition:") {
        proof {
            if n >= plen {
                assert(line@.subrange(0, plen as int) =~= line@.take(plen as int));
            }
        }
        return None;
    }
    assert(line@.subrange(0, plen as int) =~= line@.take(plen as int));
    let v = &line[plen..n];
    assert(v@ =~= line@.skip(plen as int));
    let key = chars_of("filename=");
    match crate::text::find_chars(v, key.as_slice()) {
        Some(f) => {
            proof {
                lemma_first_occurrence(v@, key@);
            }
            let vl = v.len();
            let rest = &v[f + key.len()..vl];
            assert(rest@ =~= v@.skip(f + key@.len()));
            let (a, b) = crate::text::trim_bounds(rest, Strip::Space);
            let t1 = &rest[a..b];
            let (c, d) = crate::text::trim_bounds(t1, Strip::Only(' '));
            let t2 = &t1[c..d];
            let (e, g) = crate::text::trim_bounds(t2, Strip::Only('"'));
            Some(string_of(&t2[e..g]))
        },
        None => None,
    }
}

fn filename_from_headers(h: &[char]) -> (s: String)
    ensures
        s@ == filename_of(h@),
{
    let mut cur = String::new();
    let mut pos: usize = 0;
    let crlf_chars = ['\r', '\n'];
    assert(crlf_chars@ =~= crate::http::crlf());
    assert(h@.skip(0) =~= h@);
    loop
        invariant
            pos <= h@.len(),
            crlf_chars@ == crate::http::crlf(),
            filename_of(h@) == filename_lines(cur@, h@.skip(pos as int)),
        decreases h@.len() - pos,
    {
        let n = h.len();
        let rest = &h[pos..n];
        assert(rest@ =~= h@.skip(pos as int));
        match crate::text::find_chars(rest, &crlf_chars) {
            Some(k) => {
                proof {
                    lemma_first_occurrence(rest@, crate::http::crlf());
                    assert(rest@.take(k as int) =~= rest@.subrange(0, k as int));
                    assert(rest@.skip(k + 2) =~= h@.skip(pos + k + 2));
                }
                match filename_line(&rest[0..k]) {
                    Some(f) => {
                        cur = f;
                    },
                    None => {},
                }
                pos = pos + k + 2;
            },
            None => {
                match filename_line(rest) {
                    Some(f) => {
                        return f;
                    },
                    None => {
                        return cur;
                    },
                }
            },
        }
    }
}

/// Reads the parts of a multipart body; `None` where reading would cut a
/// part's content before its start.
fn scan_multipart(body: &[u8], boundary: &str) -> (r: Result<Vec<FilePart>, MultipartError>)
    ensures
        match r {
            Err(_) => multipart(body@, boundary@) is Failed,
            Ok(v) => multipart(body@, boundary@) == Multipart::Parts(parts_view(v@)),
        },
{
    let mut out: Vec<FilePart> = Vec::new();
    let mut delim: Vec<u8> = Vec::new();
    append_str(&mut delim, "--");
    append_str(&mut delim, boundary);
    let mut endm: Vec<u8> = Vec::new();
    append_str(&mut endm, "--");
    append_str(&mut endm, boundary);
    append_str(&mut endm, "--");
    proof {
        reveal_strlit("--");
        vstd::utf8::is_ascii_chars_encode_utf8("--"@);
    }
    assert(utf8("--"@).len() == 2);
    assert(parts_view(out@) =~= Seq::<FilePartView>::empty());
    let n = body.len();
    let mut i: usize = 0;
    let blank = [13u8, 10u8, 13u8, 10u8];
    assert(blank@ =~= blank_line());
    while i < n
        invariant
            n == body@.len(),
            i <= n,
            blank@ == blank_line(),
            delim@ == utf8("--"@) + utf8(boundary@),
            endm@ == utf8("--"@) + utf8(boundary@) + utf8("--"@),
            delim@.len() >= 2,
            multipart(body@, boundary@) == multipart_from(body@, delim@, endm@, i as int, parts_view(out@)),
        decreases n - i,
    {
        let tail = &body[i..n];
        assert(tail@ =~= body@.skip(i as int));
        let pos = match find_bytes(tail, delim.as_slice()) {
            None => return Ok(out),
            Some(p) => p,
        };
        proof {
            lemma_first_occurrence(body@.skip(i as int), delim@);
        }
        let i1 = i + pos + delim.len();
        let i2 = if n - i1 >= 2 && body[i1] == 13 && body[i1 + 1] == 10 {
            assert(body@.subrange(i1 as int, i1 + 2) =~= crate::http::crlf_bytes());
            i1 + 2
        } else {
            proof {
                if i1 + 2 <= n && body@.subrange(i1 as int, i1 + 2) == crate::http::crlf_bytes() {
                    assert(body@.subrange(i1 as int, i1 + 2)[0] == body@[i1 as int]);
                    assert(body@.subrange(i1 as int, i1 + 2)[1] == body@[i1 + 1]);
                }
            }
            i1
        };
        let tail2 = &body[i2..n];
        assert(tail2@ =~= body@.skip(i2 as int));
        let h = match find_bytes(tail2, &blank) {
            None => return Ok(out),
            Some(h) => h,
        };
        proof {
            lemma_first_occurrence(body@.skip(i2 as int), blank_line());
        }
        let hr = &body[i2..i2 + h];
        let i3 = i2 + h + 4;
        let hchars = match crate::text::decode_chars(hr) {
            None => return Err(MultipartError::HeaderUtf8),
            Some(c) => c,
        };
        let filename = filename_from_headers(hchars.as_slice());
        let tail3 = &body[i3..n];
        assert(tail3@ =~= body@.skip(i3 as int));
        match find_bytes(tail3, delim.as_slice()) {
            Some(next) => {
                let cut = if next >= 2 {
                    next - 2
                } else {
                    0
                };
                proof {
                    lemma_first_occurrence(body@.skip(i3 as int), delim@);
                }
                let mut content: Vec<u8> = Vec::new();
                crate::text::append_bytes(&mut content, &body[i3..i3 + cut]);
                let part = FilePart { filename, content };
                let ghost before = out@;
                out.push(part);
                assert(parts_view(out@) =~= parts_view(before).push(part@));
                i = i3 + next;
            },
            None => {
                match find_bytes(tail3, endm.as_slice()) {
                    Some(ep) => {
                        let cut = if ep >= 2 {
                            ep - 2
                        } else {
                            0
                        };
                        proof {
                            lemma_first_occurrence(body@.skip(i3 as int), endm@);
                        }
                        let mut content: Vec<u8> = Vec::new();
                        crate::text::append_bytes(&mut content, &body[i3..i3 + cut]);
                        let part = FilePart { filename, content };
                        let ghost before = out@;
                        out.push(part);
                        assert(parts_view(out@) =~= parts_view(before).push(part@));
                        return Ok(out);
                    },
                    None => return Ok(out),
                }
            },
        }
    }
    Ok(out)
}

/// The files of a `multipart/form-data` body with the given boundary.
pub fn parse_multipart(body: &[u8], boundary: &str) -> (r: Result<Vec<FilePart>, MultipartError>)
    ensures
        match r {
            Err(_) => multipart(body@, boundary@) is Failed,
            Ok(v) => multipart(body@, boundary@) == Multipart::Parts(parts_view(v@)),
        },
{
    scan_multipart(body, boundary)
}

} // verus!
