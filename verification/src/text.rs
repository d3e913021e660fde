//! Character-level text helpers used by the parsers.

use vstd::prelude::*;

verus! {

/// Appends one character to a string (`String::push`).
#[verifier::external_body]
fn string_push(s: &mut String, c: char)
    ensures
        final(s)@ == old(s)@.push(c),
{
    s.push(c);
}

/// The characters of a string slice, in order.
pub fn chars_of(s: &str) -> (v: Vec<char>)
    ensures
        v@ == s@,
{
    let mut v: Vec<char> = Vec::new();
    for c in it: s.chars()
        invariant
            v@ == it.seq().take(it.index() as int),
            it.seq() == s@,
    {
        v.push(c);
    }
    v
}

/// A string holding exactly the given characters.
pub fn string_of(cs: &[char]) -> (s: String)
    ensures
        s@ == cs@,
{
    let mut s = String::new();
    let mut i: usize = 0;
    while i < cs.len()
        invariant
            i <= cs.len(),
            s@ == cs@.take(i as int),
        decreases cs.len() - i,
    {
        string_push(&mut s, cs[i]);
        i = i + 1;
        assert(cs@.take(i as int) == cs@.take(i - 1).push(cs@[i - 1]));
    }
    assert(cs@.take(cs.len() as int) == cs@);
    s
}

} // verus!

verus! {

/// `char::is_whitespace`: the Unicode `White_Space` characters.
pub open spec fn is_ws(c: char) -> bool {
    let u = c as u32;
    ||| 9 <= u <= 13
    ||| u == 32
    ||| u == 0x85
    ||| u == 0xA0
    ||| u == 0x1680
    ||| 0x2000 <= u <= 0x200A
    ||| u == 0x2028
    ||| u == 0x2029
    ||| u == 0x202F
    ||| u == 0x205F
    ||| u == 0x3000
}

/// Which characters a trim removes.
#[derive(Clone, Copy)]
pub enum Strip {
    /// Unicode white space (`str::trim`).
    Space,
    /// One given character (`str::trim_matches(c)`).
    Only(char),
}

pub open spec fn strips(m: Strip, c: char) -> bool {
    match m {
        Strip::Space => is_ws(c),
        Strip::Only(x) => c == x,
    }
}

pub open spec fn trim_start_by(s: Seq<char>, m: Strip) -> Seq<char>
    decreases s.len(),
{
    if s.len() > 0 && strips(m, s[0]) {
        trim_start_by(s.drop_first(), m)
    } else {
        s
    }
}

pub open spec fn trim_end_by(s: Seq<char>, m: Strip) -> Seq<char>
    decreases s.len(),
{
    if s.len() > 0 && strips(m, s.last()) {
        trim_end_by(s.drop_last(), m)
    } else {
        s
    }
}

/// Both ends of `s` with the characters of `m` removed.
pub open spec fn trim_by(s: Seq<char>, m: Strip) -> Seq<char> {
    trim_end_by(trim_start_by(s, m), m)
}

/// `str::trim`.
pub open spec fn trim(s: Seq<char>) -> Seq<char> {
    trim_by(s, Strip::Space)
}

pub fn is_ws_char(c: char) -> (b: bool)
    ensures
        b == is_ws(c),
{
    let u = c as u32;
    (9 <= u && u <= 13) || u == 32 || u == 0x85 || u == 0xA0 || u == 0x1680 || (0x2000 <= u && u
        <= 0x200A) || u == 0x2028 || u == 0x2029 || u == 0x202F || u == 0x205F || u == 0x3000
}

fn strips_char(m: Strip, c: char) -> (b: bool)
    ensures
        b == strips(m, c),
{
    match m {
        Strip::Space => is_ws_char(c),
        Strip::Only(x) => c == x,
    }
}

/// Bounds of the trimmed part of `cs`.
pub fn trim_bounds(cs: &[char], m: Strip) -> (r: (usize, usize))
    ensures
        r.0 <= r.1 <= cs@.len(),
        cs@.subrange(r.0 as int, r.1 as int) == trim_by(cs@, m),
{
    let mut lo: usize = 0;
    assert(cs@.subrange(0, cs@.len() as int) =~= cs@);
    while lo < cs.len() && strips_char(m, cs[lo])
        invariant
            lo <= cs@.len(),
            trim_start_by(cs@, m) == trim_start_by(cs@.subrange(lo as int, cs@.len() as int), m),
        decreases cs.len() - lo,
    {
        assert(cs@.subrange(lo as int, cs@.len() as int).drop_first() =~= cs@.subrange(
            lo + 1,
            cs@.len() as int,
        ));
        lo = lo + 1;
    }
    assert(trim_start_by(cs@, m) == cs@.subrange(lo as int, cs@.len() as int));
    let mut hi: usize = cs.len();
    while hi > lo && strips_char(m, cs[hi - 1])
        invariant
            lo <= hi <= cs@.len(),
            trim_by(cs@, m) == trim_end_by(cs@.subrange(lo as int, hi as int), m),
        decreases hi,
    {
        assert(cs@.subrange(lo as int, hi as int).drop_last() =~= cs@.subrange(
            lo as int,
            hi - 1,
        ));
        hi = hi - 1;
    }
    (lo, hi)
}

/// `char::to_ascii_lowercase`.
pub open spec fn lower(c: char) -> char {
    if 'A' <= c <= 'Z' {
        ((c as u32) + 32) as char
    } else {
        c
    }
}

/// `str::to_ascii_lowercase`.
pub open spec fn lower_seq(s: Seq<char>) -> Seq<char> {
    s.map_values(|c: char| lower(c))
}

pub fn lower_char(c: char) -> (r: char)
    ensures
        r == lower(c),
{
    if 'A' <= c && c <= 'Z' {
        let u = (c as u32) + 32;
        assert(0x61 <= u <= 0x7a);
        char_from_ascii(u)
    } else {
        c
    }
}

/// The character with a given ASCII code point.
fn char_from_ascii(u: u32) -> (c: char)
    requires
        u < 128,
    ensures
        c == u as char,
{
    let b = u as u8;
    b as char
}

pub fn lower_chars(cs: &[char]) -> (v: Vec<char>)
    ensures
        v@ == lower_seq(cs@),
{
    let mut v: Vec<char> = Vec::new();
    let mut i: usize = 0;
    while i < cs.len()
        invariant
            i <= cs@.len(),
            v@ == lower_seq(cs@.take(i as int)),
        decreases cs.len() - i,
    {
        v.push(lower_char(cs[i]));
        i = i + 1;
        assert(lower_seq(cs@.take(i as int)) =~= lower_seq(cs@.take(i - 1)).push(lower(cs@[i - 1])));
    }
    assert(cs@.take(cs.len() as int) =~= cs@);
    v
}

/// The first index of `c` in `cs`.
pub fn find_char(cs: &[char], c: char) -> (r: Option<usize>)
    ensures
        match r {
            Some(i) => crate::search::first_occurrence(cs@, seq![c]) == Some(i as int),
            None => crate::search::first_occurrence(cs@, seq![c]) is None,
        },
{
    let r = find_chars(cs, &[c]);
    proof {
        assert([c]@ =~= seq![c]);
    }
    r
}

/// The first index where `needle` occurs in `hay`.
pub fn find_chars(hay: &[char], needle: &[char]) -> (r: Option<usize>)
    ensures
        match r {
            Some(i) => crate::search::first_occurrence(hay@, needle@) == Some(i as int),
            None => crate::search::first_occurrence(hay@, needle@) is None,
        },
{
    let hl = hay.len();
    let mut i: usize = 0;
    while i <= hl && needle.len() <= hl - i
        invariant
            hl == hay@.len(),
            i <= hay@.len() + 1,
            forall|j: int| 0 <= j < i ==> !crate::search::occurs_at(hay@, needle@, j),
        decreases hl + 1 - i,
    {
        let mut k: usize = 0;
        let mut same = true;
        while k < needle.len()
            invariant
                k <= needle@.len(),
                hl == hay@.len(),
                i + needle@.len() <= hl,
                same == (forall|t: int| 0 <= t < k ==> hay@[i + t] == needle@[t]),
            decreases needle.len() - k,
        {
            if hay[i + k] != needle[k] {
                same = false;
            }
            k = k + 1;
        }
        proof {
            if same {
                assert(hay@.subrange(i as int, i + needle@.len()) =~= needle@);
            } else {
                let t = choose|t: int| 0 <= t < needle@.len() && hay@[i + t] != needle@[t];
                if crate::search::occurs_at(hay@, needle@, i as int) {
                    assert(hay@.subrange(i as int, i + needle@.len())[t] == needle@[t]);
                }
            }
        }
        if same {
            proof {
                crate::search::lemma_first_occurrence_unique(hay@, needle@, Some(i as int));
            }
            return Some(i);
        }
        i = i + 1;
    }
    proof {
        crate::search::lemma_first_occurrence_unique(hay@, needle@, None);
    }
    None
}

} // verus!

verus! {

/// The value of a digit character in any radix up to 36 (`char::to_digit`
/// before the radix check); 36 for characters that are no digit at all.
pub open spec fn digit_value(c: char) -> nat {
    let u = c as u32;
    if 48 <= u <= 57 {
        (u - 48) as nat
    } else if 97 <= u <= 122 {
        (u - 87) as nat
    } else if 65 <= u <= 90 {
        (u - 55) as nat
    } else {
        36
    }
}

pub open spec fn all_digits(s: Seq<char>, radix: nat) -> bool {
    forall|i: int| 0 <= i < s.len() ==> #[trigger] digit_value(s[i]) < radix
}

/// The number written by the digits `s` in base `radix`.
pub open spec fn digits_value(s: Seq<char>, radix: nat) -> nat
    decreases s.len(),
{
    if s.len() == 0 {
        0
    } else {
        digits_value(s.drop_last(), radix) * radix + digit_value(s.last())
    }
}

/// `usize::from_str_radix(s, radix).ok()`: an optional `+`, then at least one
/// digit, and a value that fits in a `usize`.
pub open spec fn parse_uint(s: Seq<char>, radix: nat) -> Option<nat> {
    let d = if s.len() > 0 && s[0] == '+' {
        s.drop_first()
    } else {
        s
    };
    if d.len() == 0 || !all_digits(d, radix) || digits_value(d, radix) > usize::MAX {
        None
    } else {
        Some(digits_value(d, radix))
    }
}

fn digit_of(c: char) -> (d: u32)
    ensures
        d == digit_value(c),
{
    let u = c as u32;
    if 48 <= u && u <= 57 {
        u - 48
    } else if 97 <= u && u <= 122 {
        u - 87
    } else if 65 <= u && u <= 90 {
        u - 55
    } else {
        36
    }
}

proof fn lemma_digits_value_grows(s: Seq<char>, radix: nat, k: int)
    requires
        radix >= 1,
        0 <= k <= s.len(),
    ensures
        digits_value(s.take(k), radix) <= digits_value(s, radix),
    decreases s.len(),
{
    if k < s.len() {
        assert(s.drop_last().take(k) =~= s.take(k));
        lemma_digits_value_grows(s.drop_last(), radix, k);
        let p = digits_value(s.drop_last(), radix);
        assert(p * radix >= p) by (nonlinear_arith)
            requires
                radix >= 1,
        ;
    } else {
        assert(s.take(k) =~= s);
    }
}

/// `usize::from_str_radix` over characters.
pub fn parse_uint_chars(s: &[char], radix: usize) -> (r: Option<usize>)
    requires
        2 <= radix <= 36,
    ensures
        match r {
            Some(v) => parse_uint(s@, radix as nat) == Some(v as nat),
            None => parse_uint(s@, radix as nat) is None,
        },
{
    if s.len() == 0 {
        return None;
    }
    let start: usize = if s[0] == '+' {
        1
    } else {
        0
    };
    let ghost d = if s@.len() > 0 && s@[0] == '+' {
        s@.drop_first()
    } else {
        s@
    };
    assert(d =~= s@.subrange(start as int, s@.len() as int));
    if start == s.len() {
        return None;
    }
    let mut v: usize = 0;
    let mut i: usize = start;
    while i < s.len()
        invariant
            start <= i <= s@.len(),
            d == s@.subrange(start as int, s@.len() as int),
            d == (if s@.len() > 0 && s@[0] == '+' {
                s@.drop_first()
            } else {
                s@
            }),
            2 <= radix <= 36,
            all_digits(d.take(i - start), radix as nat),
            v as nat == digits_value(d.take(i - start), radix as nat),
        decreases s.len() - i,
    {
        let dg = digit_of(s[i]);
        let ghost k = i - start;
        assert(d[k] == s@[i as int]);
        assert(d.take(k + 1).drop_last() =~= d.take(k));
        assert(d.take(k + 1).last() == d[k]);
        if dg as usize >= radix {
            assert(!all_digits(d, radix as nat)) by {
                assert(digit_value(d[k]) >= radix);
            }
            return None;
        }
        match v.checked_mul(radix) {
            Some(m) => {
                match m.checked_add(dg as usize) {
                    Some(n) => {
                        v = n;
                    },
                    None => {
                        proof {
                            lemma_digits_value_grows(d, radix as nat, k + 1);
                        }
                        return None;
                    },
                }
            },
            None => {
                proof {
                    assert(v * radix + dg >= v * radix);
                    lemma_digits_value_grows(d, radix as nat, k + 1);
                }
                return None;
            },
        }
        i = i + 1;
        assert forall|t: int| 0 <= t < d.take(i - start).len() implies #[trigger] digit_value(
            d.take(i - start)[t],
        ) < radix by {
            if t < k {
                assert(d.take(i - start)[t] == d.take(k)[t]);
            }
        }
    }
    assert(d.take(d.len() as int) =~= d);
    Some(v)
}

/// The decimal digits of `n`, as ASCII bytes.
pub open spec fn dec_digits(n: nat) -> Seq<u8>
    decreases n,
{
    if n < 10 {
        seq![(48 + n) as u8]
    } else {
        dec_digits(n / 10).push((48 + n % 10) as u8)
    }
}

/// Appends the decimal digits of `n` to `out`.
pub fn push_decimal(out: &mut Vec<u8>, n: u64)
    ensures
        final(out)@ == old(out)@ + dec_digits(n as nat),
    decreases n,
{
    if n >= 10 {
        push_decimal(out, n / 10);
    }
    out.push((48 + n % 10) as u8);
    proof {
        if n >= 10 {
            assert(final(out)@ =~= old(out)@ + dec_digits(n as nat));
        } else {
            assert(final(out)@ =~= old(out)@ + dec_digits(n as nat));
        }
    }
}

} // verus!

verus! {

/// The UTF-8 encoding of a character sequence.
pub open spec fn utf8(s: Seq<char>) -> Seq<u8> {
    vstd::utf8::encode_utf8(s)
}

/// Appends `b` to `out`.
pub fn append_bytes(out: &mut Vec<u8>, b: &[u8])
    ensures
        final(out)@ == old(out)@ + b@,
{
    let mut i: usize = 0;
    while i < b.len()
        invariant
            i <= b@.len(),
            out@ == old(out)@ + b@.take(i as int),
        decreases b.len() - i,
    {
        out.push(b[i]);
        i = i + 1;
        assert(old(out)@ + b@.take(i as int) =~= old(out)@ + b@.take(i - 1) + seq![b@[i - 1]]);
    }
    assert(b@.take(b@.len() as int) =~= b@);
}

/// Appends the UTF-8 bytes of `s` to `out`.
pub fn append_str(out: &mut Vec<u8>, s: &str)
    ensures
        final(out)@ == old(out)@ + utf8(s@),
{
    append_bytes(out, s.as_bytes());
}

/// The string slice that `b` holds, when `b` is valid UTF-8 (`std::str::from_utf8`).
/// The contract claims what std documents: the call fails exactly when the
/// bytes are not valid UTF-8, and otherwise the string has exactly these bytes.
#[verifier::external_body]
fn str_from_utf8(b: &[u8]) -> (r: Option<&str>)
    ensures
        r is Some <==> vstd::utf8::valid_utf8(b@),
        r matches Some(s) ==> vstd::utf8::encode_utf8(s@) == b@,
{
    std::str::from_utf8(b).ok()
}

/// The characters that `b` encodes, when `b` is valid UTF-8.
pub fn decode_chars(b: &[u8]) -> (r: Option<Vec<char>>)
    ensures
        r is Some <==> vstd::utf8::valid_utf8(b@),
        r matches Some(v) ==> v@ == vstd::utf8::decode_utf8(b@),
{
    match str_from_utf8(b) {
        Some(s) => {
            proof {
                vstd::utf8::encode_utf8_decode_utf8(s@);
            }
            Some(chars_of(s))
        },
        None => None,
    }
}

} // verus!

verus! {

/// Length of the run of non-white-space characters at the start of `s`.
pub open spec fn word_len(s: Seq<char>) -> nat
    decreases s.len(),
{
    if s.len() == 0 || is_ws(s[0]) {
        0
    } else {
        1 + word_len(s.drop_first())
    }
}

pub proof fn lemma_word_len(s: Seq<char>)
    ensures
        word_len(s) <= s.len(),
        s.len() > 0 && !is_ws(s[0]) ==> word_len(s) >= 1,
    decreases s.len(),
{
    if s.len() > 0 && !is_ws(s[0]) {
        lemma_word_len(s.drop_first());
    }
}

pub proof fn lemma_word_len_exact(s: Seq<char>, k: int)
    requires
        0 <= k <= s.len(),
        forall|i: int| 0 <= i < k ==> !is_ws(s[i]),
        k == s.len() || is_ws(s[k]),
    ensures
        word_len(s) == k,
    decreases s.len(),
{
    if k > 0 {
        lemma_word_len_exact(s.drop_first(), k - 1);
    }
}

/// The words of `s` between runs of white space (`str::split_whitespace`).
pub open spec fn tokens(s: Seq<char>) -> Seq<Seq<char>>
    decreases s.len(),
{
    if s.len() == 0 {
        Seq::empty()
    } else if is_ws(s[0]) {
        tokens(s.drop_first())
    } else {
        proof {
            lemma_word_len(s);
        }
        seq![s.take(word_len(s) as int)] + tokens(s.skip(word_len(s) as int))
    }
}

/// The next word of `cs` at or after `from`, as bounds.
pub fn next_token(cs: &[char], from: usize) -> (r: Option<(usize, usize)>)
    requires
        from <= cs@.len(),
    ensures
        match r {
            None => tokens(cs@.skip(from as int)) == Seq::<Seq<char>>::empty(),
            Some((a, b)) => from <= a < b <= cs@.len() && tokens(cs@.skip(from as int)) == seq![
                cs@.subrange(a as int, b as int),
            ] + tokens(cs@.skip(b as int)),
        },
{
    let mut a = from;
    while a < cs.len() && is_ws_char(cs[a])
        invariant
            from <= a <= cs@.len(),
            tokens(cs@.skip(from as int)) == tokens(cs@.skip(a as int)),
        decreases cs.len() - a,
    {
        assert(cs@.skip(a as int).drop_first() =~= cs@.skip(a + 1));
        a = a + 1;
    }
    if a == cs.len() {
        assert(cs@.skip(a as int).len() == 0);
        return None;
    }
    let mut b = a + 1;
    while b < cs.len() && !is_ws_char(cs[b])
        invariant
            a < b <= cs@.len(),
            forall|i: int| a <= i < b ==> !is_ws(cs@[i]),
        decreases cs.len() - b,
    {
        b = b + 1;
    }
    proof {
        let t = cs@.skip(a as int);
        lemma_word_len_exact(t, b - a);
        assert(t.take(b - a) =~= cs@.subrange(a as int, b as int));
        assert(t.skip(b - a) =~= cs@.skip(b as int));
    }
    Some((a, b))
}

/// `cs[a..b]` spells `lit`.
pub fn slice_is(cs: &[char], a: usize, b: usize, lit: &str) -> (r: bool)
    requires
        a <= b <= cs@.len(),
    ensures
        r == (cs@.subrange(a as int, b as int) == lit@),
{
    let l = chars_of(lit);
    if b - a != l.len() {
        return false;
    }
    let mut i: usize = 0;
    while i < l.len()
        invariant
            i <= l@.len(),
            l@.len() == b - a,
            l@ == lit@,
            a <= b <= cs@.len(),
            forall|j: int| 0 <= j < i ==> cs@[a + j] == l@[j],
        decreases l.len() - i,
    {
        if cs[a + i] != l[i] {
            assert(cs@.subrange(a as int, b as int)[i as int] != l@[i as int]);
            return false;
        }
        i = i + 1;
    }
    assert(cs@.subrange(a as int, b as int) =~= l@);
    true
}

} // verus!

verus! {

/// `needle` occurs somewhere in `hay`.
pub open spec fn contains(hay: Seq<char>, needle: Seq<char>) -> bool {
    crate::search::first_occurrence(hay, needle) is Some
}

/// Whether `needle` occurs in `hay`.
pub fn contains_chars(hay: &[char], needle: &[char]) -> (b: bool)
    ensures
        b == contains(hay@, needle@),
{
    crate::text::find_chars(hay, needle).is_some()
}

} // verus!

verus! {

/// The decimal digits of `n`, as characters.
pub open spec fn dec_chars(n: nat) -> Seq<char>
    decreases n,
{
    if n < 10 {
        seq![((48 + n) as u8) as char]
    } else {
        dec_chars(n / 10).push(((48 + n % 10) as u8) as char)
    }
}

fn push_dec_chars(out: &mut Vec<char>, n: u64)
    ensures
        final(out)@ == old(out)@ + dec_chars(n as nat),
    decreases n,
{
    if n >= 10 {
        push_dec_chars(out, n / 10);
    }
    let d = (48 + n % 10) as u8;
    out.push(d as char);
    assert(final(out)@ =~= old(out)@ + dec_chars(n as nat));
}

/// `n` written in decimal.
pub fn decimal_string(n: u64) -> (s: String)
    ensures
        s@ == dec_chars(n as nat),
{
    let mut v: Vec<char> = Vec::new();
    push_dec_chars(&mut v, n);
    assert(v@ =~= dec_chars(n as nat));
    string_of(v.as_slice())
}

} // verus!

verus! {

/// Where the part of `cs` without its leading characters of `m` starts.
pub fn trim_start_bound(cs: &[char], m: Strip) -> (a: usize)
    ensures
        a <= cs@.len(),
        cs@.skip(a as int) == trim_start_by(cs@, m),
{
    let mut lo: usize = 0;
    assert(cs@.subrange(0, cs@.len() as int) =~= cs@);
    while lo < cs.len() && strips_char(m, cs[lo])
        invariant
            lo <= cs@.len(),
            trim_start_by(cs@, m) == trim_start_by(cs@.subrange(lo as int, cs@.len() as int), m),
        decreases cs.len() - lo,
    {
        assert(cs@.subrange(lo as int, cs@.len() as int).drop_first() =~= cs@.subrange(
            lo + 1,
            cs@.len() as int,
        ));
        lo = lo + 1;
    }
    assert(cs@.skip(lo as int) =~= cs@.subrange(lo as int, cs@.len() as int));
    lo
}

} // verus!
