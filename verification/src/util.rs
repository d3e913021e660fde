//! The clock, random session tokens and the `Date` header.

use vstd::prelude::*;
use std::hash::BuildHasher;
use crate::text::dec_chars;

verus! {

#[verifier::external_type_specification]
#[verifier::external_body]
pub struct ExSystemTime(std::time::SystemTime);

#[verifier::external_type_specification]
#[verifier::external_body]
pub struct ExInstant(std::time::Instant);

/// The current moment of the monotonic clock (`Instant::now`). Nothing is
/// claimed of it.
#[verifier::external_body]
pub(crate) fn instant_now() -> (t: std::time::Instant) {
    std::time::Instant::now()
}

/// The time elapsed since `t` on the monotonic clock (`Instant::elapsed`).
/// Nothing is claimed of the duration.
#[verifier::external_body]
pub(crate) fn instant_elapsed(t: &std::time::Instant) -> (d: std::time::Duration) {
    t.elapsed()
}

/// The current time (`SystemTime::now`). Nothing is claimed of it.
#[verifier::external_body]
fn system_now() -> (t: std::time::SystemTime) {
    std::time::SystemTime::now()
}

/// How long after the Unix epoch `t` lies (`SystemTime::duration_since`),
/// `None` for a time before it. Nothing is claimed of the duration.
#[verifier::external_body]
fn since_epoch(t: &std::time::SystemTime) -> (d: Option<std::time::Duration>) {
    match t.duration_since(std::time::UNIX_EPOCH) {
        Ok(d) => Some(d),
        Err(_) => None,
    }
}

/// The largest number of whole milliseconds a `Duration` holds: it counts
/// at most `u64::MAX` seconds and fewer than a second of nanoseconds.
pub open spec fn max_millis() -> u128 {
    ((u64::MAX as u128) * 1000 + 999) as u128
}

/// The whole milliseconds of a duration (`Duration::as_millis`); the
/// contract claims only the range that a `Duration` can hold.
#[verifier::external_body]
pub(crate) fn duration_millis(d: &std::time::Duration) -> (ms: u128)
    ensures
        ms <= max_millis(),
{
    d.as_millis()
}

/// Milliseconds since the Unix epoch, now; 0 while the clock is set before it.
pub fn now_ms() -> (t: u128)
    ensures
        t <= max_millis(),
{
    let now = system_now();
    match since_epoch(&now) {
        Some(d) => duration_millis(&d),
        None => 0,
    }
}

/// Fresh random keys for hashing (`RandomState::new`). Nothing is claimed of them.
#[verifier::external_body]
fn random_state() -> (s: std::collections::hash_map::RandomState) {
    std::collections::hash_map::RandomState::new()
}

/// The hash of `x` under the keys of `s` (`BuildHasher::hash_one`).
/// Nothing is claimed of it.
#[verifier::external_body]
fn hash_one(s: &std::collections::hash_map::RandomState, x: u64) -> (h: u64) {
    s.hash_one(x)
}

/// A lower-case hexadecimal digit.
pub open spec fn is_hex_digit(c: char) -> bool {
    ('0' <= c <= '9') || ('a' <= c <= 'f')
}

/// A session token: `n` lower-case hexadecimal digits.
pub open spec fn is_token(t: Seq<char>, n: nat) -> bool {
    t.len() == n && forall|i: int| 0 <= i < t.len() ==> is_hex_digit(#[trigger] t[i])
}

/// The hexadecimal digit of `d` (0 to 15), in lower case.
pub open spec fn hex_digit_char(d: u64) -> char {
    if d < 10 {
        ((48 + d) as u8) as char
    } else {
        ((87 + d) as u8) as char
    }
}

/// Digit `k` (0 to 15, from the least significant) of the word `w` in hexadecimal.
pub open spec fn word_digit(w: u64, k: int) -> u64 {
    (w >> ((4 * k) as u64)) & 15u64
}

/// The token made of random words: digit `i` is digit `i % 16` of word
/// `i / 16`, each word giving sixteen digits.
pub open spec fn token_of(words: Seq<u64>, n: nat) -> Seq<char> {
    Seq::new(n, |i: int| hex_digit_char(word_digit(words[i / 16], i % 16)))
}

fn hex_char(d: u64) -> (c: char)
    requires
        d < 16,
    ensures
        c == hex_digit_char(d),
        is_hex_digit(c),
{
    if d < 10 {
        let b = (48 + d) as u8;
        b as char
    } else {
        let b = (87 + d) as u8;
        b as char
    }
}

/// The first `n` hexadecimal digits of `words`, sixteen to a word, the
/// least significant first.
pub fn token_digits(words: &[u64], n: usize) -> (t: String)
    requires
        n <= words@.len() * 16,
    ensures
        t@ == token_of(words@, n as nat),
        is_token(t@, n as nat),
{
    let mut out: Vec<char> = Vec::new();
    let mut i: usize = 0;
    while i < n
        invariant
            i <= n,
            n <= words@.len() * 16,
            out@ == token_of(words@, n as nat).take(i as int),
            forall|j: int| 0 <= j < out@.len() ==> is_hex_digit(#[trigger] out@[j]),
        decreases n - i,
    {
        let w = words[i / 16];
        let k = (i % 16) as u64;
        let d = (w >> (4 * k)) & 15;
        assert(d < 16) by (bit_vector)
            requires
                d == (w >> (4 * k)) & 15,
        ;
        assert(d == word_digit(words@[(i / 16) as int], (i % 16) as int));
        out.push(hex_char(d));
        i = i + 1;
        assert(out@ =~= token_of(words@, n as nat).take(i as int));
    }
    assert(out@ =~= token_of(words@, n as nat));
    crate::text::string_of(out.as_slice())
}

/// A random token of `n` lower-case hexadecimal digits: the digits of
/// random words drawn for it, sixteen to a word.
pub fn gen_token(n: usize) -> (t: String)
    ensures
        is_token(t@, n as nat),
        exists|words: Seq<u64>| n <= words.len() * 16 && t@ == #[trigger] token_of(words, n as nat),
{
    let keys = random_state();
    let mut words: Vec<u64> = Vec::new();
    let mut round: u64 = 0;
    let count = if n % 16 == 0 {
        n / 16
    } else {
        n / 16 + 1
    };
    while words.len() < count
        invariant
            words@.len() <= count,
            n <= count * 16,
        decreases count - words@.len(),
    {
        words.push(hash_one(&keys, round));
        round = round.wrapping_add(1);
    }
    token_digits(words.as_slice(), n)
}

/// A leap year of the Gregorian calendar.
pub open spec fn is_leap(y: int) -> bool {
    (y % 4 == 0 && y % 100 != 0) || y % 400 == 0
}

/// The number of days of year `y`.
pub open spec fn year_days(y: int) -> nat {
    if is_leap(y) {
        366
    } else {
        365
    }
}

/// The number of days of month `m` (1 to 12) of year `y`.
pub open spec fn month_days(y: int, m: int) -> nat {
    if m == 2 {
        if is_leap(y) {
            29
        } else {
            28
        }
    } else if m == 4 || m == 6 || m == 9 || m == 11 {
        30
    } else {
        31
    }
}

/// The year, and the day within it (from 0), of the day `days` after the
/// first day of year `y`.
pub open spec fn year_and_day(days: nat, y: int) -> (int, nat)
    decreases days,
{
    if days < year_days(y) {
        (y, days)
    } else {
        year_and_day((days - year_days(y)) as nat, y + 1)
    }
}

/// The month, and the day within it (from 0), of the day `doy` of year `y`,
/// counting months from `m`; December takes what is left.
pub open spec fn month_and_day(doy: nat, y: int, m: int) -> (int, nat)
    decreases doy,
{
    if m >= 12 || doy < month_days(y, m) {
        (m, doy)
    } else {
        month_and_day((doy - month_days(y, m)) as nat, y, m + 1)
    }
}

/// `n` in decimal, with a leading zero below ten (`{:02}`).
pub open spec fn pad2(n: nat) -> Seq<char> {
    if n < 10 {
        seq!['0'] + dec_chars(n)
    } else {
        dec_chars(n)
    }
}

/// The English abbreviation of a day of the week; day 0 of the Unix epoch was a Thursday.
pub open spec fn weekday_name(k: nat) -> Seq<char> {
    if k == 0 {
        "Thu"@
    } else if k == 1 {
        "Fri"@
    } else if k == 2 {
        "Sat"@
    } else if k == 3 {
        "Sun"@
    } else if k == 4 {
        "Mon"@
    } else if k == 5 {
        "Tue"@
    } else {
        "Wed"@
    }
}

/// The English abbreviation of month `m` (1 to 12).
pub open spec fn month_name(m: int) -> Seq<char> {
    if m == 1 {
        "Jan"@
    } else if m == 2 {
        "Feb"@
    } else if m == 3 {
        "Mar"@
    } else if m == 4 {
        "Apr"@
    } else if m == 5 {
        "May"@
    } else if m == 6 {
        "Jun"@
    } else if m == 7 {
        "Jul"@
    } else if m == 8 {
        "Aug"@
    } else if m == 9 {
        "Sep"@
    } else if m == 10 {
        "Oct"@
    } else if m == 11 {
        "Nov"@
    } else {
        "Dec"@
    }
}

/// The IMF-fixdate (RFC 7231) of the moment `secs` seconds after the Unix
/// epoch, such as `Thu, 01 Jan 1970 00:00:00 GMT`.
pub open spec fn imf_date(secs: nat) -> Seq<char> {
    let days = secs / 86400;
    let rem = secs % 86400;
    let (y, doy) = year_and_day(days, 1970);
    let (m, d) = month_and_day(doy, y, 1);
    weekday_name(days % 7) + ", "@ + pad2(d + 1) + " "@ + month_name(m) + " "@ + dec_chars(y as nat) + " "@
        + pad2(rem / 3600) + ":"@ + pad2(rem % 3600 / 60) + ":"@ + pad2(rem % 60) + " GMT"@
}

fn weekday_str(k: u64) -> (s: &'static str)
    requires
        k < 7,
    ensures
        s@ == weekday_name(k as nat),
{
    match k {
        0 => "Thu",
        1 => "Fri",
        2 => "Sat",
        3 => "Sun",
        4 => "Mon",
        5 => "Tue",
        _ => "Wed",
    }
}

fn month_str(m: u64) -> (s: &'static str)
    ensures
        s@ == month_name(m as int),
{
    match m {
        1 => "Jan",
        2 => "Feb",
        3 => "Mar",
        4 => "Apr",
        5 => "May",
        6 => "Jun",
        7 => "Jul",
        8 => "Aug",
        9 => "Sep",
        10 => "Oct",
        11 => "Nov",
        _ => "Dec",
    }
}

fn leap(y: u64) -> (b: bool)
    ensures
        b == is_leap(y as int),
{
    (y % 4 == 0 && y % 100 != 0) || y % 400 == 0
}

fn push_str(out: &mut Vec<char>, s: &str)
    ensures
        final(out)@ == old(out)@ + s@,
{
    let cs = crate::text::chars_of(s);
    let mut i: usize = 0;
    while i < cs.len()
        invariant
            i <= cs@.len(),
            cs@ == s@,
            out@ == old(out)@ + cs@.take(i as int),
        decreases cs.len() - i,
    {
        out.push(cs[i]);
        i = i + 1;
        assert(out@ =~= old(out)@ + cs@.take(i as int));
    }
    assert(cs@.take(cs@.len() as int) =~= cs@);
}

fn push_pad2(out: &mut Vec<char>, n: u64)
    ensures
        final(out)@ == old(out)@ + pad2(n as nat),
{
    if n < 10 {
        out.push('0');
    }
    let d = crate::text::decimal_string(n);
    push_str(out, d.as_str());
    assert(final(out)@ =~= old(out)@ + pad2(n as nat));
}

/// The IMF-fixdate of the moment `secs` seconds after the Unix epoch.
pub fn http_date_of(secs: u64) -> (s: String)
    ensures
        s@ == imf_date(secs as nat),
{
    let days0 = secs / 86400;
    let rem = secs % 86400;
    let mut days = days0;
    let mut y: u64 = 1970;
    loop
        invariant
            days <= days0,
            days0 == secs / 86400,
            1970 <= y,
            (y - 1970) * 365 <= days0 - days,
            year_and_day(days0 as nat, 1970) == year_and_day(days as nat, y as int),
        ensures
            year_and_day(days0 as nat, 1970) == (y as int, days as nat),
        decreases days,
    {
        let len: u64 = if leap(y) {
            366
        } else {
            365
        };
        if days < len {
            break;
        }
        days = days - len;
        y = y + 1;
    }
    let mut doy = days;
    let mut m: u64 = 1;
    loop
        invariant
            1 <= m <= 12,
            doy <= days,
            month_and_day(days as nat, y as int, 1) == month_and_day(doy as nat, y as int, m as int),
        ensures
            1 <= m <= 12,
            month_and_day(days as nat, y as int, 1) == (m as int, doy as nat),
        decreases doy,
    {
        let ml: u64 = if m == 2 {
            if leap(y) {
                29
            } else {
                28
            }
        } else if m == 4 || m == 6 || m == 9 || m == 11 {
            30
        } else {
            31
        };
        if m >= 12 || doy < ml {
            break;
        }
        doy = doy - ml;
        m = m + 1;
    }
    let mut out: Vec<char> = Vec::new();
    push_str(&mut out, weekday_str(days0 % 7));
    push_str(&mut out, ", ");
    push_pad2(&mut out, doy + 1);
    push_str(&mut out, " ");
    push_str(&mut out, month_str(m));
    push_str(&mut out, " ");
    let ys = crate::text::decimal_string(y);
    push_str(&mut out, ys.as_str());
    push_str(&mut out, " ");
    push_pad2(&mut out, rem / 3600);
    push_str(&mut out, ":");
    push_pad2(&mut out, rem % 3600 / 60);
    push_str(&mut out, ":");
    push_pad2(&mut out, rem % 60);
    push_str(&mut out, " GMT");
    assert(out@ =~= imf_date(secs as nat));
    crate::text::string_of(out.as_slice())
}

/// The whole seconds of a duration (`Duration::as_secs`). Nothing is claimed of them.
#[verifier::external_body]
fn duration_secs(d: &std::time::Duration) -> (secs: u64) {
    d.as_secs()
}

/// The `Date` header value of a moment; a moment before the Unix epoch is
/// dated at the epoch.
pub fn http_date(t: std::time::SystemTime) -> (s: String)
    ensures
        exists|secs: u64| s@ == #[trigger] imf_date(secs as nat),
{
    let secs = match since_epoch(&t) {
        Some(d) => duration_secs(&d),
        None => 0,
    };
    http_date_of(secs)
}

/// The `Date` header value of the current time.
pub fn http_date_now() -> (s: String)
    ensures
        exists|secs: u64| s@ == #[trigger] imf_date(secs as nat),
{
    http_date(system_now())
}

} // verus!
