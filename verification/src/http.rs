//! HTTP/1.1 text: the HEAD and ranged GET requests the downloader sends, the
//! `Content-Length` it reads back, and where a response body begins.
use vstd::prelude::*;
use vstd::string::StringExecFns;

use crate::decimal::{
    all_digits, digits_value, lemma_parse_plain_digits, append_decimal, decimal_text, is_digit, lemma_decimal_text,
    lemma_parse_decimal_roundtrip, parse_u64, spec_parse_u64,
};
use crate::text::{chars_of, is_whitespace, trim, trim_bounds, trim_end, trim_start};
use vstd::string::StringSliceAdditionalSpecFns;
use vstd::utf8::{decode_utf8, valid_utf8};

verus! {

/// The HEAD request that asks `host` for the headers of `path`.
pub open spec fn head_request_text(host: Seq<char>, path: Seq<char>) -> Seq<char> {
    "HEAD "@ + path + " HTTP/1.1\r\nHost: "@ + host + "\r\nConnection: close\r\n\r\n"@
}

/// The value of a `Range` header for the bytes `start..=end`.
pub open spec fn range_value_text(start: u64, end: u64) -> Seq<char> {
    "bytes="@ + decimal_text(start as nat) + "-"@ + decimal_text(end as nat)
}

/// The GET request that asks `host` for the bytes `start..=end` of `path`.
pub open spec fn range_request_text(host: Seq<char>, path: Seq<char>, start: u64, end: u64) -> Seq<
    char,
> {
    "GET "@ + path + " HTTP/1.1\r\nHost: "@ + host + "\r\nRange: "@ + range_value_text(start, end)
        + "\r\nConnection: close\r\n\r\n"@
}

/// Builds the HEAD request for `url` on `host`.
pub fn head_request(host: &str, url: &str) -> (r: String)
    ensures
        r@ == head_request_text(host@, url@),
{
    let mut r = String::new();
    r.append("HEAD ");
    r.append(url);
    r.append(" HTTP/1.1\r\nHost: ");
    r.append(host);
    r.append("\r\nConnection: close\r\n\r\n");
    assert(r@ =~= head_request_text(host@, url@));
    r
}

/// Builds the `Range` header value `bytes=start-end`.
pub fn range_header_value(start: u64, end: u64) -> (r: String)
    ensures
        r@ == range_value_text(start, end),
{
    let mut r = String::new();
    r.append("bytes=");
    append_decimal(&mut r, start);
    r.append("-");
    append_decimal(&mut r, end);
    assert(r@ =~= range_value_text(start, end));
    r
}

/// Builds the GET request for the bytes `start..=end` of `url` on `host`.
pub fn range_request(host: &str, url: &str, start: u64, end: u64) -> (r: String)
    ensures
        r@ == range_request_text(host@, url@, start, end),
{
    let mut r = String::new();
    r.append("GET ");
    r.append(url);
    r.append(" HTTP/1.1\r\nHost: ");
    r.append(host);
    r.append("\r\nRange: ");
    let range = range_header_value(start, end);
    r.append(range.as_str());
    r.append("\r\nConnection: close\r\n\r\n");
    assert(r@ =~= range_request_text(host@, url@, start, end));
    r
}

/// The HEAD request carries the URL and the host verbatim: it is `HEAD `,
/// the URL as given, ` HTTP/1.1`, a `Host:` line with the host as given, a
/// `Connection: close` line and a blank line.
pub proof fn lemma_head_request_layout(host: Seq<char>, url: Seq<char>)
    ensures
        head_request_text(host, url) == seq!['H', 'E', 'A', 'D', ' '] + url + seq![' ', 'H', 'T', 'T', 'P', '/', '1', '.', '1', '\r', '\n', 'H', 'o', 's', 't', ':', ' '] + host
            + seq!['\r', '\n', 'C', 'o', 'n', 'n', 'e', 'c', 't', 'i', 'o', 'n', ':', ' ', 'c', 'l', 'o', 's', 'e', '\r', '\n', '\r', '\n'],
        head_request_text(host, url).subrange(5, 5 + url.len() as int) == url,
{
    reveal_strlit("HEAD ");
    reveal_strlit(" HTTP/1.1\r\nHost: ");
    reveal_strlit("\r\nConnection: close\r\n\r\n");
    assert("HEAD "@ =~= seq!['H', 'E', 'A', 'D', ' ']);
    assert(" HTTP/1.1\r\nHost: "@ =~= seq![' ', 'H', 'T', 'T', 'P', '/', '1', '.', '1', '\r', '\n', 'H', 'o', 's', 't', ':', ' ']);
    assert("\r\nConnection: close\r\n\r\n"@ =~= seq!['\r', '\n', 'C', 'o', 'n', 'n', 'e', 'c', 't', 'i', 'o', 'n', ':', ' ', 'c', 'l', 'o', 's', 'e', '\r', '\n', '\r', '\n']);
    let t = head_request_text(host, url);
    assert(t.subrange(5, 5 + url.len() as int) =~= url);
}

/// The `Range` value is `bytes=`, the start in decimal, `-`, and the end in
/// decimal.
pub proof fn lemma_range_value_layout(start: u64, end: u64)
    ensures
        range_value_text(start, end) == seq!['b', 'y', 't', 'e', 's', '='] + decimal_text(
            start as nat,
        ) + seq!['-'] + decimal_text(end as nat),
{
    reveal_strlit("bytes=");
    reveal_strlit("-");
    assert("bytes="@ =~= seq!['b', 'y', 't', 'e', 's', '=']);
    assert("-"@ =~= seq!['-']);
}

/// The ranged GET request carries the URL and the host verbatim: it is
/// `GET `, the URL as given, ` HTTP/1.1`, a `Host:` line with the host as
/// given, a `Range:` line with the range value, a `Connection: close` line
/// and a blank line.
pub proof fn lemma_range_request_layout(host: Seq<char>, url: Seq<char>, start: u64, end: u64)
    ensures
        range_request_text(host, url, start, end) == seq!['G', 'E', 'T', ' '] + url + seq![' ', 'H', 'T', 'T', 'P', '/', '1', '.', '1', '\r', '\n', 'H', 'o', 's', 't', ':', ' ']
            + host + seq!['\r', '\n', 'R', 'a', 'n', 'g', 'e', ':', ' '] + range_value_text(start, end)
            + seq!['\r', '\n', 'C', 'o', 'n', 'n', 'e', 'c', 't', 'i', 'o', 'n', ':', ' ', 'c', 'l', 'o', 's', 'e', '\r', '\n', '\r', '\n'],
        range_request_text(host, url, start, end).subrange(4, 4 + url.len() as int) == url,
{
    reveal_strlit("GET ");
    reveal_strlit(" HTTP/1.1\r\nHost: ");
    reveal_strlit("\r\nRange: ");
    reveal_strlit("\r\nConnection: close\r\n\r\n");
    assert("GET "@ =~= seq!['G', 'E', 'T', ' ']);
    assert(" HTTP/1.1\r\nHost: "@ =~= seq![' ', 'H', 'T', 'T', 'P', '/', '1', '.', '1', '\r', '\n', 'H', 'o', 's', 't', ':', ' ']);
    assert("\r\nRange: "@ =~= seq!['\r', '\n', 'R', 'a', 'n', 'g', 'e', ':', ' ']);
    assert("\r\nConnection: close\r\n\r\n"@ =~= seq!['\r', '\n', 'C', 'o', 'n', 'n', 'e', 'c', 't', 'i', 'o', 'n', ':', ' ', 'c', 'l', 'o', 's', 'e', '\r', '\n', '\r', '\n']);
    let t = range_request_text(host, url, start, end);
    assert(t.subrange(4, 4 + url.len() as int) =~= url);
}

/// The length of the longest prefix of `s` that does not hold `c`.
pub open spec fn count_until(s: Seq<char>, c: char) -> nat
    decreases s.len(),
{
    if s.len() == 0 || s[0] == c {
        0
    } else {
        1 + count_until(s.drop_first(), c)
    }
}

/// The header name that the downloader looks for, with its colon.
pub open spec fn content_length_prefix() -> Seq<char> {
    seq!['C', 'o', 'n', 't', 'e', 'n', 't', '-', 'L', 'e', 'n', 'g', 't', 'h', ':']
}

/// The field of a `Content-Length:` line: what follows the first colon, up
/// to the next colon or the end of the line.
pub open spec fn length_field(line: Seq<char>) -> Seq<char> {
    let rest = line.skip(15);
    rest.take(count_until(rest, ':') as int)
}

/// The size that a response announces. The response is read line by line
/// (lines end at `\n`); the first line that starts with `Content-Length:`
/// decides: its field, trimmed, read as a `u64`, or `None` where it is not
/// one. With no such line the size is 0.
pub open spec fn content_length_of(text: Seq<char>) -> Option<u64>
    decreases text.len(),
{
    let n = count_until(text, '\n');
    let line = text.take(n as int);
    if line.len() >= 15 && line.take(15) == content_length_prefix() {
        spec_parse_u64(trim(length_field(line)))
    } else if n < text.len() {
        content_length_of(text.skip(n + 1 as int))
    } else {
        Some(0)
    }
}

/// The first position in `from..to` that holds `c`, or `to`.
fn find_char(s: &[char], c: char, from: usize, to: usize) -> (r: usize)
    requires
        from <= to <= s@.len(),
    ensures
        from <= r <= to,
        r - from == count_until(s@.subrange(from as int, to as int), c),
{
    let mut i = from;
    while i < to && s[i] != c
        invariant
            from <= i <= to <= s@.len(),
            count_until(s@.subrange(from as int, to as int), c) == (i - from) + count_until(
                s@.subrange(i as int, to as int),
                c,
            ),
        decreases to - i,
    {
        assert(s@.subrange(i as int, to as int).drop_first() =~= s@.subrange(i + 1, to as int));
        i = i + 1;
    }
    i
}

/// A copy of `s[from..to]`.
fn copy_range(s: &[char], from: usize, to: usize) -> (r: Vec<char>)
    requires
        from <= to <= s@.len(),
    ensures
        r@ == s@.subrange(from as int, to as int),
{
    let mut r: Vec<char> = Vec::new();
    let mut i = from;
    while i < to
        invariant
            from <= i <= to <= s@.len(),
            r@ == s@.subrange(from as int, i as int),
        decreases to - i,
    {
        r.push(s[i]);
        assert(s@.subrange(from as int, i + 1) =~= s@.subrange(from as int, i as int).push(s@[i as int]));
        i = i + 1;
    }
    r
}

/// Whether `s[at..]` starts with `pat`.
fn matches_at(s: &[char], at: usize, pat: &[char]) -> (r: bool)
    requires
        at <= s@.len(),
    ensures
        r == (at + pat@.len() <= s@.len() && s@.subrange(at as int, at + pat@.len()) == pat@),
{
    if pat.len() > s.len() - at {
        return false;
    }
    let mut k: usize = 0;
    while k < pat.len()
        invariant
            k <= pat@.len(),
            at + pat@.len() <= s@.len(),
            at + pat.len() <= s.len(),
            forall|j: int| 0 <= j < k ==> s@[at + j] == pat@[j],
        decreases pat.len() - k,
    {
        if s[at + k] != pat[k] {
            assert(s@.subrange(at as int, at + pat@.len())[k as int] != pat@[k as int]);
            return false;
        }
        k = k + 1;
    }
    assert(s@.subrange(at as int, at + pat@.len()) =~= pat@);
    true
}

/// The size announced by the first `Content-Length:` line of `response`,
/// 0 where no line starts so; `None` where that line's field is not a `u64`.
pub fn content_length_in_response(response: &str) -> (r: Option<u64>)
    ensures
        r == content_length_of(response@),
{
    let text = chars_of(response);
    let prefix: Vec<char> = vec!['C', 'o', 'n', 't', 'e', 'n', 't', '-', 'L', 'e', 'n', 'g', 't', 'h', ':'];
    assert(prefix@ =~= content_length_prefix());
    let len = text.len();
    let mut pos: usize = 0;
    assert(text@.skip(0) =~= text@);
    loop
        invariant
            pos <= len == text@.len(),
            prefix@ == content_length_prefix(),
            text@ == response@,
            content_length_of(text@) == content_length_of(text@.skip(pos as int)),
        decreases len - pos,
    {
        let ghost rest = text@.skip(pos as int);
        let end = find_char(&text, '\n', pos, len);
        assert(text@.subrange(pos as int, len as int) =~= rest);
        let ghost line = rest.take((end - pos) as int);
        assert(count_until(rest, '\n') == end - pos);
        assert(line =~= text@.subrange(pos as int, end as int));
        if end - pos >= 15 && matches_at(&text, pos, &prefix) && pos + 15 <= end {
            assert(line.take(15) =~= text@.subrange(pos as int, pos + 15));
            let colon = find_char(&text, ':', pos + 15, end);
            assert(line.skip(15) =~= text@.subrange(pos + 15, end as int));
            let field = copy_range(&text, pos + 15, colon);
            assert(field@ =~= length_field(line));
            let (lo, hi) = trim_bounds(&field);
            let value = copy_range(&field, lo, hi);
            return parse_u64(&value);
        }
        if end - pos >= 15 {
            assert(!(line.take(15) == content_length_prefix())) by {
                if line.take(15) == content_length_prefix() {
                    assert(text@.subrange(pos as int, pos + 15) =~= line.take(15));
                }
            }
        }
        if end < len {
            assert(rest.skip((end - pos) + 1) =~= text@.skip(end + 1));
            pos = end + 1;
        } else {
            return Some(0);
        }
    }
}

/// A blank line (`\r\n\r\n`) starts at `i`, with at least one byte after it.
pub open spec fn blank_line_at(r: Seq<u8>, i: int) -> bool {
    &&& 0 <= i
    &&& i + 4 < r.len()
    &&& r[i] == 13u8
    &&& r[i + 1] == 10u8
    &&& r[i + 2] == 13u8
    &&& r[i + 3] == 10u8
}

proof fn lemma_count_until_concat(a: Seq<char>, b: Seq<char>, c: char)
    requires
        forall|k: int| 0 <= k < a.len() ==> a[k] != c,
    ensures
        count_until(a + b, c) == a.len() + count_until(b, c),
    decreases a.len(),
{
    if a.len() > 0 {
        assert((a + b).drop_first() =~= a.drop_first() + b);
        lemma_count_until_concat(a.drop_first(), b, c);
    } else {
        assert(a + b =~= b);
    }
}

/// A line that does not start with `Content-Length:` is passed over: the
/// size read from the text is the size read from what follows that line.
pub proof fn lemma_content_length_skips_line(line: Seq<char>, rest: Seq<char>)
    requires
        forall|k: int| 0 <= k < line.len() ==> line[k] != '\n',
        !(line.len() >= 15 && line.take(15) == content_length_prefix()),
    ensures
        content_length_of(line + seq!['\n'] + rest) == content_length_of(rest),
{
    let text = line + seq!['\n'] + rest;
    assert(text =~= line + (seq!['\n'] + rest));
    lemma_count_until_concat(line, seq!['\n'] + rest, '\n');
    assert(count_until(seq!['\n'] + rest, '\n') == 0);
    assert(text.take(line.len() as int) =~= line);
    assert(text.skip(line.len() + 1 as int) =~= rest);
}

/// A first line `Content-Length: <n>` (ended by `\r\n`, whatever follows)
/// announces the size `n`.
pub proof fn lemma_content_length_announced(n: u64, rest: Seq<char>)
    ensures
        content_length_of(
            content_length_prefix() + seq![' '] + decimal_text(n as nat) + seq!['\r', '\n'] + rest,
        ) == Some(n),
{
    let d = decimal_text(n as nat);
    lemma_decimal_text(n as nat);
    lemma_parse_decimal_roundtrip(n);
    let line = content_length_prefix() + seq![' '] + d + seq!['\r'];
    let text = content_length_prefix() + seq![' '] + d + seq!['\r', '\n'] + rest;
    assert(text =~= line + (seq!['\n'] + rest));
    assert forall|k: int| 0 <= k < line.len() implies line[k] != '\n' && line[k] != ':' || k == 14 by {
        if 16 <= k < 16 + d.len() {
            assert(line[k] == d[k - 16]);
            assert(is_digit(d[k - 16]));
        }
    }
    lemma_count_until_concat(line, seq!['\n'] + rest, '\n');
    assert(count_until(seq!['\n'] + rest, '\n') == 0);
    assert(text.take(line.len() as int) =~= line);
    assert(line.take(15) =~= content_length_prefix());
    let field = seq![' '] + d + seq!['\r'];
    assert(line.skip(15) =~= field);
    assert forall|k: int| 0 <= k < field.len() implies field[k] != ':' by {
        assert(field[k] == line[k + 15]);
    }
    lemma_count_until_concat(field, Seq::<char>::empty(), ':');
    assert(field + Seq::<char>::empty() =~= field);
    assert(field.take(field.len() as int) =~= field);
    assert(length_field(line) == field);
    let x = d + seq!['\r'];
    assert(field.drop_first() =~= x);
    assert(!is_whitespace(x[0])) by {
        assert(x[0] == d[0]);
        assert(is_digit(d[0]));
    }
    assert(trim_start(x) == x);
    assert(field[0] == ' ');
    assert(trim_start(field) == x);
    assert(x.drop_last() =~= d);
    assert(!is_whitespace(d.last())) by {
        assert(is_digit(d[d.len() - 1]));
    }
    assert(trim_end(d) == d);
    assert(x.last() == '\r');
    assert(trim_end(x) == d);
}

/// Where the body of `response` begins: just after the first blank line
/// (`\r\n\r\n`) that has at least one byte after it. Where there is none,
/// 0: the whole response is taken as the body. So a response that ends with
/// its blank line, with no byte after it, is taken whole.
pub fn body_offset(response: &[u8]) -> (r: usize)
    ensures
        r == 0 <==> forall|i: int| !blank_line_at(response@, i),
        r != 0 ==> r >= 4 && blank_line_at(response@, r - 4),
        r != 0 ==> forall|j: int| 0 <= j < r - 4 ==> !blank_line_at(response@, j),
{
    let n = response.len();
    let mut i: usize = 0;
    while i < n
        invariant
            i <= n == response@.len(),
            forall|j: int| 0 <= j < i ==> !blank_line_at(response@, j),
        decreases n - i,
    {
        if n > 4 && i < n - 4 && response[i] == 13 && response[i + 1] == 10 && response[i + 2] == 13
            && response[i + 3] == 10 {
            assert(blank_line_at(response@, i as int));
            return i + 4;
        }
        i = i + 1;
    }
    0
}

/// Why the value of a `Content-Length` header could not be read.
#[derive(Debug, Clone, Copy, PartialEq, Eq, Structural)]
pub enum LengthHeaderError {
    /// The response carries no `Content-Length` header.
    Missing,
    /// The value is not UTF-8 text.
    InvalidUtf8,
    /// The value is text, but not a `u64` in decimal.
    NotANumber,
}

/// What reading the raw bytes of a `Content-Length` header value gives.
pub open spec fn header_value_result(value: Seq<u8>) -> Result<u64, LengthHeaderError> {
    if !valid_utf8(value) {
        Err(LengthHeaderError::InvalidUtf8)
    } else {
        match spec_parse_u64(decode_utf8(value)) {
            Some(n) => Ok(n),
            None => Err(LengthHeaderError::NotANumber),
        }
    }
}

/// The characters that ASCII bytes stand for.
pub open spec fn ascii_chars(b: Seq<u8>) -> Seq<char> {
    Seq::new(b.len(), |i: int| b[i] as char)
}

/// A header value made of ASCII digit bytes reads as the number they spell,
/// whenever it fits in 64 bits, leading zeros or not.
pub proof fn lemma_header_value_digits(b: Seq<u8>)
    requires
        b.len() > 0,
        forall|i: int| 0 <= i < b.len() ==> 48 <= #[trigger] b[i] && b[i] <= 57,
        digits_value(ascii_chars(b)) <= u64::MAX,
    ensures
        header_value_result(b) == Ok::<u64, LengthHeaderError>(digits_value(ascii_chars(b)) as u64),
{
    broadcast use vstd::utf8::encode_utf8_decode_utf8, vstd::utf8::encode_utf8_valid_utf8;

    let cs = ascii_chars(b);
    assert(vstd::utf8::is_ascii_chars(cs)) by {
        assert forall|i: int| 0 <= i < cs.len() implies '\0' <= #[trigger] cs[i] <= '\u{7f}' by {
            assert(cs[i] == b[i] as char);
        }
    }
    vstd::utf8::is_ascii_chars_encode_utf8(cs);
    assert(vstd::utf8::encode_utf8(cs) =~= b) by {
        assert forall|i: int| 0 <= i < b.len() implies vstd::utf8::encode_utf8(cs)[i] == b[i] by {
            assert(cs[i] as u8 == vstd::utf8::encode_utf8(cs)[i]);
            assert(cs[i] == b[i] as char);
        }
    }
    assert(valid_utf8(b));
    assert(decode_utf8(b) == cs);
    assert forall|i: int| 0 <= i < cs.len() implies '0' <= #[trigger] cs[i] && cs[i] <= '9' by {
        assert(cs[i] == b[i] as char);
    }
    lemma_parse_plain_digits(cs);
}

/// Calls `std::str::from_utf8`. Claimed, as its documentation says: the
/// bytes are accepted exactly when they are valid UTF-8, and the text given
/// back is made of those very bytes.
#[verifier::external_body]
fn utf8_text(bytes: &[u8]) -> (r: Option<&str>)
    ensures
        r is Some <==> valid_utf8(bytes@),
        r matches Some(s) ==> s.spec_bytes() == bytes@,
{
    std::str::from_utf8(bytes).ok()
}

/// Reads the raw value of a `Content-Length` header, `None` where the
/// response has no such header: UTF-8 text holding a `u64` in decimal, as
/// `str::parse` reads it.
pub fn length_header_value(header: Option<&[u8]>) -> (r: Result<u64, LengthHeaderError>)
    ensures
        header is None ==> r == Err::<u64, LengthHeaderError>(LengthHeaderError::Missing),
        header matches Some(value) ==> r == header_value_result(value@),
        header matches Some(value) ==> r == (if !valid_utf8(value@) {
            Err(LengthHeaderError::InvalidUtf8)
        } else {
            match spec_parse_u64(decode_utf8(value@)) {
                Some(n) => Ok(n),
                None => Err(LengthHeaderError::NotANumber),
            }
        }),
{
    broadcast use vstd::utf8::encode_utf8_decode_utf8;

    let value = match header {
        Some(value) => value,
        None => {
            return Err(LengthHeaderError::Missing);
        },
    };
    match utf8_text(value) {
        None => Err(LengthHeaderError::InvalidUtf8),
        Some(text) => {
            assert(text@ == decode_utf8(value@));
            let cs = chars_of(text);
            match parse_u64(&cs) {
                Some(n) => Ok(n),
                None => Err(LengthHeaderError::NotANumber),
            }
        },
    }
}

} // verus!
