//! Responses: reading a response head (status line and headers, under
//! the request's caps), what a connection hands back for a request, and the
//! complete response a sent request ends in.
use vstd::prelude::*;

use vstd::utf8::{decode_utf8, valid_utf8};

use crate::chunked::{announces_chunked, chunks_from, is_chunked, read_chunks};
use crate::error::Error;
use crate::header_map::{insert_header, lookup, pairs_view, set_header, HeaderPairs};
use crate::http_url::{digits_value, is_digit, unsigned_digits};
use crate::request::URL;
use crate::text::{ascii_lower, ascii_lower_char, chars_of, push_char, push_str, same_text, string_of};

verus! {

/// A response as a connection received it: status, headers (names in
/// lower case), the URL it answers, and the body bytes.
pub struct ResponseLazy {
    /// The status code of the response, eg. 404.
    pub status_code: i32,
    /// The reason phrase of the response, eg. "Not Found".
    pub reason_phrase: String,
    /// The headers of the response, names in lower case.
    pub headers: Vec<(String, String)>,
    /// The URL of the resource returned in this response, filled in once
    /// no more redirects are followed.
    pub url: URL,
    /// The body bytes.
    pub body: Vec<u8>,
}

/// A complete response to a sent request.
pub struct Response {
    /// The status code of the response, eg. 404.
    pub status_code: i32,
    /// The reason phrase of the response, eg. "Not Found".
    pub reason_phrase: String,
    /// The headers of the response, names in lower case.
    pub headers: Vec<(String, String)>,
    /// The URL of the resource returned in this response.
    pub url: URL,
    /// The body bytes: none for a response to a HEAD request.
    pub body: Vec<u8>,
}

impl ResponseLazy {
    /// A response with the given status, reason, headers and body, whose
    /// URL is not filled in yet.
    pub fn new(
        status_code: i32,
        reason_phrase: String,
        headers: Vec<(String, String)>,
        body: Vec<u8>,
    ) -> (r: ResponseLazy)
        ensures
            r.status_code == status_code,
            r.reason_phrase == reason_phrase,
            r.headers == headers,
            r.url@ == Seq::<char>::empty(),
            r.body == body,
    {
        ResponseLazy { status_code, reason_phrase, headers, url: String::new(), body }
    }

    /// The value of the first header with the given (lower-case) name.
    pub fn header(&self, name: &str) -> (v: Option<&String>)
        ensures
            match v {
                Some(s) => lookup(pairs_view(self.headers@), name@) == Some(s@),
                None => lookup(pairs_view(self.headers@), name@) is None,
            },
    {
        let ghost hs = pairs_view(self.headers@);
        let mut i: usize = 0;
        assert(hs.skip(0) =~= hs);
        while i < self.headers.len()
            invariant
                hs == pairs_view(self.headers@),
                i <= self.headers@.len(),
                lookup(hs, name@) == lookup(hs.skip(i as int), name@),
            decreases self.headers@.len() - i,
        {
            assert(hs.skip(i as int)[0] == hs[i as int]);
            if same_text(self.headers[i].0.as_str(), name) {
                return Some(&self.headers[i].1);
            }
            assert(hs.skip(i as int).drop_first() =~= hs.skip(i + 1));
            i = i + 1;
        }
        None
    }
}

/// Whether `r` is `parent` read whole: the same status, reason, headers
/// and URL, with its body, or with none when the request was HEAD.
pub open spec fn read_whole(r: Response, parent: ResponseLazy, is_head: bool) -> bool {
    &&& r.status_code == parent.status_code
    &&& r.reason_phrase == parent.reason_phrase
    &&& r.headers == parent.headers
    &&& r.url == parent.url
    &&& r.body@ == (if is_head {
        Seq::<u8>::empty()
    } else {
        parent.body@
    })
}

/// Reading a response whole keeps its status, reason, headers and every
/// body byte that the connection received, whatever the status: only the
/// response to a HEAD request loses its body.
pub proof fn law_only_head_drops_body(r: Response, parent: ResponseLazy, is_head: bool)
    requires
        read_whole(r, parent, is_head),
    ensures
        r.status_code == parent.status_code,
        r.reason_phrase == parent.reason_phrase,
        r.headers == parent.headers,
        !is_head ==> r.body@ == parent.body@,
        is_head ==> r.body@.len() == 0,
{
}

impl Response {
    /// The complete response: everything the connection received, without
    /// the body when the request's method was HEAD.
    pub fn create(parent: ResponseLazy, is_head: bool) -> (r: Response)
        ensures
            r.status_code == parent.status_code,
            r.reason_phrase == parent.reason_phrase,
            r.headers == parent.headers,
            r.url == parent.url,
            r.body@ == (if is_head {
                Seq::<u8>::empty()
            } else {
                parent.body@
            }),
    {
        let ResponseLazy { status_code, reason_phrase, headers, url, body } = parent;
        let body = if is_head {
            Vec::new()
        } else {
            body
        };
        Response { status_code, reason_phrase, headers, url, body }
    }
}

/// The index of the first `\n` at or after `from`, or `b.len()`.
pub open spec fn first_newline(b: Seq<u8>, from: int) -> int
    decreases b.len() - from,
{
    if from >= b.len() {
        b.len() as int
    } else if b[from] == 10 {
        from
    } else {
        first_newline(b, from + 1)
    }
}

/// The line starting at `pos`, without its `\n` and a `\r` just before it,
/// and where the next line starts; `None` when more than `cap` bytes are
/// read for it (the `\n` included).
pub open spec fn line_at(b: Seq<u8>, pos: int, cap: Option<usize>) -> Option<(Seq<u8>, int)> {
    let nl = first_newline(b, pos);
    let read = if nl < b.len() {
        nl - pos + 1
    } else {
        b.len() - pos
    };
    if cap matches Some(m) && read > m {
        None
    } else {
        let raw = b.subrange(pos, nl);
        let line = if nl < b.len() && raw.len() > 0 && raw.last() == 13 {
            raw.drop_last()
        } else {
            raw
        };
        Some((line, if nl < b.len() { nl + 1 } else { b.len() as int }))
    }
}

/// The index of the first `c` in `s` at or after `from`, or `s.len()`.
pub open spec fn first_char(s: Seq<char>, from: int, c: char) -> int
    decreases s.len() - from,
{
    if from >= s.len() {
        s.len() as int
    } else if s[from] == c {
        from
    } else {
        first_char(s, from + 1, c)
    }
}

/// The text after an optional leading sign.
pub open spec fn signed_digits(s: Seq<char>) -> Seq<char> {
    if s.len() > 0 && s[0] == '-' {
        s.drop_first()
    } else {
        unsigned_digits(s)
    }
}

/// What `i32::from_str` gives: an optional sign, then one or more decimal
/// digits whose signed value fits in an `i32`.
pub open spec fn parse_i32(s: Seq<char>) -> Option<i32> {
    let negative = s.len() > 0 && s[0] == '-';
    let digits = signed_digits(s);
    let v = digits_value(digits) as int;
    if digits.len() > 0 && (forall|i: int| 0 <= i < digits.len() ==> is_digit(#[trigger] digits[i])) {
        if negative && v <= 0x8000_0000 {
            Some((-v) as i32)
        } else if !negative && v <= 0x7FFF_FFFF {
            Some(v as i32)
        } else {
            None
        }
    } else {
        None
    }
}

/// The status code and reason phrase of a status line such as
/// `HTTP/1.1 200 OK`: the code between the first and second space, the
/// reason after the second; 503 when the code is not a number.
pub open spec fn status_of(line: Seq<char>) -> (i32, Seq<char>) {
    let s1 = first_char(line, 0, ' ');
    let s2 = if s1 < line.len() {
        first_char(line, s1 + 1, ' ')
    } else {
        line.len() as int
    };
    let code = if s1 < line.len() {
        line.subrange(s1 + 1, s2)
    } else {
        Seq::<char>::empty()
    };
    let reason = if s2 < line.len() {
        line.subrange(s2 + 1, line.len() as int)
    } else {
        Seq::<char>::empty()
    };
    match parse_i32(code) {
        Some(c) => (c, reason),
        None => (503, "Server did not provide a status line"@),
    }
}

/// A header line `Name: value` as name (ASCII lower case) and value (one
/// space after the `:` dropped); `None` without a `:`.
pub open spec fn parse_header(line: Seq<char>) -> Option<(Seq<char>, Seq<char>)> {
    let colon = first_char(line, 0, ':');
    if colon >= line.len() {
        None
    } else {
        let start = if colon + 1 < line.len() && line[colon + 1] == ' ' {
            colon + 2
        } else {
            colon + 1
        };
        Some((ascii_lower(line.take(colon)), line.subrange(start, line.len() as int)))
    }
}

/// The header lines from `pos` on, added to `acc`, where what follows
/// them starts, and what is left of `cap`: they end at an empty line (or
/// the end). Each line is read under what is left of `cap`, which shrinks
/// by the line's length and 2.
pub open spec fn headers_from(b: Seq<u8>, pos: int, cap: Option<usize>, acc: HeaderPairs) -> Result<
    (HeaderPairs, int, Option<usize>),
    Error,
>
    decreases b.len() - pos,
{
    match line_at(b, pos, cap) {
        None => Err(Error::HeadersOverflow),
        Some((l, next)) => if !valid_utf8(l) {
            Err(Error::InvalidUtf8InResponse)
        } else if l.len() == 0 || next <= pos {
            Ok((acc, next, cap))
        } else {
            let left = match cap {
                Some(m) => Some(
                    if m >= l.len() + 2 {
                        (m - (l.len() + 2)) as usize
                    } else {
                        0usize
                    },
                ),
                None => None,
            };
            let acc2 = match parse_header(decode_utf8(l)) {
                Some((k, v)) => insert_header(acc, k, v),
                None => acc,
            };
            headers_from(b, next, left, acc2)
        },
    }
}

/// What `usize::from_str` gives: an optional `+`, then one or more
/// decimal digits whose value fits in a `usize`.
pub open spec fn parse_usize(s: Seq<char>) -> Option<usize> {
    let digits = unsigned_digits(s);
    if digits.len() > 0 && (forall|i: int| 0 <= i < digits.len() ==> is_digit(#[trigger] digits[i]))
        && digits_value(digits) <= usize::MAX {
        Some(digits_value(digits) as usize)
    } else {
        None
    }
}

/// The body: the bytes after the head, cut to the `content-length` when
/// one is given.
pub open spec fn body_of(rest: Seq<u8>, hs: HeaderPairs) -> Seq<u8> {
    match lookup(hs, "content-length"@) {
        Some(text) => match parse_usize(text) {
            Some(n) => if n < rest.len() {
                rest.take(n as int)
            } else {
                rest
            },
            None => rest,
        },
        None => rest,
    }
}

/// A response read from its bytes: status code, reason phrase, headers
/// and body; `StatusLineOverflow` or `HeadersOverflow` when a cap is
/// passed, `InvalidUtf8InResponse` when a head line is not UTF-8. A body
/// announced as chunked is decoded, and its trailing headers are added
/// under what the head's headers left of `max_headers_size`.
pub open spec fn parse_response(
    b: Seq<u8>,
    max_headers_size: Option<usize>,
    max_status_line_len: Option<usize>,
) -> Result<(i32, Seq<char>, HeaderPairs, Seq<u8>), Error> {
    match line_at(b, 0, max_status_line_len) {
        None => Err(Error::StatusLineOverflow),
        Some((l, next)) => if !valid_utf8(l) {
            Err(Error::InvalidUtf8InResponse)
        } else {
            let (code, reason) = status_of(decode_utf8(l));
            match headers_from(b, next, max_headers_size, Seq::empty()) {
                Err(e) => Err(e),
                Ok((hs, start, left)) => if is_chunked(hs) {
                    match chunks_from(b, start, left, hs, Seq::empty()) {
                        Ok((trailed, body)) => Ok((code, reason, trailed, body)),
                        Err(e) => Err(e),
                    }
                } else {
                    Ok((code, reason, hs, body_of(b.subrange(start, b.len() as int), hs)))
                },
            }
        },
    }
}

/// The status line cap counts the line's bytes with its `\r\n`: a status
/// line of `n` bytes passes a cap of `n + 2` or more and overflows one of
/// `n + 1` or less.
pub proof fn law_status_line_cap(
    b: Seq<u8>,
    n: int,
    max_headers_size: Option<usize>,
    cap: usize,
)
    requires
        0 <= n,
        n + 2 <= b.len(),
        forall|i: int| 0 <= i < n ==> #[trigger] b[i] != 10,
        b[n] == 13,
        b[n + 1] == 10,
    ensures
        cap >= n + 2 ==> line_at(b, 0, Some(cap)) == Some((b.take(n), n + 2)),
        cap <= n + 1 ==> parse_response(b, max_headers_size, Some(cap)) == Err::<
            (i32, Seq<char>, HeaderPairs, Seq<u8>),
            Error,
        >(Error::StatusLineOverflow),
{
    lemma_first_newline_skips(b, 0, n + 1);
    assert(b.subrange(0, n + 1).drop_last() =~= b.take(n));
}

/// The header cap counts each header line's bytes with its `\r\n`
/// against what is left of it: a line of `n` bytes is read under a cap of
/// `n + 2` or more, and overflows one of `n + 1` or less.
pub proof fn law_header_line_cap(b: Seq<u8>, pos: int, n: int, cap: usize, acc: HeaderPairs)
    requires
        0 <= pos,
        0 <= n,
        pos + n + 2 <= b.len(),
        forall|i: int| pos <= i < pos + n ==> #[trigger] b[i] != 10,
        b[pos + n] == 13,
        b[pos + n + 1] == 10,
    ensures
        cap >= n + 2 ==> line_at(b, pos, Some(cap)) == Some((b.subrange(pos, pos + n), pos + n + 2)),
        cap <= n + 1 ==> headers_from(b, pos, Some(cap), acc) == Err::<
            (HeaderPairs, int, Option<usize>),
            Error,
        >(Error::HeadersOverflow),
{
    lemma_first_newline_skips(b, pos, pos + n + 1);
    assert(b.subrange(pos, pos + n + 1).drop_last() =~= b.subrange(pos, pos + n));
}

/// Header lines read under a cap spend it: what is left of a cap of `c`,
/// plus the bytes read for the lines (the empty line that ends them
/// included), is at most `c + 2`.
pub proof fn law_header_cap_spent(b: Seq<u8>, pos: int, c: usize, acc: HeaderPairs)
    requires
        0 <= pos <= b.len(),
    ensures
        headers_from(b, pos, Some(c), acc) matches Ok((hs, start, left)) ==> left matches Some(l)
            && l + (start - pos) <= c + 2,
    decreases b.len() - pos,
{
    lemma_first_newline_bounds(b, pos);
    match line_at(b, pos, Some(c)) {
        None => {},
        Some((l, next)) => {
            if valid_utf8(l) && !(l.len() == 0 || next <= pos) {
                let left: usize = if c >= l.len() + 2 {
                    (c - (l.len() + 2)) as usize
                } else {
                    0usize
                };
                let acc2 = match parse_header(decode_utf8(l)) {
                    Some((k, v)) => insert_header(acc, k, v),
                    None => acc,
                };
                law_header_cap_spent(b, next, left, acc2);
            }
        },
    }
}

proof fn lemma_first_newline_skips(b: Seq<u8>, from: int, nl: int)
    requires
        0 <= from <= nl < b.len(),
        forall|i: int| from <= i < nl ==> #[trigger] b[i] != 10,
        b[nl] == 10,
    ensures
        first_newline(b, from) == nl,
    decreases nl - from,
{
    if from < nl {
        lemma_first_newline_skips(b, from + 1, nl);
    }
}

/// The text that the bytes encode, or `None` when they are not UTF-8.
///
/// Calls `std::str::from_utf8`, which std documents as succeeding exactly
/// on valid UTF-8, and copies the text out.
#[verifier::external_body]
pub(crate) fn utf8_text(b: &[u8]) -> (r: Option<String>)
    ensures
        match r {
            Some(s) => valid_utf8(b@) && s@ == decode_utf8(b@),
            None => !valid_utf8(b@),
        },
{
    match std::str::from_utf8(b) {
        Ok(s) => Some(s.to_owned()),
        Err(_) => None,
    }
}

proof fn lemma_first_newline_bounds(b: Seq<u8>, from: int)
    requires
        0 <= from <= b.len(),
    ensures
        from <= first_newline(b, from) <= b.len(),
        first_newline(b, from) < b.len() ==> b[first_newline(b, from)] == 10,
    decreases b.len() - from,
{
    if from < b.len() && b[from] != 10 {
        lemma_first_newline_bounds(b, from + 1);
    }
}

/// Reads the line that starts at `pos`, as `line_at` describes.
pub(crate) fn read_line(b: &[u8], pos: usize, cap: Option<usize>) -> (r: Option<(Vec<u8>, usize)>)
    requires
        pos <= b@.len(),
    ensures
        match line_at(b@, pos as int, cap) {
            Some((l, p)) => r matches Some((v, q)) && v@ == l && q == p,
            None => r is None,
        },
        r matches Some((v, q)) ==> pos <= q <= b@.len() && (v@.len() > 0 ==> q > pos),
{
    let mut line: Vec<u8> = Vec::new();
    let mut i = pos;
    while i < b.len()
        invariant
            pos <= i <= b@.len(),
            line@ == b@.subrange(pos as int, i as int),
            first_newline(b@, pos as int) == first_newline(b@, i as int),
            cap matches Some(m) ==> i - pos <= m,
        decreases b@.len() - i,
    {
        if let Some(m) = cap {
            if line.len() >= m {
                proof {
                    lemma_first_newline_bounds(b@, i as int);
                }
                return None;
            }
        }
        let byte = b[i];
        if byte == 10 {
            let ghost raw = line@;
            if line.len() > 0 && line[line.len() - 1] == 13 {
                line.pop();
                assert(line@ =~= raw.drop_last());
            }
            return Some((line, i + 1));
        }
        line.push(byte);
        i = i + 1;
        assert(line@ =~= b@.subrange(pos as int, i as int));
    }
    Some((line, i))
}

/// Reads the header lines from `pos` on into `headers`, as `headers_from`
/// describes, and gives where what follows them starts and what is left
/// of `cap`.
#[verifier::loop_isolation(false)]
pub(crate) fn read_headers(
    bytes: &[u8],
    pos: usize,
    cap: Option<usize>,
    headers: &mut Vec<(String, String)>,
) -> (res: Result<(usize, Option<usize>), Error>)
    requires
        pos <= bytes@.len(),
    ensures
        match headers_from(bytes@, pos as int, cap, pairs_view(old(headers)@)) {
            Ok((hs, start, left)) => res matches Ok((q, l)) && q == start && l == left && pairs_view(
                final(headers)@,
            ) == hs && q <= bytes@.len(),
            Err(e) => res == Err::<(usize, Option<usize>), Error>(e),
        },
{
    let ghost start_pos = pos as int;
    let ghost start_cap = cap;
    let ghost start_hs = pairs_view(headers@);
    let mut pos = pos;
    let mut cap = cap;
    loop
        invariant
            pos <= bytes@.len(),
            headers_from(bytes@, start_pos, start_cap, start_hs) == headers_from(
                bytes@,
                pos as int,
                cap,
                pairs_view(headers@),
            ),
            start_hs == pairs_view(old(headers)@),
        decreases bytes@.len() - pos,
    {
        let (line, next) = match read_line(bytes, pos, cap) {
            Some(x) => x,
            None => return Err(Error::HeadersOverflow),
        };
        let text = match utf8_text(line.as_slice()) {
            Some(t) => t,
            None => return Err(Error::InvalidUtf8InResponse),
        };
        if line.len() == 0 {
            return Ok((next, cap));
        }
        cap = match cap {
            Some(m) => Some(m.saturating_sub(line.len()).saturating_sub(2)),
            None => None,
        };
        match parse_header_line(text.as_str()) {
            Some((name, value)) => set_header(headers, name, value),
            None => {},
        }
        pos = next;
    }
}

/// The index of the first `c` in `v` at or after `from`.
pub(crate) fn find_char(v: &Vec<char>, from: usize, c: char) -> (r: usize)
    requires
        from <= v@.len(),
    ensures
        r == first_char(v@, from as int, c),
        from <= r <= v@.len(),
{
    let mut i = from;
    while i < v.len()
        invariant
            from <= i <= v@.len(),
            first_char(v@, from as int, c) == first_char(v@, i as int, c),
        decreases v@.len() - i,
    {
        if v[i] == c {
            return i;
        }
        i = i + 1;
    }
    i
}

proof fn lemma_digits_prefix_grows(s: Seq<char>, i: int, j: int)
    requires
        0 <= i <= j <= s.len(),
    ensures
        digits_value(s.take(i)) <= digits_value(s.take(j)),
    decreases j - i,
{
    if i < j {
        lemma_digits_prefix_grows(s, i, j - 1);
        assert(s.take(j).drop_last() =~= s.take(j - 1));
    }
}

/// `i32::from_str` of the chars `v[lo..hi]`.
#[verifier::loop_isolation(false)]
fn parse_status_code(v: &Vec<char>, lo: usize, hi: usize) -> (r: Option<i32>)
    requires
        lo <= hi <= v@.len(),
    ensures
        r == parse_i32(v@.subrange(lo as int, hi as int)),
{
    let ghost s = v@.subrange(lo as int, hi as int);
    let negative = lo < hi && v[lo] == '-';
    let start = if negative || (lo < hi && v[lo] == '+') {
        lo + 1
    } else {
        lo
    };
    let ghost digits = v@.subrange(start as int, hi as int);
    assert(digits =~= signed_digits(s));
    if start == hi {
        return None;
    }
    let limit: u64 = if negative {
        0x8000_0000
    } else {
        0x7FFF_FFFF
    };
    let mut value: u64 = 0;
    let mut i = start;
    while i < hi
        invariant
            lo <= start <= i <= hi <= v@.len(),
            digits == v@.subrange(start as int, hi as int),
            forall|k: int| 0 <= k < i - start ==> is_digit(#[trigger] digits[k]),
            value == digits_value(digits.take(i - start)),
            value <= limit,
            limit <= 0x8000_0000,
        decreases hi - i,
    {
        let c = v[i];
        if !('0' <= c && c <= '9') {
            assert(!is_digit(digits[i - start]));
            assert(!(forall|k: int| 0 <= k < digits.len() ==> is_digit(#[trigger] digits[k])));
            return None;
        }
        let next = value * 10 + (c as u32 - 48) as u64;
        assert(digits.take(i - start + 1).drop_last() =~= digits.take(i - start));
        i = i + 1;
        if next > limit {
            proof {
                lemma_digits_prefix_grows(digits, i - start, digits.len() as int);
                assert(digits.take(digits.len() as int) =~= digits);
            }
            return None;
        }
        value = next;
    }
    assert(digits.take(digits.len() as int) =~= digits);
    if negative {
        Some((0 - (value as i64)) as i32)
    } else {
        Some(value as i32)
    }
}

/// The status code and reason phrase of a status line.
fn parse_status_line(line: &str) -> (r: (i32, String))
    ensures
        r.0 == status_of(line@).0,
        r.1@ == status_of(line@).1,
{
    let v = chars_of(line);
    let s1 = find_char(&v, 0, ' ');
    let s2 = if s1 < v.len() {
        find_char(&v, s1 + 1, ' ')
    } else {
        v.len()
    };
    let code = if s1 < v.len() {
        parse_status_code(&v, s1 + 1, s2)
    } else {
        assert(v@.subrange(0, 0) =~= Seq::<char>::empty());
        parse_status_code(&v, 0, 0)
    };
    let reason = if s2 < v.len() {
        string_of(&v, s2 + 1, v.len())
    } else {
        String::new()
    };
    match code {
        Some(c) => (c, reason),
        None => {
            let mut fallback = String::new();
            push_str(&mut fallback, "Server did not provide a status line");
            assert(fallback@ =~= "Server did not provide a status line"@);
            (503, fallback)
        },
    }
}

/// A header line as name (ASCII lower case) and value.
fn parse_header_line(line: &str) -> (r: Option<(String, String)>)
    ensures
        match parse_header(line@) {
            Some((k, val)) => r matches Some((a, b)) && a@ == k && b@ == val,
            None => r is None,
        },
{
    let v = chars_of(line);
    let colon = find_char(&v, 0, ':');
    if colon >= v.len() {
        return None;
    }
    let start = if colon + 1 < v.len() && v[colon + 1] == ' ' {
        colon + 2
    } else {
        colon + 1
    };
    let mut name = String::new();
    let mut i: usize = 0;
    while i < colon
        invariant
            colon < v@.len(),
            i <= colon,
            name@ == ascii_lower(v@.take(i as int)),
        decreases colon - i,
    {
        let c = v[i];
        let lower = if 'A' <= c && c <= 'Z' {
            ((c as u32) + 32) as u8 as char
        } else {
            c
        };
        assert(lower == ascii_lower_char(c));
        push_char(&mut name, lower);
        i = i + 1;
        assert(name@ =~= ascii_lower(v@.take(i as int)));
    }
    let value = string_of(&v, start, v.len());
    Some((name, value))
}

/// The `content-length` header's value, as a number, when it is one.
fn content_length(headers: &Vec<(String, String)>) -> (r: Option<usize>)
    ensures
        r == (match lookup(pairs_view(headers@), "content-length"@) {
            Some(text) => parse_usize(text),
            None => None,
        }),
{
    let ghost hs = pairs_view(headers@);
    let mut i: usize = 0;
    assert(hs.skip(0) =~= hs);
    while i < headers.len()
        invariant
            hs == pairs_view(headers@),
            i <= headers@.len(),
            lookup(hs, "content-length"@) == lookup(hs.skip(i as int), "content-length"@),
        decreases headers@.len() - i,
    {
        assert(hs.skip(i as int)[0] == hs[i as int]);
        if same_text(headers[i].0.as_str(), "content-length") {
            let v = chars_of(headers[i].1.as_str());
            return parse_length(&v);
        }
        assert(hs.skip(i as int).drop_first() =~= hs.skip(i + 1));
        i = i + 1;
    }
    None
}

/// `usize::from_str` of the chars of `v`.
#[verifier::loop_isolation(false)]
fn parse_length(v: &Vec<char>) -> (r: Option<usize>)
    ensures
        r == parse_usize(v@),
{
    let start: usize = if v.len() > 0 && v[0] == '+' {
        1
    } else {
        0
    };
    let ghost digits = v@.subrange(start as int, v@.len() as int);
    assert(digits =~= unsigned_digits(v@));
    if start == v.len() {
        return None;
    }
    let mut value: usize = 0;
    let mut i = start;
    while i < v.len()
        invariant
            start <= i <= v@.len(),
            digits == v@.subrange(start as int, v@.len() as int),
            forall|k: int| 0 <= k < i - start ==> is_digit(#[trigger] digits[k]),
            value == digits_value(digits.take(i - start)),
        decreases v@.len() - i,
    {
        let c = v[i];
        if !('0' <= c && c <= '9') {
            assert(!is_digit(digits[i - start]));
            assert(!(forall|k: int| 0 <= k < digits.len() ==> is_digit(#[trigger] digits[k])));
            return None;
        }
        assert(digits.take(i - start + 1).drop_last() =~= digits.take(i - start));
        let d = (c as u32 - 48) as usize;
        let next = match value.checked_mul(10) {
            Some(t) => t.checked_add(d),
            None => None,
        };
        i = i + 1;
        match next {
            Some(n) => {
                value = n;
            },
            None => {
                proof {
                    lemma_digits_prefix_grows(digits, i - start, digits.len() as int);
                    assert(digits.take(digits.len() as int) =~= digits);
                }
                return None;
            },
        }
    }
    assert(digits.take(digits.len() as int) =~= digits);
    Some(value)
}

impl ResponseLazy {
    /// Reads a response from its bytes: the status line (at most
    /// `max_status_line_len` bytes with its line ending), the header lines
    /// (at most `max_headers_size` bytes together, line endings included)
    /// up to an empty line, and the body after it: decoded when it is
    /// chunked, its trailing headers counted against the same cap, else cut
    /// to the `content-length` when one is given. Header names are made
    /// ASCII lower case; a later header replaces an earlier one of that
    /// name.
    #[verifier::loop_isolation(false)]
    pub fn from_bytes(
        bytes: &[u8],
        max_headers_size: Option<usize>,
        max_status_line_len: Option<usize>,
    ) -> (res: Result<ResponseLazy, Error>)
        ensures
            match parse_response(bytes@, max_headers_size, max_status_line_len) {
                Ok((code, reason, hs, body)) => res matches Ok(r) && r.status_code == code
                    && r.reason_phrase@ == reason && pairs_view(r.headers@) == hs && r.body@
                    == body && r.url@ == Seq::<char>::empty(),
                Err(e) => res == Err::<ResponseLazy, Error>(e),
            },
    {
        let (status_line, mut pos) = match read_line(bytes, 0, max_status_line_len) {
            Some(x) => x,
            None => return Err(Error::StatusLineOverflow),
        };
        let text = match utf8_text(status_line.as_slice()) {
            Some(t) => t,
            None => return Err(Error::InvalidUtf8InResponse),
        };
        let (status_code, reason_phrase) = parse_status_line(text.as_str());
        let mut headers: Vec<(String, String)> = Vec::new();
        assert(pairs_view(headers@) =~= Seq::<(Seq<char>, Seq<char>)>::empty());
        let (pos, left) = match read_headers(bytes, pos, max_headers_size, &mut headers) {
            Ok(x) => x,
            Err(e) => return Err(e),
        };
        if announces_chunked(&headers) {
            let body = match read_chunks(bytes, pos, left, &mut headers) {
                Ok(b) => b,
                Err(e) => return Err(e),
            };
            return Ok(ResponseLazy { status_code, reason_phrase, headers, url: String::new(), body });
        }
        let mut body: Vec<u8> = Vec::new();
        let end = match content_length(&headers) {
            Some(n) => if n < bytes.len() - pos {
                pos + n
            } else {
                bytes.len()
            },
            None => bytes.len(),
        };
        let mut i = pos;
        while i < end
            invariant
                pos <= i <= end <= bytes@.len(),
                body@ == bytes@.subrange(pos as int, i as int),
            decreases end - i,
        {
            body.push(bytes[i]);
            i = i + 1;
            assert(body@ =~= bytes@.subrange(pos as int, i as int));
        }
        proof {
            let rest = bytes@.subrange(pos as int, bytes@.len() as int);
            assert(body@ =~= body_of(rest, pairs_view(headers@)));
        }
        Ok(ResponseLazy { status_code, reason_phrase, headers, url: String::new(), body })
    }
}

} // verus!
