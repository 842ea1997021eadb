//! Bodies sent with `transfer-encoding: chunked`: chunk-size lines in
//! hexadecimal, each chunk's bytes and its line ending, and after the last
//! (empty) chunk the trailing headers, which count towards the header cap.
use vstd::prelude::*;

use vstd::utf8::{decode_utf8, valid_utf8};

use crate::error::Error;
use crate::header_map::{lookup, pairs_view, HeaderPairs};
use crate::http_url::unsigned_digits;
use crate::request::{lowercase, to_lowercase};
use crate::response::{
    find_char, first_char, headers_from, law_header_cap_spent, line_at, read_headers, read_line,
    utf8_text,
};
use crate::text::{chars_of, same_text, string_of};

verus! {

/// Whether `c` is white space as `char::is_whitespace` has it: the chars
/// with Unicode's `White_Space` property.
pub open spec fn is_white(c: char) -> bool {
    let u = c as u32;
    (0x09 <= u && u <= 0x0D) || u == 0x20 || u == 0x85 || u == 0xA0 || u == 0x1680 || (0x2000 <= u
        && u <= 0x200A) || u == 0x2028 || u == 0x2029 || u == 0x202F || u == 0x205F || u == 0x3000
}

/// The index of the first char of `s` at or after `from` that is not white
/// space, or `s.len()`.
pub open spec fn first_solid(s: Seq<char>, from: int) -> int
    decreases s.len() - from,
{
    if from >= s.len() {
        s.len() as int
    } else if !is_white(s[from]) {
        from
    } else {
        first_solid(s, from + 1)
    }
}

/// The end of `s.take(to)` without its trailing white space.
pub open spec fn solid_end(s: Seq<char>, to: int) -> int
    decreases to,
{
    if to <= 0 {
        0
    } else if !is_white(s[to - 1]) {
        to
    } else {
        solid_end(s, to - 1)
    }
}

/// `s` without leading and trailing white space, as `str::trim` gives it.
pub open spec fn trimmed(s: Seq<char>) -> Seq<char> {
    let a = first_solid(s, 0);
    if a >= s.len() {
        Seq::empty()
    } else {
        s.subrange(a, solid_end(s, s.len() as int))
    }
}

/// Whether `c` is a hexadecimal digit, in either case.
pub open spec fn is_hex(c: char) -> bool {
    ('0' <= c && c <= '9') || ('a' <= c && c <= 'f') || ('A' <= c && c <= 'F')
}

/// The value of a hexadecimal digit.
pub open spec fn hex_val(c: char) -> nat {
    if '0' <= c && c <= '9' {
        ((c as u32) - 48) as nat
    } else if 'a' <= c && c <= 'f' {
        ((c as u32) - 87) as nat
    } else {
        ((c as u32) - 55) as nat
    }
}

/// The value of a string of hexadecimal digits.
pub open spec fn hex_value(s: Seq<char>) -> nat
    decreases s.len(),
{
    if s.len() == 0 {
        0
    } else {
        hex_value(s.drop_last()) * 16 + hex_val(s.last())
    }
}

/// What `usize::from_str_radix(s, 16)` gives: an optional `+`, then one or
/// more hexadecimal digits whose value fits in a `usize`.
pub open spec fn parse_hex(s: Seq<char>) -> Option<usize> {
    let digits = unsigned_digits(s);
    if digits.len() > 0 && (forall|i: int| 0 <= i < digits.len() ==> is_hex(#[trigger] digits[i]))
        && hex_value(digits) <= usize::MAX {
        Some(hex_value(digits) as usize)
    } else {
        None
    }
}

/// The size a chunk-size line gives: 0 for an empty line, else the
/// hexadecimal number before any `;` (chunk extensions are ignored), white
/// space trimmed; `None` when that is no such number.
pub open spec fn chunk_size(line: Seq<char>) -> Option<usize> {
    if line.len() == 0 {
        Some(0)
    } else {
        parse_hex(trimmed(line.take(first_char(line, 0, ';'))))
    }
}

/// Whether the headers announce a chunked body: a `transfer-encoding`
/// header whose value, in lower case and trimmed, is `chunked`.
pub open spec fn is_chunked(hs: HeaderPairs) -> bool {
    match lookup(hs, "transfer-encoding"@) {
        Some(v) => trimmed(lowercase(v)) == "chunked"@,
        None => false,
    }
}

/// The longest chunk-size line read, its line ending included.
pub const MAX_CHUNK_SIZE_LINE: usize = 1024;

/// The chunked body from `pos` on, added to `body`, and the headers `hs`
/// with the trailing headers added. Each chunk is a size line (at most
/// `MAX_CHUNK_SIZE_LINE` bytes, else `MalformedChunkLength`), that many
/// bytes, and a line ending of at most 2 bytes (else `MalformedChunkEnd`).
/// A chunk of size 0 ends the body, and the header lines after it are
/// read as `headers_from` reads them, under what is left of the header cap
/// `cap`. Bytes that end before a chunk does end the body there.
pub open spec fn chunks_from(
    b: Seq<u8>,
    pos: int,
    cap: Option<usize>,
    hs: HeaderPairs,
    body: Seq<u8>,
) -> Result<(HeaderPairs, Seq<u8>), Error>
    decreases b.len() - pos,
{
    match line_at(b, pos, Some(MAX_CHUNK_SIZE_LINE)) {
        None => Err(Error::MalformedChunkLength),
        Some((l, next)) => if !valid_utf8(l) {
            Err(Error::InvalidUtf8InResponse)
        } else {
            match chunk_size(decode_utf8(l)) {
                None => Err(Error::MalformedChunkLength),
                Some(n) => if n == 0 {
                    match headers_from(b, next, cap, hs) {
                        Ok((trailed, _, _)) => Ok((trailed, body)),
                        Err(e) => Err(e),
                    }
                } else if n > b.len() - next {
                    Ok((hs, body + b.subrange(next, b.len() as int)))
                } else {
                    match line_at(b, next + n, Some(2usize)) {
                        None => Err(Error::MalformedChunkEnd),
                        Some((end, after)) => if !valid_utf8(end) {
                            Err(Error::InvalidUtf8InResponse)
                        } else if after <= pos {
                            Ok((hs, body + b.subrange(next, next + n)))
                        } else {
                            chunks_from(b, after, cap, hs, body + b.subrange(next, next + n))
                        },
                    }
                },
            }
        },
    }
}

/// Normal and trailing headers share one cap: when the trailing headers
/// are read under what the head's header lines left of a cap of `c` (as a
/// chunked body's are), the bytes of both sets of header lines together
/// are at most `c` plus the two empty lines that end them.
pub proof fn law_trailers_share_header_cap(
    b: Seq<u8>,
    pos: int,
    c: usize,
    acc: HeaderPairs,
    t: int,
)
    requires
        0 <= pos <= b.len(),
        0 <= t <= b.len(),
    ensures
        headers_from(b, pos, Some(c), acc) matches Ok((hs, start, left)) ==> (headers_from(
            b,
            t,
            left,
            hs,
        ) matches Ok((trailed, end, _)) ==> (start - pos) + (end - t) <= c + 4),
{
    law_header_cap_spent(b, pos, c, acc);
    if let Ok((hs, start, left)) = headers_from(b, pos, Some(c), acc) {
        if let Some(l) = left {
            law_header_cap_spent(b, t, l, hs);
        }
    }
}

/// Whether `c` is white space, as `is_white` has it.
fn white(c: char) -> (r: bool)
    ensures
        r == is_white(c),
{
    let u = c as u32;
    (0x09 <= u && u <= 0x0D) || u == 0x20 || u == 0x85 || u == 0xA0 || u == 0x1680 || (0x2000 <= u
        && u <= 0x200A) || u == 0x2028 || u == 0x2029 || u == 0x202F || u == 0x205F || u == 0x3000
}

/// The index of the first char of `v` that is not white space, or
/// `v.len()`.
fn first_solid_at(v: &Vec<char>) -> (r: usize)
    ensures
        r == first_solid(v@, 0),
        r <= v@.len(),
        r < v@.len() ==> !is_white(v@[r as int]),
{
    let mut a: usize = 0;
    while a < v.len()
        invariant
            a <= v@.len(),
            first_solid(v@, 0) == first_solid(v@, a as int),
        decreases v@.len() - a,
    {
        if !white(v[a]) {
            return a;
        }
        a = a + 1;
    }
    a
}

/// Where the trimmed text of `v` starts and ends.
fn trim_bounds(v: &Vec<char>) -> (r: (usize, usize))
    ensures
        r.0 <= r.1 <= v@.len(),
        v@.subrange(r.0 as int, r.1 as int) == trimmed(v@),
{
    let a = first_solid_at(v);
    if a >= v.len() {
        assert(v@.subrange(0, 0) =~= trimmed(v@));
        return (0, 0);
    }
    let mut j: usize = v.len();
    loop
        invariant
            a < j <= v@.len(),
            !is_white(v@[a as int]),
            first_solid(v@, 0) == a,
            solid_end(v@, v@.len() as int) == solid_end(v@, j as int),
        decreases j,
    {
        if !white(v[j - 1]) {
            return (a, j);
        }
        j = j - 1;
    }
}

proof fn lemma_hex_prefix_grows(s: Seq<char>, i: int, j: int)
    requires
        0 <= i <= j <= s.len(),
    ensures
        hex_value(s.take(i)) <= hex_value(s.take(j)),
    decreases j - i,
{
    if i < j {
        lemma_hex_prefix_grows(s, i, j - 1);
        assert(s.take(j).drop_last() =~= s.take(j - 1));
    }
}

/// `usize::from_str_radix` in base 16 of the chars of `v`.
#[verifier::loop_isolation(false)]
fn parse_hex_chars(v: &Vec<char>) -> (r: Option<usize>)
    ensures
        r == parse_hex(v@),
{
    let start: usize = if v.len() > 0 && v[0] == '+' {
        1
    } else {
        0
    };
    let ghost digits = v@.subrange(start as int, v@.len() as int);
    assert(digits =~= unsigned_digits(v@));
    if start == v.len() {
        return None;
    }
    let mut value: usize = 0;
    let mut i = start;
    while i < v.len()
        invariant
            start <= i <= v@.len(),
            digits == v@.subrange(start as int, v@.len() as int),
            forall|k: int| 0 <= k < i - start ==> is_hex(#[trigger] digits[k]),
            value == hex_value(digits.take(i - start)),
        decreases v@.len() - i,
    {
        let c = v[i];
        let d: usize = if '0' <= c && c <= '9' {
            (c as u32 - 48) as usize
        } else if 'a' <= c && c <= 'f' {
            (c as u32 - 87) as usize
        } else if 'A' <= c && c <= 'F' {
            (c as u32 - 55) as usize
        } else {
            assert(!is_hex(digits[i - start]));
            assert(!(forall|k: int| 0 <= k < digits.len() ==> is_hex(#[trigger] digits[k])));
            return None;
        };
        assert(digits.take(i - start + 1).drop_last() =~= digits.take(i - start));
        let next = match value.checked_mul(16) {
            Some(t) => t.checked_add(d),
            None => None,
        };
        i = i + 1;
        match next {
            Some(n) => {
                value = n;
            },
            None => {
                proof {
                    lemma_hex_prefix_grows(digits, i - start, digits.len() as int);
                    assert(digits.take(digits.len() as int) =~= digits);
                }
                return None;
            },
        }
    }
    assert(digits.take(digits.len() as int) =~= digits);
    Some(value)
}

/// The size that a chunk-size line gives, as `chunk_size` has it.
fn chunk_size_of(text: &str) -> (r: Option<usize>)
    ensures
        r == chunk_size(text@),
{
    let v = chars_of(text);
    if v.len() == 0 {
        return Some(0);
    }
    let cut = find_char(&v, 0, ';');
    let head = chars_of(string_of(&v, 0, cut).as_str());
    assert(head@ =~= v@.take(cut as int));
    let (a, b) = trim_bounds(&head);
    let digits = chars_of(string_of(&head, a, b).as_str());
    parse_hex_chars(&digits)
}

/// The value of the first header named `name`.
fn header_value<'a>(headers: &'a Vec<(String, String)>, name: &str) -> (v: Option<&'a String>)
    ensures
        match v {
            Some(s) => lookup(pairs_view(headers@), name@) == Some(s@),
            None => lookup(pairs_view(headers@), name@) is None,
        },
{
    let ghost hs = pairs_view(headers@);
    let mut i: usize = 0;
    assert(hs.skip(0) =~= hs);
    while i < headers.len()
        invariant
            hs == pairs_view(headers@),
            i <= headers@.len(),
            lookup(hs, name@) == lookup(hs.skip(i as int), name@),
        decreases headers@.len() - i,
    {
        assert(hs.skip(i as int)[0] == hs[i as int]);
        if same_text(headers[i].0.as_str(), name) {
            return Some(&headers[i].1);
        }
        assert(hs.skip(i as int).drop_first() =~= hs.skip(i + 1));
        i = i + 1;
    }
    None
}

/// Whether the headers announce a chunked body, as `is_chunked` has it.
pub fn announces_chunked(headers: &Vec<(String, String)>) -> (r: bool)
    ensures
        r == is_chunked(pairs_view(headers@)),
{
    let value = match header_value(headers, "transfer-encoding") {
        Some(v) => v,
        None => return false,
    };
    let lower = chars_of(to_lowercase(value.as_str()).as_str());
    let (a, b) = trim_bounds(&lower);
    same_text(string_of(&lower, a, b).as_str(), "chunked")
}

/// Appends `b[lo..hi]` to `body`.
fn append_range(body: &mut Vec<u8>, b: &[u8], lo: usize, hi: usize)
    requires
        lo <= hi <= b@.len(),
    ensures
        final(body)@ == old(body)@ + b@.subrange(lo as int, hi as int),
{
    let mut i = lo;
    while i < hi
        invariant
            lo <= i <= hi <= b@.len(),
            body@ == old(body)@ + b@.subrange(lo as int, i as int),
        decreases hi - i,
    {
        body.push(b[i]);
        i = i + 1;
        assert(body@ =~= old(body)@ + b@.subrange(lo as int, i as int));
    }
}

/// Reads the chunked body from `pos` on, as `chunks_from` describes,
/// adding the trailing headers to `headers`.
#[verifier::loop_isolation(false)]
pub fn read_chunks(
    bytes: &[u8],
    pos: usize,
    cap: Option<usize>,
    headers: &mut Vec<(String, String)>,
) -> (res: Result<Vec<u8>, Error>)
    requires
        pos <= bytes@.len(),
    ensures
        match chunks_from(bytes@, pos as int, cap, pairs_view(old(headers)@), Seq::empty()) {
            Ok((hs, body)) => res matches Ok(v) && v@ == body && pairs_view(final(headers)@) == hs,
            Err(e) => res == Err::<Vec<u8>, Error>(e),
        },
{
    let ghost start = pos as int;
    let ghost hs = pairs_view(headers@);
    let mut body: Vec<u8> = Vec::new();
    let mut pos = pos;
    loop
        invariant
            pos <= bytes@.len(),
            hs == pairs_view(headers@),
            hs == pairs_view(old(headers)@),
            chunks_from(bytes@, start, cap, hs, Seq::empty()) == chunks_from(
                bytes@,
                pos as int,
                cap,
                hs,
                body@,
            ),
        decreases bytes@.len() - pos,
    {
        let (line, next) = match read_line(bytes, pos, Some(MAX_CHUNK_SIZE_LINE)) {
            Some(x) => x,
            None => return Err(Error::MalformedChunkLength),
        };
        let text = match utf8_text(line.as_slice()) {
            Some(t) => t,
            None => return Err(Error::InvalidUtf8InResponse),
        };
        let size = match chunk_size_of(text.as_str()) {
            Some(n) => n,
            None => return Err(Error::MalformedChunkLength),
        };
        if size == 0 {
            return match read_headers(bytes, next, cap, headers) {
                Ok(_) => Ok(body),
                Err(e) => Err(e),
            };
        }
        if size > bytes.len() - next {
            append_range(&mut body, bytes, next, bytes.len());
            return Ok(body);
        }
        append_range(&mut body, bytes, next, next + size);
        let (end, after) = match read_line(bytes, next + size, Some(2)) {
            Some(x) => x,
            None => return Err(Error::MalformedChunkEnd),
        };
        match utf8_text(end.as_slice()) {
            Some(_) => {},
            None => return Err(Error::InvalidUtf8InResponse),
        }
        pos = after;
    }
}

} // verus!
