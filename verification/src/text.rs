//! Text building blocks shared by the URL parser and the request writer:
//! appending to strings, decimal and hexadecimal digits, UTF-8 bytes of a
//! char, and the views of text as `Seq<char>` and `Seq<u8>`.
use vstd::prelude::*;
use vstd::utf8::*;

verus! {

/// The character for a decimal digit `d < 10`.
pub open spec fn digit_char(d: nat) -> char {
    (d + 48) as char
}

/// The decimal representation of `n`, without sign or leading zeros
/// (as `format!("{}", n)` writes it).
pub open spec fn decimal(n: nat) -> Seq<char>
    decreases n,
{
    if n < 10 {
        seq![digit_char(n)]
    } else {
        decimal(n / 10).push(digit_char(n % 10))
    }
}

/// The upper-case hexadecimal digit for `d < 16`.
pub open spec fn hex_char(d: nat) -> char {
    if d < 10 {
        digit_char(d)
    } else {
        (d + 55) as char
    }
}

/// The percent escape `%XY` of one byte, with upper-case hex digits.
pub open spec fn percent(b: u8) -> Seq<char> {
    seq!['%', hex_char((b / 16) as nat), hex_char((b % 16) as nat)]
}

/// The percent escapes of every byte of `bytes`, in order.
pub open spec fn percent_all(bytes: Seq<u8>) -> Seq<char>
    decreases bytes.len(),
{
    if bytes.len() == 0 {
        seq![]
    } else {
        percent(bytes[0]) + percent_all(bytes.drop_first())
    }
}

/// Whether every char is in the ASCII range.
pub open spec fn all_ascii(s: Seq<char>) -> bool {
    forall|i: int| 0 <= i < s.len() ==> (#[trigger] s[i] as u32) < 128
}

/// The char with ASCII upper-case letters made lower-case.
pub open spec fn ascii_lower_char(c: char) -> char {
    if 'A' <= c && c <= 'Z' {
        ((c as u32) + 32) as char
    } else {
        c
    }
}

/// The text with ASCII upper-case letters made lower-case.
pub open spec fn ascii_lower(s: Seq<char>) -> Seq<char> {
    Seq::new(s.len(), |i: int| ascii_lower_char(s[i]))
}

/// Appends one char to the end of a `String`.
///
/// Calls `String::push`, which std documents as appending the given char
/// to the end of the string.
#[verifier::external_body]
pub fn push_char(s: &mut String, c: char)
    ensures
        final(s)@ == old(s)@.push(c),
{
    s.push(c);
}

/// Appends all of `t` to `s`.
pub fn push_str(s: &mut String, t: &str)
    ensures
        final(s)@ == old(s)@ + t@,
{
    s.append(t);
}

/// Appends the chars `v[lo..hi]` to `s`.
pub fn push_chars(s: &mut String, v: &Vec<char>, lo: usize, hi: usize)
    requires
        lo <= hi <= v@.len(),
    ensures
        final(s)@ == old(s)@ + v@.subrange(lo as int, hi as int),
{
    let mut i = lo;
    while i < hi
        invariant
            lo <= i <= hi <= v@.len(),
            s@ == old(s)@ + v@.subrange(lo as int, i as int),
        decreases hi - i,
    {
        push_char(s, v[i]);
        i = i + 1;
        assert(v@.subrange(lo as int, i as int) =~= v@.subrange(lo as int, i - 1).push(v@[i - 1]));
    }
}

/// A `String` holding the chars `v[lo..hi]`.
pub fn string_of(v: &Vec<char>, lo: usize, hi: usize) -> (s: String)
    requires
        lo <= hi <= v@.len(),
    ensures
        s@ == v@.subrange(lo as int, hi as int),
{
    let mut s = String::new();
    push_chars(&mut s, v, lo, hi);
    assert(Seq::<char>::empty() + v@.subrange(lo as int, hi as int) =~= v@.subrange(lo as int, hi as int));
    s
}

/// The chars of a string slice, in order.
pub fn chars_of(s: &str) -> (v: Vec<char>)
    ensures
        v@ == s@,
{
    let mut v: Vec<char> = Vec::new();
    for c in it: s.chars()
        invariant
            v@ == it.seq().take(it.index() as int),
    {
        v.push(c);
    }
    v
}

/// The UTF-8 bytes of a string slice.
pub fn bytes_of(s: &str) -> (b: Vec<u8>)
    ensures
        b@ == encode_utf8(s@),
{
    vstd::slice::slice_to_vec(s.as_bytes())
}

/// Appends the bytes of `src` to `dst`.
pub fn extend_bytes(dst: &mut Vec<u8>, src: &Vec<u8>)
    ensures
        final(dst)@ == old(dst)@ + src@,
{
    let mut i: usize = 0;
    while i < src.len()
        invariant
            i <= src@.len(),
            dst@ == old(dst)@ + src@.take(i as int),
        decreases src@.len() - i,
    {
        dst.push(src[i]);
        i = i + 1;
        assert(dst@ =~= old(dst)@ + src@.take(i as int));
    }
    assert(src@.take(src@.len() as int) =~= src@);
}

/// Whether `c` occurs in `s`.
pub fn has_char(s: &str, c: char) -> (r: bool)
    ensures
        r == s@.contains(c),
{
    let v = chars_of(s);
    let mut i: usize = 0;
    while i < v.len()
        invariant
            v@ == s@,
            i <= v@.len(),
            forall|j: int| 0 <= j < i ==> v@[j] != c,
        decreases v@.len() - i,
    {
        if v[i] == c {
            assert(s@[i as int] == c);
            return true;
        }
        i = i + 1;
    }
    false
}

/// Whether two string slices hold the same chars.
pub fn same_text(a: &str, b: &str) -> (r: bool)
    ensures
        r == (a@ == b@),
{
    let va = chars_of(a);
    let vb = chars_of(b);
    if va.len() != vb.len() {
        return false;
    }
    let mut i: usize = 0;
    while i < va.len()
        invariant
            va@ == a@,
            vb@ == b@,
            va@.len() == vb@.len(),
            i <= va@.len(),
            forall|j: int| 0 <= j < i ==> va@[j] == vb@[j],
        decreases va@.len() - i,
    {
        if va[i] != vb[i] {
            return false;
        }
        i = i + 1;
    }
    assert(va@ =~= vb@);
    true
}

/// Whether every char of `s` is ASCII.
pub fn text_is_ascii(s: &str) -> (r: bool)
    ensures
        r == all_ascii(s@),
{
    let v = chars_of(s);
    let mut i: usize = 0;
    while i < v.len()
        invariant
            v@ == s@,
            i <= v@.len(),
            forall|j: int| 0 <= j < i ==> (#[trigger] v@[j] as u32) < 128,
        decreases v@.len() - i,
    {
        if (v[i] as u32) >= 128 {
            return false;
        }
        i = i + 1;
    }
    true
}

/// The char of a decimal digit.
pub fn digit_of(d: u64) -> (c: char)
    requires
        d < 10,
    ensures
        c == digit_char(d as nat),
{
    ((d as u8) + 48) as char
}

/// The upper-case hexadecimal char of a nibble.
pub fn hex_of(d: u8) -> (c: char)
    requires
        d < 16,
    ensures
        c == hex_char(d as nat),
{
    if d < 10 {
        (d + 48) as char
    } else {
        (d + 55) as char
    }
}

/// Appends the decimal representation of `n` to `s`.
pub fn push_decimal(s: &mut String, n: u64)
    ensures
        final(s)@ == old(s)@ + decimal(n as nat),
    decreases n,
{
    if n >= 10 {
        push_decimal(s, n / 10);
    }
    let c = digit_of(n % 10);
    push_char(s, c);
}

/// Appends the percent escape of one byte to `s`.
pub fn push_percent(s: &mut String, b: u8)
    ensures
        final(s)@ == old(s)@ + percent(b),
{
    push_char(s, '%');
    push_char(s, hex_of(b / 16));
    push_char(s, hex_of(b % 16));
    assert(old(s)@.push('%').push(hex_char((b / 16) as nat)).push(hex_char((b % 16) as nat))
        =~= old(s)@ + percent(b));
}

/// The UTF-8 bytes of one char.
pub fn utf8_of(c: char) -> (b: Vec<u8>)
    ensures
        b@ == encode_scalar(c as u32),
{
    let v = c as u32;
    let mut b: Vec<u8> = Vec::new();
    if v <= 0x7F {
        b.push((v & 0x7F) as u8);
    } else if v <= 0x7FF {
        b.push(0xC0 | ((v >> 6) & 0x1F) as u8);
        b.push(0x80 | (v & 0x3F) as u8);
    } else if v <= 0xFFFF && !(0xD800 <= v && v <= 0xDFFF) {
        b.push(0xE0 | ((v >> 12) & 0x0F) as u8);
        b.push(0x80 | ((v >> 6) & 0x3F) as u8);
        b.push(0x80 | (v & 0x3F) as u8);
    } else {
        b.push(0xF0 | ((v >> 18) & 0x7) as u8);
        b.push(0x80 | ((v >> 12) & 0x3F) as u8);
        b.push(0x80 | ((v >> 6) & 0x3F) as u8);
        b.push(0x80 | (v & 0x3F) as u8);
    }
    assert(b@ =~= encode_scalar(v));
    b
}

} // verus!
