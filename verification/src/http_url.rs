//! Parsing of `http://` and `https://` URLs into host, port, resource and
//! fragment, with the resource percent-encoded on the way.
use vstd::prelude::*;
use vstd::utf8::*;

use crate::error::Error;
use crate::text::{
    chars_of, decimal, percent, percent_all, push_char, push_decimal, push_percent, push_str, same_text, string_of,
    utf8_of,
};

verus! {

/// The port of a URL: the scheme's default, or one written in the URL.
#[derive(Clone, Copy, Debug, PartialEq, Eq, Structural)]
pub enum Port {
    /// No port written, `http://`: port 80.
    ImplicitHttp,
    /// No port written, `https://`: port 443.
    ImplicitHttps,
    /// A port written after the host.
    Explicit(u32),
}

/// The number of a port.
pub open spec fn port_number(p: Port) -> u32 {
    match p {
        Port::ImplicitHttp => 80,
        Port::ImplicitHttps => 443,
        Port::Explicit(n) => n,
    }
}

impl Port {
    /// The port number to connect to.
    pub fn port(self) -> (n: u32)
        ensures
            n == port_number(self),
    {
        match self {
            Port::ImplicitHttp => 80,
            Port::ImplicitHttps => 443,
            Port::Explicit(port) => port,
        }
    }
}

/// The abstract value of a parsed URL.
pub struct UrlView {
    pub https: bool,
    pub host: Seq<char>,
    pub port: Port,
    pub path_and_query: Seq<char>,
    pub fragment: Option<Seq<char>>,
}

/// A parsed `http://` or `https://` URL.
#[derive(Clone, Debug)]
pub struct HttpUrl {
    /// Whether the scheme is `https`.
    pub https: bool,
    /// The host, as written.
    pub host: String,
    /// The port.
    pub port: Port,
    /// The percent-encoded path and query, never empty.
    pub path_and_query: String,
    /// The percent-encoded fragment, without the `#`.
    pub fragment: Option<String>,
}

/// The view of an optional string.
pub open spec fn opt_view(o: Option<String>) -> Option<Seq<char>> {
    match o {
        Some(s) => Some(s@),
        None => None,
    }
}

impl View for HttpUrl {
    type V = UrlView;

    open spec fn view(&self) -> UrlView {
        UrlView {
            https: self.https,
            host: self.host@,
            port: self.port,
            path_and_query: self.path_and_query@,
            fragment: opt_view(self.fragment),
        }
    }
}

/// The chars at which one part of a URL ends and the next begins.
#[derive(Clone, Copy)]
pub enum Delimiter {
    /// `:`, `/` or `?`: the end of the host.
    HostEnd,
    /// `/` or `?`: the start of the resource.
    ResourceStart,
    /// `#`: the start of the fragment.
    FragmentMark,
}

/// Whether `c` is one of the delimiter's chars.
pub open spec fn is_delimiter(d: Delimiter, c: char) -> bool {
    match d {
        Delimiter::HostEnd => c == ':' || c == '/' || c == '?',
        Delimiter::ResourceStart => c == '/' || c == '?',
        Delimiter::FragmentMark => c == '#',
    }
}

/// The first index at or after `from` that holds one of the delimiter's
/// chars, or `s.len()` if there is none.
pub open spec fn first_delimiter(s: Seq<char>, from: int, d: Delimiter) -> int
    decreases s.len() - from,
{
    if from >= s.len() {
        s.len() as int
    } else if is_delimiter(d, s[from]) {
        from
    } else {
        first_delimiter(s, from + 1, d)
    }
}

/// The chars that stand unescaped in a resource: ASCII letters and digits,
/// `-`, `.`, `_`, `~`, and the URL's own special chars `&`, `#`, `=`, `/`,
/// `?`.
pub open spec fn resource_safe(c: char) -> bool {
    ||| ('0' <= c && c <= '9')
    ||| ('A' <= c && c <= 'Z')
    ||| ('a' <= c && c <= 'z')
    ||| c == '-' || c == '.' || c == '_' || c == '~'
    ||| c == '&' || c == '#' || c == '=' || c == '/' || c == '?'
}

/// One char of a resource, percent-encoded: itself if safe, else the
/// escapes of its UTF-8 bytes.
pub open spec fn encode_resource_char(c: char) -> Seq<char> {
    if resource_safe(c) {
        seq![c]
    } else {
        percent_all(encode_scalar(c as u32))
    }
}

/// A resource, percent-encoded char by char.
pub open spec fn encode_resource(s: Seq<char>) -> Seq<char>
    decreases s.len(),
{
    if s.len() == 0 {
        seq![]
    } else {
        encode_resource(s.drop_last()) + encode_resource_char(s.last())
    }
}

/// Whether `c` is an ASCII decimal digit.
pub open spec fn is_digit(c: char) -> bool {
    '0' <= c && c <= '9'
}

/// The value of a string of decimal digits.
pub open spec fn digits_value(s: Seq<char>) -> nat
    decreases s.len(),
{
    if s.len() == 0 {
        0
    } else {
        digits_value(s.drop_last()) * 10 + ((s.last() as u32) - 48) as nat
    }
}

/// The text after an optional leading `+`.
pub open spec fn unsigned_digits(s: Seq<char>) -> Seq<char> {
    if s.len() > 0 && s[0] == '+' {
        s.drop_first()
    } else {
        s
    }
}

/// What `u32::from_str` gives: an optional `+`, then one or more decimal
/// digits whose value fits in a `u32`.
pub open spec fn parse_u32(s: Seq<char>) -> Option<u32> {
    let digits = unsigned_digits(s);
    if digits.len() > 0 && (forall|i: int| 0 <= i < digits.len() ==> is_digit(#[trigger] digits[i]))
        && digits_value(digits) <= u32::MAX {
        Some(digits_value(digits) as u32)
    } else {
        None
    }
}

/// The port a URL gets from the text after its `:`.
pub open spec fn port_of(text: Seq<char>, https: bool) -> Port {
    match parse_u32(text) {
        Some(n) => Port::Explicit(n),
        None => if https {
            Port::ImplicitHttps
        } else {
            Port::ImplicitHttp
        },
    }
}

/// `http://`
pub open spec fn http_prefix() -> Seq<char> {
    seq!['h', 't', 't', 'p', ':', '/', '/']
}

/// `https://`
pub open spec fn https_prefix() -> Seq<char> {
    seq!['h', 't', 't', 'p', 's', ':', '/', '/']
}

/// Whether `s` starts with `p`.
pub open spec fn starts_with(s: Seq<char>, p: Seq<char>) -> bool {
    p.len() <= s.len() && s.take(p.len() as int) == p
}

/// The URL that the chars of `url` after its scheme (from index `start`)
/// describe. `inherited` is the fragment that it takes when it has none
/// of its own.
pub open spec fn url_after_scheme(
    url: Seq<char>,
    start: int,
    https: bool,
    inherited: Option<Seq<char>>,
) -> UrlView {
    let h = first_delimiter(url, start, Delimiter::HostEnd);
    let has_port = h < url.len() && url[h] == ':';
    let r = if has_port {
        first_delimiter(url, h + 1, Delimiter::ResourceStart)
    } else {
        h
    };
    let port_text = if has_port {
        url.subrange(h + 1, r)
    } else {
        Seq::<char>::empty()
    };
    let f = first_delimiter(url, r, Delimiter::FragmentMark);
    let pq = encode_resource(url.subrange(r, f));
    UrlView {
        https,
        host: url.subrange(start, h),
        port: port_of(port_text, https),
        path_and_query: if pq.len() == 0 {
            seq!['/']
        } else {
            pq
        },
        fragment: if f < url.len() {
            Some(encode_resource(url.subrange(f + 1, url.len() as int)))
        } else {
            inherited
        },
    }
}

/// The URL that `url` parses to, or `None` when its scheme is neither
/// `http://` nor `https://`.
pub open spec fn parse_url(url: Seq<char>, inherited: Option<Seq<char>>) -> Option<UrlView> {
    if starts_with(url, http_prefix()) {
        Some(url_after_scheme(url, 7, false, inherited))
    } else if starts_with(url, https_prefix()) {
        Some(url_after_scheme(url, 8, true, inherited))
    } else {
        None
    }
}

/// `scheme://host[:port]` of a URL, the port only when written.
pub open spec fn base_url(u: UrlView) -> Seq<char> {
    let scheme = if u.https {
        https_prefix()
    } else {
        http_prefix()
    };
    match u.port {
        Port::Explicit(p) => scheme + u.host + seq![':'] + decimal(p as nat),
        _ => scheme + u.host,
    }
}

/// `:port` when the port is written in the URL, else nothing.
pub open spec fn port_suffix(p: Port) -> Seq<char> {
    match p {
        Port::Explicit(n) => seq![':'] + decimal(n as nat),
        _ => Seq::<char>::empty(),
    }
}

/// `/path?query[#fragment]` of a URL.
pub open spec fn resource(u: UrlView) -> Seq<char> {
    match u.fragment {
        Some(f) => u.path_and_query + seq!['#'] + f,
        None => u.path_and_query,
    }
}

proof fn lemma_no_delimiter(s: Seq<char>, from: int, d: Delimiter)
    requires
        0 <= from,
        forall|i: int| from <= i < s.len() ==> !is_delimiter(d, #[trigger] s[i]),
    ensures
        first_delimiter(s, from, d) == s.len(),
    decreases s.len() - from,
{
    if from < s.len() {
        lemma_no_delimiter(s, from + 1, d);
    }
}

proof fn lemma_first_delimiter_bounds(s: Seq<char>, from: int, d: Delimiter)
    requires
        0 <= from <= s.len(),
    ensures
        from <= first_delimiter(s, from, d) <= s.len(),
    decreases s.len() - from,
{
    if from < s.len() && !is_delimiter(d, s[from]) {
        lemma_first_delimiter_bounds(s, from + 1, d);
    }
}

/// A parsed URL's path and query is never empty.
pub proof fn law_path_never_empty(url: Seq<char>, inherited: Option<Seq<char>>)
    ensures
        parse_url(url, inherited) matches Some(u) ==> u.path_and_query.len() > 0,
{
}

/// A URL without any `#` keeps the fragment it inherits (the one of the
/// URL it was redirected from, RFC 7231 section 7.1.2).
pub proof fn law_fragment_inherited(url: Seq<char>, inherited: Option<Seq<char>>)
    requires
        !url.contains('#'),
    ensures
        parse_url(url, inherited) matches Some(u) ==> u.fragment == inherited,
{
    if let Some(u) = parse_url(url, inherited) {
        assert forall|i: int| 0 <= i < url.len() implies !is_delimiter(
            Delimiter::FragmentMark,
            #[trigger] url[i],
        ) by {
            if url[i] == '#' {
                assert(url.contains('#'));
            }
        }
        let start: int = if starts_with(url, http_prefix()) {
            7
        } else {
            8
        };
        let h = first_delimiter(url, start, Delimiter::HostEnd);
        lemma_first_delimiter_bounds(url, start, Delimiter::HostEnd);
        let has_port = h < url.len() && url[h] == ':';
        if has_port {
            lemma_first_delimiter_bounds(url, h + 1, Delimiter::ResourceStart);
        }
        let r = if has_port {
            first_delimiter(url, h + 1, Delimiter::ResourceStart)
        } else {
            h
        };
        lemma_no_delimiter(url, r, Delimiter::FragmentMark);
    }
}

/// The scheme decides whether a URL is `https`, and a URL without a
/// written port gets port 80 for `http` and 443 for `https`.
pub proof fn law_scheme_and_default_port(url: Seq<char>, inherited: Option<Seq<char>>)
    ensures
        parse_url(url, inherited) matches Some(u) ==> {
            &&& u.https == !starts_with(url, http_prefix())
            &&& !(u.port is Explicit) ==> port_number(u.port) == if u.https {
                443u32
            } else {
                80u32
            }
        },
{
}

/// Whether `c` is a letter, a digit, `-`, `.`, `_`, `~`, or one of the
/// URL's own special chars `&`, `=`, `?`, `/`.
pub open spec fn plain_url_char(c: char) -> bool {
    ('0' <= c && c <= '9') || ('A' <= c && c <= 'Z') || ('a' <= c && c <= 'z') || c == '-' || c
        == '.' || c == '_' || c == '~' || c == '&' || c == '=' || c == '?' || c == '/'
}

proof fn lemma_first_delimiter_at(s: Seq<char>, from: int, k: int, d: Delimiter)
    requires
        0 <= from <= k < s.len(),
        forall|i: int| from <= i < k ==> !is_delimiter(d, #[trigger] s[i]),
        is_delimiter(d, s[k]),
    ensures
        first_delimiter(s, from, d) == k,
    decreases k - from,
{
    if from < k {
        lemma_first_delimiter_at(s, from + 1, k, d);
    }
}

proof fn lemma_plain_encodes_to_itself(s: Seq<char>)
    requires
        forall|i: int| 0 <= i < s.len() ==> plain_url_char(#[trigger] s[i]),
    ensures
        encode_resource(s) == s,
    decreases s.len(),
{
    if s.len() > 0 {
        lemma_plain_encodes_to_itself(s.drop_last());
        assert(plain_url_char(s[s.len() - 1]));
        assert(s.drop_last().push(s.last()) =~= s);
    }
}

/// Parsing keeps a resource made of letters, digits and the URL's special
/// chars (`&`, `=`, `?`, `/`, and `-`, `.`, `_`, `~`) as it is written, and
/// the same for a fragment: `http://example.com/search?a=1&b=2` has the
/// path and query `/search?a=1&b=2`. The host is what stands before the
/// resource, and the port is the scheme's default.
pub proof fn law_plain_resource_kept(
    https: bool,
    host: Seq<char>,
    pq: Seq<char>,
    frag: Option<Seq<char>>,
    inherited: Option<Seq<char>>,
)
    requires
        forall|i: int| 0 <= i < host.len() ==> !is_delimiter(Delimiter::HostEnd, #[trigger] host[i]),
        pq.len() > 0,
        pq[0] == '/',
        forall|i: int| 0 <= i < pq.len() ==> plain_url_char(#[trigger] pq[i]),
        frag matches Some(f) ==> forall|i: int| 0 <= i < f.len() ==> plain_url_char(#[trigger] f[i]),
    ensures
        ({
            let scheme = if https {
                https_prefix()
            } else {
                http_prefix()
            };
            let tail = match frag {
                Some(f) => seq!['#'] + f,
                None => Seq::<char>::empty(),
            };
            parse_url(scheme + host + pq + tail, inherited) == Some(
                UrlView {
                    https,
                    host,
                    port: if https {
                        Port::ImplicitHttps
                    } else {
                        Port::ImplicitHttp
                    },
                    path_and_query: pq,
                    fragment: match frag {
                        Some(f) => Some(f),
                        None => inherited,
                    },
                },
            )
        }),
{
    let scheme = if https {
        https_prefix()
    } else {
        http_prefix()
    };
    let tail = match frag {
        Some(f) => seq!['#'] + f,
        None => Seq::<char>::empty(),
    };
    let url = scheme + host + pq + tail;
    let start = scheme.len() as int;
    let h = start + host.len();
    assert(url.take(start) =~= scheme);
    if https {
        assert(url[4] == 's');
        assert(url.take(7)[4] != http_prefix()[4]);
        assert(!starts_with(url, http_prefix()));
    }
    assert forall|i: int| start <= i < h implies !is_delimiter(Delimiter::HostEnd, #[trigger] url[i]) by {
        assert(url[i] == host[i - start]);
    }
    assert(url[h] == pq[0]);
    lemma_first_delimiter_at(url, start, h, Delimiter::HostEnd);
    let e = h + pq.len();
    assert forall|i: int| h <= i < e implies !is_delimiter(Delimiter::FragmentMark, #[trigger] url[i]) by {
        assert(url[i] == pq[i - h]);
        assert(plain_url_char(pq[i - h]));
    }
    assert(url.subrange(start, h) =~= host);
    assert(url.subrange(h, e) =~= pq);
    lemma_plain_encodes_to_itself(pq);
    assert(unsigned_digits(Seq::<char>::empty()).len() == 0);
    match frag {
        Some(f) => {
            assert(url[e] == '#');
            lemma_first_delimiter_at(url, h, e, Delimiter::FragmentMark);
            assert(url.subrange(e + 1, url.len() as int) =~= f);
            lemma_plain_encodes_to_itself(f);
        },
        None => {
            assert(url.len() == e);
            lemma_no_delimiter(url, h, Delimiter::FragmentMark);
        },
    }
}

/// The index of the first delimiter char in `v` at or after `from`.
fn find_delimiter(v: &Vec<char>, from: usize, d: Delimiter) -> (r: usize)
    requires
        from <= v@.len(),
    ensures
        r == first_delimiter(v@, from as int, d),
        from <= r <= v@.len(),
{
    let mut i = from;
    while i < v.len()
        invariant
            from <= i <= v@.len(),
            first_delimiter(v@, from as int, d) == first_delimiter(v@, i as int, d),
        decreases v@.len() - i,
    {
        let c = v[i];
        let hit = match d {
            Delimiter::HostEnd => c == ':' || c == '/' || c == '?',
            Delimiter::ResourceStart => c == '/' || c == '?',
            Delimiter::FragmentMark => c == '#',
        };
        if hit {
            return i;
        }
        i = i + 1;
    }
    i
}

/// Whether `c` stands unescaped in a resource.
fn is_resource_safe(c: char) -> (r: bool)
    ensures
        r == resource_safe(c),
{
    ('0' <= c && c <= '9') || ('A' <= c && c <= 'Z') || ('a' <= c && c <= 'z') || c == '-' || c
        == '.' || c == '_' || c == '~' || c == '&' || c == '#' || c == '=' || c == '/' || c == '?'
}

/// Appends the percent escapes of all of `b` to `s`.
fn push_percent_all(s: &mut String, b: &Vec<u8>)
    ensures
        final(s)@ == old(s)@ + percent_all(b@),
{
    let mut i: usize = 0;
    while i < b.len()
        invariant
            i <= b@.len(),
            s@ == old(s)@ + percent_all(b@.take(i as int)),
        decreases b@.len() - i,
    {
        proof {
            lemma_percent_all_step(b@, i as int);
        }
        push_percent(s, b[i]);
        i = i + 1;
    }
    assert(b@.take(b@.len() as int) =~= b@);
}

proof fn lemma_percent_all_step(b: Seq<u8>, i: int)
    requires
        0 <= i < b.len(),
    ensures
        percent_all(b.take(i + 1)) == percent_all(b.take(i)) + percent(b[i]),
    decreases i,
{
    lemma_percent_all_append(b.take(i), b[i]);
    assert(b.take(i).push(b[i]) =~= b.take(i + 1));
}

/// The escapes of bytes followed by one more byte.
pub proof fn lemma_percent_all_append(b: Seq<u8>, x: u8)
    ensures
        percent_all(b.push(x)) == percent_all(b) + percent(x),
    decreases b.len(),
{
    if b.len() == 0 {
        assert(b.push(x).drop_first() =~= Seq::<u8>::empty());
        assert(percent_all(b.push(x)) =~= percent(x) + percent_all(Seq::<u8>::empty()));
        assert(percent_all(Seq::<u8>::empty()) =~= Seq::<char>::empty());
        assert(percent_all(b) + percent(x) =~= percent(x));
    } else {
        lemma_percent_all_append(b.drop_first(), x);
        assert(b.push(x).drop_first() =~= b.drop_first().push(x));
        assert(percent_all(b.push(x)) =~= percent(b[0]) + (percent_all(b.drop_first()) + percent(
            x,
        )));
    }
}

/// Appends the percent-encoding of the chars `v[lo..hi]` to `s`.
fn push_encoded(s: &mut String, v: &Vec<char>, lo: usize, hi: usize)
    requires
        lo <= hi <= v@.len(),
    ensures
        final(s)@ == old(s)@ + encode_resource(v@.subrange(lo as int, hi as int)),
{
    let mut i = lo;
    assert(v@.subrange(lo as int, lo as int) =~= Seq::<char>::empty());
    assert(old(s)@ + encode_resource(Seq::<char>::empty()) =~= old(s)@);
    while i < hi
        invariant
            lo <= i <= hi <= v@.len(),
            s@ == old(s)@ + encode_resource(v@.subrange(lo as int, i as int)),
        decreases hi - i,
    {
        let c = v[i];
        assert(v@.subrange(lo as int, i + 1).drop_last() =~= v@.subrange(lo as int, i as int));
        let ghost before = s@;
        if is_resource_safe(c) {
            push_char(s, c);
            assert(s@ =~= before + encode_resource_char(c));
        } else {
            let bytes = utf8_of(c);
            push_percent_all(s, &bytes);
        }
        i = i + 1;
        assert(s@ =~= old(s)@ + encode_resource(v@.subrange(lo as int, i as int)));
    }
}

/// Whether `v` starts with the chars of `p`.
fn has_prefix(v: &Vec<char>, p: &Vec<char>) -> (r: bool)
    ensures
        r == starts_with(v@, p@),
{
    if p.len() > v.len() {
        return false;
    }
    let mut i: usize = 0;
    while i < p.len()
        invariant
            p@.len() <= v@.len(),
            i <= p@.len(),
            forall|j: int| 0 <= j < i ==> v@[j] == p@[j],
        decreases p@.len() - i,
    {
        if v[i] != p[i] {
            assert(v@.take(p@.len() as int)[i as int] != p@[i as int]);
            return false;
        }
        i = i + 1;
    }
    assert(v@.take(p@.len() as int) =~= p@);
    true
}

proof fn lemma_digits_value_grows(s: Seq<char>, i: int, j: int)
    requires
        0 <= i <= j <= s.len(),
        forall|k: int| 0 <= k < s.len() ==> is_digit(#[trigger] s[k]),
    ensures
        digits_value(s.take(i)) <= digits_value(s.take(j)),
    decreases j - i,
{
    if i < j {
        lemma_digits_value_grows(s, i, j - 1);
        assert(s.take(j).drop_last() =~= s.take(j - 1));
    }
}

/// `u32::from_str` of the chars `v[lo..hi]`.
fn parse_port(v: &Vec<char>, lo: usize, hi: usize) -> (r: Option<u32>)
    requires
        lo <= hi <= v@.len(),
    ensures
        r == parse_u32(v@.subrange(lo as int, hi as int)),
{
    let ghost s = v@.subrange(lo as int, hi as int);
    let mut start = lo;
    if lo < hi && v[lo] == '+' {
        start = lo + 1;
    }
    let ghost digits = v@.subrange(start as int, hi as int);
    assert(digits =~= unsigned_digits(s));
    if start == hi {
        return None;
    }
    let mut value: u64 = 0;
    let mut i = start;
    while i < hi
        invariant
            lo <= start <= i <= hi <= v@.len(),
            digits == v@.subrange(start as int, hi as int),
            s == v@.subrange(lo as int, hi as int),
            digits == unsigned_digits(s),
            forall|k: int| 0 <= k < i - start ==> is_digit(#[trigger] digits[k]),
            value == digits_value(digits.take(i - start)),
            value <= u32::MAX,
        decreases hi - i,
    {
        let c = v[i];
        if !('0' <= c && c <= '9') {
            assert(!is_digit(digits[i - start]));
            assert(!(forall|k: int| 0 <= k < digits.len() ==> is_digit(#[trigger] digits[k])));
            return None;
        }
        let d = (c as u32 - 48) as u64;
        let next = value * 10 + d;
        assert(digits.take(i - start + 1).drop_last() =~= digits.take(i - start));
        assert(next == digits_value(digits.take(i - start + 1)));
        i = i + 1;
        if next > 0xFFFF_FFFF {
            proof {
                if forall|k: int| 0 <= k < digits.len() ==> is_digit(#[trigger] digits[k]) {
                    lemma_digits_value_grows(digits, i - start, digits.len() as int);
                    assert(digits.take(digits.len() as int) =~= digits);
                    assert(digits_value(digits) > u32::MAX);
                }
            }
            return None;
        }
        value = next;
    }
    assert(digits.take(digits.len() as int) =~= digits);
    Some(value as u32)
}

/// A copy of an optional string.
fn copy_optional(o: &Option<String>) -> (r: Option<String>)
    ensures
        opt_view(r) == opt_view(*o),
{
    match o {
        Some(s) => Some(s.clone()),
        None => None,
    }
}

impl HttpUrl {
    /// Parses an `http://` or `https://` URL. The host runs up to the
    /// first `:`, `/` or `?`; after a `:` comes the port, up to the first
    /// `/` or `?`; the resource follows, its fragment after the first `#`.
    /// Resource and fragment are percent-encoded. When the URL has no
    /// fragment, it takes that of `redirected_from`, if any.
    pub fn parse(url: &str, redirected_from: Option<&HttpUrl>) -> (res: Result<HttpUrl, Error>)
        ensures
            ({
                let inherited = match redirected_from {
                    Some(prev) => prev@.fragment,
                    None => None,
                };
                match res {
                    Ok(u) => parse_url(url@, inherited) == Some(u@),
                    Err(e) => parse_url(url@, inherited) is None && e == Error::InvalidProtocol,
                }
            }),
    {
        let ghost inherited = match redirected_from {
            Some(prev) => prev@.fragment,
            None => None,
        };
        let v = chars_of(url);
        let http = vec!['h', 't', 't', 'p', ':', '/', '/'];
        let https_p = vec!['h', 't', 't', 'p', 's', ':', '/', '/'];
        assert(http@ =~= http_prefix());
        assert(https_p@ =~= https_prefix());
        let (start, https) = if has_prefix(&v, &http) {
            (7usize, false)
        } else if has_prefix(&v, &https_p) {
            (8usize, true)
        } else {
            return Err(Error::InvalidProtocol);
        };
        let h = find_delimiter(&v, start, Delimiter::HostEnd);
        let host = string_of(&v, start, h);
        let has_port = h < v.len() && v[h] == ':';
        let r = if has_port {
            find_delimiter(&v, h + 1, Delimiter::ResourceStart)
        } else {
            h
        };
        let port_value = if has_port {
            parse_port(&v, h + 1, r)
        } else {
            assert(v@.subrange(h as int, h as int) =~= Seq::<char>::empty());
            parse_port(&v, h, h)
        };
        let port = match port_value {
            Some(n) => Port::Explicit(n),
            None => if https {
                Port::ImplicitHttps
            } else {
                Port::ImplicitHttp
            },
        };
        let f = find_delimiter(&v, r, Delimiter::FragmentMark);
        let mut path_and_query = String::new();
        push_encoded(&mut path_and_query, &v, r, f);
        assert(Seq::<char>::empty() + encode_resource(v@.subrange(r as int, f as int))
            =~= encode_resource(v@.subrange(r as int, f as int)));
        if path_and_query.as_str().is_empty() {
            push_char(&mut path_and_query, '/');
            assert(path_and_query@ =~= seq!['/']);
        }
        let fragment = if f < v.len() {
            let mut frag = String::new();
            push_encoded(&mut frag, &v, f + 1, v.len());
            assert(Seq::<char>::empty() + encode_resource(
                v@.subrange(f + 1, v@.len() as int),
            ) =~= encode_resource(v@.subrange(f + 1, v@.len() as int)));
            Some(frag)
        } else {
            match redirected_from {
                Some(prev) => copy_optional(&prev.fragment),
                None => None,
            }
        };
        let parsed = HttpUrl { https, host, port, path_and_query, fragment };
        assert(parsed@ == url_after_scheme(v@, start as int, https, inherited));
        Ok(parsed)
    }

    /// Appends `scheme://host[:port]` to `dst`.
    pub fn write_base_url_to(&self, dst: &mut String)
        ensures
            final(dst)@ == old(dst)@ + base_url(self@),
    {
        if self.https {
            push_str(dst, "https://");
        } else {
            push_str(dst, "http://");
        }
        proof {
            reveal_strlit("https://");
            reveal_strlit("http://");
        }
        let ghost scheme = if self.https {
            https_prefix()
        } else {
            http_prefix()
        };
        assert(dst@ =~= old(dst)@ + scheme);
        push_str(dst, self.host.as_str());
        match self.port {
            Port::Explicit(p) => {
                push_char(dst, ':');
                push_decimal(dst, p as u64);
                assert(dst@ =~= old(dst)@ + base_url(self@));
            },
            _ => {
                assert(dst@ =~= old(dst)@ + base_url(self@));
            },
        }
    }

    /// Appends `/path?query[#fragment]` to `dst`.
    pub fn write_resource_to(&self, dst: &mut String)
        ensures
            final(dst)@ == old(dst)@ + resource(self@),
    {
        push_str(dst, self.path_and_query.as_str());
        match &self.fragment {
            Some(f) => {
                push_char(dst, '#');
                push_str(dst, f.as_str());
                assert(dst@ =~= old(dst)@ + resource(self@));
            },
            None => {
                assert(dst@ =~= old(dst)@ + resource(self@));
            },
        }
    }

    /// Whether two URLs agree in every part.
    pub fn same_as(&self, other: &HttpUrl) -> (r: bool)
        ensures
            r == (self@ == other@),
    {
        let frag_same = match (&self.fragment, &other.fragment) {
            (Some(a), Some(b)) => same_text(a.as_str(), b.as_str()),
            (None, None) => true,
            _ => false,
        };
        let r = self.https == other.https && same_text(self.host.as_str(), other.host.as_str())
            && self.port == other.port && same_text(
            self.path_and_query.as_str(),
            other.path_and_query.as_str(),
        ) && frag_same;
        proof {
            if r {
                assert(opt_view(self.fragment) == opt_view(other.fragment));
            }
        }
        r
    }
}

} // verus!
