//! Connections, and the decisions taken between one exchange and the next:
//! whether a response is a redirect to follow, where it leads, and what
//! the final response's URL is.
use vstd::prelude::*;

use crate::error::Error;
use crate::header_map::{lookup, pairs_view};
use crate::http_url::{base_url, opt_view, resource, UrlView};
use crate::request::{redirect_outcome, urls_view, Method, ParsedRequest, RequestView};
use crate::response::ResponseLazy;
use crate::text::{all_ascii, chars_of, push_char, push_str, string_of, text_is_ascii};
use std::time::{Duration, Instant};

verus! {

/// A way of sending a request: implementations write the request to the
/// server and hand back what it answered.
pub trait Connection: Sized {
    /// Send a given request, returning a response or error on failure
    fn send(self, request: ParsedRequest) -> Result<ResponseLazy, Error>;
}

/// A source of bytes that a response can be read from.
pub trait CoreRead: Send {
    /// Reads bytes into the front of `buf`, returning how many.
    fn read(&mut self, buf: &mut [u8]) -> Result<usize, Error>;
}

/// Whether a response with this status is a redirect that the request
/// follows: 301, 302, 303 or 307, when redirects are followed.
pub open spec fn follows_redirect(config: RequestView, status_code: i32) -> bool {
    config.follow_redirects && (status_code == 301 || status_code == 302 || status_code == 303
        || status_code == 307)
}

/// The method after a redirect: a `303 See Other` turns POST, PUT and
/// DELETE into GET; anything else keeps the method.
pub open spec fn method_after_redirect(status_code: i32, m: Method) -> Method {
    if status_code == 303 && (m is Post || m is Put || m is Delete) {
        Method::Get
    } else {
        m
    }
}

/// What comes after a response: another request over the connection, or
/// the end of the exchange.
enum NextHop<T: Connection> {
    Redirect(Result<T, Error>),
    Destination(Result<T, Error>),
}

/// Decides what follows a response with `status_code` and `location`, and
/// on a redirect moves the request to its new URL.
fn get_redirect<T: Connection>(
    connection: T,
    request: &mut ParsedRequest,
    status_code: i32,
    url: Option<&String>,
) -> (hop: NextHop<T>)
    ensures
        !follows_redirect(old(request).config@, status_code) ==> {
            &&& hop == NextHop::Destination(Ok(connection))
            &&& *final(request) == *old(request)
        },
        follows_redirect(old(request).config@, status_code) && url is None ==> {
            &&& hop == NextHop::<T>::Redirect(Err(Error::RedirectLocationMissing))
            &&& *final(request) == *old(request)
        },
        follows_redirect(old(request).config@, status_code) && url is Some ==> {
            let out = redirect_outcome(
                old(request).url@,
                urls_view(old(request).redirects@),
                old(request).config@.max_redirects,
                url.unwrap()@,
            );
            &&& final(request).url@ == out.0
            &&& urls_view(final(request).redirects@) == out.1
            &&& match out.2 {
                Ok(_) => {
                    &&& hop == NextHop::Redirect(Ok(connection))
                    &&& final(request).config@ == (RequestView {
                        method: method_after_redirect(status_code, old(request).config@.method),
                        ..old(request).config@
                    })
                },
                Err(e) => {
                    &&& hop == NextHop::<T>::Redirect(Err(e))
                    &&& final(request).config == old(request).config
                },
            }
        },
{
    let follow = request.config.follow_redirects();
    if follow && (status_code == 301 || status_code == 302 || status_code == 303 || status_code
        == 307) {
        let url = match url {
            Some(url) => url,
            None => return NextHop::Redirect(Err(Error::RedirectLocationMissing)),
        };
        match request.redirect_to(url.as_str()) {
            Ok(()) => {
                if status_code == 303 {
                    let to_get = match request.config.method() {
                        Method::Post | Method::Put | Method::Delete => true,
                        _ => false,
                    };
                    if to_get {
                        request.config.set_method(Method::Get);
                    }
                }
                NextHop::Redirect(Ok(connection))
            },
            Err(err) => NextHop::Redirect(Err(err)),
        }
    } else {
        NextHop::Destination(Ok(connection))
    }
}

/// Whether `r` is `response` with the URL `u` (base, then resource with
/// its fragment) appended to its URL.
pub open spec fn completed(r: ResponseLazy, response: ResponseLazy, u: UrlView) -> bool {
    &&& r.url@ == response.url@ + base_url(u) + resource(u)
    &&& r.status_code == response.status_code
    &&& r.reason_phrase == response.reason_phrase
    &&& r.headers == response.headers
    &&& r.body == response.body
}

/// Follows the redirect that `response` asks for, by sending the moved
/// request over `connection` and handing back its answer, or, when it
/// asks for none, completes the
/// response with the request's final URL (base, then resource with its
/// fragment).
pub fn handle_redirects<T: Connection>(
    connection: T,
    request: ParsedRequest,
    response: ResponseLazy,
) -> (res: Result<ResponseLazy, Error>)
    ensures
        ({
            let location = lookup(pairs_view(response.headers@), "location"@);
            let follows = follows_redirect(request.config@, response.status_code);
            &&& !follows ==> (res matches Ok(r) && completed(r, response, request.url@))
            &&& follows && location is None ==> res == Err::<ResponseLazy, Error>(
                Error::RedirectLocationMissing,
            )
            &&& follows && location is Some ==> {
                let out = redirect_outcome(
                    request.url@,
                    urls_view(request.redirects@),
                    request.config@.max_redirects,
                    location.unwrap(),
                );
                &&& out.2 matches Err(e) ==> res == Err::<ResponseLazy, Error>(e)
                &&& out.2 is Ok ==> exists|moved: ParsedRequest|
                    {
                        &&& #[trigger] call_ensures(T::send, (connection, moved), res)
                        &&& moved.url@ == out.0
                        &&& urls_view(moved.redirects@) == out.1
                        &&& moved.config@ == (RequestView {
                            method: method_after_redirect(
                                response.status_code,
                                request.config@.method,
                            ),
                            ..request.config@
                        })
                    }
            }
        }),
{
    let mut request = request;
    let mut response = response;
    let status_code = response.status_code;
    let hop = {
        let url = response.header("location");
        get_redirect(connection, &mut request, status_code, url)
    };
    match hop {
        NextHop::Redirect(connection) => {
            let connection = match connection {
                Ok(c) => c,
                Err(e) => return Err(e),
            };
            connection.send(request)
        },
        NextHop::Destination(_) => {
            let dst_url = request.url;
            dst_url.write_base_url_to(&mut response.url);
            dst_url.write_resource_to(&mut response.url);
            Ok(response)
        },
    }
}

/// The pieces of `s` between its `.`s, as `str::split('.')` gives them:
/// one more piece than there are dots.
pub open spec fn split_dots(s: Seq<char>) -> Seq<Seq<char>>
    decreases s.len(),
{
    if s.len() == 0 {
        seq![Seq::<char>::empty()]
    } else {
        let pieces = split_dots(s.drop_last());
        if s.last() == '.' {
            pieces.push(Seq::<char>::empty())
        } else {
            pieces.update(pieces.len() - 1, pieces.last().push(s.last()))
        }
    }
}

/// Whether the punycode encoder's `u32` counter stays in range for this
/// label: for every char, its code point less 126, times the label's
/// length, plus one, is at most `u32::MAX`. Between two emitted digits
/// the counter grows by at most (largest code point - 128) times the
/// length, plus twice the length and one, so it cannot overflow then.
pub open spec fn punycode_in_range(label: Seq<char>) -> bool {
    forall|i: int|
        0 <= i < label.len() ==> ((#[trigger] label[i] as u32) as int - 126) * label.len() + 1
            <= u32::MAX
}

/// An ASCII letter or digit.
pub open spec fn ascii_alphanumeric(c: char) -> bool {
    ('0' <= c && c <= '9') || ('A' <= c && c <= 'Z') || ('a' <= c && c <= 'z')
}

/// The chars that a punycode form of `label` is made of: ASCII letters and
/// digits, `-`, and the label's own ASCII chars.
pub open spec fn punycode_chars(label: Seq<char>, p: Seq<char>) -> bool {
    forall|i: int|
        0 <= i < p.len() ==> ascii_alphanumeric(#[trigger] p[i]) || p[i] == '-' || ((p[i] as u32)
            < 128 && label.contains(p[i]))
}

/// What `punycode::encode` returns for a label: its punycode form
/// (without `xn--`), or `None` when it fails.
pub uninterp spec fn punycode_encoding(label: Seq<char>) -> Option<Seq<char>>;

/// The punycode form of a label, without the `xn--` prefix.
///
/// Calls `punycode::encode`, which returns the RFC 3492 encoding of the
/// label, or an error. Its output starts with the label's ASCII chars,
/// then `-` when there were any, then digits that its `encode_digit`
/// asserts to be `0`-`9` or `a`-`z`. Labels are kept to those for which
/// the encoder's `u32` counter cannot overflow (`punycode_in_range`).
#[verifier::external_body]
fn punycode_encode(label: &str) -> (r: Option<String>)
    requires
        punycode_in_range(label@),
    ensures
        match r {
            Some(p) => punycode_encoding(label@) == Some(p@) && punycode_chars(label@, p@),
            None => punycode_encoding(label@) is None,
        },
{
    punycode::encode(label).ok()
}

/// The ASCII form of one host label: the label itself when it is ASCII,
/// else `xn--` and its punycode form; `None` when that fails or the label
/// is outside `punycode_in_range`.
pub open spec fn ascii_form(label: Seq<char>) -> Option<Seq<char>> {
    if all_ascii(label) {
        Some(label)
    } else if !punycode_in_range(label) {
        None
    } else {
        match punycode_encoding(label) {
            Some(p) => Some("xn--"@ + p),
            None => None,
        }
    }
}

/// The labels' forms joined by `.`, or `None` when one of them is `None`.
pub open spec fn join_forms(forms: Seq<Option<Seq<char>>>) -> Option<Seq<char>>
    decreases forms.len(),
{
    if forms.len() == 0 {
        Some(Seq::<char>::empty())
    } else {
        match (join_forms(forms.drop_last()), forms.last()) {
            (Some(prefix), Some(l)) => Some(
                if forms.len() == 1 {
                    l
                } else {
                    prefix + seq!['.'] + l
                },
            ),
            _ => None,
        }
    }
}

/// The ASCII form of a host: the host itself when it is ASCII, else its
/// labels' ASCII forms joined by `.`, or `None` when a label fails.
pub open spec fn ascii_host(host: Seq<char>) -> Option<Seq<char>> {
    if all_ascii(host) {
        Some(host)
    } else {
        join_forms(split_dots(host).map_values(|l: Seq<char>| ascii_form(l)))
    }
}

/// The labels joined by `.`.
pub open spec fn dotted(labels: Seq<Seq<char>>) -> Seq<char>
    decreases labels.len(),
{
    if labels.len() == 0 {
        Seq::<char>::empty()
    } else if labels.len() == 1 {
        labels[0]
    } else {
        dotted(labels.drop_last()) + seq!['.'] + labels.last()
    }
}

proof fn lemma_join_forms_dotted(fs: Seq<Option<Seq<char>>>)
    ensures
        join_forms(fs) matches Some(h) ==> {
            &&& forall|i: int| 0 <= i < fs.len() ==> (#[trigger] fs[i]) is Some
            &&& h == dotted(Seq::new(fs.len(), |i: int| fs[i].unwrap()))
        },
    decreases fs.len(),
{
    if fs.len() > 0 {
        lemma_join_forms_dotted(fs.drop_last());
        if let Some(h) = join_forms(fs) {
            let all = Seq::new(fs.len(), |i: int| fs[i].unwrap());
            let front = Seq::new(fs.drop_last().len(), |i: int| fs.drop_last()[i].unwrap());
            assert(all.drop_last() =~= front);
            assert forall|i: int| 0 <= i < fs.len() implies (#[trigger] fs[i]) is Some by {
                if i < fs.len() - 1 {
                    assert(fs[i] == fs.drop_last()[i]);
                }
            }
        }
    }
}

/// Whether `out` is what label `l` becomes in an ASCII host: `l` itself
/// when it is ASCII, else `xn--` followed by its punycode encoding.
pub open spec fn label_becomes(l: Seq<char>, out: Seq<char>) -> bool {
    if all_ascii(l) {
        out == l
    } else {
        punycode_encoding(l) matches Some(p) && out == "xn--"@ + p
    }
}

/// A host is converted label by label, each label alone, wherever it
/// stands: the converted host is the converted labels joined by `.`, where
/// an ASCII label is kept as it is and any other label becomes `xn--`
/// followed by its punycode encoding.
pub proof fn law_labels_converted_alone(host: Seq<char>)
    requires
        !all_ascii(host),
    ensures
        ascii_host(host) matches Some(h) ==> exists|out: Seq<Seq<char>>|
            {
                &&& out.len() == split_dots(host).len()
                &&& forall|i: int|
                    0 <= i < out.len() ==> label_becomes(split_dots(host)[i], #[trigger] out[i])
                &&& h == #[trigger] dotted(out)
            },
{
    let labels = split_dots(host);
    let fs = labels.map_values(|l: Seq<char>| ascii_form(l));
    lemma_join_forms_dotted(fs);
    if let Some(h) = ascii_host(host) {
        let out = Seq::new(fs.len(), |i: int| fs[i].unwrap());
        assert forall|i: int| 0 <= i < out.len() implies label_becomes(
            split_dots(host)[i],
            #[trigger] out[i],
        ) by {
            assert(fs[i] == ascii_form(labels[i]));
            assert(fs[i] is Some);
        }
        assert(h == dotted(out));
    }
}

/// The view of a list of optional strings.
pub open spec fn forms_view(v: Seq<Option<String>>) -> Seq<Option<Seq<char>>> {
    Seq::new(v.len(), |i: int| opt_view(v[i]))
}

/// The ASCII form of one host label.
fn label_ascii_form(label: &str) -> (r: Option<String>)
    ensures
        match r {
            Some(s) => ascii_form(label@) == Some(s@),
            None => ascii_form(label@) is None,
        },
        opt_view(r) == ascii_form(label@),
        r matches Some(s) ==> all_ascii(s@),
        !label@.contains('.') ==> (r matches Some(s) ==> !s@.contains('.')),
{
    if text_is_ascii(label) {
        return Some(label.to_owned());
    }
    if !in_punycode_range(label) {
        return None;
    }
    match punycode_encode(label) {
        Some(p) => {
            let mut s = String::new();
            push_str(&mut s, "xn--");
            push_str(&mut s, p.as_str());
            assert(s@ =~= "xn--"@ + p@);
            proof {
                reveal_strlit("xn--");
                assert forall|i: int| 0 <= i < s@.len() implies (#[trigger] s@[i] as u32) < 128 by {
                    if i >= 4 {
                        assert(s@[i] == p@[i - 4]);
                    }
                }
                if !label@.contains('.') {
                    if s@.contains('.') {
                        let k = choose|k: int| 0 <= k < s@.len() && s@[k] == '.';
                        assert(s@[k] == p@[k - 4]);
                    }
                }
            }
            Some(s)
        },
        None => None,
    }
}

/// Whether the label's code points are in range for the punycode encoder.
fn in_punycode_range(label: &str) -> (r: bool)
    ensures
        r == punycode_in_range(label@),
{
    let v = chars_of(label);
    let len = v.len();
    let mut i: usize = 0;
    while i < len
        invariant
            v@ == label@,
            len == v@.len(),
            i <= len,
            forall|j: int|
                0 <= j < i ==> ((#[trigger] v@[j] as u32) as int - 126) * len + 1 <= u32::MAX,
        decreases len - i,
    {
        let code = v[i] as u32;
        proof {
            vstd::utf8::char_is_scalar(v@[i as int]);
        }
        if code >= 126 {
            let d = (code - 126) as u128;
            assert(d * (len as u128) <= 0x20_0000 * 0x1_0000_0000_0000_0000) by (nonlinear_arith)
                requires
                    d < 0x20_0000,
                    (len as u128) < 0x1_0000_0000_0000_0000,
            ;
            if d * (len as u128) + 1 > 0xFFFF_FFFF {
                assert(((v@[i as int] as u32) as int - 126) * len + 1 > u32::MAX);
                return false;
            }
        } else {
            assert(((code as int) - 126) * len <= 0) by (nonlinear_arith)
                requires
                    (code as int) < 126,
                    len >= 0,
            ;
        }
        i = i + 1;
    }
    true
}

/// The number of `.`s in `s`.
pub open spec fn count_dots(s: Seq<char>) -> nat
    decreases s.len(),
{
    if s.len() == 0 {
        0
    } else {
        count_dots(s.drop_last()) + if s.last() == '.' {
            1nat
        } else {
            0nat
        }
    }
}

/// A text splits at its dots into one more piece than it has dots.
pub proof fn law_split_dots_len(s: Seq<char>)
    ensures
        split_dots(s).len() == count_dots(s) + 1,
    decreases s.len(),
{
    if s.len() > 0 {
        law_split_dots_len(s.drop_last());
    }
}

proof fn lemma_count_dots_concat(a: Seq<char>, b: Seq<char>)
    ensures
        count_dots(a + b) == count_dots(a) + count_dots(b),
    decreases b.len(),
{
    if b.len() == 0 {
        assert(a + b =~= a);
    } else {
        lemma_count_dots_concat(a, b.drop_last());
        assert((a + b).drop_last() =~= a + b.drop_last());
    }
}

proof fn lemma_count_dots_none(s: Seq<char>)
    requires
        !s.contains('.'),
    ensures
        count_dots(s) == 0,
    decreases s.len(),
{
    if s.len() > 0 {
        if s.drop_last().contains('.') {
            let k = choose|k: int| 0 <= k < s.drop_last().len() && s.drop_last()[k] == '.';
            assert(s[k] == '.');
        }
        lemma_count_dots_none(s.drop_last());
    }
}

/// Whether no form present holds a `.`.
pub open spec fn forms_dot_free(forms: Seq<Option<String>>) -> bool {
    forall|i: int| 0 <= i < forms.len() ==> (#[trigger] forms[i] matches Some(s) ==> !s@.contains('.'))
}

/// Whether every form present is ASCII.
pub open spec fn forms_ascii(forms: Seq<Option<String>>) -> bool {
    forall|i: int| 0 <= i < forms.len() ==> (#[trigger] forms[i] matches Some(s) ==> all_ascii(s@))
}

/// Joins the labels' ASCII forms with `.`; fails with
/// `PunycodeConversionFailed` when a label has none.
pub fn join_labels(forms: &Vec<Option<String>>) -> (r: Result<String, Error>)
    ensures
        match join_forms(forms_view(forms@)) {
            Some(h) => r matches Ok(s) && s@ == h,
            None => r == Err::<String, Error>(Error::PunycodeConversionFailed),
        },
        forms_ascii(forms@) ==> (r matches Ok(s) ==> all_ascii(s@)),
        forms_dot_free(forms@) && forms@.len() > 0 ==> (r matches Ok(s) ==> split_dots(s@).len()
            == forms@.len()),
{
    let ghost fv = forms_view(forms@);
    let mut result = String::new();
    let mut i: usize = 0;
    assert(fv.take(0) =~= Seq::<Option<Seq<char>>>::empty());
    while i < forms.len()
        invariant
            fv == forms_view(forms@),
            i <= forms@.len(),
            join_forms(fv.take(i as int)) == Some(result@),
            forms_ascii(forms@) ==> all_ascii(result@),
            forms_dot_free(forms@) && i > 0 ==> count_dots(result@) + 1 == i,
        decreases forms@.len() - i,
    {
        assert(fv.take(i + 1).drop_last() =~= fv.take(i as int));
        assert(fv.take(i + 1).last() == fv[i as int]);
        match &forms[i] {
            Some(label) => {
                let ghost before = result@;
                if i > 0 {
                    push_char(&mut result, '.');
                }
                let ghost joined = result@;
                push_str(&mut result, label.as_str());
                proof {
                    if forms_dot_free(forms@) {
                        assert(forms@[i as int] matches Some(s) ==> !s@.contains('.'));
                        lemma_count_dots_none(label@);
                        lemma_count_dots_concat(joined, label@);
                        if i > 0 {
                            assert(joined.drop_last() =~= before);
                        }
                    }
                    if forms_ascii(forms@) {
                        assert(forms@[i as int] matches Some(s) ==> all_ascii(s@));
                        assert forall|j: int| 0 <= j < result@.len() implies (
                        #[trigger] result@[j] as u32) < 128 by {
                            if j < before.len() {
                                assert(result@[j] == before[j]);
                            } else if i > 0 && j == before.len() {
                            } else {
                                let off: int = if i > 0 {
                                    before.len() + 1int
                                } else {
                                    before.len() as int
                                };
                                assert(result@[j] == label@[j - off]);
                            }
                        }
                    }
                }
            },
            None => {
                proof {
                    lemma_join_forms_none(fv, i as int);
                }
                return Err(Error::PunycodeConversionFailed);
            },
        }
        i = i + 1;
        assert(Seq::<char>::empty() + fv[i - 1]->Some_0 =~= fv[i - 1]->Some_0);
    }
    assert(fv.take(fv.len() as int) =~= fv);
    proof {
        law_split_dots_len(result@);
    }
    Ok(result)
}

proof fn lemma_join_forms_none(fv: Seq<Option<Seq<char>>>, i: int)
    requires
        0 <= i < fv.len(),
        fv[i] is None,
    ensures
        join_forms(fv) is None,
    decreases fv.len(),
{
    if i < fv.len() - 1 {
        lemma_join_forms_none(fv.drop_last(), i);
    }
}

proof fn lemma_range_without_dot(v: Seq<char>, lo: int, hi: int)
    requires
        0 <= lo <= hi <= v.len(),
        forall|k: int| lo <= k < hi ==> #[trigger] v[k] != '.',
    ensures
        !v.subrange(lo, hi).contains('.'),
{
    if v.subrange(lo, hi).contains('.') {
        let k = choose|k: int| 0 <= k < hi - lo && v.subrange(lo, hi)[k] == '.';
        assert(v[lo + k] == '.');
    }
}

/// Makes a host ASCII for DNS: an ASCII host stays as it is; otherwise
/// each non-ASCII label between the dots becomes `xn--` and its punycode
/// form. Fails with `PunycodeConversionFailed` when a label cannot be
/// converted (or is outside `punycode_in_range`).
pub fn ensure_ascii_host(host: String) -> (r: Result<String, Error>)
    ensures
        match ascii_host(host@) {
            Some(h) => r matches Ok(s) && s@ == h,
            None => r == Err::<String, Error>(Error::PunycodeConversionFailed),
        },
        r matches Ok(s) ==> all_ascii(s@),
        r matches Ok(s) ==> split_dots(s@).len() == split_dots(host@).len(),
{
    if text_is_ascii(host.as_str()) {
        return Ok(host);
    }
    let v = chars_of(host.as_str());
    let mut forms: Vec<Option<String>> = Vec::new();
    let ghost mut done: Seq<Seq<char>> = Seq::empty();
    let mut start: usize = 0;
    let mut i: usize = 0;
    assert(v@.take(0) =~= Seq::<char>::empty());
    assert(done.push(v@.subrange(0, 0)) =~= split_dots(v@.take(0)));
    while i < v.len()
        invariant
            v@ == host@,
            start <= i <= v@.len(),
            split_dots(v@.take(i as int)) == done.push(v@.subrange(start as int, i as int)),
            forms_view(forms@) == done.map_values(|l: Seq<char>| ascii_form(l)),
            forms_ascii(forms@),
            forms_dot_free(forms@),
            forms@.len() == done.len(),
            forall|k: int| start <= k < i ==> #[trigger] v@[k] != '.',
        decreases v@.len() - i,
    {
        assert(v@.take(i + 1).drop_last() =~= v@.take(i as int));
        assert(v@.take(i + 1).last() == v@[i as int]);
        if v[i] == '.' {
            let label = string_of(&v, start, i);
            proof {
                lemma_range_without_dot(v@, start as int, i as int);
            }
            let form = label_ascii_form(label.as_str());
            let ghost fv_before = forms_view(forms@);
            let ghost forms_before = forms@;
            let ghost fview = opt_view(form);
            assert(fview == ascii_form(label@));
            forms.push(form);
            proof {
                assert forall|j: int| 0 <= j < forms@.len() implies (#[trigger] forms@[j] matches Some(
                    x,
                ) ==> !x@.contains('.')) by {
                    if j < forms_before.len() {
                        assert(forms@[j] == forms_before[j]);
                    }
                }
                assert(forms_view(forms@) =~= fv_before.push(fview));
                done = done.push(v@.subrange(start as int, i as int));
                assert(forms_view(forms@) =~= done.map_values(|l: Seq<char>| ascii_form(l)));
                assert(v@.subrange(i + 1, i + 1) =~= Seq::<char>::empty());
            }
            start = i + 1;
        } else {
            assert(v@.subrange(start as int, i + 1) =~= v@.subrange(start as int, i as int).push(
                v@[i as int],
            ));
        }
        i = i + 1;
    }
    let label = string_of(&v, start, v.len());
    proof {
        lemma_range_without_dot(v@, start as int, v@.len() as int);
    }
    let form = label_ascii_form(label.as_str());
    let ghost fv_before = forms_view(forms@);
    let ghost forms_before = forms@;
    let ghost fview = opt_view(form);
    assert(fview == ascii_form(label@));
    forms.push(form);
    proof {
        assert forall|j: int| 0 <= j < forms@.len() implies (#[trigger] forms@[j] matches Some(x)
            ==> !x@.contains('.')) by {
            if j < forms_before.len() {
                assert(forms@[j] == forms_before[j]);
            }
        }
        assert(forms_view(forms@) =~= fv_before.push(fview));
        let all = done.push(v@.subrange(start as int, v@.len() as int));
        assert(v@.take(v@.len() as int) =~= v@);
        assert(forms_view(forms@) =~= all.map_values(|l: Seq<char>| ascii_form(l)));
        assert(split_dots(v@) == all);
        assert(forms@.len() == forms_before.len() + 1);
        assert(forms@.len() == split_dots(host@).len());
    }
    join_labels(&forms)
}

/// A point in time, as the clock gives it.
#[verifier::external_type_specification]
#[verifier::external_body]
pub struct ExInstant(std::time::Instant);

/// The current time.
///
/// Calls `Instant::now`; the result depends on the clock, so nothing is
/// stated of it.
#[verifier::external_body]
fn now() -> Instant {
    Instant::now()
}

/// The time from `earlier` to `deadline`, or `None` when `deadline` comes
/// first.
///
/// Calls `Instant::checked_duration_since`; `Instant` is opaque here, so
/// nothing is stated of the result.
#[verifier::external_body]
fn duration_since(deadline: &Instant, earlier: Instant) -> Option<Duration> {
    deadline.checked_duration_since(earlier)
}

/// Whether `t` is a reading that the clock (`now`) can give.
pub closed spec fn clock_reading(t: Instant) -> bool {
    call_ensures(now, (), t)
}

/// Whether `left` is what `duration_since` can give for `deadline` and
/// `earlier`: the time from `earlier` to `deadline`, if any.
pub closed spec fn time_between(deadline: Instant, earlier: Instant, left: Option<Duration>) -> bool {
    call_ensures(duration_since, (&deadline, earlier), left)
}

/// The time left as a timeout, or `RequestTimedOut` when none is left.
pub fn remaining_or_timeout(left: Option<Duration>) -> (r: Result<Option<Duration>, Error>)
    ensures
        match left {
            Some(d) => r == Ok::<Option<Duration>, Error>(Some(d)),
            None => r == Err::<Option<Duration>, Error>(Error::RequestTimedOut),
        },
{
    match left {
        Some(d) => Ok(Some(d)),
        None => Err(Error::RequestTimedOut),
    }
}

/// The time left until a deadline: none without a deadline,
/// `RequestTimedOut` once it has passed. The deadline is measured against
/// the clock's current reading.
pub fn timeout_at_to_duration(timeout_at: Option<Instant>) -> (r: Result<Option<Duration>, Error>)
    ensures
        timeout_at is None ==> r == Ok::<Option<Duration>, Error>(None),
        timeout_at matches Some(d) ==> exists|t: Instant, left: Option<Duration>|
            {
                &&& clock_reading(t)
                &&& #[trigger] time_between(d, t, left)
                &&& r == match left {
                    Some(x) => Ok::<Option<Duration>, Error>(Some(x)),
                    None => Err::<Option<Duration>, Error>(Error::RequestTimedOut),
                }
            },
{
    match timeout_at {
        Some(deadline) => {
            let t = now();
            let left = duration_since(&deadline, t);
            assert(clock_reading(t) && time_between(deadline, t, left));
            remaining_or_timeout(left)
        },
        None => Ok(None),
    }
}

} // verus!
