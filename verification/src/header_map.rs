//! The request's headers: a list of name/value pairs kept sorted by name,
//! each name at most once, so that setting a header replaces its value
//! and the headers are written in name order.
use vstd::prelude::*;

use crate::text::chars_of;

verus! {

/// The name/value pairs as char sequences.
pub type HeaderPairs = Seq<(Seq<char>, Seq<char>)>;

/// The view of a list of string pairs.
pub open spec fn pairs_view(v: Seq<(String, String)>) -> HeaderPairs {
    Seq::new(v.len(), |i: int| (v[i].0@, v[i].1@))
}

/// Lexicographic order of names, comparing chars by code point.
pub open spec fn key_lt(a: Seq<char>, b: Seq<char>) -> bool
    decreases a.len(),
{
    if a.len() == 0 {
        b.len() > 0
    } else if b.len() == 0 {
        false
    } else if a[0] < b[0] {
        true
    } else if a[0] == b[0] {
        key_lt(a.drop_first(), b.drop_first())
    } else {
        false
    }
}

/// Names strictly increase along the list (so each occurs at most once).
pub open spec fn sorted_by_name(hs: HeaderPairs) -> bool {
    forall|i: int, j: int| 0 <= i < j < hs.len() ==> key_lt(#[trigger] hs[i].0, #[trigger] hs[j].0)
}

/// The list after setting `name` to `value`: the pair replaces the one
/// with the same name, or goes in before the first greater name.
pub open spec fn insert_header(hs: HeaderPairs, name: Seq<char>, value: Seq<char>) -> HeaderPairs
    decreases hs.len(),
{
    if hs.len() == 0 {
        seq![(name, value)]
    } else if hs[0].0 == name {
        seq![(name, value)] + hs.drop_first()
    } else if key_lt(name, hs[0].0) {
        seq![(name, value)] + hs
    } else {
        seq![hs[0]] + insert_header(hs.drop_first(), name, value)
    }
}

/// The list after setting each pair of `new`, in order.
pub open spec fn insert_headers(hs: HeaderPairs, new: HeaderPairs) -> HeaderPairs
    decreases new.len(),
{
    if new.len() == 0 {
        hs
    } else {
        insert_header(insert_headers(hs, new.drop_last()), new.last().0, new.last().1)
    }
}

/// The value of the first pair named `name`.
pub open spec fn lookup(hs: HeaderPairs, name: Seq<char>) -> Option<Seq<char>>
    decreases hs.len(),
{
    if hs.len() == 0 {
        None
    } else if hs[0].0 == name {
        Some(hs[0].1)
    } else {
        lookup(hs.drop_first(), name)
    }
}

/// Two different names are ordered one way or the other.
pub proof fn lemma_key_lt_total(a: Seq<char>, b: Seq<char>)
    ensures
        a == b || key_lt(a, b) || key_lt(b, a),
    decreases a.len(),
{
    if a.len() > 0 && b.len() > 0 {
        lemma_key_lt_total(a.drop_first(), b.drop_first());
        if a[0] == b[0] && a.drop_first() == b.drop_first() {
            assert(a =~= seq![a[0]] + a.drop_first());
            assert(b =~= seq![b[0]] + b.drop_first());
        }
    } else if a.len() == 0 && b.len() == 0 {
        assert(a =~= b);
    }
}

/// The order on names is transitive.
pub proof fn lemma_key_lt_transitive(a: Seq<char>, b: Seq<char>, c: Seq<char>)
    requires
        key_lt(a, b),
        key_lt(b, c),
    ensures
        key_lt(a, c),
    decreases a.len(),
{
    if a.len() > 0 && b.len() > 0 && c.len() > 0 {
        if a[0] == b[0] && b[0] == c[0] {
            lemma_key_lt_transitive(a.drop_first(), b.drop_first(), c.drop_first());
        }
    }
}

/// Setting a header keeps the names sorted.
pub proof fn lemma_insert_keeps_sorted(hs: HeaderPairs, name: Seq<char>, value: Seq<char>)
    requires
        sorted_by_name(hs),
    ensures
        sorted_by_name(insert_header(hs, name, value)),
        forall|i: int|
            0 <= i < insert_header(hs, name, value).len() ==> (#[trigger] insert_header(
                hs,
                name,
                value,
            )[i].0 == name || exists|j: int| 0 <= j < hs.len() && hs[j].0 == insert_header(
                hs,
                name,
                value,
            )[i].0),
    decreases hs.len(),
{
    let r = insert_header(hs, name, value);
    if hs.len() == 0 {
    } else if hs[0].0 == name {
        assert forall|i: int, j: int| 0 <= i < j < r.len() implies key_lt(
            #[trigger] r[i].0,
            #[trigger] r[j].0,
        ) by {
            assert(r[i].0 == hs[i].0);
            assert(r[j].0 == hs[j].0);
        }
        assert forall|i: int| 0 <= i < r.len() implies (#[trigger] r[i].0 == name || exists|
            j: int,
        | 0 <= j < hs.len() && hs[j].0 == r[i].0) by {
            if i > 0 {
                assert(hs[i].0 == r[i].0);
            }
        }
    } else if key_lt(name, hs[0].0) {
        assert forall|i: int, j: int| 0 <= i < j < r.len() implies key_lt(
            #[trigger] r[i].0,
            #[trigger] r[j].0,
        ) by {
            if i == 0 {
                if j > 1 {
                    lemma_key_lt_transitive(name, hs[0].0, hs[j - 1].0);
                }
            } else {
                assert(r[i].0 == hs[i - 1].0);
                assert(r[j].0 == hs[j - 1].0);
            }
        }
        assert forall|i: int| 0 <= i < r.len() implies (#[trigger] r[i].0 == name || exists|
            j: int,
        | 0 <= j < hs.len() && hs[j].0 == r[i].0) by {
            if i > 0 {
                assert(hs[i - 1].0 == r[i].0);
            }
        }
    } else {
        let tail = hs.drop_first();
        assert forall|i: int, j: int| 0 <= i < j < tail.len() implies key_lt(
            #[trigger] tail[i].0,
            #[trigger] tail[j].0,
        ) by {
            assert(tail[i] == hs[i + 1]);
            assert(tail[j] == hs[j + 1]);
        }
        lemma_insert_keeps_sorted(tail, name, value);
        let rt = insert_header(tail, name, value);
        lemma_key_lt_total(name, hs[0].0);
        assert forall|i: int, j: int| 0 <= i < j < r.len() implies key_lt(
            #[trigger] r[i].0,
            #[trigger] r[j].0,
        ) by {
            if i == 0 {
                assert(r[j].0 == rt[j - 1].0);
                if rt[j - 1].0 == name {
                } else {
                    let k = choose|k: int| 0 <= k < tail.len() && tail[k].0 == rt[j - 1].0;
                    assert(hs[k + 1].0 == tail[k].0);
                }
            } else {
                assert(r[i].0 == rt[i - 1].0);
                assert(r[j].0 == rt[j - 1].0);
            }
        }
        assert forall|i: int| 0 <= i < r.len() implies (#[trigger] r[i].0 == name || exists|
            j: int,
        | 0 <= j < hs.len() && hs[j].0 == r[i].0) by {
            if i == 0 {
                assert(hs[0].0 == r[0].0);
            } else {
                assert(r[i].0 == rt[i - 1].0);
                if rt[i - 1].0 != name {
                    let k = choose|k: int| 0 <= k < tail.len() && tail[k].0 == rt[i - 1].0;
                    assert(hs[k + 1].0 == r[i].0);
                }
            }
        }
    }
}

/// After setting `name` to `value`, looking up `name` gives `value`, and
/// every other name gives what it gave before.
pub proof fn law_set_then_lookup(hs: HeaderPairs, name: Seq<char>, value: Seq<char>, other: Seq<char>)
    ensures
        lookup(insert_header(hs, name, value), name) == Some(value),
        other != name ==> lookup(insert_header(hs, name, value), other) == lookup(hs, other),
    decreases hs.len(),
{
    let r = insert_header(hs, name, value);
    if hs.len() == 0 {
        assert(r.drop_first() =~= Seq::<(Seq<char>, Seq<char>)>::empty());
        assert(lookup(r.drop_first(), other) == None::<Seq<char>>);
    } else if hs[0].0 == name {
        assert(r.drop_first() =~= hs.drop_first());
        if other != name {
            assert(lookup(r, other) == lookup(hs.drop_first(), other));
            assert(lookup(hs, other) == lookup(hs.drop_first(), other));
        }
    } else if key_lt(name, hs[0].0) {
        assert(r.drop_first() =~= hs);
    } else {
        law_set_then_lookup(hs.drop_first(), name, value, other);
        assert(r.drop_first() =~= insert_header(hs.drop_first(), name, value));
    }
}

/// The value of the last pair named `name`.
pub open spec fn last_value(hs: HeaderPairs, name: Seq<char>) -> Option<Seq<char>>
    decreases hs.len(),
{
    if hs.len() == 0 {
        None
    } else if hs.last().0 == name {
        Some(hs.last().1)
    } else {
        last_value(hs.drop_last(), name)
    }
}

/// Setting a list of headers in order: a name given more than once ends
/// with its last value, and a name not given keeps its value.
pub proof fn law_insert_headers_last_wins(hs: HeaderPairs, new: HeaderPairs, name: Seq<char>)
    ensures
        lookup(insert_headers(hs, new), name) == match last_value(new, name) {
            Some(v) => Some(v),
            None => lookup(hs, name),
        },
    decreases new.len(),
{
    if new.len() > 0 {
        law_insert_headers_last_wins(hs, new.drop_last(), name);
        law_set_then_lookup(insert_headers(hs, new.drop_last()), new.last().0, new.last().1, name);
    }
}

/// Setting each pair of a list keeps the names sorted.
pub proof fn law_insert_headers_sorted(hs: HeaderPairs, new: HeaderPairs)
    requires
        sorted_by_name(hs),
    ensures
        sorted_by_name(insert_headers(hs, new)),
    decreases new.len(),
{
    if new.len() > 0 {
        law_insert_headers_sorted(hs, new.drop_last());
        lemma_insert_keeps_sorted(insert_headers(hs, new.drop_last()), new.last().0, new.last().1);
    }
}

/// Whether `a` comes before `b` in name order.
pub fn name_less(a: &str, b: &str) -> (r: bool)
    ensures
        r == key_lt(a@, b@),
{
    let va = chars_of(a);
    let vb = chars_of(b);
    let mut i: usize = 0;
    assert(va@.skip(0) =~= va@);
    assert(vb@.skip(0) =~= vb@);
    while i < va.len() && i < vb.len()
        invariant
            va@ == a@,
            vb@ == b@,
            i <= va@.len(),
            i <= vb@.len(),
            key_lt(a@, b@) == key_lt(va@.skip(i as int), vb@.skip(i as int)),
        decreases va@.len() - i,
    {
        let x = va[i];
        let y = vb[i];
        assert(va@.skip(i as int)[0] == x);
        assert(vb@.skip(i as int)[0] == y);
        if x < y {
            return true;
        }
        if x != y {
            return false;
        }
        assert(va@.skip(i as int).drop_first() =~= va@.skip(i + 1));
        assert(vb@.skip(i as int).drop_first() =~= vb@.skip(i + 1));
        i = i + 1;
    }
    i == va.len() && i < vb.len()
}

/// Sets the header `name` to `value` in a list sorted by name.
pub fn set_header(headers: &mut Vec<(String, String)>, name: String, value: String)
    ensures
        pairs_view(final(headers)@) == insert_header(pairs_view(old(headers)@), name@, value@),
{
    let ghost hs = pairs_view(headers@);
    let mut i: usize = 0;
    assert(hs.skip(0) =~= hs);
    assert(hs.take(0) + hs =~= hs);
    while i < headers.len()
        invariant
            hs == pairs_view(old(headers)@),
            headers@ == old(headers)@,
            i <= headers@.len(),
            insert_header(hs, name@, value@) == hs.take(i as int) + insert_header(
                hs.skip(i as int),
                name@,
                value@,
            ),
        decreases headers@.len() - i,
    {
        let ghost t = hs.skip(i as int);
        assert(t[0] == hs[i as int]);
        assert(t.drop_first() =~= hs.skip(i + 1));
        if name == headers[i].0 {
            headers.set(i, (name, value));
            assert(pairs_view(headers@) =~= hs.take(i as int) + (seq![(name@, value@)] + hs.skip(
                i + 1,
            )));
            return;
        }
        if name_less(name.as_str(), headers[i].0.as_str()) {
            headers.insert(i, (name, value));
            assert(pairs_view(headers@) =~= hs.take(i as int) + (seq![(name@, value@)] + t));
            return;
        }
        proof {
            assert(hs.take(i as int) + seq![hs[i as int]] =~= hs.take(i + 1));
            assert(hs.take(i as int) + (seq![hs[i as int]] + insert_header(hs.skip(i + 1), name@, value@))
                =~= hs.take(i + 1) + insert_header(hs.skip(i + 1), name@, value@));
        }
        i = i + 1;
    }
    assert(hs.skip(i as int) =~= Seq::<(Seq<char>, Seq<char>)>::empty());
    headers.push((name, value));
    assert(pairs_view(headers@) =~= hs.take(i as int) + seq![(name@, value@)]);
}

} // verus!
