//! Stable ordering of items by a two-part textual key, compared as `String`s
//! are: first by the major part, then by the minor part.
use vstd::prelude::*;
use crate::text::{
    chars_eq, chars_lt, lemma_chars_lt_irreflexive, lemma_chars_lt_total,
    lemma_chars_lt_transitive, less_than,
};

verus! {

/// A sort key: a major part, then a minor part that breaks ties.
pub struct SortKey {
    pub major: Vec<char>,
    pub minor: Vec<char>,
}

/// The characters of a key's two parts.
pub open spec fn key_of(k: SortKey) -> Key {
    (k.major@, k.minor@)
}

/// A key, as characters: a major part, then a minor part.
pub type Key = (Seq<char>, Seq<char>);

/// Items with their keys as characters.
pub open spec fn keyed<T>(v: Seq<(SortKey, T)>) -> Seq<(Key, T)> {
    v.map_values(|p: (SortKey, T)| (key_of(p.0), p.1))
}

/// Strict lexicographic order on keys.
pub open spec fn key_lt(a: (Seq<char>, Seq<char>), b: (Seq<char>, Seq<char>)) -> bool {
    chars_lt(a.0, b.0) || (a.0 == b.0 && chars_lt(a.1, b.1))
}

/// Inserts `x` after every element whose key is not greater than its own.
pub open spec fn insert_sorted<T>(s: Seq<(Key, T)>, x: (Key, T)) -> Seq<(Key, T)>
    decreases s.len(),
{
    if s.len() == 0 || !key_lt(x.0, s.last().0) {
        s.push(x)
    } else {
        insert_sorted(s.drop_last(), x).push(s.last())
    }
}

/// `s` ordered by key; elements with equal keys keep their relative order.
pub open spec fn stable_sorted<T>(s: Seq<(Key, T)>) -> Seq<(Key, T)>
    decreases s.len(),
{
    if s.len() == 0 {
        s
    } else {
        insert_sorted(stable_sorted(s.drop_last()), s.last())
    }
}

/// No element's key is smaller than an earlier element's key.
pub open spec fn is_sorted_by_key<T>(s: Seq<(Key, T)>) -> bool {
    forall|i: int, j: int| 0 <= i < j < s.len() ==> !key_lt(s[j].0, s[i].0)
}

/// Every element's key is greater than the keys of the elements before it.
pub open spec fn is_strictly_sorted_by_key<T>(s: Seq<(Key, T)>) -> bool {
    forall|i: int, j: int| 0 <= i < j < s.len() ==> key_lt(s[i].0, s[j].0)
}

/// No two elements share a key.
pub open spec fn keys_distinct<T>(s: Seq<(Key, T)>) -> bool {
    forall|i: int, j: int|
        0 <= i < s.len() && 0 <= j < s.len() && i != j ==> s[i].0 != s[j].0
}

pub proof fn lemma_key_lt_irreflexive(a: (Seq<char>, Seq<char>))
    ensures
        !key_lt(a, a),
{
    lemma_chars_lt_irreflexive(a.0);
    lemma_chars_lt_irreflexive(a.1);
}

pub proof fn lemma_key_lt_total(a: (Seq<char>, Seq<char>), b: (Seq<char>, Seq<char>))
    ensures
        a != b ==> key_lt(a, b) || key_lt(b, a),
        !(key_lt(a, b) && key_lt(b, a)),
{
    lemma_chars_lt_total(a.0, b.0);
    lemma_chars_lt_total(a.1, b.1);
    lemma_chars_lt_irreflexive(a.0);
}

pub proof fn lemma_key_lt_transitive(
    a: (Seq<char>, Seq<char>),
    b: (Seq<char>, Seq<char>),
    c: (Seq<char>, Seq<char>),
)
    requires
        key_lt(a, b),
        key_lt(b, c),
    ensures
        key_lt(a, c),
{
    if chars_lt(a.0, b.0) && chars_lt(b.0, c.0) {
        lemma_chars_lt_transitive(a.0, b.0, c.0);
    } else if chars_lt(a.1, b.1) && chars_lt(b.1, c.1) && a.0 == b.0 && b.0 == c.0 {
        lemma_chars_lt_transitive(a.1, b.1, c.1);
    }
}

/// `not greater` is transitive too.
proof fn lemma_key_le_transitive(
    a: (Seq<char>, Seq<char>),
    b: (Seq<char>, Seq<char>),
    c: (Seq<char>, Seq<char>),
)
    requires
        !key_lt(b, a),
        !key_lt(c, b),
    ensures
        !key_lt(c, a),
{
    lemma_key_lt_total(a, b);
    lemma_key_lt_total(b, c);
    lemma_key_lt_total(a, c);
    if key_lt(c, a) {
        if a == b {
        } else if b == c {
        } else {
            lemma_key_lt_transitive(a, b, c);
        }
    }
}

/// Where the insertion point is known, `insert_sorted` puts `x` there.
proof fn lemma_insert_sorted_at<T>(s: Seq<(Key, T)>, x: (Key, T), p: int)
    requires
        0 <= p <= s.len(),
        forall|k: int| p <= k < s.len() ==> key_lt(x.0, #[trigger] s[k].0),
        p > 0 ==> !key_lt(x.0, s[p - 1].0),
    ensures
        insert_sorted(s, x) == s.insert(p, x),
    decreases s.len(),
{
    if s.len() == 0 {
        assert(s.insert(p, x) =~= s.push(x));
    } else if p == s.len() {
        assert(s.insert(p, x) =~= s.push(x));
    } else {
        let t = s.drop_last();
        assert forall|k: int| p <= k < t.len() implies key_lt(
            x.0,
            #[trigger] t[k].0,
        ) by {
            assert(t[k] == s[k]);
        }
        lemma_insert_sorted_at(t, x, p);
        assert(s.insert(p, x) =~= t.insert(p, x).push(s.last()));
    }
}

/// Inserting keeps a sequence sorted and adds exactly the new element.
proof fn lemma_insert_sorted_props<T>(s: Seq<(Key, T)>, x: (Key, T))
    requires
        is_sorted_by_key(s),
    ensures
        is_sorted_by_key(insert_sorted(s, x)),
        insert_sorted(s, x).len() == s.len() + 1,
        insert_sorted(s, x).to_multiset() == s.to_multiset().insert(x),
    decreases s.len(),
{
    broadcast use vstd::multiset::group_multiset_axioms;
    broadcast use vstd::seq_lib::group_to_multiset_ensures;

    let r = insert_sorted(s, x);
    if s.len() == 0 || !key_lt(x.0, s.last().0) {
        assert forall|i: int, j: int| 0 <= i < j < r.len() implies !key_lt(
            r[j].0,
            r[i].0,
        ) by {
            if j == s.len() && i < s.len() - 1 {
                lemma_key_le_transitive(s[i].0, s.last().0, x.0);
            }
        }
    } else {
        let t = s.drop_last();
        assert forall|i: int, j: int| 0 <= i < j < t.len() implies !key_lt(
            t[j].0,
            t[i].0,
        ) by {
            assert(t[i] == s[i] && t[j] == s[j]);
        }
        lemma_insert_sorted_props(t, x);
        let u = insert_sorted(t, x);
        assert(r == u.push(s.last()));
        assert(u.to_multiset() == t.to_multiset().insert(x));
        assert(s =~= t.push(s.last()));
        assert forall|i: int, j: int| 0 <= i < j < r.len() implies !key_lt(
            r[j].0,
            r[i].0,
        ) by {
            if j == r.len() - 1 {
                // every element of u is either x or an element of t
                assert(u.to_multiset().count(u[i]) > 0);
                if u[i] == x {
                    lemma_key_lt_total(x.0, s.last().0);
                } else {
                    assert(t.to_multiset().count(u[i]) > 0);
                    assert(t.contains(u[i]));
                    let k = choose|k: int| 0 <= k < t.len() && t[k] == u[i];
                    assert(s[k] == t[k]);
                    assert(!key_lt(s[s.len() - 1].0, s[k].0));
                }
            } else {
                assert(r[i] == u[i] && r[j] == u[j]);
            }
        }
    }
}

/// What a stable sort gives is sorted and holds the same elements.
pub proof fn lemma_stable_sorted_props<T>(s: Seq<(Key, T)>)
    ensures
        is_sorted_by_key(stable_sorted(s)),
        stable_sorted(s).len() == s.len(),
        stable_sorted(s).to_multiset() == s.to_multiset(),
    decreases s.len(),
{
    broadcast use vstd::multiset::group_multiset_axioms;
    broadcast use vstd::seq_lib::group_to_multiset_ensures;

    if s.len() > 0 {
        lemma_stable_sorted_props(s.drop_last());
        lemma_insert_sorted_props(stable_sorted(s.drop_last()), s.last());
        assert(s =~= s.drop_last().push(s.last()));
    }
}

/// Sequences with the same multiset hold the same elements.
pub proof fn lemma_same_elements<T>(r: Seq<T>, s: Seq<T>, i: int)
    requires
        r.to_multiset() == s.to_multiset(),
        0 <= i < r.len(),
    ensures
        s.contains(r[i]),
{
    broadcast use vstd::seq_lib::group_to_multiset_ensures;

    assert(r.contains(r[i]));
    assert(r.to_multiset().count(r[i]) > 0);
}

proof fn lemma_insert_sorted_distinct<T>(s: Seq<(Key, T)>, x: (Key, T))
    requires
        is_sorted_by_key(s),
        keys_distinct(s),
        forall|k: int| 0 <= k < s.len() ==> #[trigger] s[k].0 != x.0,
    ensures
        keys_distinct(insert_sorted(s, x)),
    decreases s.len(),
{
    broadcast use vstd::multiset::group_multiset_axioms;
    broadcast use vstd::seq_lib::group_to_multiset_ensures;

    if s.len() == 0 || !key_lt(x.0, s.last().0) {
    } else {
        let t = s.drop_last();
        assert forall|i: int, j: int| 0 <= i < j < t.len() implies !key_lt(
            t[j].0,
            t[i].0,
        ) by {
            assert(t[i] == s[i] && t[j] == s[j]);
        }
        assert forall|k: int| 0 <= k < t.len() implies #[trigger] t[k].0 != x.0 by {
            assert(t[k] == s[k]);
        }
        assert forall|i: int, j: int|
            0 <= i < t.len() && 0 <= j < t.len() && i != j implies t[i].0 != t[j].0 by {
            assert(t[i] == s[i] && t[j] == s[j]);
        }
        lemma_insert_sorted_distinct(t, x);
        lemma_insert_sorted_props(t, x);
        let u = insert_sorted(t, x);
        let r = insert_sorted(s, x);
        assert(r == u.push(s.last()));
        assert forall|i: int| 0 <= i < u.len() implies #[trigger] u[i].0 != s.last().0 by {
            assert(u.to_multiset().count(u[i]) > 0);
            if u[i] != x {
                assert(t.to_multiset().count(u[i]) > 0);
                assert(t.contains(u[i]));
                let k = choose|k: int| 0 <= k < t.len() && t[k] == u[i];
                assert(s[k] == t[k]);
                assert(k != s.len() - 1);
            }
        }
        assert forall|i: int, j: int|
            0 <= i < r.len() && 0 <= j < r.len() && i != j implies r[i].0 != r[j].0 by {
            if i < u.len() && j < u.len() {
                assert(r[i] == u[i] && r[j] == u[j]);
            } else if i < u.len() {
                assert(r[i] == u[i]);
            } else {
                assert(r[j] == u[j]);
            }
        }
    }
}

/// A stable sort keeps keys distinct.
pub proof fn lemma_stable_sorted_distinct<T>(s: Seq<(Key, T)>)
    requires
        keys_distinct(s),
    ensures
        keys_distinct(stable_sorted(s)),
    decreases s.len(),
{
    if s.len() > 0 {
        let t = s.drop_last();
        assert forall|i: int, j: int|
            0 <= i < t.len() && 0 <= j < t.len() && i != j implies t[i].0 != t[j].0 by {
            assert(t[i] == s[i] && t[j] == s[j]);
        }
        lemma_stable_sorted_distinct(t);
        lemma_stable_sorted_props(t);
        let u = stable_sorted(t);
        assert forall|k: int| 0 <= k < u.len() implies #[trigger] u[k].0 != s.last().0 by {
            lemma_same_elements(u, t, k);
            let m = choose|m: int| 0 <= m < t.len() && t[m] == u[k];
            assert(s[m] == t[m]);
        }
        lemma_insert_sorted_distinct(u, s.last());
    }
}

/// With distinct keys, a sorted sequence is strictly sorted.
pub proof fn lemma_sorted_distinct_strict<T>(s: Seq<(Key, T)>)
    requires
        is_sorted_by_key(s),
        keys_distinct(s),
    ensures
        is_strictly_sorted_by_key(s),
{
    assert forall|i: int, j: int| 0 <= i < j < s.len() implies key_lt(
        s[i].0,
        s[j].0,
    ) by {
        lemma_key_lt_total(s[i].0, s[j].0);
    }
}

/// The items with `f` applied to each, keys unchanged.
pub open spec fn map_items<T, U>(s: Seq<(Key, T)>, f: spec_fn(T) -> U) -> Seq<(Key, U)> {
    s.map_values(|p: (Key, T)| (p.0, f(p.1)))
}

proof fn lemma_insert_sorted_map<T, U>(s: Seq<(Key, T)>, x: (Key, T), f: spec_fn(T) -> U)
    ensures
        insert_sorted(map_items(s, f), (x.0, f(x.1))) == map_items(insert_sorted(s, x), f),
    decreases s.len(),
{
    let ms = map_items(s, f);
    if s.len() == 0 || !key_lt(x.0, s.last().0) {
        assert(map_items(s.push(x), f) =~= ms.push((x.0, f(x.1))));
    } else {
        let t = s.drop_last();
        assert(ms.drop_last() =~= map_items(t, f));
        lemma_insert_sorted_map(t, x, f);
        let u = insert_sorted(t, x);
        assert(map_items(u.push(s.last()), f) =~= map_items(u, f).push((s.last().0, f(s.last().1))));
    }
}

/// Sorting commutes with changing the items but not their keys.
pub proof fn lemma_stable_sorted_map<T, U>(s: Seq<(Key, T)>, f: spec_fn(T) -> U)
    ensures
        stable_sorted(map_items(s, f)) == map_items(stable_sorted(s), f),
    decreases s.len(),
{
    if s.len() == 0 {
        assert(map_items(s, f) =~= Seq::<(Key, U)>::empty());
    } else {
        let t = s.drop_last();
        assert(map_items(s, f).drop_last() =~= map_items(t, f));
        lemma_stable_sorted_map(t, f);
        lemma_insert_sorted_map(stable_sorted(t), s.last(), f);
    }
}

/// The index of the first element satisfying `p`.
pub open spec fn first_match<T>(s: Seq<T>, p: spec_fn(T) -> bool) -> Option<int>
    decreases s.len(),
{
    if s.len() == 0 {
        None
    } else if p(s[0]) {
        Some(0)
    } else {
        match first_match(s.drop_first(), p) {
            Some(i) => Some(i + 1),
            None => None,
        }
    }
}

/// `first_match` finds the first element satisfying `p`, if any does.
pub proof fn lemma_first_match<T>(s: Seq<T>, p: spec_fn(T) -> bool)
    ensures
        first_match(s, p) matches Some(i) ==> 0 <= i < s.len() && p(s[i]) && forall|j: int|
            0 <= j < i ==> !p(#[trigger] s[j]),
        first_match(s, p) is None ==> forall|j: int| 0 <= j < s.len() ==> !p(#[trigger] s[j]),
    decreases s.len(),
{
    if s.len() > 0 {
        lemma_first_match(s.drop_first(), p);
        if !p(s[0]) {
            assert forall|j: int| 1 <= j < s.len() implies s[j] == s.drop_first()[j - 1] by {}
        }
    }
}

/// The first element satisfying `p` is where `first_match` points.
pub proof fn lemma_first_match_at<T>(s: Seq<T>, p: spec_fn(T) -> bool, i: int)
    requires
        0 <= i < s.len(),
        p(s[i]),
        forall|j: int| 0 <= j < i ==> !p(#[trigger] s[j]),
    ensures
        first_match(s, p) == Some(i),
{
    lemma_first_match(s, p);
    match first_match(s, p) {
        Some(k) => {
            if k < i {
                assert(!p(s[k]));
            } else if k > i {
                assert(!p(s[i]));
            }
        },
        None => {
            assert(!p(s[i]));
        },
    }
}

/// When no element satisfies `p`, `first_match` finds nothing.
pub proof fn lemma_first_match_none<T>(s: Seq<T>, p: spec_fn(T) -> bool)
    requires
        forall|j: int| 0 <= j < s.len() ==> !p(#[trigger] s[j]),
    ensures
        first_match(s, p) is None,
{
    lemma_first_match(s, p);
    if let Some(k) = first_match(s, p) {
        assert(!p(s[k]));
    }
}

/// Whether key `a` is smaller than key `b`.
pub fn key_less(a: &SortKey, b: &SortKey) -> (r: bool)
    ensures
        r == key_lt(key_of(*a), key_of(*b)),
{
    if less_than(&a.major, &b.major) {
        return true;
    }
    chars_eq(&a.major, &b.major) && less_than(&a.minor, &b.minor)
}

fn insert_by_key<T>(out: &mut Vec<(SortKey, T)>, x: (SortKey, T))
    ensures
        keyed(final(out)@) == insert_sorted(keyed(old(out)@), (key_of(x.0), x.1)),
{
    let mut p = out.len();
    while p > 0 && key_less(&x.0, &out[p - 1].0)
        invariant
            p <= out.len(),
            forall|k: int| p <= k < out.len() ==> key_lt(key_of(x.0), key_of(#[trigger] out@[k].0)),
        decreases p,
    {
        p = p - 1;
    }
    proof {
        lemma_insert_sorted_at(keyed(out@), (key_of(x.0), x.1), p as int);
        assert(keyed(out@.insert(p as int, x)) =~= keyed(out@).insert(p as int, (key_of(x.0), x.1)));
    }
    out.insert(p, x);
}

/// Orders items by key, keeping items with equal keys in their order.
pub fn stable_sort_by_key<T>(v: Vec<(SortKey, T)>) -> (r: Vec<(SortKey, T)>)
    ensures
        keyed(r@) == stable_sorted(keyed(v@)),
{
    let ghost orig = v@;
    let n = v.len();
    let mut input = v;
    let mut out: Vec<(SortKey, T)> = Vec::new();
    let mut i: usize = 0;
    assert(orig.skip(0) =~= orig);
    assert(keyed(orig.take(0)) =~= Seq::<(Key, T)>::empty());
    while input.len() > 0
        invariant
            i + input.len() == orig.len(),
            orig.len() == n,
            input@ == orig.skip(i as int),
            keyed(out@) == stable_sorted(keyed(orig.take(i as int))),
        decreases input.len(),
    {
        let x = input.remove(0);
        assert(keyed(orig.take(i + 1)).drop_last() =~= keyed(orig.take(i as int)));
        assert(x == orig[i as int]);
        assert(keyed(orig.take(i + 1)).last() == (key_of(x.0), x.1));
        insert_by_key(&mut out, x);
        i = i + 1;
        assert(input@ =~= orig.skip(i as int));
    }
    assert(orig.take(orig.len() as int) =~= orig);
    out
}

} // verus!
