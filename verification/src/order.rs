//! Stable sorting by a text key, and sorted sets of strings.

use crate::text;
use crate::text::{rank_text, text_eq, Rank};
use vstd::prelude::*;

verus! {

// ---------------------------------------------------------------------------
// What sorting means
// ---------------------------------------------------------------------------

/// `s` with `x` placed behind every trailing element that is not greater.
pub open spec fn insert_stable<T>(s: Seq<T>, x: T, key: spec_fn(T) -> Seq<char>) -> Seq<T>
    decreases s.len(),
{
    if s.len() > 0 && text::text_lt(key(x), key(s.last())) {
        insert_stable(s.drop_last(), x, key).push(s.last())
    } else {
        s.push(x)
    }
}

/// `s` in ascending order of `key`; elements with equal keys keep their order.
pub open spec fn stable_sort<T>(s: Seq<T>, key: spec_fn(T) -> Seq<char>) -> Seq<T>
    decreases s.len(),
{
    if s.len() == 0 {
        s
    } else {
        insert_stable(stable_sort(s.drop_last(), key), s.last(), key)
    }
}

/// `s` without the elements whose key equals that of their predecessor.
pub open spec fn dedup<T, K>(s: Seq<T>, key: spec_fn(T) -> K) -> Seq<T>
    decreases s.len(),
{
    if s.len() == 0 {
        s
    } else if s.len() > 1 && key(s[s.len() - 2]) == key(s.last()) {
        dedup(s.drop_last(), key)
    } else {
        dedup(s.drop_last(), key).push(s.last())
    }
}

/// The strings of `s` in ascending order.
pub open spec fn sorted_texts(s: Seq<Seq<char>>) -> Seq<Seq<char>> {
    stable_sort(s, |t: Seq<char>| t)
}

/// The distinct strings of `s` in ascending order.
pub open spec fn sorted_set(s: Seq<Seq<char>>) -> Seq<Seq<char>> {
    dedup(sorted_texts(s), |t: Seq<char>| t)
}

/// No key is smaller than one before it.
pub open spec fn ascending<T>(s: Seq<T>, key: spec_fn(T) -> Seq<char>) -> bool {
    forall|i: int, j: int| 0 <= i < j < s.len() ==> !text::text_lt(#[trigger] key(s[j]), #[trigger] key(s[i]))
}

/// Every key is greater than those before it.
pub open spec fn strictly_ascending<T>(s: Seq<T>, key: spec_fn(T) -> Seq<char>) -> bool {
    forall|i: int, j: int| 0 <= i < j < s.len() ==> text::text_lt(#[trigger] key(s[i]), #[trigger] key(s[j]))
}

/// Every string is greater than those before it.
pub open spec fn strictly_ascending_texts(s: Seq<Seq<char>>) -> bool {
    forall|i: int, j: int| 0 <= i < j < s.len() ==> text::text_lt(#[trigger] s[i], #[trigger] s[j])
}

// ---------------------------------------------------------------------------
// Laws of sorting
// ---------------------------------------------------------------------------

/// Inserting keeps the order and adds one element.
pub proof fn lemma_insert_stable<T>(s: Seq<T>, x: T, key: spec_fn(T) -> Seq<char>)
    requires
        ascending(s, key),
    ensures
        ascending(insert_stable(s, x, key), key),
        insert_stable(s, x, key).to_multiset() == s.to_multiset().insert(x),
        insert_stable(s, x, key).len() == s.len() + 1,
        forall|y: T| #[trigger] insert_stable(s, x, key).contains(y) <==> s.contains(y) || y == x,
    decreases s.len(),
{
    broadcast use vstd::seq_lib::group_to_multiset_ensures;
    let r = insert_stable(s, x, key);
    if s.len() > 0 && text::text_lt(key(x), key(s.last())) {
        let d = s.drop_last();
        lemma_insert_stable(d, x, key);
        let r0 = insert_stable(d, x, key);
        assert(s == d.push(s.last()));
        assert forall|i: int, j: int| 0 <= i < j < r.len() implies !text::text_lt(
            #[trigger] key(r[j]),
            #[trigger] key(r[i]),
        ) by {
            if j < r0.len() {
                assert(r[j] == r0[j] && r[i] == r0[i]);
            } else {
                assert(r[i] == r0[i]);
                assert(r0.contains(r0[i]));
                if r0[i] == x {
                    text::lemma_text_lt_total(key(x), key(s.last()));
                } else {
                    let k = choose|k: int| 0 <= k < d.len() && d[k] == r0[i];
                    assert(s[k] == r0[i]);
                }
            }
        }
        assert forall|y: T| #[trigger] r.contains(y) <==> s.contains(y) || y == x by {
            if r.contains(y) {
                let k = choose|k: int| 0 <= k < r.len() && r[k] == y;
                if k < r0.len() {
                    assert(r0[k] == y);
                    assert(r0.contains(y));
                    if y != x {
                        let m = choose|m: int| 0 <= m < d.len() && d[m] == y;
                        assert(s[m] == y);
                    }
                } else {
                    assert(s[s.len() - 1] == y);
                }
            }
            if s.contains(y) {
                let m = choose|m: int| 0 <= m < s.len() && s[m] == y;
                if m < d.len() {
                    assert(d[m] == y);
                    assert(d.contains(y));
                    assert(r0.contains(y));
                    let k = choose|k: int| 0 <= k < r0.len() && r0[k] == y;
                    assert(r[k] == y);
                } else {
                    assert(r[r.len() - 1] == y);
                }
            }
            if y == x {
                assert(r0.contains(x));
                let k = choose|k: int| 0 <= k < r0.len() && r0[k] == x;
                assert(r[k] == x);
            }
        }
    } else {
        assert forall|i: int, j: int| 0 <= i < j < r.len() implies !text::text_lt(
            #[trigger] key(r[j]),
            #[trigger] key(r[i]),
        ) by {
            if j == s.len() {
                assert(r[j] == x && r[i] == s[i]);
                if i < s.len() - 1 && text::text_lt(key(x), key(s[i])) {
                    text::lemma_text_lt_total(key(s.last()), key(s[i]));
                    if text::text_lt(key(s[i]), key(s.last())) {
                        text::lemma_text_lt_transitive(key(x), key(s[i]), key(s.last()));
                    }
                }
            } else {
                assert(r[j] == s[j] && r[i] == s[i]);
            }
        }
        assert forall|y: T| #[trigger] r.contains(y) <==> s.contains(y) || y == x by {
            if s.contains(y) {
                let m = choose|m: int| 0 <= m < s.len() && s[m] == y;
                assert(r[m] == y);
            }
            if y == x {
                assert(r[s.len() as int] == x);
            }
        }
    }
}

/// Sorting rearranges: the result ascends and holds the same elements, each as
/// often as before.
pub proof fn law_sort_is_an_ascending_rearrangement<T>(s: Seq<T>, key: spec_fn(T) -> Seq<char>)
    ensures
        ascending(stable_sort(s, key), key),
        stable_sort(s, key).to_multiset() == s.to_multiset(),
        stable_sort(s, key).len() == s.len(),
        forall|y: T| #[trigger] stable_sort(s, key).contains(y) <==> s.contains(y),
    decreases s.len(),
{
    broadcast use vstd::seq_lib::group_to_multiset_ensures;
    if s.len() > 0 {
        let d = s.drop_last();
        law_sort_is_an_ascending_rearrangement(d, key);
        lemma_insert_stable(stable_sort(d, key), s.last(), key);
        assert(s == d.push(s.last()));
        assert forall|y: T| #[trigger] stable_sort(s, key).contains(y) <==> s.contains(y) by {
            if s.contains(y) && y != s.last() {
                let m = choose|m: int| 0 <= m < s.len() && s[m] == y;
                assert(d[m] == y);
            }
            if d.contains(y) {
                let m = choose|m: int| 0 <= m < d.len() && d[m] == y;
                assert(s[m] == y);
            }
            assert(s[s.len() - 1] == s.last());
        }
    }
}

/// `s[j]` is the first element of `s` with its key.
pub open spec fn is_first<T>(s: Seq<T>, key: spec_fn(T) -> Seq<char>, j: int) -> bool {
    &&& 0 <= j < s.len()
    &&& forall|k: int| 0 <= k < j ==> key(#[trigger] s[k]) != key(s[j])
}

/// Some element of `s` has the key `t`.
pub open spec fn has_key<T>(s: Seq<T>, key: spec_fn(T) -> Seq<char>, t: Seq<char>) -> bool {
    exists|i: int| 0 <= i < s.len() && key(#[trigger] s[i]) == t
}

proof fn lemma_ascending_prefix<T>(s: Seq<T>, key: spec_fn(T) -> Seq<char>)
    requires
        ascending(s, key),
        s.len() > 0,
    ensures
        ascending(s.drop_last(), key),
{
    let d = s.drop_last();
    assert forall|i: int, j: int| 0 <= i < j < d.len() implies !text::text_lt(
        #[trigger] key(d[j]),
        #[trigger] key(d[i]),
    ) by {
        assert(!text::text_lt(key(s[j]), key(s[i])));
    }
}

proof fn lemma_new_key_is_greater<T>(s: Seq<T>, key: spec_fn(T) -> Seq<char>, k: int)
    requires
        ascending(s, key),
        0 <= k < s.len() - 1,
        key(s[s.len() - 2]) != key(s.last()),
    ensures
        text::text_lt(key(s[k]), key(s.last())),
{
    let m = s.len() - 1;
    let p = s.len() - 2;
    assert(!text::text_lt(key(s[m]), key(s[p])));
    text::lemma_text_lt_total(key(s[p]), key(s[m]));
    if k < p {
        assert(!text::text_lt(key(s[p]), key(s[k])));
        text::lemma_text_lt_total(key(s[p]), key(s[k]));
        if key(s[p]) != key(s[k]) {
            text::lemma_text_lt_transitive(key(s[k]), key(s[p]), key(s[m]));
        }
    }
}

/// Removing repetitions from an ascending sequence leaves strictly ascending
/// keys, the same keys as before, and of each key the first element.
pub proof fn law_dedup_of_ascending<T>(s: Seq<T>, key: spec_fn(T) -> Seq<char>)
    requires
        ascending(s, key),
    ensures
        strictly_ascending(dedup(s, key), key),
        dedup(s, key).len() <= s.len(),
        s.len() > 0 ==> dedup(s, key).len() > 0,
        forall|i: int|
            0 <= i < dedup(s, key).len() ==> exists|j: int| #[trigger]
                is_first(s, key, j) && s[j] == #[trigger] dedup(s, key)[i],
        forall|t: Seq<char>| #[trigger] has_key(s, key, t) <==> has_key(dedup(s, key), key, t),
    decreases s.len(),
{
    if s.len() > 0 {
        let d = s.drop_last();
        let r0 = dedup(d, key);
        let r = dedup(s, key);
        let last = s.last();
        lemma_ascending_prefix(s, key);
        law_dedup_of_ascending(d, key);
        assert forall|j: int| #[trigger] is_first(d, key, j) implies is_first(s, key, j) && s[j]
            == d[j] by {
            assert forall|k: int| 0 <= k < j implies key(#[trigger] s[k]) != key(s[j]) by {
                assert(d[k] == s[k]);
            }
        }
        let repeats = s.len() > 1 && key(s[s.len() - 2]) == key(last);
        if !repeats {
            assert(r == r0.push(last));
            assert forall|i: int, j: int| 0 <= i < j < r.len() implies text::text_lt(
                #[trigger] key(r[i]),
                #[trigger] key(r[j]),
            ) by {
                if j < r0.len() {
                    assert(text::text_lt(key(r0[i]), key(r0[j])));
                } else {
                    let m = choose|m: int| #[trigger] is_first(d, key, m) && d[m] == r0[i];
                    lemma_new_key_is_greater(s, key, m);
                }
            }
            assert(is_first(s, key, s.len() - 1)) by {
                assert forall|k: int| 0 <= k < s.len() - 1 implies key(#[trigger] s[k]) != key(
                    last,
                ) by {
                    lemma_new_key_is_greater(s, key, k);
                    text::lemma_text_lt_irreflexive(key(last));
                }
            }
        }
        assert forall|i: int| 0 <= i < r.len() implies exists|j: int| #[trigger]
            is_first(s, key, j) && s[j] == #[trigger] r[i] by {
            if i < r0.len() {
                let m = choose|m: int| #[trigger] is_first(d, key, m) && d[m] == r0[i];
                assert(is_first(s, key, m) && s[m] == r[i]);
            } else {
                assert(is_first(s, key, s.len() - 1));
            }
        }
        assert forall|t: Seq<char>| #[trigger] has_key(s, key, t) <==> has_key(r, key, t) by {
            if has_key(s, key, t) {
                let i = choose|i: int| 0 <= i < s.len() && key(#[trigger] s[i]) == t;
                if i < d.len() || repeats {
                    let p = if i < d.len() { i } else { i - 1 };
                    assert(key(d[p]) == t);
                    assert(has_key(d, key, t));
                    assert(has_key(r0, key, t));
                    let q = choose|q: int| 0 <= q < r0.len() && key(#[trigger] r0[q]) == t;
                    assert(r[q] == r0[q]);
                } else {
                    assert(r[r.len() - 1] == s[i]);
                }
            }
            if has_key(r, key, t) {
                let i = choose|i: int| 0 <= i < r.len() && key(#[trigger] r[i]) == t;
                let j = choose|j: int| #[trigger] is_first(s, key, j) && s[j] == r[i];
                assert(key(s[j]) == t);
            }
        }
    }
}

/// Two strictly ascending lists of the same strings are the same list.
pub proof fn lemma_strictly_ascending_unique(a: Seq<Seq<char>>, b: Seq<Seq<char>>)
    requires
        strictly_ascending_texts(a),
        strictly_ascending_texts(b),
        forall|t: Seq<char>| #[trigger] a.contains(t) <==> b.contains(t),
    ensures
        a == b,
    decreases a.len() + b.len(),
{
    if a.len() == 0 {
        if b.len() > 0 {
            assert(b.contains(b[0]));
            assert(a.contains(b[0]));
        }
        assert(a == b);
    } else if b.len() == 0 {
        assert(a.contains(a[0]));
    } else {
        let x = a.last();
        let y = b.last();
        assert(a[a.len() - 1] == x);
        assert(b[b.len() - 1] == y);
        assert(a.contains(x));
        assert(b.contains(y));
        assert(b.contains(x));
        assert(a.contains(y));
        let i = choose|i: int| 0 <= i < b.len() && b[i] == x;
        let j = choose|j: int| 0 <= j < a.len() && a[j] == y;
        text::lemma_text_lt_total(x, y);
        assert(x == y) by {
            if i < b.len() - 1 && j < a.len() - 1 {
                assert(text::text_lt(b[i], b[b.len() - 1]));
                assert(text::text_lt(a[j], a[a.len() - 1]));
            }
        }
        let a0 = a.drop_last();
        let b0 = b.drop_last();
        assert forall|t: Seq<char>| #[trigger] a0.contains(t) <==> b0.contains(t) by {
            if a0.contains(t) {
                let k = choose|k: int| 0 <= k < a0.len() && a0[k] == t;
                assert(a[k] == t);
                assert(a.contains(t));
                assert(text::text_lt(a[k], a[a.len() - 1]));
                let m = choose|m: int| 0 <= m < b.len() && b[m] == t;
                text::lemma_text_lt_irreflexive(x);
                assert(b0[m] == t);
            }
            if b0.contains(t) {
                let k = choose|k: int| 0 <= k < b0.len() && b0[k] == t;
                assert(b[k] == t);
                assert(b.contains(t));
                assert(text::text_lt(b[k], b[b.len() - 1]));
                assert(a.contains(t));
                let m = choose|m: int| 0 <= m < a.len() && a[m] == t;
                text::lemma_text_lt_irreflexive(x);
                assert(a0[m] == t);
            }
        }
        lemma_strictly_ascending_unique(a0, b0);
        assert(a == a0.push(x));
        assert(b == b0.push(y));
    }
}

/// `sorted_set` strictly ascends and holds exactly the strings of its input.
pub proof fn law_sorted_set(s: Seq<Seq<char>>)
    ensures
        strictly_ascending_texts(sorted_set(s)),
        forall|t: Seq<char>| #[trigger] sorted_set(s).contains(t) <==> s.contains(t),
        sorted_set(s).len() <= s.len(),
{
    let key = |t: Seq<char>| t;
    let sorted = sorted_texts(s);
    law_sort_is_an_ascending_rearrangement(s, key);
    law_dedup_of_ascending(sorted, key);
    let r = sorted_set(s);
    assert forall|i: int, j: int| 0 <= i < j < r.len() implies text::text_lt(
        #[trigger] r[i],
        #[trigger] r[j],
    ) by {
        assert(text::text_lt(key(r[i]), key(r[j])));
    }
    assert forall|t: Seq<char>| #[trigger] r.contains(t) <==> s.contains(t) by {
        if r.contains(t) {
            let i = choose|i: int| 0 <= i < r.len() && r[i] == t;
            let j = choose|j: int| #[trigger] is_first(sorted, key, j) && sorted[j] == r[i];
            assert(sorted.contains(t));
        }
        if s.contains(t) {
            assert(sorted.contains(t));
            let j = choose|j: int| 0 <= j < sorted.len() && sorted[j] == t;
            assert(key(sorted[j]) == t);
            assert(has_key(sorted, key, t));
            let i = choose|i: int| 0 <= i < r.len() && key(#[trigger] r[i]) == t;
            assert(r[i] == t);
        }
    }
}

/// Sorted lists depend on nothing but how often each string occurs.
pub proof fn law_sorted_texts_depend_on_counts_alone(a: Seq<Seq<char>>, b: Seq<Seq<char>>)
    requires
        a.to_multiset() == b.to_multiset(),
    ensures
        sorted_texts(a) == sorted_texts(b),
{
    let key = |t: Seq<char>| t;
    let leq = |x: Seq<char>, y: Seq<char>| !text::text_lt(y, x);
    law_sort_is_an_ascending_rearrangement(a, key);
    law_sort_is_an_ascending_rearrangement(b, key);
    assert(vstd::relations::total_ordering(leq)) by {
        assert forall|x: Seq<char>, y: Seq<char>| #[trigger] leq(x, y) && #[trigger] leq(
            y,
            x,
        ) implies x == y by {
            text::lemma_text_lt_total(x, y);
        }
        assert forall|x: Seq<char>, y: Seq<char>, z: Seq<char>| #[trigger] leq(x, y)
            && #[trigger] leq(y, z) implies leq(x, z) by {
            text::lemma_text_lt_total(x, y);
            text::lemma_text_lt_total(y, z);
            if text::text_lt(z, x) {
                if text::text_lt(x, y) {
                    text::lemma_text_lt_transitive(z, x, y);
                }
            }
        }
        assert forall|x: Seq<char>, y: Seq<char>| #[trigger] leq(x, y) || #[trigger] leq(y, x) by {
            if text::text_lt(x, y) && text::text_lt(y, x) {
                text::lemma_text_lt_transitive(x, y, x);
                text::lemma_text_lt_irreflexive(x);
            }
        }
        assert forall|x: Seq<char>| #[trigger] leq(x, x) by {
            text::lemma_text_lt_irreflexive(x);
        }
    }
    assert(vstd::relations::sorted_by(sorted_texts(a), leq)) by {
        assert forall|i: int, j: int| 0 <= i < j < sorted_texts(a).len() implies #[trigger] leq(
            sorted_texts(a)[i],
            sorted_texts(a)[j],
        ) by {
            assert(!text::text_lt(key(sorted_texts(a)[j]), key(sorted_texts(a)[i])));
        }
    }
    assert(vstd::relations::sorted_by(sorted_texts(b), leq)) by {
        assert forall|i: int, j: int| 0 <= i < j < sorted_texts(b).len() implies #[trigger] leq(
            sorted_texts(b)[i],
            sorted_texts(b)[j],
        ) by {
            assert(!text::text_lt(key(sorted_texts(b)[j]), key(sorted_texts(b)[i])));
        }
    }
    vstd::seq_lib::lemma_sorted_unique(sorted_texts(a), sorted_texts(b), leq);
}

proof fn lemma_first_after_insert<T>(s: Seq<T>, x: T, key: spec_fn(T) -> Seq<char>, j: int)
    requires
        is_first(insert_stable(s, x, key), key, j),
    ensures
        ({
            let e = insert_stable(s, x, key)[j];
            ||| exists|i: int| #[trigger] is_first(s, key, i) && s[i] == e
            ||| e == x && !has_key(s, key, key(x))
        }),
    decreases s.len(),
{
    let r = insert_stable(s, x, key);
    let e = r[j];
    if s.len() > 0 && text::text_lt(key(x), key(s.last())) {
        let d = s.drop_last();
        let r0 = insert_stable(d, x, key);
        lemma_insert_holds(d, x, key);
        if j < r0.len() {
            assert forall|k: int| 0 <= k < j implies key(#[trigger] r0[k]) != key(r0[j]) by {
                assert(r[k] == r0[k]);
            }
            assert(is_first(r0, key, j));
            lemma_first_after_insert(d, x, key, j);
            if exists|i: int| #[trigger] is_first(d, key, i) && d[i] == e {
                let i = choose|i: int| #[trigger] is_first(d, key, i) && d[i] == e;
                assert forall|k: int| 0 <= k < i implies key(#[trigger] s[k]) != key(s[i]) by {
                    assert(d[k] == s[k]);
                }
                assert(is_first(s, key, i) && s[i] == e);
            } else {
                assert forall|k: int| 0 <= k < s.len() implies key(#[trigger] s[k]) != key(x) by {
                    if k < d.len() {
                        assert(d[k] == s[k]);
                    } else {
                        text::lemma_text_lt_irreflexive(key(x));
                    }
                }
            }
        } else {
            let i = s.len() - 1;
            assert forall|k: int| 0 <= k < i implies key(#[trigger] s[k]) != key(s[i]) by {
                assert(d[k] == s[k]);
                assert(d.contains(d[k]));
                let m = choose|m: int| 0 <= m < r0.len() && r0[m] == d[k];
                assert(r[m] == s[k]);
            }
            assert(is_first(s, key, i) && s[i] == e);
        }
    } else if j < s.len() {
        assert forall|k: int| 0 <= k < j implies key(#[trigger] s[k]) != key(s[j]) by {
            assert(r[k] == s[k]);
        }
        assert(is_first(s, key, j) && s[j] == e);
    } else {
        assert forall|k: int| 0 <= k < s.len() implies key(#[trigger] s[k]) != key(x) by {
            assert(r[k] == s[k]);
        }
    }
}

proof fn lemma_insert_holds<T>(s: Seq<T>, x: T, key: spec_fn(T) -> Seq<char>)
    ensures
        insert_stable(s, x, key).len() == s.len() + 1,
        forall|y: T| #[trigger] s.contains(y) ==> insert_stable(s, x, key).contains(y),
    decreases s.len(),
{
    let r = insert_stable(s, x, key);
    let shifted = s.len() > 0 && text::text_lt(key(x), key(s.last()));
    let d = s.drop_last();
    if shifted {
        lemma_insert_holds(d, x, key);
    }
    assert forall|y: T| #[trigger] s.contains(y) implies r.contains(y) by {
        let m = choose|m: int| 0 <= m < s.len() && s[m] == y;
        if !shifted {
            assert(r[m] == y);
        } else if m < d.len() {
            assert(d[m] == y);
            assert(d.contains(y));
            let r0 = insert_stable(d, x, key);
            let k = choose|k: int| 0 <= k < r0.len() && r0[k] == y;
            assert(r[k] == y);
        } else {
            assert(r[r.len() - 1] == y);
        }
    }
}

/// Sorting is stable: the first element with its key in the result is the first
/// with that key in the input.
pub proof fn law_sort_keeps_the_first_of_each_key<T>(
    s: Seq<T>,
    key: spec_fn(T) -> Seq<char>,
    j: int,
)
    requires
        is_first(stable_sort(s, key), key, j),
    ensures
        exists|i: int| #[trigger] is_first(s, key, i) && s[i] == stable_sort(s, key)[j],
    decreases s.len(),
{
    let r = stable_sort(s, key);
    let e = r[j];
    if s.len() > 0 {
        let d = s.drop_last();
        let r0 = stable_sort(d, key);
        lemma_first_after_insert(r0, s.last(), key, j);
        if exists|i: int| #[trigger] is_first(r0, key, i) && r0[i] == e {
            let q = choose|q: int| #[trigger] is_first(r0, key, q) && r0[q] == e;
            law_sort_keeps_the_first_of_each_key(d, key, q);
            let i = choose|i: int| #[trigger] is_first(d, key, i) && d[i] == e;
            assert forall|k: int| 0 <= k < i implies key(#[trigger] s[k]) != key(s[i]) by {
                assert(d[k] == s[k]);
            }
            assert(is_first(s, key, i) && s[i] == e);
        } else {
            let i = s.len() - 1;
            law_sort_is_an_ascending_rearrangement(d, key);
            assert forall|k: int| 0 <= k < i implies key(#[trigger] s[k]) != key(s[i]) by {
                assert(d[k] == s[k]);
                assert(d.contains(d[k]));
                assert(r0.contains(d[k]));
                let m = choose|m: int| 0 <= m < r0.len() && r0[m] == d[k];
                assert(key(r0[m]) != key(s.last()));
            }
            assert(is_first(s, key, i) && s[i] == e);
        }
    }
}

proof fn lemma_first_unique<T>(s: Seq<T>, key: spec_fn(T) -> Seq<char>, i: int, j: int)
    requires
        is_first(s, key, i),
        is_first(s, key, j),
        key(s[i]) == key(s[j]),
    ensures
        i == j,
{
    if i < j {
        assert(key(s[i]) != key(s[j]));
    }
    if j < i {
        assert(key(s[j]) != key(s[i]));
    }
}

/// The keys of elements.
spec fn keys_of<T>(s: Seq<T>, key: spec_fn(T) -> Seq<char>) -> Seq<Seq<char>> {
    Seq::new(s.len(), |i: int| key(s[i]))
}

/// Whether `x` is in `s`, before any other element with its key.
pub open spec fn comes_first<T>(s: Seq<T>, key: spec_fn(T) -> Seq<char>, x: T) -> bool {
    exists|j: int| #[trigger] is_first(s, key, j) && s[j] == x
}

/// Every element of the sorted sequence without repetitions is the first of the
/// input with its key, and every key of the input is there.
pub proof fn lemma_sorted_set_of_firsts<T>(s: Seq<T>, key: spec_fn(T) -> Seq<char>)
    ensures
        strictly_ascending(dedup(stable_sort(s, key), key), key),
        forall|i: int|
            0 <= i < dedup(stable_sort(s, key), key).len() ==> comes_first(
                s,
                key,
                #[trigger] dedup(stable_sort(s, key), key)[i],
            ),
        forall|t: Seq<char>| #[trigger]
            has_key(s, key, t) <==> has_key(dedup(stable_sort(s, key), key), key, t),
{
    let sorted = stable_sort(s, key);
    let r = dedup(sorted, key);
    law_sort_is_an_ascending_rearrangement(s, key);
    law_dedup_of_ascending(sorted, key);
    assert forall|i: int| 0 <= i < r.len() implies comes_first(s, key, #[trigger] r[i]) by {
        let m = choose|m: int| #[trigger] is_first(sorted, key, m) && sorted[m] == r[i];
        law_sort_keeps_the_first_of_each_key(s, key, m);
    }
    assert forall|t: Seq<char>| #[trigger] has_key(s, key, t) <==> has_key(r, key, t) by {
        if has_key(s, key, t) {
            let k = choose|k: int| 0 <= k < s.len() && key(#[trigger] s[k]) == t;
            assert(s.contains(s[k]));
            assert(sorted.contains(s[k]));
            let m = choose|m: int| 0 <= m < sorted.len() && sorted[m] == s[k];
            assert(key(sorted[m]) == t);
            assert(has_key(sorted, key, t));
        }
        if has_key(r, key, t) {
            let i = choose|i: int| 0 <= i < r.len() && key(#[trigger] r[i]) == t;
            let j = choose|j: int| #[trigger] is_first(s, key, j) && s[j] == r[i];
            assert(key(s[j]) == t);
        }
    }
}

/// Whether the first element with its key in `a` is also the first with that key
/// in `b`.
pub open spec fn shares_firsts<T>(a: Seq<T>, b: Seq<T>, key: spec_fn(T) -> Seq<char>) -> bool {
    forall|i: int| #[trigger]
        is_first(a, key, i) ==> comes_first(b, key, a[i])
}

/// Only the first element of each key matters: where two sequences share them,
/// sorting and removing repetitions gives the same of both.
pub proof fn law_only_firsts_matter<T>(a: Seq<T>, b: Seq<T>, key: spec_fn(T) -> Seq<char>)
    requires
        shares_firsts(a, b, key),
        shares_firsts(b, a, key),
    ensures
        dedup(stable_sort(a, key), key) == dedup(stable_sort(b, key), key),
{
    let x = dedup(stable_sort(a, key), key);
    let y = dedup(stable_sort(b, key), key);
    lemma_sorted_set_of_firsts(a, key);
    lemma_sorted_set_of_firsts(b, key);
    let p = keys_of(x, key);
    let q = keys_of(y, key);
    assert forall|t: Seq<char>| #[trigger] p.contains(t) <==> q.contains(t) by {
        if p.contains(t) {
            lemma_keys_shared(a, b, key, t);
        }
        if q.contains(t) {
            lemma_keys_shared(b, a, key, t);
        }
    }
    assert(strictly_ascending_texts(p)) by {
        assert forall|i: int, j: int| 0 <= i < j < p.len() implies text::text_lt(
            #[trigger] p[i],
            #[trigger] p[j],
        ) by {
            assert(text::text_lt(key(x[i]), key(x[j])));
        }
    }
    assert(strictly_ascending_texts(q)) by {
        assert forall|i: int, j: int| 0 <= i < j < q.len() implies text::text_lt(
            #[trigger] q[i],
            #[trigger] q[j],
        ) by {
            assert(text::text_lt(key(y[i]), key(y[j])));
        }
    }
    lemma_strictly_ascending_unique(p, q);
    assert(x.len() == p.len() && y.len() == q.len());
    assert forall|i: int| 0 <= i < x.len() implies x[i] == y[i] by {
        assert(p[i] == key(x[i]) && q[i] == key(y[i]));
        let j = choose|j: int| #[trigger] is_first(a, key, j) && a[j] == x[i];
        let k = choose|k: int| #[trigger] is_first(b, key, k) && b[k] == y[i];
        let m = choose|m: int| #[trigger] is_first(b, key, m) && b[m] == a[j];
        lemma_first_unique(b, key, k, m);
    }
    assert(x =~= y);
}

proof fn lemma_keys_shared<T>(a: Seq<T>, b: Seq<T>, key: spec_fn(T) -> Seq<char>, t: Seq<char>)
    requires
        shares_firsts(a, b, key),
        keys_of(dedup(stable_sort(a, key), key), key).contains(t),
    ensures
        keys_of(dedup(stable_sort(b, key), key), key).contains(t),
{
    let x = dedup(stable_sort(a, key), key);
    let y = dedup(stable_sort(b, key), key);
    lemma_sorted_set_of_firsts(a, key);
    lemma_sorted_set_of_firsts(b, key);
    let p = keys_of(x, key);
    let q = keys_of(y, key);
    let i = choose|i: int| 0 <= i < p.len() && p[i] == t;
    let j = choose|j: int| #[trigger] is_first(a, key, j) && a[j] == x[i];
    let m = choose|m: int| #[trigger] is_first(b, key, m) && b[m] == a[j];
    assert(key(b[m]) == t);
    assert(has_key(b, key, t));
    let n = choose|n: int| 0 <= n < y.len() && key(#[trigger] y[n]) == t;
    assert(q[n] == t);
}

/// A single string is sorted.
pub proof fn lemma_single_is_sorted(t: Seq<char>)
    ensures
        sorted_texts(seq![t]) == seq![t],
{
    reveal_with_fuel(stable_sort, 2);
    let key = |t: Seq<char>| t;
    assert(seq![t].drop_last().len() == 0);
    assert(insert_stable(seq![t].drop_last(), t, key) =~= seq![t]);
}

/// A list that ascends is left as it is.
pub proof fn lemma_sorting_keeps_ascending(s: Seq<Seq<char>>)
    requires
        forall|i: int, j: int|
            0 <= i < j < s.len() ==> !text::text_lt(#[trigger] s[j], #[trigger] s[i]),
    ensures
        sorted_texts(s) == s,
    decreases s.len(),
{
    if s.len() > 0 {
        let d = s.drop_last();
        assert forall|i: int, j: int| 0 <= i < j < d.len() implies !text::text_lt(
            #[trigger] d[j],
            #[trigger] d[i],
        ) by {
            assert(!text::text_lt(s[j], s[i]));
        }
        lemma_sorting_keeps_ascending(d);
        if d.len() > 0 {
            assert(!text::text_lt(s[s.len() - 1], s[d.len() - 1]));
        }
        assert(d.push(s.last()) =~= s);
    }
}

/// An element that comes again later does not matter.
pub proof fn law_repetitions_do_not_matter<T>(
    s: Seq<T>,
    k: int,
    n: int,
    key: spec_fn(T) -> Seq<char>,
)
    requires
        0 <= k < n <= s.len(),
    ensures
        dedup(stable_sort(s.insert(n, s[k]), key), key) == dedup(stable_sort(s, key), key),
{
    let t = s.insert(n, s[k]);
    assert forall|i: int| #[trigger] is_first(s, key, i) implies comes_first(t, key, s[i]) by {
        let j = if i < n { i } else { i + 1 };
        assert forall|m: int| 0 <= m < j implies key(#[trigger] t[m]) != key(t[j]) by {
            if m < n {
                assert(t[m] == s[m]);
            } else if m > n {
                assert(t[m] == s[m - 1]);
            } else {
                assert(key(s[k]) != key(s[i]));
            }
        }
        assert(is_first(t, key, j) && t[j] == s[i]);
    }
    assert forall|j: int| #[trigger] is_first(t, key, j) implies comes_first(s, key, t[j]) by {
        if j == n {
            assert(key(t[k]) != key(t[j]));
        }
        let i = if j < n { j } else { j - 1 };
        assert forall|m: int| 0 <= m < i implies key(#[trigger] s[m]) != key(s[i]) by {
            if m < n {
                assert(key(t[m]) != key(t[j]));
            } else {
                assert(key(t[m + 1]) != key(t[j]));
            }
        }
        assert(is_first(s, key, i) && s[i] == t[j]);
    }
    law_only_firsts_matter(s, t, key);
}

/// Whether a list holds exactly the members of a set, in ascending order.
pub open spec fn lists_texts(list: Seq<Seq<char>>, set: Set<Seq<char>>) -> bool {
    &&& strictly_ascending_texts(list)
    &&& forall|t: Seq<char>| #[trigger] list.contains(t) <==> set.contains(t)
}

/// The members of a finite set of texts in ascending order.
pub open spec fn text_listing(set: Set<Seq<char>>) -> Seq<Seq<char>> {
    choose|list: Seq<Seq<char>>| lists_texts(list, set)
}

/// A list that holds exactly the members of a set in ascending order is its
/// listing.
pub proof fn lemma_text_listing(list: Seq<Seq<char>>, set: Set<Seq<char>>)
    requires
        lists_texts(list, set),
    ensures
        text_listing(set) == list,
{
    let chosen = text_listing(set);
    assert(lists_texts(chosen, set));
    assert forall|t: Seq<char>| list.contains(t) <==> chosen.contains(t) by {
        assert(list.contains(t) <==> set.contains(t));
        assert(chosen.contains(t) <==> set.contains(t));
    }
    lemma_strictly_ascending_unique(list, chosen);
}

/// Every finite set of texts has a listing.
pub proof fn lemma_texts_listed(set: Set<Seq<char>>)
    requires
        set.finite(),
    ensures
        lists_texts(text_listing(set), set),
{
    let list = sorted_set(set.to_seq());
    law_sorted_set(set.to_seq());
    assert forall|t: Seq<char>| #[trigger] list.contains(t) <==> set.contains(t) by {
        set.lemma_to_seq_to_set_id();
        assert(set.to_seq().contains(t) <==> set.to_seq().to_set().contains(t));
    }
    assert(lists_texts(list, set));
}

// ---------------------------------------------------------------------------
// Merge sort on positions
// ---------------------------------------------------------------------------

/// Position `a` comes before position `b` in a stable sort by `keys`.
pub open spec fn position_lt(keys: Seq<Seq<char>>, a: usize, b: usize) -> bool {
    ||| text::text_lt(keys[a as int], keys[b as int])
    ||| keys[a as int] == keys[b as int] && a < b
}

/// `order` lists the positions `lo..hi` as a stable sort by `keys` does.
pub open spec fn is_order_of(keys: Seq<Seq<char>>, lo: int, hi: int, order: Seq<usize>) -> bool {
    &&& order.len() == hi - lo
    &&& forall|i: int| 0 <= i < order.len() ==> lo <= #[trigger] order[i] < hi
    &&& forall|i: int, j: int|
        0 <= i < j < order.len() ==> position_lt(keys, #[trigger] order[i], #[trigger] order[j])
    &&& forall|x: usize| lo <= x < hi ==> #[trigger] order.contains(x)
}

proof fn lemma_position_lt_transitive(keys: Seq<Seq<char>>, a: usize, b: usize, c: usize)
    requires
        position_lt(keys, a, b),
        position_lt(keys, b, c),
    ensures
        position_lt(keys, a, c),
{
    if text::text_lt(keys[a as int], keys[b as int]) && text::text_lt(keys[b as int], keys[c as int]) {
        text::lemma_text_lt_transitive(keys[a as int], keys[b as int], keys[c as int]);
    }
}

/// Merges the orders of two adjacent ranges of positions.
fn merge(keys: &Vec<String>, lo: usize, mid: usize, hi: usize, a: &Vec<usize>, b: &Vec<usize>) -> (order:
    Vec<usize>)
    requires
        lo <= mid <= hi <= keys.len(),
        is_order_of(text::texts(keys@), lo as int, mid as int, a@),
        is_order_of(text::texts(keys@), mid as int, hi as int, b@),
    ensures
        is_order_of(text::texts(keys@), lo as int, hi as int, order@),
{
    let ghost ks = text::texts(keys@);
    let mut order: Vec<usize> = Vec::new();
    let mut i: usize = 0;
    let mut j: usize = 0;
    while i < a.len() || j < b.len()
        invariant
            lo <= mid <= hi <= keys.len(),
            ks == text::texts(keys@),
            is_order_of(ks, lo as int, mid as int, a@),
            is_order_of(ks, mid as int, hi as int, b@),
            i <= a.len(),
            j <= b.len(),
            order.len() == i + j,
            forall|p: int| 0 <= p < order.len() ==> lo <= #[trigger] order[p] < hi,
            forall|p: int, q: int|
                0 <= p < q < order.len() ==> position_lt(ks, #[trigger] order[p], #[trigger] order[q]),
            forall|p: int, q: int|
                0 <= p < order.len() && i <= q < a.len() ==> position_lt(
                    ks,
                    #[trigger] order[p],
                    #[trigger] a[q],
                ),
            forall|p: int, q: int|
                0 <= p < order.len() && j <= q < b.len() ==> position_lt(
                    ks,
                    #[trigger] order[p],
                    #[trigger] b[q],
                ),
            forall|q: int| 0 <= q < i ==> order@.contains(#[trigger] a[q]),
            forall|q: int| 0 <= q < j ==> order@.contains(#[trigger] b[q]),
        decreases a.len() - i + b.len() - j,
    {
        let take_left = if i >= a.len() {
            false
        } else if j >= b.len() {
            true
        } else {
            match rank_text(keys[b[j]].as_str(), keys[a[i]].as_str()) {
                Rank::Before => false,
                _ => true,
            }
        };
        let ghost before = order@;
        if take_left {
            let x = a[i];
            proof {
                assert forall|q: int| j <= q < b.len() implies position_lt(ks, x, #[trigger] b[q]) by {
                    assert(position_lt(ks, x, b[j as int]));
                    if q > j {
                        lemma_position_lt_transitive(ks, x, b[j as int], b[q]);
                    }
                }
            }
            order.push(x);
            i = i + 1;
            proof {
                assert(order@[before.len() as int] == a[i - 1]);
                assert forall|q: int| 0 <= q < i implies order@.contains(#[trigger] a[q]) by {
                    if q < i - 1 {
                        let p = choose|p: int| 0 <= p < before.len() && before[p] == a[q];
                        assert(order@[p] == a[q]);
                    }
                }
                assert forall|q: int| 0 <= q < j implies order@.contains(#[trigger] b[q]) by {
                    let p = choose|p: int| 0 <= p < before.len() && before[p] == b[q];
                    assert(order@[p] == b[q]);
                }
            }
        } else {
            let x = b[j];
            proof {
                assert forall|q: int| i <= q < a.len() implies position_lt(ks, x, #[trigger] a[q]) by {
                    assert(position_lt(ks, x, a[i as int]));
                    if q > i {
                        lemma_position_lt_transitive(ks, x, a[i as int], a[q]);
                    }
                }
            }
            order.push(x);
            j = j + 1;
            proof {
                assert(order@[before.len() as int] == b[j - 1]);
                assert forall|q: int| 0 <= q < j implies order@.contains(#[trigger] b[q]) by {
                    if q < j - 1 {
                        let p = choose|p: int| 0 <= p < before.len() && before[p] == b[q];
                        assert(order@[p] == b[q]);
                    }
                }
                assert forall|q: int| 0 <= q < i implies order@.contains(#[trigger] a[q]) by {
                    let p = choose|p: int| 0 <= p < before.len() && before[p] == a[q];
                    assert(order@[p] == a[q]);
                }
            }
        }
    }
    proof {
        assert forall|x: usize| lo <= x < hi implies #[trigger] order@.contains(x) by {
            if x < mid {
                assert(a@.contains(x));
                let q = choose|q: int| 0 <= q < a@.len() && a@[q] == x;
                assert(order@.contains(a[q]));
            } else {
                assert(b@.contains(x));
                let q = choose|q: int| 0 <= q < b@.len() && b@[q] == x;
                assert(order@.contains(b[q]));
            }
        }
    }
    order
}

fn order_range(keys: &Vec<String>, lo: usize, hi: usize) -> (order: Vec<usize>)
    requires
        lo <= hi <= keys.len(),
    ensures
        is_order_of(text::texts(keys@), lo as int, hi as int, order@),
    decreases hi - lo,
{
    let mut order: Vec<usize> = Vec::new();
    if hi - lo == 0 {
        return order;
    }
    if hi - lo == 1 {
        order.push(lo);
        assert(order@[0] == lo);
        return order;
    }
    let mid = lo + (hi - lo) / 2;
    let a = order_range(keys, lo, mid);
    let b = order_range(keys, mid, hi);
    merge(keys, lo, mid, hi, &a, &b)
}

/// The positions of `keys` in the order of a stable sort.
pub fn sort_order(keys: &Vec<String>) -> (order: Vec<usize>)
    ensures
        is_order_of(text::texts(keys@), 0, keys@.len() as int, order@),
{
    order_range(keys, 0, keys.len())
}

proof fn lemma_insert_position<T>(s: Seq<T>, x: T, key: spec_fn(T) -> Seq<char>, k: int)
    requires
        0 <= k <= s.len(),
        forall|j: int| 0 <= j < k ==> !text::text_lt(key(x), #[trigger] key(s[j])),
        forall|j: int| k <= j < s.len() ==> text::text_lt(key(x), #[trigger] key(s[j])),
    ensures
        insert_stable(s, x, key) == s.insert(k, x),
    decreases s.len(),
{
    if s.len() > k {
        let d = s.drop_last();
        assert(text::text_lt(key(x), key(s[s.len() - 1])));
        assert forall|j: int| 0 <= j < k implies !text::text_lt(key(x), #[trigger] key(d[j])) by {
            assert(d[j] == s[j]);
        }
        assert forall|j: int| k <= j < d.len() implies text::text_lt(key(x), #[trigger] key(d[j])) by {
            assert(d[j] == s[j]);
        }
        lemma_insert_position(d, x, key, k);
        assert(d.insert(k, x).push(s.last()) == s.insert(k, x));
    } else {
        if s.len() > 0 {
            assert(!text::text_lt(key(x), key(s[s.len() - 1])));
        }
        assert(s.push(x) == s.insert(k, x));
    }
}

/// Listing `s` in the order found for its keys is sorting `s`.
pub proof fn lemma_order_sorts<T>(s: Seq<T>, key: spec_fn(T) -> Seq<char>, keys: Seq<Seq<char>>, order: Seq<usize>)
    requires
        s.len() <= usize::MAX,
        keys.len() == s.len(),
        forall|i: int| 0 <= i < s.len() ==> #[trigger] keys[i] == key(s[i]),
        is_order_of(keys, 0, s.len() as int, order),
    ensures
        Seq::new(s.len(), |i: int| s[order[i] as int]) == stable_sort(s, key),
    decreases s.len(),
{
    let r = Seq::new(s.len(), |i: int| s[order[i] as int]);
    if s.len() == 0 {
        assert(r == s);
    } else {
        let n = s.len() - 1;
        assert(0 <= order[n] < s.len());
        assert(order.contains(n as usize));
        let k = choose|k: int| 0 <= k < order.len() && order[k] == n as usize;
        let o1 = order.remove(k);
        let s1 = s.drop_last();
        let keys1 = keys.drop_last();
        let x = s.last();
        assert forall|i: int| 0 <= i < o1.len() implies 0 <= #[trigger] o1[i] < n by {
            let m = if i < k { i } else { i + 1 };
            assert(o1[i] == order[m]);
            if order[m] == n {
                if m < k {
                    assert(position_lt(keys, order[m], order[k]));
                } else {
                    assert(position_lt(keys, order[k], order[m]));
                }
                text::lemma_text_lt_irreflexive(keys[n]);
            }
        }
        assert forall|i: int, j: int| 0 <= i < j < o1.len() implies position_lt(
            keys1,
            #[trigger] o1[i],
            #[trigger] o1[j],
        ) by {
            let p = if i < k { i } else { i + 1 };
            let q = if j < k { j } else { j + 1 };
            assert(o1[i] == order[p]);
            assert(o1[j] == order[q]);
            assert(position_lt(keys, order[p], order[q]));
            assert(0 <= o1[i] < n && 0 <= o1[j] < n);
        }
        assert forall|y: usize| 0 <= y < n implies #[trigger] o1.contains(y) by {
            assert(order.contains(y));
            let m = choose|m: int| 0 <= m < order.len() && order[m] == y;
            let i = if m < k { m } else { m - 1 };
            assert(o1[i] == y);
        }
        assert forall|i: int| 0 <= i < s1.len() implies #[trigger] keys1[i] == key(s1[i]) by {
            assert(keys1[i] == keys[i]);
        }
        lemma_order_sorts(s1, key, keys1, o1);
        let r1 = Seq::new(s1.len(), |i: int| s1[o1[i] as int]);
        assert forall|j: int| 0 <= j < k implies !text::text_lt(key(x), #[trigger] key(r1[j])) by {
            assert(o1[j] == order[j]);
            assert(position_lt(keys, order[j], order[k]));
            assert(keys[order[j] as int] == key(r1[j]));
            text::lemma_text_lt_total(key(x), key(r1[j]));
            text::lemma_text_lt_irreflexive(key(x));
            assert(keys[n] == key(x));
        }
        assert forall|j: int| k <= j < r1.len() implies text::text_lt(key(x), #[trigger] key(r1[j])) by {
            assert(o1[j] == order[j + 1]);
            assert(position_lt(keys, order[k], order[j + 1]));
            assert(keys[order[j + 1] as int] == key(r1[j]));
            assert(keys[n] == key(x));
        }
        lemma_insert_position(r1, x, key, k);
        assert(r == r1.insert(k, x)) by {
            assert forall|i: int| 0 <= i < r.len() implies r[i] == r1.insert(k, x)[i] by {
                if i < k {
                    assert(o1[i] == order[i]);
                    assert(0 <= o1[i] < n);
                } else if i > k {
                    assert(o1[i - 1] == order[i]);
                    assert(0 <= o1[i - 1] < n);
                }
            }
        }
    }
}

// ---------------------------------------------------------------------------
// Lists of strings
// ---------------------------------------------------------------------------

/// Sorts a list of strings.
pub fn sort_texts(v: &Vec<String>) -> (sorted: Vec<String>)
    ensures
        text::texts(sorted@) == sorted_texts(text::texts(v@)),
{
    let order = sort_order(v);
    let mut sorted: Vec<String> = Vec::new();
    for i in 0..order.len()
        invariant
            is_order_of(text::texts(v@), 0, v@.len() as int, order@),
            sorted.len() == i,
            forall|k: int| 0 <= k < i ==> (#[trigger] sorted[k])@ == v[order[k] as int]@,
    {
        sorted.push(v[order[i]].clone());
    }
    proof {
        let ts = text::texts(v@);
        lemma_order_sorts(ts, |t: Seq<char>| t, ts, order@);
        assert(text::texts(sorted@) == Seq::new(ts.len(), |i: int| ts[order@[i] as int]));
    }
    sorted
}

/// The distinct strings of a list, sorted.
pub fn sort_set(v: &Vec<String>) -> (set: Vec<String>)
    ensures
        text::texts(set@) == sorted_set(text::texts(v@)),
{
    let sorted = sort_texts(v);
    let mut set: Vec<String> = Vec::new();
    let ghost key = |t: Seq<char>| t;
    for i in 0..sorted.len()
        invariant
            key == |t: Seq<char>| t,
            text::texts(set@) == dedup(text::texts(sorted@).take(i as int), key),
    {
        let ghost prefix = text::texts(sorted@).take(i as int + 1);
        assert(prefix.drop_last() == text::texts(sorted@).take(i as int));
        let repeats = i > 0 && text_eq(sorted[i - 1].as_str(), sorted[i].as_str());
        if !repeats {
            let ghost before = set@;
            set.push(sorted[i].clone());
            assert(text::texts(set@) == text::texts(before).push(sorted[i as int]@));
        }
    }
    assert(text::texts(sorted@).take(sorted@.len() as int) == text::texts(sorted@));
    set
}

} // verus!
