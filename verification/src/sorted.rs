//! Sorted-sequence machinery shared by the state model and the loader:
//! sequences kept strictly sorted by a string key, and insertion that
//! replaces an entry whose key is already present.

use vstd::prelude::*;

use crate::text::{lex_lt, lemma_lex_lt_irreflexive, lemma_lex_lt_total, lemma_lex_lt_transitive};
use crate::text::{str_eq, str_lt};

verus! {

/// Strictly sorted by `key`: keys are unique and in ascending order.
pub open spec fn sorted_by<X>(s: Seq<X>, key: spec_fn(X) -> Seq<char>) -> bool {
    forall|i: int, j: int| 0 <= i < j < s.len() ==> lex_lt(key(#[trigger] s[i]), key(#[trigger] s[j]))
}

pub open spec fn has_key_by<X>(s: Seq<X>, k: Seq<char>, key: spec_fn(X) -> Seq<char>) -> bool {
    exists|i: int| 0 <= i < s.len() && key(#[trigger] s[i]) == k
}

/// Insertion into a sorted sequence; an element with an equal key is replaced.
pub open spec fn insert_by<X>(s: Seq<X>, x: X, key: spec_fn(X) -> Seq<char>) -> Seq<X>
    decreases s.len(),
{
    if s.len() == 0 {
        seq![x]
    } else if lex_lt(key(x), key(s[0])) {
        seq![x] + s
    } else if key(x) == key(s[0]) {
        seq![x] + s.subrange(1, s.len() as int)
    } else {
        seq![s[0]] + insert_by(s.subrange(1, s.len() as int), x, key)
    }
}

/// Shape of `insert_by` at the insertion position `p`: everything before `p`
/// keeps its place, `x` stands at `p`, and the rest follows (the old element
/// at `p` is dropped when its key equals `key(x)`).
pub proof fn lemma_insert_by_at<X>(s: Seq<X>, x: X, key: spec_fn(X) -> Seq<char>, p: int)
    requires
        0 <= p <= s.len(),
        forall|i: int| 0 <= i < p ==> lex_lt(key(#[trigger] s[i]), key(x)),
        p < s.len() ==> !lex_lt(key(s[p]), key(x)),
    ensures
        p < s.len() && key(s[p]) == key(x) ==> insert_by(s, x, key) == s.subrange(0, p)
            + seq![x] + s.subrange(p + 1, s.len() as int),
        !(p < s.len() && key(s[p]) == key(x)) ==> insert_by(s, x, key) == s.subrange(0, p)
            + seq![x] + s.subrange(p, s.len() as int),
    decreases s.len(),
{
    if s.len() == 0 {
        assert(insert_by(s, x, key) =~= s.subrange(0, p) + seq![x] + s.subrange(p, s.len() as int));
    } else if p == 0 {
        if key(s[0]) == key(x) {
            assert(!lex_lt(key(x), key(s[0]))) by {
                lemma_lex_lt_irreflexive(key(x));
            }
            assert(insert_by(s, x, key) =~= s.subrange(0, 0) + seq![x] + s.subrange(
                1,
                s.len() as int,
            ));
        } else {
            assert(lex_lt(key(x), key(s[0]))) by {
                lemma_lex_lt_total(key(x), key(s[0]));
            }
            assert(insert_by(s, x, key) =~= s.subrange(0, 0) + seq![x] + s.subrange(
                0,
                s.len() as int,
            ));
        }
    } else {
        let tail = s.subrange(1, s.len() as int);
        assert(lex_lt(key(s[0]), key(x)));
        assert(!lex_lt(key(x), key(s[0]))) by {
            if lex_lt(key(x), key(s[0])) {
                lemma_lex_lt_transitive(key(x), key(s[0]), key(x));
                lemma_lex_lt_irreflexive(key(x));
            }
        }
        assert(key(x) != key(s[0])) by {
            lemma_lex_lt_irreflexive(key(x));
        }
        assert(forall|i: int| 0 <= i < p - 1 ==> lex_lt(key(#[trigger] tail[i]), key(x)));
        lemma_insert_by_at(tail, x, key, p - 1);
        if p < s.len() && key(s[p]) == key(x) {
            assert(insert_by(s, x, key) =~= s.subrange(0, p) + seq![x] + s.subrange(
                p + 1,
                s.len() as int,
            )) by {
                assert(insert_by(s, x, key) == seq![s[0]] + insert_by(tail, x, key));
                assert(insert_by(tail, x, key) == tail.subrange(0, p - 1) + seq![x]
                    + tail.subrange(p, tail.len() as int));
            }
        } else {
            assert(insert_by(s, x, key) =~= s.subrange(0, p) + seq![x] + s.subrange(
                p,
                s.len() as int,
            )) by {
                assert(insert_by(s, x, key) == seq![s[0]] + insert_by(tail, x, key));
                assert(insert_by(tail, x, key) == tail.subrange(0, p - 1) + seq![x]
                    + tail.subrange(p - 1, tail.len() as int));
            }
        }
    }
}

/// Inserting into a sorted sequence keeps it sorted, and adjusts the key set
/// by exactly `key(x)`.
pub proof fn lemma_insert_by_sorted<X>(s: Seq<X>, x: X, key: spec_fn(X) -> Seq<char>)
    requires
        sorted_by(s, key),
    ensures
        sorted_by(insert_by(s, x, key), key),
        forall|k: Seq<char>| #[trigger] has_key_by(insert_by(s, x, key), k, key) <==> (has_key_by(
            s,
            k,
            key,
        ) || k == key(x)),
        has_key_by(s, key(x), key) ==> insert_by(s, x, key).len() == s.len(),
        !has_key_by(s, key(x), key) ==> insert_by(s, x, key).len() == s.len() + 1,
    decreases s.len(),
{
    let r = insert_by(s, x, key);
    if s.len() == 0 {
        assert forall|k: Seq<char>| #[trigger] has_key_by(r, k, key) implies (has_key_by(s, k, key)
            || k == key(x)) by {
            let i = choose|i: int| 0 <= i < r.len() && key(#[trigger] r[i]) == k;
            assert(r[i] == x);
        }
        assert(key(r[0]) == key(x));
        assert(!has_key_by(s, key(x), key));
    } else if lex_lt(key(x), key(s[0])) {
        assert forall|i: int, j: int| 0 <= i < j < r.len() implies lex_lt(
            key(#[trigger] r[i]),
            key(#[trigger] r[j]),
        ) by {
            if i == 0 {
                if j == 1 {
                    assert(r[j] == s[0]);
                } else {
                    lemma_lex_lt_transitive(key(x), key(s[0]), key(s[j - 1]));
                }
            } else {
                assert(r[i] == s[i - 1] && r[j] == s[j - 1]);
            }
        }
        assert forall|k: Seq<char>| #[trigger] has_key_by(r, k, key) implies (has_key_by(s, k, key)
            || k == key(x)) by {
            let i = choose|i: int| 0 <= i < r.len() && key(#[trigger] r[i]) == k;
            if i > 0 {
                assert(r[i] == s[i - 1]);
            }
        }
        assert forall|k: Seq<char>| has_key_by(s, k, key) || k == key(x) implies #[trigger]
            has_key_by(r, k, key) by {
            if has_key_by(s, k, key) {
                let i = choose|i: int| 0 <= i < s.len() && key(#[trigger] s[i]) == k;
                assert(r[i + 1] == s[i]);
            } else {
                assert(key(r[0]) == k);
            }
        }
        assert(!has_key_by(s, key(x), key)) by {
            if has_key_by(s, key(x), key) {
                let i = choose|i: int| 0 <= i < s.len() && key(#[trigger] s[i]) == key(x);
                if i > 0 {
                    lemma_lex_lt_transitive(key(x), key(s[0]), key(s[i]));
                }
                lemma_lex_lt_irreflexive(key(x));
            }
        }
    } else if key(x) == key(s[0]) {
        assert forall|i: int, j: int| 0 <= i < j < r.len() implies lex_lt(
            key(#[trigger] r[i]),
            key(#[trigger] r[j]),
        ) by {
            if i == 0 {
                assert(r[j] == s[j]);
            } else {
                assert(r[i] == s[i] && r[j] == s[j]);
            }
        }
        assert forall|k: Seq<char>| #[trigger] has_key_by(r, k, key) implies (has_key_by(s, k, key)
            || k == key(x)) by {
            let i = choose|i: int| 0 <= i < r.len() && key(#[trigger] r[i]) == k;
            if i > 0 {
                assert(r[i] == s[i]);
            }
        }
        assert forall|k: Seq<char>| has_key_by(s, k, key) || k == key(x) implies #[trigger]
            has_key_by(r, k, key) by {
            if k == key(x) {
                assert(key(r[0]) == k);
            } else {
                let i = choose|i: int| 0 <= i < s.len() && key(#[trigger] s[i]) == k;
                assert(i != 0);
                assert(r[i] == s[i]);
            }
        }
        assert(has_key_by(s, key(x), key)) by {
            assert(key(s[0]) == key(x));
        }
    } else {
        let tail = s.subrange(1, s.len() as int);
        assert(lex_lt(key(s[0]), key(x))) by {
            lemma_lex_lt_total(key(x), key(s[0]));
        }
        assert(sorted_by(tail, key)) by {
            assert(forall|i: int| 0 <= i < tail.len() ==> #[trigger] tail[i] == s[i + 1]);
        }
        lemma_insert_by_sorted(tail, x, key);
        let rt = insert_by(tail, x, key);
        assert(r == seq![s[0]] + rt);
        assert forall|i: int, j: int| 0 <= i < j < r.len() implies lex_lt(
            key(#[trigger] r[i]),
            key(#[trigger] r[j]),
        ) by {
            if i == 0 {
                assert(r[j] == rt[j - 1]);
                assert(has_key_by(rt, key(rt[j - 1]), key));
                if key(rt[j - 1]) == key(x) {
                    assert(lex_lt(key(s[0]), key(x)));
                } else {
                    assert(has_key_by(tail, key(rt[j - 1]), key));
                    let w = choose|w: int|
                        0 <= w < tail.len() && key(#[trigger] tail[w]) == key(rt[j - 1]);
                    assert(tail[w] == s[w + 1]);
                    assert(lex_lt(key(s[0]), key(s[w + 1])));
                }
            } else {
                assert(r[i] == rt[i - 1] && r[j] == rt[j - 1]);
            }
        }
        assert forall|k: Seq<char>| #[trigger] has_key_by(r, k, key) implies (has_key_by(s, k, key)
            || k == key(x)) by {
            let i = choose|i: int| 0 <= i < r.len() && key(#[trigger] r[i]) == k;
            if i == 0 {
                assert(key(s[0]) == k);
            } else {
                assert(r[i] == rt[i - 1]);
                assert(has_key_by(rt, k, key));
                if has_key_by(tail, k, key) {
                    let w = choose|w: int| 0 <= w < tail.len() && key(#[trigger] tail[w]) == k;
                    assert(s[w + 1] == tail[w]);
                }
            }
        }
        assert forall|k: Seq<char>| has_key_by(s, k, key) || k == key(x) implies #[trigger]
            has_key_by(r, k, key) by {
            if k == key(x) {
                assert(has_key_by(rt, k, key));
                let w = choose|w: int| 0 <= w < rt.len() && key(#[trigger] rt[w]) == k;
                assert(r[w + 1] == rt[w]);
            } else if has_key_by(s, k, key) {
                let i = choose|i: int| 0 <= i < s.len() && key(#[trigger] s[i]) == k;
                if i == 0 {
                    assert(key(r[0]) == k);
                } else {
                    assert(has_key_by(tail, k, key)) by {
                        assert(key(tail[i - 1]) == k);
                    }
                    assert(has_key_by(rt, k, key));
                    let w = choose|w: int| 0 <= w < rt.len() && key(#[trigger] rt[w]) == k;
                    assert(r[w + 1] == rt[w]);
                }
            }
        }
        assert(has_key_by(s, key(x), key) == has_key_by(tail, key(x), key)) by {
            if has_key_by(s, key(x), key) {
                let i = choose|i: int| 0 <= i < s.len() && key(#[trigger] s[i]) == key(x);
                assert(i != 0) by {
                    lemma_lex_lt_irreflexive(key(x));
                }
                assert(key(tail[i - 1]) == key(x));
            } else if has_key_by(tail, key(x), key) {
                let w = choose|w: int| 0 <= w < tail.len() && key(#[trigger] tail[w]) == key(x);
                assert(key(s[w + 1]) == key(x));
            }
        }
    }
}


/// One step of building a filtered, key-sorted selection out of a sorted key
/// source: pushing an element whose key is the source key at `j`.
pub proof fn lemma_keyed_push_step<X>(
    pre: Seq<X>,
    x: X,
    key: spec_fn(X) -> Seq<char>,
    src: Seq<Seq<char>>,
    j: int,
    cond: spec_fn(Seq<char>) -> bool,
)
    requires
        0 <= j < src.len(),
        sorted_by(pre, key),
        key(x) == src[j],
        cond(src[j]),
        forall|w: int| 0 <= w < pre.len() ==> lex_lt(key(#[trigger] pre[w]), key(x)),
        forall|k: Seq<char>| #[trigger] has_key_by(pre, k, key) <==> (exists|v: int|
            0 <= v < j && (#[trigger] src[v]) == k && cond(k)),
    ensures
        sorted_by(pre.push(x), key),
        forall|w: int| 0 <= w < pre.push(x).len() ==> lex_lt(key(#[trigger] pre.push(x)[w]), key(x))
            || key(pre.push(x)[w]) == key(x),
        forall|k: Seq<char>| #[trigger] has_key_by(pre.push(x), k, key) <==> (exists|v: int|
            0 <= v < j + 1 && (#[trigger] src[v]) == k && cond(k)),
{
    let cur = pre.push(x);
    assert forall|w1: int, w2: int| 0 <= w1 < w2 < cur.len() implies lex_lt(
        key(#[trigger] cur[w1]),
        key(#[trigger] cur[w2]),
    ) by {
        if w2 == cur.len() - 1 {
            assert(cur[w1] == pre[w1]);
            assert(cur[w2] == x);
        } else {
            assert(cur[w1] == pre[w1]);
            assert(cur[w2] == pre[w2]);
        }
    }
    assert forall|w: int| 0 <= w < cur.len() implies lex_lt(key(#[trigger] cur[w]), key(x))
        || key(cur[w]) == key(x) by {
        if w < pre.len() {
            assert(cur[w] == pre[w]);
        } else {
            assert(cur[w] == x);
        }
    }
    assert forall|k: Seq<char>| #[trigger] has_key_by(cur, k, key) implies (exists|v: int|
        0 <= v < j + 1 && (#[trigger] src[v]) == k && cond(k)) by {
        let w = choose|w: int| 0 <= w < cur.len() && key(#[trigger] cur[w]) == k;
        if w < pre.len() {
            assert(cur[w] == pre[w]);
            assert(has_key_by(pre, k, key)) by {
                assert(key(pre[w]) == k);
            }
            let v = choose|v: int| 0 <= v < j && (#[trigger] src[v]) == k && cond(k);
            assert(0 <= v < j + 1 && src[v] == k && cond(k));
        } else {
            assert(cur[w] == x);
            assert(0 <= j < j + 1 && src[j] == k && cond(k));
        }
    }
    assert forall|k: Seq<char>|
        (exists|v: int| 0 <= v < j + 1 && (#[trigger] src[v]) == k && cond(k)) implies #[trigger]
        has_key_by(cur, k, key) by {
        let v = choose|v: int| 0 <= v < j + 1 && (#[trigger] src[v]) == k && cond(k);
        if v < j {
            assert(has_key_by(pre, k, key));
            let w = choose|w: int| 0 <= w < pre.len() && key(#[trigger] pre[w]) == k;
            assert(key(cur[w]) == k);
        } else {
            assert(key(cur[cur.len() - 1]) == k);
        }
    }
}

/// One step of the same construction/// One step of the same construction where the source key at `j` is skipped.
pub proof fn lemma_keyed_skip_step<X>(
    cur: Seq<X>,
    key: spec_fn(X) -> Seq<char>,
    src: Seq<Seq<char>>,
    j: int,
    cond: spec_fn(Seq<char>) -> bool,
)
    requires
        sorted_by(src, ident_key()),
        0 <= j < src.len(),
        !cond(src[j]),
        forall|k: Seq<char>| #[trigger] has_key_by(cur, k, key) <==> (exists|v: int|
            0 <= v < j && (#[trigger] src[v]) == k && cond(k)),
    ensures
        forall|k: Seq<char>| #[trigger] has_key_by(cur, k, key) <==> (exists|v: int|
            0 <= v < j + 1 && (#[trigger] src[v]) == k && cond(k)),
{
    assert forall|k: Seq<char>| #[trigger] has_key_by(cur, k, key) <==> (exists|v: int|
        0 <= v < j + 1 && (#[trigger] src[v]) == k && cond(k)) by {
        if has_key_by(cur, k, key) {
            let v = choose|v: int| 0 <= v < j && (#[trigger] src[v]) == k && cond(k);
            assert(0 <= v < j + 1 && src[v] == k && cond(k));
        }
        if (exists|v: int| 0 <= v < j + 1 && (#[trigger] src[v]) == k && cond(k)) {
            let v = choose|v: int| 0 <= v < j + 1 && (#[trigger] src[v]) == k && cond(k);
            assert(v != j);
            assert(0 <= v < j && src[v] == k && cond(k));
        }
    }
}


/// Two sorted-by-key sequences with the same key set, whose elements are
/// determined by their keys, are equal.
pub proof fn lemma_sorted_unique_by<X>(s1: Seq<X>, s2: Seq<X>, key: spec_fn(X) -> Seq<char>)
    requires
        sorted_by(s1, key),
        sorted_by(s2, key),
        forall|k: Seq<char>| #[trigger] has_key_by(s1, k, key) <==> has_key_by(s2, k, key),
        forall|i: int, j: int|
            0 <= i < s1.len() && 0 <= j < s2.len() && key(#[trigger] s1[i]) == key(
                #[trigger] s2[j],
            ) ==> s1[i] == s2[j],
    ensures
        s1 == s2,
    decreases s1.len(),
{
    if s1.len() == 0 {
        if s2.len() > 0 {
            assert(has_key_by(s2, key(s2[0]), key)) by {
                assert(key(s2[0]) == key(s2[0]));
            }
            assert(has_key_by(s1, key(s2[0]), key));
            let i = choose|i: int| 0 <= i < s1.len() && key(#[trigger] s1[i]) == key(s2[0]);
        }
        assert(s1 =~= s2);
    } else {
        assert(has_key_by(s1, key(s1[0]), key)) by {
            assert(key(s1[0]) == key(s1[0]));
        }
        assert(has_key_by(s2, key(s1[0]), key));
        let j0 = choose|j: int| 0 <= j < s2.len() && key(#[trigger] s2[j]) == key(s1[0]);
        assert(key(s1[0]) == key(s2[0])) by {
            if j0 > 0 {
                assert(lex_lt(key(s2[0]), key(s2[j0])));
                assert(has_key_by(s2, key(s2[0]), key)) by {
                    assert(key(s2[0]) == key(s2[0]));
                }
                assert(has_key_by(s1, key(s2[0]), key));
                let i0 = choose|i: int| 0 <= i < s1.len() && key(#[trigger] s1[i]) == key(s2[0]);
                if i0 > 0 {
                    assert(lex_lt(key(s1[0]), key(s1[i0])));
                    lemma_lex_lt_transitive(key(s1[0]), key(s2[0]), key(s1[0]));
                    lemma_lex_lt_irreflexive(key(s1[0]));
                } else {
                    lemma_lex_lt_irreflexive(key(s1[0]));
                }
            }
        }
        assert(s1[0] == s2[0]);
        let t1 = s1.subrange(1, s1.len() as int);
        let t2 = s2.subrange(1, s2.len() as int);
        assert(sorted_by(t1, key)) by {
            assert(forall|i: int| 0 <= i < t1.len() ==> #[trigger] t1[i] == s1[i + 1]);
        }
        assert(sorted_by(t2, key)) by {
            assert(forall|i: int| 0 <= i < t2.len() ==> #[trigger] t2[i] == s2[i + 1]);
        }
        assert forall|k: Seq<char>| #[trigger] has_key_by(t1, k, key) <==> has_key_by(
            t2,
            k,
            key,
        ) by {
            if has_key_by(t1, k, key) {
                let i = choose|i: int| 0 <= i < t1.len() && key(#[trigger] t1[i]) == k;
                assert(t1[i] == s1[i + 1]);
                assert(k != key(s1[0])) by {
                    assert(lex_lt(key(s1[0]), key(s1[i + 1])));
                    lemma_lex_lt_irreflexive(k);
                }
                assert(has_key_by(s1, k, key)) by {
                    assert(key(s1[i + 1]) == k);
                }
                assert(has_key_by(s2, k, key));
                let j = choose|j: int| 0 <= j < s2.len() && key(#[trigger] s2[j]) == k;
                assert(j != 0);
                assert(key(t2[j - 1]) == k);
            }
            if has_key_by(t2, k, key) {
                let j = choose|j: int| 0 <= j < t2.len() && key(#[trigger] t2[j]) == k;
                assert(t2[j] == s2[j + 1]);
                assert(k != key(s2[0])) by {
                    assert(lex_lt(key(s2[0]), key(s2[j + 1])));
                    lemma_lex_lt_irreflexive(k);
                }
                assert(has_key_by(s2, k, key)) by {
                    assert(key(s2[j + 1]) == k);
                }
                assert(has_key_by(s1, k, key));
                let i = choose|i: int| 0 <= i < s1.len() && key(#[trigger] s1[i]) == k;
                assert(i != 0);
                assert(key(t1[i - 1]) == k);
            }
        }
        assert forall|i: int, j: int|
            0 <= i < t1.len() && 0 <= j < t2.len() && key(#[trigger] t1[i]) == key(
                #[trigger] t2[j],
            ) implies t1[i] == t2[j] by {
            assert(t1[i] == s1[i + 1]);
            assert(t2[j] == s2[j + 1]);
        }
        lemma_sorted_unique_by(t1, t2, key);
        assert(s1 =~= s2) by {
            assert(forall|i: int| 1 <= i < s1.len() ==> #[trigger] s1[i] == t1[i - 1]);
            assert(forall|i: int| 1 <= i < s2.len() ==> #[trigger] s2[i] == t2[i - 1]);
        }
    }
}

/// Views of a vector of strings.
pub open spec fn key_views(v: Seq<String>) -> Seq<Seq<char>> {
    v.map_values(|s: String| s@)
}

/// Identity key function, for sorted sequences of plain keys.
pub open spec fn ident_key() -> spec_fn(Seq<char>) -> Seq<char> {
    |s: Seq<char>| s
}

/// Inserts a key into a sorted key vector, keeping it sorted and distinct.
pub fn insert_key(keys: &mut Vec<String>, k: &str)
    requires
        sorted_by(key_views(old(keys)@), ident_key()),
    ensures
        key_views(final(keys)@) == insert_by(
            key_views(old(keys)@),
            k@,
            ident_key(),
        ),
        sorted_by(key_views(final(keys)@), ident_key()),
        forall|q: Seq<char>| #[trigger] has_key_by(
            key_views(final(keys)@),
            q,
            ident_key(),
        ) <==> (has_key_by(key_views(old(keys)@), q, ident_key()) || q == k@),
{
    let ghost olds = key_views(keys@);
    let n = keys.len();
    let mut out: Vec<String> = Vec::new();
    let mut j: usize = 0;
    loop
        invariant
            olds == key_views(keys@),
            sorted_by(olds, ident_key()),
            n == keys@.len(),
            j <= n,
            out@.len() == j,
            forall|w: int| 0 <= w < j ==> out@[w]@ == olds[w],
            forall|w: int| 0 <= w < j ==> lex_lt(#[trigger] olds[w], k@),
        ensures
            olds == key_views(keys@),
            j <= n,
            out@.len() == j,
            forall|w: int| 0 <= w < j ==> out@[w]@ == olds[w],
            forall|w: int| 0 <= w < j ==> lex_lt(#[trigger] olds[w], k@),
            j < n ==> !lex_lt(olds[j as int], k@),
        decreases n - j,
    {
        if j >= n {
            break;
        }
        proof {
            assert(olds[j as int] == keys@[j as int]@);
        }
        if !str_lt(keys[j].as_str(), k) {
            break;
        }
        out.push(keys[j].clone());
        j += 1;
    }
    let ghost p = j as int;
    let replaced = j < n && str_eq(keys[j].as_str(), k);
    proof {
        if j < n {
            assert(olds[j as int] == keys@[j as int]@);
        }
    }
    out.push(k.to_owned());
    let mut q: usize = if replaced {
        j + 1
    } else {
        j
    };
    let ghost q0 = q as int;
    while q < n
        invariant
            olds == key_views(keys@),
            n == keys@.len(),
            0 <= p <= q0 <= q <= n,
            out@.len() == p + 1 + (q - q0),
            forall|w: int| 0 <= w < p ==> out@[w]@ == olds[w],
            out@[p]@ == k@,
            forall|w: int| p < w < out@.len() ==> #[trigger] out@[w]@ == olds[q0 + (w - p - 1)],
        decreases n - q,
    {
        proof {
            assert(olds[q as int] == keys@[q as int]@);
        }
        let item = keys[q].clone();
        proof {
            assert(item@ == olds[q as int]);
        }
        let ghost pre = out@;
        out.push(item);
        proof {
            let v = out@.last();
            assert(out@ == pre.push(v));
            assert(v@ == olds[q as int]);
            assert(pre.push(v)[p] == pre[p]);
            assert forall|w: int| 0 <= w < pre.len() implies #[trigger] out@[w] == pre[w] by {
                assert(pre.push(v)[w] == pre[w]);
            }
        }
        q += 1;
    }
    proof {
        lemma_insert_by_at(olds, k@, ident_key(), p);
        lemma_insert_by_sorted(olds, k@, ident_key());
        assert(key_views(out@) =~= insert_by(olds, k@, ident_key()));
    }
    *keys = out;
}

/// Whether a sorted key vector holds the key.
pub fn contains_key(keys: &Vec<String>, k: &str) -> (r: bool)
    ensures
        r == has_key_by(key_views(keys@), k@, ident_key()),
{
    let n = keys.len();
    let mut i: usize = 0;
    while i < n
        invariant
            n == keys@.len(),
            i <= n,
            forall|w: int| 0 <= w < i ==> #[trigger] keys@[w]@ != k@,
        decreases n - i,
    {
        if str_eq(keys[i].as_str(), k) {
            proof {
                assert(key_views(keys@)[i as int] == k@);
            }
            return true;
        }
        i += 1;
    }
    proof {
        if has_key_by(key_views(keys@), k@, ident_key()) {
            let w = choose|w: int|
                0 <= w < keys@.len() && (#[trigger] key_views(keys@)[w]) == k@;
            assert(keys@[w]@ == k@);
        }
    }
    false
}

} // verus!
