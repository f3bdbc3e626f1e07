//! Sequences that never step down, and where a new value goes into one.

use vstd::prelude::*;
use crate::order::{le, le_laws, lemma_le_total, lemma_le_trans};

verus! {

/// `s` never steps down: each element is `<=` every later one.
#[verifier::opaque]
pub open spec fn sorted<T: Ord>(s: Seq<T>) -> bool {
    forall|i: int, j: int| 0 <= i < j < s.len() ==> le(#[trigger] s[i], #[trigger] s[j])
}

/// The first position of `s` whose element `v` is `<=` to; the length of `s`
/// if there is none. In a sorted sequence this is the position before all that
/// are order-equivalent to `v` or greater.
pub open spec fn lower_bound<T: Ord>(s: Seq<T>, v: T) -> int
    decreases s.len(),
{
    if s.len() == 0 {
        0
    } else if le(v, s[0]) {
        0
    } else {
        1 + lower_bound(s.drop_first(), v)
    }
}

/// [`lower_bound`] is a position of the sequence or its length; `v` is `<=`
/// no element before it, and `<=` the element at it.
pub proof fn lemma_lower_bound<T: Ord>(s: Seq<T>, v: T)
    ensures
        0 <= lower_bound(s, v) <= s.len(),
        forall|i: int| 0 <= i < lower_bound(s, v) ==> !le(v, #[trigger] s[i]),
        lower_bound(s, v) < s.len() ==> le(v, s[lower_bound(s, v)]),
    decreases s.len(),
{
    if s.len() > 0 && !le(v, s[0]) {
        let rest = s.drop_first();
        lemma_lower_bound(rest, v);
        assert forall|i: int| 0 <= i < lower_bound(s, v) implies !le(v, #[trigger] s[i]) by {
            if i > 0 {
                assert(s[i] == rest[i - 1]);
            }
        }
    }
}

/// The one position with the two properties of [`lemma_lower_bound`] is the
/// lower bound.
pub proof fn lemma_lower_bound_is<T: Ord>(s: Seq<T>, v: T, p: int)
    requires
        0 <= p <= s.len(),
        forall|i: int| 0 <= i < p ==> !le(v, #[trigger] s[i]),
        p < s.len() ==> le(v, s[p]),
    ensures
        lower_bound(s, v) == p,
{
    lemma_lower_bound(s, v);
    let q = lower_bound(s, v);
    if q < p {
        assert(!le(v, s[q]));
    } else if p < q {
        assert(!le(v, s[p]));
    }
}

/// A sorted sequence stays sorted when a value goes in at its lower bound.
pub proof fn lemma_sorted_insert<T: Ord>(s: Seq<T>, v: T)
    requires
        le_laws::<T>(),
        sorted(s),
    ensures
        sorted(s.insert(lower_bound(s, v), v)),
{
    reveal(sorted);
    lemma_lower_bound(s, v);
    let p = lower_bound(s, v);
    let t = s.insert(p, v);
    assert forall|i: int, j: int| 0 <= i < j < t.len() implies le(
        #[trigger] t[i],
        #[trigger] t[j],
    ) by {
        if j < p {
            assert(t[i] == s[i] && t[j] == s[j]);
        } else if j == p {
            assert(t[i] == s[i]);
            lemma_le_total(v, s[i]);
        } else if i < p {
            assert(t[i] == s[i] && t[j] == s[j - 1]);
            if i == j - 1 {
                assert(false);
            }
        } else if i == p {
            assert(t[j] == s[j - 1]);
            if j - 1 > p {
                assert(le(s[p], s[j - 1]));
                lemma_le_trans(v, s[p], s[j - 1]);
            }
        } else {
            assert(t[i] == s[i - 1] && t[j] == s[j - 1]);
        }
    }
}

/// A sorted sequence stays sorted when an element leaves.
pub proof fn lemma_sorted_remove<T: Ord>(s: Seq<T>, k: int)
    requires
        sorted(s),
        0 <= k < s.len(),
    ensures
        sorted(s.remove(k)),
{
    reveal(sorted);
    let t = s.remove(k);
    assert forall|i: int, j: int| 0 <= i < j < t.len() implies le(
        #[trigger] t[i],
        #[trigger] t[j],
    ) by {
        let a = if i < k { i } else { i + 1 };
        let b = if j < k { j } else { j + 1 };
        assert(t[i] == s[a] && t[j] == s[b]);
    }
}

/// The parts of a sorted sequence around one element are sorted, and the
/// element lies between them.
pub proof fn lemma_sorted_parts<T: Ord>(a: Seq<T>, x: T, b: Seq<T>)
    requires
        sorted(a + seq![x] + b),
    ensures
        sorted(a),
        sorted(b),
        forall|i: int| 0 <= i < a.len() ==> le(#[trigger] a[i], x),
        forall|j: int| 0 <= j < b.len() ==> le(x, #[trigger] b[j]),
{
    reveal(sorted);
    let s = a + seq![x] + b;
    let n = a.len() as int;
    assert(s[n] == x);
    assert forall|i: int, j: int| 0 <= i < j < a.len() implies le(
        #[trigger] a[i],
        #[trigger] a[j],
    ) by {
        assert(s[i] == a[i] && s[j] == a[j]);
    }
    assert forall|i: int, j: int| 0 <= i < j < b.len() implies le(
        #[trigger] b[i],
        #[trigger] b[j],
    ) by {
        assert(s[n + 1 + i] == b[i] && s[n + 1 + j] == b[j]);
    }
    assert forall|i: int| 0 <= i < a.len() implies le(#[trigger] a[i], x) by {
        assert(s[i] == a[i]);
    }
    assert forall|j: int| 0 <= j < b.len() implies le(x, #[trigger] b[j]) by {
        assert(s[n + 1 + j] == b[j]);
    }
}

/// Where `v` is `<=` the element in the middle, its lower bound lies in the
/// part before that element.
pub proof fn lemma_lower_bound_before<T: Ord>(a: Seq<T>, x: T, b: Seq<T>, v: T)
    requires
        le(v, x),
    ensures
        lower_bound(a + seq![x] + b, v) == lower_bound(a, v),
{
    let s = a + seq![x] + b;
    lemma_lower_bound(a, v);
    let p = lower_bound(a, v);
    assert forall|i: int| 0 <= i < p implies !le(v, #[trigger] s[i]) by {
        assert(s[i] == a[i]);
    }
    if p < a.len() {
        assert(s[p] == a[p]);
    } else {
        assert(s[p] == x);
    }
    lemma_lower_bound_is(s, v, p);
}

/// Where `v` is not `<=` the element in the middle of a sorted sequence, its
/// lower bound lies in the part after that element.
pub proof fn lemma_lower_bound_after<T: Ord>(a: Seq<T>, x: T, b: Seq<T>, v: T)
    requires
        le_laws::<T>(),
        sorted(a + seq![x] + b),
        !le(v, x),
    ensures
        lower_bound(a + seq![x] + b, v) == a.len() + 1 + lower_bound(b, v),
{
    let s = a + seq![x] + b;
    let n = a.len() as int;
    lemma_sorted_parts(a, x, b);
    lemma_lower_bound(b, v);
    let p = n + 1 + lower_bound(b, v);
    assert forall|i: int| 0 <= i < p implies !le(v, #[trigger] s[i]) by {
        if i < n {
            assert(s[i] == a[i]);
            if le(v, a[i]) {
                lemma_le_trans(v, a[i], x);
            }
        } else if i == n {
            assert(s[i] == x);
        } else {
            assert(s[i] == b[i - n - 1]);
        }
    }
    if p < s.len() {
        assert(s[p] == b[p - n - 1]);
    }
    lemma_lower_bound_is(s, v, p);
}

} // verus!
