//! Generic facts about sequences: first appearances, occurrence counts and sums.

use vstd::prelude::*;

verus! {

/// The elements of `s` without repeats, each at the place of its first
/// appearance.
pub open spec fn distinct_in_order<A>(s: Seq<A>) -> Seq<A>
    decreases s.len(),
{
    if s.len() == 0 {
        s
    } else {
        let r = distinct_in_order(s.drop_last());
        if s.drop_last().contains(s.last()) {
            r
        } else {
            r.push(s.last())
        }
    }
}

/// How many times `x` occurs in `s`.
pub open spec fn occurrences<A>(s: Seq<A>, x: A) -> nat
    decreases s.len(),
{
    if s.len() == 0 {
        0
    } else {
        occurrences(s.drop_last(), x) + if s.last() == x {
            1nat
        } else {
            0nat
        }
    }
}

/// The sum of a sequence of naturals.
pub open spec fn sum_nat(s: Seq<nat>) -> nat
    decreases s.len(),
{
    if s.len() == 0 {
        0
    } else {
        sum_nat(s.drop_last()) + s.last()
    }
}

pub proof fn lemma_distinct_push<A>(s: Seq<A>, x: A)
    ensures
        distinct_in_order(s.push(x)) == if s.contains(x) {
            distinct_in_order(s)
        } else {
            distinct_in_order(s).push(x)
        },
{
    assert(s.push(x).drop_last() =~= s);
}

pub proof fn lemma_occurrences_push<A>(s: Seq<A>, x: A, y: A)
    ensures
        occurrences(s.push(x), y) == occurrences(s, y) + if x == y {
            1nat
        } else {
            0nat
        },
{
    assert(s.push(x).drop_last() =~= s);
}

/// The distinct elements are those of `s`, each once.
pub proof fn lemma_distinct_contents<A>(s: Seq<A>)
    ensures
        forall|y: A| #[trigger] distinct_in_order(s).contains(y) <==> s.contains(y),
        distinct_in_order(s).no_duplicates(),
        distinct_in_order(s).len() <= s.len(),
    decreases s.len(),
{
    if s.len() > 0 {
        let t = s.drop_last();
        let x = s.last();
        lemma_distinct_contents(t);
        let d = distinct_in_order(t);
        assert forall|y: A| s.contains(y) <==> (t.contains(y) || y == x) by {
            if s.contains(y) {
                let i = choose|i: int| 0 <= i < s.len() && s[i] == y;
                if i < t.len() {
                    assert(t[i] == y);
                }
            }
            if t.contains(y) {
                let i = choose|i: int| 0 <= i < t.len() && t[i] == y;
                assert(s[i] == y);
            }
            if y == x {
                assert(s[s.len() - 1] == y);
            }
        }
        if t.contains(x) {
            assert(distinct_in_order(s) == d);
        } else {
            assert(distinct_in_order(s) == d.push(x));
            assert forall|y: A| #[trigger] d.push(x).contains(y) <==> (d.contains(y) || y == x) by {
                if d.push(x).contains(y) {
                    let i = choose|i: int| 0 <= i < d.push(x).len() && d.push(x)[i] == y;
                    if i < d.len() {
                        assert(d[i] == y);
                    }
                }
                if d.contains(y) {
                    let i = choose|i: int| 0 <= i < d.len() && d[i] == y;
                    assert(d.push(x)[i] == y);
                }
                if y == x {
                    assert(d.push(x)[d.len() as int] == y);
                }
            }
            assert forall|i: int, j: int|
                0 <= i < d.push(x).len() && 0 <= j < d.push(x).len() && i != j implies d.push(
                x,
            )[i] != d.push(x)[j] by {
                if i < d.len() && j < d.len() {
                } else if i < d.len() {
                    assert(d.contains(d[i]));
                } else {
                    assert(d.contains(d[j]));
                }
            }
        }
    }
}

/// No element occurs more often than the sequence is long.
pub proof fn lemma_occurrences_bound<A>(s: Seq<A>, x: A)
    ensures
        occurrences(s, x) <= s.len(),
        s.contains(x) <==> occurrences(s, x) > 0,
    decreases s.len(),
{
    if s.len() > 0 {
        lemma_occurrences_bound(s.drop_last(), x);
        if s.drop_last().contains(x) {
            let i = choose|i: int| 0 <= i < s.drop_last().len() && s.drop_last()[i] == x;
            assert(s[i] == x);
        }
        if s.contains(x) && s.last() != x {
            let i = choose|i: int| 0 <= i < s.len() && s[i] == x;
            assert(s.drop_last()[i] == x);
        }
    }
}

pub proof fn lemma_sum_push(s: Seq<nat>, x: nat)
    ensures
        sum_nat(s.push(x)) == sum_nat(s) + x,
{
    assert(s.push(x).drop_last() =~= s);
}

pub proof fn lemma_sum_update(s: Seq<nat>, i: int, x: nat)
    requires
        0 <= i < s.len(),
    ensures
        sum_nat(s.update(i, x)) + s[i] == sum_nat(s) + x,
    decreases s.len(),
{
    if i < s.len() - 1 {
        assert(s.update(i, x).drop_last() =~= s.drop_last().update(i, x));
        lemma_sum_update(s.drop_last(), i, x);
    } else {
        assert(s.update(i, x).drop_last() =~= s.drop_last());
    }
}

/// `s` is strictly increasing under `less`.
pub open spec fn sorted_by<A>(s: Seq<A>, less: spec_fn(A, A) -> bool) -> bool {
    forall|i: int, j: int| 0 <= i < j < s.len() ==> less(#[trigger] s[i], #[trigger] s[j])
}

/// `less` is a strict order.
pub open spec fn strict_order<A>(less: spec_fn(A, A) -> bool) -> bool {
    &&& forall|x: A| !(#[trigger] less(x, x))
    &&& forall|x: A, y: A, z: A| #[trigger] less(x, y) && #[trigger] less(y, z) ==> less(x, z)
}

/// Two strictly increasing sequences with the same elements are equal.
pub proof fn lemma_sorted_unique<A>(a: Seq<A>, b: Seq<A>, less: spec_fn(A, A) -> bool)
    requires
        strict_order(less),
        sorted_by(a, less),
        sorted_by(b, less),
        forall|x: A| a.contains(x) <==> b.contains(x),
    ensures
        a == b,
    decreases a.len(),
{
    if a.len() == 0 {
        if b.len() > 0 {
            assert(b.contains(b[0]));
        }
        assert(a =~= b);
    } else if b.len() == 0 {
        assert(a.contains(a[0]));
    } else {
        let x = a[0];
        let y = b[0];
        assert(a.contains(x));
        assert(b.contains(y));
        let j = choose|j: int| 0 <= j < b.len() && b[j] == x;
        let i = choose|i: int| 0 <= i < a.len() && a[i] == y;
        if x != y {
            assert(j > 0 && i > 0);
            assert(less(y, x));
            assert(less(x, y));
            assert(less(x, x));
        }
        let a2 = a.drop_first();
        let b2 = b.drop_first();
        assert forall|z: A| a2.contains(z) <==> b2.contains(z) by {
            if a2.contains(z) {
                let m = choose|m: int| 0 <= m < a2.len() && a2[m] == z;
                assert(a[m + 1] == z);
                assert(less(a[0], a[m + 1]));
                assert(b.contains(z));
                let n = choose|n: int| 0 <= n < b.len() && b[n] == z;
                if n == 0 {
                    assert(less(z, z));
                }
                assert(b2[n - 1] == z);
            }
            if b2.contains(z) {
                let m = choose|m: int| 0 <= m < b2.len() && b2[m] == z;
                assert(b[m + 1] == z);
                assert(less(b[0], b[m + 1]));
                assert(a.contains(z));
                let n = choose|n: int| 0 <= n < a.len() && a[n] == z;
                if n == 0 {
                    assert(less(z, z));
                }
                assert(a2[n - 1] == z);
            }
        }
        assert(sorted_by(a2, less)) by {
            assert forall|p: int, q: int| 0 <= p < q < a2.len() implies less(#[trigger] a2[p], #[trigger] a2[q]) by {
                assert(a2[p] == a[p + 1] && a2[q] == a[q + 1]);
            }
        }
        assert(sorted_by(b2, less)) by {
            assert forall|p: int, q: int| 0 <= p < q < b2.len() implies less(#[trigger] b2[p], #[trigger] b2[q]) by {
                assert(b2[p] == b[p + 1] && b2[q] == b[q + 1]);
            }
        }
        lemma_sorted_unique(a2, b2, less);
        assert(a =~= b) by {
            assert forall|k: int| 0 <= k < a.len() implies a[k] == b[k] by {
                if k > 0 {
                    assert(a[k] == a2[k - 1] && b[k] == b2[k - 1]);
                }
            }
        }
    }
}

/// Filtering by two predicates that agree on every element gives the same
/// sequence.
pub proof fn lemma_filter_agree<A>(s: Seq<A>, p: spec_fn(A) -> bool, q: spec_fn(A) -> bool)
    requires
        forall|i: int| 0 <= i < s.len() ==> p(#[trigger] s[i]) == q(s[i]),
    ensures
        s.filter(p) == s.filter(q),
    decreases s.len(),
{
    reveal(Seq::filter);
    if s.len() > 0 {
        let t = s.drop_last();
        assert forall|i: int| 0 <= i < t.len() implies p(#[trigger] t[i]) == q(t[i]) by {
            assert(t[i] == s[i]);
        }
        lemma_filter_agree(t, p, q);
        assert(p(s[s.len() - 1]) == q(s[s.len() - 1]));
    }
}

/// Filtering keeps elements apart: where no two elements of `s` share a key,
/// no two elements of a filter of `s` do.
pub proof fn lemma_filter_distinct_keys<A, K>(
    s: Seq<A>,
    p: spec_fn(A) -> bool,
    key: spec_fn(A) -> K,
)
    requires
        forall|a: int, b: int|
            0 <= a < s.len() && 0 <= b < s.len() && a != b ==> key(#[trigger] s[a]) != key(
                #[trigger] s[b],
            ),
    ensures
        forall|a: int, b: int|
            0 <= a < s.filter(p).len() && 0 <= b < s.filter(p).len() && a != b ==> key(
                #[trigger] s.filter(p)[a],
            ) != key(#[trigger] s.filter(p)[b]),
    decreases s.len(),
{
    reveal(Seq::filter);
    if s.len() > 0 {
        let t = s.drop_last();
        let x = s.last();
        assert forall|a: int, b: int|
            0 <= a < t.len() && 0 <= b < t.len() && a != b implies key(#[trigger] t[a]) != key(
            #[trigger] t[b],
        ) by {
            assert(t[a] == s[a] && t[b] == s[b]);
        }
        lemma_filter_distinct_keys(t, p, key);
        let f = t.filter(p);
        if p(x) {
            let g = f.push(x);
            assert(s.filter(p) == g);
            assert forall|a: int, b: int|
                0 <= a < g.len() && 0 <= b < g.len() && a != b implies key(#[trigger] g[a]) != key(
                #[trigger] g[b],
            ) by {
                if a < f.len() && b < f.len() {
                    assert(g[a] == f[a] && g[b] == f[b]);
                } else {
                    let c = if a < f.len() {
                        a
                    } else {
                        b
                    };
                    assert(g[c] == f[c]);
                    assert(f.contains(f[c]));
                    t.lemma_filter_contains_rev(p, f[c]);
                    let i = choose|i: int| 0 <= i < t.len() && t[i] == f[c];
                    assert(s[i] == t[i]);
                    assert(key(s[i]) != key(s[s.len() - 1]));
                }
            }
        }
    }
}

/// Filtering keeps order: where every element of `s` stands in relation
/// `rel` to each later one, so does every element of a filter of `s`.
pub proof fn lemma_filter_keeps_order<A>(
    s: Seq<A>,
    p: spec_fn(A) -> bool,
    rel: spec_fn(A, A) -> bool,
)
    requires
        forall|i: int, j: int| 0 <= i < j < s.len() ==> rel(#[trigger] s[i], #[trigger] s[j]),
    ensures
        forall|i: int, j: int|
            0 <= i < j < s.filter(p).len() ==> rel(#[trigger] s.filter(p)[i], #[trigger] s.filter(p)[j]),
    decreases s.len(),
{
    reveal(Seq::filter);
    if s.len() > 0 {
        let t = s.drop_last();
        let x = s.last();
        assert forall|i: int, j: int| 0 <= i < j < t.len() implies rel(#[trigger] t[i], #[trigger] t[j]) by {
            assert(t[i] == s[i] && t[j] == s[j]);
        }
        lemma_filter_keeps_order(t, p, rel);
        let f = t.filter(p);
        if p(x) {
            let g = f.push(x);
            assert(s.filter(p) == g);
            assert forall|i: int, j: int| 0 <= i < j < g.len() implies rel(#[trigger] g[i], #[trigger] g[j]) by {
                assert(g[i] == f[i]);
                if j < f.len() {
                    assert(g[j] == f[j]);
                } else {
                    assert(f.contains(f[i]));
                    t.lemma_filter_contains_rev(p, f[i]);
                    let m = choose|m: int| 0 <= m < t.len() && t[m] == f[i];
                    assert(s[m] == t[m]);
                    assert(rel(s[m], s[s.len() - 1]));
                }
            }
        }
    }
}

} // verus!
