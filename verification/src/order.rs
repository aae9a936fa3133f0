//! Lexicographic order on character sequences, as `String`'s `Ord` orders
//! them (UTF-8 byte order is code point order), and sorted sets of strings
//! and ports kept in vectors.

use vstd::prelude::*;
use crate::text::chars_of;

verus! {

/// `a` comes strictly before `b` in lexicographic code point order.
pub open spec fn chars_less(a: Seq<char>, b: Seq<char>) -> bool
    decreases a.len(),
{
    if a.len() == 0 {
        b.len() > 0
    } else if b.len() == 0 {
        false
    } else if a[0] != b[0] {
        (a[0] as int) < (b[0] as int)
    } else {
        chars_less(a.drop_first(), b.drop_first())
    }
}

/// No sequence comes before itself.
pub proof fn lemma_chars_less_irreflexive(a: Seq<char>)
    ensures
        !chars_less(a, a),
    decreases a.len(),
{
    if a.len() > 0 {
        lemma_chars_less_irreflexive(a.drop_first());
    }
}

/// The order is transitive.
pub proof fn lemma_chars_less_transitive(a: Seq<char>, b: Seq<char>, c: Seq<char>)
    requires
        chars_less(a, b),
        chars_less(b, c),
    ensures
        chars_less(a, c),
    decreases a.len(),
{
    if a.len() > 0 && b.len() > 0 && c.len() > 0 && a[0] == b[0] && b[0] == c[0] {
        lemma_chars_less_transitive(a.drop_first(), b.drop_first(), c.drop_first());
    }
}

/// Two different sequences are ordered one way or the other.
pub proof fn lemma_chars_less_total(a: Seq<char>, b: Seq<char>)
    requires
        a != b,
    ensures
        chars_less(a, b) || chars_less(b, a),
    decreases a.len(),
{
    if a.len() > 0 && b.len() > 0 {
        if a[0] == b[0] {
            if a.drop_first() == b.drop_first() {
                assert(a =~= seq![a[0]] + a.drop_first());
                assert(b =~= seq![b[0]] + b.drop_first());
            }
            lemma_chars_less_total(a.drop_first(), b.drop_first());
        } else {
            assert((a[0] as int) != (b[0] as int));
        }
    } else if a.len() == 0 && b.len() == 0 {
        assert(a =~= b);
    }
}

/// Whether `a` sorts strictly before `b`, as `a < b` does on `String`s.
pub fn str_less(a: &str, b: &str) -> (r: bool)
    ensures
        r == chars_less(a@, b@),
{
    let x = chars_of(a);
    let y = chars_of(b);
    let mut i: usize = 0;
    assert(x@.skip(0) =~= x@);
    assert(y@.skip(0) =~= y@);
    while i < x.len() && i < y.len() && x[i] == y[i]
        invariant
            x@ == a@,
            y@ == b@,
            i <= x.len(),
            i <= y.len(),
            chars_less(a@, b@) == chars_less(x@.skip(i as int), y@.skip(i as int)),
        decreases x.len() - i,
    {
        assert(x@.skip(i as int).drop_first() =~= x@.skip(i + 1));
        assert(y@.skip(i as int).drop_first() =~= y@.skip(i + 1));
        i = i + 1;
    }
    assert(x@.skip(0) =~= x@);
    assert(y@.skip(0) =~= y@);
    if i == x.len() {
        i < y.len()
    } else if i == y.len() {
        false
    } else {
        assert(x@.skip(i as int)[0] == x@[i as int]);
        assert(y@.skip(i as int)[0] == y@[i as int]);
        x[i] < y[i]
    }
}

/// The views of a sequence of strings.
pub open spec fn str_views(v: Seq<String>) -> Seq<Seq<char>> {
    v.map_values(|s: String| s@)
}

/// Strictly increasing, hence without repeats.
pub open spec fn strictly_sorted(s: Seq<Seq<char>>) -> bool {
    forall|i: int, j: int| 0 <= i < j < s.len() ==> chars_less(#[trigger] s[i], #[trigger] s[j])
}

/// Strictly increasing ports.
pub open spec fn ports_strictly_sorted(s: Seq<u16>) -> bool {
    forall|i: int, j: int| 0 <= i < j < s.len() ==> #[trigger] s[i] < #[trigger] s[j]
}

/// Adds `x` to the sorted set of strings `v`, keeping it strictly sorted.
pub fn insert_sorted_str(v: &mut Vec<String>, x: &String)
    requires
        strictly_sorted(str_views(old(v)@)),
    ensures
        strictly_sorted(str_views(final(v)@)),
        str_views(final(v)@).to_set() == str_views(old(v)@).to_set().insert(x@),
{
    let ghost s0 = str_views(v@);
    let mut p: usize = 0;
    while p < v.len() && str_less(v[p].as_str(), x.as_str())
        invariant
            s0 == str_views(v@),
            p <= v.len(),
            forall|k: int| 0 <= k < p ==> chars_less(#[trigger] s0[k], x@),
        decreases v.len() - p,
    {
        p = p + 1;
    }
    if p < v.len() && v[p] == *x {
        assert(s0.to_set() =~= s0.to_set().insert(x@)) by {
            assert(s0[p as int] == x@);
        }
        return;
    }
    // every later element is strictly greater than `x`
    assert forall|k: int| p <= k < s0.len() implies chars_less(x@, #[trigger] s0[k]) by {
        if k == p {
            assert(s0[k] != x@);
            lemma_chars_less_total(s0[k], x@);
        } else {
            assert(s0[p as int] != x@);
            lemma_chars_less_total(s0[p as int], x@);
            lemma_chars_less_transitive(x@, s0[p as int], s0[k]);
        }
    }
    v.insert(p, x.clone());
    let ghost s1 = str_views(v@);
    assert(s1 =~= s0.insert(p as int, x@));
    assert forall|i: int, j: int| 0 <= i < j < s1.len() implies chars_less(
        #[trigger] s1[i],
        #[trigger] s1[j],
    ) by {
        if j < p {
        } else if j == p {
        } else if i < p {
            lemma_chars_less_transitive(s1[i], x@, s1[j]);
        } else if i == p {
        } else {
        }
    }
    assert(s1.to_set() =~= s0.to_set().insert(x@)) by {
        assert forall|y: Seq<char>| s1.to_set().contains(y) implies s0.to_set().insert(x@).contains(y) by {
            let k = choose|k: int| 0 <= k < s1.len() && s1[k] == y;
            if k < p {
                assert(s0[k] == y);
            } else if k > p {
                assert(s0[k - 1] == y);
            }
        }
        assert forall|y: Seq<char>| s0.to_set().insert(x@).contains(y) implies s1.to_set().contains(y) by {
            if y == x@ {
                assert(s1[p as int] == y);
            } else {
                let k = choose|k: int| 0 <= k < s0.len() && s0[k] == y;
                if k < p {
                    assert(s1[k] == y);
                } else {
                    assert(s1[k + 1] == y);
                }
            }
        }
    }
}

/// Adds `x` to the sorted set of ports `v`, keeping it strictly sorted.
pub fn insert_sorted_port(v: &mut Vec<u16>, x: u16)
    requires
        ports_strictly_sorted(old(v)@),
    ensures
        ports_strictly_sorted(final(v)@),
        final(v)@.to_set() == old(v)@.to_set().insert(x),
{
    let ghost s0 = v@;
    let mut p: usize = 0;
    while p < v.len() && v[p] < x
        invariant
            s0 == v@,
            p <= v.len(),
            forall|k: int| 0 <= k < p ==> #[trigger] s0[k] < x,
        decreases v.len() - p,
    {
        p = p + 1;
    }
    if p < v.len() && v[p] == x {
        assert(s0.to_set() =~= s0.to_set().insert(x)) by {
            assert(s0[p as int] == x);
        }
        return;
    }
    v.insert(p, x);
    let ghost s1 = v@;
    assert(s1 =~= s0.insert(p as int, x));
    assert forall|i: int, j: int| 0 <= i < j < s1.len() implies #[trigger] s1[i] < #[trigger] s1[j] by {
        if p < s0.len() {
            assert(x < s0[p as int]);
        }
        if i > p {
            assert(s0[i - 1] < s0[j - 1]);
        } else if i == p && j > p {
            assert(s0[p as int] <= s0[j - 1]) by {
                if j - 1 > p {
                    assert(s0[p as int] < s0[j - 1]);
                }
            }
        } else if i < p && j > p {
            assert(s0[i] < x);
        }
    }
    assert(s1.to_set() =~= s0.to_set().insert(x)) by {
        assert forall|y: u16| s1.to_set().contains(y) implies s0.to_set().insert(x).contains(y) by {
            let k = choose|k: int| 0 <= k < s1.len() && s1[k] == y;
            if k < p {
                assert(s0[k] == y);
            } else if k > p {
                assert(s0[k - 1] == y);
            }
        }
        assert forall|y: u16| s0.to_set().insert(x).contains(y) implies s1.to_set().contains(y) by {
            if y == x {
                assert(s1[p as int] == y);
            } else {
                let k = choose|k: int| 0 <= k < s0.len() && s0[k] == y;
                if k < p {
                    assert(s1[k] == y);
                } else {
                    assert(s1[k + 1] == y);
                }
            }
        }
    }
}

} // verus!
