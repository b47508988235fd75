use vstd::prelude::*;

verus! {

/// Length of the longest common prefix of two byte strings.
pub open spec fn lcp(a: Seq<u8>, b: Seq<u8>) -> nat
    decreases a.len(),
{
    if a.len() == 0 || b.len() == 0 || a[0] != b[0] {
        0
    } else {
        1 + lcp(a.drop_first(), b.drop_first())
    }
}

/// Strict lexicographic order on byte strings: a proper prefix comes first,
/// otherwise the first differing byte decides.
pub open spec fn lex_lt(a: Seq<u8>, b: Seq<u8>) -> bool {
    let k = lcp(a, b);
    (k == a.len() && k < b.len()) || (k < a.len() && k < b.len() && a[k as int] < b[k as int])
}

/// `p` is a prefix of `s`.
pub open spec fn has_prefix(s: Seq<u8>, p: Seq<u8>) -> bool {
    p.len() <= s.len() && s.take(p.len() as int) == p
}

pub proof fn lemma_lcp_props(a: Seq<u8>, b: Seq<u8>)
    ensures
        lcp(a, b) <= a.len(),
        lcp(a, b) <= b.len(),
        forall|j: int| 0 <= j < lcp(a, b) ==> a[j] == b[j],
        lcp(a, b) < a.len() && lcp(a, b) < b.len() ==> a[lcp(a, b) as int] != b[lcp(a, b) as int],
    decreases a.len(),
{
    if a.len() == 0 || b.len() == 0 || a[0] != b[0] {
    } else {
        lemma_lcp_props(a.drop_first(), b.drop_first());
        assert forall|j: int| 0 <= j < lcp(a, b) implies a[j] == b[j] by {
            if j > 0 {
                assert(a[j] == a.drop_first()[j - 1]);
                assert(b[j] == b.drop_first()[j - 1]);
            }
        }
        let k = lcp(a, b);
        if k < a.len() && k < b.len() {
            assert(a[k as int] == a.drop_first()[k - 1]);
            assert(b[k as int] == b.drop_first()[k - 1]);
        }
    }
}

/// The common prefix length is the first position where the strings differ or one ends.
pub proof fn lemma_lcp_unique(a: Seq<u8>, b: Seq<u8>, k: nat)
    requires
        k <= a.len(),
        k <= b.len(),
        forall|j: int| 0 <= j < k ==> a[j] == b[j],
        k == a.len() || k == b.len() || a[k as int] != b[k as int],
    ensures
        lcp(a, b) == k,
{
    lemma_lcp_props(a, b);
    let l = lcp(a, b);
    if l < k {
        assert(a[l as int] == b[l as int]);
    } else if l > k {
        assert(a[k as int] == b[k as int]);
    }
}

pub proof fn lemma_lcp_sym(a: Seq<u8>, b: Seq<u8>)
    ensures
        lcp(a, b) == lcp(b, a),
{
    lemma_lcp_props(a, b);
    lemma_lcp_unique(b, a, lcp(a, b));
}

/// Agreement on a prefix of length `c` is the same as a common prefix of length at least `c`.
pub proof fn lemma_lcp_at_least(a: Seq<u8>, b: Seq<u8>, c: nat)
    requires
        c <= a.len(),
        c <= b.len(),
    ensures
        lcp(a, b) >= c <==> a.take(c as int) == b.take(c as int),
{
    lemma_lcp_props(a, b);
    if lcp(a, b) >= c {
        assert(a.take(c as int) =~= b.take(c as int));
    }
    if a.take(c as int) == b.take(c as int) {
        if lcp(a, b) < c {
            let l = lcp(a, b) as int;
            assert(a.take(c as int)[l] == b.take(c as int)[l]);
        }
    }
}

/// A proper prefix comes first.
pub proof fn lemma_prefix_lt(p: Seq<u8>, q: Seq<u8>)
    requires
        has_prefix(q, p),
        p.len() < q.len(),
    ensures
        lex_lt(p, q),
{
    assert forall|j: int| 0 <= j < p.len() implies p[j] == q[j] by {
        assert(q.take(p.len() as int)[j] == q[j]);
    }
    lemma_lcp_unique(p, q, p.len());
}

/// Extensions of `p.push(b1)` come before extensions of `p.push(b2)` when `b1 < b2`.
pub proof fn lemma_branch_lt(x: Seq<u8>, y: Seq<u8>, p: Seq<u8>, b1: u8, b2: u8)
    requires
        has_prefix(x, p.push(b1)),
        has_prefix(y, p.push(b2)),
        b1 < b2,
    ensures
        lex_lt(x, y),
{
    let n = p.len() as int;
    assert forall|j: int| 0 <= j < n implies x[j] == y[j] by {
        assert(x.take(n + 1)[j] == p.push(b1)[j]);
        assert(y.take(n + 1)[j] == p.push(b2)[j]);
    }
    assert(x.take(n + 1)[n] == b1);
    assert(y.take(n + 1)[n] == b2);
    lemma_lcp_unique(x, y, p.len());
}

pub proof fn lemma_lt_asym(a: Seq<u8>, b: Seq<u8>)
    requires
        lex_lt(a, b),
    ensures
        !lex_lt(b, a),
        a != b,
{
    lemma_lcp_sym(a, b);
    lemma_lcp_props(a, b);
}

/// Nothing comes before the empty string.
pub proof fn lemma_nothing_below_empty(a: Seq<u8>)
    ensures
        !lex_lt(a, Seq::<u8>::empty()),
{
    lemma_lcp_props(a, Seq::<u8>::empty());
}

/// The strings with a given prefix form an interval of the order.
pub proof fn lemma_interval(a: Seq<u8>, b: Seq<u8>, c: Seq<u8>, s: Seq<u8>)
    requires
        lex_lt(a, b),
        lex_lt(b, c),
        has_prefix(a, s),
        has_prefix(c, s),
    ensures
        has_prefix(b, s),
{
    lemma_lcp_props(a, b);
    lemma_lcp_props(b, c);
    let k1 = lcp(a, b);
    let k2 = lcp(b, c);
    let n = s.len();
    if !has_prefix(b, s) {
        // first position where b leaves s
        if k1 >= n {
            assert(b.take(n as int) =~= s) by {
                assert forall|j: int| 0 <= j < n implies b[j] == s[j] by {
                    assert(a.take(n as int)[j] == a[j]);
                }
            }
        } else if k2 >= n {
            assert(b.take(n as int) =~= s) by {
                assert forall|j: int| 0 <= j < n implies b[j] == s[j] by {
                    assert(c.take(n as int)[j] == c[j]);
                }
            }
        } else {
            // k1 < n and k2 < n
            assert(a.take(n as int)[k1 as int] == s[k1 as int]);
            assert(c.take(n as int)[k2 as int] == s[k2 as int]);
            if k1 < k2 {
                assert(c.take(n as int)[k1 as int] == s[k1 as int]);
                assert(b[k1 as int] == c[k1 as int]);
            } else if k2 < k1 {
                assert(a.take(n as int)[k2 as int] == s[k2 as int]);
                assert(b[k2 as int] == a[k2 as int]);
            } else {
            }
        }
    }
}

/// The common prefix of the ends of an increasing triple is the smaller one of the two steps.
pub proof fn lemma_lcp_min(a: Seq<u8>, b: Seq<u8>, c: Seq<u8>)
    requires
        lex_lt(a, b),
        lex_lt(b, c),
    ensures
        lcp(a, c) == if lcp(a, b) <= lcp(b, c) { lcp(a, b) } else { lcp(b, c) },
{
    lemma_lcp_props(a, b);
    lemma_lcp_props(b, c);
    lemma_lcp_props(a, c);
    let k1 = lcp(a, b);
    let k2 = lcp(b, c);
    let k = if k1 <= k2 { k1 } else { k2 };
    let l = lcp(a, c);
    if l < k {
        assert(a[l as int] == b[l as int]);
        assert(b[l as int] == c[l as int]);
    } else if l > k {
        let s = a.take((k + 1) as int);
        assert(c.take((k + 1) as int) =~= s);
        lemma_interval(a, b, c, s);
        assert(b.take((k + 1) as int)[k as int] == s[k as int]);
        if k1 <= k2 {
            assert(a[k as int] == s[k as int]);
        } else {
            assert(c.take((k + 1) as int)[k as int] == c[k as int]);
        }
    }
}

/// The order is transitive.
pub proof fn lemma_lt_trans(a: Seq<u8>, b: Seq<u8>, c: Seq<u8>)
    requires
        lex_lt(a, b),
        lex_lt(b, c),
    ensures
        lex_lt(a, c),
{
    lemma_lcp_props(a, b);
    lemma_lcp_props(b, c);
    lemma_lcp_min(a, b, c);
}

/// Two different strings are ordered one way or the other.
pub proof fn lemma_lt_total(a: Seq<u8>, b: Seq<u8>)
    ensures
        a == b || lex_lt(a, b) || lex_lt(b, a),
{
    lemma_lcp_props(a, b);
    lemma_lcp_sym(a, b);
    let k = lcp(a, b);
    if k == a.len() && k == b.len() {
        assert(a =~= b);
    }
}

/// The listing of a set of keys by increasing order is unique.
pub proof fn lemma_sorted_unique(k1: Seq<Seq<u8>>, k2: Seq<Seq<u8>>)
    requires
        forall|i: int, j: int| 0 <= i < j < k1.len() ==> lex_lt(k1[i], k1[j]),
        forall|i: int, j: int| 0 <= i < j < k2.len() ==> lex_lt(k2[i], k2[j]),
        forall|x: Seq<u8>| k1.contains(x) <==> k2.contains(x),
    ensures
        k1 == k2,
    decreases k1.len(),
{
    if k1.len() == 0 {
        if k2.len() > 0 {
            assert(k2.contains(k2[0]));
        }
        assert(k1 =~= k2);
    } else {
        assert(k1.contains(k1[0]));
        let j = choose|j: int| 0 <= j < k2.len() && k2[j] == k1[0];
        assert(k2.contains(k2[0]));
        let i = choose|i: int| 0 <= i < k1.len() && k1[i] == k2[0];
        if j > 0 {
            if i == 0 {
                lemma_lt_asym(k2[0], k2[j]);
            } else {
                lemma_lt_asym(k2[0], k2[j]);
                assert(lex_lt(k1[0], k1[i]));
            }
        }
        assert(k2[0] == k1[0]);
        let r1 = k1.drop_first();
        let r2 = k2.drop_first();
        assert forall|x: Seq<u8>| r1.contains(x) <==> r2.contains(x) by {
            if r1.contains(x) {
                let a = choose|a: int| 0 <= a < r1.len() && r1[a] == x;
                assert(k1[a + 1] == x);
                assert(k1.contains(x));
                let b = choose|b: int| 0 <= b < k2.len() && k2[b] == x;
                lemma_lt_asym(k1[0], k1[a + 1]);
                assert(b != 0);
                assert(r2[b - 1] == x);
            }
            if r2.contains(x) {
                let a = choose|a: int| 0 <= a < r2.len() && r2[a] == x;
                assert(k2[a + 1] == x);
                assert(k2.contains(x));
                let b = choose|b: int| 0 <= b < k1.len() && k1[b] == x;
                lemma_lt_asym(k2[0], k2[a + 1]);
                assert(b != 0);
                assert(r1[b - 1] == x);
            }
        }
        lemma_sorted_unique(r1, r2);
        assert(k1 =~= k2) by {
            assert forall|t: int| 0 <= t < k1.len() implies k1[t] == k2[t] by {
                if t > 0 {
                    assert(k1[t] == r1[t - 1]);
                    assert(k2[t] == r2[t - 1]);
                }
            }
        }
    }
}

} // verus!
