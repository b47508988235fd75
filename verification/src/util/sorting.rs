//! Sorting items by byte-string keys.
use vstd::prelude::*;
use vstd::seq_lib::{to_multiset_build, to_multiset_insert};
use crate::util::lexicographic::{lemma_lt_asym, lemma_lt_trans, lex_lt};
use crate::util::strings::bytes_lt;

verus! {

/// Items that are ordered by a byte string.
pub trait ByteKey {
    /// The key of the item.
    spec fn byte_key(&self) -> Seq<u8>;

    /// The key of the item.
    fn key_bytes(&self) -> (r: &[u8])
        ensures
            r@ == self.byte_key(),
    ;
}

/// A pair is ordered by its first component.
impl<T> ByteKey for (Vec<u8>, T) {
    open spec fn byte_key(&self) -> Seq<u8> {
        self.0@
    }

    fn key_bytes(&self) -> (r: &[u8]) {
        self.0.as_slice()
    }
}

/// The keys of `s` never decrease.
pub open spec fn keys_sorted<T: ByteKey>(s: Seq<T>) -> bool {
    forall|i: int, j: int| 0 <= i < j < s.len() ==> !lex_lt(#[trigger] s[j].byte_key(), #[trigger] s[i].byte_key())
}

/// Where an item goes in a sorted sequence: after every item whose key is not greater than
/// its own.
pub open spec fn insertion_point<T: ByteKey>(s: Seq<T>, x: T) -> int
    decreases s.len(),
{
    if s.len() == 0 {
        0
    } else if lex_lt(x.byte_key(), s[0].byte_key()) {
        0
    } else {
        1 + insertion_point(s.drop_first(), x)
    }
}

/// The items sorted by key, items with equal keys in their original order: each item in turn
/// goes after the sorted items whose keys are not greater than its own.
pub open spec fn stable_sorted<T: ByteKey>(items: Seq<T>) -> Seq<T>
    decreases items.len(),
{
    if items.len() == 0 {
        seq![]
    } else {
        let s = stable_sorted(items.drop_last());
        s.insert(insertion_point(s, items.last()), items.last())
    }
}

/// The insertion point is the first position whose key is greater than the item's.
proof fn lemma_insertion_point<T: ByteKey>(s: Seq<T>, x: T, p: int)
    requires
        0 <= p <= s.len(),
        forall|q: int| 0 <= q < p ==> !lex_lt(x.byte_key(), #[trigger] s[q].byte_key()),
        p < s.len() ==> lex_lt(x.byte_key(), s[p].byte_key()),
    ensures
        insertion_point(s, x) == p,
    decreases p,
{
    if p > 0 {
        assert forall|q: int| 0 <= q < p - 1 implies !lex_lt(x.byte_key(), #[trigger] s.drop_first()[q].byte_key()) by {
            assert(s.drop_first()[q] == s[q + 1]);
        }
        if p - 1 < s.drop_first().len() {
            assert(s.drop_first()[p - 1] == s[p]);
        }
        lemma_insertion_point(s.drop_first(), x, p - 1);
        assert(!lex_lt(x.byte_key(), s[0].byte_key()));
    }
}

/// The insertion point lies within the sequence, after the items not greater than the item
/// and before a greater one.
proof fn lemma_insertion_point_bounds<T: ByteKey>(s: Seq<T>, x: T)
    ensures
        0 <= insertion_point(s, x) <= s.len(),
        forall|q: int| 0 <= q < insertion_point(s, x) ==> !lex_lt(x.byte_key(), #[trigger] s[q].byte_key()),
        insertion_point(s, x) < s.len() ==> lex_lt(x.byte_key(), s[insertion_point(s, x)].byte_key()),
    decreases s.len(),
{
    if s.len() > 0 && !lex_lt(x.byte_key(), s[0].byte_key()) {
        lemma_insertion_point_bounds(s.drop_first(), x);
        assert forall|q: int| 0 <= q < insertion_point(s, x) implies !lex_lt(x.byte_key(), #[trigger] s[q].byte_key()) by {
            if q > 0 {
                assert(s[q] == s.drop_first()[q - 1]);
            }
        }
        if insertion_point(s, x) < s.len() {
            assert(s[insertion_point(s, x)] == s.drop_first()[insertion_point(s, x) - 1]);
        }
    }
}

/// Sorting keeps the items and orders their keys.
pub proof fn lemma_stable_sorted<T: ByteKey>(items: Seq<T>)
    ensures
        keys_sorted(stable_sorted(items)),
        stable_sorted(items).to_multiset() == items.to_multiset(),
        stable_sorted(items).len() == items.len(),
    decreases items.len(),
{
    if items.len() == 0 {
        assert(stable_sorted(items).to_multiset() =~= items.to_multiset()) by {
            broadcast use vstd::seq_lib::group_to_multiset_ensures;
        }
    } else {
        let rest = items.drop_last();
        let x = items.last();
        lemma_stable_sorted(rest);
        let s = stable_sorted(rest);
        let p = insertion_point(s, x);
        lemma_insertion_point_bounds(s, x);
        let out = s.insert(p, x);
        to_multiset_insert(s, p, x);
        to_multiset_build(rest, x);
        assert(rest.push(x) =~= items);
        assert forall|i: int, j: int| 0 <= i < j < out.len() implies !lex_lt(#[trigger] out[j].byte_key(), #[trigger] out[i].byte_key()) by {
            if j < p {
                assert(out[i] == s[i] && out[j] == s[j]);
            } else if j == p {
                assert(out[i] == s[i]);
            } else if i > p {
                assert(out[i] == s[i - 1] && out[j] == s[j - 1]);
            } else if i == p {
                assert(out[j] == s[j - 1]);
                if lex_lt(out[j].byte_key(), x.byte_key()) {
                    lemma_lt_trans(s[j - 1].byte_key(), x.byte_key(), s[p].byte_key());
                    if j - 1 == p {
                        lemma_lt_asym(s[p].byte_key(), s[p].byte_key());
                    }
                }
            } else {
                assert(out[i] == s[i] && out[j] == s[j - 1]);
            }
        }
    }
}

/// The items of `items` sorted by key, items with equal keys in their original order.
pub fn sort_by_key_bytes<T: ByteKey>(items: Vec<T>) -> (r: Vec<T>)
    ensures
        r@ == stable_sorted(items@),
        keys_sorted(r@),
        r@.to_multiset() == items@.to_multiset(),
{
    let ghost all = items@;
    let mut rest = items;
    let mut out: Vec<T> = Vec::new();
    let mut k: usize = 0;
    let n = rest.len();
    proof {
        assert(all.skip(0) =~= all);
        assert(all.take(0) =~= Seq::<T>::empty());
    }
    while rest.len() > 0
        invariant
            k <= all.len(),
            all.len() == n,
            rest@ == all.skip(k as int),
            out@ == stable_sorted(all.take(k as int)),
        decreases rest@.len(),
    {
        let x = rest.remove(0);
        proof {
            assert(x == all[k as int]);
            assert(rest@ =~= all.skip(k + 1));
            assert(all.take(k + 1).drop_last() =~= all.take(k as int));
            assert(all.take(k + 1).last() == x);
        }
        let mut p: usize = 0;
        while p < out.len() && !bytes_lt(x.key_bytes(), out[p].key_bytes())
            invariant
                p <= out@.len(),
                forall|q: int| 0 <= q < p ==> !lex_lt(x.byte_key(), #[trigger] out@[q].byte_key()),
            decreases out@.len() - p,
        {
            p += 1;
        }
        proof {
            lemma_insertion_point(out@, x, p as int);
        }
        out.insert(p, x);
        k += 1;
    }
    proof {
        assert(all.take(k as int) =~= all);
        lemma_stable_sorted(all);
    }
    out
}

} // verus!
