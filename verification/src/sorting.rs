//! A verified ascending sort for vectors of words, used by the decoder to
//! merge the copied, interval and residual runs of a record.

use vstd::prelude::*;
use vstd::relations::{sorted_by, total_ordering};
use vstd::seq_lib::lemma_sorted_unique;

verus! {

/// The ascending order on 64-bit words.
pub open spec fn u64_le() -> spec_fn(u64, u64) -> bool {
    |a: u64, b: u64| a <= b
}

/// The ascending order on words is a total order.
pub proof fn lemma_u64_le_total()
    ensures
        total_ordering(u64_le()),
{
}

/// Inserts `x` into a sorted vector, keeping it sorted.
fn sorted_insert(out: &mut Vec<u64>, x: u64)
    requires
        sorted_by(old(out)@, u64_le()),
        old(out)@.len() < usize::MAX,
    ensures
        sorted_by(final(out)@, u64_le()),
        final(out)@.to_multiset() == old(out)@.to_multiset().insert(x),
        final(out)@.len() == old(out)@.len() + 1,
{
    let ghost s0 = out@;
    let mut p: usize = 0;
    while p < out.len() && out[p] <= x
        invariant
            out@ == s0,
            p <= s0.len(),
            forall|q: int| 0 <= q < p ==> s0[q] <= x,
        decreases s0.len() - p,
    {
        p = p + 1;
    }
    proof {
        if p < s0.len() {
            assert(s0[p as int] > x);
        }
    }
    out.insert(p, x);
    proof {
        let s1 = out@;
        assert(s1 == s0.insert(p as int, x));
        assert forall|i: int, j: int| 0 <= i < j < s1.len() implies u64_le()(s1[i], s1[j]) by {
            if j < p {
                assert(s1[i] == s0[i] && s1[j] == s0[j]);
            } else if i > p {
                assert(s1[i] == s0[i - 1] && s1[j] == s0[j - 1]);
            } else if i < p && j == p {
                assert(s1[i] == s0[i] && s1[j] == x);
            } else if i == p && j > p {
                assert(s1[i] == x && s1[j] == s0[j - 1]);
                if p < s0.len() {
                    assert(u64_le()(s0[p as int], s0[j - 1]) || p as int == j - 1);
                }
            } else if i < p && j > p {
                assert(s1[i] == s0[i] && s1[j] == s0[j - 1]);
                if p < s0.len() {
                    assert(u64_le()(s0[i], s0[j - 1]));
                }
            }
        }
        vstd::seq_lib::to_multiset_insert(s0, p as int, x);
    }
}

/// Returns the values of `v` in ascending order.
pub fn sort_vec(v: &Vec<u64>) -> (r: Vec<u64>)
    ensures
        sorted_by(r@, u64_le()),
        r@.to_multiset() == v@.to_multiset(),
        r@ == v@.sort_by(u64_le()),
        r@.len() == v@.len(),
{
    let mut out: Vec<u64> = Vec::new();
    let mut i: usize = 0;
    proof {
        assert(v@.subrange(0, 0) =~= Seq::<u64>::empty());
        Seq::<u64>::empty().to_multiset_ensures();
    }
    while i < v.len()
        invariant
            i <= v@.len(),
            sorted_by(out@, u64_le()),
            out@.len() == i,
            out@.to_multiset() == v@.subrange(0, i as int).to_multiset(),
        decreases v@.len() - i,
    {
        sorted_insert(&mut out, v[i]);
        proof {
            assert(v@.subrange(0, i + 1) =~= v@.subrange(0, i as int).push(v@[i as int]));
            vstd::seq_lib::to_multiset_build(v@.subrange(0, i as int), v@[i as int]);
        }
        i = i + 1;
    }
    proof {
        assert(v@.subrange(0, v@.len() as int) =~= v@);
        lemma_u64_le_total();
        v@.lemma_sort_by_ensures(u64_le());
        lemma_sorted_unique(out@, v@.sort_by(u64_le()), u64_le());
        vstd::seq_lib::to_multiset_len(v@);
        vstd::seq_lib::to_multiset_len(v@.sort_by(u64_le()));
        vstd::seq_lib::to_multiset_len(out@);
    }
    out
}

} // verus!

verus! {

/// A sequence already in ascending order is its own sort.
pub proof fn lemma_sort_id(s: Seq<u64>)
    requires
        sorted_by(s, u64_le()),
    ensures
        s.sort_by(u64_le()) == s,
{
    lemma_u64_le_total();
    s.lemma_sort_by_ensures(u64_le());
    lemma_sorted_unique(s.sort_by(u64_le()), s, u64_le());
    assert(s.sort_by(u64_le()) =~= s);
}

} // verus!
