//! Permutations over `0..n` and their inversion.

use vstd::prelude::*;
use vstd::set_lib::{lemma_int_range, lemma_len_subset, set_int_range};
use vstd::seq_lib::seq_to_set_is_finite;

verus! {

/// The values are a bijection of `0..len`: each below the length, no two
/// equal.
pub open spec fn is_permutation(s: Seq<usize>) -> bool {
    &&& forall|i: int| 0 <= i < s.len() ==> (#[trigger] s[i]) < s.len()
    &&& forall|i: int, j: int| 0 <= i < j < s.len() ==> s[i] != s[j]
}

/// `w` sends each value of `p` back to its position.
pub open spec fn is_inverse(p: Seq<usize>, w: Seq<usize>) -> bool {
    &&& w.len() == p.len()
    &&& forall|i: int| 0 <= i < p.len() ==> (#[trigger] p[i]) < w.len() && w[p[i] as int] == i
}

/// A bijection of `0..len` takes every value below the length: the
/// pigeonhole argument.
pub proof fn lemma_permutation_surjective(s: Seq<usize>, v: int) -> (i: int)
    requires
        is_permutation(s),
        0 <= v < s.len(),
    ensures
        0 <= i < s.len() && s[i] == v,
{
    broadcast use vstd::set::group_set_axioms;

    let n = s.len() as int;
    let si = s.map_values(|x: usize| x as int);
    assert forall|i: int, j: int| 0 <= i < j < si.len() implies si[i] != si[j] by {
        assert(s[i] != s[j]);
    }
    assert(si.no_duplicates());
    let a = si.to_set();
    si.unique_seq_to_set();
    seq_to_set_is_finite(si);
    let b = set_int_range(0, n);
    lemma_int_range(0, n);
    if !(exists|i: int| 0 <= i < si.len() && si[i] == v) {
        let b2 = b.remove(v);
        vstd::set::axiom_set_remove_len(b, v);
        assert forall|x: int| a.contains(x) implies b2.contains(x) by {
            let i = choose|i: int| 0 <= i < si.len() && si[i] == x;
            assert(0 <= si[i] < n && si[i] != v);
        }
        lemma_len_subset(a, b2);
        assert(b2.len() == n - 1);
        assert(false);
    }
    let i = choose|i: int| 0 <= i < si.len() && si[i] == v;
    assert(s[i] == v);
    i
}

/// Replaces a permutation by its inverse: afterwards slot `v` holds the
/// position that `v` occupied before.
pub fn invert_in_place(perm: &mut Vec<usize>)
    requires
        is_permutation(old(perm)@),
    ensures
        final(perm)@.len() == old(perm)@.len(),
        is_permutation(final(perm)@),
        is_inverse(old(perm)@, final(perm)@),
        forall|j: int|
            0 <= j < final(perm)@.len() ==> old(perm)@[(#[trigger] final(perm)@[j]) as int] == j,
{
    let ghost p0 = perm@;
    let n = perm.len();
    let mut out: Vec<usize> = Vec::new();
    let mut i: usize = 0;
    while i < n
        invariant
            i <= n,
            out@.len() == i,
            forall|k: int| 0 <= k < i ==> (#[trigger] out@[k]) < n,
        decreases n - i,
    {
        out.push(0);
        i = i + 1;
    }
    let mut k: usize = 0;
    while k < n
        invariant
            k <= n,
            n == p0.len(),
            perm@ == p0,
            is_permutation(p0),
            out@.len() == n,
            forall|q: int| 0 <= q < n ==> (#[trigger] out@[q]) < n,
            forall|t: int| 0 <= t < k ==> out@[(#[trigger] p0[t]) as int] == t,
        decreases n - k,
    {
        let slot = perm[k];
        out.set(slot, k);
        proof {
            assert forall|t: int| 0 <= t < k + 1 implies out@[(#[trigger] p0[t]) as int] == t by {
                if t < k {
                    assert(p0[t] != p0[k as int]);
                }
            }
        }
        k = k + 1;
    }
    proof {
        assert forall|j: int| 0 <= j < n implies p0[(#[trigger] out@[j]) as int] == j by {
            let i0 = lemma_permutation_surjective(p0, j);
            assert(out@[p0[i0] as int] == i0);
        }
        assert forall|a: int, b: int| 0 <= a < b < n implies out@[a] != out@[b] by {
            assert(p0[out@[a] as int] == a && p0[out@[b] as int] == b);
        }

    }
    let mut out_m = out;
    core::mem::swap(perm, &mut out_m);
}

/// Inverting twice gives back the permutation: inversion is an involution.
pub proof fn lemma_invert_involutive(p: Seq<usize>, w: Seq<usize>, v: Seq<usize>)
    requires
        is_permutation(p),
        is_inverse(p, w),
        is_inverse(w, v),
    ensures
        v =~= p,
{
    assert forall|i: int| 0 <= i < p.len() implies v[i] == p[i] by {
        assert(w[p[i] as int] == i);
        assert(v[w[p[i] as int] as int] == p[i] as int);
    }
}

} // verus!
