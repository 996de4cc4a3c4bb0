//! The layered label propagation driver: for each resolution γ, iterate a
//! randomized relabeling pass until no label moves, score each candidate
//! labeling by the log-gap cost of the permuted graph, and combine the
//! labelings from the best cost upward.
//!
//! γ is carried as a rational `(num, den)`; a label's score against a
//! count `c` and volume `vol` is `(den + num)·c − num·(vol + 1)` in exact
//! integer arithmetic, which orders candidates exactly as the real-valued
//! score `(1 + γ)·c − γ·(vol + 1)` scaled by `den`.

use vstd::prelude::*;
use vstd::seq_lib::to_multiset_contains;
use rand::Rng;
use rand::SeedableRng;
use crate::gap_cost::compute_log_gap_cost;
use crate::graphs::{permuted_graph_lists, VecGraph};
use crate::label_store::LabelStore;
use crate::perm::{invert_in_place, is_permutation};

verus! {

#[verifier::external_type_specification]
#[verifier::external_body]
pub struct ExStdRng(rand::rngs::StdRng);

/// Relies on rand's `StdRng::seed_from_u64`: a deterministic generator
/// built from a word-sized seed.
#[verifier::external_body]
fn rng_from_seed(seed: u64) -> rand::rngs::StdRng {
    rand::rngs::StdRng::seed_from_u64(seed)
}

/// Relies on rand's `Rng::gen_range`: a value below `n`.
#[verifier::external_body]
fn rng_below(rng: &mut rand::rngs::StdRng, n: usize) -> (r: usize)
    requires
        n > 0,
    ensures
        r < n,
{
    rng.gen_range(0..n)
}

/// Relies on rand's `SliceRandom::shuffle`: a permutation of the slice in
/// place, so the values are kept as a multiset.
#[verifier::external_body]
fn rng_shuffle(rng: &mut rand::rngs::StdRng, v: &mut Vec<usize>)
    ensures
        final(v)@.to_multiset() == old(v)@.to_multiset(),
{
    rand::seq::SliceRandom::shuffle(v.as_mut_slice(), rng)
}

/// The identity permutation of `0..n`.
pub open spec fn spec_identity(n: nat) -> Seq<usize> {
    Seq::new(n, |i: int| i as usize)
}

/// Builds the identity permutation of `0..n`.
pub fn identity_vec(n: usize) -> (r: Vec<usize>)
    ensures
        r@ == spec_identity(n as nat),
        is_permutation(r@),
{
    let mut out: Vec<usize> = Vec::new();
    let mut i: usize = 0;
    while i < n
        invariant
            i <= n,
            out@.len() == i,
            forall|k: int| 0 <= k < i ==> (#[trigger] out@[k]) == k,
        decreases n - i,
    {
        out.push(i);
        i = i + 1;
    }
    proof {
        assert(out@ =~= spec_identity(n as nat));
    }
    out
}

/// A sequence with the same values as a permutation of `0..n` is itself
/// one.
pub proof fn lemma_multiset_permutation(s: Seq<usize>, p: Seq<usize>)
    requires
        is_permutation(p),
        s.to_multiset() == p.to_multiset(),
    ensures
        is_permutation(s),
        s.len() == p.len(),
{
    vstd::seq_lib::to_multiset_len(s);
    vstd::seq_lib::to_multiset_len(p);
    assert(p.no_duplicates()) by {
        assert forall|i: int, j: int|
            0 <= i < p.len() && 0 <= j < p.len() && i != j implies p[i] != p[j] by {
            if i < j {
            } else {
                assert(p[j] != p[i]);
            }
        }
    }
    p.lemma_multiset_has_no_duplicates();
    s.lemma_multiset_has_no_duplicates_conv();
    assert forall|i: int| 0 <= i < s.len() implies (#[trigger] s[i]) < s.len() by {
        to_multiset_contains(s, s[i]);
        to_multiset_contains(p, s[i]);
        let j = choose|j: int| 0 <= j < p.len() && p[j] == s[i];
    }
    assert forall|i: int, j: int| 0 <= i < j < s.len() implies s[i] != s[j] by {}
}

/// Sorts a vector of indices by their keys, ascending; the indices are
/// kept as a multiset.
pub fn sort_indices_by_key(idx: &Vec<usize>, keys: &Vec<u128>) -> (r: Vec<usize>)
    requires
        forall|k: int| 0 <= k < idx@.len() ==> (#[trigger] idx@[k]) < keys@.len(),
    ensures
        r@.to_multiset() == idx@.to_multiset(),
        r@.len() == idx@.len(),
        forall|k: int| 0 <= k < r@.len() ==> (#[trigger] r@[k]) < keys@.len(),
        forall|a: int, b: int|
            0 <= a < b < r@.len() ==> keys@[r@[a] as int] <= keys@[r@[b] as int],
{
    let mut out: Vec<usize> = Vec::new();
    let mut i: usize = 0;
    proof {
        assert(idx@.subrange(0, 0) =~= Seq::<usize>::empty());
        Seq::<usize>::empty().to_multiset_ensures();
        out@.to_multiset_ensures();
    }
    while i < idx.len()
        invariant
            i <= idx@.len(),
            out@.len() == i,
            forall|k: int| 0 <= k < idx@.len() ==> (#[trigger] idx@[k]) < keys@.len(),
            forall|k: int| 0 <= k < out@.len() ==> (#[trigger] out@[k]) < keys@.len(),
            out@.to_multiset() == idx@.subrange(0, i as int).to_multiset(),
            forall|a: int, b: int|
                0 <= a < b < out@.len() ==> keys@[out@[a] as int] <= keys@[out@[b] as int],
        decreases idx@.len() - i,
    {
        let x = idx[i];
        let kx = keys[x];
        let mut p: usize = 0;
        while p < out.len() && keys[out[p]] <= kx
            invariant
                p <= out@.len(),
                forall|k: int| 0 <= k < out@.len() ==> (#[trigger] out@[k]) < keys@.len(),
                forall|q: int| 0 <= q < p ==> keys@[(#[trigger] out@[q]) as int] <= kx,
            decreases out@.len() - p,
        {
            p = p + 1;
        }
        proof {
            if p < out@.len() {
                assert(keys@[out@[p as int] as int] > kx);
            }
        }
        let ghost s0 = out@;
        out.insert(p, x);
        proof {
            let s1 = out@;
            assert(s1 == s0.insert(p as int, x));
            assert forall|a: int, b: int|
                0 <= a < b < s1.len() implies keys@[s1[a] as int] <= keys@[s1[b] as int] by {
                if b < p {
                } else if a > p {
                    assert(s1[a] == s0[a - 1] && s1[b] == s0[b - 1]);
                } else if a < p && b == p {
                    assert(s1[a] == s0[a]);
                } else if a == p && b > p {
                    assert(s1[b] == s0[b - 1]);
                    if p < s0.len() {
                        assert(keys@[s0[p as int] as int] <= keys@[s0[b - 1] as int] || p as int == b
                            - 1);
                    }
                } else if a < p && b > p {
                    assert(s1[a] == s0[a] && s1[b] == s0[b - 1]);
                }
            }
            vstd::seq_lib::to_multiset_insert(s0, p as int, x);
            assert(idx@.subrange(0, i + 1) =~= idx@.subrange(0, i as int).push(idx@[i as int]));
            vstd::seq_lib::to_multiset_build(idx@.subrange(0, i as int), idx@[i as int]);
        }
        i = i + 1;
    }
    proof {
        assert(idx@.subrange(0, idx@.len() as int) =~= idx@);
        vstd::seq_lib::to_multiset_len(out@);
        vstd::seq_lib::to_multiset_len(idx@);
    }
    out
}

/// The refinement pair of node `x`: its class in `result` and its label.
pub open spec fn spec_pair(res: Seq<usize>, lab: Seq<usize>, x: int) -> (int, int) {
    (res[x] as int, lab[x] as int)
}

/// The refinement sort key of node `x`: the class of its label first,
/// then the label, then its own class — packed into one number, which
/// orders exactly as the lexicographic triple does while every component
/// is below `2^32`.
pub open spec fn spec_combine_key(res: Seq<usize>, lab: Seq<usize>, x: int) -> int {
    res[lab[x] as int] * 0x1_0000_0000_0000_0000 + lab[x] * 0x1_0000_0000 + res[x]
}

/// How many distinct refinement pairs the two labelings make.
pub open spec fn spec_pair_count(res: Seq<usize>, lab: Seq<usize>) -> nat {
    Seq::new(res.len(), |x: int| spec_pair(res, lab, x)).to_set().len()
}

/// Two nodes share a sort key exactly when they share a refinement pair.
pub proof fn lemma_key_iff_pair(res: Seq<usize>, lab: Seq<usize>, x: int, y: int)
    requires
        0 <= x < lab.len(),
        0 <= y < lab.len(),
        lab.len() == res.len(),
        res.len() <= 0x1_0000_0000,
        forall|k: int| 0 <= k < res.len() ==> (#[trigger] res[k]) < 0x1_0000_0000,
        forall|k: int| 0 <= k < lab.len() ==> (#[trigger] lab[k]) < res.len(),
    ensures
        spec_combine_key(res, lab, x) == spec_combine_key(res, lab, y) <==> spec_pair(res, lab, x)
            == spec_pair(res, lab, y),
{
    let a = res[lab[x] as int] as int;
    let b = lab[x] as int;
    let c = res[x] as int;
    let a2 = res[lab[y] as int] as int;
    let b2 = lab[y] as int;
    let c2 = res[y] as int;
    if spec_combine_key(res, lab, x) == spec_combine_key(res, lab, y) {
        assert(b == b2 && c == c2) by (nonlinear_arith)
            requires
                a * 0x1_0000_0000_0000_0000 + b * 0x1_0000_0000 + c == a2
                    * 0x1_0000_0000_0000_0000 + b2 * 0x1_0000_0000 + c2,
                0 <= b < 0x1_0000_0000,
                0 <= c < 0x1_0000_0000,
                0 <= b2 < 0x1_0000_0000,
                0 <= c2 < 0x1_0000_0000,
                0 <= a,
                0 <= a2,
        ;
    }
}

/// The number of pair boundaries among the first `t + 1` entries of the
/// visit order `s`: entry 0 opens run 0, and every later entry whose pair
/// differs from its left neighbour opens a new run.
pub open spec fn spec_runs(res: Seq<usize>, lab: Seq<usize>, s: Seq<usize>, t: int) -> nat
    decreases t,
{
    if t <= 0 {
        0
    } else {
        spec_runs(res, lab, s, t - 1) + if spec_pair(res, lab, s[t] as int) == spec_pair(
            res,
            lab,
            s[t - 1] as int,
        ) {
            0nat
        } else {
            1nat
        }
    }
}

/// Run numbers never decrease along the order.
pub proof fn lemma_runs_mono(res: Seq<usize>, lab: Seq<usize>, s: Seq<usize>, t1: int, t2: int)
    requires
        t1 <= t2,
    ensures
        spec_runs(res, lab, s, t1) <= spec_runs(res, lab, s, t2),
    decreases t2 - t1,
{
    if t1 < t2 {
        lemma_runs_mono(res, lab, s, t1, t2 - 1);
    }
}

/// When the order is sorted by key, two entries share a run number
/// exactly when they share a refinement pair.
pub proof fn lemma_runs_iff(res: Seq<usize>, lab: Seq<usize>, s: Seq<usize>, a: int, b: int)
    requires
        0 <= a <= b < s.len(),
        lab.len() == res.len(),
        res.len() <= 0x1_0000_0000,
        forall|k: int| 0 <= k < s.len() ==> (#[trigger] s[k]) < res.len(),
        forall|k: int| 0 <= k < res.len() ==> (#[trigger] res[k]) < 0x1_0000_0000,
        forall|k: int| 0 <= k < lab.len() ==> (#[trigger] lab[k]) < res.len(),
        forall|p: int, q: int|
            0 <= p < q < s.len() ==> spec_combine_key(res, lab, s[p] as int) <= spec_combine_key(
                res,
                lab,
                s[q] as int,
            ),
    ensures
        spec_runs(res, lab, s, a) == spec_runs(res, lab, s, b) <==> spec_pair(res, lab, s[a] as int)
            == spec_pair(res, lab, s[b] as int),
    decreases b - a,
{
    if a == b {
    } else {
        lemma_runs_iff(res, lab, s, a, b - 1);
        lemma_runs_mono(res, lab, s, a, b - 1);
        lemma_key_iff_pair(res, lab, s[b] as int, s[b - 1] as int);
        lemma_key_iff_pair(res, lab, s[a] as int, s[b] as int);
        lemma_key_iff_pair(res, lab, s[a] as int, s[b - 1] as int);
        if spec_pair(res, lab, s[b] as int) == spec_pair(res, lab, s[b - 1] as int) {
            // no boundary at b: both sides carry over from b - 1
        } else {
            // a boundary at b: the run number grows, and the pair at a
            // cannot equal the pair at b, else the keys from a to b would
            // all agree and so would the pairs at b - 1 and b
            if spec_pair(res, lab, s[a] as int) == spec_pair(res, lab, s[b] as int) {
                assert(spec_combine_key(res, lab, s[a] as int) == spec_combine_key(
                    res,
                    lab,
                    s[b] as int,
                ));
                if a < b - 1 {
                    assert(spec_combine_key(res, lab, s[a] as int) <= spec_combine_key(
                        res,
                        lab,
                        s[b - 1] as int,
                    ));
                }
                assert(spec_combine_key(res, lab, s[b - 1] as int) == spec_combine_key(
                    res,
                    lab,
                    s[b] as int,
                ));
                assert(false);
            }
        }
    }
}

/// Along a key-sorted order, the number of distinct pairs among the first
/// `t + 1` entries is the last run number plus one.
pub proof fn lemma_runs_count(res: Seq<usize>, lab: Seq<usize>, s: Seq<usize>, t: int)
    requires
        0 <= t < s.len(),
        lab.len() == res.len(),
        res.len() <= 0x1_0000_0000,
        forall|k: int| 0 <= k < s.len() ==> (#[trigger] s[k]) < res.len(),
        forall|k: int| 0 <= k < res.len() ==> (#[trigger] res[k]) < 0x1_0000_0000,
        forall|k: int| 0 <= k < lab.len() ==> (#[trigger] lab[k]) < res.len(),
        forall|p: int, q: int|
            0 <= p < q < s.len() ==> spec_combine_key(res, lab, s[p] as int) <= spec_combine_key(
                res,
                lab,
                s[q] as int,
            ),
    ensures
        Seq::new((t + 1) as nat, |i: int| spec_pair(res, lab, s[i] as int)).to_set().len()
            == spec_runs(res, lab, s, t) + 1,
    decreases t,
{
    broadcast use vstd::set::group_set_axioms;

    let ps = Seq::new((t + 1) as nat, |i: int| spec_pair(res, lab, s[i] as int));
    vstd::seq_lib::seq_to_set_is_finite(ps);
    if t == 0 {
        assert(ps =~= Seq::empty().push(spec_pair(res, lab, s[0] as int)));
        assert(ps.to_set() =~= Set::empty().insert(spec_pair(res, lab, s[0] as int))) by {
            assert forall|p: (int, int)| ps.to_set().contains(p) implies Set::empty().insert(
                spec_pair(res, lab, s[0] as int),
            ).contains(p) by {
                let i = choose|i: int| 0 <= i < ps.len() && ps[i] == p;
            }
            assert(ps.contains(ps[0]));
        }
    } else {
        lemma_runs_count(res, lab, s, t - 1);
        let prev = Seq::new(t as nat, |i: int| spec_pair(res, lab, s[i] as int));
        vstd::seq_lib::seq_to_set_is_finite(prev);
        let pt = spec_pair(res, lab, s[t] as int);
        assert(ps =~= prev.push(pt));
        assert(ps.to_set() =~= prev.to_set().insert(pt)) by {
            assert forall|p: (int, int)| ps.to_set().contains(p) implies prev.to_set().insert(
                pt,
            ).contains(p) by {
                let i = choose|i: int| 0 <= i < ps.len() && ps[i] == p;
                if i < t {
                    assert(prev[i] == p);
                }
            }
            assert forall|p: (int, int)| prev.to_set().insert(pt).contains(p) implies ps
                .to_set().contains(p) by {
                if p == pt {
                    assert(ps[t] == p);
                } else {
                    let i = choose|i: int| 0 <= i < prev.len() && prev[i] == p;
                    assert(ps[i] == p);
                }
            }
        }
        if spec_pair(res, lab, s[t] as int) == spec_pair(res, lab, s[t - 1] as int) {
            assert(prev.to_set().contains(pt)) by {
                assert(prev[t - 1] == pt);
            }
            assert(prev.to_set().insert(pt) =~= prev.to_set());
        } else {
            assert(!prev.to_set().contains(pt)) by {
                if prev.to_set().contains(pt) {
                    let i = choose|i: int| 0 <= i < prev.len() && prev[i] == pt;
                    lemma_runs_iff(res, lab, s, i, t);
                    lemma_runs_iff(res, lab, s, i, t - 1);
                    lemma_runs_mono(res, lab, s, i, t - 1);
                    assert(false);
                }
            }
        }
    }
}

/// Refining cannot merge classes: the distinct pairs are at least as many
/// as the distinct values of either input labeling.
pub proof fn lemma_pair_count_lower(res: Seq<usize>, lab: Seq<usize>, t: int)
    requires
        res.len() == lab.len(),
        0 <= t <= res.len(),
    ensures
        Seq::new(t as nat, |x: int| spec_pair(res, lab, x)).to_set().len() >= res.subrange(
            0,
            t,
        ).to_set().len(),
        Seq::new(t as nat, |x: int| spec_pair(res, lab, x)).to_set().len() >= lab.subrange(
            0,
            t,
        ).to_set().len(),
    decreases t,
{
    broadcast use vstd::set::group_set_axioms;

    let ps = Seq::new(t as nat, |x: int| spec_pair(res, lab, x));
    vstd::seq_lib::seq_to_set_is_finite(ps);
    if t == 0 {
        assert(ps.to_set() =~= Set::<(int, int)>::empty());
        assert(res.subrange(0, 0).to_set() =~= Set::<usize>::empty());
        assert(lab.subrange(0, 0).to_set() =~= Set::<usize>::empty());
    } else {
        lemma_pair_count_lower(res, lab, t - 1);
        let pp = Seq::new((t - 1) as nat, |x: int| spec_pair(res, lab, x));
        vstd::seq_lib::seq_to_set_is_finite(pp);
        vstd::seq_lib::seq_to_set_is_finite(res.subrange(0, t - 1));
        vstd::seq_lib::seq_to_set_is_finite(lab.subrange(0, t - 1));
        vstd::seq_lib::seq_to_set_is_finite(res.subrange(0, t));
        vstd::seq_lib::seq_to_set_is_finite(lab.subrange(0, t));
        assert(ps =~= pp.push(spec_pair(res, lab, t - 1)));
        assert(res.subrange(0, t) =~= res.subrange(0, t - 1).push(res[t - 1]));
        assert(lab.subrange(0, t) =~= lab.subrange(0, t - 1).push(lab[t - 1]));
        lemma_push_set(pp, spec_pair(res, lab, t - 1));
        lemma_push_set(res.subrange(0, t - 1), res[t - 1]);
        lemma_push_set(lab.subrange(0, t - 1), lab[t - 1]);
        // a pair that repeats an earlier one repeats both components
        if !pp.to_set().contains(spec_pair(res, lab, t - 1)) {
        } else {
            let i = choose|i: int| 0 <= i < pp.len() && pp[i] == spec_pair(res, lab, t - 1);
            assert(res.subrange(0, t - 1)[i] == res[t - 1]);
            assert(lab.subrange(0, t - 1)[i] == lab[t - 1]);
            assert(res.subrange(0, t - 1).to_set().contains(res[t - 1]));
            assert(lab.subrange(0, t - 1).to_set().contains(lab[t - 1]));
        }
    }
}

/// Pushing a value onto a sequence adds it to the value set.
pub proof fn lemma_push_set<A>(s: Seq<A>, a: A)
    ensures
        s.push(a).to_set() =~= s.to_set().insert(a),
        s.to_set().finite(),
        s.push(a).to_set().len() == s.to_set().len() + (if s.to_set().contains(a) {
            0int
        } else {
            1int
        }),
{
    broadcast use vstd::set::group_set_axioms;

    vstd::seq_lib::seq_to_set_is_finite(s);
    vstd::seq_lib::seq_to_set_is_finite(s.push(a));
    assert forall|x: A| s.push(a).to_set().contains(x) implies s.to_set().insert(a).contains(
        x,
    ) by {
        let i = choose|i: int| 0 <= i < s.push(a).len() && s.push(a)[i] == x;
        if i < s.len() {
            assert(s[i] == x);
        }
    }
    assert forall|x: A| s.to_set().insert(a).contains(x) implies s.push(a).to_set().contains(
        x,
    ) by {
        if x == a {
            assert(s.push(a)[s.len() as int] == x);
        } else {
            let i = choose|i: int| 0 <= i < s.len() && s[i] == x;
            assert(s.push(a)[i] == x);
        }
    }
    assert(s.push(a).to_set() =~= s.to_set().insert(a));
    vstd::set::axiom_set_insert_len(s.to_set(), a);
    if s.to_set().contains(a) {
        assert(s.to_set().insert(a) =~= s.to_set());
    }
}

/// Refining never merges classes: the count that `combine` returns — the
/// number of distinct refinement pairs — is at least the number of
/// distinct values of either input labeling.
pub proof fn lemma_combine_monotone(res: Seq<usize>, lab: Seq<usize>)
    requires
        res.len() == lab.len(),
    ensures
        spec_pair_count(res, lab) >= res.to_set().len(),
        spec_pair_count(res, lab) >= lab.to_set().len(),
{
    lemma_pair_count_lower(res, lab, res.len() as int);
    assert(res.subrange(0, res.len() as int) =~= res);
    assert(lab.subrange(0, lab.len() as int) =~= lab);
}

/// Run numbers climb by at most one, so every number up to the last run
/// is some entry's run number.
pub proof fn lemma_runs_hits(res: Seq<usize>, lab: Seq<usize>, s: Seq<usize>, t: int, c: int) -> (w:
    int)
    requires
        0 <= t,
        0 <= c <= spec_runs(res, lab, s, t),
    ensures
        0 <= w <= t,
        spec_runs(res, lab, s, w) == c,
    decreases t,
{
    if spec_runs(res, lab, s, t) == c {
        t
    } else {
        lemma_runs_hits(res, lab, s, t - 1, c)
    }
}

/// Some entry of `s` carries the label `c`.
pub open spec fn spec_label_present(s: Seq<usize>, c: int) -> bool {
    exists|x: int| 0 <= x < s.len() && (#[trigger] s[x]) == c
}

/// The labels of a sequence are exactly the numbers below `k`.
pub open spec fn spec_contiguous_labels(s: Seq<usize>, k: int) -> bool {
    &&& forall|x: int| 0 <= x < s.len() ==> (#[trigger] s[x]) < k
    &&& forall|c: int| 0 <= c < k ==> #[trigger] spec_label_present(s, c)
}

/// Refines the labeling `result` by the labeling `labels` as one
/// partition refines another: two nodes keep equal labels exactly when
/// they agreed in both inputs, the new labels are the numbers below the
/// returned count — which is the number of distinct refinement pairs —
/// and they are handed out in refinement-key order.
pub fn combine(result: &mut Vec<usize>, labels: &Vec<usize>, temp_perm: &mut Vec<usize>) -> (r:
    usize)
    requires
        old(result)@.len() == labels@.len(),
        old(temp_perm)@.len() == labels@.len(),
        labels@.len() >= 1,
        forall|k: int| 0 <= k < labels@.len() ==> (#[trigger] old(result)@[k]) < labels@.len(),
        forall|k: int| 0 <= k < labels@.len() ==> (#[trigger] labels@[k]) < labels@.len(),
        labels@.len() <= 0x4000_0000,
    ensures
        final(result)@.len() == labels@.len(),
        final(temp_perm)@.len() == labels@.len(),
        1 <= r <= labels@.len(),
        r == spec_pair_count(old(result)@, labels@),
        spec_contiguous_labels(final(result)@, r as int),
        forall|x: int| 0 <= x < labels@.len() ==> (#[trigger] final(result)@[x]) < r,
        forall|x: int, y: int|
            0 <= x < labels@.len() && 0 <= y < labels@.len() ==> ((final(result)@[x]
                == final(result)@[y]) <==> spec_pair(old(result)@, labels@, x) == spec_pair(
                old(result)@,
                labels@,
                y,
            )),
        forall|x: int, y: int|
            0 <= x < labels@.len() && 0 <= y < labels@.len() ==> ((final(result)@[x]
                <= final(result)@[y]) <==> spec_combine_key(old(result)@, labels@, x)
                <= spec_combine_key(old(result)@, labels@, y)),
{
    let ghost res0 = result@;
    let ghost lab = labels@;
    let n = labels.len();
    // sort the node indices by the refinement key
    let idx = identity_vec(n);
    let mut keys: Vec<u128> = Vec::new();
    let mut i: usize = 0;
    while i < n
        invariant
            i <= n,
            keys@.len() == i,
            n == lab.len(),
            lab == labels@,
            result@ == res0,
            res0.len() == n,
            n <= 0x4000_0000,
            forall|k: int| 0 <= k < n ==> (#[trigger] res0[k]) < n,
            forall|k: int| 0 <= k < n ==> (#[trigger] lab[k]) < n,
            forall|k: int| 0 <= k < i ==> keys@[k] == spec_combine_key(res0, lab, k),
        decreases n - i,
    {
        let l = labels[i];
        let key: u128 = (result[l] as u128) * 0x1_0000_0000_0000_0000 + (labels[i] as u128)
            * 0x1_0000_0000 + (result[i] as u128);
        keys.push(key);
        i = i + 1;
    }
    let sorted = sort_indices_by_key(&idx, &keys);
    proof {
        lemma_multiset_permutation(sorted@, idx@);
    }
    let ghost ss = sorted@;
    proof {
        assert forall|p: int, q: int|
            0 <= p < q < ss.len() implies spec_combine_key(res0, lab, ss[p] as int)
            <= spec_combine_key(res0, lab, ss[q] as int) by {
            assert(keys@[ss[p] as int] <= keys@[ss[q] as int]);
        }
    }
    let mut tp = sorted;
    core::mem::swap(temp_perm, &mut tp);
    // assign increasing labels to runs with an equal refinement pair
    let first = temp_perm[0];
    let mut prev_r = result[first];
    let mut prev_l = labels[first];
    let mut curr: usize = 0;
    result.set(first, 0);
    let mut t: usize = 1;
    while t < n
        invariant
            1 <= t <= n,
            n == lab.len(),
            lab == labels@,
            temp_perm@ == ss,
            ss.len() == n,
            result@.len() == n,
            is_permutation(ss),
            res0.len() == n,
            n <= 0x4000_0000,
            forall|k: int| 0 <= k < n ==> (#[trigger] res0[k]) < n,
            forall|k: int| 0 <= k < n ==> (#[trigger] lab[k]) < n,
            forall|k: int| 0 <= k < n ==> (#[trigger] ss[k]) < n,
            forall|p: int, q: int|
                0 <= p < q < n ==> spec_combine_key(res0, lab, ss[p] as int) <= spec_combine_key(
                    res0,
                    lab,
                    ss[q] as int,
                ),
            curr == spec_runs(res0, lab, ss, t - 1),
            curr < t,
            prev_r == res0[ss[t - 1] as int] && prev_l == lab[ss[t - 1] as int],
            forall|t2: int|
                0 <= t2 < t ==> result@[(#[trigger] ss[t2]) as int] == spec_runs(res0, lab, ss, t2),
            forall|t2: int|
                t <= t2 < n ==> result@[(#[trigger] ss[t2]) as int] == res0[ss[t2] as int],
        decreases n - t,
    {
        let node = temp_perm[t];
        let cr = result[node];
        let cl = labels[node];
        proof {
            assert(result@[ss[t as int] as int] == res0[ss[t as int] as int]);
        }
        if cr != prev_r || cl != prev_l {
            curr = curr + 1;
            prev_r = cr;
            prev_l = cl;
        }
        result.set(node, curr);
        proof {
            assert forall|t2: int|
                0 <= t2 < t + 1 implies result@[(#[trigger] ss[t2]) as int] == spec_runs(
                res0,
                lab,
                ss,
                t2,
            ) by {
                if t2 < t {
                    assert(ss[t2] != ss[t as int]);
                }
            }
            assert forall|t2: int|
                t + 1 <= t2 < n implies result@[(#[trigger] ss[t2]) as int] == res0[ss[t2] as int] by {
                assert(ss[t2] != ss[t as int]);
            }
        }
        t = t + 1;
    }
    let count = curr + 1;
    proof {
        let resf = result@;
        // every node stands somewhere in the sorted order, and carries
        // its run number there
        assert forall|x: int| 0 <= x < n implies (#[trigger] resf[x]) < count by {
            let tx = crate::perm::lemma_permutation_surjective(ss, x);
            lemma_runs_mono(res0, lab, ss, tx, n - 1);
        }
        assert forall|x: int, y: int|
            0 <= x < n && 0 <= y < n implies ((resf[x] == resf[y]) <==> spec_pair(res0, lab, x)
            == spec_pair(res0, lab, y)) by {
            let tx = crate::perm::lemma_permutation_surjective(ss, x);
            let ty = crate::perm::lemma_permutation_surjective(ss, y);
            if tx <= ty {
                lemma_runs_iff(res0, lab, ss, tx, ty);
            } else {
                lemma_runs_iff(res0, lab, ss, ty, tx);
            }
        }
        assert forall|x: int, y: int|
            0 <= x < n && 0 <= y < n implies ((resf[x] <= resf[y]) <==> spec_combine_key(
            res0,
            lab,
            x,
        ) <= spec_combine_key(res0, lab, y)) by {
            let tx = crate::perm::lemma_permutation_surjective(ss, x);
            let ty = crate::perm::lemma_permutation_surjective(ss, y);
            lemma_key_iff_pair(res0, lab, x, y);
            if tx <= ty {
                lemma_runs_iff(res0, lab, ss, tx, ty);
                lemma_runs_mono(res0, lab, ss, tx, ty);
            } else {
                lemma_runs_iff(res0, lab, ss, ty, tx);
                lemma_runs_mono(res0, lab, ss, ty, tx);
            }
        }
        // every number below the count is some entry's run number
        assert forall|c: int| 0 <= c < count implies #[trigger] spec_label_present(resf, c) by {
            let w = lemma_runs_hits(res0, lab, ss, n - 1, c);
            assert(resf[ss[w] as int] == c);
        }
        // the returned count is the number of distinct refinement pairs
        lemma_runs_count(res0, lab, ss, n - 1);
        let ps = Seq::new(n as nat, |i: int| spec_pair(res0, lab, ss[i] as int));
        let qs = Seq::new(n as nat, |x: int| spec_pair(res0, lab, x));
        assert(ps.to_set() =~= qs.to_set()) by {
            assert forall|p: (int, int)| ps.to_set().contains(p) implies qs.to_set().contains(
                p,
            ) by {
                let i = choose|i: int| 0 <= i < ps.len() && ps[i] == p;
                assert(qs[ss[i] as int] == p);
            }
            assert forall|p: (int, int)| qs.to_set().contains(p) implies ps.to_set().contains(
                p,
            ) by {
                let x = choose|x: int| 0 <= x < qs.len() && qs[x] == p;
                let tx = crate::perm::lemma_permutation_surjective(ss, x);
                assert(ps[tx] == p);
            }
        }
    }
    count
}

/// Computes, for each resolution γ of `gammas`, a label propagation fixed
/// point over `graph`, scores its permutation by log-gap cost, and folds
/// the labelings together from the best one; the result assigns every
/// node of the graph a label below the node count.
pub fn layered_label_propagation(
    graph: &VecGraph,
    gammas: &Vec<(u64, u64)>,
    chunk_size: usize,
    seed: u64,
    max_updates: u64,
) -> (r: Vec<usize>)
    requires
        graph.wf(),
        graph.view().len() <= 0x4000_0000,
        chunk_size >= 1,
        gammas@.len() >= 1,
        forall|g: int|
            0 <= g < gammas@.len() ==> 1 <= (#[trigger] gammas@[g]).1 <= 0x4000_0000 && gammas@[
                g].0 <= 0x4000_0000,
    ensures
        r@.len() == graph.view().len(),
        forall|v: int| 0 <= v < r@.len() ==> (#[trigger] r@[v]) < r@.len(),
        graph.view().len() > 0 ==> exists|k: int|
            1 <= k <= graph.view().len() && #[trigger] spec_contiguous_labels(r@, k),
{
    let n = graph.num_nodes();
    if n == 0 {
        return Vec::new();
    }
    let mut store = LabelStore::new(n);
    let mut seed_counter: u64 = seed;
    let mut all_labels: Vec<Vec<usize>> = Vec::new();
    let mut costs: Vec<u128> = Vec::new();
    let mut gidx: usize = 0;
    while gidx < gammas.len()
        invariant
            graph.wf(),
            n == graph.view().len(),
            1 <= n <= 0x4000_0000,
            chunk_size >= 1,
            store.wf(),
            store.labels_view().len() == n,
            forall|g: int|
                0 <= g < gammas@.len() ==> 1 <= (#[trigger] gammas@[g]).1 <= 0x4000_0000 && gammas@[
                    g].0 <= 0x4000_0000,
            gidx <= gammas@.len(),
            all_labels@.len() == gidx,
            costs@.len() == gidx,
            forall|g: int|
                0 <= g < gidx ==> (#[trigger] all_labels@[g])@.len() == n && forall|k: int|
                    0 <= k < n ==> #[trigger] all_labels@[g]@[k] < n,
        decreases gammas@.len() - gidx,
    {
        let (num, den) = (gammas[gidx].0, gammas[gidx].1);
        store.init();
        let mut can_change: Vec<bool> = Vec::new();
        let mut ci: usize = 0;
        while ci < n
            invariant
                ci <= n,
                can_change@.len() == ci,
            decreases n - ci,
        {
            can_change.push(true);
            ci = ci + 1;
        }
        let mut update: u64 = 0;
        loop
            invariant
                graph.wf(),
                n == graph.view().len(),
                1 <= n <= 0x4000_0000,
                chunk_size >= 1,
                store.wf(),
                store.labels_view().len() == n,
                can_change@.len() == n,
                update <= max_updates,
                1 <= den <= 0x4000_0000,
                num <= 0x4000_0000,
            ensures
                store.wf(),
                store.labels_view().len() == n,
            decreases max_updates - update,
        {
            if update >= max_updates {
                break ;
            }
            // randomized visit order, shuffled chunk by chunk
            let mut update_perm = identity_vec(n);
            let mut pos: usize = 0;
            while pos < n
                invariant
                    n <= 0x4000_0000,
                    chunk_size >= 1,
                    pos <= n,
                    update_perm@.len() == n,
                    forall|k: int| 0 <= k < n ==> (#[trigger] update_perm@[k]) < n,
                decreases n - pos,
            {
                let end = if n - pos < chunk_size {
                    n
                } else {
                    pos + chunk_size
                };
                let mut chunk: Vec<usize> = Vec::new();
                let mut q: usize = pos;
                while q < end
                    invariant
                        pos <= q <= end <= n,
                        update_perm@.len() == n,
                        chunk@.len() == q - pos,
                        forall|k: int| 0 <= k < n ==> (#[trigger] update_perm@[k]) < n,
                        forall|k: int| 0 <= k < chunk@.len() ==> (#[trigger] chunk@[k]) < n,
                    decreases end - q,
                {
                    chunk.push(update_perm[q]);
                    q = q + 1;
                }
                let mut rng = rng_from_seed(seed_counter);
                seed_counter = seed_counter.wrapping_add(1);
                let ghost chunk0 = chunk@;
                rng_shuffle(&mut rng, &mut chunk);
                proof {
                    vstd::seq_lib::to_multiset_len(chunk@);
                    vstd::seq_lib::to_multiset_len(chunk0);
                    assert forall|k: int| 0 <= k < chunk@.len() implies (#[trigger] chunk@[k])
                        < n by {
                        to_multiset_contains(chunk@, chunk@[k]);
                        to_multiset_contains(chunk0, chunk@[k]);
                        let j = choose|j: int| 0 <= j < chunk0.len() && chunk0[j] == chunk@[k];
                    }
                }
                let mut q2: usize = pos;
                while q2 < end
                    invariant
                        pos <= q2 <= end <= n,
                        update_perm@.len() == n,
                        chunk@.len() == end - pos,
                        forall|k: int| 0 <= k < n ==> (#[trigger] update_perm@[k]) < n,
                        forall|k: int| 0 <= k < chunk@.len() ==> (#[trigger] chunk@[k]) < n,
                    decreases end - q2,
                {
                    update_perm.set(q2, chunk[q2 - pos]);
                    q2 = q2 + 1;
                }
                pos = end;
            }
            // one relabeling pass
            let mut range_rng = rng_from_seed(0);
            let mut modified: u64 = 0;
            let mut t: usize = 0;
            while t < n
                invariant
                    graph.wf(),
                    n == graph.view().len(),
                    1 <= n <= 0x4000_0000,
                    store.wf(),
                    store.labels_view().len() == n,
                    can_change@.len() == n,
                    update_perm@.len() == n,
                    1 <= den <= 0x4000_0000,
                    num <= 0x4000_0000,
                    forall|k: int| 0 <= k < n ==> (#[trigger] update_perm@[k]) < n,
                decreases n - t,
            {
                let v = update_perm[t];
                if !can_change[v] {
                    t = t + 1;
                    continue ;
                }
                can_change.set(v, false);
                let succ = graph.successors(v);
                if succ.len() == 0 {
                    t = t + 1;
                    continue ;
                }
                let curr_label = store.label(v);
                // count the labels among the successors
                let mut counts: Vec<usize> = Vec::new();
                let mut z: usize = 0;
                while z < n
                    invariant
                        z <= n,
                        counts@.len() == z,
                        forall|k: int| 0 <= k < z ==> (#[trigger] counts@[k]) == 0usize,
                    decreases n - z,
                {
                    counts.push(0);
                    z = z + 1;
                }
                let mut touched: Vec<usize> = Vec::new();
                let mut si: usize = 0;
                while si < succ.len()
                    invariant
                        graph.wf(),
                        n == graph.view().len(),
                        store.wf(),
                        store.labels_view().len() == n,
                        v < n,
                        succ@ == graph.view()[v as int],
                        si <= succ@.len(),
                        counts@.len() == n,
                        forall|k: int| 0 <= k < succ@.len() ==> (#[trigger] succ@[k]) < n,
                        forall|k: int| 0 <= k < counts@.len() ==> (#[trigger] counts@[k]) <= si,
                        forall|k: int| 0 <= k < touched@.len() ==> (#[trigger] touched@[k]) < n,
                        si >= 1 ==> touched@.len() >= 1,
                    decreases succ@.len() - si,
                {
                    let s = succ[si] as usize;
                    let l = store.label(s);
                    if counts[l] == 0 {
                        touched.push(l);
                    }
                    let c = counts[l];
                    counts.set(l, c + 1);
                    si = si + 1;
                }
                proof {
                    crate::graphs::lemma_succ_list_len(succ@, n as int);
                }
                if counts[curr_label] == 0 {
                    touched.push(curr_label);
                }
                proof {
                    assert(touched@.len() >= 1);
                }
                // score each candidate label and keep the best ones
                let mut max_score: i128 = i128::MIN;
                let mut majorities: Vec<usize> = Vec::new();
                let mut ti: usize = 0;
                while ti < touched.len()
                    invariant
                        store.wf(),
                        store.labels_view().len() == n,
                        n <= 0x4000_0000,
                        1 <= den <= 0x4000_0000,
                        num <= 0x4000_0000,
                        counts@.len() == n,
                        forall|k: int| 0 <= k < counts@.len() ==> (#[trigger] counts@[k]) <= n,
                        ti <= touched@.len(),
                        forall|k: int| 0 <= k < touched@.len() ==> (#[trigger] touched@[k]) < n,
                        forall|k: int|
                            0 <= k < majorities@.len() ==> (#[trigger] majorities@[k]) < n,
                        ti >= 1 ==> majorities@.len() >= 1,
                        ti == 0 ==> majorities@.len() == 0 && max_score == i128::MIN,
                        max_score > i128::MIN || ti == 0,
                    decreases touched@.len() - ti,
                {
                    let l = touched[ti];
                    let c = counts[l] as i128;
                    let vol = store.volume(l) as i128;
                    proof {
                        assert((den as i128 + num as i128) * c <= 0x8000_0000i128 * 0x1_0000_0000)
                            by (nonlinear_arith)
                            requires
                                0 <= c <= 0x1_0000_0000,
                                0 <= den as i128 + num as i128 <= 0x8000_0000,
                        ;
                        assert(num as i128 * (vol + 1) <= 0x4000_0000i128
                            * 0x2_0000_0000_0000_0000_0000) by (nonlinear_arith)
                            requires
                                0 <= num <= 0x4000_0000,
                                0 <= vol + 1 <= 0x2_0000_0000_0000_0000_0000,
                        ;
                        assert(num as i128 * (vol + 1) >= 0) by (nonlinear_arith)
                            requires
                                num >= 0,
                                vol + 1 >= 1,
                        ;
                        assert((den as i128 + num as i128) * c >= 0) by (nonlinear_arith)
                            requires
                                c >= 0,
                                den as i128 + num as i128 >= 0,
                        ;
                    }
                    let val: i128 = (den as i128 + num as i128) * c - num as i128 * (vol + 1);
                    proof {
                        assert(val > i128::MIN);
                    }
                    if val == max_score {
                        majorities.push(l);
                    } else if val > max_score {
                        majorities = Vec::new();
                        majorities.push(l);
                        max_score = val;
                    }
                    ti = ti + 1;
                }
                let w = rng_below(&mut range_rng, majorities.len());
                let next_label = majorities[w];
                if next_label != curr_label {
                    if modified < u64::MAX {
                        modified = modified + 1;
                    }
                    let mut si2: usize = 0;
                    while si2 < succ.len()
                        invariant
                            n == graph.view().len(),
                            si2 <= succ@.len(),
                            can_change@.len() == n,
                            forall|k: int| 0 <= k < succ@.len() ==> (#[trigger] succ@[k]) < n,
                        decreases succ@.len() - si2,
                    {
                        can_change.set(succ[si2] as usize, true);
                        si2 = si2 + 1;
                    }
                    store.set(v, next_label);
                }
                t = t + 1;
            }
            update = update + 1;
            if modified == 0 {
                break ;
            }
        }
        // candidate permutation: nodes sorted by label, then inverted
        let labels_now = store.labels_vec();
        let idx = identity_vec(n);
        let mut keys: Vec<u128> = Vec::new();
        let mut ki: usize = 0;
        while ki < n
            invariant
                ki <= n,
                keys@.len() == ki,
                n == labels_now@.len(),
            decreases n - ki,
        {
            keys.push(labels_now[ki] as u128);
            ki = ki + 1;
        }
        let sorted_nodes = sort_indices_by_key(&idx, &keys);
        proof {
            lemma_multiset_permutation(sorted_nodes@, idx@);
        }
        let mut node_ranks = clone_usize_vec(&sorted_nodes);
        invert_in_place(&mut node_ranks);
        let lists = permuted_graph_lists(graph, &sorted_nodes, &node_ranks);
        let cost = match compute_log_gap_cost(&lists) {
            Ok(c) => c,
            Err(_) => u128::MAX,
        };
        costs.push(cost);
        all_labels.push(labels_now);
        gidx = gidx + 1;
    }
    // rank the resolutions by cost, best (lowest) first
    let order0 = identity_vec(gammas.len());
    let sorted_gammas = sort_indices_by_key(&order0, &costs);
    proof {
        lemma_multiset_permutation(sorted_gammas@, order0@);
    }
    let best = sorted_gammas[0];
    let mut result_labels = clone_usize_vec(&all_labels[best]);
    let mut temp: Vec<usize> = identity_vec(n);
    // combine from the worst candidate down, bracketing with the best
    let mut oi: usize = gammas.len();
    while oi > 0
        invariant
            n >= 1,
            n <= 0x4000_0000,
            oi <= gammas@.len(),
            sorted_gammas@.len() == gammas@.len(),
            all_labels@.len() == gammas@.len(),
            best < gammas@.len(),
            temp@.len() == n,
            result_labels@.len() == n,
            forall|k: int| 0 <= k < gammas@.len() ==> (#[trigger] sorted_gammas@[k]) < gammas@.len(),
            forall|g: int|
                0 <= g < gammas@.len() ==> (#[trigger] all_labels@[g])@.len() == n && forall|k: int|
                    0 <= k < n ==> #[trigger] all_labels@[g]@[k] < n,
            forall|k: int| 0 <= k < n ==> (#[trigger] result_labels@[k]) < n,
            oi == gammas@.len() || exists|k: int|
                1 <= k <= n && #[trigger] spec_contiguous_labels(result_labels@, k),
        decreases oi,
    {
        let g = sorted_gammas[oi - 1];
        combine(&mut result_labels, &all_labels[g], &mut temp);
        let k2 = combine(&mut result_labels, &all_labels[best], &mut temp);
        proof {
            assert(spec_contiguous_labels(result_labels@, k2 as int));
        }
        oi = oi - 1;
    }
    result_labels
}

/// Copies a vector of indices.
fn clone_usize_vec(v: &Vec<usize>) -> (r: Vec<usize>)
    ensures
        r@ == v@,
{
    let mut out: Vec<usize> = Vec::new();
    let mut i: usize = 0;
    while i < v.len()
        invariant
            i <= v@.len(),
            out@ == v@.subrange(0, i as int),
        decreases v@.len() - i,
    {
        out.push(v[i]);
        proof {
            assert(v@.subrange(0, i + 1) =~= v@.subrange(0, i as int).push(v@[i as int]));
        }
        i = i + 1;
    }
    proof {
        assert(v@.subrange(0, v@.len() as int) =~= v@);
    }
    out
}

} // verus!
