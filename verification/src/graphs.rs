//! In-memory graph views: adjacency-list graphs, permuted views and a
//! breadth-first visit order.

use vstd::prelude::*;
use crate::perm::{is_inverse, is_permutation};
use crate::sorting::{sort_vec, u64_le};

verus! {

/// A directed graph held as one sorted, duplicate-free successor list per
/// node.
pub struct VecGraph {
    succs: Vec<Vec<u64>>,
}

/// A strictly increasing list of node ids below `n`.
pub open spec fn wf_succ_list(l: Seq<u64>, n: int) -> bool {
    &&& forall|a: int, b: int| 0 <= a < b < l.len() ==> l[a] < l[b]
    &&& forall|a: int| 0 <= a < l.len() ==> (#[trigger] l[a]) < n
}

impl VecGraph {
    /// The successor lists, one per node.
    pub closed spec fn view(&self) -> Seq<Seq<u64>> {
        self.succs@.map_values(|v: Vec<u64>| v@)
    }

    /// Every list is strictly increasing with node ids below the node
    /// count.
    pub open spec fn wf(&self) -> bool {
        forall|v: int|
            0 <= v < self.view().len() ==> wf_succ_list(
                #[trigger] self.view()[v],
                self.view().len() as int,
            )
    }

    pub fn new() -> (r: Self)
        ensures
            r.wf(),
            r.view().len() == 0,
    {
        let g = VecGraph { succs: Vec::new() };
        proof {
            assert(g.view().len() == 0);
        }
        g
    }

    pub fn num_nodes(&self) -> (r: usize)
        ensures
            r == self.view().len(),
    {
        self.succs.len()
    }

    /// Grows the graph so that `node` exists, adding isolated nodes.
    pub fn add_node(&mut self, node: usize)
        requires
            old(self).wf(),
            node < usize::MAX,
        ensures
            final(self).wf(),
            final(self).view().len() == if old(self).view().len() > node + 1 {
                old(self).view().len() as int
            } else {
                node + 1
            },
            forall|v: int|
                0 <= v < old(self).view().len() ==> final(self).view()[v] == old(self).view()[v],
            forall|v: int|
                old(self).view().len() <= v < final(self).view().len() ==> final(self).view()[v].len() == 0,
    {
        let ghost n0 = self.view().len();
        while self.succs.len() < node + 1
            invariant
                old(self).wf(),
                node < usize::MAX,
                n0 == old(self).view().len(),
                self.view().len() == self.succs@.len(),
                self.succs@.len() >= n0,
                self.succs@.len() <= node + 1 || self.succs@.len() == n0,
                forall|v: int| 0 <= v < n0 ==> self.view()[v] == old(self).view()[v],
                forall|v: int|
                    n0 <= v < self.view().len() ==> (#[trigger] self.view()[v]).len() == 0,
            decreases node + 1 - self.succs@.len(),
        {
            let ghost pre = self.view();
            self.succs.push(Vec::new());
            proof {
                assert(self.view() =~= pre.push(Seq::<u64>::empty()));
            }
        }
        proof {
            assert forall|v: int|
                0 <= v < self.view().len() implies wf_succ_list(
                #[trigger] self.view()[v],
                self.view().len() as int,
            ) by {
                if v < n0 {
                    assert(wf_succ_list(old(self).view()[v], n0 as int));
                }
            }
        }
    }

    /// Adds the arc `u -> v`; a present arc stays single.
    pub fn add_arc(&mut self, u: usize, v: u64)
        requires
            old(self).wf(),
            u < old(self).view().len(),
            v < old(self).view().len(),
        ensures
            final(self).wf(),
            final(self).view().len() == old(self).view().len(),
            forall|w: int|
                0 <= w < old(self).view().len() && w != u ==> final(self).view()[w] == old(self).view()[w],
            forall|x: u64|
                final(self).view()[u as int].contains(x) <==> (old(self).view()[u as int].contains(x) || x == v),
    {
        let ghost l0 = self.view()[u as int];
        let list = &self.succs[u];
        let mut p: usize = 0;
        while p < list.len() && list[p] < v
            invariant
                list@ == l0,
                p <= l0.len(),
                forall|q: int| 0 <= q < p ==> l0[q] < v,
            decreases l0.len() - p,
        {
            p = p + 1;
        }
        if p < list.len() && list[p] == v {
            proof {
                assert(l0.contains(v));
                assert(forall|x: u64| l0.contains(x) <==> (l0.contains(x) || x == v));
            }
            return ;
        }
        proof {
            if p < l0.len() {
                assert(l0[p as int] > v);
            }
        }
        let mut inner = self.succs.remove(u);
        inner.insert(p, v);
        self.succs.insert(u, inner);
        proof {
            let l1 = self.view()[u as int];
            assert(l1 =~= l0.insert(p as int, v));
            assert forall|w: int|
                0 <= w < old(self).view().len() && w != u implies final(self).view()[w] == old(
                self,
            ).view()[w] by {}
            assert forall|x: u64| l1.contains(x) implies (l0.contains(x) || x == v) by {
                let q = choose|q: int| 0 <= q < l1.len() && l1[q] == x;
                if q < p {
                    assert(l0[q] == x);
                } else if q > p {
                    assert(l0[q - 1] == x);
                }
            }
            assert forall|x: u64| l0.contains(x) implies l1.contains(x) by {
                let q = choose|q: int| 0 <= q < l0.len() && l0[q] == x;
                if q < p {
                    assert(l1[q] == x);
                } else {
                    assert(l1[q + 1] == x);
                }
            }
            assert(l1.contains(v)) by {
                assert(l1[p as int] == v);
            }
            assert forall|a: int, b: int| 0 <= a < b < l1.len() implies l1[a] < l1[b] by {
                if b < p {
                } else if a < p && b == p {
                    assert(l1[a] == l0[a] && l0[a] < v);
                } else if a < p && b > p {
                    assert(l1[a] == l0[a] && l1[b] == l0[b - 1] && l0[a] < v);
                    if p < l0.len() {
                        assert(l0[p as int] > v);
                        if (p as int) < b - 1 {
                            assert(l0[p as int] < l0[b - 1]);
                        }
                    }
                } else if a == p {
                    assert(l1[b] == l0[b - 1]);
                    if p < l0.len() {
                        assert(l0[p as int] > v);
                        if (p as int) < b - 1 {
                            assert(l0[p as int] < l0[b - 1]);
                        }
                    }
                } else {
                    assert(l1[a] == l0[a - 1] && l1[b] == l0[b - 1]);
                }
            }
            assert forall|v2: int|
                0 <= v2 < self.view().len() implies wf_succ_list(
                #[trigger] self.view()[v2],
                self.view().len() as int,
            ) by {
                if v2 != u {
                    assert(self.view()[v2] == old(self).view()[v2]);
                }
            }
        }
    }

    /// The outdegree of `node`.
    pub fn outdegree(&self, node: usize) -> (r: usize)
        requires
            node < self.view().len(),
        ensures
            r == self.view()[node as int].len(),
    {
        self.succs[node].len()
    }

    /// A copy of the successor list of `node`, in increasing order.
    pub fn successors(&self, node: usize) -> (r: Vec<u64>)
        requires
            node < self.view().len(),
        ensures
            r@ == self.view()[node as int],
    {
        let list = &self.succs[node];
        let mut out: Vec<u64> = Vec::new();
        let mut i: usize = 0;
        while i < list.len()
            invariant
                i <= list@.len(),
                out@ == list@.subrange(0, i as int),
            decreases list@.len() - i,
        {
            out.push(list[i]);
            proof {
                assert(list@.subrange(0, i + 1) =~= list@.subrange(0, i as int).push(
                    list@[i as int],
                ));
            }
            i = i + 1;
        }
        proof {
            assert(list@.subrange(0, list@.len() as int) =~= list@);
        }
        out
    }
}

/// In a strictly increasing list every entry is at least its index.
pub proof fn lemma_strict_incr_index(l: Seq<u64>, i: int)
    requires
        forall|a: int, b: int| 0 <= a < b < l.len() ==> l[a] < l[b],
        0 <= i < l.len(),
    ensures
        l[i] >= i,
    decreases i,
{
    if i > 0 {
        lemma_strict_incr_index(l, i - 1);
    }
}

/// A strictly increasing list of values below `n` has at most `n`
/// entries.
pub proof fn lemma_succ_list_len(l: Seq<u64>, n: int)
    requires
        n >= 0,
        wf_succ_list(l, n),
    ensures
        l.len() <= n,
{
    if l.len() > n {
        lemma_strict_incr_index(l, n);
        assert(l[n] < n);
    }
}

/// The successor lists of the permuted view of a graph: node `i` of the
/// view takes the successors of `perm[i]`, each renamed through the
/// inverse permutation, in increasing order.
pub open spec fn spec_permuted_lists(g: Seq<Seq<u64>>, perm: Seq<usize>, inv: Seq<usize>) -> Seq<
    Seq<u64>,
> {
    Seq::new(
        g.len(),
        |i: int| g[perm[i] as int].map_values(|s: u64| inv[s as int] as u64).sort_by(u64_le()),
    )
}

/// Materializes the permuted view of a graph: list `i` holds the renamed
/// successors of node `perm[i]`.
pub fn permuted_graph_lists(g: &VecGraph, perm: &Vec<usize>, inv: &Vec<usize>) -> (r: Vec<Vec<u64>>)
    requires
        g.wf(),
        is_permutation(perm@),
        is_inverse(perm@, inv@),
        perm@.len() == g.view().len(),
    ensures
        r@.map_values(|v: Vec<u64>| v@) =~= spec_permuted_lists(g.view(), perm@, inv@),
{
    let n = g.num_nodes();
    let mut out: Vec<Vec<u64>> = Vec::new();
    let mut i: usize = 0;
    while i < n
        invariant
            g.wf(),
            is_permutation(perm@),
            is_inverse(perm@, inv@),
            perm@.len() == n,
            n == g.view().len(),
            i <= n,
            out@.len() == i,
            forall|k: int|
                0 <= k < i ==> (#[trigger] out@[k])@ == spec_permuted_lists(
                    g.view(),
                    perm@,
                    inv@,
                )[k],
        decreases n - i,
    {
        let base = g.successors(perm[i]);
        let mut renamed: Vec<u64> = Vec::new();
        let mut j: usize = 0;
        while j < base.len()
            invariant
                is_inverse(perm@, inv@),
                perm@.len() == n,
                inv@.len() == n,
                j <= base@.len(),
                renamed@.len() == j,
                forall|q: int| 0 <= q < base@.len() ==> (#[trigger] base@[q]) < n,
                forall|q: int| 0 <= q < j ==> renamed@[q] == inv@[base@[q] as int] as u64,
            decreases base@.len() - j,
        {
            let s = base[j];
            renamed.push(inv[s as usize] as u64);
            j = j + 1;
        }
        proof {
            assert(renamed@ =~= base@.map_values(|s: u64| inv@[s as int] as u64));
        }
        let sorted = sort_vec(&renamed);
        out.push(sorted);
        i = i + 1;
    }
    out
}

/// A duplicate-free sequence of ids below `n` that misses some id below
/// `n` has fewer than `n` entries.
pub proof fn lemma_unique_bounded_missing(s: Seq<usize>, n: int, miss: usize)
    requires
        forall|a: int, b: int| 0 <= a < b < s.len() ==> s[a] != s[b],
        forall|a: int| 0 <= a < s.len() ==> (#[trigger] s[a]) < n,
        0 <= miss < n,
        !s.contains(miss),
    ensures
        s.len() < n,
{
    broadcast use vstd::set::group_set_axioms;

    let si = s.map_values(|x: usize| x as int);
    assert forall|i: int, j: int| 0 <= i < j < si.len() implies si[i] != si[j] by {
        assert(s[i] != s[j]);
    }
    assert(si.no_duplicates());
    si.unique_seq_to_set();
    vstd::seq_lib::seq_to_set_is_finite(si);
    let b = vstd::set_lib::set_int_range(0, n).remove(miss as int);
    vstd::set_lib::lemma_int_range(0, n);
    vstd::set::axiom_set_remove_len(vstd::set_lib::set_int_range(0, n), miss as int);
    assert forall|x: int| si.to_set().contains(x) implies b.contains(x) by {
        let i = choose|i: int| 0 <= i < si.len() && si[i] == x;
        assert(s[i] as int == x);
        if x == miss as int {
            assert(s.contains(s[i]));
        }
    }
    vstd::set_lib::lemma_len_subset(si.to_set(), b);
}

/// A duplicate-free sequence of ids below `n` that contains every id
/// below `n` has exactly `n` entries.
pub proof fn lemma_unique_bounded_complete(s: Seq<usize>, n: int)
    requires
        0 <= n <= usize::MAX,
        forall|a: int, b: int| 0 <= a < b < s.len() ==> s[a] != s[b],
        forall|a: int| 0 <= a < s.len() ==> (#[trigger] s[a]) < n,
        forall|v: int| 0 <= v < n ==> #[trigger] s.contains(v as usize),
    ensures
        s.len() == n,
{
    broadcast use vstd::set::group_set_axioms;

    let si = s.map_values(|x: usize| x as int);
    assert forall|i: int, j: int| 0 <= i < j < si.len() implies si[i] != si[j] by {
        assert(s[i] != s[j]);
    }
    assert(si.no_duplicates());
    si.unique_seq_to_set();
    vstd::seq_lib::seq_to_set_is_finite(si);
    let b = vstd::set_lib::set_int_range(0, n);
    vstd::set_lib::lemma_int_range(0, n);
    assert forall|x: int| si.to_set().contains(x) implies b.contains(x) by {
        let i = choose|i: int| 0 <= i < si.len() && si[i] == x;
        assert(s[i] as int == x);
    }
    assert forall|x: int| b.contains(x) implies si.to_set().contains(x) by {
        assert(s.contains(x as usize));
        let i = choose|i: int| 0 <= i < s.len() && s[i] == x as usize;
        assert(si[i] == x);
    }
    assert(si.to_set() =~= b);
}

/// The breadth-first visit order of a graph: starting from the lowest
/// unvisited node id, each node is appended when first seen, and its
/// successors are expanded in list order.
pub struct BfsOrder {
    order: Vec<usize>,
}

impl BfsOrder {
    /// Runs the visit; the result holds every node of the graph exactly
    /// once.
    pub fn new(graph: &VecGraph) -> (r: Self)
        requires
            graph.wf(),
        ensures
            r.order().len() == graph.view().len(),
            forall|a: int, b: int| 0 <= a < b < r.order().len() ==> r.order()[a] != r.order()[b],
            forall|a: int|
                0 <= a < r.order().len() ==> (#[trigger] r.order()[a]) < graph.view().len(),
    {
        let n = graph.num_nodes();
        let mut visited: Vec<bool> = Vec::new();
        let mut i: usize = 0;
        while i < n
            invariant
                i <= n,
                visited@.len() == i,
                forall|v: int| 0 <= v < i ==> !(#[trigger] visited@[v]),
            decreases n - i,
        {
            visited.push(false);
            i = i + 1;
        }
        let mut order: Vec<usize> = Vec::new();
        let mut queue: Vec<usize> = Vec::new();
        let mut start: usize = 0;
        while start < n
            invariant
                graph.wf(),
                n == graph.view().len(),
                start <= n,
                visited@.len() == n,
                order@.len() <= n,
                forall|k: int|
                    0 <= k < order@.len() ==> (#[trigger] order@[k]) < n
                        && visited@[order@[k] as int],
                forall|a: int, b: int| 0 <= a < b < order@.len() ==> order@[a] != order@[b],
                forall|v: int| 0 <= v < n ==> ((#[trigger] visited@[v]) <==> order@.contains(
                    v as usize,
                )),
                forall|v: int| 0 <= v < start ==> (#[trigger] visited@[v]),
                queue@.len() == 0,
            decreases n - start,
        {
            if !visited[start] {
                proof {
                    // an unvisited node is missing from the order, which
                    // therefore has room
                    lemma_unique_bounded_missing(order@, n as int, start);
                }
                let ghost order0 = order@;
                visited.set(start, true);
                order.push(start);
                queue.push(start);
                proof {
                    assert forall|v: int|
                        0 <= v < n implies ((#[trigger] visited@[v]) <==> order@.contains(
                        v as usize,
                    )) by {
                        if v == start {
                            assert(order@[order@.len() - 1] == start);
                        } else {
                            if order@.contains(v as usize) {
                                let k = choose|k: int|
                                    0 <= k < order@.len() && order@[k] == v as usize;
                                assert(order0[k] == v as usize);
                            }
                            if order0.contains(v as usize) {
                                let k = choose|k: int|
                                    0 <= k < order0.len() && order0[k] == v as usize;
                                assert(order@[k] == v as usize);
                            }
                        }
                    }
                }
                let mut head: usize = 0;
                while head < queue.len()
                    invariant
                        graph.wf(),
                        n == graph.view().len(),
                        visited@.len() == n,
                        head <= queue@.len(),
                        order@.len() <= n,
                        start < n,
                        forall|k: int| 0 <= k < queue@.len() ==> (#[trigger] queue@[k]) < n,
                        forall|k: int|
                            0 <= k < order@.len() ==> (#[trigger] order@[k]) < n
                                && visited@[order@[k] as int],
                        forall|a: int, b: int|
                            0 <= a < b < order@.len() ==> order@[a] != order@[b],
                        forall|v: int|
                            0 <= v < n ==> ((#[trigger] visited@[v]) <==> order@.contains(
                                v as usize,
                            )),
                        forall|v: int| 0 <= v < start ==> (#[trigger] visited@[v]),
                        visited@[start as int],
                    decreases n - order@.len(), queue@.len() - head,
                {
                    let u = queue[head];
                    head = head + 1;
                    let succ = graph.successors(u);
                    let mut j: usize = 0;
                    let ghost order_entry = order@.len() as int;
                    let ghost queue_entry = queue@.len() as int;
                    while j < succ.len()
                        invariant
                            graph.wf(),
                            n == graph.view().len(),
                            visited@.len() == n,
                            u < n,
                            start < n,
                            succ@ == graph.view()[u as int],
                            j <= succ@.len(),
                            head <= queue@.len(),
                            order@.len() <= n,
                            order@.len() >= order_entry,
                            order@.len() - order_entry == queue@.len() - queue_entry,
                            forall|k: int| 0 <= k < succ@.len() ==> (#[trigger] succ@[k]) < n,
                            forall|k: int| 0 <= k < queue@.len() ==> (#[trigger] queue@[k]) < n,
                            forall|k: int|
                                0 <= k < order@.len() ==> (#[trigger] order@[k]) < n
                                    && visited@[order@[k] as int],
                            forall|a: int, b: int|
                                0 <= a < b < order@.len() ==> order@[a] != order@[b],
                            forall|v: int|
                                0 <= v < n ==> ((#[trigger] visited@[v]) <==> order@.contains(
                                    v as usize,
                                )),
                            forall|v: int| 0 <= v < start ==> (#[trigger] visited@[v]),
                            visited@[start as int],
                        decreases succ@.len() - j,
                    {
                        let s = succ[j] as usize;
                        if !visited[s] {
                            proof {
                                lemma_unique_bounded_missing(order@, n as int, s);
                            }
                            let ghost order0 = order@;
                            visited.set(s, true);
                            order.push(s);
                            queue.push(s);
                            proof {
                                assert forall|v: int|
                                    0 <= v < n implies ((#[trigger] visited@[v])
                                    <==> order@.contains(v as usize)) by {
                                    if v == s {
                                        assert(order@[order@.len() - 1] == s);
                                    } else {
                                        if order@.contains(v as usize) {
                                            let k = choose|k: int|
                                                0 <= k < order@.len() && order@[k] == v as usize;
                                            assert(order0[k] == v as usize);
                                        }
                                        if order0.contains(v as usize) {
                                            let k = choose|k: int|
                                                0 <= k < order0.len() && order0[k] == v as usize;
                                            assert(order@[k] == v as usize);
                                        }
                                    }
                                }
                            }
                        }
                        j = j + 1;
                    }
                }
                queue = Vec::new();
            }
            start = start + 1;
        }
        proof {
            assert forall|v: int| 0 <= v < n implies #[trigger] order@.contains(v as usize) by {
                assert(visited@[v]);
            }
            lemma_unique_bounded_complete(order@, n as int);
        }
        BfsOrder { order }
    }


    /// The visit order.
    pub closed spec fn order(&self) -> Seq<usize> {
        self.order@
    }

    /// Hands the visit order out as a vector.
    pub fn into_vec(self) -> (r: Vec<usize>)
        ensures
            r@ == self.order(),
    {
        self.order
    }
}

} // verus!
