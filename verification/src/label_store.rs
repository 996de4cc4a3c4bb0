//! The label store of the label-propagation engine: one label per node
//! and one occupancy counter per label.

use vstd::prelude::*;

verus! {

/// How many entries of `labels` carry the label `l`.
pub open spec fn spec_label_count(labels: Seq<usize>, l: int) -> nat
    decreases labels.len(),
{
    if labels.len() == 0 {
        0
    } else {
        spec_label_count(labels.drop_last(), l) + if labels.last() == l {
            1nat
        } else {
            0nat
        }
    }
}

/// Relabeling one node moves exactly one unit of count from its old
/// label to the new one.
pub proof fn lemma_label_count_update(labels: Seq<usize>, v: int, x: usize, l: int)
    requires
        0 <= v < labels.len(),
    ensures
        spec_label_count(labels.update(v, x), l) == spec_label_count(labels, l) + (if x == l {
            1int
        } else {
            0int
        }) - (if labels[v] == l {
            1int
        } else {
            0int
        }),
    decreases labels.len(),
{
    if v == labels.len() - 1 {
        assert(labels.update(v, x).drop_last() =~= labels.drop_last());
    } else {
        assert(labels.update(v, x).drop_last() =~= labels.drop_last().update(v, x));
        lemma_label_count_update(labels.drop_last(), v, x, l);
    }
}

/// In the identity labeling every label below the length occurs once and
/// no other occurs at all.
pub proof fn lemma_label_count_identity(labels: Seq<usize>, l: int)
    requires
        forall|k: int| 0 <= k < labels.len() ==> (#[trigger] labels[k]) == k,
    ensures
        spec_label_count(labels, l) == if 0 <= l < labels.len() {
            1nat
        } else {
            0nat
        },
    decreases labels.len(),
{
    if labels.len() > 0 {
        lemma_label_count_identity(labels.drop_last(), l);
    }
}

/// A label held by some node is counted at least once, and a label a node
/// does not hold is counted below the length.
pub proof fn lemma_label_count_member(labels: Seq<usize>, v: int, l: int)
    requires
        0 <= v < labels.len(),
    ensures
        labels[v] == l ==> spec_label_count(labels, l) >= 1,
        labels[v] != l ==> spec_label_count(labels, l) < labels.len(),
        spec_label_count(labels, l) <= labels.len(),
    decreases labels.len(),
{
    if labels.len() > 0 {
        if v == labels.len() - 1 {
            lemma_label_count_bound(labels.drop_last(), l);
        } else {
            lemma_label_count_member(labels.drop_last(), v, l);
        }
    }
}

/// No label is counted more often than there are nodes.
pub proof fn lemma_label_count_bound(labels: Seq<usize>, l: int)
    ensures
        spec_label_count(labels, l) <= labels.len(),
    decreases labels.len(),
{
    if labels.len() > 0 {
        lemma_label_count_bound(labels.drop_last(), l);
    }
}

/// Holds `label[v]` for every node and `volume[l]` for every label.
pub struct LabelStore {
    labels: Vec<usize>,
    volumes: Vec<usize>,
}

impl LabelStore {
    /// The label of each node.
    pub closed spec fn labels_view(&self) -> Seq<usize> {
        self.labels@
    }

    /// The occupancy counter of each label.
    pub closed spec fn volumes_view(&self) -> Seq<usize> {
        self.volumes@
    }

    /// One counter per node, every label a node id, and every counter
    /// exactly the number of nodes now carrying its label.
    pub open spec fn wf(&self) -> bool {
        &&& self.labels_view().len() == self.volumes_view().len()
        &&& forall|v: int|
            0 <= v < self.labels_view().len() ==> (#[trigger] self.labels_view()[v])
                < self.labels_view().len()
        &&& forall|l: int|
            0 <= l < self.volumes_view().len() ==> (#[trigger] self.volumes_view()[l])
                == spec_label_count(self.labels_view(), l)
    }

    /// Builds the store in its initial state: every node its own label,
    /// every volume one.
    pub fn new(n: usize) -> (r: Self)
        ensures
            r.wf(),
            r.labels_view().len() == n,
            forall|v: int| 0 <= v < n ==> (#[trigger] r.labels_view()[v]) == v,
            forall|l: int| 0 <= l < n ==> (#[trigger] r.volumes_view()[l]) == 1,
    {
        let mut labels: Vec<usize> = Vec::new();
        let mut volumes: Vec<usize> = Vec::new();
        let mut i: usize = 0;
        while i < n
            invariant
                i <= n,
                labels@.len() == i,
                volumes@.len() == i,
                forall|v: int| 0 <= v < i ==> (#[trigger] labels@[v]) == v,
                forall|l: int| 0 <= l < i ==> (#[trigger] volumes@[l]) == 1,
            decreases n - i,
        {
            labels.push(i);
            volumes.push(1);
            i = i + 1;
        }
        let r = LabelStore { labels, volumes };
        proof {
            assert forall|l: int| 0 <= l < r.volumes_view().len() implies (#[trigger] r
                .volumes_view()[l]) == spec_label_count(r.labels_view(), l) by {
                lemma_label_count_identity(r.labels_view(), l);
            }
        }
        r
    }

    /// Resets the store to its initial state.
    pub fn init(&mut self)
        requires
            old(self).wf(),
        ensures
            final(self).wf(),
            final(self).labels_view().len() == old(self).labels_view().len(),
            forall|v: int|
                0 <= v < final(self).labels_view().len() ==> (#[trigger] final(self).labels_view()[v]) == v,
            forall|l: int|
                0 <= l < final(self).labels_view().len() ==> (#[trigger] final(self).volumes_view()[l]) == 1,
    {
        let n = self.labels.len();
        let mut i: usize = 0;
        while i < n
            invariant
                i <= n,
                self.labels@.len() == n,
                self.volumes@.len() == n,
                forall|v: int| 0 <= v < i ==> (#[trigger] self.labels@[v]) == v,
                forall|l: int| 0 <= l < i ==> (#[trigger] self.volumes@[l]) == 1,
            decreases n - i,
        {
            self.labels.set(i, i);
            self.volumes.set(i, 1);
            i = i + 1;
        }
        proof {
            assert forall|l: int| 0 <= l < self.volumes@.len() implies (#[trigger] self
                .volumes@[l]) == spec_label_count(self.labels@, l) by {
                lemma_label_count_identity(self.labels@, l);
            }
        }
    }

    pub fn len(&self) -> (r: usize)
        ensures
            r == self.labels_view().len(),
    {
        self.labels.len()
    }

    /// The label of `node`.
    pub fn label(&self, node: usize) -> (r: usize)
        requires
            self.wf(),
            node < self.labels_view().len(),
        ensures
            r == self.labels_view()[node as int],
            r < self.labels_view().len(),
    {
        self.labels[node]
    }

    /// The occupancy of `label`.
    pub fn volume(&self, label: usize) -> (r: usize)
        requires
            self.wf(),
            label < self.labels_view().len(),
        ensures
            r == self.volumes_view()[label as int],
    {
        self.volumes[label]
    }

    /// Relabels `node`, moving one unit of volume from its old label to
    /// the new one.
    pub fn set(&mut self, node: usize, label: usize)
        requires
            old(self).wf(),
            node < old(self).labels_view().len(),
            label < old(self).labels_view().len(),
        ensures
            final(self).wf(),
            final(self).labels_view() == old(self).labels_view().update(node as int, label),
            old(self).labels_view()[node as int] == label ==> final(self).volumes_view() == old(
                self,
            ).volumes_view(),
            ({
                let ol = old(self).labels_view()[node as int] as int;
                let vo = old(self).volumes_view()[ol];
                let vn = old(self).volumes_view()[label as int];
                old(self).labels_view()[node as int] != label ==> final(self).volumes_view() == old(
                    self,
                ).volumes_view().update(ol, (vo - 1) as usize).update(
                    label as int,
                    (vn + 1) as usize,
                )
            }),
    {
        let ghost ls = self.labels@;
        // reading the length pins the node count below the address space
        let nlen = self.labels.len();
        let old_label = self.labels[node];
        if old_label != label {
            proof {
                assert(ls.len() == nlen);
                lemma_label_count_member(ls, node as int, old_label as int);
                lemma_label_count_member(ls, node as int, label as int);
                assert(old(self).volumes_view()[old_label as int] == spec_label_count(
                    ls,
                    old_label as int,
                ));
                assert(old(self).volumes_view()[label as int] == spec_label_count(
                    ls,
                    label as int,
                ));
            }
            let vo = self.volumes[old_label];
            self.volumes.set(old_label, vo - 1);
            let vn = self.volumes[label];
            self.volumes.set(label, vn + 1);
            self.labels.set(node, label);
            proof {
                assert forall|l2: int| 0 <= l2 < self.volumes@.len() implies (#[trigger] self
                    .volumes@[l2]) == spec_label_count(self.labels@, l2) by {
                    lemma_label_count_update(ls, node as int, label, l2);
                    assert(old(self).volumes_view()[l2] == spec_label_count(ls, l2));
                    if l2 == old_label as int {
                        assert(self.volumes@[l2] == vo - 1);
                    } else if l2 == label as int {
                        assert(self.volumes@[l2] == vn + 1);
                    } else {
                        assert(self.volumes@[l2] == old(self).volumes_view()[l2]);
                    }
                }
            }
        } else {
            proof {
                assert(self.labels@ =~= self.labels@.update(node as int, label));
            }
        }
    }

    /// A copy of the label array.
    pub fn labels_vec(&self) -> (r: Vec<usize>)
        ensures
            r@ == self.labels_view(),
    {
        let mut out: Vec<usize> = Vec::new();
        let mut i: usize = 0;
        while i < self.labels.len()
            invariant
                i <= self.labels@.len(),
                out@ == self.labels@.subrange(0, i as int),
            decreases self.labels@.len() - i,
        {
            out.push(self.labels[i]);
            proof {
                assert(self.labels@.subrange(0, i + 1) =~= self.labels@.subrange(0, i as int).push(
                    self.labels@[i as int],
                ));
            }
            i = i + 1;
        }
        proof {
            assert(self.labels@.subrange(0, self.labels@.len() as int) =~= self.labels@);
        }
        out
    }
}

} // verus!
