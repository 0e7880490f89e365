//! Regression trees: partitioning a node's sample by a split, growing a
//! tree best-first up to a leaf budget, and routing an instance to a leaf.
use vstd::prelude::*;
use vstd::multiset::Multiset;
use crate::value::{key, le, order_key, value_le};
use crate::dataset::{DataSet, Instance};

verus! {

broadcast use vstd::seq::Seq::group_seq_extra, vstd::seq_lib::group_to_multiset_ensures;

/// Whether instance `i` of `data` goes left under the split `(fid, threshold)`.
pub open spec fn goes_left(data: Seq<Instance>, fid: usize, threshold: u64, i: usize) -> bool {
    le(data[i as int].value_of(fid as int), threshold)
}

/// A node's sample: the indices of the instances that reach it.
pub struct TrainingSample {
    pub indices: Vec<usize>,
}

impl TrainingSample {
    /// The sample of every instance `0..n`.
    pub fn all(n: usize) -> (r: TrainingSample)
        ensures
            r.indices@.len() == n,
            forall|k: int| 0 <= k < n ==> #[trigger] r.indices@[k] == k,
    {
        let mut indices: Vec<usize> = Vec::new();
        let mut k: usize = 0;
        while k < n
            invariant
                k <= n,
                indices@.len() == k,
                forall|t: int| 0 <= t < k ==> #[trigger] indices@[t] == t,
            decreases n - k,
        {
            indices.push(k);
            k += 1;
        }
        TrainingSample { indices }
    }

    /// Returns the number of instances in the sample.
    pub fn len(&self) -> (r: usize)
        ensures
            r == self.indices@.len(),
    {
        self.indices.len()
    }

    /// Splits the sample: the left part keeps, in order, the instances
    /// whose value of feature `fid` is at most `threshold`, the right part
    /// the others.
    pub fn partition(&self, data: &DataSet, fid: usize, threshold: u64) -> (r: (TrainingSample, TrainingSample))
        requires
            fid >= 1,
            forall|k: int| 0 <= k < self.indices@.len() ==> #[trigger] self.indices@[k] < data.instances@.len(),
        ensures
            r.0.indices@ == self.indices@.filter(|i: usize| goes_left(data.instances@, fid, threshold, i)),
            r.1.indices@ == self.indices@.filter(|i: usize| !goes_left(data.instances@, fid, threshold, i)),
            r.0.indices@.to_multiset().add(r.1.indices@.to_multiset()) == self.indices@.to_multiset(),
    {
        let ghost pred = |i: usize| goes_left(data.instances@, fid, threshold, i);
        let ghost npred = |i: usize| !goes_left(data.instances@, fid, threshold, i);
        let n = self.indices.len();
        let mut left: Vec<usize> = Vec::new();
        let mut right: Vec<usize> = Vec::new();
        let mut k: usize = 0;
        while k < n
            invariant
                n == self.indices@.len(),
                fid >= 1,
                forall|t: int| 0 <= t < n ==> #[trigger] self.indices@[t] < data.instances@.len(),
                k <= n,
                pred == (|i: usize| goes_left(data.instances@, fid, threshold, i)),
                npred == (|i: usize| !goes_left(data.instances@, fid, threshold, i)),
                left@ == self.indices@.subrange(0, k as int).filter(pred),
                right@ == self.indices@.subrange(0, k as int).filter(npred),
                left@.to_multiset().add(right@.to_multiset()) == self.indices@.subrange(0, k as int).to_multiset(),
            decreases n - k,
        {
            let i = self.indices[k];
            let v = data.instances[i].value(fid);
            assert(self.indices@.subrange(0, k as int + 1) == self.indices@.subrange(0, k as int).push(i));
            if value_le(v, threshold) {
                left.push(i);
            } else {
                right.push(i);
            }
            proof {
                let prev = self.indices@.subrange(0, k as int);
                prev.lemma_filter_push(i, pred);
                prev.lemma_filter_push(i, npred);
                assert(pred(i) == le(v, threshold));
                assert(npred(i) == !le(v, threshold));
                assert(left@.to_multiset().add(right@.to_multiset()) =~= self.indices@.subrange(0, k as int + 1).to_multiset());
            }
            k += 1;
        }
        assert(self.indices@.subrange(0, n as int) == self.indices@);
        (TrainingSample { indices: left }, TrainingSample { indices: right })
    }
}

} // verus!

verus! {

/// The best split found for a sample: the feature, the threshold that
/// bounds the left part, and the split's score (a binary64 pattern).
#[derive(Clone, Copy)]
pub struct SplitChoice {
    pub fid: usize,
    pub threshold: u64,
    pub score: u64,
}

/// Chooses among the best splits of each feature: the highest score,
/// the earliest in `choices` among equal scores. `None` when there is no
/// choice.
pub fn best_choice(choices: &Vec<SplitChoice>) -> (r: Option<SplitChoice>)
    ensures
        r.is_none() <==> choices@.len() == 0,
        r matches Some(b) ==> exists|i: int| {
            &&& 0 <= i < choices@.len()
            &&& #[trigger] choices@[i] == b
            &&& forall|j: int| 0 <= j < i ==> key(#[trigger] choices@[j].score) < key(b.score)
            &&& forall|j: int| i < j < choices@.len() ==> key(#[trigger] choices@[j].score) <= key(b.score)
        },
{
    if choices.len() == 0 {
        return None;
    }
    let mut best: usize = 0;
    let mut k: usize = 1;
    while k < choices.len()
        invariant
            0 <= best < k <= choices@.len(),
            forall|j: int| 0 <= j < best ==> key(#[trigger] choices@[j].score) < key(choices@[best as int].score),
            forall|j: int| best < j < k ==> key(#[trigger] choices@[j].score) <= key(choices@[best as int].score),
        decreases choices@.len() - k,
    {
        if order_key(choices[k].score) > order_key(choices[best].score) {
            best = k;
        }
        k += 1;
    }
    let b = choices[best];
    assert(choices@[best as int] == b);
    Some(b)
}

/// A tree node: an internal split, or a leaf with its output (a binary64
/// pattern).
pub enum Node {
    Split { fid: usize, threshold: u64, left: usize, right: usize },
    Leaf { output: u64 },
}

/// A regression tree; node 0 is the root and children follow their parent.
pub struct RegressionTree {
    pub nodes: Vec<Node>,
}

impl RegressionTree {
    /// Every child lies after its parent and inside the tree.
    pub open spec fn wf(&self) -> bool {
        &&& self.nodes@.len() > 0
        &&& forall|i: int| 0 <= i < self.nodes@.len() ==> match #[trigger] self.nodes@[i] {
            Node::Split { fid, left, right, .. } => fid >= 1 && i < left < self.nodes@.len() && i < right < self.nodes@.len(),
            Node::Leaf { .. } => true,
        }
    }

    /// The leaf that `inst` reaches from node `at`: left when its value of
    /// the split feature is at most the threshold, right otherwise.
    pub open spec fn leaf_for(&self, at: int, inst: Instance) -> int
        decreases self.nodes@.len() - at,
    {
        if 0 <= at < self.nodes@.len() {
            match self.nodes@[at] {
                Node::Split { fid, threshold, left, right } => {
                    if at < left < self.nodes@.len() && at < right < self.nodes@.len() {
                        if le(inst.value_of(fid as int), threshold) {
                            self.leaf_for(left as int, inst)
                        } else {
                            self.leaf_for(right as int, inst)
                        }
                    } else {
                        at
                    }
                },
                Node::Leaf { .. } => at,
            }
        } else {
            at
        }
    }

    /// The output of the leaf `inst` reaches from the root.
    pub open spec fn prediction(&self, inst: Instance) -> u64 {
        match self.nodes@[self.leaf_for(0, inst)] {
            Node::Leaf { output } => output,
            Node::Split { .. } => 0,
        }
    }

    /// Returns the output of the leaf that `inst` reaches.
    pub fn predict(&self, inst: &Instance) -> (r: u64)
        requires
            self.wf(),
        ensures
            r == self.prediction(*inst),
    {
        let mut at: usize = 0;
        loop
            invariant
                self.wf(),
                at < self.nodes@.len(),
                self.leaf_for(at as int, *inst) == self.leaf_for(0, *inst),
            decreases self.nodes@.len() - at,
        {
            match &self.nodes[at] {
                Node::Split { fid, threshold, left, right } => {
                    if value_le(inst.value(*fid), *threshold) {
                        at = *left;
                    } else {
                        at = *right;
                    }
                },
                Node::Leaf { output } => {
                    return *output;
                },
            }
        }
    }

    /// Sets the output of leaf `node`.
    pub fn set_output(&mut self, node: usize, output: u64)
        requires
            node < old(self).nodes@.len(),
            old(self).nodes@[node as int] is Leaf,
        ensures
            final(self).nodes@ == old(self).nodes@.update(node as int, Node::Leaf { output }),
            old(self).wf() ==> final(self).wf(),
            forall|inst: Instance| #[trigger] final(self).leaf_for(0, inst) == old(self).leaf_for(0, inst),
    {
        let ghost before = *self;
        self.nodes.set(node, Node::Leaf { output });
        proof {
            if before.wf() {
                lemma_set_output_wf(before, *self, node as int, output);
            }
            assert forall|inst: Instance| #[trigger] self.leaf_for(0, inst) == before.leaf_for(0, inst) by {
                lemma_set_output_keeps_routes(before, *self, node as int, output, 0, inst);
            }
        }
    }

    /// Returns the number of nodes.
    pub fn len(&self) -> (r: usize)
        ensures
            r == self.nodes@.len(),
    {
        self.nodes.len()
    }
}

/// Setting a leaf's output keeps a tree well formed.
proof fn lemma_set_output_wf(t: RegressionTree, t2: RegressionTree, node: int, output: u64)
    requires
        t.wf(),
        0 <= node < t.nodes@.len(),
        t.nodes@[node] is Leaf,
        t2.nodes@ == t.nodes@.update(node, Node::Leaf { output }),
    ensures
        t2.wf(),
{
    assert forall|i: int| 0 <= i < t2.nodes@.len() implies match #[trigger] t2.nodes@[i] {
        Node::Split { fid, left, right, .. } => fid >= 1 && i < left < t2.nodes@.len() && i < right < t2.nodes@.len(),
        Node::Leaf { .. } => true,
    } by {
        if i != node {
            assert(t2.nodes@[i] == t.nodes@[i]);
        }
    }
}

/// A leaf of the tree under construction: its node, its sample and its
/// pre-evaluated split (`None` when it cannot split). Nodes are numbered
/// in the order they were created.
pub struct Candidate {
    pub node: usize,
    pub sample: TrainingSample,
    pub split: Option<SplitChoice>,
}

/// The instances held by a sequence of candidates, counted with
/// multiplicity.
pub open spec fn union_of(s: Seq<Candidate>) -> Multiset<usize>
    decreases s.len(),
{
    if s.len() == 0 {
        Multiset::empty()
    } else {
        union_of(s.drop_last()).add(s.last().sample.indices@.to_multiset())
    }
}

/// Candidate `a` is expanded before `b`: a higher split score first, then
/// the lower feature id, the lower threshold, the earlier candidate.
pub open spec fn expands_before(a: Candidate, b: Candidate) -> bool {
    let (x, y) = (a.split.unwrap(), b.split.unwrap());
    key(x.score) > key(y.score)
        || (key(x.score) == key(y.score) && x.fid < y.fid)
        || (key(x.score) == key(y.score) && x.fid == y.fid && key(x.threshold) < key(y.threshold))
        || (key(x.score) == key(y.score) && x.fid == y.fid && key(x.threshold) == key(y.threshold) && a.node < b.node)
}

/// Grows a regression tree best-first. The open candidates are the
/// current leaves; expanding one turns it into a split node with two new
/// candidate leaves.
pub struct TreeGrower {
    pub max_leaves: usize,
    pub n: usize,
    pub data: Ghost<Seq<Instance>>,
    pub root: Ghost<Seq<usize>>,
    pub tree: RegressionTree,
    pub open: Vec<Candidate>,
}

impl TreeGrower {
    /// The open candidates are distinct leaves of the tree, hold together
    /// exactly the root sample, index the data set, and are at most
    /// `max_leaves`.
    pub open spec fn wf(&self) -> bool {
        &&& self.tree.wf()
        &&& 1 <= self.open@.len() <= self.max_leaves
        &&& union_of(self.open@) == self.root@.to_multiset()
        &&& forall|c: int| 0 <= c < self.open@.len() ==> {
            let cand = #[trigger] self.open@[c];
            &&& cand.node < self.tree.nodes@.len()
            &&& self.tree.nodes@[cand.node as int] is Leaf
            &&& (cand.split matches Some(s) ==> s.fid >= 1)
            &&& forall|k: int| 0 <= k < cand.sample.indices@.len() ==> #[trigger] cand.sample.indices@[k] < self.n
            &&& forall|k: int| 0 <= k < cand.sample.indices@.len() ==>
                self.tree.leaf_for(0, self.data@[#[trigger] cand.sample.indices@[k] as int]) == cand.node
        }
        &&& self.data@.len() == self.n
        &&& forall|a: int, b: int| 0 <= a < b < self.open@.len() ==> (#[trigger] self.open@[a]).node != (#[trigger] self.open@[b]).node
    }

    /// Starts a tree whose root holds `root`, over the instances of
    /// `data`, with at most `max_leaves` leaves.
    pub fn new(root: TrainingSample, data: &DataSet, max_leaves: usize) -> (r: TreeGrower)
        requires
            max_leaves >= 1,
            forall|k: int| 0 <= k < root.indices@.len() ==> #[trigger] root.indices@[k] < data.instances@.len(),
        ensures
            r.wf(),
            r.root@ == root.indices@,
            r.data@ == data.instances@,
            r.max_leaves == max_leaves,
            r.n == data.instances@.len(),
            r.tree.nodes@ == seq![Node::Leaf { output: 0 }],
            r.open@.len() == 1,
            r.open@[0].node == 0,
            r.open@[0].sample == root,
            r.open@[0].split.is_none(),
    {
        let ghost rs = root.indices@;
        let n = data.len();
        let mut nodes: Vec<Node> = Vec::new();
        nodes.push(Node::Leaf { output: 0 });
        let mut open: Vec<Candidate> = Vec::new();
        open.push(Candidate { node: 0, sample: root, split: None });
        proof {
            assert(open@.drop_last() =~= Seq::<Candidate>::empty());
            assert(union_of(Seq::<Candidate>::empty()) == Multiset::<usize>::empty());
            assert(union_of(open@) =~= rs.to_multiset());
        }
        assert(nodes@ =~= seq![Node::Leaf { output: 0 }]);
        let g = TreeGrower { max_leaves, n, data: Ghost(data.instances@), root: Ghost(rs), tree: RegressionTree { nodes }, open };
        assert forall|inst: Instance| g.tree.leaf_for(0, inst) == 0 by {}
        g
    }

    /// Records the evaluated split of candidate `c`.
    pub fn set_split(&mut self, c: usize, split: Option<SplitChoice>)
        requires
            old(self).wf(),
            c < old(self).open@.len(),
            split matches Some(s) ==> s.fid >= 1,
        ensures
            final(self).wf(),
            final(self).root == old(self).root,
            final(self).data == old(self).data,
            final(self).tree == old(self).tree,
            final(self).max_leaves == old(self).max_leaves,
            final(self).n == old(self).n,
            final(self).open@.len() == old(self).open@.len(),
            forall|d: int| 0 <= d < final(self).open@.len() && d != c ==> #[trigger] final(self).open@[d] == old(self).open@[d],
            final(self).open@[c as int].split == split,
            final(self).open@[c as int].sample == old(self).open@[c as int].sample,
            final(self).open@[c as int].node == old(self).open@[c as int].node,
    {
        let ghost old_open = self.open@;
        let mut cand = self.open.remove(c);
        cand.split = split;
        self.open.insert(c, cand);
        proof {
            assert(self.open@ =~= old_open.update(c as int, self.open@[c as int]));
            lemma_union_update_split(old_open, c as int, self.open@[c as int]);
        }
    }

    /// Chooses the candidate to expand next: `None` once the tree has
    /// `max_leaves` leaves or no candidate can split, else the candidate
    /// that expands before every other splittable one.
    pub fn pick(&self) -> (r: Option<usize>)
        requires
            self.wf(),
        ensures
            r.is_none() <==> (self.open@.len() >= self.max_leaves
                || (forall|c: int| 0 <= c < self.open@.len() ==> (#[trigger] self.open@[c]).split.is_none())),
            r matches Some(c) ==> c < self.open@.len() && self.open@[c as int].split.is_some()
                && forall|d: int| 0 <= d < self.open@.len() && d != c && (#[trigger] self.open@[d]).split.is_some()
                    ==> expands_before(self.open@[c as int], self.open@[d]),
    {
        if self.open.len() >= self.max_leaves {
            return None;
        }
        let mut best: Option<usize> = None;
        let mut c: usize = 0;
        while c < self.open.len()
            invariant
                self.wf(),
                c <= self.open@.len(),
                best.is_none() ==> forall|d: int| 0 <= d < c ==> (#[trigger] self.open@[d]).split.is_none(),
                best matches Some(b) ==> b < c && self.open@[b as int].split.is_some()
                    && forall|d: int| 0 <= d < c && d != b && (#[trigger] self.open@[d]).split.is_some()
                        ==> expands_before(self.open@[b as int], self.open@[d]),
            decreases self.open@.len() - c,
        {
            match self.open[c].split {
                Some(s) => {
                    match best {
                        None => {
                            best = Some(c);
                        },
                        Some(b) => {
                            let t = self.open[b].split.unwrap();
                            let (ks, kt) = (order_key(s.score), order_key(t.score));
                            let (hs, ht) = (order_key(s.threshold), order_key(t.threshold));
                            let better = ks > kt || (ks == kt && s.fid < t.fid)
                                || (ks == kt && s.fid == t.fid && hs < ht)
                                || (ks == kt && s.fid == t.fid && hs == ht && self.open[c].node < self.open[b].node);
                            proof {
                                assert(self.open@[c as int].node != self.open@[b as int].node);
                            }
                            if better {
                                best = Some(c);
                            }
                        },
                    }
                },
                None => {},
            }
            c += 1;
        }
        best
    }

    /// Expands candidate `c` by its split: its node becomes a split node
    /// and its sample is partitioned between two new candidate leaves,
    /// appended to the open list. Returns their positions there.
    pub fn expand(&mut self, c: usize, data: &DataSet) -> (r: (usize, usize))
        requires
            old(self).wf(),
            c < old(self).open@.len(),
            old(self).open@.len() < old(self).max_leaves,
            old(self).open@[c as int].split.is_some(),
            data.instances@ == old(self).data@,
        ensures
            final(self).wf(),
            final(self).root == old(self).root,
            final(self).data == old(self).data,
            final(self).max_leaves == old(self).max_leaves,
            final(self).n == old(self).n,
            final(self).open@.len() == old(self).open@.len() + 1,
            r.0 == old(self).open@.len() - 1,
            r.1 == old(self).open@.len(),
            final(self).open@.subrange(0, r.0 as int) == old(self).open@.remove(c as int),
            ({
                let cand = old(self).open@[c as int];
                let s = cand.split.unwrap();
                &&& final(self).tree.nodes@.len() == old(self).tree.nodes@.len() + 2
                &&& forall|i: int| 0 <= i < old(self).tree.nodes@.len() && i != cand.node
                    ==> #[trigger] final(self).tree.nodes@[i] == old(self).tree.nodes@[i]
                &&& final(self).open@[r.0 as int].node == old(self).tree.nodes@.len()
                &&& final(self).open@[r.1 as int].node == old(self).tree.nodes@.len() + 1
                &&& final(self).tree.nodes@[old(self).tree.nodes@.len() as int] == (Node::Leaf { output: 0 })
                &&& final(self).tree.nodes@[old(self).tree.nodes@.len() as int + 1] == (Node::Leaf { output: 0 })
                &&& final(self).tree.nodes@[cand.node as int] == (Node::Split {
                    fid: s.fid,
                    threshold: s.threshold,
                    left: final(self).open@[r.0 as int].node,
                    right: final(self).open@[r.1 as int].node,
                })
            }),
            ({
                let cand = old(self).open@[c as int];
                let s = cand.split.unwrap();
                &&& final(self).open@[r.0 as int].sample.indices@ == cand.sample.indices@.filter(|i: usize| goes_left(data.instances@, s.fid, s.threshold, i))
                &&& final(self).open@[r.1 as int].sample.indices@ == cand.sample.indices@.filter(|i: usize| !goes_left(data.instances@, s.fid, s.threshold, i))
                &&& final(self).open@[r.0 as int].split.is_none()
                &&& final(self).open@[r.1 as int].split.is_none()
            }),
    {
        let ghost old_open = self.open@;
        let ghost old_nodes = self.tree.nodes@;
        let ghost old_tree = self.tree;
        let cand = self.open.remove(c);
        proof {
            lemma_union_remove(old_open, c as int);
            assert(old_open[c as int] == cand);
            assert forall|k: int| 0 <= k < cand.sample.indices@.len() implies #[trigger] cand.sample.indices@[k] < data.instances@.len() by {
                assert(old_open[c as int].sample.indices@[k] < self.n);
            }
        }
        let s = cand.split.unwrap();
        let (left, right) = cand.sample.partition(data, s.fid, s.threshold);
        let ghost removed = self.open@;
        proof {
            let pl = |i: usize| goes_left(data.instances@, s.fid, s.threshold, i);
            let pr = |i: usize| !goes_left(data.instances@, s.fid, s.threshold, i);
            assert forall|k: int| 0 <= k < left.indices@.len() implies #[trigger] left.indices@[k] < self.n by {
                assert(cand.sample.indices@.filter(pl).contains(left.indices@[k]));
                let t = choose|t: int| 0 <= t < cand.sample.indices@.len() && cand.sample.indices@[t] == left.indices@[k];
            }
            assert forall|k: int| 0 <= k < right.indices@.len() implies #[trigger] right.indices@[k] < self.n by {
                assert(cand.sample.indices@.filter(pr).contains(right.indices@[k]));
                let t = choose|t: int| 0 <= t < cand.sample.indices@.len() && cand.sample.indices@[t] == right.indices@[k];
            }
        }
        self.tree.nodes.push(Node::Leaf { output: 0 });
        self.tree.nodes.push(Node::Leaf { output: 0 });
        let nr = self.tree.nodes.len() - 1;
        let nl = nr - 1;
        self.tree.nodes.set(cand.node, Node::Split { fid: s.fid, threshold: s.threshold, left: nl, right: nr });
        let pos = self.open.len();
        self.open.push(Candidate { node: nl, sample: left, split: None });
        self.open.push(Candidate { node: nr, sample: right, split: None });
        proof {
            let l = Candidate { node: nl, sample: left, split: None };
            let r = Candidate { node: nr, sample: right, split: None };
            assert(self.open@ == removed.push(l).push(r));
            assert(removed.push(l).push(r).drop_last() == removed.push(l));
            assert(removed.push(l).drop_last() == removed);
            let a = union_of(removed);
            assert(a.add(left.indices@.to_multiset()).add(right.indices@.to_multiset()) =~= a.add(cand.sample.indices@.to_multiset()));
            assert forall|d: int| 0 <= d < removed.len() implies (#[trigger] removed[d]).node != cand.node && removed[d].node < nl by {
                if d < c {
                    assert(removed[d] == old_open[d]);
                } else {
                    assert(removed[d] == old_open[d + 1]);
                }
            }
            assert(self.open@.subrange(0, pos as int) =~= removed);
            assert(self.tree.wf()) by {
                assert forall|i: int| 0 <= i < self.tree.nodes@.len() implies match #[trigger] self.tree.nodes@[i] {
                    Node::Split { fid, left, right, .. } => fid >= 1 && i < left < self.tree.nodes@.len() && i < right < self.tree.nodes@.len(),
                    Node::Leaf { .. } => true,
                } by {
                    if i != cand.node && i < nl {
                        assert(self.tree.nodes@[i] == old_nodes[i]);
                    }
                }
            }
            assert(union_of(removed.push(l)) == a.add(left.indices@.to_multiset()));
            assert(union_of(removed.push(l).push(r)) == union_of(removed.push(l)).add(right.indices@.to_multiset()));
            assert(union_of(self.open@) == self.root@.to_multiset());
            let t2 = self.tree;
            assert(keeps_nodes_but(old_tree, t2, cand.node as int));
            let pl = |i: usize| goes_left(data.instances@, s.fid, s.threshold, i);
            let pr = |i: usize| !goes_left(data.instances@, s.fid, s.threshold, i);
            broadcast use vstd::seq_lib::group_filter_ensures;
            assert forall|d: int| 0 <= d < self.open@.len() implies {
                let cd = #[trigger] self.open@[d];
                &&& cd.node < self.tree.nodes@.len()
                &&& self.tree.nodes@[cd.node as int] is Leaf
                &&& (cd.split matches Some(s) ==> s.fid >= 1)
                &&& forall|k: int| 0 <= k < cd.sample.indices@.len() ==> #[trigger] cd.sample.indices@[k] < self.n
                &&& forall|k: int| 0 <= k < cd.sample.indices@.len() ==>
                    self.tree.leaf_for(0, self.data@[#[trigger] cd.sample.indices@[k] as int]) == cd.node
            } by {
                let cd = self.open@[d];
                if d < removed.len() {
                    assert(self.open@[d] == removed[d]);
                    let od = if d < c { d } else { d + 1 };
                    assert(removed[d] == old_open[od]);
                    assert(self.tree.nodes@[removed[d].node as int] == old_nodes[removed[d].node as int]);
                    assert forall|k: int| 0 <= k < cd.sample.indices@.len() implies
                        self.tree.leaf_for(0, self.data@[#[trigger] cd.sample.indices@[k] as int]) == cd.node by {
                        let inst = self.data@[cd.sample.indices@[k] as int];
                        assert(old_tree.leaf_for(0, inst) == old_open[od].node);
                        lemma_route_avoids(old_tree, t2, cand.node as int, 0, inst);
                    }
                } else {
                    let went_left = d == removed.len();
                    assert forall|k: int| 0 <= k < cd.sample.indices@.len() implies
                        self.tree.leaf_for(0, self.data@[#[trigger] cd.sample.indices@[k] as int]) == cd.node by {
                        let i = cd.sample.indices@[k];
                        let inst = self.data@[i as int];
                        if went_left {
                            assert(cand.sample.indices@.filter(pl).contains(i));
                            assert(pl(i));
                        } else {
                            assert(cand.sample.indices@.filter(pr).contains(i));
                            assert(pr(i));
                        }
                        let k0 = choose|k0: int| 0 <= k0 < cand.sample.indices@.len() && cand.sample.indices@[k0] == i;
                        assert(old_open[c as int].sample.indices@[k0] == i);
                        assert(old_tree.leaf_for(0, inst) == cand.node);
                        lemma_route_reaches(old_tree, t2, cand.node as int, 0, inst);
                        assert(t2.leaf_for(nl as int, inst) == nl);
                        assert(t2.leaf_for(nr as int, inst) == nr);
                    }
                }
            }
            assert forall|a: int, b: int| 0 <= a < b < self.open@.len() implies (#[trigger] self.open@[a]).node != (#[trigger] self.open@[b]).node by {
                if b < removed.len() {
                    if a < c {
                        assert(removed[a] == old_open[a]);
                    } else {
                        assert(removed[a] == old_open[a + 1]);
                    }
                    if b < c {
                        assert(removed[b] == old_open[b]);
                    } else {
                        assert(removed[b] == old_open[b + 1]);
                    }
                }
            }
        }
        (pos, pos + 1)
    }
}

/// Partition law: the samples of a tree's leaves together hold exactly
/// the root sample (counting repeats); so when the root holds each index
/// once, no index lies in two leaves.
pub proof fn lemma_leaves_partition(g: &TreeGrower)
    requires
        g.wf(),
    ensures
        union_of(g.open@) == g.root@.to_multiset(),
        g.root@.no_duplicates() ==> forall|a: int, b: int, x: usize|
            0 <= a < b < g.open@.len() && #[trigger] g.open@[a].sample.indices@.contains(x)
                ==> !#[trigger] g.open@[b].sample.indices@.contains(x),
{
    if g.root@.no_duplicates() {
        g.root@.lemma_multiset_has_no_duplicates();
        assert forall|a: int, b: int, x: usize|
            0 <= a < b < g.open@.len() && #[trigger] g.open@[a].sample.indices@.contains(x)
                implies !#[trigger] g.open@[b].sample.indices@.contains(x) by {
            if g.open@[b].sample.indices@.contains(x) {
                lemma_union_two(g.open@, a, b, x);
                assert(g.root@.to_multiset().contains(x));
            }
        }
    }
}

/// An index held by two candidates is counted twice.
proof fn lemma_union_two(s: Seq<Candidate>, a: int, b: int, x: usize)
    requires
        0 <= a < b < s.len(),
    ensures
        union_of(s).count(x) >= s[a].sample.indices@.to_multiset().count(x) + s[b].sample.indices@.to_multiset().count(x),
{
    lemma_union_remove(s, a);
    let t = s.remove(a);
    assert(t[b - 1] == s[b]);
    lemma_union_remove(t, b - 1);
}

/// `t2` keeps every node of `t` but `target` (and may add nodes after).
pub open spec fn keeps_nodes_but(t: RegressionTree, t2: RegressionTree, target: int) -> bool {
    &&& t2.nodes@.len() >= t.nodes@.len()
    &&& forall|i: int| 0 <= i < t.nodes@.len() && i != target ==> #[trigger] t2.nodes@[i] == t.nodes@[i]
}

/// A route that avoids the leaf `target` is the same in a tree that
/// changes only `target`.
proof fn lemma_route_avoids(t: RegressionTree, t2: RegressionTree, target: int, at: int, inst: Instance)
    requires
        t.wf(),
        keeps_nodes_but(t, t2, target),
        0 <= target < t.nodes@.len(),
        t.nodes@[target] is Leaf,
        0 <= at < t.nodes@.len(),
        t.leaf_for(at, inst) != target,
    ensures
        t2.leaf_for(at, inst) == t.leaf_for(at, inst),
    decreases t.nodes@.len() - at,
{
    assert(t2.nodes@[at] == t.nodes@[at]);
    match t.nodes@[at] {
        Node::Split { fid, threshold, left, right } => {
            if le(inst.value_of(fid as int), threshold) {
                lemma_route_avoids(t, t2, target, left as int, inst);
            } else {
                lemma_route_avoids(t, t2, target, right as int, inst);
            }
        },
        Node::Leaf { .. } => {},
    }
}

/// A route that reached the leaf `target` continues from `target` in a
/// tree that changes only `target`.
proof fn lemma_route_reaches(t: RegressionTree, t2: RegressionTree, target: int, at: int, inst: Instance)
    requires
        t.wf(),
        keeps_nodes_but(t, t2, target),
        0 <= target < t.nodes@.len(),
        t.nodes@[target] is Leaf,
        0 <= at < t.nodes@.len(),
        t.leaf_for(at, inst) == target,
    ensures
        t2.leaf_for(at, inst) == t2.leaf_for(target, inst),
    decreases t.nodes@.len() - at,
{
    if at != target {
        assert(t2.nodes@[at] == t.nodes@[at]);
        match t.nodes@[at] {
            Node::Split { fid, threshold, left, right } => {
                if le(inst.value_of(fid as int), threshold) {
                    lemma_route_reaches(t, t2, target, left as int, inst);
                } else {
                    lemma_route_reaches(t, t2, target, right as int, inst);
                }
            },
            Node::Leaf { .. } => {},
        }
    }
}

/// Routing law: while a tree grows, every instance of a leaf's sample is
/// routed by the tree's thresholds to that very leaf. So the output a leaf
/// adds to the model scores of its sample is what `predict` gives for
/// those instances.
pub proof fn lemma_sample_routes_to_leaf(g: &TreeGrower, c: int, k: int)
    requires
        g.wf(),
        0 <= c < g.open@.len(),
        0 <= k < g.open@[c].sample.indices@.len(),
    ensures
        g.tree.leaf_for(0, g.data@[g.open@[c].sample.indices@[k] as int]) == g.open@[c].node,
{
    assert(g.open@[c].sample.indices@[k] == g.open@[c].sample.indices@[k]);
}

/// Setting leaf outputs keeps every route.
proof fn lemma_set_output_keeps_routes(t: RegressionTree, t2: RegressionTree, node: int, output: u64, at: int, inst: Instance)
    requires
        0 <= node < t.nodes@.len(),
        t.nodes@[node] is Leaf,
        t2.nodes@ == t.nodes@.update(node, Node::Leaf { output }),
    ensures
        t2.leaf_for(at, inst) == t.leaf_for(at, inst),
    decreases t.nodes@.len() - at,
{
    if 0 <= at < t.nodes@.len() {
        match t.nodes@[at] {
            Node::Split { fid, threshold, left, right } => {
                assert(at != node);
                assert(t2.nodes@[at] == t.nodes@[at]);
                if at < left < t.nodes@.len() && at < right < t.nodes@.len() {
                    lemma_set_output_keeps_routes(t, t2, node, output, left as int, inst);
                    lemma_set_output_keeps_routes(t, t2, node, output, right as int, inst);
                }
            },
            Node::Leaf { .. } => {},
        }
    }
}

/// Changing a candidate's split leaves the instances held unchanged.
proof fn lemma_union_update_split(s: Seq<Candidate>, c: int, cand: Candidate)
    requires
        0 <= c < s.len(),
        cand.sample == s[c].sample,
    ensures
        union_of(s.update(c, cand)) == union_of(s),
    decreases s.len(),
{
    let t = s.update(c, cand);
    if c < s.len() - 1 {
        assert(t.drop_last() =~= s.drop_last().update(c, cand));
        lemma_union_update_split(s.drop_last(), c, cand);
    } else {
        assert(t.drop_last() =~= s.drop_last());
    }
}

/// The instances of a sequence of candidates are those of candidate `c`
/// and those of the others.
proof fn lemma_union_remove(s: Seq<Candidate>, c: int)
    requires
        0 <= c < s.len(),
    ensures
        union_of(s) == union_of(s.remove(c)).add(s[c].sample.indices@.to_multiset()),
    decreases s.len(),
{
    if c == s.len() - 1 {
        assert(s.remove(c) =~= s.drop_last());
    } else {
        lemma_union_remove(s.drop_last(), c);
        assert(s.remove(c).drop_last() =~= s.drop_last().remove(c));
        assert(s.remove(c).last() == s.last());
        let a = union_of(s.drop_last().remove(c));
        let x = s[c].sample.indices@.to_multiset();
        let y = s.last().sample.indices@.to_multiset();
        assert(a.add(x).add(y) =~= a.add(y).add(x));
    }
}

} // verus!
