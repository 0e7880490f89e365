//! Instances and data sets. A label and each feature value is held as the
//! bit pattern of a binary64 number (see `value`).
use vstd::prelude::*;
use crate::value::ZERO_BITS;
use crate::ranking::{is_ranking, order_by_keys};

verus! {

/// One ranked document: its grade, its query id and its feature values.
/// `values[f - 1]` is the value of feature `f`; features past the end are 0.
pub struct Instance {
    pub label: u64,
    pub qid: u64,
    pub values: Vec<u64>,
}

/// The value given last to feature `id` among `features`, if any.
pub open spec fn last_value_of(features: Seq<(u64, u64)>, id: int) -> Option<u64>
    decreases features.len(),
{
    if features.len() == 0 {
        None
    } else if features.last().0 == id {
        Some(features.last().1)
    } else {
        last_value_of(features.drop_last(), id)
    }
}

/// The largest feature id among `features`, 0 when there are none.
pub open spec fn max_id(features: Seq<(u64, u64)>) -> nat
    decreases features.len(),
{
    if features.len() == 0 {
        0
    } else {
        let rest = max_id(features.drop_last());
        if features.last().0 > rest { features.last().0 as nat } else { rest }
    }
}

proof fn lemma_max_id_bounds(features: Seq<(u64, u64)>, id: int)
    ensures
        id > max_id(features) ==> last_value_of(features, id).is_none(),
        forall|k: int| 0 <= k < features.len() ==> (#[trigger] features[k]).0 <= max_id(features),
    decreases features.len(),
{
    if features.len() > 0 {
        lemma_max_id_bounds(features.drop_last(), id);
        assert forall|k: int| 0 <= k < features.len() implies (#[trigger] features[k]).0 <= max_id(features) by {
            if k < features.len() - 1 {
                assert(features[k] == features.drop_last()[k]);
            }
        }
    }
}

impl Instance {
    /// Builds an instance from sparse `(feature id, value)` pairs, as read
    /// from a line: features run from 1 to the largest id given; a
    /// feature given twice keeps its last value, one never given is 0, and
    /// id 0 is ignored.
    pub fn from_features(label: u64, qid: u64, features: &Vec<(u64, u64)>) -> (r: Instance)
        requires
            forall|k: int| 0 <= k < features@.len() ==> (#[trigger] features@[k]).0 < usize::MAX,
        ensures
            r.label == label,
            r.qid == qid,
            r.values@.len() == max_id(features@),
            forall|f: int| 1 <= f <= r.values@.len() ==> #[trigger] r.values@[f - 1] == match last_value_of(features@, f) {
                Some(v) => v,
                None => ZERO_BITS,
            },
    {
        let n = features.len();
        let mut max: u64 = 0;
        let mut k: usize = 0;
        while k < n
            invariant
                n == features@.len(),
                k <= n,
                max == max_id(features@.take(k as int)),
                forall|t: int| 0 <= t < n ==> (#[trigger] features@[t]).0 < usize::MAX,
                max < usize::MAX,
            decreases n - k,
        {
            assert(features@.take(k as int + 1).drop_last() =~= features@.take(k as int));
            if features[k].0 > max {
                max = features[k].0;
            }
            k += 1;
        }
        assert(features@.take(n as int) =~= features@);
        let len = max as usize;
        let mut values: Vec<u64> = Vec::new();
        let mut f: usize = 0;
        while f < len
            invariant
                f <= len,
                values@.len() == f,
                forall|t: int| 0 <= t < f ==> #[trigger] values@[t] == ZERO_BITS,
            decreases len - f,
        {
            values.push(ZERO_BITS);
            f += 1;
        }
        let mut k: usize = 0;
        while k < n
            invariant
                n == features@.len(),
                len == max_id(features@),
                k <= n,
                values@.len() == len,
                forall|f: int| 1 <= f <= len ==> #[trigger] values@[f - 1] == match last_value_of(features@.take(k as int), f) {
                    Some(v) => v,
                    None => ZERO_BITS,
                },
            decreases n - k,
        {
            let (id, v) = features[k];
            proof {
                lemma_max_id_bounds(features@, 0);
                assert(features@[k as int].0 <= len);
                assert(features@.take(k as int + 1).drop_last() =~= features@.take(k as int));
                assert(features@.take(k as int + 1).last() == features@[k as int]);
            }
            if id >= 1 {
                values.set((id - 1) as usize, v);
            }
            k += 1;
        }
        assert(features@.take(n as int) =~= features@);
        Instance { label, qid, values }
    }

    /// Creates a new instance.
    pub fn new(label: u64, qid: u64, values: Vec<u64>) -> (r: Instance)
        ensures
            r.label == label,
            r.qid == qid,
            r.values@ == values@,
    {
        Instance { label, qid, values }
    }

    /// The value of feature `id` in this instance (1-based), as a spec.
    pub open spec fn value_of(&self, id: int) -> u64 {
        if 1 <= id <= self.values@.len() { self.values@[id - 1] } else { ZERO_BITS }
    }

    /// Returns the value of feature `id`; 0 past the stored features.
    pub fn value(&self, id: usize) -> (r: u64)
        requires
            id >= 1,
        ensures
            r == self.value_of(id as int),
    {
        if id <= self.values.len() {
            self.values[id - 1]
        } else {
            ZERO_BITS
        }
    }

    /// Returns the stored feature values, feature 1 first.
    pub fn values(&self) -> (r: &Vec<u64>)
        ensures
            r@ == self.values@,
    {
        &self.values
    }

    /// Returns the largest feature id stored.
    pub fn max_feature_id(&self) -> (r: usize)
        ensures
            r == self.values@.len(),
    {
        self.values.len()
    }

    /// Returns the label.
    pub fn label(&self) -> (r: u64)
        ensures
            r == self.label,
    {
        self.label
    }

    /// Returns the query id.
    pub fn qid(&self) -> (r: u64)
        ensures
            r == self.qid,
    {
        self.qid
    }
}

/// The number of features of a sequence of instances: the largest
/// `max_feature_id` among them, 0 when there are none.
pub open spec fn max_features(s: Seq<Instance>) -> nat
    decreases s.len(),
{
    if s.len() == 0 {
        0
    } else {
        let rest = max_features(s.drop_last());
        let last = s.last().values@.len();
        if last > rest { last } else { rest }
    }
}

/// The query ids of a sequence of instances, in order.
pub open spec fn qids_of(s: Seq<Instance>) -> Seq<u64> {
    s.map_values(|i: Instance| i.qid)
}

/// `groups` splits `qids` into its maximal runs of equal query ids, in
/// order: each group lists the consecutive positions of one run together
/// with the run's qid, the groups together cover every position once, and
/// two neighbouring groups have different qids.
pub open spec fn is_query_grouping(qids: Seq<u64>, groups: Seq<(u64, Vec<usize>)>) -> bool {
    &&& (groups.len() == 0 <==> qids.len() == 0)
    &&& forall|g: int| 0 <= g < groups.len() ==> {
        let members = #[trigger] groups[g].1@;
        &&& members.len() > 0
        &&& forall|j: int| 0 <= j < members.len() ==> {
            &&& #[trigger] members[j] == members[0] + j
            &&& members[j] < qids.len()
            &&& qids[members[j] as int] == groups[g].0
        }
    }
    &&& groups.len() > 0 ==> groups[0].1@[0] == 0
    &&& groups.len() > 0 ==> groups.last().1@[0] + groups.last().1@.len() == qids.len()
    &&& forall|g: int| 0 <= g < groups.len() - 1 ==> {
        &&& (#[trigger] groups[g + 1]).1@[0] == groups[g].1@[0] + groups[g].1@.len()
        &&& groups[g].0 != groups[g + 1].0
    }
}

/// The indices `0..n`.
pub open spec fn positions(n: nat) -> Seq<usize> {
    Seq::new(n, |i: int| i as usize)
}

/// An ordered sequence of instances. Instances of one query are expected
/// to be contiguous; `query_iter` groups runs of equal qids.
pub struct DataSet {
    pub nfeatures: usize,
    pub instances: Vec<Instance>,
}

impl DataSet {
    /// Creates a data set; its number of features is the largest feature
    /// id of any instance.
    pub fn new(instances: Vec<Instance>) -> (r: DataSet)
        ensures
            r.instances@ == instances@,
            r.nfeatures == max_features(instances@),
    {
        let mut nfeatures: usize = 0;
        let mut i: usize = 0;
        while i < instances.len()
            invariant
                i <= instances@.len(),
                nfeatures == max_features(instances@.subrange(0, i as int)),
            decreases instances@.len() - i,
        {
            assert(instances@.subrange(0, i as int + 1).drop_last() =~= instances@.subrange(0, i as int));
            let n = instances[i].values.len();
            if n > nfeatures {
                nfeatures = n;
            }
            i += 1;
        }
        assert(instances@.subrange(0, i as int) =~= instances@);
        DataSet { nfeatures, instances }
    }

    /// Returns the number of instances.
    pub fn len(&self) -> (r: usize)
        ensures
            r == self.instances@.len(),
    {
        self.instances.len()
    }

    /// Returns the number of features; feature ids run from 1 to it.
    pub fn nfeatures(&self) -> (r: usize)
        ensures
            r == self.nfeatures,
    {
        self.nfeatures
    }

    /// Returns the instance at `index`.
    pub fn get(&self, index: usize) -> (r: &Instance)
        requires
            index < self.instances@.len(),
        ensures
            *r == self.instances@[index as int],
    {
        &self.instances[index]
    }

    /// `order` lists every instance index by ascending value of feature
    /// `fid`, equal values by index.
    pub open spec fn sorted_by_feature(&self, fid: int, order: Seq<usize>) -> bool {
        is_ranking(positions(self.instances@.len()), self.feature_values(fid), false, order)
    }

    /// The values of feature `fid` of every instance, in order.
    pub open spec fn feature_values(&self, fid: int) -> Seq<u64> {
        Seq::new(self.instances@.len(), |i: int| self.instances@[i].value_of(fid))
    }

    /// Returns the values of feature `fid`, one per instance.
    pub fn feature_value_iter(&self, fid: usize) -> (r: Vec<u64>)
        requires
            fid >= 1,
        ensures
            r@ == self.feature_values(fid as int),
    {
        let n = self.instances.len();
        let mut r: Vec<u64> = Vec::new();
        let mut i: usize = 0;
        while i < n
            invariant
                n == self.instances@.len(),
                fid >= 1,
                i <= n,
                r@ == self.feature_values(fid as int).take(i as int),
            decreases n - i,
        {
            r.push(self.instances[i].value(fid));
            assert(self.feature_values(fid as int).take(i as int + 1) =~= r@);
            i += 1;
        }
        assert(self.feature_values(fid as int).take(n as int) =~= self.feature_values(fid as int));
        r
    }

    /// Returns the instance indices ordered by ascending value of feature
    /// `fid`, equal values by index.
    pub fn feature_sorted_indices(&self, fid: usize) -> (r: Vec<usize>)
        requires
            fid >= 1,
        ensures
            self.sorted_by_feature(fid as int, r@),
    {
        let values = self.feature_value_iter(fid);
        let n = self.instances.len();
        let mut indices: Vec<usize> = Vec::new();
        let mut i: usize = 0;
        while i < n
            invariant
                n == self.instances@.len(),
                i <= n,
                indices@ == Seq::new(i as nat, |k: int| k as usize),
            decreases n - i,
        {
            indices.push(i);
            assert(indices@ =~= Seq::new(i as nat + 1, |k: int| k as usize));
            i += 1;
        }
        assert(indices@ =~= positions(self.instances@.len()));
        order_by_keys(&indices, &values, false)
    }

    /// Returns the values of feature `fid` in ascending order.
    pub fn feature_sorted_values(&self, fid: usize) -> (r: Vec<u64>)
        requires
            fid >= 1,
        ensures
            exists|order: Seq<usize>| {
                &&& #[trigger] self.sorted_by_feature(fid as int, order)
                &&& r@ == order.map_values(|i: usize| self.feature_values(fid as int)[i as int])
            },
    {
        let order = self.feature_sorted_indices(fid);
        let n = order.len();
        let mut r: Vec<u64> = Vec::new();
        let mut k: usize = 0;
        while k < n
            invariant
                n == order@.len(),
                fid >= 1,
                self.sorted_by_feature(fid as int, order@),
                k <= n,
                r@ == order@.take(k as int).map_values(|i: usize| self.feature_values(fid as int)[i as int]),
            decreases n - k,
        {
            let i = order[k];
            assert(order@.contains(i));
            assert(positions(self.instances@.len()).contains(i));
            r.push(self.instances[i].value(fid));
            assert(r@ =~= order@.take(k as int + 1).map_values(|i: usize| self.feature_values(fid as int)[i as int]));
            k += 1;
        }
        assert(order@.take(n as int) =~= order@);
        r
    }

    /// Groups the instances by query: one `(qid, positions)` entry for
    /// each maximal run of equal qids, in the order of the data set.
    pub fn query_iter(&self) -> (r: Vec<(u64, Vec<usize>)>)
        ensures
            is_query_grouping(qids_of(self.instances@), r@),
    {
        let n = self.instances.len();
        let ghost qids = qids_of(self.instances@);
        let mut groups: Vec<(u64, Vec<usize>)> = Vec::new();
        let mut i: usize = 0;
        while i < n
            invariant
                n == self.instances@.len(),
                qids == qids_of(self.instances@),
                i <= n,
                (groups@.len() == 0 <==> i == 0),
                forall|g: int| 0 <= g < groups@.len() ==> {
                    let members = #[trigger] groups@[g].1@;
                    &&& members.len() > 0
                    &&& forall|j: int| 0 <= j < members.len() ==> {
                        &&& #[trigger] members[j] == members[0] + j
                        &&& members[j] < qids.len()
                        &&& qids[members[j] as int] == groups@[g].0
                    }
                },
                groups@.len() > 0 ==> groups@[0].1@[0] == 0,
                groups@.len() > 0 ==> groups@.last().1@[0] + groups@.last().1@.len() == i,
                groups@.len() > 0 && i < n ==> groups@.last().0 != qids[i as int],
                forall|g: int| 0 <= g < groups@.len() - 1 ==> {
                    &&& (#[trigger] groups@[g + 1]).1@[0] == groups@[g].1@[0] + groups@[g].1@.len()
                    &&& groups@[g].0 != groups@[g + 1].0
                },
            decreases n - i,
        {
            let qid = self.instances[i].qid;
            let mut members: Vec<usize> = Vec::new();
            let mut j: usize = i;
            while j < n && self.instances[j].qid == qid
                invariant
                    n == self.instances@.len(),
                    qids == qids_of(self.instances@),
                    i < n,
                    i <= j <= n,
                    qid == qids[i as int],
                    members@.len() == j - i,
                    forall|t: int| 0 <= t < members@.len() ==> #[trigger] members@[t] == i + t,
                    forall|t: int| i <= t < j ==> #[trigger] qids[t] == qid,
                decreases n - j,
            {
                members.push(j);
                j += 1;
            }
            let ghost old_groups = groups@;
            groups.push((qid, members));
            proof {
                let last = groups@.len() - 1;
                assert(groups@[last].1@[0] == i);
                assert forall|g: int| 0 <= g < groups@.len() - 1 implies {
                    &&& (#[trigger] groups@[g + 1]).1@[0] == groups@[g].1@[0] + groups@[g].1@.len()
                    &&& groups@[g].0 != groups@[g + 1].0
                } by {
                    if g + 1 < last {
                        assert(groups@[g + 1] == old_groups[g + 1]);
                    }
                }
            }
            i = j;
        }
        groups
    }
}

} // verus!
