//! Per-feature discretization: an ascending table of thresholds ending in
//! +∞, and for each instance the first threshold its value does not exceed.
use vstd::prelude::*;
use crate::value::{key, le, value_le, order_key, POS_INFINITY_BITS};

verus! {

broadcast use vstd::seq::Seq::group_seq_extra;

/// Keys never decrease along `s`.
pub open spec fn ascending(s: Seq<u64>) -> bool {
    forall|a: int, b: int| 0 <= a < b < s.len() ==> key(#[trigger] s[a]) <= key(#[trigger] s[b])
}

/// Keys strictly increase along `s`.
pub open spec fn strictly_ascending(s: Seq<u64>) -> bool {
    forall|a: int, b: int| 0 <= a < b < s.len() ==> key(#[trigger] s[a]) < key(#[trigger] s[b])
}

/// Some entry of `d` has the key `k`.
pub open spec fn has_key(d: Seq<u64>, k: int) -> bool {
    exists|p: int| 0 <= p < d.len() && key(#[trigger] d[p]) == k
}

/// `d` lists the distinct values of `values` in ascending order: one entry
/// per distinct key, each taken from `values`.
pub open spec fn distinct_of(values: Seq<u64>, d: Seq<u64>) -> bool {
    &&& strictly_ascending(d)
    &&& forall|p: int| 0 <= p < d.len() ==> values.contains(#[trigger] d[p])
    &&& forall|i: int| 0 <= i < values.len() ==> has_key(d, key(#[trigger] values[i]))
}

/// `j` is the bin of `v` in `t`: the first threshold that `v` does not exceed.
pub open spec fn placed(v: u64, t: Seq<u64>, j: int) -> bool {
    &&& 0 <= j < t.len()
    &&& le(v, t[j])
    &&& forall|i: int| 0 <= i < j ==> !le(v, #[trigger] t[i])
}

/// How many of the bins in `s` are at most `j`.
pub open spec fn count_upto(s: Seq<usize>, j: int) -> nat {
    s.filter(|b: usize| b <= j).len()
}

/// How many of the bins in `s` equal `j`.
pub open spec fn count_at(s: Seq<usize>, j: int) -> nat {
    s.filter(|b: usize| b == j).len()
}

/// The threshold cuts that a feature's values call for.
pub enum Cuts {
    /// Few enough distinct values: they are the cuts, in ascending order.
    Values(Vec<u64>),
    /// Too many distinct values: the cuts are an even grid from the
    /// smallest to the largest value.
    Grid { min: u64, max: u64 },
}

/// Returns the distinct values of `values`, in ascending order.
pub fn distinct_values(values: &Vec<u64>) -> (r: Vec<u64>)
    ensures
        distinct_of(values@, r@),
{
    let mut r: Vec<u64> = Vec::new();
    let mut i: usize = 0;
    while i < values.len()
        invariant
            i <= values@.len(),
            strictly_ascending(r@),
            forall|p: int| 0 <= p < r@.len() ==> values@.contains(#[trigger] r@[p]),
            forall|t: int| 0 <= t < i ==> has_key(r@, key(#[trigger] values@[t])),
        decreases values@.len() - i,
    {
        let v = values[i];
        let kv = order_key(v);
        let mut p: usize = 0;
        while p < r.len() && order_key(r[p]) < kv
            invariant
                p <= r@.len(),
                kv == key(v),
                forall|q: int| 0 <= q < p ==> key(#[trigger] r@[q]) < kv,
            decreases r@.len() - p,
        {
            p += 1;
        }
        assert(values@.contains(v)) by { assert(values@[i as int] == v); }
        if p < r.len() && order_key(r[p]) == kv {
            assert(key(r@[p as int]) == key(values@[i as int]));
        } else {
            let ghost old_r = r@;
            r.insert(p, v);
            proof {
                assert(r@ == old_r.insert(p as int, v));
                assert(r@[p as int] == v);
                assert forall|q: int| 0 <= q < r@.len() implies values@.contains(#[trigger] r@[q]) by {
                    if q < p {
                        assert(r@[q] == old_r[q]);
                    } else if q > p {
                        assert(r@[q] == old_r[q - 1]);
                    }
                }
                assert forall|a: int, b: int| 0 <= a < b < r@.len() implies key(#[trigger] r@[a]) < key(#[trigger] r@[b]) by {
                    if b < p {
                        assert(r@[a] == old_r[a] && r@[b] == old_r[b]);
                    } else if b == p {
                        assert(r@[a] == old_r[a]);
                    } else if a < p {
                        assert(r@[a] == old_r[a] && r@[b] == old_r[b - 1]);
                        assert(key(old_r[p as int]) > kv);
                    } else if a == p {
                        assert(r@[b] == old_r[b - 1]);
                        assert(key(old_r[p as int]) > kv);
                    } else {
                        assert(r@[a] == old_r[a - 1] && r@[b] == old_r[b - 1]);
                    }
                }
                assert forall|t: int| 0 <= t < i + 1 implies has_key(r@, key(#[trigger] values@[t])) by {
                    if t == i {
                        assert(key(r@[p as int]) == key(values@[t]));
                    } else {
                        let q0 = choose|q: int| 0 <= q < old_r.len() && key(#[trigger] old_r[q]) == key(values@[t]);
                        if q0 < p {
                            assert(r@[q0] == old_r[q0]);
                        } else {
                            assert(r@[q0 + 1] == old_r[q0]);
                        }
                    }
                }
            }
        }
        i += 1;
    }
    r
}

/// A threshold table and the bin of every instance.
pub struct ThresholdMap {
    /// Ascending thresholds; the last one is +∞.
    pub thresholds: Vec<u64>,
    /// `map[i]` is the bin of instance `i`.
    pub map: Vec<usize>,
}

impl ThresholdMap {
    /// The thresholds ascend and end in +∞, and every entry of `map` is
    /// a bin of the table.
    pub open spec fn wf(&self) -> bool {
        &&& ascending(self.thresholds@)
        &&& self.thresholds@.len() > 0
        &&& self.thresholds@.last() == POS_INFINITY_BITS
        &&& forall|i: int| 0 <= i < self.map@.len() ==> #[trigger] self.map@[i] < self.thresholds@.len()
    }

    /// Every instance of `values` sits in its bin.
    pub open spec fn places(&self, values: Seq<u64>) -> bool {
        &&& self.map@.len() == values.len()
        &&& forall|i: int| 0 <= i < values.len() ==> placed(values[i], self.thresholds@, #[trigger] self.map@[i] as int)
    }

    /// Decides the cuts for a feature whose values are `values`: the
    /// distinct values when there are at most `thresholds_count` of them,
    /// else the smallest and largest value, to span a grid.
    pub fn cut_plan(values: &Vec<u64>, thresholds_count: usize) -> (r: Cuts)
        ensures
            match r {
                Cuts::Values(d) => distinct_of(values@, d@) && d@.len() <= thresholds_count,
                Cuts::Grid { min, max } => exists|d: Seq<u64>| {
                    &&& distinct_of(values@, d)
                    &&& d.len() > thresholds_count
                    &&& #[trigger] d[0] == min
                    &&& d.last() == max
                },
            },
    {
        let d = distinct_values(values);
        if d.len() <= thresholds_count {
            Cuts::Values(d)
        } else {
            let min = d[0];
            let max = d[d.len() - 1];
            Cuts::Grid { min, max }
        }
    }

    /// Builds the map of `values` over the table `cuts` followed by +∞.
    /// Returns `None` when the cuts do not ascend, when a cut or a value
    /// lies above +∞ (a NaN), and the map otherwise.
    pub fn new(values: &Vec<u64>, cuts: Vec<u64>) -> (r: Option<ThresholdMap>)
        ensures
            r.is_none() <==> (!ascending(cuts@)
                || (exists|j: int| 0 <= j < cuts@.len() && !le(#[trigger] cuts@[j], POS_INFINITY_BITS))
                || (exists|i: int| 0 <= i < values@.len() && !le(#[trigger] values@[i], POS_INFINITY_BITS))),
            r matches Some(m) ==> {
                &&& m.wf()
                &&& m.thresholds@ == cuts@.push(POS_INFINITY_BITS)
                &&& m.places(values@)
            },
    {
        let in_order = cuts_in_order(&cuts);
        let below = all_below_infinity(values);
        if !in_order || !below {
            return None;
        }
        let mut thresholds = cuts;
        thresholds.push(POS_INFINITY_BITS);
        proof {
            assert forall|a: int| 0 <= a < thresholds@.len() - 1 implies key(#[trigger] thresholds@[a]) <= key(thresholds@[a + 1]) by {
                if a + 1 < cuts@.len() {
                    assert(cuts@[a] == thresholds@[a] && cuts@[a + 1] == thresholds@[a + 1]);
                } else {
                    assert(le(cuts@[a], POS_INFINITY_BITS));
                }
            }
            lemma_neighbours_ascending(thresholds@);
        }
        let map = assign_bins(values, &thresholds);
        Some(ThresholdMap { thresholds, map })
    }

    /// Returns the bin of instance `id`.
    pub fn bin(&self, id: usize) -> (r: usize)
        requires
            id < self.map@.len(),
        ensures
            r == self.map@[id as int],
    {
        self.map[id]
    }

    /// Returns the number of bins.
    pub fn len(&self) -> (r: usize)
        ensures
            r == self.thresholds@.len(),
    {
        self.thresholds.len()
    }

    /// Cumulative instance counts of the histogram of `ids`: entry `j`
    /// counts the ids whose bin is at most `j`.
    pub fn counts(&self, ids: &Vec<usize>) -> (r: Vec<usize>)
        requires
            self.wf(),
            forall|k: int| 0 <= k < ids@.len() ==> #[trigger] ids@[k] < self.map@.len(),
        ensures
            r@.len() == self.thresholds@.len(),
            forall|j: int| 0 <= j < r@.len() ==> #[trigger] r@[j] == count_upto(self.bins_of(ids@), j),
    {
        let nbins = self.thresholds.len();
        let mut per_bin: Vec<usize> = Vec::new();
        let mut j: usize = 0;
        while j < nbins
            invariant
                j <= nbins,
                per_bin@.len() == j,
                forall|t: int| 0 <= t < j ==> #[trigger] per_bin@[t] == 0,
            decreases nbins - j,
        {
            per_bin.push(0);
            j += 1;
        }
        let mut k: usize = 0;
        while k < ids.len()
            invariant
                self.wf(),
                nbins == self.thresholds@.len(),
                forall|t: int| 0 <= t < ids@.len() ==> #[trigger] ids@[t] < self.map@.len(),
                k <= ids@.len(),
                per_bin@.len() == nbins,
                forall|t: int| 0 <= t < nbins ==> #[trigger] per_bin@[t] == count_at(self.bins_of(ids@.subrange(0, k as int)), t),
            decreases ids@.len() - k,
        {
            let b = self.map[ids[k]];
            proof {
                assert(self.bins_of(ids@.subrange(0, k as int + 1)) =~= self.bins_of(ids@.subrange(0, k as int)).push(b));
                lemma_count_at_bound(self.bins_of(ids@.subrange(0, k as int)), b as int);
            }
            per_bin.set(b, per_bin[b] + 1);
            k += 1;
        }
        assert(ids@.subrange(0, k as int) =~= ids@);
        let nids = ids.len();
        let ghost s = self.bins_of(ids@);
        proof {
            lemma_count_upto_none(s);
        }
        let mut r: Vec<usize> = Vec::new();
        let mut total: usize = 0;
        let mut j: usize = 0;
        while j < nbins
            invariant
                self.wf(),
                nbins == self.thresholds@.len(),
                s == self.bins_of(ids@),
                nids == ids@.len(),
                j <= nbins,
                r@.len() == j,
                per_bin@.len() == nbins,
                forall|t: int| 0 <= t < nbins ==> #[trigger] per_bin@[t] == count_at(s, t),
                forall|t: int| 0 <= t < j ==> #[trigger] r@[t] == count_upto(s, t),
                total == count_upto(s, j - 1),
            decreases nbins - j,
        {
            proof {
                lemma_count_upto_step(s, j as int);
                lemma_count_upto_bound(s, j as int);
                assert(s.len() == ids@.len());
            }
            total = total + per_bin[j];
            r.push(total);
            j += 1;
        }
        r
    }

    /// The bins of a sequence of ids.
    pub open spec fn bins_of(&self, ids: Seq<usize>) -> Seq<usize> {
        ids.map_values(|id: usize| self.map@[id as int])
    }
}

/// Splitting after bin `j` of cumulative `counts` leaves at least
/// `min_leaf_count` instances on each side (the last bin cannot split).
pub open spec fn splits_validly(counts: Seq<usize>, j: int, min_leaf_count: usize) -> bool {
    &&& 0 <= j < counts.len() - 1
    &&& counts[j] >= min_leaf_count
    &&& counts.last() >= counts[j] + min_leaf_count
}

/// Chooses the bin to split after, given cumulative `counts` and each
/// bin's split score: the highest score among the bins that split
/// validly, the lowest such bin among equal scores; `None` when no bin
/// splits validly.
pub fn best_bin(counts: &Vec<usize>, scores: &Vec<u64>, min_leaf_count: usize) -> (r: Option<usize>)
    requires
        counts@.len() == scores@.len(),
    ensures
        r.is_none() <==> forall|j: int| !splits_validly(counts@, j, min_leaf_count),
        r matches Some(b) ==> {
            &&& splits_validly(counts@, b as int, min_leaf_count)
            &&& forall|j: int| 0 <= j < b && splits_validly(counts@, j, min_leaf_count) ==> key(#[trigger] scores@[j]) < key(scores@[b as int])
            &&& forall|j: int| b < j && splits_validly(counts@, j, min_leaf_count) ==> key(#[trigger] scores@[j]) <= key(scores@[b as int])
        },
{
    let n = counts.len();
    if n == 0 {
        return None;
    }
    let total = counts[n - 1];
    let mut best: Option<usize> = None;
    let mut j: usize = 0;
    while j < n - 1
        invariant
            n == counts@.len(),
            n == scores@.len(),
            n > 0,
            total == counts@.last(),
            j <= n - 1,
            best.is_none() ==> forall|i: int| 0 <= i < j ==> !splits_validly(counts@, i, min_leaf_count),
            best matches Some(b) ==> {
                &&& b < j
                &&& splits_validly(counts@, b as int, min_leaf_count)
                &&& forall|i: int| 0 <= i < b && splits_validly(counts@, i, min_leaf_count) ==> key(#[trigger] scores@[i]) < key(scores@[b as int])
                &&& forall|i: int| b < i < j && splits_validly(counts@, i, min_leaf_count) ==> key(#[trigger] scores@[i]) <= key(scores@[b as int])
            },
        decreases n - 1 - j,
    {
        let left = counts[j];
        if left >= min_leaf_count && total >= left && total - left >= min_leaf_count {
            match best {
                None => {
                    best = Some(j);
                },
                Some(b) => {
                    if order_key(scores[j]) > order_key(scores[b]) {
                        best = Some(j);
                    }
                },
            }
        }
        j += 1;
    }
    best
}

/// Placement law: every value of a built map lies at or below the
/// threshold of its bin, and above every threshold of a lower bin.
pub proof fn lemma_placement(m: &ThresholdMap, values: Seq<u64>, i: int)
    requires
        m.places(values),
        0 <= i < values.len(),
    ensures
        0 <= m.map@[i] < m.thresholds@.len(),
        le(values[i], m.thresholds@[m.map@[i] as int]),
        forall|j: int| 0 <= j < m.map@[i] ==> !le(values[i], #[trigger] m.thresholds@[j]),
{
    assert(placed(values[i], m.thresholds@, m.map@[i] as int));
}

/// Cumulativity law: the counts of a histogram never decrease from bin
/// to bin, and the last bin counts every id.
pub proof fn lemma_counts_cumulative(m: &ThresholdMap, ids: Seq<usize>, counts: Seq<usize>)
    requires
        m.wf(),
        forall|k: int| 0 <= k < ids.len() ==> #[trigger] ids[k] < m.map@.len(),
        counts.len() == m.thresholds@.len(),
        forall|j: int| 0 <= j < counts.len() ==> #[trigger] counts[j] == count_upto(m.bins_of(ids), j),
    ensures
        forall|a: int, b: int| 0 <= a <= b < counts.len() ==> #[trigger] counts[a] <= #[trigger] counts[b],
        counts.last() == ids.len(),
{
    let s = m.bins_of(ids);
    assert forall|a: int, b: int| 0 <= a <= b < counts.len() implies #[trigger] counts[a] <= #[trigger] counts[b] by {
        lemma_count_upto_monotone(s, a, b);
    }
    let last = counts.len() - 1;
    assert forall|k: int| 0 <= k < s.len() implies #[trigger] s[k] <= last by {
        assert(s[k] == m.map@[ids[k] as int]);
    }
    lemma_count_upto_all(s, last);
}

/// Counting law: for a map that places `values`, the cumulative count of
/// bin `j` is the number of ids whose value is at most threshold `j`. So
/// the left side of a split after bin `j` holds exactly that many
/// instances, and the right side the rest.
pub proof fn lemma_counts_are_value_counts(m: &ThresholdMap, values: Seq<u64>, ids: Seq<usize>, j: int)
    requires
        m.wf(),
        m.places(values),
        forall|k: int| 0 <= k < ids.len() ==> #[trigger] ids[k] < values.len(),
        0 <= j < m.thresholds@.len(),
    ensures
        count_upto(m.bins_of(ids), j) == ids.filter(|id: usize| le(values[id as int], m.thresholds@[j])).len(),
    decreases ids.len(),
{
    let pred = |id: usize| le(values[id as int], m.thresholds@[j]);
    if ids.len() > 0 {
        let init = ids.drop_last();
        let id = ids.last();
        assert forall|k: int| 0 <= k < init.len() implies #[trigger] init[k] < values.len() by {
            assert(init[k] == ids[k]);
        }
        lemma_counts_are_value_counts(m, values, init, j);
        assert(init.push(id) =~= ids);
        assert(m.bins_of(ids) =~= m.bins_of(init).push(m.map@[id as int]));
        assert(id < values.len());
        let b = m.map@[id as int] as int;
        assert(placed(values[id as int], m.thresholds@, b));
        if b <= j {
            if b < j {
                assert(key(m.thresholds@[b]) <= key(m.thresholds@[j]));
            }
            assert(pred(id));
        } else {
            assert(!pred(id));
        }
    } else {
        assert(ids.filter(pred) =~= Seq::<usize>::empty());
        assert(m.bins_of(ids).filter(|x: usize| x <= j) =~= Seq::<usize>::empty());
    }
}

proof fn lemma_count_upto_monotone(s: Seq<usize>, a: int, b: int)
    requires
        a <= b,
    ensures
        count_upto(s, a) <= count_upto(s, b),
    decreases s.len(),
{
    if s.len() > 0 {
        let init = s.drop_last();
        assert(init.push(s.last()) =~= s);
        lemma_count_upto_monotone(init, a, b);
    } else {
        assert(s.filter(|x: usize| x <= a) =~= Seq::<usize>::empty());
    }
}

proof fn lemma_count_upto_all(s: Seq<usize>, j: int)
    requires
        forall|k: int| 0 <= k < s.len() ==> #[trigger] s[k] <= j,
    ensures
        count_upto(s, j) == s.len(),
    decreases s.len(),
{
    if s.len() > 0 {
        let init = s.drop_last();
        assert(init.push(s.last()) =~= s);
        assert forall|k: int| 0 <= k < init.len() implies #[trigger] init[k] <= j by {
            assert(init[k] == s[k]);
        }
        lemma_count_upto_all(init, j);
    } else {
        assert(s.filter(|x: usize| x <= j) =~= Seq::<usize>::empty());
    }
}

/// Whether the cuts ascend and none lies above +∞.
fn cuts_in_order(cuts: &Vec<u64>) -> (r: bool)
    ensures
        r == (ascending(cuts@) && !exists|j: int| 0 <= j < cuts@.len() && !le(#[trigger] cuts@[j], POS_INFINITY_BITS)),
{
    let n = cuts.len();
    let mut j: usize = 0;
    while j < n
        invariant
            n == cuts@.len(),
            j <= n,
            forall|a: int| 0 <= a < j ==> le(#[trigger] cuts@[a], POS_INFINITY_BITS),
            forall|a: int| 0 <= a < j ==> (a + 1 < n ==> key(#[trigger] cuts@[a]) <= key(cuts@[a + 1])),
        decreases n - j,
    {
        if !value_le(cuts[j], POS_INFINITY_BITS) {
            assert(!le(cuts@[j as int], POS_INFINITY_BITS));
            return false;
        }
        if j + 1 < n && !value_le(cuts[j], cuts[j + 1]) {
            assert(!ascending(cuts@)) by {
                assert(!le(cuts@[j as int], cuts@[j + 1]));
            }
            return false;
        }
        j += 1;
    }
    proof {
        lemma_neighbours_ascending(cuts@);
    }
    true
}

/// Whether no value lies above +∞.
fn all_below_infinity(values: &Vec<u64>) -> (r: bool)
    ensures
        r == !exists|i: int| 0 <= i < values@.len() && !le(#[trigger] values@[i], POS_INFINITY_BITS),
{
    let n = values.len();
    let mut i: usize = 0;
    while i < n
        invariant
            n == values@.len(),
            i <= n,
            forall|a: int| 0 <= a < i ==> le(#[trigger] values@[a], POS_INFINITY_BITS),
        decreases n - i,
    {
        if !value_le(values[i], POS_INFINITY_BITS) {
            assert(!le(values@[i as int], POS_INFINITY_BITS));
            return false;
        }
        i += 1;
    }
    true
}

/// The bin of each value in an ascending table that ends in +∞.
fn assign_bins(values: &Vec<u64>, thresholds: &Vec<u64>) -> (map: Vec<usize>)
    requires
        thresholds@.len() > 0,
        thresholds@.last() == POS_INFINITY_BITS,
        forall|a: int| 0 <= a < values@.len() ==> le(#[trigger] values@[a], POS_INFINITY_BITS),
    ensures
        map@.len() == values@.len(),
        forall|a: int| 0 <= a < values@.len() ==> placed(values@[a], thresholds@, #[trigger] map@[a] as int),
{
    let n = values.len();
    let nt = thresholds.len();
    let mut map: Vec<usize> = Vec::new();
    let mut i: usize = 0;
    while i < n
        invariant
            n == values@.len(),
            nt == thresholds@.len(),
            nt > 0,
            thresholds@.last() == POS_INFINITY_BITS,
            i <= n,
            map@.len() == i,
            forall|a: int| 0 <= a < n ==> le(#[trigger] values@[a], POS_INFINITY_BITS),
            forall|a: int| 0 <= a < i ==> placed(values@[a], thresholds@, #[trigger] map@[a] as int),
        decreases n - i,
    {
        let v = values[i];
        let mut b: usize = 0;
        while !value_le(v, thresholds[b])
            invariant
                nt == thresholds@.len(),
                b < nt,
                thresholds@.last() == POS_INFINITY_BITS,
                le(v, POS_INFINITY_BITS),
                forall|c: int| 0 <= c < b ==> !le(v, #[trigger] thresholds@[c]),
            decreases nt - b,
        {
            assert(b + 1 < nt) by {
                if b + 1 == nt {
                    assert(thresholds@[b as int] == POS_INFINITY_BITS);
                }
            }
            b += 1;
        }
        map.push(b);
        i += 1;
    }
    map
}

/// Keys that never drop between neighbours never drop at all.
proof fn lemma_neighbours_ascending(s: Seq<u64>)
    requires
        forall|a: int| 0 <= a < s.len() - 1 ==> key(#[trigger] s[a]) <= key(s[a + 1]),
    ensures
        ascending(s),
{
    assert forall|a: int, b: int| 0 <= a < b < s.len() implies key(#[trigger] s[a]) <= key(#[trigger] s[b]) by {
        lemma_neighbours_span(s, a, b);
    }
}

proof fn lemma_neighbours_span(s: Seq<u64>, a: int, b: int)
    requires
        forall|c: int| 0 <= c < s.len() - 1 ==> key(#[trigger] s[c]) <= key(s[c + 1]),
        0 <= a <= b < s.len(),
    ensures
        key(s[a]) <= key(s[b]),
    decreases b - a,
{
    if a < b {
        lemma_neighbours_span(s, a, b - 1);
        assert(key(s[b - 1]) <= key(s[b]));
    }
}

proof fn lemma_count_upto_none(s: Seq<usize>)
    ensures
        count_upto(s, -1) == 0,
    decreases s.len(),
{
    if s.len() > 0 {
        let init = s.drop_last();
        assert(init.push(s.last()) =~= s);
        lemma_count_upto_none(init);
    } else {
        assert(s.filter(|b: usize| b <= -1) =~= Seq::<usize>::empty());
    }
}

proof fn lemma_count_at_bound(s: Seq<usize>, j: int)
    ensures
        count_at(s, j) <= s.len(),
{
    s.lemma_filter_len(|b: usize| b == j);
}

proof fn lemma_count_upto_bound(s: Seq<usize>, j: int)
    ensures
        count_upto(s, j) <= s.len(),
{
    s.lemma_filter_len(|b: usize| b <= j);
}

/// Counting up to `j` counts up to `j - 1`, then the bin `j` itself.
proof fn lemma_count_upto_step(s: Seq<usize>, j: int)
    ensures
        count_upto(s, j) == count_upto(s, j - 1) + count_at(s, j),
    decreases s.len(),
{
    if s.len() > 0 {
        let init = s.drop_last();
        assert(init.push(s.last()) =~= s);
        lemma_count_upto_step(init, j);
    } else {
        assert(s.filter(|b: usize| b <= j) =~= Seq::<usize>::empty());
        assert(s.filter(|b: usize| b <= j - 1) =~= Seq::<usize>::empty());
        assert(s.filter(|b: usize| b == j) =~= Seq::<usize>::empty());
    }
}

} // verus!
