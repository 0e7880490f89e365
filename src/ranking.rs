//! Ranking the instances of a query by model score, and choosing the
//! ranked pairs that contribute to the lambda gradients.
use vstd::prelude::*;
use crate::value::{key, order_key};

verus! {

/// `a` comes before `b`: a higher score first when `descending`, a lower
/// one otherwise, and the lower index first on equal scores.
pub open spec fn ranks_before(scores: Seq<u64>, descending: bool, a: usize, b: usize) -> bool {
    (if descending { key(scores[a as int]) > key(scores[b as int]) } else { key(scores[a as int]) < key(scores[b as int]) })
        || (key(scores[a as int]) == key(scores[b as int]) && a < b)
}

/// `r` is `indices` ordered by score (descending or ascending), ties by
/// ascending index.
pub open spec fn is_ranking(indices: Seq<usize>, scores: Seq<u64>, descending: bool, r: Seq<usize>) -> bool {
    &&& r.len() == indices.len()
    &&& forall|x: usize| r.contains(x) <==> indices.contains(x)
    &&& forall|a: int, b: int| 0 <= a < b < r.len() ==> ranks_before(scores, descending, #[trigger] r[a], #[trigger] r[b])
}

/// Orders the instances `indices` (no index twice) by descending score:
/// the order in which a model with these scores would present them.
pub fn rank_by_scores(indices: &Vec<usize>, scores: &Vec<u64>) -> (r: Vec<usize>)
    requires
        indices@.no_duplicates(),
        forall|k: int| 0 <= k < indices@.len() ==> #[trigger] indices@[k] < scores@.len(),
    ensures
        is_ranking(indices@, scores@, true, r@),
{
    order_by_keys(indices, scores, true)
}

/// Whether `a` comes before `b` in the order of `ranks_before`.
fn comes_before(scores: &Vec<u64>, descending: bool, a: usize, b: usize) -> (r: bool)
    requires
        a < scores@.len(),
        b < scores@.len(),
    ensures
        r == ranks_before(scores@, descending, a, b),
{
    let (ka, kb) = (order_key(scores[a]), order_key(scores[b]));
    let better = if descending { ka > kb } else { ka < kb };
    better || (ka == kb && a < b)
}

/// Orders `indices` (no index twice) by their values in `keys`,
/// descending or ascending, equal values by ascending index.
pub fn order_by_keys(indices: &Vec<usize>, scores: &Vec<u64>, descending: bool) -> (r: Vec<usize>)
    requires
        indices@.no_duplicates(),
        forall|k: int| 0 <= k < indices@.len() ==> #[trigger] indices@[k] < scores@.len(),
    ensures
        is_ranking(indices@, scores@, descending, r@),
{
    let n = indices.len();
    let mut r: Vec<usize> = Vec::new();
    let mut i: usize = 0;
    while i < n
        invariant
            n == indices@.len(),
            indices@.no_duplicates(),
            forall|k: int| 0 <= k < n ==> #[trigger] indices@[k] < scores@.len(),
            i <= n,
            r@.len() == i,
            forall|x: usize| r@.contains(x) <==> indices@.subrange(0, i as int).contains(x),
            forall|k: int| 0 <= k < r@.len() ==> #[trigger] r@[k] < scores@.len(),
            forall|a: int, b: int| 0 <= a < b < r@.len() ==> ranks_before(scores@, descending, #[trigger] r@[a], #[trigger] r@[b]),
        decreases n - i,
    {
        let x = indices[i];
        let mut p: usize = 0;
        while p < r.len() && !comes_before(scores, descending, x, r[p])
            invariant
                p <= r@.len(),
                r@.len() == i,
                x < scores@.len(),
                forall|k: int| 0 <= k < r@.len() ==> #[trigger] r@[k] < scores@.len(),
                forall|q: int| 0 <= q < p ==> !ranks_before(scores@, descending, x, #[trigger] r@[q]),
            decreases r@.len() - p,
        {
            p += 1;
        }
        proof {
            assert(!r@.contains(x)) by {
                if r@.contains(x) {
                    let t = choose|t: int| 0 <= t < i && indices@.subrange(0, i as int)[t] == x;
                    assert(indices@[t] == indices@[i as int]);
                }
            }
        }
        let ghost old_r = r@;
        r.insert(p, x);
        proof {
            assert(r@ == old_r.insert(p as int, x));
            assert(indices@.subrange(0, i as int + 1) == indices@.subrange(0, i as int).push(x));
            let ghost before = indices@.subrange(0, i as int);
            let ghost after = indices@.subrange(0, i as int + 1);
            assert forall|y: usize| r@.contains(y) <==> after.contains(y) by {
                if r@.contains(y) {
                    let t = choose|t: int| 0 <= t < r@.len() && r@[t] == y;
                    if t == p {
                        assert(after[i as int] == y);
                    } else {
                        if t < p {
                            assert(old_r[t] == y);
                        } else {
                            assert(old_r[t - 1] == y);
                        }
                        assert(old_r.contains(y));
                        assert(before.contains(y));
                        let u = choose|u: int| 0 <= u < before.len() && #[trigger] before[u] == y;
                        assert(after[u] == y);
                    }
                }
                if after.contains(y) {
                    let t = choose|t: int| 0 <= t < after.len() && #[trigger] after[t] == y;
                    if t < i {
                        assert(before[t] == y);
                        assert(before.contains(y));
                        assert(old_r.contains(y));
                        let u = choose|u: int| 0 <= u < old_r.len() && #[trigger] old_r[u] == y;
                        if u < p {
                            assert(r@[u] == y);
                        } else {
                            assert(r@[u + 1] == y);
                        }
                    } else {
                        assert(r@[p as int] == y);
                    }
                }
            }
            assert forall|k: int| 0 <= k < r@.len() implies #[trigger] r@[k] < scores@.len() by {
                if k < p {
                    assert(r@[k] == old_r[k]);
                } else if k > p {
                    assert(r@[k] == old_r[k - 1]);
                }
            }
            assert forall|a: int, b: int| 0 <= a < b < r@.len() implies ranks_before(scores@, descending, #[trigger] r@[a], #[trigger] r@[b]) by {
                if b < p {
                    assert(r@[a] == old_r[a] && r@[b] == old_r[b]);
                } else if b == p {
                    assert(r@[a] == old_r[a]);
                    assert(old_r.contains(old_r[a]));
                    assert(!ranks_before(scores@, descending, x, old_r[a]));
                } else if a < p {
                    assert(r@[a] == old_r[a] && r@[b] == old_r[b - 1]);
                } else if a == p {
                    assert(r@[b] == old_r[b - 1]);
                    assert(ranks_before(scores@, descending, x, old_r[p as int]));
                    if b - 1 > p {
                        assert(ranks_before(scores@, descending, old_r[p as int], old_r[b - 1]));
                    }
                } else {
                    assert(r@[a] == old_r[a - 1] && r@[b] == old_r[b - 1]);
                }
            }
        }
        i += 1;
    }
    assert(indices@.subrange(0, n as int) == indices@);
    r
}

/// Determinism law: the ranking of a set of instances is fixed by their
/// scores; two rankings of the same indices under the same scores are
/// equal.
pub proof fn lemma_ranking_unique(indices: Seq<usize>, scores: Seq<u64>, descending: bool, r1: Seq<usize>, r2: Seq<usize>)
    requires
        is_ranking(indices, scores, descending, r1),
        is_ranking(indices, scores, descending, r2),
    ensures
        r1 == r2,
{
    lemma_sorted_unique(scores, descending, r1, r2);
}

proof fn lemma_sorted_unique(scores: Seq<u64>, descending: bool, r1: Seq<usize>, r2: Seq<usize>)
    requires
        r1.len() == r2.len(),
        forall|x: usize| r1.contains(x) <==> r2.contains(x),
        forall|a: int, b: int| 0 <= a < b < r1.len() ==> ranks_before(scores, descending, #[trigger] r1[a], #[trigger] r1[b]),
        forall|a: int, b: int| 0 <= a < b < r2.len() ==> ranks_before(scores, descending, #[trigger] r2[a], #[trigger] r2[b]),
    ensures
        r1 == r2,
    decreases r1.len(),
{
    if r1.len() > 0 {
        assert(r1.contains(r1[0]));
        let p = choose|p: int| 0 <= p < r2.len() && r2[p] == r1[0];
        if p > 0 {
            assert(r2.contains(r2[0]));
            let q = choose|q: int| 0 <= q < r1.len() && r1[q] == r2[0];
            if q == 0 {
                assert(ranks_before(scores, descending, r2[0], r2[p]));
            } else {
                assert(ranks_before(scores, descending, r1[0], r1[q]));
                assert(ranks_before(scores, descending, r2[0], r2[p]));
            }
        }
        let (t1, t2) = (r1.drop_first(), r2.drop_first());
        assert forall|x: usize| t1.contains(x) <==> t2.contains(x) by {
            if t1.contains(x) {
                let i = choose|i: int| 0 <= i < t1.len() && t1[i] == x;
                assert(r1[i + 1] == x);
                assert(ranks_before(scores, descending, r1[0], r1[i + 1]));
                assert(r2.contains(x));
                let j = choose|j: int| 0 <= j < r2.len() && r2[j] == x;
                if j == 0 {
                    assert(r2[0] == r1[0]);
                } else {
                    assert(t2[j - 1] == x);
                }
            }
            if t2.contains(x) {
                let i = choose|i: int| 0 <= i < t2.len() && t2[i] == x;
                assert(r2[i + 1] == x);
                assert(ranks_before(scores, descending, r2[0], r2[i + 1]));
                assert(r1.contains(x));
                let j = choose|j: int| 0 <= j < r1.len() && r1[j] == x;
                if j == 0 {
                    assert(r2[0] == r1[0]);
                } else {
                    assert(t1[j - 1] == x);
                }
            }
        }
        assert forall|a: int, b: int| 0 <= a < b < t1.len() implies ranks_before(scores, descending, #[trigger] t1[a], #[trigger] t1[b]) by {
            assert(t1[a] == r1[a + 1] && t1[b] == r1[b + 1]);
        }
        assert forall|a: int, b: int| 0 <= a < b < t2.len() implies ranks_before(scores, descending, #[trigger] t2[a], #[trigger] t2[b]) by {
            assert(t2[a] == r2[a + 1] && t2[b] == r2[b + 1]);
        }
        lemma_sorted_unique(scores, descending, t1, t2);
        assert(r1 =~= seq![r1[0]] + t1);
        assert(r2 =~= seq![r2[0]] + t2);
    }
}

/// A ranked pair `(m, n)` counts toward the gradients: position `m` holds
/// the strictly better label, and not both positions lie past the
/// truncation level `k` (0: no truncation, every pair counts).
pub open spec fn pair_counts(labels: Seq<u64>, k: int, m: int, n: int) -> bool {
    &&& 0 <= m < labels.len()
    &&& 0 <= n < labels.len()
    &&& key(labels[m]) > key(labels[n])
    &&& !(k > 0 && m > k && n > k)
}

/// `a` comes before `b` in lexicographic order.
pub open spec fn lex_before(a: (usize, usize), b: (usize, usize)) -> bool {
    a.0 < b.0 || (a.0 == b.0 && a.1 < b.1)
}

/// Some entry of `r` is the pair `(m, n)`.
pub open spec fn has_pair(r: Seq<(usize, usize)>, m: int, n: int) -> bool {
    exists|p: int| 0 <= p < r.len() && (#[trigger] r[p]).0 == m && r[p].1 == n
}

/// Returns every ranked pair that counts toward the gradients, for the
/// labels of a query in ranked order and the truncation level `k`, in
/// lexicographic order of positions.
pub fn lambda_pairs(labels: &Vec<u64>, k: usize) -> (r: Vec<(usize, usize)>)
    ensures
        forall|p: int| 0 <= p < r@.len() ==> pair_counts(labels@, k as int, (#[trigger] r@[p]).0 as int, r@[p].1 as int),
        forall|a: int, b: int| 0 <= a < b < r@.len() ==> lex_before(#[trigger] r@[a], #[trigger] r@[b]),
        forall|m: int, n: int| pair_counts(labels@, k as int, m, n) ==> #[trigger] has_pair(r@, m, n),
{
    let len = labels.len();
    let mut r: Vec<(usize, usize)> = Vec::new();
    let mut m: usize = 0;
    while m < len
        invariant
            len == labels@.len(),
            m <= len,
            forall|p: int| 0 <= p < r@.len() ==> pair_counts(labels@, k as int, (#[trigger] r@[p]).0 as int, r@[p].1 as int),
            forall|p: int| 0 <= p < r@.len() ==> (#[trigger] r@[p]).0 < m,
            forall|a: int, b: int| 0 <= a < b < r@.len() ==> lex_before(#[trigger] r@[a], #[trigger] r@[b]),
            forall|a: int, b: int| pair_counts(labels@, k as int, a, b) && a < m ==> #[trigger] has_pair(r@, a, b),
        decreases len - m,
    {
        let km = order_key(labels[m]);
        let mut n: usize = 0;
        while n < len
            invariant
                len == labels@.len(),
                m < len,
                n <= len,
                km == key(labels@[m as int]),
                forall|p: int| 0 <= p < r@.len() ==> pair_counts(labels@, k as int, (#[trigger] r@[p]).0 as int, r@[p].1 as int),
                forall|p: int| 0 <= p < r@.len() ==> lex_before(#[trigger] r@[p], (m, n)),
                forall|a: int, b: int| 0 <= a < b < r@.len() ==> lex_before(#[trigger] r@[a], #[trigger] r@[b]),
                forall|a: int, b: int| pair_counts(labels@, k as int, a, b) && (a < m || (a == m && b < n)) ==> #[trigger] has_pair(r@, a, b),
            decreases len - n,
        {
            if !(k > 0 && m > k && n > k) && km > order_key(labels[n]) {
                let ghost old_r = r@;
                r.push((m, n));
                proof {
                    assert(r@[old_r.len() as int] == (m, n));
                    assert forall|a: int, b: int| pair_counts(labels@, k as int, a, b) && (a < m || (a == m && b < n + 1)) implies #[trigger] has_pair(r@, a, b) by {
                        if a == m && b == n {
                            assert(r@[old_r.len() as int] == (m, n));
                        } else {
                            assert(has_pair(old_r, a, b));
                            let p = choose|p: int| 0 <= p < old_r.len() && (#[trigger] old_r[p]).0 == a && old_r[p].1 == b;
                            assert(r@[p] == old_r[p]);
                        }
                    }
                    assert forall|p: int| 0 <= p < r@.len() implies lex_before(#[trigger] r@[p], (m, (n + 1) as usize)) by {
                        if p < old_r.len() {
                            assert(r@[p] == old_r[p]);
                        }
                    }
                    assert forall|a: int, b: int| 0 <= a < b < r@.len() implies lex_before(#[trigger] r@[a], #[trigger] r@[b]) by {
                        if b < old_r.len() {
                            assert(r@[a] == old_r[a] && r@[b] == old_r[b]);
                        } else {
                            assert(r@[a] == old_r[a]);
                        }
                    }
                }
            }
            n += 1;
        }
        m += 1;
    }
    r
}

} // verus!
