//! The decisions of the boosting loop: which iteration scored best, and
//! when to stop early and how many trees to keep.
use vstd::prelude::*;
use crate::value::{key, order_key};

verus! {

/// The best iteration seen so far and its scores. With a validation set
/// "best" means the highest validation score, else the highest training
/// score. Scores are binary64 bit patterns.
pub struct BestScore {
    pub name: String,
    pub iter: Option<usize>,
    pub train: Option<u64>,
    pub validate: Option<u64>,
}

/// Option::or on spec values.
pub open spec fn or_else<T>(a: Option<T>, b: Option<T>) -> Option<T> {
    if a.is_some() { a } else { b }
}

impl BestScore {
    /// No score recorded yet.
    pub fn new(name: String) -> (r: BestScore)
        ensures
            r.name@ == name@,
            r.iter.is_none(),
            r.train.is_none(),
            r.validate.is_none(),
    {
        BestScore { name, iter: None, train: None, validate: None }
    }

    /// The record after iteration `iter` scored `train` on the training
    /// data and `validate` on the validation data, if any. The first call
    /// fills every empty field; a later one replaces the record when its
    /// score is strictly higher.
    pub open spec fn updated(self, iter: usize, train: u64, validate: Option<u64>) -> BestScore {
        let it = or_else(self.iter, Some(iter));
        let tr = or_else(self.train, Some(train));
        let va = or_else(self.validate, validate);
        match validate {
            Some(v) => if key(v) > key(va.unwrap()) {
                BestScore { name: self.name, iter: Some(iter), train: Some(train), validate: Some(v) }
            } else {
                BestScore { name: self.name, iter: it, train: tr, validate: va }
            },
            None => if key(train) > key(tr.unwrap()) {
                BestScore { name: self.name, iter: Some(iter), train: Some(train), validate: va }
            } else {
                BestScore { name: self.name, iter: it, train: tr, validate: va }
            },
        }
    }

    /// The best iteration, known only when validation scores were given.
    pub open spec fn best(&self) -> Option<usize> {
        if self.validate.is_some() { self.iter } else { None }
    }

    /// Records the scores of iteration `iter`.
    pub fn update(&mut self, iter: usize, train: u64, validate: Option<u64>)
        ensures
            *final(self) == old(self).updated(iter, train, validate),
    {
        if self.iter.is_none() {
            self.iter = Some(iter);
        }
        if self.train.is_none() {
            self.train = Some(train);
        }
        if self.validate.is_none() {
            self.validate = validate;
        }
        match validate {
            Some(v) => {
                let current = match self.validate {
                    Some(c) => c,
                    None => v,
                };
                if order_key(v) > order_key(current) {
                    self.iter = Some(iter);
                    self.train = Some(train);
                    self.validate = Some(v);
                }
            },
            None => {
                let current = match self.train {
                    Some(c) => c,
                    None => train,
                };
                if order_key(train) > order_key(current) {
                    self.iter = Some(iter);
                    self.train = Some(train);
                }
            },
        }
    }

    /// Returns the best iteration of the validation score; `None` without
    /// validation scores.
    pub fn best_iter(&self) -> (r: Option<usize>)
        ensures
            r == self.best(),
    {
        match self.validate {
            Some(_) => self.iter,
            None => None,
        }
    }
}

/// Monotonicity law: recording a further iteration never lowers the best
/// validation score. Once a best iteration is recorded, a new validation
/// score replaces the best one exactly when it is higher, and only then
/// does the best iteration move.
pub proof fn lemma_best_validation_never_drops(b: BestScore, iter: usize, train: u64, validate: Option<u64>)
    ensures
        b.validate.is_some() ==> b.updated(iter, train, validate).validate.is_some()
            && key(b.updated(iter, train, validate).validate.unwrap()) >= key(b.validate.unwrap()),
        (b.iter.is_some() && b.validate.is_some() && validate.is_some()) ==> ({
            let (old_best, v) = (b.validate.unwrap(), validate.unwrap());
            let n = b.updated(iter, train, validate);
            &&& n.validate == Some(if key(v) > key(old_best) { v } else { old_best })
            &&& (n.iter != b.iter ==> key(v) > key(old_best))
        }),
{
}

/// A configuration that cannot train.
#[derive(PartialEq, Eq, Structural, Clone, Copy, Debug)]
pub enum ConfigError {
    /// Fewer than one leaf per tree.
    MaxLeaves,
    /// Fewer than two thresholds per feature.
    Thresholds,
    /// Fewer than one instance per leaf.
    MinLeafSamples,
}

/// Checks the tree-shape parameters of a run, in this order: at least
/// one leaf per tree, at least two thresholds, at least one instance per
/// leaf.
pub fn check_config(max_leaves: usize, thresholds: usize, min_leaf_samples: usize) -> (r: Result<(), ConfigError>)
    ensures
        r == if max_leaves < 1 {
            Err::<(), ConfigError>(ConfigError::MaxLeaves)
        } else if thresholds < 2 {
            Err(ConfigError::Thresholds)
        } else if min_leaf_samples < 1 {
            Err(ConfigError::MinLeafSamples)
        } else {
            Ok(())
        },
{
    if max_leaves < 1 {
        Err(ConfigError::MaxLeaves)
    } else if thresholds < 2 {
        Err(ConfigError::Thresholds)
    } else if min_leaf_samples < 1 {
        Err(ConfigError::MinLeafSamples)
    } else {
        Ok(())
    }
}

/// The state of a boosting run: the configured number of trees and early
/// stop distance, the best score, how many iterations ran, how many trees
/// the ensemble holds, and whether it stopped early.
pub struct TrainingRun {
    pub trees: usize,
    pub early_stop: usize,
    pub best: BestScore,
    pub iter: usize,
    pub ensemble_len: usize,
    pub stopped: bool,
}

/// The length the ensemble should have: all trees, or the trees up to
/// and including the best iteration when that is fewer.
pub open spec fn min_len(trees: usize, best: Option<usize>) -> int {
    match best {
        Some(b) => if b + 1 < trees { b + 1 } else { trees as int },
        None => trees as int,
    }
}

impl TrainingRun {
    /// A fresh run of at most `trees` iterations.
    pub open spec fn fresh(&self, trees: usize, early_stop: usize) -> bool {
        &&& self.trees == trees
        &&& self.early_stop == early_stop
        &&& self.best.iter.is_none() && self.best.train.is_none() && self.best.validate.is_none()
        &&& self.iter == 0
        &&& self.ensemble_len == 0
        &&& !self.stopped
    }

    /// The bookkeeping is consistent.
    pub open spec fn wf(&self) -> bool {
        &&& self.iter <= self.trees
        &&& self.ensemble_len <= self.iter
        &&& (self.best.iter matches Some(b) ==> b < self.iter)
        &&& (!self.stopped ==> self.ensemble_len == self.iter)
        &&& (self.stopped ==> (self.best.best() matches Some(b) && self.ensemble_len == b + 1
            && b + self.early_stop + 1 < self.iter))
    }

    /// No iteration is left to run.
    pub open spec fn finished(&self) -> bool {
        self.stopped || self.iter >= self.trees
    }

    /// The run after one more iteration scored `train` and `validate`:
    /// its tree joins the ensemble, the best score is updated, and when
    /// the best iteration lies more than `early_stop` iterations back the
    /// ensemble is cut after the best iteration and the run stops.
    pub open spec fn stepped(self, train: u64, validate: Option<u64>) -> TrainingRun {
        let best = self.best.updated(self.iter, train, validate);
        let stop = best.best() matches Some(b) && b + self.early_stop < self.iter;
        TrainingRun {
            trees: self.trees,
            early_stop: self.early_stop,
            best: best,
            iter: (self.iter + 1) as usize,
            ensemble_len: if stop { (best.best().unwrap() + 1) as usize } else { (self.ensemble_len + 1) as usize },
            stopped: stop,
        }
    }

    /// The run after the iterations scored `scores`, in order, until it
    /// is finished.
    pub open spec fn run(self, scores: Seq<(u64, Option<u64>)>) -> TrainingRun
        decreases scores.len(),
    {
        if scores.len() == 0 || self.finished() {
            self
        } else {
            self.stepped(scores[0].0, scores[0].1).run(scores.drop_first())
        }
    }

    /// Starts a run of at most `trees` iterations that stops once the best
    /// validation score is more than `early_stop` iterations old.
    pub fn new(trees: usize, early_stop: usize, metric_name: String) -> (r: TrainingRun)
        ensures
            r.fresh(trees, early_stop),
            r.wf(),
            r.best.name@ == metric_name@,
    {
        TrainingRun { trees, early_stop, best: BestScore::new(metric_name), iter: 0, ensemble_len: 0, stopped: false }
    }

    /// Whether another iteration should run.
    pub fn has_next(&self) -> (r: bool)
        ensures
            r == !self.finished(),
    {
        !self.stopped && self.iter < self.trees
    }

    /// Records the scores of the iteration whose tree was just added.
    /// Returns the number of trees to keep when the run stops early here.
    pub fn record(&mut self, train: u64, validate: Option<u64>) -> (keep: Option<usize>)
        requires
            old(self).wf(),
            !old(self).finished(),
        ensures
            *final(self) == old(self).stepped(train, validate),
            final(self).wf(),
            keep == (if final(self).stopped { Some(final(self).ensemble_len) } else { None::<usize> }),
    {
        let i = self.iter;
        self.best.update(i, train, validate);
        let stop = match self.best.best_iter() {
            Some(b) => self.early_stop < i && b < i - self.early_stop,
            None => false,
        };
        self.iter = i + 1;
        if stop {
            let b = self.best.best_iter().unwrap();
            self.ensemble_len = b + 1;
            self.stopped = true;
            Some(self.ensemble_len)
        } else {
            self.ensemble_len = self.ensemble_len + 1;
            None
        }
    }

    /// Returns the number of trees the ensemble holds.
    pub fn ensemble_len(&self) -> (r: usize)
        ensures
            r == self.ensemble_len,
    {
        self.ensemble_len
    }

    /// Returns the best-score record.
    pub fn best(&self) -> (r: &BestScore)
        ensures
            *r == self.best,
    {
        &self.best
    }
}

proof fn lemma_step_wf(s: TrainingRun, train: u64, validate: Option<u64>)
    requires
        s.wf(),
        !s.finished(),
    ensures
        s.stepped(train, validate).wf(),
{
}

proof fn lemma_run_wf(s: TrainingRun, scores: Seq<(u64, Option<u64>)>)
    requires
        s.wf(),
        scores.len() >= s.trees - s.iter,
    ensures
        s.run(scores).wf(),
        s.run(scores).finished(),
        s.run(scores).trees == s.trees,
        s.run(scores).early_stop == s.early_stop,
    decreases scores.len(),
{
    if scores.len() > 0 && !s.finished() {
        lemma_step_wf(s, scores[0].0, scores[0].1);
        lemma_run_wf(s.stepped(scores[0].0, scores[0].1), scores.drop_first());
    }
}

/// Early-stop law: a run given a score for each configured iteration
/// ends with the trees up to the best iteration when it stopped early,
/// with every tree otherwise; so its length is `min(trees, best + 1)`
/// whenever it stopped, had no validation, or found its best in the last
/// iteration.
pub proof fn lemma_early_stop_length(start: TrainingRun, trees: usize, early_stop: usize, scores: Seq<(u64, Option<u64>)>)
    requires
        start.fresh(trees, early_stop),
        scores.len() >= trees,
    ensures
        start.run(scores).stopped ==> (start.run(scores).best.best() matches Some(b)
            && start.run(scores).ensemble_len == b + 1 && b + 1 < trees),
        !start.run(scores).stopped ==> start.run(scores).ensemble_len == trees,
        (start.run(scores).stopped || start.run(scores).best.best().is_none()
            || start.run(scores).best.best().unwrap() + 1 >= trees)
            ==> start.run(scores).ensemble_len == min_len(trees, start.run(scores).best.best()),
{
    lemma_run_wf(start, scores);
}

} // verus!
