use vstd::prelude::*;
use crate::error::{text, BoostlssError};

verus! {

/// How the boosting loop visits the distribution parameters.
#[derive(Debug, Clone, Copy, PartialEq, Eq, Structural)]
pub enum Algorithm {
    /// Every parameter receives one update per iteration.
    Cyclic,
    /// Per iteration, the best learner of each parameter competes and only the
    /// update that lowers the total risk most is applied.
    NonCyclic,
    /// Per iteration, all learners of all parameters compete directly.
    NonCyclicOuter,
}

/// How negative gradients are rescaled before the base learners see them.
#[derive(Debug, Clone, Copy, PartialEq, Eq, Structural)]
pub enum Stabilization {
    /// Gradients are used as they are.
    Unscaled,
    Mad,
    L2,
}

/// Scale of a prediction: the linear predictor, or the parameter itself
/// after the inverse link.
#[derive(Debug, Clone, Copy, PartialEq, Eq, Structural)]
pub enum Scale {
    Link,
    Response,
}

/// Number of boosting iterations: one count for all parameters, or one per parameter.
#[derive(Debug, Clone, PartialEq, Eq)]
pub enum Mstop {
    Scalar(usize),
    PerParam(Vec<usize>),
}

/// `r` is the largest element of `s`, or `empty` when `s` has no element.
pub open spec fn is_max_or(s: Seq<usize>, empty: usize, r: usize) -> bool {
    &&& s.len() == 0 ==> r == empty
    &&& s.len() > 0 ==> s.contains(r)
    &&& forall|i: int| 0 <= i < s.len() ==> s[i] <= r
}

/// Largest element of `v`, or `empty` for an empty vector.
pub fn max_or(v: &Vec<usize>, empty: usize) -> (r: usize)
    ensures
        is_max_or(v@, empty, r),
{
    if v.len() == 0 {
        return empty;
    }
    let mut best = v[0];
    let mut i: usize = 1;
    assert(v@.subrange(0, 1)[0] == best);
    while i < v.len()
        invariant
            1 <= i <= v.len(),
            v@.subrange(0, i as int).contains(best),
            forall|j: int| 0 <= j < i ==> v@[j] <= best,
        decreases v.len() - i,
    {
        if v[i] > best {
            best = v[i];
            assert(v@.subrange(0, i + 1)[i as int] == best);
        } else {
            proof {
                let k = choose|k: int| 0 <= k < i && v@.subrange(0, i as int)[k] == best;
                assert(v@.subrange(0, i + 1)[k] == best);
            }
        }
        i = i + 1;
    }
    assert(v@.subrange(0, v.len() as int) =~= v@);
    best
}

impl Mstop {
    /// The number of iterations the loop runs: the scalar count, or the largest
    /// per-parameter count (`empty` when the per-parameter list is empty).
    pub open spec fn spec_max_or(&self, empty: usize, r: usize) -> bool {
        match self {
            Mstop::Scalar(m) => r == *m,
            Mstop::PerParam(v) => is_max_or(v@, empty, r),
        }
    }

    /// Largest iteration count held, or `empty` for an empty per-parameter list.
    pub fn max_or(&self, empty: usize) -> (r: usize)
        ensures
            self.spec_max_or(empty, r),
    {
        match self {
            Mstop::Scalar(m) => *m,
            Mstop::PerParam(v) => max_or(v, empty),
        }
    }

    /// Whether parameter `k` has an iteration count.
    pub open spec fn covers(&self, k: int) -> bool {
        match self {
            Mstop::Scalar(_) => true,
            Mstop::PerParam(v) => 0 <= k < v.len(),
        }
    }

    /// Iteration count of parameter `k`.
    pub open spec fn spec_for_param(&self, k: int) -> usize {
        match self {
            Mstop::Scalar(m) => *m,
            Mstop::PerParam(v) => v[k],
        }
    }

    /// Iteration count of parameter `k`.
    pub fn for_param(&self, k: usize) -> (r: usize)
        requires
            self.covers(k as int),
        ensures
            r == self.spec_for_param(k as int),
    {
        match self {
            Mstop::Scalar(m) => *m,
            Mstop::PerParam(v) => v[k],
        }
    }

    /// Whether parameter `k` is still updated in iteration `m` (counted from 1).
    pub fn active_in(&self, k: usize, m: usize) -> (r: bool)
        requires
            self.covers(k as int),
        ensures
            r == (m <= self.spec_for_param(k as int)),
    {
        m <= self.for_param(k)
    }
}

/// The message given when a non-cyclic algorithm is combined with per-parameter counts.
pub open spec fn scalar_mstop_required_msg() -> Seq<char> {
    "NonCyclic algorithm requires a Scalar Mstop"@
}

/// Checks that the iteration counts suit the algorithm: the non-cyclic
/// algorithms need a single scalar count.
pub fn validate_mstop(algorithm: Algorithm, mstop: &Mstop) -> (r: Result<(), BoostlssError>)
    ensures
        r is Err <==> (algorithm != Algorithm::Cyclic && mstop is PerParam),
        r matches Err(e) ==> (e is InvalidConfig && e.detail() == scalar_mstop_required_msg()),
{
    match (algorithm, mstop) {
        (Algorithm::Cyclic, _) => Ok(()),
        (_, Mstop::Scalar(_)) => Ok(()),
        (_, Mstop::PerParam(_)) => Err(
            BoostlssError::InvalidConfig(text("NonCyclic algorithm requires a Scalar Mstop")),
        ),
    }
}

} // verus!

verus! {

/// Sum of the first `k` entries of `s`.
pub open spec fn sum_first(s: Seq<usize>, k: nat) -> int
    decreases k,
{
    if k == 0 {
        0
    } else {
        sum_first(s, (k - 1) as nat) + s[k - 1]
    }
}

/// Sum of all entries of `s`.
pub open spec fn sum_all(s: Seq<usize>) -> int {
    sum_first(s, s.len())
}

/// Partial sums never decrease as more entries are taken.
pub proof fn lemma_sum_first_monotone(s: Seq<usize>, j: nat, k: nat)
    requires
        j <= k <= s.len(),
    ensures
        0 <= sum_first(s, j) <= sum_first(s, k),
    decreases k,
{
    if k > j {
        lemma_sum_first_monotone(s, j, (k - 1) as nat);
    } else if k > 0 {
        lemma_sum_first_monotone(s, 0, (k - 1) as nat);
    }
}

/// Partial sums only look at the entries they take.
pub proof fn lemma_sum_first_push(s: Seq<usize>, x: usize, k: nat)
    requires
        k <= s.len(),
    ensures
        sum_first(s.push(x), k) == sum_first(s, k),
    decreases k,
{
    if k > 0 {
        lemma_sum_first_push(s, x, (k - 1) as nat);
    }
}

/// Changing one entry changes the partial sums that cover it by the difference.
pub proof fn lemma_sum_first_update(s: Seq<usize>, i: int, v: usize, k: nat)
    requires
        0 <= i < s.len(),
        k <= s.len(),
    ensures
        sum_first(s.update(i, v), k) == sum_first(s, k) + (if i < k { v - s[i] } else { 0int }),
    decreases k,
{
    if k > 0 {
        lemma_sum_first_update(s, i, v, (k - 1) as nat);
    }
}

/// Changing one entry changes the sum by the difference.
pub proof fn lemma_sum_update(s: Seq<usize>, i: int, v: usize)
    requires
        0 <= i < s.len(),
    ensures
        sum_all(s.update(i, v)) == sum_all(s) - s[i] + v,
{
    lemma_sum_first_update(s, i, v, s.len());
}

/// Each entry is at most the sum.
pub proof fn lemma_entry_le_sum(s: Seq<usize>, i: int)
    requires
        0 <= i < s.len(),
    ensures
        s[i] <= sum_all(s),
{
    lemma_sum_first_monotone(s, (i + 1) as nat, s.len());
    lemma_sum_first_monotone(s, 0, i as nat);
}

/// A sequence of zeros sums to zero.
pub proof fn lemma_sum_zeros(s: Seq<usize>, k: nat)
    requires
        k <= s.len(),
        forall|i: int| 0 <= i < s.len() ==> s[i] == 0,
    ensures
        sum_first(s, k) == 0,
    decreases k,
{
    if k > 0 {
        lemma_sum_zeros(s, (k - 1) as nat);
    }
}

/// A sequence of ones sums to its length.
pub proof fn lemma_sum_ones(s: Seq<usize>, k: nat)
    requires
        k <= s.len(),
        forall|i: int| 0 <= i < s.len() ==> s[i] == 1,
    ensures
        sum_first(s, k) == k,
    decreases k,
{
    if k > 0 {
        lemma_sum_ones(s, (k - 1) as nat);
    }
}

/// Book-keeping of the boosting loop: how many updates each iteration made,
/// which iteration was best on the evaluation data, and when patience runs out.
pub struct IterationLog {
    patience: Option<usize>,
    has_eval: bool,
    best_iteration: usize,
    updates_per_iteration: Vec<usize>,
    total_updates: usize,
}

impl IterationLog {
    /// Internal consistency: the best iteration is one that was recorded, and
    /// the running total matches the per-iteration counts.
    pub closed spec fn wf(self) -> bool {
        &&& self.best_iteration <= self.updates_per_iteration.len()
        &&& self.total_updates == sum_all(self.updates_per_iteration@)
    }

    /// Number of updates made in each iteration so far.
    pub closed spec fn counts(self) -> Seq<usize> {
        self.updates_per_iteration@
    }

    /// Iteration (counted from 1, 0 for none) that was best so far.
    pub closed spec fn best(self) -> nat {
        self.best_iteration as nat
    }

    /// Patience of early stopping, if any.
    pub closed spec fn spec_patience(self) -> Option<usize> {
        self.patience
    }

    /// Whether an evaluation set scores the iterations.
    pub closed spec fn spec_has_eval(self) -> bool {
        self.has_eval
    }

    /// Whether the fitted model is cut back to the best iteration.
    pub open spec fn spec_truncates(self) -> bool {
        self.spec_patience() is Some && self.spec_has_eval()
    }

    /// Total number of updates made so far.
    pub open spec fn total(self) -> int {
        sum_all(self.counts())
    }

    /// Number of updates kept in the fitted model: those of the iterations up
    /// to the best one when the run truncates, all of them otherwise.
    pub open spec fn kept_update_count(self) -> int {
        if self.spec_truncates() {
            sum_first(self.counts(), self.best())
        } else {
            self.total()
        }
    }

    /// Number of iterations kept in the fitted model.
    pub open spec fn kept_iteration_count(self) -> nat {
        if self.spec_truncates() {
            self.best()
        } else {
            self.counts().len()
        }
    }

    /// The best iteration is one of the recorded ones (or none).
    pub proof fn lemma_best_within(self)
        requires
            self.wf(),
        ensures
            self.best() <= self.counts().len(),
    {
    }

    /// An empty log.
    pub fn new(has_eval: bool, patience: Option<usize>) -> (r: Self)
        ensures
            r.wf(),
            r.counts() == Seq::<usize>::empty(),
            r.best() == 0,
            r.spec_patience() == patience,
            r.spec_has_eval() == has_eval,
    {
        IterationLog {
            patience,
            has_eval,
            best_iteration: 0,
            updates_per_iteration: Vec::new(),
            total_updates: 0,
        }
    }

    /// Number of iterations recorded.
    pub fn iterations(&self) -> (r: usize)
        ensures
            r == self.counts().len(),
    {
        self.updates_per_iteration.len()
    }

    /// The best iteration so far.
    pub fn best_iteration(&self) -> (r: usize)
        requires
            self.wf(),
        ensures
            r == self.best(),
            r <= self.counts().len(),
    {
        self.best_iteration
    }

    /// Total number of updates made so far.
    pub fn total_updates(&self) -> (r: usize)
        requires
            self.wf(),
        ensures
            r == self.total(),
    {
        self.total_updates
    }

    /// Records one finished iteration that made `updates` updates. `improved`
    /// says whether its evaluation loss beat every earlier one (ignored without
    /// evaluation data). Returns whether the loop must stop now.
    pub fn record(&mut self, updates: usize, improved: bool) -> (stop: bool)
        requires
            old(self).wf(),
            old(self).total() + updates <= usize::MAX,
            old(self).counts().len() < usize::MAX,
        ensures
            final(self).wf(),
            final(self).counts() == old(self).counts().push(updates),
            final(self).spec_patience() == old(self).spec_patience(),
            final(self).spec_has_eval() == old(self).spec_has_eval(),
            final(self).best() == (if !old(self).spec_has_eval() || improved {
                final(self).counts().len()
            } else {
                old(self).best()
            }),
            stop == (old(self).spec_has_eval() && match old(self).spec_patience() {
                Some(p) => final(self).counts().len() - final(self).best() >= p,
                None => false,
            }),
            old(self).spec_patience() matches Some(p) ==> (stop && old(self).counts().len()
                - old(self).best() < p ==> final(self).counts().len() - final(self).best() == p),
    {
        proof {
            lemma_sum_first_push(self.updates_per_iteration@, updates, self.updates_per_iteration@.len());
        }
        self.updates_per_iteration.push(updates);
        self.total_updates = self.total_updates + updates;
        let m = self.updates_per_iteration.len();
        if !self.has_eval || improved {
            self.best_iteration = m;
        }
        if self.has_eval {
            match self.patience {
                Some(p) => m - self.best_iteration >= p,
                None => false,
            }
        } else {
            false
        }
    }

    /// Whether the fitted model is cut back to the best iteration: early
    /// stopping was asked for and evaluation data was given.
    pub fn truncates(&self) -> (r: bool)
        ensures
            r == self.spec_truncates(),
    {
        self.patience.is_some() && self.has_eval
    }

    /// Number of updates the fitted model keeps: those of the iterations up to
    /// the best one when the model is cut back, all of them otherwise.
    pub fn kept_updates(&self) -> (r: usize)
        requires
            self.wf(),
        ensures
            r == self.kept_update_count(),
            r <= self.total(),
    {
        proof {
            lemma_sum_first_monotone(self.counts(), self.best(), self.counts().len());
        }
        if !self.truncates() {
            return self.total_updates;
        }
        let mut sum: usize = 0;
        let mut i: usize = 0;
        while i < self.best_iteration
            invariant
                i <= self.best_iteration <= self.updates_per_iteration.len(),
                sum == sum_first(self.updates_per_iteration@, i as nat),
                sum_first(self.updates_per_iteration@, self.best_iteration as nat) <= self.total_updates,
                self.total_updates == sum_all(self.updates_per_iteration@),
            decreases self.best_iteration - i,
        {
            proof {
                lemma_sum_first_monotone(self.updates_per_iteration@, (i + 1) as nat, self.best_iteration as nat);
            }
            sum = sum + self.updates_per_iteration[i];
            i = i + 1;
        }
        sum
    }

    /// Number of iterations the fitted model keeps (for the loss histories).
    pub fn kept_iterations(&self) -> (r: usize)
        requires
            self.wf(),
        ensures
            r == self.kept_iteration_count(),
    {
        if self.truncates() {
            self.best_iteration
        } else {
            self.updates_per_iteration.len()
        }
    }
}

/// When every iteration applied exactly one update (a single parameter),
/// the kept updates are exactly one per kept iteration.
pub proof fn law_single_update_iterations(log: IterationLog)
    requires
        log.wf(),
        forall|i: int| 0 <= i < log.counts().len() ==> log.counts()[i] == 1,
    ensures
        log.kept_update_count() == log.kept_iteration_count(),
{
    log.lemma_best_within();
    lemma_sum_ones(log.counts(), log.best());
    lemma_sum_ones(log.counts(), log.counts().len());
}

} // verus!
