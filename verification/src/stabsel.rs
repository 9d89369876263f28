use vstd::prelude::*;
use crate::error::{text, BoostlssError};

verus! {

/// When a stability-selection run stops adding base-learners.
#[derive(Debug, Clone, Copy, PartialEq, Eq, Structural)]
pub enum StabselMode {
    /// Stop once `q` base-learners are selected over all parameters together.
    Joint,
    /// Stop once every parameter has `q` selected base-learners.
    Independent,
}

/// The first problem with the integer part of a stability-selection request,
/// checked in this order: `p` must be positive, a given `q` must lie in
/// `1..=p`, and exactly two of (`pfer`, `pi_thr`, `q`) must be given.
pub open spec fn stabsel_request_problem(p: usize, q: Option<usize>, has_pfer: bool, has_pi_thr: bool) -> Option<Seq<char>> {
    if p == 0 {
        Some("p must be greater than 0"@)
    } else if q matches Some(qv) && (qv == 0 || qv > p) {
        Some("q must be in 1..=p"@)
    } else if (if has_pfer { 1int } else { 0 }) + (if has_pi_thr { 1int } else { 0 }) + (if q is Some { 1int } else { 0 }) != 2 {
        Some("Exactly two of (pfer, pi_thr, q) must be provided"@)
    } else {
        None
    }
}

/// Checks the integer part of a stability-selection request: the number of
/// candidate base-learners `p`, the optional number `q` of learners selected
/// per run, and which of the error bound `pfer` and the threshold `pi_thr`
/// are given.
pub fn check_stabsel_request(p: usize, q: Option<usize>, has_pfer: bool, has_pi_thr: bool) -> (r: Result<(), BoostlssError>)
    ensures
        r is Ok <==> stabsel_request_problem(p, q, has_pfer, has_pi_thr) is None,
        r matches Err(e) ==> e is InvalidStabselConfig && Some(e.detail()) == stabsel_request_problem(p, q, has_pfer, has_pi_thr),
{
    if p == 0 {
        return Err(BoostlssError::InvalidStabselConfig(text("p must be greater than 0")));
    }
    if let Some(qv) = q {
        if qv == 0 || qv > p {
            return Err(BoostlssError::InvalidStabselConfig(text("q must be in 1..=p")));
        }
    }
    let provided: u8 = (if has_pfer { 1u8 } else { 0u8 }) + (if has_pi_thr { 1u8 } else { 0u8 }) + (if q.is_some() { 1u8 } else { 0u8 });
    if provided != 2 {
        return Err(BoostlssError::InvalidStabselConfig(text("Exactly two of (pfer, pi_thr, q) must be provided")));
    }
    Ok(())
}

/// Checks a derived number of selected learners: it must lie in `1..=p`.
pub fn check_derived_q(q: usize, p: usize) -> (r: Result<(), BoostlssError>)
    ensures
        r is Ok <==> 1 <= q <= p,
        r matches Err(e) ==> e is InvalidStabselConfig && e.detail() == "Derived q must be in 1..=p"@,
{
    if q == 0 || q > p {
        Err(BoostlssError::InvalidStabselConfig(text("Derived q must be in 1..=p")))
    } else {
        Ok(())
    }
}

/// Number of learners among the first `n` that are active and belong to parameter `k`.
pub open spec fn count_active(active: Seq<bool>, param_of: Seq<usize>, k: int, n: nat) -> nat
    decreases n,
{
    if n == 0 {
        0
    } else {
        count_active(active, param_of, k, (n - 1) as nat) + (if active[n - 1] && param_of[n - 1] == k { 1nat } else { 0nat })
    }
}

/// Number of active learners among the first `n`.
pub open spec fn count_all_active(active: Seq<bool>, n: nat) -> nat
    decreases n,
{
    if n == 0 {
        0
    } else {
        count_all_active(active, (n - 1) as nat) + (if active[n - 1] { 1nat } else { 0nat })
    }
}

/// Switching learner `l` on raises the count of its parameter by one.
proof fn lemma_activate(active: Seq<bool>, param_of: Seq<usize>, l: int, k: int, n: nat)
    requires
        0 <= l < active.len(),
        n <= active.len(),
        n <= param_of.len(),
        !active[l],
    ensures
        count_active(active.update(l, true), param_of, k, n) == count_active(active, param_of, k, n)
            + (if l < n && param_of[l] == k { 1nat } else { 0nat }),
    decreases n,
{
    if n > 0 {
        lemma_activate(active, param_of, l, k, (n - 1) as nat);
    }
}

/// Switching learner `l` on raises the total by one.
proof fn lemma_activate_total(active: Seq<bool>, l: int, n: nat)
    requires
        0 <= l < active.len(),
        n <= active.len(),
        !active[l],
    ensures
        count_all_active(active.update(l, true), n) == count_all_active(active, n) + (if l < n { 1nat } else { 0nat }),
    decreases n,
{
    if n > 0 {
        lemma_activate_total(active, l, (n - 1) as nat);
    }
}

/// Counts never exceed the number of learners looked at.
proof fn lemma_count_bound(active: Seq<bool>, n: nat)
    requires
        n <= active.len(),
    ensures
        count_all_active(active, n) <= n,
    decreases n,
{
    if n > 0 {
        lemma_count_bound(active, (n - 1) as nat);
    }
}

/// All-false activity has zero counts.
proof fn lemma_count_none(active: Seq<bool>, param_of: Seq<usize>, n: nat)
    requires
        n <= active.len(),
        forall|l: int| 0 <= l < active.len() ==> !active[l],
    ensures
        count_all_active(active, n) == 0,
    decreases n,
{
    if n > 0 {
        lemma_count_none(active, param_of, (n - 1) as nat);
    }
}

/// All-false activity has zero counts for every parameter.
proof fn lemma_count_none_param(active: Seq<bool>, param_of: Seq<usize>, k: int, n: nat)
    requires
        n <= active.len(),
        forall|l: int| 0 <= l < active.len() ==> !active[l],
    ensures
        count_active(active, param_of, k, n) == 0,
    decreases n,
{
    if n > 0 {
        lemma_count_none_param(active, param_of, k, (n - 1) as nat);
    }
}

/// The base-learners selected so far in one stability-selection run, grouped
/// by the distribution parameter each learner belongs to.
pub struct SelectionTracker {
    param_of: Vec<usize>,
    active: Vec<bool>,
    sizes: Vec<usize>,
    total: usize,
}

impl SelectionTracker {
    /// Parameter of each learner.
    pub closed spec fn learner_params(self) -> Seq<usize> {
        self.param_of@
    }

    /// Which learners have been selected.
    pub closed spec fn selected(self) -> Seq<bool> {
        self.active@
    }

    /// Number of distribution parameters.
    pub closed spec fn n_params(self) -> nat {
        self.sizes@.len()
    }

    /// Number of selected learners of parameter `k`.
    pub open spec fn size_of(self, k: int) -> nat {
        count_active(self.selected(), self.learner_params(), k, self.selected().len())
    }

    /// Number of selected learners.
    pub open spec fn total_selected(self) -> nat {
        count_all_active(self.selected(), self.selected().len())
    }

    /// Internal consistency of the cached counts.
    pub closed spec fn wf(self) -> bool {
        &&& self.param_of@.len() == self.active@.len()
        &&& forall|l: int| 0 <= l < self.param_of@.len() ==> #[trigger] self.param_of@[l] < self.sizes@.len()
        &&& forall|k: int| 0 <= k < self.sizes@.len() ==> #[trigger] self.sizes@[k] == self.size_of(k)
        &&& self.total == self.total_selected()
    }

    /// A run with nothing selected yet. `param_of[l]` is the parameter of
    /// learner `l`; there are `n_params` parameters.
    pub fn new(param_of: Vec<usize>, n_params: usize) -> (r: Self)
        requires
            forall|l: int| 0 <= l < param_of.len() ==> param_of[l] < n_params,
        ensures
            r.wf(),
            r.learner_params() == param_of@,
            r.n_params() == n_params,
            r.selected() == Seq::new(param_of@.len(), |l: int| false),
    {
        let mut active: Vec<bool> = Vec::new();
        let mut i: usize = 0;
        while i < param_of.len()
            invariant
                i <= param_of.len(),
                active@ == Seq::new(i as nat, |l: int| false),
            decreases param_of.len() - i,
        {
            active.push(false);
            proof {
                assert(active@ =~= Seq::new((i + 1) as nat, |l: int| false));
            }
            i = i + 1;
        }
        let mut sizes: Vec<usize> = Vec::new();
        let mut k: usize = 0;
        while k < n_params
            invariant
                k <= n_params,
                sizes.len() == k,
                forall|t: int| 0 <= t < k ==> sizes@[t] == 0,
            decreases n_params - k,
        {
            sizes.push(0);
            k = k + 1;
        }
        proof {
            lemma_count_none(active@, param_of@, active@.len());
            assert forall|t: int| 0 <= t < sizes@.len() implies #[trigger] sizes@[t] == count_active(active@, param_of@, t, active@.len()) by {
                lemma_count_none_param(active@, param_of@, t, active@.len());
            }
        }
        SelectionTracker { param_of, active, sizes, total: 0 }
    }

    /// Records that learner `l` was chosen in an iteration. Returns whether it
    /// was not selected before.
    pub fn select(&mut self, l: usize) -> (newly: bool)
        requires
            old(self).wf(),
            l < old(self).selected().len(),
        ensures
            final(self).wf(),
            newly == !old(self).selected()[l as int],
            final(self).selected() == old(self).selected().update(l as int, true),
            final(self).learner_params() == old(self).learner_params(),
            final(self).n_params() == old(self).n_params(),
    {
        if self.active[l] {
            proof {
                assert(self.active@.update(l as int, true) =~= self.active@);
            }
            return false;
        }
        let k = self.param_of[l];
        let n = self.active.len();
        proof {
            lemma_activate(self.active@, self.param_of@, l as int, k as int, self.active@.len());
            lemma_activate_total(self.active@, l as int, self.active@.len());
            lemma_count_bound(self.active@.update(l as int, true), self.active@.len());
            assert(self.sizes@[k as int] == self.size_of(k as int));
            assert(count_active(self.active@, self.param_of@, k as int, self.active@.len()) <= count_all_active(self.active@, self.active@.len())) by {
                lemma_count_le_total(self.active@, self.param_of@, k as int, self.active@.len());
            }
        }
        self.active.set(l, true);
        let s = self.sizes[k] + 1;
        self.sizes.set(k, s);
        self.total = self.total + 1;
        proof {
            let old_active = old(self).active@;
            assert forall|t: int| 0 <= t < self.sizes@.len() implies #[trigger] self.sizes@[t] == self.size_of(t) by {
                lemma_activate(old_active, self.param_of@, l as int, t, old_active.len());
            }
        }
        true
    }

    /// Number of selected learners of parameter `k`.
    pub fn size(&self, k: usize) -> (r: usize)
        requires
            self.wf(),
            k < self.n_params(),
        ensures
            r == self.size_of(k as int),
    {
        self.sizes[k]
    }

    /// Whether learner `l` has been selected.
    pub fn is_selected(&self, l: usize) -> (r: bool)
        requires
            l < self.selected().len(),
        ensures
            r == self.selected()[l as int],
    {
        self.active[l]
    }

    /// Number of selected learners.
    pub fn total(&self) -> (r: usize)
        requires
            self.wf(),
        ensures
            r == self.total_selected(),
    {
        self.total
    }

    /// Whether the run has selected enough learners to stop: `q` in total
    /// (joint mode), or `q` for every parameter (independent mode).
    pub fn reached(&self, mode: StabselMode, q: usize) -> (r: bool)
        requires
            self.wf(),
        ensures
            r == match mode {
                StabselMode::Joint => self.total_selected() >= q,
                StabselMode::Independent => forall|k: int| 0 <= k < self.n_params() ==> self.size_of(k) >= q,
            },
    {
        match mode {
            StabselMode::Joint => self.total >= q,
            StabselMode::Independent => {
                let mut k: usize = 0;
                while k < self.sizes.len()
                    invariant
                        self.wf(),
                        mode == StabselMode::Independent,
                        k <= self.sizes.len(),
                        forall|t: int| 0 <= t < k ==> self.size_of(t) >= q,
                    decreases self.sizes.len() - k,
                {
                    if self.sizes[k] < q {
                        proof {
                            assert(self.size_of(k as int) < q);
                        }
                        return false;
                    }
                    k = k + 1;
                }
                true
            },
        }
    }
}

/// How often each base-learner was selected over the stability-selection runs.
pub struct SelectionCounts {
    counts: Vec<usize>,
    runs: usize,
}

impl SelectionCounts {
    /// Selection count of each learner.
    pub closed spec fn spec_counts(self) -> Seq<usize> {
        self.counts@
    }

    /// Number of runs added.
    pub closed spec fn spec_runs(self) -> nat {
        self.runs as nat
    }

    /// No learner is selected in more runs than were added.
    pub closed spec fn wf(self) -> bool {
        forall|l: int| 0 <= l < self.counts@.len() ==> #[trigger] self.counts@[l] <= self.runs
    }

    /// Zero counts for `n_learners` learners and no run.
    pub fn new(n_learners: usize) -> (r: Self)
        ensures
            r.wf(),
            r.spec_runs() == 0,
            r.spec_counts() == Seq::new(n_learners as nat, |l: int| 0usize),
    {
        let mut counts: Vec<usize> = Vec::new();
        let mut i: usize = 0;
        while i < n_learners
            invariant
                i <= n_learners,
                counts@ == Seq::new(i as nat, |l: int| 0usize),
            decreases n_learners - i,
        {
            counts.push(0);
            proof {
                assert(counts@ =~= Seq::new((i + 1) as nat, |l: int| 0usize));
            }
            i = i + 1;
        }
        SelectionCounts { counts, runs: 0 }
    }

    /// Adds one finished run: every learner it selected gains one count.
    pub fn add_run(&mut self, run: &SelectionTracker)
        requires
            old(self).wf(),
            run.selected().len() == old(self).spec_counts().len(),
            old(self).spec_runs() < usize::MAX,
        ensures
            final(self).wf(),
            final(self).spec_runs() == old(self).spec_runs() + 1,
            final(self).spec_counts().len() == old(self).spec_counts().len(),
            forall|l: int| 0 <= l < final(self).spec_counts().len() ==> #[trigger] final(self).spec_counts()[l]
                == old(self).spec_counts()[l] + (if run.selected()[l] { 1int } else { 0int }),
    {
        let ghost before = self.counts@;
        let mut l: usize = 0;
        while l < self.counts.len()
            invariant
                l <= self.counts.len(),
                self.counts@.len() == before.len(),
                run.selected().len() == before.len(),
                self.runs < usize::MAX,
                self.runs == old(self).runs,
                forall|t: int| 0 <= t < before.len() ==> #[trigger] before[t] <= self.runs,
                forall|t: int| 0 <= t < l ==> #[trigger] self.counts@[t] == before[t] + (if run.selected()[t] { 1int } else { 0int }),
                forall|t: int| l <= t < before.len() ==> #[trigger] self.counts@[t] == before[t],
            decreases self.counts.len() - l,
        {
            if run.is_selected(l) {
                let c = self.counts[l] + 1;
                self.counts.set(l, c);
            }
            l = l + 1;
        }
        self.runs = self.runs + 1;
    }

    /// Number of runs that selected learner `l`.
    pub fn count(&self, l: usize) -> (r: usize)
        requires
            l < self.spec_counts().len(),
        ensures
            r == self.spec_counts()[l as int],
    {
        self.counts[l]
    }

    /// Number of runs added.
    pub fn runs(&self) -> (r: usize)
        ensures
            r == self.spec_runs(),
    {
        self.runs
    }
}

/// A learner's selection count never exceeds the number of runs.
pub proof fn law_count_at_most_runs(c: SelectionCounts, l: int)
    requires
        c.wf(),
        0 <= l < c.spec_counts().len(),
    ensures
        c.spec_counts()[l] <= c.spec_runs(),
{
}

/// A parameter's count is part of the total.
proof fn lemma_count_le_total(active: Seq<bool>, param_of: Seq<usize>, k: int, n: nat)
    requires
        n <= active.len(),
        n <= param_of.len(),
    ensures
        count_active(active, param_of, k, n) <= count_all_active(active, n),
    decreases n,
{
    if n > 0 {
        lemma_count_le_total(active, param_of, k, (n - 1) as nat);
    }
}

} // verus!
