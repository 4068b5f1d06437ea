//! The bookkeeping of an optimization run: which trial is evaluated next,
//! where its point comes from and with which seed, when the trials are
//! written out and when the run stops. The evaluations, the sampling and
//! the surrogate model are the caller's: it performs what a step asks for
//! and reports back whether the evaluation succeeded.
use vstd::prelude::*;
use crate::config::OptOutputSpec;

verus! {

/// Seeds of suggested points lie this far apart per trial.
pub const SUGGEST_SEED_MULT: u64 = 1000;

/// Seeds of fallback points lie this far apart per trial.
pub const FALLBACK_SEED_MULT: u64 = 777;

/// The experiment seed of a fallback evaluation is moved by this much.
pub const FALLBACK_SEED_OFFSET: u64 = 50000;

/// Where the point of an evaluation comes from.
#[derive(Debug, Clone, Copy, PartialEq, Eq, Structural)]
pub enum PointSource {
    /// The point at this position of the initial design.
    Initial(u64),
    /// A uniformly random point of the search space, drawn with this seed.
    Random(u64),
    /// The surrogate model's suggestion, computed with this seed.
    Suggest(u64),
    /// The suggestion that also accounts for the points still being
    /// evaluated, computed with this seed.
    SuggestWithPending(u64),
}

/// One evaluation to perform: the trial it counts as, where its point comes
/// from, and the seed of the experiment.
#[derive(Debug, Clone, Copy, PartialEq, Eq, Structural)]
pub struct Evaluation {
    pub trial_index: u64,
    pub source: PointSource,
    pub seed: u64,
}

/// The numeric settings that steer a run.
#[derive(Debug, Clone, Copy, PartialEq, Eq, Structural)]
pub struct RunSettings {
    /// The number of trials of the run.
    pub budget: u64,
    /// The configured size of the initial design.
    pub initial_points: u64,
    /// The run's seed.
    pub seed: u64,
    /// Below this many evaluated trials, new points are random.
    pub min_gp_training_points: u64,
    /// This many failures in a row stop the run.
    pub max_consecutive_failures: u64,
}

/// Failures in a row that stop a run when none is configured.
pub fn default_max_consecutive_failures() -> (n: u64)
    ensures
        n == 10,
{
    10
}

/// Failures in a row from which a run warns when none is configured.
pub fn default_early_warning_failures() -> (n: u64)
    ensures
        n == 5,
{
    5
}

/// Evaluated trials below which new points are random, when none is
/// configured.
pub fn default_min_gp_training_points() -> (n: u64)
    ensures
        n == 2,
{
    2
}

/// Random candidates scored by the acquisition function when none is
/// configured.
pub fn default_k_dpp_candidates() -> (n: u64)
    ensures
        n == 1000,
{
    1000
}

impl RunSettings {
    /// The settings of a run, the optional ones at their defaults when not
    /// configured.
    pub fn new(
        budget: u64,
        initial_points: u64,
        seed: u64,
        min_gp_training_points: Option<u64>,
        max_consecutive_failures: Option<u64>,
    ) -> (s: RunSettings)
        ensures
            s.budget == budget,
            s.initial_points == initial_points,
            s.seed == seed,
            s.min_gp_training_points == match min_gp_training_points {
                Some(n) => n,
                None => 2,
            },
            s.max_consecutive_failures == match max_consecutive_failures {
                Some(n) => n,
                None => 10,
            },
    {
        RunSettings {
            budget,
            initial_points,
            seed,
            min_gp_training_points: match min_gp_training_points {
                Some(n) => n,
                None => default_min_gp_training_points(),
            },
            max_consecutive_failures: match max_consecutive_failures {
                Some(n) => n,
                None => default_max_consecutive_failures(),
            },
        }
    }
}

/// The size of the initial design: the configured number of points, at
/// most the budget.
pub open spec fn initial_count(s: RunSettings) -> u64 {
    if s.initial_points <= s.budget {
        s.initial_points
    } else {
        s.budget
    }
}

/// Whether the trials are written out after trial `idx`.
pub open spec fn checkpoint_due(out: OptOutputSpec, idx: u64) -> bool {
    out.checkpoint && match out.checkpoint_interval {
        Some(k) => idx % k == 0 || idx == 0,
        None => true,
    }
}

/// The trial after which the trials are written out, if they are.
pub open spec fn checkpoint_at(out: OptOutputSpec, idx: u64) -> Option<u64> {
    if checkpoint_due(out, idx) {
        Some(idx)
    } else {
        None
    }
}

/// Checkpoints are off or their interval is not zero.
pub open spec fn checkpoints_valid(out: OptOutputSpec) -> bool {
    !(out.checkpoint && out.checkpoint_interval == Some(0u64))
}

/// The last trial of the initial design (the first trial when it is empty).
pub open spec fn initial_checkpoint_index(s: RunSettings) -> u64 {
    if initial_count(s) == 0 {
        0
    } else {
        (initial_count(s) - 1) as u64
    }
}

/// How many of `oks` are successes.
pub open spec fn successes(oks: Seq<bool>) -> nat
    decreases oks.len(),
{
    if oks.len() == 0 {
        0
    } else {
        successes(oks.drop_last()) + if oks.last() {
            1nat
        } else {
            0nat
        }
    }
}

proof fn lemma_successes_bound(oks: Seq<bool>)
    ensures
        successes(oks) <= oks.len(),
    decreases oks.len(),
{
    if oks.len() > 0 {
        lemma_successes_bound(oks.drop_last());
    }
}

fn checkpoint(out: &OptOutputSpec, idx: u64) -> (res: Option<u64>)
    requires
        checkpoints_valid(*out),
    ensures
        res == checkpoint_at(*out, idx),
{
    if out.should_checkpoint(idx) {
        Some(idx)
    } else {
        None
    }
}

/// Counts the successes and failures of `oks`.
fn tally(oks: &[bool]) -> (res: (u64, u64))
    ensures
        res.0 == successes(oks@),
        res.0 + res.1 == oks@.len(),
{
    let mut good: u64 = 0;
    let mut bad: u64 = 0;
    let mut i: usize = 0;
    while i < oks.len()
        invariant
            i <= oks@.len(),
            good == successes(oks@.subrange(0, i as int)),
            good + bad == i,
        decreases oks@.len() - i,
    {
        proof {
            assert(oks@.subrange(0, i as int + 1).drop_last() =~= oks@.subrange(0, i as int));
            lemma_successes_bound(oks@.subrange(0, i as int));
        }
        if oks[i] {
            good = good + 1;
        } else {
            bad = bad + 1;
        }
        i = i + 1;
    }
    proof {
        assert(oks@.subrange(0, oks@.len() as int) =~= oks@);
    }
    (good, bad)
}

/// Whether `seed + t * k + extra` fits in a `u64`.
fn fits(seed: u64, t: u64, k: u64, extra: u64) -> (b: bool)
    ensures
        b == (seed + t * k + extra <= u64::MAX),
{
    match t.checked_mul(k) {
        None => {
            assert(t * k >= 0) by (nonlinear_arith);
            false
        },
        Some(p) => match seed.checked_add(p) {
            None => false,
            Some(q) => q.checked_add(extra).is_some(),
        },
    }
}

/// Whether the seeds of the initial design fit in a `u64`.
pub fn initial_seeds_fit(s: &RunSettings) -> (b: bool)
    ensures
        b == (s.seed + initial_count(*s) <= u64::MAX + 1),
{
    let n = initial_design_size(s);
    n == 0 || fits(s.seed, n - 1, 1, 0)
}

/// The size of the initial design: the configured number of points, at
/// most the budget.
pub fn initial_design_size(s: &RunSettings) -> (n: u64)
    ensures
        n == initial_count(*s),
{
    if s.initial_points <= s.budget {
        s.initial_points
    } else {
        s.budget
    }
}

/// The evaluation of the initial design's `i`-th point.
pub open spec fn initial_evaluation(s: RunSettings, i: int) -> Evaluation {
    Evaluation { trial_index: i as u64, source: PointSource::Initial(i as u64), seed: (s.seed + i) as u64 }
}

/// The evaluations of the initial design: trial `i` evaluates the design's
/// `i`-th point with the run's seed plus `i`.
pub fn initial_evaluations(s: &RunSettings) -> (res: Vec<Evaluation>)
    requires
        s.seed + initial_count(*s) <= u64::MAX + 1,
    ensures
        res@.len() == initial_count(*s),
        forall|i: int| 0 <= i < res@.len() ==> #[trigger] res@[i] == initial_evaluation(*s, i),
{
    let n = initial_design_size(s);
    let mut res: Vec<Evaluation> = Vec::new();
    let mut i: u64 = 0;
    while i < n
        invariant
            i <= n,
            n == initial_count(*s),
            s.seed + n <= u64::MAX + 1,
            res@.len() == i,
            forall|k: int| 0 <= k < i ==> #[trigger] res@[k] == initial_evaluation(*s, k),
        decreases n - i,
    {
        res.push(Evaluation { trial_index: i, source: PointSource::Initial(i), seed: s.seed + i });
        i = i + 1;
    }
    res
}

// ---------------------------------------------------------------------
// One trial at a time
// ---------------------------------------------------------------------

/// Where a sequential run stands.
#[derive(Debug, Clone, Copy, PartialEq, Eq, Structural)]
pub enum RunPhase {
    /// The initial design is being evaluated.
    Initial,
    /// Trial `trial` is next; `retry` when its first point failed and a
    /// random point takes its place.
    Trial { trial: u64, retry: bool },
    /// The run is over.
    Done,
}

/// What a sequential run counts.
#[derive(Debug, Clone, Copy, PartialEq, Eq, Structural)]
pub struct SequentialState {
    pub phase: RunPhase,
    pub consecutive_failures: u64,
    pub evaluated: u64,
}

/// The counts of a sequential run are consistent with its phase.
pub open spec fn seq_wf(s: RunSettings, st: SequentialState) -> bool {
    match st.phase {
        RunPhase::Initial => st.consecutive_failures == 0 && st.evaluated == 0,
        RunPhase::Trial { trial, retry } => {
            &&& initial_count(s) <= trial < s.budget
            &&& st.evaluated <= trial
            &&& if retry {
                0 < st.consecutive_failures < s.max_consecutive_failures && st.consecutive_failures <= 2
                    * trial + 1
            } else {
                st.consecutive_failures <= 2 * trial
            }
        },
        RunPhase::Done => true,
    }
}

/// The seeds of the next evaluation fit in a `u64`.
pub open spec fn seq_seeds_fit(s: RunSettings, st: SequentialState) -> bool {
    match st.phase {
        RunPhase::Trial { trial, retry } => if retry {
            s.seed + trial * FALLBACK_SEED_MULT <= u64::MAX && s.seed + trial + FALLBACK_SEED_OFFSET <= u64::MAX
        } else {
            s.seed + trial * SUGGEST_SEED_MULT <= u64::MAX
        },
        _ => true,
    }
}

/// The next evaluation of a sequential run: for trial `t`, a random point
/// while fewer than `min_gp_training_points` trials succeeded and the
/// model's suggestion after that, both drawn with the seed plus
/// `1000 * t`, evaluated with the seed plus `t`; after a failure, a random
/// point drawn with the seed plus `777 * t`, evaluated with the seed plus
/// `t + 50000`. Nothing outside the trial phase.
pub open spec fn seq_evaluation(s: RunSettings, st: SequentialState) -> Option<Evaluation> {
    match st.phase {
        RunPhase::Trial { trial, retry } => if retry {
            Some(
                Evaluation {
                    trial_index: trial,
                    source: PointSource::Random((s.seed + trial * FALLBACK_SEED_MULT) as u64),
                    seed: (s.seed + trial + FALLBACK_SEED_OFFSET) as u64,
                },
            )
        } else {
            let point_seed = (s.seed + trial * SUGGEST_SEED_MULT) as u64;
            Some(
                Evaluation {
                    trial_index: trial,
                    source: if st.evaluated < s.min_gp_training_points {
                        PointSource::Random(point_seed)
                    } else {
                        PointSource::Suggest(point_seed)
                    },
                    seed: (s.seed + trial) as u64,
                },
            )
        },
        _ => None,
    }
}

/// The state once the initial design's results `oks` are in: successes
/// and failures counted, and the first trial after the design next (or
/// the end, when the design takes the whole budget).
pub open spec fn seq_after_initial(s: RunSettings, oks: Seq<bool>) -> SequentialState {
    SequentialState {
        phase: if initial_count(s) < s.budget {
            RunPhase::Trial { trial: initial_count(s), retry: false }
        } else {
            RunPhase::Done
        },
        consecutive_failures: (oks.len() - successes(oks)) as u64,
        evaluated: successes(oks) as u64,
    }
}

/// The phase after the current trial is finished.
pub open spec fn seq_next_trial(s: RunSettings, trial: u64) -> RunPhase {
    if trial + 1 < s.budget {
        RunPhase::Trial { trial: (trial + 1) as u64, retry: false }
    } else {
        RunPhase::Done
    }
}

/// The state and the checkpoint once the current evaluation came back.
/// A success resets the failure count, counts one more evaluated trial,
/// checkpoints after the trial and moves to the next one. A failure counts
/// one more failure; on a trial's first point it stops the run when the
/// failures reach `max_consecutive_failures` and otherwise retries the
/// trial with a random point; on the retry it moves to the next trial.
pub open spec fn seq_record(s: RunSettings, out: OptOutputSpec, st: SequentialState, ok: bool) -> (
    SequentialState,
    Option<u64>,
) {
    match st.phase {
        RunPhase::Trial { trial, retry } => if ok {
            (
                SequentialState {
                    phase: seq_next_trial(s, trial),
                    consecutive_failures: 0,
                    evaluated: (st.evaluated + 1) as u64,
                },
                checkpoint_at(out, trial),
            )
        } else {
            let failures = (st.consecutive_failures + 1) as u64;
            let phase = if retry {
                seq_next_trial(s, trial)
            } else if failures >= s.max_consecutive_failures {
                RunPhase::Done
            } else {
                RunPhase::Trial { trial, retry: true }
            };
            (SequentialState { phase, consecutive_failures: failures, evaluated: st.evaluated }, None)
        },
        _ => (st, None),
    }
}

/// An optimization run that evaluates one trial at a time.
#[derive(Debug, Clone)]
pub struct SequentialRun {
    pub settings: RunSettings,
    pub output: OptOutputSpec,
    pub state: SequentialState,
}

impl SequentialRun {
    /// The run's state is consistent and its checkpoints can be computed.
    pub open spec fn wf(&self) -> bool {
        checkpoints_valid(self.output) && seq_wf(self.settings, self.state)
    }

    /// A run about to evaluate its initial design.
    pub fn new(settings: RunSettings, output: OptOutputSpec) -> (run: SequentialRun)
        requires
            checkpoints_valid(output),
        ensures
            run.wf(),
            run.settings == settings,
            run.output == output,
            run.state == (SequentialState { phase: RunPhase::Initial, consecutive_failures: 0, evaluated: 0 }),
    {
        SequentialRun {
            settings,
            output,
            state: SequentialState { phase: RunPhase::Initial, consecutive_failures: 0, evaluated: 0 },
        }
    }

    /// Takes the results of the initial design, in trial order (a design
    /// may hold fewer points than its size): each success counts as
    /// evaluated and each failure as a failure in a row.
    /// Returns the trial after which to write the trials out, if any.
    pub fn record_initial(&mut self, oks: &[bool]) -> (res: Option<u64>)
        requires
            old(self).wf(),
            old(self).state.phase == RunPhase::Initial,
            oks@.len() <= initial_count(old(self).settings),
        ensures
            final(self).wf(),
            final(self).settings == old(self).settings,
            final(self).output == old(self).output,
            final(self).state == seq_after_initial(old(self).settings, oks@),
            res == checkpoint_at(old(self).output, initial_checkpoint_index(old(self).settings)),
    {
        let (good, bad) = tally(oks);
        let n = initial_design_size(&self.settings);
        let phase = if n < self.settings.budget {
            RunPhase::Trial { trial: n, retry: false }
        } else {
            RunPhase::Done
        };
        self.state = SequentialState { phase, consecutive_failures: bad, evaluated: good };
        let last = if n == 0 {
            0
        } else {
            n - 1
        };
        checkpoint(&self.output, last)
    }

    /// The next evaluation, or `None` once the run is over.
    pub fn next_evaluation(&self) -> (res: Option<Evaluation>)
        requires
            self.wf(),
            seq_seeds_fit(self.settings, self.state),
        ensures
            res == seq_evaluation(self.settings, self.state),
    {
        match self.state.phase {
            RunPhase::Trial { trial, retry } => {
                let s = &self.settings;
                if retry {
                    Some(
                        Evaluation {
                            trial_index: trial,
                            source: PointSource::Random(s.seed + trial * FALLBACK_SEED_MULT),
                            seed: s.seed + trial + FALLBACK_SEED_OFFSET,
                        },
                    )
                } else {
                    let point_seed = s.seed + trial * SUGGEST_SEED_MULT;
                    let source = if self.state.evaluated < s.min_gp_training_points {
                        PointSource::Random(point_seed)
                    } else {
                        PointSource::Suggest(point_seed)
                    };
                    Some(Evaluation { trial_index: trial, source, seed: s.seed + trial })
                }
            },
            _ => None,
        }
    }

    /// Takes the result of the evaluation that `next_evaluation` asked for
    /// and returns the trial after which to write the trials out, if any.
    pub fn record(&mut self, ok: bool) -> (res: Option<u64>)
        requires
            old(self).wf(),
            old(self).state.phase is Trial,
            seq_seeds_fit(old(self).settings, old(self).state),
        ensures
            final(self).wf(),
            final(self).settings == old(self).settings,
            final(self).output == old(self).output,
            (final(self).state, res) == seq_record(old(self).settings, old(self).output, old(self).state, ok),
    {
        let budget = self.settings.budget;
        match self.state.phase {
            RunPhase::Trial { trial, retry } => {
                let next = if trial + 1 < budget {
                    RunPhase::Trial { trial: trial + 1, retry: false }
                } else {
                    RunPhase::Done
                };
                if ok {
                    self.state =
                        SequentialState {
                            phase: next,
                            consecutive_failures: 0,
                            evaluated: self.state.evaluated + 1,
                        };
                    checkpoint(&self.output, trial)
                } else {
                    let failures = self.state.consecutive_failures + 1;
                    let phase = if retry {
                        next
                    } else if failures >= self.settings.max_consecutive_failures {
                        RunPhase::Done
                    } else {
                        RunPhase::Trial { trial, retry: true }
                    };
                    self.state = SequentialState { phase, consecutive_failures: failures, evaluated: self.state.evaluated };
                    None
                }
            },
            _ => None,
        }
    }

    /// Whether the seeds of the next evaluation fit in a `u64`.
    pub fn seeds_fit(&self) -> (b: bool)
        ensures
            b == seq_seeds_fit(self.settings, self.state),
    {
        let seed = self.settings.seed;
        match self.state.phase {
            RunPhase::Trial { trial, retry } => if retry {
                fits(seed, trial, FALLBACK_SEED_MULT, 0) && fits(seed, trial, 1, FALLBACK_SEED_OFFSET)
            } else {
                fits(seed, trial, SUGGEST_SEED_MULT, 0)
            },
            _ => true,
        }
    }

    /// Whether the run is over.
    pub fn is_done(&self) -> (b: bool)
        ensures
            b == (self.state.phase == RunPhase::Done),
    {
        match self.state.phase {
            RunPhase::Done => true,
            _ => false,
        }
    }
}

// ---------------------------------------------------------------------
// Several trials at once
// ---------------------------------------------------------------------

/// What a run with several evaluations under way counts.
#[derive(Debug, Clone, Copy, PartialEq, Eq, Structural)]
pub struct AsyncState {
    /// The initial design's results are in.
    pub started: bool,
    /// The trial index the next dispatched evaluation gets.
    pub next_trial: u64,
    /// Evaluations dispatched whose result is not in yet.
    pub in_flight: u64,
    pub consecutive_failures: u64,
    pub evaluated: u64,
    /// Too many failures in a row ended the run.
    pub stopped: bool,
}

/// The counts of a run with several evaluations under way are consistent:
/// every trial index handed out is below the budget, and every handed-out
/// trial has either succeeded, failed or is still under way.
pub open spec fn async_wf(s: RunSettings, st: AsyncState) -> bool {
    if !st.started {
        st.next_trial == 0 && st.in_flight == 0 && st.consecutive_failures == 0 && st.evaluated == 0
            && !st.stopped
    } else {
        &&& initial_count(s) <= st.next_trial <= s.budget
        &&& st.evaluated + st.in_flight <= st.next_trial
        &&& !st.stopped ==> st.consecutive_failures == 0 || st.consecutive_failures
            < s.max_consecutive_failures
    }
}

/// A new point for trial `trial`: random while fewer than `threshold`
/// trials succeeded, the model's suggestion (`pending`: accounting for the
/// evaluations under way) after that, drawn with the seed plus
/// `1000 * trial` and evaluated with the seed plus `trial`.
pub open spec fn fresh_evaluation(s: RunSettings, trial: u64, evaluated: u64, threshold: u64, pending: bool) -> Evaluation {
    let point_seed = (s.seed + trial * SUGGEST_SEED_MULT) as u64;
    Evaluation {
        trial_index: trial,
        source: if evaluated < threshold {
            PointSource::Random(point_seed)
        } else if pending {
            PointSource::SuggestWithPending(point_seed)
        } else {
            PointSource::Suggest(point_seed)
        },
        seed: (s.seed + trial) as u64,
    }
}

/// How many evaluations the first wave dispatches: the batch size, at most
/// the trials left after the initial design.
pub open spec fn first_wave_size(s: RunSettings, batch_size: u64) -> u64 {
    let left = (s.budget - initial_count(s)) as u64;
    if batch_size <= left {
        batch_size
    } else {
        left
    }
}

/// The seeds of the first wave fit in a `u64`.
pub open spec fn first_wave_seeds_fit(s: RunSettings, batch_size: u64) -> bool {
    first_wave_size(s, batch_size) > 0 ==> s.seed + (initial_count(s) + first_wave_size(s, batch_size) - 1)
        * SUGGEST_SEED_MULT <= u64::MAX
}

/// The state, checkpoint and first wave once the initial design's results
/// `oks` are in: the successes count as evaluated (failures of the design
/// are not counted), the trials are written out after the design's last
/// trial, and the first wave takes the trials after the design, each a
/// random point while fewer than two trials succeeded and the model's
/// suggestion otherwise.
pub open spec fn async_start(s: RunSettings, out: OptOutputSpec, batch_size: u64, oks: Seq<bool>) -> (
    AsyncState,
    Option<u64>,
    Seq<Evaluation>,
) {
    let n = initial_count(s);
    let w = first_wave_size(s, batch_size);
    let evaluated = successes(oks) as u64;
    (
        AsyncState {
            started: true,
            next_trial: (n + w) as u64,
            in_flight: w,
            consecutive_failures: 0,
            evaluated,
            stopped: false,
        },
        checkpoint_at(out, initial_checkpoint_index(s)),
        Seq::new(w as nat, |k: int| fresh_evaluation(s, (n + k) as u64, evaluated, 2, false)),
    )
}

/// The replacement for a failed trial `failed`: trial `trial` with a
/// random point drawn with the seed plus `777 * failed`, evaluated with the
/// seed plus `trial + 50000`.
pub open spec fn fallback_evaluation(s: RunSettings, failed: u64, trial: u64) -> Evaluation {
    Evaluation {
        trial_index: trial,
        source: PointSource::Random((s.seed + failed * FALLBACK_SEED_MULT) as u64),
        seed: (s.seed + trial + FALLBACK_SEED_OFFSET) as u64,
    }
}

/// The seeds that the result of trial `m` makes the run compute fit in a
/// `u64`.
pub open spec fn async_seeds_fit(s: RunSettings, st: AsyncState, m: u64, ok: bool) -> bool {
    if ok {
        st.next_trial < s.budget ==> s.seed + st.next_trial * SUGGEST_SEED_MULT <= u64::MAX
    } else if st.consecutive_failures + 1 >= s.max_consecutive_failures {
        true
    } else {
        let n1 = if st.next_trial < s.budget {
            st.next_trial + 1
        } else {
            st.next_trial as int
        };
        &&& st.next_trial < s.budget ==> s.seed + m * FALLBACK_SEED_MULT <= u64::MAX && s.seed + st.next_trial
            + FALLBACK_SEED_OFFSET <= u64::MAX
        &&& n1 < s.budget ==> s.seed + n1 * SUGGEST_SEED_MULT <= u64::MAX
    }
}

/// The state, checkpoint and new evaluations once the result of trial `m`
/// is in. A success resets the failure count, counts one more evaluated
/// trial and checkpoints after `m`. A failure counts one more failure in a
/// row and stops the run when they reach `max_consecutive_failures`;
/// otherwise, while trials are left, a random fallback point takes the
/// next trial. Then, unless the run stopped, while trials are left the
/// next trial gets a fresh point: random while fewer than
/// `min_gp_training_points` trials succeeded, else the suggestion that
/// accounts for the evaluations under way.
pub open spec fn async_result(s: RunSettings, out: OptOutputSpec, st: AsyncState, m: u64, ok: bool) -> (
    AsyncState,
    Option<u64>,
    Seq<Evaluation>,
) {
    let in_flight = (st.in_flight - 1) as u64;
    if ok {
        let evaluated = (st.evaluated + 1) as u64;
        let more: Seq<Evaluation> = if st.next_trial < s.budget {
            seq![fresh_evaluation(s, st.next_trial, evaluated, s.min_gp_training_points, true)]
        } else {
            Seq::empty()
        };
        (
            AsyncState {
                started: true,
                next_trial: (st.next_trial + more.len()) as u64,
                in_flight: (in_flight + more.len()) as u64,
                consecutive_failures: 0,
                evaluated,
                stopped: false,
            },
            checkpoint_at(out, m),
            more,
        )
    } else {
        let failures = (st.consecutive_failures + 1) as u64;
        if failures >= s.max_consecutive_failures {
            (AsyncState { in_flight, consecutive_failures: failures, stopped: true, ..st }, None, Seq::empty())
        } else {
            let fallback: Seq<Evaluation> = if st.next_trial < s.budget {
                seq![fallback_evaluation(s, m, st.next_trial)]
            } else {
                Seq::empty()
            };
            let n1 = (st.next_trial + fallback.len()) as u64;
            let more: Seq<Evaluation> = if n1 < s.budget {
                seq![fresh_evaluation(s, n1, st.evaluated, s.min_gp_training_points, true)]
            } else {
                Seq::empty()
            };
            (
                AsyncState {
                    started: true,
                    next_trial: (n1 + more.len()) as u64,
                    in_flight: (in_flight + fallback.len() + more.len()) as u64,
                    consecutive_failures: failures,
                    evaluated: st.evaluated,
                    stopped: false,
                },
                None,
                fallback + more,
            )
        }
    }
}

/// An optimization run that keeps up to `batch_size` evaluations under way.
#[derive(Debug, Clone)]
pub struct AsyncRun {
    pub settings: RunSettings,
    pub output: OptOutputSpec,
    pub batch_size: u64,
    pub state: AsyncState,
}

impl AsyncRun {
    /// The run's state is consistent and its checkpoints can be computed.
    pub open spec fn wf(&self) -> bool {
        checkpoints_valid(self.output) && async_wf(self.settings, self.state)
    }

    /// A run about to evaluate its initial design.
    pub fn new(settings: RunSettings, output: OptOutputSpec, batch_size: u64) -> (run: AsyncRun)
        requires
            checkpoints_valid(output),
        ensures
            run.wf(),
            run.settings == settings,
            run.output == output,
            run.batch_size == batch_size,
            !run.state.started,
    {
        AsyncRun {
            settings,
            output,
            batch_size,
            state: AsyncState {
                started: false,
                next_trial: 0,
                in_flight: 0,
                consecutive_failures: 0,
                evaluated: 0,
                stopped: false,
            },
        }
    }

    /// Takes the results of the initial design, in trial order (a design
    /// may hold fewer points than its size), and returns
    /// the trial after which to write the trials out, if any, and the
    /// first wave of evaluations to dispatch.
    pub fn start(&mut self, oks: &[bool]) -> (res: (Option<u64>, Vec<Evaluation>))
        requires
            old(self).wf(),
            !old(self).state.started,
            oks@.len() <= initial_count(old(self).settings),
            first_wave_seeds_fit(old(self).settings, old(self).batch_size),
        ensures
            final(self).wf(),
            final(self).settings == old(self).settings,
            final(self).output == old(self).output,
            final(self).batch_size == old(self).batch_size,
            (final(self).state, res.0, res.1@) == async_start(
                old(self).settings,
                old(self).output,
                old(self).batch_size,
                oks@,
            ),
    {
        let (good, _bad) = tally(oks);
        proof {
            lemma_successes_bound(oks@);
        }
        let n = initial_design_size(&self.settings);
        let left = self.settings.budget - n;
        let w = if self.batch_size <= left {
            self.batch_size
        } else {
            left
        };
        let last = if n == 0 {
            0
        } else {
            n - 1
        };
        let cp = checkpoint(&self.output, last);
        let mut wave: Vec<Evaluation> = Vec::new();
        let ghost s = self.settings;
        let mut k: u64 = 0;
        while k < w
            invariant
                k <= w,
                s == self.settings,
                n == initial_count(s),
                w == first_wave_size(s, self.batch_size),
                first_wave_seeds_fit(s, self.batch_size),
                n + w <= s.budget,
                wave@.len() == k,
                forall|j: int| 0 <= j < k ==> #[trigger] wave@[j] == fresh_evaluation(s, (n + j) as u64, good, 2, false),
            decreases w - k,
        {
            let trial = n + k;
            let point_seed = self.settings.seed + trial * SUGGEST_SEED_MULT;
            let source = if good < 2 {
                PointSource::Random(point_seed)
            } else {
                PointSource::Suggest(point_seed)
            };
            wave.push(Evaluation { trial_index: trial, source, seed: self.settings.seed + trial });
            k = k + 1;
        }
        self.state =
            AsyncState {
                started: true,
                next_trial: n + w,
                in_flight: w,
                consecutive_failures: 0,
                evaluated: good,
                stopped: false,
            };
        proof {
            let spec_wave = async_start(s, self.output, self.batch_size, oks@).2;
            assert(wave@ =~= spec_wave);
        }
        (cp, wave)
    }

    /// Takes the result of the evaluation of trial `m` and returns the
    /// trial after which to write the trials out, if any, and the
    /// evaluations to dispatch next.
    pub fn on_result(&mut self, m: u64, ok: bool) -> (res: (Option<u64>, Vec<Evaluation>))
        requires
            old(self).wf(),
            old(self).state.started,
            !old(self).state.stopped,
            old(self).state.in_flight > 0,
            m < old(self).state.next_trial,
            async_seeds_fit(old(self).settings, old(self).state, m, ok),
        ensures
            final(self).wf(),
            final(self).settings == old(self).settings,
            final(self).output == old(self).output,
            final(self).batch_size == old(self).batch_size,
            (final(self).state, res.0, res.1@) == async_result(
                old(self).settings,
                old(self).output,
                old(self).state,
                m,
                ok,
            ),
    {
        let budget = self.settings.budget;
        let seed = self.settings.seed;
        let st = self.state;
        let in_flight = st.in_flight - 1;
        if ok {
            let evaluated = st.evaluated + 1;
            let cp = checkpoint(&self.output, m);
            let mut more: Vec<Evaluation> = Vec::new();
            let mut next = st.next_trial;
            if next < budget {
                more.push(self.fresh(next, evaluated));
                next = next + 1;
            }
            let n_more = more.len() as u64;
            self.state =
                AsyncState {
                    started: true,
                    next_trial: next,
                    in_flight: in_flight + n_more,
                    consecutive_failures: 0,
                    evaluated,
                    stopped: false,
                };
            proof {
                let spec = async_result(self.settings, self.output, st, m, ok);
                assert(more@ =~= spec.2);
            }
            (cp, more)
        } else {
            let failures = st.consecutive_failures + 1;
            if failures >= self.settings.max_consecutive_failures {
                self.state = AsyncState { in_flight, consecutive_failures: failures, stopped: true, ..st };
                return (None, Vec::new());
            }
            let mut more: Vec<Evaluation> = Vec::new();
            let mut next = st.next_trial;
            if next < budget {
                more.push(
                    Evaluation {
                        trial_index: next,
                        source: PointSource::Random(seed + m * FALLBACK_SEED_MULT),
                        seed: seed + next + FALLBACK_SEED_OFFSET,
                    },
                );
                next = next + 1;
            }
            let ghost n_fallback = more@.len();
            if next < budget {
                more.push(self.fresh(next, st.evaluated));
                next = next + 1;
            }
            let n_more = more.len() as u64;
            self.state =
                AsyncState {
                    started: true,
                    next_trial: next,
                    in_flight: in_flight + n_more,
                    consecutive_failures: failures,
                    evaluated: st.evaluated,
                    stopped: false,
                };
            proof {
                let spec = async_result(self.settings, self.output, st, m, ok);
                assert(more@ =~= spec.2);
            }
            (None, more)
        }
    }

    /// A fresh point for trial `trial` after the initial wave.
    fn fresh(&self, trial: u64, evaluated: u64) -> (e: Evaluation)
        requires
            self.settings.seed + trial * SUGGEST_SEED_MULT <= u64::MAX,
        ensures
            e == fresh_evaluation(self.settings, trial, evaluated, self.settings.min_gp_training_points, true),
    {
        let point_seed = self.settings.seed + trial * SUGGEST_SEED_MULT;
        let source = if evaluated < self.settings.min_gp_training_points {
            PointSource::Random(point_seed)
        } else {
            PointSource::SuggestWithPending(point_seed)
        };
        Evaluation { trial_index: trial, source, seed: self.settings.seed + trial }
    }

    /// Whether the seeds of the first wave fit in a `u64`.
    pub fn first_wave_fits(&self) -> (b: bool)
        ensures
            b == first_wave_seeds_fit(self.settings, self.batch_size),
    {
        let n = initial_design_size(&self.settings);
        let left = self.settings.budget - n;
        let w = if self.batch_size <= left {
            self.batch_size
        } else {
            left
        };
        w == 0 || fits(self.settings.seed, n + w - 1, SUGGEST_SEED_MULT, 0)
    }

    /// Whether the seeds that the result of trial `m` makes the run compute
    /// fit in a `u64`.
    pub fn result_fits(&self, m: u64, ok: bool) -> (b: bool)
        requires
            self.wf(),
            self.state.started,
        ensures
            b == async_seeds_fit(self.settings, self.state, m, ok),
    {
        let s = &self.settings;
        let st = &self.state;
        if ok {
            st.next_trial >= s.budget || fits(s.seed, st.next_trial, SUGGEST_SEED_MULT, 0)
        } else if st.consecutive_failures >= s.max_consecutive_failures || st.consecutive_failures + 1
            >= s.max_consecutive_failures {
            true
        } else {
            let n1 = if st.next_trial < s.budget {
                st.next_trial + 1
            } else {
                st.next_trial
            };
            (st.next_trial >= s.budget || (fits(s.seed, m, FALLBACK_SEED_MULT, 0) && fits(
                s.seed,
                st.next_trial,
                1,
                FALLBACK_SEED_OFFSET,
            ))) && (n1 >= s.budget || fits(s.seed, n1, SUGGEST_SEED_MULT, 0))
        }
    }

    /// Whether the run is over: stopped by failures, or started with no
    /// evaluation under way.
    pub fn is_finished(&self) -> (b: bool)
        ensures
            b == (self.state.stopped || (self.state.started && self.state.in_flight == 0)),
    {
        self.state.stopped || (self.state.started && self.state.in_flight == 0)
    }
}

// ---------------------------------------------------------------------
// Laws of a run
// ---------------------------------------------------------------------

/// Evaluations a sequential run may still perform: two per trial left,
/// one less when the current trial is on its retry.
pub open spec fn seq_remaining(s: RunSettings, st: SequentialState) -> nat {
    match st.phase {
        RunPhase::Initial => (2 * s.budget + 1) as nat,
        RunPhase::Trial { trial, retry } => (2 * (s.budget - trial) - if retry {
            1int
        } else {
            0int
        }) as nat,
        RunPhase::Done => 0,
    }
}

/// A sequential run asks only for trials of the budget after the initial
/// design, each evaluation of trial `t` taking the seed plus `t` (plus
/// 50000 for the fallback), and every recorded result brings the run
/// closer to its end, which it reaches after at most two evaluations per
/// trial.
pub proof fn lemma_sequential_progress(s: RunSettings, out: OptOutputSpec, st: SequentialState, ok: bool)
    requires
        seq_wf(s, st),
        st.phase is Trial,
        seq_seeds_fit(s, st),
    ensures
        seq_evaluation(s, st) matches Some(e) && initial_count(s) <= e.trial_index < s.budget && (e.seed
            == s.seed + e.trial_index || e.seed == s.seed + e.trial_index + FALLBACK_SEED_OFFSET),
        seq_wf(s, seq_record(s, out, st, ok).0),
        seq_remaining(s, seq_record(s, out, st, ok).0) < seq_remaining(s, st),
        seq_record(s, out, st, ok).0.phase matches RunPhase::Trial { trial, .. } ==> st.phase->trial <= trial,
{
}

/// A success always resets the count of failures in a row, and a first
/// attempt of a trial that fails for the `max_consecutive_failures`-th time
/// in a row ends the run.
pub proof fn lemma_sequential_failures(s: RunSettings, out: OptOutputSpec, st: SequentialState)
    requires
        seq_wf(s, st),
        st.phase is Trial,
        seq_seeds_fit(s, st),
    ensures
        seq_record(s, out, st, true).0.consecutive_failures == 0,
        seq_record(s, out, st, true).0.evaluated == st.evaluated + 1,
        !st.phase->retry && st.consecutive_failures + 1 >= s.max_consecutive_failures ==> seq_record(
            s,
            out,
            st,
            false,
        ).0.phase == RunPhase::Done,
        seq_record(s, out, st, false).1 == None::<u64>,
{
}

/// Results a run with several evaluations under way may still take: three
/// per trial not handed out yet, and one per evaluation under way.
pub open spec fn async_remaining(s: RunSettings, st: AsyncState) -> nat {
    if st.stopped {
        0
    } else {
        (3 * (s.budget - st.next_trial) + st.in_flight) as nat
    }
}

/// The evaluations that a result dispatches take the next trial indices
/// in order, all below the budget, so that no trial index is handed out
/// twice; and every result brings the run closer to its end.
pub proof fn lemma_async_progress(s: RunSettings, out: OptOutputSpec, st: AsyncState, m: u64, ok: bool)
    requires
        async_wf(s, st),
        st.started,
        !st.stopped,
        st.in_flight > 0,
        m < st.next_trial,
    ensures
        async_wf(s, async_result(s, out, st, m, ok).0),
        async_result(s, out, st, m, ok).0.next_trial == st.next_trial + async_result(s, out, st, m, ok).2.len(),
        forall|k: int|
            0 <= k < async_result(s, out, st, m, ok).2.len() ==> (#[trigger] async_result(
                s,
                out,
                st,
                m,
                ok,
            ).2[k]).trial_index == st.next_trial + k && async_result(s, out, st, m, ok).2[k].trial_index
                < s.budget,
        async_remaining(s, async_result(s, out, st, m, ok).0) < async_remaining(s, st),
{
    let r = async_result(s, out, st, m, ok);
    assert forall|k: int| 0 <= k < r.2.len() implies (#[trigger] r.2[k]).trial_index == st.next_trial + k
        && r.2[k].trial_index < s.budget by {
        if !ok && st.consecutive_failures + 1 < s.max_consecutive_failures && st.next_trial < s.budget {
            if k == 0 {
                assert(r.2[k] == fallback_evaluation(s, m, st.next_trial));
            }
        }
    }
}

/// The first wave takes the trials right after the initial design, in
/// order and within the budget, and leaves each of them under way.
pub proof fn lemma_async_first_wave(s: RunSettings, out: OptOutputSpec, batch_size: u64, oks: Seq<bool>)
    requires
        oks.len() <= initial_count(s),
    ensures
        async_wf(s, async_start(s, out, batch_size, oks).0),
        async_start(s, out, batch_size, oks).2.len() == async_start(s, out, batch_size, oks).0.in_flight,
        async_start(s, out, batch_size, oks).2.len() <= batch_size,
        forall|k: int|
            0 <= k < async_start(s, out, batch_size, oks).2.len() ==> (#[trigger] async_start(
                s,
                out,
                batch_size,
                oks,
            ).2[k]).trial_index == initial_count(s) + k && async_start(s, out, batch_size, oks).2[k].trial_index
                < s.budget,
{
    lemma_successes_bound(oks);
}

} // verus!
