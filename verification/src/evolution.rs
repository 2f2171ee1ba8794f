//! Stopping rule of the SGPE time evolution.
//!
//! The Runge–Kutta driver advances the field for the planned number of
//! timesteps, recording the atom number \(N = \sum |\psi|^2 \Delta x \Delta y\)
//! after each step. It stops early once the relative change of \(N\) has
//! stayed below its threshold for [`CONVERGENCE_WINDOW`] consecutive steps.
//! The driver measures each change and reports whether it was small; the
//! monitor decides whether another step is taken.

use vstd::prelude::*;

verus! {

/// Number of consecutive small atom-number changes after which the
/// evolution is considered converged and stops.
pub const CONVERGENCE_WINDOW: u64 = 5;

/// Length of the run of small changes at the end of `history`.
pub open spec fn trailing_small(history: Seq<bool>) -> nat
    decreases history.len(),
{
    if history.len() == 0 {
        0
    } else if history.last() {
        trailing_small(history.drop_last()) + 1
    } else {
        0
    }
}

/// Number of steps a run with `timesteps` requested takes at most: a
/// non-positive request takes none.
pub open spec fn planned_for(timesteps: int) -> nat {
    if timesteps > 0 {
        timesteps as nat
    } else {
        0
    }
}

/// Tracks the completed timesteps and the run of small atom-number changes.
pub struct StepMonitor {
    planned: u64,
    completed: u64,
    consecutive_small: u64,
    history: Ghost<Seq<bool>>,
}

impl StepMonitor {
    /// The number of timesteps the run was asked for.
    pub closed spec fn planned_steps(&self) -> nat {
        self.planned as nat
    }

    /// For each completed step, whether its relative atom-number change was small.
    pub closed spec fn history(&self) -> Seq<bool> {
        self.history@
    }

    /// The counters agree with the recorded history.
    pub closed spec fn well_formed(&self) -> bool {
        &&& self.completed as nat == self.history@.len()
        &&& self.consecutive_small as nat == trailing_small(self.history@)
        &&& self.completed <= self.planned
        &&& self.consecutive_small <= CONVERGENCE_WINDOW
        &&& forall|k: int|
            0 <= k < self.history@.len() ==> trailing_small(#[trigger] self.history@.take(k)) < CONVERGENCE_WINDOW
    }

    /// The run has ended: all planned steps are done, or the last
    /// [`CONVERGENCE_WINDOW`] changes were small.
    pub open spec fn finished(&self) -> bool {
        ||| self.history().len() >= self.planned_steps()
        ||| trailing_small(self.history()) >= CONVERGENCE_WINDOW
    }

    /// A monitor for a run of `timesteps` steps with nothing recorded yet.
    pub fn new(timesteps: isize) -> (monitor: StepMonitor)
        ensures
            monitor.well_formed(),
            monitor.planned_steps() == planned_for(timesteps as int),
            timesteps > 0 ==> monitor.planned_steps() == timesteps as int,
            timesteps <= 0 ==> monitor.planned_steps() == 0,
            monitor.history() == Seq::<bool>::empty(),
    {
        let planned: u64 = if timesteps > 0 {
            timesteps as u64
        } else {
            0
        };
        StepMonitor { planned, completed: 0, consecutive_small: 0, history: Ghost(Seq::empty()) }
    }

    /// Whether the driver takes another timestep.
    pub fn should_step(&self) -> (step: bool)
        requires
            self.well_formed(),
        ensures
            step == !self.finished(),
    {
        self.completed < self.planned && self.consecutive_small < CONVERGENCE_WINDOW
    }

    /// Records a completed timestep and whether its relative atom-number
    /// change was below the threshold; a large change restarts the run of
    /// small ones.
    pub fn record_step(&mut self, small_change: bool)
        requires
            old(self).well_formed(),
            !old(self).finished(),
        ensures
            final(self).well_formed(),
            final(self).planned_steps() == old(self).planned_steps(),
            final(self).history() == old(self).history().push(small_change),
            trailing_small(final(self).history()) == if small_change {
                trailing_small(old(self).history()) + 1
            } else {
                0
            },
    {
        let ghost before = self.history@;
        proof {
            assert(before.push(small_change).drop_last() =~= before);
        }
        self.completed = self.completed + 1;
        if small_change {
            self.consecutive_small = self.consecutive_small + 1;
        } else {
            self.consecutive_small = 0;
        }
        self.history = Ghost(self.history@.push(small_change));
        proof {
            let after = self.history@;
            assert forall|k: int| 0 <= k < after.len() implies trailing_small(#[trigger] after.take(k))
                < CONVERGENCE_WINDOW by {
                if k < before.len() {
                    assert(after.take(k) =~= before.take(k));
                } else {
                    assert(after.take(k) =~= before);
                }
            }
        }
    }

    /// Number of timesteps taken so far.
    pub fn completed_steps(&self) -> (steps: u64)
        requires
            self.well_formed(),
        ensures
            steps == self.history().len(),
    {
        self.completed
    }

    /// Whether the run stopped on [`CONVERGENCE_WINDOW`] consecutive small changes.
    pub fn converged(&self) -> (done: bool)
        requires
            self.well_formed(),
        ensures
            done == (trailing_small(self.history()) >= CONVERGENCE_WINDOW),
    {
        self.consecutive_small >= CONVERGENCE_WINDOW
    }
}

/// The run of small changes at the end of a history is made of small
/// changes, and a history ending in `k` small changes has a run of at least `k`.
pub proof fn lemma_trailing_small_meaning(history: Seq<bool>, k: int)
    requires
        0 <= k <= history.len(),
    ensures
        trailing_small(history) >= k <==> (forall|i: int| history.len() - k <= i < history.len() ==> #[trigger] history[i]),
    decreases k,
{
    if k > 0 {
        let shorter = history.drop_last();
        lemma_trailing_small_meaning(shorter, k - 1);
        if trailing_small(history) >= k {
            assert(history.last());
            assert forall|i: int| history.len() - k <= i < history.len() implies #[trigger] history[i] by {
                if i < history.len() - 1 {
                    assert(shorter[i] == history[i]);
                }
            }
        }
        if forall|i: int| history.len() - k <= i < history.len() ==> #[trigger] history[i] {
            assert(history[history.len() - 1]);
            assert forall|i: int| shorter.len() - (k - 1) <= i < shorter.len() implies #[trigger] shorter[i] by {
                assert(history[i]);
            }
        }
    }
}

/// The last [`CONVERGENCE_WINDOW`] of the first `k` flags are all small.
pub open spec fn window_small(flags: Seq<bool>, k: int) -> bool {
    &&& k >= CONVERGENCE_WINDOW
    &&& forall|j: int| k - CONVERGENCE_WINDOW <= j < k ==> #[trigger] flags[j]
}

/// The first step count, from `k` on, at which a run planned for `planned`
/// steps ends: the plan is used up or the last [`CONVERGENCE_WINDOW`] changes
/// were small.
pub open spec fn first_stop_from(planned: nat, flags: Seq<bool>, k: nat) -> nat
    decreases planned - k,
{
    if k >= planned || window_small(flags, k as int) {
        k
    } else {
        first_stop_from(planned, flags, k + 1)
    }
}

/// The number of timesteps a run planned for `planned` steps takes when
/// `flags[i]` says whether the atom-number change of step `i + 1` was small:
/// the least of `planned` and the first step `s >= 5` whose change and the
/// four before it were all small.
pub open spec fn steps_taken(planned: nat, flags: Seq<bool>) -> nat {
    first_stop_from(planned, flags, 0)
}

/// The run ends after `j` steps: the plan is used up or the last window of
/// changes was small.
spec fn ends_at(planned: nat, flags: Seq<bool>, j: nat) -> bool {
    j >= planned || window_small(flags, j as int)
}

/// The first stop from `k` is `m` when the run does not end at any count
/// from `k` up to `m` and ends at `m`.
proof fn lemma_first_stop_is(planned: nat, flags: Seq<bool>, k: nat, m: nat)
    requires
        k <= m,
        ends_at(planned, flags, m),
        forall|j: nat| k <= j < m ==> !#[trigger] ends_at(planned, flags, j),
    ensures
        first_stop_from(planned, flags, k) == m,
    decreases m - k,
{
    if k < m {
        assert(!ends_at(planned, flags, k));
        lemma_first_stop_is(planned, flags, k + 1, m);
    }
}

/// A run driven to its end by the per-step flags `flags` has taken exactly
/// `steps_taken(planned, flags)` steps: it stops at the first step after
/// which the last [`CONVERGENCE_WINDOW`] changes were small, or after all
/// planned steps, whichever comes first.
pub proof fn lemma_run_length(monitor: &StepMonitor, flags: Seq<bool>)
    requires
        monitor.well_formed(),
        monitor.finished(),
        monitor.history().len() <= flags.len(),
        monitor.history() == flags.take(monitor.history().len() as int),
    ensures
        monitor.history().len() == steps_taken(monitor.planned_steps(), flags),
{
    let history = monitor.history();
    let len = history.len();
    let planned = monitor.planned_steps();
    assert forall|j: nat| 0 <= j < len implies !#[trigger] ends_at(planned, flags, j) by {
        let prefix = history.take(j as int);
        assert(trailing_small(prefix) < CONVERGENCE_WINDOW);
        if window_small(flags, j as int) {
            lemma_trailing_small_meaning(prefix, CONVERGENCE_WINDOW as int);
            assert forall|i: int| prefix.len() - CONVERGENCE_WINDOW <= i < prefix.len() implies #[trigger] prefix[i] by {
                assert(prefix[i] == flags[i]);
            }
        }
    }
    if len < planned {
        lemma_trailing_small_bounded(history);
        lemma_trailing_small_meaning(history, CONVERGENCE_WINDOW as int);
        assert forall|j: int| len - CONVERGENCE_WINDOW <= j < len implies #[trigger] flags[j] by {
            assert(history[j] == flags[j]);
        }
    }
    assert(ends_at(planned, flags, len));
    lemma_first_stop_is(planned, flags, 0, len);
}

/// A positive request plans exactly that many timesteps; any other plans none.
pub proof fn lemma_plan_is_request(timesteps: int)
    ensures
        timesteps > 0 ==> planned_for(timesteps) == timesteps,
        timesteps <= 0 ==> planned_for(timesteps) == 0,
{
}

/// A run in which no atom-number change was small never converges and takes
/// every planned timestep.
pub proof fn lemma_unconverged_run_takes_plan(monitor: &StepMonitor, flags: Seq<bool>)
    requires
        monitor.well_formed(),
        monitor.finished(),
        monitor.history().len() <= flags.len(),
        monitor.history() == flags.take(monitor.history().len() as int),
        forall|j: int| 0 <= j < flags.len() ==> !#[trigger] flags[j],
    ensures
        monitor.history().len() == monitor.planned_steps(),
{
    let history = monitor.history();
    if history.len() > 0 {
        assert(!history[history.len() - 1]);
        assert(!history.last());
    }
    assert(trailing_small(history) == 0);
}

/// The run length seen from the flags alone: with no small change at all
/// the run takes the whole plan, and it never takes more.
pub proof fn lemma_steps_taken_bounds(planned: nat, flags: Seq<bool>)
    ensures
        steps_taken(planned, flags) <= planned,
        (forall|j: int| 0 <= j < flags.len() ==> !#[trigger] flags[j]) && flags.len() >= planned ==> steps_taken(
            planned,
            flags,
        ) == planned,
{
    lemma_first_stop_bounds(planned, flags, 0);
}

/// The first stop from `k` is at most the plan (when `k` is), and with no
/// small flag at all it is the plan.
proof fn lemma_first_stop_bounds(planned: nat, flags: Seq<bool>, k: nat)
    ensures
        k <= planned ==> first_stop_from(planned, flags, k) <= planned,
        k <= planned && (forall|j: int| 0 <= j < flags.len() ==> !#[trigger] flags[j]) && flags.len() >= planned
            ==> first_stop_from(planned, flags, k) == planned,
    decreases planned - k,
{
    if k < planned {
        if (forall|j: int| 0 <= j < flags.len() ==> !#[trigger] flags[j]) && flags.len() >= planned {
            if window_small(flags, k as int) {
                assert(flags[k - 1]);
            }
        }
        if !window_small(flags, k as int) {
            lemma_first_stop_bounds(planned, flags, k + 1);
        }
    }
}

/// The evolution never takes more timesteps than were planned.
pub proof fn lemma_steps_within_plan(monitor: &StepMonitor)
    requires
        monitor.well_formed(),
    ensures
        monitor.history().len() <= monitor.planned_steps(),
{
}

/// A run that ends before its planned count has just seen
/// [`CONVERGENCE_WINDOW`] consecutive small atom-number changes.
pub proof fn lemma_early_stop_means_converged(monitor: &StepMonitor)
    requires
        monitor.well_formed(),
        monitor.finished(),
        monitor.history().len() < monitor.planned_steps(),
    ensures
        monitor.history().len() >= CONVERGENCE_WINDOW,
        forall|i: int|
            monitor.history().len() - CONVERGENCE_WINDOW <= i < monitor.history().len() ==> #[trigger] monitor.history()[i],
{
    lemma_trailing_small_bounded(monitor.history());
    lemma_trailing_small_meaning(monitor.history(), CONVERGENCE_WINDOW as int);
}

/// As soon as the last [`CONVERGENCE_WINDOW`] changes are small the run has ended.
pub proof fn lemma_converged_run_stops(monitor: &StepMonitor)
    requires
        monitor.well_formed(),
        monitor.history().len() >= CONVERGENCE_WINDOW,
        forall|i: int|
            monitor.history().len() - CONVERGENCE_WINDOW <= i < monitor.history().len() ==> #[trigger] monitor.history()[i],
    ensures
        monitor.finished(),
{
    lemma_trailing_small_meaning(monitor.history(), CONVERGENCE_WINDOW as int);
}

/// The run of small changes is never longer than the history.
pub proof fn lemma_trailing_small_bounded(history: Seq<bool>)
    ensures
        trailing_small(history) <= history.len(),
    decreases history.len(),
{
    if history.len() > 0 {
        lemma_trailing_small_bounded(history.drop_last());
    }
}

} // verus!
