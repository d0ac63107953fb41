//! The step schedule of a run.
//!
//! A run of `steps` steps visits the steps `0, 1, ..., steps`. At each one it
//! may write a snapshot (every `every`-th step, and always the last one) and
//! then advance the state by one time step (at every step but the last).
use vstd::prelude::*;

verus! {

/// What a run does at one step.
#[derive(Debug, Clone, Copy, PartialEq, Eq, Structural)]
pub struct StepPlan {
    /// The step number, from 0 to the number of steps.
    pub step: usize,
    /// Whether a snapshot of the state is written at this step.
    pub snapshot: bool,
    /// Whether the state is advanced by one time step after this step.
    pub advance: bool,
}

/// Whether step `step` of a run of `steps` steps writes a snapshot.
pub open spec fn is_snapshot_step(step: int, steps: int, every: int) -> bool {
    step % every == 0 || step == steps
}

/// The plan of step `step` of a run of `steps` steps, with a snapshot every
/// `every` steps.
pub open spec fn spec_plan(step: usize, steps: usize, every: usize) -> StepPlan {
    StepPlan {
        step,
        snapshot: is_snapshot_step(step as int, steps as int, every as int),
        advance: step < steps,
    }
}

/// The plan of one step, computed.
pub fn plan_step(step: usize, steps: usize, every: usize) -> (p: StepPlan)
    requires
        every > 0,
    ensures
        p == spec_plan(step, steps, every),
{
    StepPlan { step, snapshot: step % every == 0 || step == steps, advance: step < steps }
}

/// The mathematical form of a [`Schedule`]: the run's number of steps, the
/// snapshot interval, the step whose plan comes next, and whether every plan
/// has been handed out.
pub struct ScheduleView {
    pub steps: usize,
    pub every: usize,
    pub next: usize,
    pub finished: bool,
}

/// The schedule of a fresh run.
pub open spec fn spec_start(steps: usize, every: usize) -> ScheduleView {
    ScheduleView { steps, every, next: 0, finished: false }
}

/// The schedule of a run once every plan has been handed out.
pub open spec fn spec_done(steps: usize, every: usize) -> ScheduleView {
    ScheduleView { steps, every, next: steps, finished: true }
}

/// One call of [`Schedule::next_plan`]: the schedule after it, and what it
/// hands out.
pub open spec fn spec_next(v: ScheduleView) -> (ScheduleView, Option<StepPlan>) {
    if v.finished {
        (v, None)
    } else {
        (
            ScheduleView {
                steps: v.steps,
                every: v.every,
                next: if v.next < v.steps { (v.next + 1) as usize } else { v.next },
                finished: v.next == v.steps,
            },
            Some(spec_plan(v.next, v.steps, v.every)),
        )
    }
}

/// `calls` successive calls of [`Schedule::next_plan`]: the schedule after
/// them, and what each handed out, in order.
pub open spec fn spec_calls(v: ScheduleView, calls: nat) -> (ScheduleView, Seq<Option<StepPlan>>)
    decreases calls,
{
    if calls == 0 {
        (v, Seq::empty())
    } else {
        let (v1, out) = spec_next(v);
        let (v2, rest) = spec_calls(v1, (calls - 1) as nat);
        (v2, seq![out] + rest)
    }
}

/// The plans of all steps `0..=steps` of a run, in order.
pub open spec fn plans_of_run(steps: usize, every: usize) -> Seq<StepPlan> {
    Seq::new(steps as nat + 1, |k: int| spec_plan(k as usize, steps, every))
}

/// The plans of a run at which a snapshot is written, in order: one row of
/// the energy file each.
pub open spec fn snapshot_plans(steps: usize, every: usize) -> Seq<StepPlan> {
    plans_of_run(steps, every).filter(writes_snapshot())
}

/// Whether a plan writes a snapshot.
pub open spec fn writes_snapshot() -> spec_fn(StepPlan) -> bool {
    |p: StepPlan| p.snapshot
}

/// The schedule of a run: hands out the plans of steps `0..=steps` in order.
pub struct Schedule {
    steps: usize,
    every: usize,
    next: usize,
    finished: bool,
}

impl View for Schedule {
    type V = ScheduleView;

    closed spec fn view(&self) -> ScheduleView {
        ScheduleView { steps: self.steps, every: self.every, next: self.next, finished: self.finished }
    }
}

impl Schedule {
    /// The number of time steps of the run.
    pub open spec fn total_steps(&self) -> usize {
        self@.steps
    }

    /// The snapshot interval.
    pub open spec fn interval(&self) -> usize {
        self@.every
    }

    /// The step whose plan comes next (the last step, once finished).
    pub open spec fn position(&self) -> usize {
        self@.next
    }

    /// Whether every plan has been handed out.
    pub open spec fn is_finished(&self) -> bool {
        self@.finished
    }

    #[verifier::type_invariant]
    closed spec fn well_formed(&self) -> bool {
        &&& self.every > 0
        &&& self.next <= self.steps
        &&& self.finished ==> self.next == self.steps
    }

    /// A schedule for a run of `steps` steps with a snapshot every `every`
    /// steps. An interval of 0 has no meaning: steps are counted modulo it.
    pub fn new(steps: usize, every: usize) -> (s: Schedule)
        requires
            every > 0,
        ensures
            s.total_steps() == steps,
            s.interval() == every,
            s.position() == 0,
            !s.is_finished(),
            s@ == spec_start(steps, every),
    {
        Schedule { steps, every, next: 0, finished: false }
    }

    /// The plan of the next step, or `None` once the last step was planned.
    pub fn next_plan(&mut self) -> (r: Option<StepPlan>)
        ensures
            (final(self)@, r) == spec_next(old(self)@),
            final(self).total_steps() == old(self).total_steps(),
            final(self).interval() == old(self).interval(),
            old(self).is_finished() ==> r is None && final(self).position() == old(self).position()
                && final(self).is_finished(),
            !old(self).is_finished() ==> {
                &&& r == Some(spec_plan(old(self).position(), old(self).total_steps(), old(self).interval()))
                &&& final(self).is_finished() == (old(self).position() == old(self).total_steps())
                &&& final(self).position() == if old(self).position() < old(self).total_steps() {
                    old(self).position() + 1
                } else {
                    old(self).position() as int
                }
            },
    {
        proof {
            use_type_invariant(&*self);
        }
        if self.finished {
            return None;
        }
        let p = plan_step(self.next, self.steps, self.every);
        if self.next < self.steps {
            self.next = self.next + 1;
        } else {
            self.finished = true;
        }
        Some(p)
    }
}

/// The number of steps below `k` that write a snapshot.
pub open spec fn snapshots_before(k: nat, steps: nat, every: nat) -> nat
    decreases k,
{
    if k == 0 {
        0
    } else {
        snapshots_before((k - 1) as nat, steps, every)
            + if is_snapshot_step(k - 1, steps as int, every as int) { 1nat } else { 0nat }
    }
}

/// The number of steps below `k` that advance the state.
pub open spec fn advances_before(k: nat, steps: nat) -> nat
    decreases k,
{
    if k == 0 {
        0
    } else {
        advances_before((k - 1) as nat, steps) + if k - 1 < steps { 1nat } else { 0nat }
    }
}

proof fn lemma_ceil_div_step(k: int, e: int)
    requires
        k >= 0,
        e > 0,
    ensures
        (k + e) / e == (k + e - 1) / e + if k % e == 0 { 1int } else { 0int },
{
    let q = k / e;
    let r = k % e;
    assert(k == q * e + r && 0 <= r < e) by (nonlinear_arith)
        requires
            e > 0,
            q == k / e,
            r == k % e,
    ;
    if r == 0 {
        assert((k + e) / e == q + 1 && (k + e - 1) / e == q) by (nonlinear_arith)
            requires
                e > 0,
                k == q * e,
        ;
    } else {
        assert((k + e) / e == q + 1 && (k + e - 1) / e == q + 1) by (nonlinear_arith)
            requires
                e > 0,
                k == q * e + r,
                1 <= r < e,
        ;
    }
}

proof fn lemma_snapshots_before_last(k: nat, steps: nat, every: nat)
    requires
        every > 0,
        k <= steps,
    ensures
        snapshots_before(k, steps, every) == (k + every - 1) / (every as int),
    decreases k,
{
    if k == 0 {
        assert((every - 1) / (every as int) == 0) by (nonlinear_arith)
            requires
                every > 0,
        ;
    } else {
        lemma_snapshots_before_last((k - 1) as nat, steps, every);
        lemma_ceil_div_step(k - 1, every as int);
    }
}

proof fn lemma_advances_before(k: nat, steps: nat)
    requires
        k <= steps + 1,
    ensures
        advances_before(k, steps) == if k <= steps { k } else { steps },
    decreases k,
{
    if k > 0 {
        lemma_advances_before((k - 1) as nat, steps);
    }
}

proof fn lemma_calls_from(steps: usize, every: usize, k: usize)
    requires
        k <= steps,
    ensures
        spec_calls(ScheduleView { steps, every, next: k, finished: false }, (steps - k + 1) as nat)
            == (spec_done(steps, every), Seq::new((steps - k + 1) as nat, |i: int| Some(spec_plan((k + i) as usize, steps, every)))),
    decreases steps - k,
{
    let v = ScheduleView { steps, every, next: k, finished: false };
    let n = (steps - k + 1) as nat;
    let (v1, out) = spec_next(v);
    let want = Seq::new(n, |i: int| Some(spec_plan((k + i) as usize, steps, every)));
    if k < steps {
        lemma_calls_from(steps, every, (k + 1) as usize);
        let rest = Seq::new((steps - (k + 1) + 1) as nat, |i: int| Some(spec_plan((k + 1 + i) as usize, steps, every)));
        assert(seq![out] + rest =~= want);
    } else {
        assert(spec_calls(v1, 0).1 =~= Seq::<Option<StepPlan>>::empty());
        assert(seq![out] + Seq::<Option<StepPlan>>::empty() =~= want);
    }
}

/// A whole run: `steps + 1` calls of [`Schedule::next_plan`] on a fresh
/// schedule hand out the plans of steps `0, 1, ..., steps` in order and leave
/// the schedule finished; every later call hands out nothing and changes
/// nothing.
pub proof fn lemma_whole_run(steps: usize, every: usize)
    ensures
        spec_calls(spec_start(steps, every), steps as nat + 1)
            == (spec_done(steps, every), plans_of_run(steps, every).map_values(|p: StepPlan| Some(p))),
        spec_next(spec_done(steps, every)) == (spec_done(steps, every), None::<StepPlan>),
{
    lemma_calls_from(steps, every, 0);
    assert(Seq::new((steps - 0 + 1) as nat, |i: int| Some(spec_plan((0 + i) as usize, steps, every)))
        =~= plans_of_run(steps, every).map_values(|p: StepPlan| Some(p)));
}

proof fn lemma_snapshot_rows_before(steps: usize, every: usize, k: nat)
    requires
        k <= steps + 1,
    ensures
        ({
            let rows = plans_of_run(steps, every).take(k as int).filter(writes_snapshot());
            &&& rows.len() == snapshots_before(k, steps as nat, every as nat)
            &&& forall|i: int| 0 <= i < rows.len() ==> {
                &&& (#[trigger] rows[i]).snapshot
                &&& rows[i].step < k
                &&& rows[i] == spec_plan(rows[i].step, steps, every)
            }
            &&& forall|i: int, j: int| 0 <= i < j < rows.len() ==> (#[trigger] rows[i]).step < (#[trigger] rows[j]).step
            &&& forall|t: usize| t < k && is_snapshot_step(t as int, steps as int, every as int)
                ==> exists|i: int| 0 <= i < rows.len() && (#[trigger] rows[i]).step == t
        }),
    decreases k,
{
    reveal(Seq::filter);
    let plans = plans_of_run(steps, every);
    if k == 0 {
        assert(plans.take(0) =~= Seq::<StepPlan>::empty());
    } else {
        let k1 = (k - 1) as nat;
        lemma_snapshot_rows_before(steps, every, k1);
        let prev = plans.take(k1 as int).filter(writes_snapshot());
        let cur_in = plans.take(k as int);
        assert(cur_in.drop_last() =~= plans.take(k1 as int));
        let last = cur_in.last();
        assert(last == spec_plan(k1 as usize, steps, every));
        let rows = cur_in.filter(writes_snapshot());
        if last.snapshot {
            assert(rows == prev.push(last));
            assert forall|t: usize| t < k && is_snapshot_step(t as int, steps as int, every as int)
                implies exists|i: int| 0 <= i < rows.len() && (#[trigger] rows[i]).step == t by {
                if t == k1 {
                    assert(rows[rows.len() - 1].step == t);
                } else {
                    let i = choose|i: int| 0 <= i < prev.len() && (#[trigger] prev[i]).step == t;
                    assert(rows[i] == prev[i]);
                }
            }
            assert forall|i: int, j: int| 0 <= i < j < rows.len() implies (#[trigger] rows[i]).step < (#[trigger] rows[j]).step by {
                assert(rows[i] == prev[i]);
                if j < prev.len() {
                    assert(rows[j] == prev[j]);
                }
            }
            assert forall|i: int| 0 <= i < rows.len() implies {
                &&& (#[trigger] rows[i]).snapshot
                &&& rows[i].step < k
                &&& rows[i] == spec_plan(rows[i].step, steps, every)
            } by {
                if i < prev.len() {
                    assert(rows[i] == prev[i]);
                }
            }
        } else {
            assert(rows == prev);
            assert forall|t: usize| t < k && is_snapshot_step(t as int, steps as int, every as int)
                implies exists|i: int| 0 <= i < rows.len() && (#[trigger] rows[i]).step == t by {
                assert(t != k1);
                let i = choose|i: int| 0 <= i < prev.len() && (#[trigger] prev[i]).step == t;
            }
        }
    }
}

/// The snapshot rows of a whole run: there are `ceil(steps / every) + 1` of
/// them, their steps strictly increase, each is the plan of a snapshot step,
/// and every snapshot step of the run has its row. So the energy file holds
/// one row for each step `s` in `0..=steps` with `s % every == 0` or
/// `s == steps`, in ascending order.
pub proof fn lemma_snapshot_rows(steps: usize, every: usize)
    requires
        every > 0,
    ensures
        ({
            let rows = snapshot_plans(steps, every);
            &&& rows.len() == (steps + every - 1) / (every as int) + 1
            &&& forall|i: int| 0 <= i < rows.len() ==> {
                &&& (#[trigger] rows[i]).snapshot
                &&& rows[i].step <= steps
                &&& rows[i] == spec_plan(rows[i].step, steps, every)
            }
            &&& forall|i: int, j: int| 0 <= i < j < rows.len() ==> (#[trigger] rows[i]).step < (#[trigger] rows[j]).step
            &&& forall|t: usize| t <= steps && is_snapshot_step(t as int, steps as int, every as int)
                ==> exists|i: int| 0 <= i < rows.len() && (#[trigger] rows[i]).step == t
        }),
{
    let plans = plans_of_run(steps, every);
    assert(plans.take(steps as int + 1) =~= plans);
    lemma_snapshot_rows_before(steps, every, steps as nat + 1);
    lemma_run_counts(steps, every);
}

/// A run writes a snapshot at its first step and at its last step, and
/// advances the state at every step but the last.
pub proof fn lemma_first_and_last_steps(steps: usize, every: usize)
    requires
        every > 0,
    ensures
        spec_plan(0, steps, every).snapshot,
        spec_plan(steps, steps, every).snapshot,
        !spec_plan(steps, steps, every).advance,
        forall|k: usize| k < steps ==> #[trigger] spec_plan(k, steps, every).advance,
{
    assert(0int % (every as int) == 0);
}

/// Over a whole run of `steps` steps, the state is advanced exactly `steps`
/// times and `ceil(steps / every) + 1` snapshots are written: one at each
/// multiple of `every` below `steps`, and one at the last step.
pub proof fn lemma_run_counts(steps: usize, every: usize)
    requires
        every > 0,
    ensures
        advances_before(steps as nat + 1, steps as nat) == steps,
        snapshots_before(steps as nat + 1, steps as nat, every as nat)
            == (steps + every - 1) / (every as int) + 1,
{
    lemma_advances_before(steps as nat + 1, steps as nat);
    lemma_snapshots_before_last(steps as nat, steps as nat, every as nat);
}

} // verus!
