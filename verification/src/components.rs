//! The records of the simulation: settlers (agents), blueprints (work
//! targets), the per-target worker tracker, action parameters, and plans.

use vstd::prelude::*;
use crate::vec2::Vec2i;

verus! {

/// Build progress is a fixed-point fraction with this denominator: a
/// blueprint is complete exactly when its `process` equals `PROGRESS_ONE`.
/// The value is divisible by the common tick rates, so that rates given per
/// second stay exact when split into per-tick increments.
pub const PROGRESS_ONE: u32 = 3_600_000;

/// Default number of settlers that may work one blueprint at a time.
pub const MAX_TARGETS_PER_JOB: usize = 2;

/// A settler within this distance of a blueprint is considered arrived and
/// may work on it.
pub const MAX_DISTANCE: i64 = 12;

/// How strongly a settler wants to build, on the same fixed-point scale as
/// build progress. The scoring layer that reads it is outside this crate;
/// the simulation core only stores the value.
#[derive(Clone, Copy, PartialEq, Eq, Structural, Debug)]
pub struct BuildingNeed {
    pub building_need: u32,
}

impl BuildingNeed {
    pub fn new(building_need: u32) -> (r: Self)
        ensures
            r.building_need == building_need,
    {
        BuildingNeed { building_need }
    }
}

/// Shared build progress of one blueprint, in `PROGRESS_ONE` units.
#[derive(Clone, Copy, PartialEq, Eq, Structural, Debug)]
pub struct BuildingProcess {
    pub process: u32,
}

/// Parameters of the move action: walking speed in world units per second.
/// Each tick the settler covers `speed / ticks_per_second` whole units,
/// rounded down: a speed below the tick rate truncates to a zero step and
/// the settler stands still.
#[derive(Clone, Copy, PartialEq, Eq, Structural, Debug)]
pub struct MoveToBlueprint {
    pub speed: u32,
}

/// Parameters of the work action: build rate in `PROGRESS_ONE` units per
/// second. Each tick contributes `per_second / ticks_per_second` units,
/// rounded down: a rate below the tick rate truncates to zero and accrues
/// nothing. `PROGRESS_ONE` is divisible by the common tick rates so that
/// rates given as exact fractions of it split without loss.
#[derive(Clone, Copy, PartialEq, Eq, Structural, Debug)]
pub struct Build {
    pub per_second: u32,
}

/// Lifecycle of one action instance. `Cancelled` is a cooperative flag set
/// from outside; the action observes it on its next tick and resolves to
/// `Failure`.
#[derive(Clone, Copy, PartialEq, Eq, Structural, Debug)]
pub enum ActionState {
    Requested,
    Executing,
    Cancelled,
    Success,
    Failure,
}

/// One step of a plan, with the parameters fixed at construction.
#[derive(Clone, Copy, PartialEq, Eq, Structural, Debug)]
pub enum PlanStep {
    MoveToBlueprint(MoveToBlueprint),
    Build(Build),
}

/// Outcome of a whole plan.
#[derive(Clone, Copy, PartialEq, Eq, Structural, Debug)]
pub enum PlanStatus {
    Running,
    Success,
    Failure,
}

/// Emitted exactly when a blueprint's progress first reaches
/// `PROGRESS_ONE`; carries the blueprint's index.
#[derive(Clone, Copy, PartialEq, Eq, Structural, Debug)]
pub struct BlueprintFinished(pub usize);

/// No index occurs twice in `s`.
pub open spec fn distinct_seq(s: Seq<usize>) -> bool {
    forall|i: int, j: int| 0 <= i < j < s.len() ==> s[i] != s[j]
}

/// The worker list after an idempotent claim by `agent`.
pub open spec fn claim_spec(workers: Seq<usize>, agent: usize) -> Seq<usize> {
    if workers.contains(agent) {
        workers
    } else {
        workers.push(agent)
    }
}

/// The worker list after every occurrence of `agent` is removed.
pub open spec fn remove_worker(workers: Seq<usize>, agent: usize) -> Seq<usize>
    decreases workers.len(),
{
    if workers.len() == 0 {
        workers
    } else {
        let rest = remove_worker(workers.drop_last(), agent);
        if workers.last() == agent {
            rest
        } else {
            rest.push(workers.last())
        }
    }
}

/// Membership after a claim: the claimed agent joins, nobody else changes.
pub proof fn lemma_claim_contains(workers: Seq<usize>, agent: usize, x: usize)
    ensures
        claim_spec(workers, agent).contains(x) <==> (workers.contains(x) || x == agent),
{
    if !workers.contains(agent) {
        assert(workers.push(agent)[workers.len() as int] == agent);
        if workers.contains(x) {
            let k = choose|k: int| 0 <= k < workers.len() && workers[k] == x;
            assert(workers.push(agent)[k] == x);
        }
        if claim_spec(workers, agent).contains(x) && x != agent {
            let k = choose|k: int|
                0 <= k < workers.push(agent).len() && workers.push(agent)[k] == x;
            assert(workers[k] == x);
        }
    }
}

/// A claim keeps the worker list duplicate-free.
pub proof fn lemma_claim_distinct(workers: Seq<usize>, agent: usize)
    requires
        distinct_seq(workers),
    ensures
        distinct_seq(claim_spec(workers, agent)),
{
    if !workers.contains(agent) {
        let w2 = workers.push(agent);
        assert forall|i: int, j: int| 0 <= i < j < w2.len() implies w2[i] != w2[j] by {
            if j == workers.len() {
                assert(workers[i] == w2[i]);
                assert(workers.contains(workers[i]));
            }
        }
    }
}

/// Membership after a release: the agent is gone, nobody else changes.
pub proof fn lemma_remove_contains(workers: Seq<usize>, agent: usize, x: usize)
    ensures
        remove_worker(workers, agent).contains(x) <==> (workers.contains(x) && x != agent),
    decreases workers.len(),
{
    if workers.len() == 0 {
    } else {
        lemma_remove_contains(workers.drop_last(), agent, x);
        let rest = remove_worker(workers.drop_last(), agent);
        let out = remove_worker(workers, agent);
        if workers.last() == agent {
            if workers.contains(x) && x != agent {
                let k = choose|k: int| 0 <= k < workers.len() && workers[k] == x;
                assert(workers.drop_last()[k] == x);
            }
        } else {
            assert(out == rest.push(workers.last()));
            if workers.contains(x) && x != agent {
                let k = choose|k: int| 0 <= k < workers.len() && workers[k] == x;
                if k == workers.len() - 1 {
                    assert(out[out.len() - 1] == x);
                } else {
                    assert(workers.drop_last()[k] == x);
                    let k2 = choose|k2: int| 0 <= k2 < rest.len() && rest[k2] == x;
                    assert(out[k2] == x);
                }
            }
            if out.contains(x) {
                let k = choose|k: int| 0 <= k < out.len() && out[k] == x;
                if k == out.len() - 1 {
                    assert(workers.contains(workers.last()));
                } else {
                    assert(rest[k] == x);
                    let k2 = choose|k2: int|
                        0 <= k2 < workers.drop_last().len() && workers.drop_last()[k2] == x;
                    assert(workers[k2] == x);
                }
            }
        }
    }
}

/// A release never lengthens the worker list.
pub proof fn lemma_remove_len(workers: Seq<usize>, agent: usize)
    ensures
        remove_worker(workers, agent).len() <= workers.len(),
    decreases workers.len(),
{
    if workers.len() > 0 {
        lemma_remove_len(workers.drop_last(), agent);
    }
}

/// A release keeps the worker list duplicate-free.
pub proof fn lemma_remove_distinct(workers: Seq<usize>, agent: usize)
    requires
        distinct_seq(workers),
    ensures
        distinct_seq(remove_worker(workers, agent)),
    decreases workers.len(),
{
    if workers.len() > 0 {
        assert(distinct_seq(workers.drop_last()));
        lemma_remove_distinct(workers.drop_last(), agent);
        let rest = remove_worker(workers.drop_last(), agent);
        if workers.last() != agent {
            let out = rest.push(workers.last());
            assert forall|i: int, j: int| 0 <= i < j < out.len() implies out[i] != out[j] by {
                if j == out.len() - 1 {
                    lemma_remove_contains(workers.drop_last(), agent, out[i]);
                    assert(rest.contains(rest[i]));
                    let k = choose|k: int|
                        0 <= k < workers.drop_last().len() && workers.drop_last()[k] == out[i];
                    assert(workers[k] == out[i]);
                }
            }
        }
    }
}

/// Removing an agent that is not in the list changes nothing.
pub proof fn lemma_remove_absent(workers: Seq<usize>, agent: usize)
    requires
        !workers.contains(agent),
    ensures
        remove_worker(workers, agent) == workers,
    decreases workers.len(),
{
    if workers.len() > 0 {
        assert forall|k: int| 0 <= k < workers.drop_last().len() implies workers.drop_last()[k]
            != agent by {
            assert(workers[k] == workers.drop_last()[k]);
        }
        assert(!workers.drop_last().contains(agent));
        lemma_remove_absent(workers.drop_last(), agent);
        assert(workers.last() != agent) by {
            assert(workers[workers.len() - 1] == workers.last());
        }
        assert(remove_worker(workers, agent) =~= workers);
    }
}

/// Per-blueprint admission record: which settlers currently claim the
/// blueprint, and how many may at most. `claim` and `release` are raw
/// idempotent set operations; capacity is enforced by the tick's commit
/// phase, not here.
#[derive(Clone, Debug)]
pub struct JobTarget {
    pub current_workers: Vec<usize>,
    pub max_workers: usize,
}

impl Default for JobTarget {
    /// An empty tracker with the default capacity.
    fn default() -> (r: Self)
        ensures
            r.current_workers@ == Seq::<usize>::empty(),
            r.max_workers == MAX_TARGETS_PER_JOB,
    {
        JobTarget { current_workers: Vec::new(), max_workers: MAX_TARGETS_PER_JOB }
    }
}

impl JobTarget {
    /// How many settlers currently claim this blueprint.
    pub fn count(&self) -> (r: usize)
        ensures
            r == self.current_workers@.len(),
    {
        self.current_workers.len()
    }

    /// Whether `agent` currently claims this blueprint.
    pub fn is_claimed_by(&self, agent: usize) -> (r: bool)
        ensures
            r == self.current_workers@.contains(agent),
    {
        let mut i: usize = 0;
        let mut found: bool = false;
        while i < self.current_workers.len()
            invariant
                0 <= i <= self.current_workers@.len(),
                found <==> exists|k: int| 0 <= k < i && self.current_workers@[k] == agent,
            decreases self.current_workers@.len() - i,
        {
            if self.current_workers[i] == agent {
                found = true;
            }
            i = i + 1;
        }
        found
    }

    /// Idempotent add: `agent` joins the worker list unless already in it.
    /// Capacity is deliberately not checked here.
    pub fn claim(&mut self, agent: usize)
        ensures
            final(self).current_workers@ == claim_spec(old(self).current_workers@, agent),
            final(self).max_workers == old(self).max_workers,
    {
        let already = self.is_claimed_by(agent);
        if !already {
            self.current_workers.push(agent);
        }
    }

    /// Idempotent remove: deletes `agent` from the worker list; a no-op when
    /// the agent never claimed.
    pub fn release(&mut self, agent: usize)
        ensures
            final(self).current_workers@ == remove_worker(old(self).current_workers@, agent),
            final(self).max_workers == old(self).max_workers,
    {
        let mut out: Vec<usize> = Vec::new();
        let mut i: usize = 0;
        while i < self.current_workers.len()
            invariant
                0 <= i <= self.current_workers@.len(),
                self.current_workers@ == old(self).current_workers@,
                self.max_workers == old(self).max_workers,
                out@ == remove_worker(old(self).current_workers@.subrange(0, i as int), agent),
            decreases self.current_workers@.len() - i,
        {
            proof {
                let w = old(self).current_workers@;
                assert(w.subrange(0, i + 1).drop_last() =~= w.subrange(0, i as int));
                assert(w.subrange(0, i + 1).last() == w[i as int]);
            }
            let v: usize = self.current_workers[i];
            if v != agent {
                out.push(v);
            }
            i = i + 1;
        }
        proof {
            assert(old(self).current_workers@.subrange(
                0,
                old(self).current_workers@.len() as int,
            ) =~= old(self).current_workers@);
        }
        self.current_workers = out;
    }
}

/// Plan state as the specifications see it.
#[verifier::ext_equal]
pub struct PlanModel {
    pub steps: Seq<PlanStep>,
    pub cursor: usize,
    pub active: Option<ActionState>,
    pub status: PlanStatus,
    pub cancel_requested: bool,
}

/// An ordered list of action steps run one at a time: the cursor names the
/// current step, `active` the state of its running action instance, if one
/// exists. The plan fails as a whole on the first failing step and succeeds
/// when the cursor passes the last step.
#[derive(Clone, Debug)]
pub struct Plan {
    pub steps: Vec<PlanStep>,
    pub cursor: usize,
    pub active: Option<ActionState>,
    pub status: PlanStatus,
    pub cancel_requested: bool,
}

impl View for Plan {
    type V = PlanModel;

    open spec fn view(&self) -> PlanModel {
        PlanModel {
            steps: self.steps@,
            cursor: self.cursor,
            active: self.active,
            status: self.status,
            cancel_requested: self.cancel_requested,
        }
    }
}

impl PlanModel {
    /// Structural soundness of a plan record.
    pub open spec fn wf(self) -> bool {
        &&& self.cursor <= self.steps.len()
        &&& (self.active is Some ==> self.cursor < self.steps.len() && self.status
            == PlanStatus::Running)
        &&& (self.status != PlanStatus::Running ==> self.active is None)
    }

    /// The plan after a fresh action instance started executing at the
    /// current step.
    pub open spec fn activated(self) -> PlanModel {
        PlanModel { active: Some(ActionState::Executing), ..self }
    }

    /// The plan after the active action succeeded: the cursor moves on, and
    /// the plan itself succeeds when the last step is done.
    pub open spec fn advanced(self) -> PlanModel {
        if self.cursor + 1 == self.steps.len() {
            PlanModel {
                cursor: (self.cursor + 1) as usize,
                active: None,
                status: PlanStatus::Success,
                ..self
            }
        } else {
            PlanModel { cursor: (self.cursor + 1) as usize, active: None, ..self }
        }
    }

    /// The plan after its active action failed or was cancelled.
    pub open spec fn failed(self) -> PlanModel {
        PlanModel { active: None, status: PlanStatus::Failure, ..self }
    }

    /// The plan after running out of steps without an active action.
    pub open spec fn completed(self) -> PlanModel {
        PlanModel { active: None, status: PlanStatus::Success, ..self }
    }
}

impl Plan {
    /// A fresh plan over the given steps, about to run its first step.
    pub fn new(steps: Vec<PlanStep>) -> (r: Plan)
        ensures
            r@ == (PlanModel {
                steps: steps@,
                cursor: 0,
                active: None,
                status: PlanStatus::Running,
                cancel_requested: false,
            }),
            r@.wf(),
    {
        Plan {
            steps,
            cursor: 0,
            active: None,
            status: PlanStatus::Running,
            cancel_requested: false,
        }
    }

    /// Requests cooperative cancellation: the running action observes the
    /// flag on its next tick and resolves to `Failure`.
    pub fn cancel(&mut self)
        ensures
            final(self)@ == (PlanModel { cancel_requested: true, ..old(self)@ }),
    {
        self.cancel_requested = true;
    }

    /// Starts a fresh action instance executing at the current step.
    pub fn activate(&mut self)
        ensures
            final(self)@ == old(self)@.activated(),
    {
        self.active = Some(ActionState::Executing);
    }

    /// Resolves the active action as successful and moves to the next step.
    pub fn advance(&mut self)
        requires
            old(self)@.cursor < old(self)@.steps.len(),
        ensures
            final(self)@ == old(self)@.advanced(),
    {
        let n: usize = self.steps.len();
        self.cursor = self.cursor + 1;
        self.active = None;
        if self.cursor == n {
            self.status = PlanStatus::Success;
        }
    }

    /// Resolves the whole plan as failed.
    pub fn fail(&mut self)
        ensures
            final(self)@ == old(self)@.failed(),
    {
        self.active = None;
        self.status = PlanStatus::Failure;
    }

    /// Resolves the whole plan as successful.
    pub fn complete(&mut self)
        ensures
            final(self)@ == old(self)@.completed(),
    {
        self.active = None;
        self.status = PlanStatus::Success;
    }
}

/// Settler state as the specifications see it.
#[verifier::ext_equal]
pub struct SettlerModel {
    pub position: Vec2i,
    pub motion: Option<Vec2i>,
    pub building_need: u32,
    pub current_target: Option<usize>,
    pub plan: Option<PlanModel>,
}

/// One agent: its position, the displacement it requests for the current
/// tick (consumed by the motion integrator), its need level, the blueprint
/// it currently claims, and the plan it runs.
#[derive(Clone, Debug)]
pub struct Settler {
    pub position: Vec2i,
    pub motion: Option<Vec2i>,
    pub building_need: BuildingNeed,
    pub current_target: Option<usize>,
    pub plan: Option<Plan>,
}

impl View for Settler {
    type V = SettlerModel;

    open spec fn view(&self) -> SettlerModel {
        SettlerModel {
            position: self.position,
            motion: self.motion,
            building_need: self.building_need.building_need,
            current_target: self.current_target,
            plan: match self.plan {
                Some(p) => Some(p@),
                None => None,
            },
        }
    }
}

impl Settler {
    /// An idle settler at `position` with the given need level.
    pub fn new(position: Vec2i, building_need: u32) -> (r: Settler)
        ensures
            r@ == (SettlerModel {
                position,
                motion: None,
                building_need,
                current_target: None,
                plan: None,
            }),
    {
        Settler {
            position,
            motion: None,
            building_need: BuildingNeed::new(building_need),
            current_target: None,
            plan: None,
        }
    }
}

/// Blueprint state as the specifications see it.
#[verifier::ext_equal]
pub struct BlueprintModel {
    pub position: Vec2i,
    pub process: u32,
    pub workers: Seq<usize>,
    pub max_workers: usize,
}

/// One work target: a position, shared build progress, and the admission
/// record of the settlers working it.
#[derive(Clone, Debug)]
pub struct Blueprint {
    pub position: Vec2i,
    pub building_process: BuildingProcess,
    pub job_target: JobTarget,
}

impl View for Blueprint {
    type V = BlueprintModel;

    open spec fn view(&self) -> BlueprintModel {
        BlueprintModel {
            position: self.position,
            process: self.building_process.process,
            workers: self.job_target.current_workers@,
            max_workers: self.job_target.max_workers,
        }
    }
}

impl Blueprint {
    /// A fresh blueprint at `position`: no progress, no workers, default
    /// capacity.
    pub fn new(position: Vec2i) -> (r: Blueprint)
        ensures
            r@ == (BlueprintModel {
                position,
                process: 0,
                workers: Seq::<usize>::empty(),
                max_workers: MAX_TARGETS_PER_JOB,
            }),
    {
        Blueprint {
            position,
            building_process: BuildingProcess { process: 0 },
            job_target: JobTarget::default(),
        }
    }
}

} // verus!
