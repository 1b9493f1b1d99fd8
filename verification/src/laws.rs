//! The guarantees of the simulation, stated on their own and proved from the
//! tick's specification: capacity at tick boundaries, monotone clamped
//! progress, idempotent claim and release, cancellation resolving to
//! failure, and bounded termination of the walk toward a target.

use vstd::prelude::*;
use crate::vec2::{Vec2i, abs_of, dist_sq, step_delta, lemma_step_delta_collinear};
use crate::components::{
    claim_spec, remove_worker, distinct_seq, lemma_remove_contains, lemma_remove_absent,
    lemma_claim_distinct, PlanStatus, PlanStep, PlanModel, ActionState, MoveToBlueprint,
    SettlerModel, PROGRESS_ONE, MAX_DISTANCE,
};
use crate::world::{
    WorldModel, tick_model, decisions, decide, commit_one, commit_from, admit_claim,
    release_claim, lemma_decide_ok, lemma_commit_from_core, lemma_commit_one, lemma_admit_claim,
    lemma_motion_applied_wf, motion_applied,
};
use crate::actions::TickDecision;
use crate::math::sqrt_ceil;
use vstd::arithmetic::div_mod::lemma_fundamental_div_mod;

verus! {

/// A tick keeps the world sound, so every law that asks for a sound world
/// holds again at the next tick: the laws below extend to whole runs by
/// induction over this lemma.
pub proof fn lemma_tick_wf(m: WorldModel)
    requires
        m.wf(),
    ensures
        tick_model(m).0.wf(),
{
    assert forall|k: int| 0 <= k < decisions(m).len() implies #[trigger] crate::world::decision_ok(
        m,
        k,
        decisions(m)[k],
    ) by {
        lemma_decide_ok(m, k);
    }
    lemma_commit_from_core(m, decisions(m), 0);
}

/// Capacity law: on a sound world, every blueprint's worker list is within
/// its capacity after a tick commits — the admission step never oversubscribes
/// a blueprint at a tick boundary.
pub proof fn lemma_tick_capacity(m: WorldModel)
    requires
        m.wf(),
    ensures
        forall|j: int|
            0 <= j < m.blueprints.len() ==> (#[trigger] tick_model(m).0.blueprints[j]).workers.len()
                <= tick_model(m).0.blueprints[j].max_workers,
{
    assert forall|k: int| 0 <= k < decisions(m).len() implies #[trigger] crate::world::decision_ok(
        m,
        k,
        decisions(m)[k],
    ) by {
        lemma_decide_ok(m, k);
    }
    lemma_commit_from_core(m, decisions(m), 0);
    let mf = tick_model(m).0;
    assert forall|j: int| 0 <= j < m.blueprints.len() implies (
    #[trigger] mf.blueprints[j]).workers.len() <= mf.blueprints[j].max_workers by {
        assert(mf.blueprint_wf(j));
    }
}

/// Progress law: over a tick, every blueprint's progress is monotonically
/// non-decreasing, never exceeds the scale, and once complete never changes
/// again.
pub proof fn lemma_tick_progress(m: WorldModel)
    requires
        m.wf(),
    ensures
        forall|j: int|
            0 <= j < m.blueprints.len() ==> m.blueprints[j].process <= (
            #[trigger] tick_model(m).0.blueprints[j]).process <= PROGRESS_ONE,
        forall|j: int|
            0 <= j < m.blueprints.len() && m.blueprints[j].process == PROGRESS_ONE ==> (
            #[trigger] tick_model(m).0.blueprints[j]).process == PROGRESS_ONE,
{
    assert forall|k: int| 0 <= k < decisions(m).len() implies #[trigger] crate::world::decision_ok(
        m,
        k,
        decisions(m)[k],
    ) by {
        lemma_decide_ok(m, k);
    }
    lemma_commit_from_core(m, decisions(m), 0);
}

/// Idempotence law, claim side: claiming twice is the same as claiming once,
/// and a claim never duplicates membership in a duplicate-free worker list.
pub proof fn lemma_claim_idempotent(workers: Seq<usize>, agent: usize)
    ensures
        claim_spec(claim_spec(workers, agent), agent) == claim_spec(workers, agent),
        distinct_seq(workers) ==> distinct_seq(claim_spec(workers, agent)),
{
    if !workers.contains(agent) {
        assert(workers.push(agent)[workers.len() as int] == agent);
        assert(claim_spec(workers, agent).contains(agent));
    }
    if distinct_seq(workers) {
        lemma_claim_distinct(workers, agent);
    }
}

/// Idempotence law, release side: releasing twice is the same as releasing
/// once, even when the agent never claimed.
pub proof fn lemma_release_idempotent(workers: Seq<usize>, agent: usize)
    ensures
        remove_worker(remove_worker(workers, agent), agent) == remove_worker(workers, agent),
{
    lemma_remove_contains(workers, agent, agent);
    lemma_remove_absent(remove_worker(workers, agent), agent);
}

/// Exclusivity law: on a sound world a settler appears in at most one
/// blueprint's worker list system-wide — claims are moved, never duplicated.
pub proof fn lemma_claims_exclusive(m: WorldModel, agent: usize, j1: int, j2: int)
    requires
        m.wf(),
        0 <= j1 < m.blueprints.len(),
        0 <= j2 < m.blueprints.len(),
        m.blueprints[j1].workers.contains(agent),
        m.blueprints[j2].workers.contains(agent),
    ensures
        j1 == j2,
{
    assert(m.blueprint_wf(j1));
    assert(m.blueprint_wf(j2));
    let k1 = choose|k: int|
        0 <= k < m.blueprints[j1].workers.len() && m.blueprints[j1].workers[k] == agent;
    let k2 = choose|k: int|
        0 <= k < m.blueprints[j2].workers.len() && m.blueprints[j2].workers[k] == agent;
    assert(m.settlers[agent as int].current_target == Some(j1 as usize));
    assert(m.settlers[agent as int].current_target == Some(j2 as usize));
}

/// Admission law: at its turn in the commit batch, a settler is admitted to
/// the blueprint it resolved exactly when it already claims it or a slot is
/// still free at that moment; a rejected claim changes nothing beyond
/// releasing the settler's previous claim. Commits are serialized in settler
/// order, so of several settlers resolving the same empty blueprint in one
/// batch, exactly the first `max_workers` are admitted.
pub proof fn lemma_admission(m: WorldModel, i: int, j: int)
    requires
        m.wf(),
        0 <= i < m.settlers.len(),
        0 <= j < m.blueprints.len(),
    ensures
        ({
            let m1 = admit_claim(m, i, j);
            &&& (m1.blueprints[j].workers.contains(i as usize) <==> (
                m.blueprints[j].workers.contains(i as usize) || m.blueprints[j].workers.len()
                    < m.blueprints[j].max_workers))
            &&& (m.blueprints[j].workers.contains(i as usize) ==> m1 == m)
            &&& (!m.blueprints[j].workers.contains(i as usize) && m.blueprints[j].workers.len()
                >= m.blueprints[j].max_workers ==> m1 == release_claim(m, i))
            &&& m1.blueprints[j].workers.len() <= m1.blueprints[j].max_workers
        }),
{
    lemma_admit_claim(m, i, j);
    let m1 = admit_claim(m, i, j);
    assert(m.settler_wf(i));
    assert(m.blueprint_wf(j));
    assert(m1.blueprint_wf(j)) by {
        assert(m1.wf());
    }
    if !m.blueprints[j].workers.contains(i as usize) {
        let mr = release_claim(m, i);
        // The release cannot touch blueprint `j`: settler `i` is not among
        // its workers, so its claim, if any, lies elsewhere.
        assert(mr.blueprints[j] == m.blueprints[j]) by {
            match m.settlers[i].current_target {
                None => {},
                Some(jt) => {
                    assert(jt as int != j);
                },
            }
        }
        if mr.blueprints[j].workers.len() < mr.blueprints[j].max_workers {
            let w2 = mr.blueprints[j].workers.push(i as usize);
            assert(w2[mr.blueprints[j].workers.len() as int] == i as usize);
            assert(m1.blueprints[j].workers == w2);
        }
    }
}

/// Cancellation law: a running plan whose cancellation flag is set, or whose
/// active action was cancelled, resolves to `Failure` at the next tick —
/// never to `Success` — and the settler's claim is released.
pub proof fn lemma_cancellation_fails(m: WorldModel, i: int)
    requires
        m.wf(),
        0 <= i < m.settlers.len(),
        m.settlers[i].plan matches Some(p) && p.status == PlanStatus::Running && (
        p.cancel_requested || p.active == Some(ActionState::Cancelled)),
    ensures
        tick_model(m).0.settlers[i].plan matches Some(p2) && p2.status == PlanStatus::Failure,
        tick_model(m).0.settlers[i].current_target is None,
{
    assert(decide(m, i) == TickDecision::ActionFail);
    assert forall|k: int| 0 <= k < decisions(m).len() implies #[trigger] crate::world::decision_ok(
        m,
        k,
        decisions(m)[k],
    ) by {
        lemma_decide_ok(m, k);
    }
    assert(decisions(m)[i] == TickDecision::ActionFail);
    lemma_commit_from_core(m, decisions(m), 0);
}

/// Ceiling division, used for the termination bound of the walk.
pub open spec fn ceil_div(a: int, b: int) -> int {
    (a + b - 1) / b
}

/// `ceil_div(a, b)` counts the steps of size `b` that cover `a`: at least
/// one while `a` is positive, enough to cover `a`, and one fewer once a step
/// is taken.
proof fn lemma_ceil_div_facts(a: int, b: int)
    requires
        b >= 1,
        a >= 1,
    ensures
        ceil_div(a, b) >= 1,
        ceil_div(a, b) * b >= a,
        ceil_div(a - b, b) == ceil_div(a, b) - 1,
{
    let x = a + b - 1;
    let q = ceil_div(a, b);
    lemma_fundamental_div_mod(x, b);
    vstd::arithmetic::div_mod::lemma_remainder(x, b);
    assert(q * b >= a) by (nonlinear_arith)
        requires
            x == a + b - 1,
            0 <= x - (x / b * b) < b,
            q == x / b,
    ;
    assert(q >= 1) by (nonlinear_arith)
        requires
            q * b >= a,
            a >= 1,
            b >= 1,
    ;
    // Shifting the numerator down by one divisor lowers the quotient by one.
    vstd::arithmetic::div_mod::lemma_div_plus_one(a - 1, b);
}

/// One engine step: a tick, then the motion integrator.
pub open spec fn engine_step(m: WorldModel) -> WorldModel {
    motion_applied(tick_model(m).0)
}

/// `n` engine steps in a row.
pub open spec fn engine_iter(m: WorldModel, n: nat) -> WorldModel
    decreases n,
{
    if n == 0 {
        m
    } else {
        engine_step(engine_iter(m, (n - 1) as nat))
    }
}

proof fn lemma_engine_iter_shift(m: WorldModel, n: nat)
    requires
        n >= 1,
    ensures
        engine_iter(m, n) == engine_iter(engine_step(m), (n - 1) as nat),
    decreases n,
{
    if n == 1 {
        assert(engine_iter(m, 1) == engine_step(engine_iter(m, 0)));
        assert(engine_iter(engine_step(m), 0) == engine_step(m));
    } else {
        lemma_engine_iter_shift(m, (n - 1) as nat);
        assert(engine_iter(m, n) == engine_step(engine_iter(m, (n - 1) as nat)));
        assert(engine_iter(engine_step(m), (n - 1) as nat) == engine_step(
            engine_iter(engine_step(m), (n - 2) as nat),
        ));
    }
}

/// The walker's remaining distance to its target, rounded up to whole units.
pub open spec fn walk_dist(m: WorldModel) -> int {
    sqrt_ceil(dist_sq(m.settlers[0].position, m.blueprints[0].position) as nat) as int
}

/// The canonical walk: one settler running a single move step toward the one
/// blueprint.
pub open spec fn lone_walk(m: WorldModel, speed: u32) -> bool {
    &&& m.wf()
    &&& m.settlers.len() == 1
    &&& m.blueprints.len() == 1
    &&& m.settlers[0].plan == Some(
        PlanModel {
            steps: seq![PlanStep::MoveToBlueprint(MoveToBlueprint { speed })],
            cursor: 0,
            active: Some(ActionState::Executing),
            status: PlanStatus::Running,
            cancel_requested: false,
        },
    )
    &&& m.blueprints[0].process < PROGRESS_ONE
    &&& m.blueprints[0].max_workers >= 1
}

/// One engine step of the canonical walk — a tick followed by the motion
/// integrator: within the arrival radius the plan succeeds, and beyond it
/// the remaining distance shrinks by at least the per-tick step (or to zero
/// when the step covers it) while the walk stays canonical. This holds for
/// every direction of approach, not only along an axis.
#[verifier::rlimit(60)]
pub proof fn lemma_lone_walk_tick(m: WorldModel, speed: u32)
    requires
        lone_walk(m, speed),
        speed / m.ticks_per_second >= 1,
    ensures
        ({
            let m2 = engine_step(m);
            let d: int = walk_dist(m);
            let step: int = (speed / m.ticks_per_second) as int;
            &&& (d <= MAX_DISTANCE ==> (m2.settlers[0].plan matches Some(p) && p.status
                == PlanStatus::Success))
            &&& (d > MAX_DISTANCE ==> {
                &&& lone_walk(m2, speed)
                &&& m2.ticks_per_second == m.ticks_per_second
                &&& walk_dist(m2) <= if step >= d {
                    0
                } else {
                    d - step
                }
            })
        }),
{
    let s = m.settlers[0];
    let b = m.blueprints[0];
    let dx: int = b.position.x - s.position.x;
    let dy: int = b.position.y - s.position.y;
    let step: int = (speed / m.ticks_per_second) as int;
    let mv = MoveToBlueprint { speed };
    assert(m.settler_wf(0));
    assert(m.blueprint_wf(0));
    // The lone blueprint is always eligible to the lone settler.
    assert(crate::selector::blueprint_eligible(0usize, b)) by {
        if !(b.workers.len() < b.max_workers) {
            assert(m.settlers[b.workers[0] as int].current_target == Some(0usize));
            assert(b.workers[0] < 1);
            assert(b.workers.contains(b.workers[0]));
        }
    }
    assert(crate::selector::select_prefix(0usize, s.position, m.blueprints, 0) is None);
    assert(crate::selector::select_target(0usize, s.position, m.blueprints) == Some(0int));
    let d2: int = crate::vec2::dist_sq(s.position, b.position);
    crate::vec2::lemma_dist_sq_range(s.position, b.position);
    let d: int = walk_dist(m);
    crate::math::lemma_sqrt_ceil_bracket(d2 as nat);
    let dec = decide(m, 0);
    assert(dec == crate::actions::move_action_decision(
        0usize,
        s.position,
        mv,
        m.blueprints,
        m.ticks_per_second,
    ));
    // One tick is one commit of the lone settler's decision.
    let ds = decisions(m);
    assert(ds.len() == 1 && ds[0] == dec);
    lemma_decide_ok(m, 0);
    lemma_commit_one(m, 0, dec);
    let (m1, ev1) = commit_one(m, 0, dec);
    assert(commit_from(m1, ds, 1) == (m1, Seq::<crate::components::BlueprintFinished>::empty()));
    assert(tick_model(m).0 == m1);
    // Being within the radius is the same thing for the exact squared
    // distance and for the rounded-up distance.
    crate::math::lemma_sqrt_ceil_le(d2 as nat, MAX_DISTANCE as nat);
    if d <= MAX_DISTANCE {
        assert(d2 <= MAX_DISTANCE * MAX_DISTANCE);
        assert(dec == TickDecision::Advance);
        assert(m1.settlers[0].plan == Some(s.plan->Some_0.advanced()));
        assert(s.plan->Some_0.advanced().status == PlanStatus::Success);
        assert(m1.settlers[0].motion is None);
        assert(engine_step(m).settlers[0] == m1.settlers[0]);
    } else {
        assert(d2 > MAX_DISTANCE * MAX_DISTANCE);
        let md = step_delta(s.position, b.position, step);
        crate::vec2::lemma_step_delta_props(s.position, b.position, step);
        crate::vec2::lemma_step_delta_shrinks(s.position, b.position, step);
        let intent = Vec2i { x: md.0 as i64, y: md.1 as i64 };
        assert(intent.x == md.0 && intent.y == md.1);
        assert(dec == TickDecision::MoveStep { target: 0, intent });
        // The commit writes exactly this intent and touches nothing else the
        // walk depends on.
        lemma_admit_claim(m, 0, 0);
        let ma = admit_claim(m, 0, 0);
        assert(m1 == crate::world::with_settler(
            ma,
            0,
            SettlerModel { motion: Some(intent), ..ma.settlers[0] },
        ));
        assert(m1.settlers[0].plan == s.plan);
        assert(m1.settlers[0].position == s.position);
        assert(m1.blueprints[0].position == b.position);
        assert(m1.blueprints[0].process == b.process);
        assert(m1.blueprints[0].max_workers == b.max_workers);
        // The integrator applies the intent.
        lemma_tick_wf(m);
        lemma_motion_applied_wf(m1);
        let m2 = motion_applied(m1);
        assert(m2.settlers[0] == (SettlerModel {
            position: m1.settlers[0].position.spec_translated(intent),
            motion: None,
            ..m1.settlers[0]
        }));
        let np = m1.settlers[0].position.spec_translated(intent);
        assert(np.x == s.position.x + md.0 && np.y == s.position.y + md.1);
        let nx: int = b.position.x - np.x;
        let ny: int = b.position.y - np.y;
        assert(nx == dx - md.0 && ny == dy - md.1);
        let nd2: int = crate::vec2::dist_sq(np, b.position);
        assert(nd2 == nx * nx + ny * ny);
        crate::vec2::lemma_sq_nonneg(nx);
        crate::vec2::lemma_sq_nonneg(ny);
        if step >= d {
            assert(nx == 0 && ny == 0);
            assert(nd2 == 0) by (nonlinear_arith)
                requires
                    nx == 0,
                    ny == 0,
                    nd2 == nx * nx + ny * ny,
            ;
            crate::math::lemma_sqrt_ceil_le(nd2 as nat, 0nat);
        } else {
            assert(nd2 <= (d - step) * (d - step));
            crate::math::lemma_sqrt_ceil_le(nd2 as nat, (d - step) as nat);
            assert(nd2 as nat <= ((d - step) as nat) * ((d - step) as nat));
        }
        assert(m2.blueprints[0].process < PROGRESS_ONE);
        assert(lone_walk(m2, speed));
        assert(m2 == engine_step(m));
        assert(m2.ticks_per_second == m.ticks_per_second);
        assert(walk_dist(m2) == sqrt_ceil(nd2 as nat) as int);
        assert(walk_dist(m2) <= if step >= d { 0int } else { d - step });
    }
}

/// Once the walker's plan has resolved successfully, it stays resolved: the
/// settler decides to stay idle on every later tick.
proof fn lemma_walk_success_stays(m: WorldModel, n: nat)
    requires
        m.wf(),
        m.settlers.len() >= 1,
        m.settlers[0].plan matches Some(p) && p.status == PlanStatus::Success,
    ensures
        engine_iter(m, n).settlers[0].plan matches Some(p2) && p2.status == PlanStatus::Success,
    decreases n,
{
    if n >= 1 {
        assert(decide(m, 0) == TickDecision::Idle);
        assert forall|k: int| 0 <= k < decisions(m).len() implies #[trigger] crate::world::decision_ok(
            m,
            k,
            decisions(m)[k],
        ) by {
            lemma_decide_ok(m, k);
        }
        assert(decisions(m)[0] == TickDecision::Idle);
        lemma_commit_from_core(m, decisions(m), 0);
        let m1 = tick_model(m).0;
        assert(m1.settlers[0] == (SettlerModel { motion: None, ..m.settlers[0] }));
        lemma_motion_applied_wf(m1);
        let m2 = engine_step(m);
        assert(m2.settlers[0] == m1.settlers[0]);
        lemma_engine_iter_shift(m, n);
        lemma_walk_success_stays(m2, (n - 1) as nat);
    }
}

/// Termination law for the move action: the canonical walk, starting at
/// (rounded-up) distance `d` with per-tick step `speed / ticks_per_second`
/// of at least one unit, has resolved successfully after at most
/// `ceil((d - r) / step) + 1` engine steps, where `r` is the arrival radius
/// — one bounded step per executing tick, plus the tick that observes
/// arrival. The plan then stays resolved forever.
pub proof fn lemma_lone_walk_terminates(m: WorldModel, speed: u32, n: nat)
    requires
        lone_walk(m, speed),
        speed / m.ticks_per_second >= 1,
        n >= 1 + if walk_dist(m) > MAX_DISTANCE {
            ceil_div(walk_dist(m) - MAX_DISTANCE, (speed / m.ticks_per_second) as int)
        } else {
            0
        },
    ensures
        engine_iter(m, n).settlers[0].plan matches Some(p) && p.status == PlanStatus::Success,
    decreases n,
{
    let step: int = (speed / m.ticks_per_second) as int;
    let d: int = walk_dist(m);
    lemma_lone_walk_tick(m, speed);
    let m2 = engine_step(m);
    lemma_engine_iter_shift(m, n);
    if d <= MAX_DISTANCE {
        lemma_tick_wf(m);
        lemma_motion_applied_wf(tick_model(m).0);
        assert(m2.wf());
        assert(m2.settlers.len() >= 1) by {
            assert forall|k: int| 0 <= k < decisions(m).len() implies
                #[trigger] crate::world::decision_ok(m, k, decisions(m)[k]) by {
                lemma_decide_ok(m, k);
            }
            lemma_commit_from_core(m, decisions(m), 0);
        }
        lemma_walk_success_stays(m2, (n - 1) as nat);
    } else {
        lemma_ceil_div_facts(d - MAX_DISTANCE, step);
        let d2 = walk_dist(m2);
        if d2 > MAX_DISTANCE {
            // The remaining distance shrank by a full step, so one fewer
            // step covers what is left.
            assert(step < d) by {
                if step >= d {
                    assert(d2 <= 0);
                }
            }
            assert(d2 - MAX_DISTANCE <= (d - step) - MAX_DISTANCE);
            vstd::arithmetic::div_mod::lemma_div_is_ordered(
                d2 - MAX_DISTANCE + step - 1,
                d - step - MAX_DISTANCE + step - 1,
                step,
            );
            assert(ceil_div(d - step - MAX_DISTANCE, step) == ceil_div(d - MAX_DISTANCE, step)
                - 1);
            assert(ceil_div(d2 - MAX_DISTANCE, step) <= ceil_div(d - MAX_DISTANCE, step) - 1);
        }
        lemma_lone_walk_terminates(m2, speed, (n - 1) as nat);
    }
}

/// When the walk is along one axis the step is exact: one executing tick
/// shrinks the remaining distance by exactly `step`, or to zero when `step`
/// covers it, and the walker never leaves the axis.
pub proof fn lemma_move_tick_collinear(from: Vec2i, to: Vec2i, step: int)
    requires
        from.in_bounds(),
        to.in_bounds(),
        from.y == to.y,
        0 <= step,
    ensures
        ({
            let mv = step_delta(from, to, step);
            let d: int = abs_of(to.x - from.x);
            &&& from.y + mv.1 == to.y
            &&& abs_of(to.x - (from.x + mv.0)) == if step >= d {
                0
            } else {
                d - step
            }
        }),
{
    lemma_step_delta_collinear(from, to, step);
}

} // verus!
