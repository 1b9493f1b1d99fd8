//! The two concrete actions. Each tick, an executing action re-resolves its
//! target through the selector (deliberately decoupling consecutive steps
//! from each other) and reports what should happen: keep moving, work, or
//! resolve.

use vstd::prelude::*;
use crate::vec2::{Vec2i, dist_sq, dist_sq_ex, step_delta, step_toward};
use crate::components::{Blueprint, BlueprintModel, MoveToBlueprint, Build, MAX_DISTANCE};
use crate::selector::{select_target, views_of, find_closest_blueprint};

verus! {

/// What one settler's tick does, decided against the snapshot of the
/// previous tick's committed state and applied by the commit phase.
#[derive(Clone, Copy, PartialEq, Eq, Structural, Debug)]
pub enum TickDecision {
    /// No plan, or the plan already resolved.
    Idle,
    /// A fresh action instance starts executing at the current step.
    Activate,
    /// The active action succeeded: the cursor moves to the next step.
    Advance,
    /// The cursor is already past the last step: the plan succeeds.
    Complete,
    /// The active action failed or was cancelled: the plan fails and the
    /// settler's claim is released.
    ActionFail,
    /// The settler claims `target` and requests the displacement `intent`.
    MoveStep { target: usize, intent: Vec2i },
    /// The settler claims `target` and adds `amount` to its progress.
    WorkStep { target: usize, amount: u32 },
}

/// One tick of the move action for a settler standing at `position`:
/// failure when nothing is eligible, success when already within the
/// arrival radius, otherwise one bounded step toward the nearest eligible
/// blueprint.
pub open spec fn move_action_decision(
    actor: usize,
    position: Vec2i,
    mv: MoveToBlueprint,
    bps: Seq<BlueprintModel>,
    ticks_per_second: u32,
) -> TickDecision {
    match select_target(actor, position, bps) {
        None => TickDecision::ActionFail,
        Some(j) => {
            if dist_sq(position, bps[j].position) <= MAX_DISTANCE * MAX_DISTANCE {
                TickDecision::Advance
            } else {
                let step: int = (mv.speed / ticks_per_second) as int;
                let m = step_delta(position, bps[j].position, step);
                TickDecision::MoveStep {
                    target: j as usize,
                    intent: Vec2i { x: m.0 as i64, y: m.1 as i64 },
                }
            }
        },
    }
}

/// One tick of the work action: failure when nothing is eligible or the
/// nearest eligible blueprint is out of reach, otherwise one per-tick
/// increment of `per_second / ticks_per_second` progress units on it,
/// rounded down (zero, forever short of completion, when the rate is below
/// the tick rate).
pub open spec fn build_action_decision(
    actor: usize,
    position: Vec2i,
    b: Build,
    bps: Seq<BlueprintModel>,
    ticks_per_second: u32,
) -> TickDecision {
    match select_target(actor, position, bps) {
        None => TickDecision::ActionFail,
        Some(j) => {
            if dist_sq(position, bps[j].position) > MAX_DISTANCE * MAX_DISTANCE {
                TickDecision::ActionFail
            } else {
                TickDecision::WorkStep { target: j as usize, amount: b.per_second / ticks_per_second }
            }
        },
    }
}

/// Computes one tick of the move action against the current blueprints.
pub fn move_to_blueprint_action_system(
    actor: usize,
    position: Vec2i,
    mv: &MoveToBlueprint,
    blueprints: &Vec<Blueprint>,
    ticks_per_second: u32,
) -> (d: TickDecision)
    requires
        position.in_bounds(),
        forall|k: int| 0 <= k < blueprints@.len() ==> blueprints@[k]@.position.in_bounds(),
        ticks_per_second >= 1,
    ensures
        d == move_action_decision(actor, position, *mv, views_of(blueprints@), ticks_per_second),
{
    let ghost bvs = views_of(blueprints@);
    let r = find_closest_blueprint(actor, position, blueprints);
    let ghost sel = select_target(actor, position, bvs);
    match r {
        None => {
            proof {
                assert(sel is None);
                assert(move_action_decision(actor, position, *mv, bvs, ticks_per_second)
                    == TickDecision::ActionFail);
            }
            TickDecision::ActionFail
        },
        Some(j) => {
            proof {
                crate::selector::lemma_select_target_props(actor, position, bvs);
                assert(sel == Some(j as int));
                assert(bvs[j as int] == blueprints@[j as int]@);
            }
            let target_pos = blueprints[j].position;
            let d2 = dist_sq_ex(position, target_pos);
            if d2 <= MAX_DISTANCE * MAX_DISTANCE {
                TickDecision::Advance
            } else {
                let step: u32 = mv.speed / ticks_per_second;
                let m = step_toward(position, target_pos, step as i64);
                let ghost sm = step_delta(position, target_pos, step as int);
                proof {
                    assert(m == Vec2i { x: sm.0 as i64, y: sm.1 as i64 });
                }
                TickDecision::MoveStep { target: j, intent: m }
            }
        },
    }
}

/// Computes one tick of the work action against the current blueprints.
pub fn build_action_system(
    actor: usize,
    position: Vec2i,
    b: &Build,
    blueprints: &Vec<Blueprint>,
    ticks_per_second: u32,
) -> (d: TickDecision)
    requires
        position.in_bounds(),
        forall|k: int| 0 <= k < blueprints@.len() ==> blueprints@[k]@.position.in_bounds(),
        ticks_per_second >= 1,
    ensures
        d == build_action_decision(actor, position, *b, views_of(blueprints@), ticks_per_second),
{
    let ghost bvs = views_of(blueprints@);
    let r = find_closest_blueprint(actor, position, blueprints);
    match r {
        None => TickDecision::ActionFail,
        Some(j) => {
            proof {
                crate::selector::lemma_select_target_props(actor, position, bvs);
                assert(select_target(actor, position, bvs) == Some(j as int));
                assert(bvs[j as int] == blueprints@[j as int]@);
            }
            let d2 = dist_sq_ex(position, blueprints[j].position);
            if d2 > MAX_DISTANCE * MAX_DISTANCE {
                TickDecision::ActionFail
            } else {
                TickDecision::WorkStep { target: j, amount: b.per_second / ticks_per_second }
            }
        },
    }
}

} // verus!
