use settlers::math::ceil_sqrt;
use settlers::vec2::{Vec2i, dist_sq_ex, step_toward};
use settlers::components::{Blueprint, BuildingProcess, MoveToBlueprint, Build, PROGRESS_ONE};
use settlers::selector::find_closest_blueprint;
use settlers::actions::{TickDecision, move_to_blueprint_action_system, build_action_system};

fn bp_at(x: i64, y: i64) -> Blueprint {
    Blueprint::new(Vec2i { x, y })
}

#[test]
fn ceil_sqrt_exact_values() {
    assert_eq!(ceil_sqrt(0), 0);
    assert_eq!(ceil_sqrt(1), 1);
    assert_eq!(ceil_sqrt(2), 2);
    assert_eq!(ceil_sqrt(4), 2);
    assert_eq!(ceil_sqrt(5), 3);
    assert_eq!(ceil_sqrt(25), 5);
    assert_eq!(ceil_sqrt(26), 6);
    assert_eq!(ceil_sqrt(8_000_000_000_000), 2_828_428);
}

#[test]
fn squared_distance() {
    let a = Vec2i { x: 0, y: 0 };
    let b = Vec2i { x: 3, y: -4 };
    assert_eq!(dist_sq_ex(a, b), 25);
    assert_eq!(dist_sq_ex(b, a), 25);
    assert_eq!(dist_sq_ex(b, b), 0);
}

#[test]
fn step_covers_remaining_distance_exactly() {
    let from = Vec2i { x: 0, y: 0 };
    let to = Vec2i { x: 3, y: 4 };
    let m = step_toward(from, to, 5);
    assert_eq!((m.x, m.y), (3, 4));
    let m2 = step_toward(from, to, 100);
    assert_eq!((m2.x, m2.y), (3, 4));
}

#[test]
fn step_scales_down_without_overshooting() {
    let from = Vec2i { x: 0, y: 0 };
    let to = Vec2i { x: 3, y: 4 };
    let m = step_toward(from, to, 3);
    // Distance 5, so each component carries 3/5 of itself, rounded up to the
    // next whole unit; neither component passes the target or exceeds the
    // step.
    assert_eq!((m.x, m.y), (2, 3));
    assert!(m.x <= 3 && m.y <= 4);
    assert!(m.x <= 3 && m.y <= 3);
}

#[test]
fn step_off_axis_always_gains_ground() {
    // Rounding up keeps small steps moving in every direction: a one-unit
    // step toward a diagonal target still advances both coordinates.
    let from = Vec2i { x: 0, y: 0 };
    let m = step_toward(from, Vec2i { x: 9, y: 9 }, 1);
    assert_eq!((m.x, m.y), (1, 1));
    let m2 = step_toward(from, Vec2i { x: 3, y: 4 }, 1);
    assert_eq!((m2.x, m2.y), (1, 1));
    let m3 = step_toward(from, Vec2i { x: -9, y: 9 }, 1);
    assert_eq!((m3.x, m3.y), (-1, 1));
}

#[test]
fn step_along_axis_is_exact() {
    let from = Vec2i { x: 0, y: 7 };
    let to = Vec2i { x: 20, y: 7 };
    let m = step_toward(from, to, 1);
    assert_eq!((m.x, m.y), (1, 0));
    let back = step_toward(to, from, 6);
    assert_eq!((back.x, back.y), (-6, 0));
}

#[test]
fn selector_picks_nearest_eligible() {
    let pos = Vec2i { x: 0, y: 0 };
    let bps = vec![bp_at(100, 0), bp_at(10, 0), bp_at(50, 0)];
    assert_eq!(find_closest_blueprint(9, pos, &bps), Some(1));
}

#[test]
fn selector_breaks_ties_by_lowest_index() {
    let pos = Vec2i { x: 0, y: 0 };
    let bps = vec![bp_at(0, 10), bp_at(10, 0), bp_at(-10, 0)];
    assert_eq!(find_closest_blueprint(9, pos, &bps), Some(0));
}

#[test]
fn selector_skips_full_blueprints() {
    let pos = Vec2i { x: 0, y: 0 };
    let mut near = bp_at(10, 0);
    near.job_target.claim(0);
    near.job_target.claim(1);
    let bps = vec![near, bp_at(50, 0)];
    assert_eq!(find_closest_blueprint(9, pos, &bps), Some(1));
}

#[test]
fn selector_keeps_a_full_blueprint_eligible_to_its_own_workers() {
    // A settler's own claim never pushes its target out of reach: a worker
    // of a full blueprint still selects it.
    let pos = Vec2i { x: 0, y: 0 };
    let mut near = bp_at(10, 0);
    near.job_target.claim(0);
    near.job_target.claim(1);
    let bps = vec![near, bp_at(50, 0)];
    assert_eq!(find_closest_blueprint(0, pos, &bps), Some(0));
    assert_eq!(find_closest_blueprint(1, pos, &bps), Some(0));
}

#[test]
fn selector_excludes_finished_blueprints() {
    let pos = Vec2i { x: 0, y: 0 };
    let mut near = bp_at(10, 0);
    near.building_process = BuildingProcess { process: PROGRESS_ONE };
    let bps = vec![near, bp_at(50, 0)];
    assert_eq!(find_closest_blueprint(9, pos, &bps), Some(1));
    let mut only = bp_at(10, 0);
    only.building_process = BuildingProcess { process: PROGRESS_ONE };
    assert_eq!(find_closest_blueprint(9, pos, &vec![only]), None);
}

#[test]
fn selector_returns_none_without_candidates() {
    let pos = Vec2i { x: 0, y: 0 };
    let bps: Vec<Blueprint> = Vec::new();
    assert_eq!(find_closest_blueprint(9, pos, &bps), None);
}

#[test]
fn move_action_succeeds_when_already_in_range() {
    // Being already close makes the move step terminate at once instead of
    // erroring: the decision is to advance the plan.
    let mv = MoveToBlueprint { speed: 60 };
    let bps = vec![bp_at(5, 0)];
    let d = move_to_blueprint_action_system(9, Vec2i { x: 0, y: 0 }, &mv, &bps, 60);
    assert_eq!(d, TickDecision::Advance);
}

#[test]
fn move_action_steps_toward_far_target() {
    let mv = MoveToBlueprint { speed: 60 };
    let bps = vec![bp_at(20, 0)];
    let d = move_to_blueprint_action_system(9, Vec2i { x: 0, y: 0 }, &mv, &bps, 60);
    assert_eq!(
        d,
        TickDecision::MoveStep { target: 0, intent: Vec2i { x: 1, y: 0 } },
    );
}

#[test]
fn move_action_fails_without_eligible_target() {
    let mv = MoveToBlueprint { speed: 60 };
    let bps: Vec<Blueprint> = Vec::new();
    let d = move_to_blueprint_action_system(9, Vec2i { x: 0, y: 0 }, &mv, &bps, 60);
    assert_eq!(d, TickDecision::ActionFail);
}

#[test]
fn build_action_works_in_range() {
    let b = Build { per_second: 720_000 };
    let bps = vec![bp_at(5, 0)];
    let d = build_action_system(9, Vec2i { x: 0, y: 0 }, &b, &bps, 60);
    assert_eq!(d, TickDecision::WorkStep { target: 0, amount: 12_000 });
}

#[test]
fn build_action_fails_out_of_range() {
    // The work action does not repair its own precondition: too far means
    // failure, not walking.
    let b = Build { per_second: 720_000 };
    let bps = vec![bp_at(20, 0)];
    let d = build_action_system(9, Vec2i { x: 0, y: 0 }, &b, &bps, 60);
    assert_eq!(d, TickDecision::ActionFail);
}
