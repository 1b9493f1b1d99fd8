use settlers::vec2::Vec2i;
use settlers::components::{
    Build, BuildingNeed, MoveToBlueprint, PlanStatus, PlanStep, BlueprintFinished, PROGRESS_ONE,
    MAX_TARGETS_PER_JOB,
};
use settlers::world::World;

fn plan_status(w: &World, i: usize) -> PlanStatus {
    w.settlers[i].plan.as_ref().unwrap().status
}

fn assert_capacity_holds(w: &World) {
    for bp in &w.blueprints {
        assert!(bp.job_target.current_workers.len() <= bp.job_target.max_workers);
    }
}

#[test]
fn need_level_is_stored() {
    let n = BuildingNeed::new(1_800_000);
    assert_eq!(n.building_need, 1_800_000);
}

#[test]
fn move_plan_reaches_target_within_radius() {
    // A settler at the origin walks to a blueprint 20 units away at speed 60
    // with 60 ticks per second: one unit per tick. It succeeds once within
    // the arrival radius of 12, i.e. after 8 one-unit steps; with one tick to
    // start the action and one to observe arrival, that is tick 10.
    let mut w = World::new(60);
    let s = w.add_settler(Vec2i { x: 0, y: 0 }, 1_800_000);
    let _b = w.add_blueprint(Vec2i { x: 20, y: 0 });
    w.assign_plan(s, vec![PlanStep::MoveToBlueprint(MoveToBlueprint { speed: 60 })]);

    let mut ticks: usize = 0;
    while plan_status(&w, s) == PlanStatus::Running {
        let events = w.tick();
        assert!(events.is_empty());
        w.apply_motion();
        assert_capacity_holds(&w);
        ticks += 1;
        assert!(ticks < 100, "move plan did not terminate");
    }
    assert_eq!(plan_status(&w, s), PlanStatus::Success);
    assert_eq!(ticks, 10);
    // 8 one-unit steps brought the settler to x = 8, 12 units from the goal.
    assert_eq!((w.settlers[s].position.x, w.settlers[s].position.y), (8, 0));
    // The finished plan leaves no dangling claim.
    assert!(w.settlers[s].current_target.is_none());
    assert_eq!(w.blueprints[0].job_target.current_workers.len(), 0);
}

#[test]
fn off_axis_move_terminates() {
    // A diagonal target must not stall the walk: the settler at the origin
    // starts 12.73 units from the blueprint at (9, 9), one unit of speed per
    // tick. The first tick activates the action, the second walks (1, 1),
    // and the third observes a distance of sqrt(128) <= 12 and succeeds.
    let mut w = World::new(60);
    let s = w.add_settler(Vec2i { x: 0, y: 0 }, 1_800_000);
    let _b = w.add_blueprint(Vec2i { x: 9, y: 9 });
    w.assign_plan(s, vec![PlanStep::MoveToBlueprint(MoveToBlueprint { speed: 60 })]);
    let mut ticks: usize = 0;
    while plan_status(&w, s) == PlanStatus::Running {
        let _ = w.tick();
        w.apply_motion();
        ticks += 1;
        assert!(ticks < 10, "off-axis move plan did not terminate");
    }
    assert_eq!(plan_status(&w, s), PlanStatus::Success);
    assert_eq!(ticks, 3);
    assert_eq!((w.settlers[s].position.x, w.settlers[s].position.y), (1, 1));
}

#[test]
fn diagonal_walk_meets_the_termination_bound() {
    // A long diagonal walk: distance ceil(sqrt(5000)) = 71 at 5 units per
    // tick must resolve within ceil((71 - 12) / 5) + 1 = 13 engine steps,
    // plus the tick that activates the action.
    let mut w = World::new(60);
    let s = w.add_settler(Vec2i { x: 0, y: 0 }, 1_800_000);
    let b = w.add_blueprint(Vec2i { x: 50, y: 50 });
    w.assign_plan(s, vec![PlanStep::MoveToBlueprint(MoveToBlueprint { speed: 300 })]);
    let mut ticks: usize = 0;
    while plan_status(&w, s) == PlanStatus::Running {
        let _ = w.tick();
        w.apply_motion();
        ticks += 1;
        assert!(ticks <= 14, "diagonal walk exceeded its termination bound");
    }
    assert_eq!(plan_status(&w, s), PlanStatus::Success);
    let dx = w.blueprints[b].position.x - w.settlers[s].position.x;
    let dy = w.blueprints[b].position.y - w.settlers[s].position.y;
    assert!(dx * dx + dy * dy <= 144);
}

#[test]
fn work_reaches_completion_on_the_exact_tick() {
    // Work at 0.2 per second and 60 ticks per second accumulates
    // PROGRESS_ONE / 300 per executing tick, so progress reaches 1.0 after
    // exactly 300 working ticks, and the finished event fires on that tick
    // and never earlier. The first tick only activates the action, so the
    // event lands on overall tick 301.
    let mut w = World::new(60);
    let s = w.add_settler(Vec2i { x: 0, y: 0 }, 1_800_000);
    let b = w.add_blueprint(Vec2i { x: 0, y: 0 });
    w.assign_plan(s, vec![PlanStep::Build(Build { per_second: 720_000 })]);

    let mut last_progress: u32 = 0;
    let mut finished_at: Option<usize> = None;
    for tick in 1..=400 {
        let events = w.tick();
        let progress = w.blueprints[b].building_process.process;
        // Progress is monotone, clamped, and frozen once complete.
        assert!(progress >= last_progress);
        assert!(progress <= PROGRESS_ONE);
        if last_progress == PROGRESS_ONE {
            assert_eq!(progress, PROGRESS_ONE);
        }
        last_progress = progress;
        if !events.is_empty() {
            assert_eq!(events, vec![BlueprintFinished(b)]);
            assert_eq!(progress, PROGRESS_ONE);
            assert!(finished_at.is_none(), "finished event fired twice");
            finished_at = Some(tick);
        }
        assert_capacity_holds(&w);
    }
    // 1 activation tick + 300 working ticks.
    assert_eq!(finished_at, Some(301));
    assert_eq!(w.blueprints[b].building_process.process, PROGRESS_ONE);
    assert_eq!(plan_status(&w, s), PlanStatus::Success);
    assert!(w.settlers[s].current_target.is_none());
}

#[test]
fn three_claims_admit_exactly_two() {
    // Three settlers try to claim the same blueprint in one tick-commit
    // batch. The snapshot shows all of them a free slot, but the serialized
    // commit admits exactly two; the third sees no eligible target on the
    // next tick and its plan fails (there is nothing else to pick).
    let mut w = World::new(60);
    let s0 = w.add_settler(Vec2i { x: 0, y: 0 }, 1_800_000);
    let s1 = w.add_settler(Vec2i { x: 1, y: 0 }, 1_800_000);
    let s2 = w.add_settler(Vec2i { x: 2, y: 0 }, 1_800_000);
    let b = w.add_blueprint(Vec2i { x: 0, y: 0 });
    for s in [s0, s1, s2] {
        w.assign_plan(s, vec![PlanStep::Build(Build { per_second: 720_000 })]);
    }

    let events = w.tick();
    assert!(events.is_empty());
    // All three actions are now executing; nobody has claimed yet.
    assert_eq!(w.blueprints[b].job_target.current_workers.len(), 0);

    let events = w.tick();
    assert!(events.is_empty());
    // The commit batch admitted exactly the first two settlers.
    assert_eq!(w.blueprints[b].job_target.current_workers, vec![s0, s1]);
    assert!(w.blueprints[b].job_target.current_workers.len() <= MAX_TARGETS_PER_JOB);
    assert_eq!(w.settlers[s0].current_target, Some(b));
    assert_eq!(w.settlers[s1].current_target, Some(b));
    assert_eq!(w.settlers[s2].current_target, None);
    // Only the admitted workers contributed progress.
    assert_eq!(w.blueprints[b].building_process.process, 2 * 12_000);
    assert_eq!(plan_status(&w, s2), PlanStatus::Running);

    let _ = w.tick();
    // On the next tick the selector hands the third settler nothing: the
    // only blueprint is at capacity, so its action fails.
    assert_eq!(plan_status(&w, s2), PlanStatus::Failure);
    assert_eq!(w.settlers[s2].current_target, None);
    assert_capacity_holds(&w);
}

#[test]
fn cancellation_resolves_to_failure_never_success() {
    // Cancel a build in the middle of its work: whatever the progress, the
    // plan resolves to Failure on the next tick and the claim is released.
    let mut w = World::new(60);
    let s = w.add_settler(Vec2i { x: 0, y: 0 }, 1_800_000);
    let b = w.add_blueprint(Vec2i { x: 0, y: 0 });
    w.assign_plan(s, vec![PlanStep::Build(Build { per_second: 720_000 })]);
    for _ in 0..10 {
        let _ = w.tick();
    }
    assert!(w.blueprints[b].building_process.process > 0);
    assert_eq!(w.settlers[s].current_target, Some(b));
    w.cancel_plan(s);
    let events = w.tick();
    assert!(events.is_empty());
    assert_eq!(plan_status(&w, s), PlanStatus::Failure);
    assert!(w.settlers[s].current_target.is_none());
    assert_eq!(w.blueprints[b].job_target.current_workers.len(), 0);
    // The partial progress stays, untouched by the cancellation.
    assert_eq!(w.blueprints[b].building_process.process, 9 * 12_000);
}

#[test]
fn cancelling_a_move_also_fails() {
    let mut w = World::new(60);
    let s = w.add_settler(Vec2i { x: 0, y: 0 }, 1_800_000);
    let _b = w.add_blueprint(Vec2i { x: 100, y: 0 });
    w.assign_plan(s, vec![PlanStep::MoveToBlueprint(MoveToBlueprint { speed: 60 })]);
    let _ = w.tick();
    w.apply_motion();
    let _ = w.tick();
    w.apply_motion();
    w.cancel_plan(s);
    let _ = w.tick();
    assert_eq!(plan_status(&w, s), PlanStatus::Failure);
    assert!(w.settlers[s].current_target.is_none());
}

#[test]
fn full_plan_moves_then_builds() {
    // The two-step plan: walk to the nearest blueprint, then work on it to
    // completion. The work step re-resolves its own target each tick.
    let mut w = World::new(60);
    let s = w.add_settler(Vec2i { x: 0, y: 0 }, 1_800_000);
    let b = w.add_blueprint(Vec2i { x: 20, y: 0 });
    w.assign_plan(
        s,
        vec![
            PlanStep::MoveToBlueprint(MoveToBlueprint { speed: 60 }),
            PlanStep::Build(Build { per_second: 720_000 }),
        ],
    );
    let mut all_events: Vec<BlueprintFinished> = Vec::new();
    let mut ticks: usize = 0;
    while plan_status(&w, s) == PlanStatus::Running {
        let mut events = w.tick();
        all_events.append(&mut events);
        w.apply_motion();
        assert_capacity_holds(&w);
        ticks += 1;
        assert!(ticks < 1000, "plan did not terminate");
    }
    assert_eq!(plan_status(&w, s), PlanStatus::Success);
    assert_eq!(all_events, vec![BlueprintFinished(b)]);
    assert_eq!(w.blueprints[b].building_process.process, PROGRESS_ONE);
    assert!(w.settlers[s].current_target.is_none());
    // 10 ticks to finish the move step, 1 to activate the build, 300 to
    // build: success is observed when the build completes, on tick 311.
    assert_eq!(ticks, 311);
}

#[test]
fn empty_plan_succeeds_immediately() {
    let mut w = World::new(60);
    let s = w.add_settler(Vec2i { x: 0, y: 0 }, 0);
    w.assign_plan(s, vec![]);
    let _ = w.tick();
    assert_eq!(plan_status(&w, s), PlanStatus::Success);
}

#[test]
fn idle_settlers_are_untouched() {
    let mut w = World::new(60);
    let s = w.add_settler(Vec2i { x: 5, y: 6 }, 0);
    let _b = w.add_blueprint(Vec2i { x: 10, y: 0 });
    let events = w.tick();
    assert!(events.is_empty());
    assert_eq!((w.settlers[s].position.x, w.settlers[s].position.y), (5, 6));
    assert!(w.settlers[s].plan.is_none());
    assert!(w.settlers[s].motion.is_none());
}

#[test]
fn third_claimant_picks_another_target() {
    // Like the capacity scenario, but with a second blueprint in range: the
    // settler that lost the admission race re-targets it on the next tick.
    let mut w = World::new(60);
    let s0 = w.add_settler(Vec2i { x: 0, y: 0 }, 1_800_000);
    let s1 = w.add_settler(Vec2i { x: 0, y: 0 }, 1_800_000);
    let s2 = w.add_settler(Vec2i { x: 0, y: 0 }, 1_800_000);
    let b0 = w.add_blueprint(Vec2i { x: 0, y: 0 });
    let b1 = w.add_blueprint(Vec2i { x: 5, y: 0 });
    for s in [s0, s1, s2] {
        w.assign_plan(s, vec![PlanStep::Build(Build { per_second: 720_000 })]);
    }
    let _ = w.tick();
    let _ = w.tick();
    assert_eq!(w.blueprints[b0].job_target.current_workers, vec![s0, s1]);
    assert_eq!(w.settlers[s2].current_target, None);
    let _ = w.tick();
    // The nearest blueprint is full, so the selector hands the third settler
    // the other one, which it claims and works.
    assert_eq!(w.settlers[s2].current_target, Some(b1));
    assert_eq!(w.blueprints[b1].job_target.current_workers, vec![s2]);
    assert_eq!(w.blueprints[b1].building_process.process, 12_000);
    assert_eq!(plan_status(&w, s2), PlanStatus::Running);
    assert_capacity_holds(&w);
}

#[test]
fn reassignment_moves_the_claim() {
    // A walking settler re-resolves its target every tick; when a nearer
    // blueprint appears, its claim moves over and the old one is released.
    let mut w = World::new(60);
    let s = w.add_settler(Vec2i { x: 0, y: 0 }, 1_800_000);
    let far = w.add_blueprint(Vec2i { x: 100, y: 0 });
    w.assign_plan(s, vec![PlanStep::MoveToBlueprint(MoveToBlueprint { speed: 60 })]);
    for _ in 0..3 {
        let _ = w.tick();
        w.apply_motion();
    }
    assert_eq!(w.settlers[s].current_target, Some(far));
    let near = w.add_blueprint(Vec2i { x: 20, y: 0 });
    let _ = w.tick();
    w.apply_motion();
    assert_eq!(w.settlers[s].current_target, Some(near));
    assert_eq!(w.blueprints[far].job_target.current_workers.len(), 0);
    assert_eq!(w.blueprints[near].job_target.current_workers, vec![s]);
}
