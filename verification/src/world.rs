//! The simulation context and its tick. A tick has two phases: every settler
//! first decides against the snapshot of the previous tick's committed state,
//! then the decisions are committed one settler at a time, in index order.
//! Claims are admitted at commit time while capacity remains, so the
//! per-blueprint worker bound holds at every tick boundary; progress writes
//! are serialized read-modify-writes, so concurrent workers never lose or
//! double-count a contribution.

use vstd::prelude::*;
use crate::vec2::{Vec2i, COORD_LIMIT};
use crate::components::{
    Settler, SettlerModel, Blueprint, BlueprintModel, PlanModel, PlanStatus, ActionState, PlanStep,
    BlueprintFinished, claim_spec, remove_worker, distinct_seq, PROGRESS_ONE, MAX_TARGETS_PER_JOB,
};
use crate::actions::{TickDecision, move_action_decision, build_action_decision};

verus! {

/// World state as the specifications see it.
#[verifier::ext_equal]
pub struct WorldModel {
    pub ticks_per_second: u32,
    pub settlers: Seq<SettlerModel>,
    pub blueprints: Seq<BlueprintModel>,
}

/// The whole simulation state: the tick rate, all settlers, and all
/// blueprints. Settler and blueprint identities are indices into the two
/// lists; the lists never grow or shrink during a tick.
#[derive(Clone, Debug)]
pub struct World {
    pub ticks_per_second: u32,
    pub settlers: Vec<Settler>,
    pub blueprints: Vec<Blueprint>,
}

impl View for World {
    type V = WorldModel;

    open spec fn view(&self) -> WorldModel {
        WorldModel {
            ticks_per_second: self.ticks_per_second,
            settlers: self.settlers@.map_values(|s: Settler| s@),
            blueprints: self.blueprints@.map_values(|b: Blueprint| b@),
        }
    }
}

impl WorldModel {
    /// Soundness of one settler record: position in bounds, any pending
    /// motion keeps it in bounds, the claimed blueprint (if any) exists and
    /// lists this settler, and the plan is structurally sound.
    pub open spec fn settler_wf(self, i: int) -> bool {
        let s = self.settlers[i];
        &&& s.position.in_bounds()
        &&& (s.motion matches Some(mv) ==> -COORD_LIMIT <= s.position.x + mv.x <= COORD_LIMIT
            && -COORD_LIMIT <= s.position.y + mv.y <= COORD_LIMIT)
        &&& (s.current_target matches Some(j) ==> 0 <= j < self.blueprints.len()
            && self.blueprints[j as int].workers.contains(i as usize))
        &&& (s.plan matches Some(p) ==> p.wf())
    }

    /// Soundness of one blueprint record: position in bounds, progress never
    /// past completion, and a duplicate-free worker list within capacity
    /// whose members exist and claim exactly this blueprint.
    pub open spec fn blueprint_wf(self, j: int) -> bool {
        let b = self.blueprints[j];
        &&& b.position.in_bounds()
        &&& b.process <= PROGRESS_ONE
        &&& distinct_seq(b.workers)
        &&& b.workers.len() <= b.max_workers
        &&& forall|k: int|
            0 <= k < b.workers.len() ==> (b.workers[k] < self.settlers.len()
                && #[trigger] self.settlers[b.workers[k] as int].current_target == Some(
                j as usize,
            ))
    }

    /// The tick invariant: every record is sound. Together the two mirror
    /// clauses say that a settler claims at most one blueprint system-wide
    /// and that every worker list stays within its capacity.
    pub open spec fn wf(self) -> bool {
        &&& self.ticks_per_second >= 1
        &&& self.settlers.len() <= usize::MAX
        &&& self.blueprints.len() <= usize::MAX
        &&& forall|i: int| 0 <= i < self.settlers.len() ==> #[trigger] self.settler_wf(i)
        &&& forall|j: int| 0 <= j < self.blueprints.len() ==> #[trigger] self.blueprint_wf(j)
    }
}

/// The world with settler `i` replaced.
pub open spec fn with_settler(m: WorldModel, i: int, s: SettlerModel) -> WorldModel {
    WorldModel { settlers: m.settlers.update(i, s), ..m }
}

/// The world with blueprint `j` replaced.
pub open spec fn with_blueprint(m: WorldModel, j: int, b: BlueprintModel) -> WorldModel {
    WorldModel { blueprints: m.blueprints.update(j, b), ..m }
}

/// Settler `i` gives up its claim, if it holds one: it leaves that
/// blueprint's worker list and forgets its target.
pub open spec fn release_claim(m: WorldModel, i: int) -> WorldModel {
    let s = m.settlers[i];
    match s.current_target {
        None => m,
        Some(j) => {
            let b = m.blueprints[j as int];
            let m1 = with_blueprint(
                m,
                j as int,
                BlueprintModel { workers: remove_worker(b.workers, i as usize), ..b },
            );
            with_settler(m1, i, SettlerModel { current_target: None, ..s })
        },
    }
}

/// Settler `i` attempts to claim blueprint `j` at commit time: a no-op when
/// it already claims `j`; otherwise it releases any other claim and is
/// admitted only while `j` has spare capacity. This is the atomic
/// filter-plus-claim admission step.
pub open spec fn admit_claim(m: WorldModel, i: int, j: int) -> WorldModel {
    if m.blueprints[j].workers.contains(i as usize) {
        m
    } else {
        let m1 = release_claim(m, i);
        let b = m1.blueprints[j];
        if b.workers.len() < b.max_workers {
            let m2 = with_blueprint(m1, j, BlueprintModel { workers: b.workers.push(i as usize), ..b });
            with_settler(m2, i, SettlerModel { current_target: Some(j as usize), ..m2.settlers[i] })
        } else {
            m1
        }
    }
}

/// Releasing a claim keeps the world sound; it only empties settler `i`'s
/// target field and removes `i` from one worker list.
pub proof fn lemma_release_claim(m: WorldModel, i: int)
    requires
        m.wf(),
        0 <= i < m.settlers.len(),
    ensures
        ({
            let m1 = release_claim(m, i);
            &&& m1.wf()
            &&& m1.ticks_per_second == m.ticks_per_second
            &&& m1.settlers.len() == m.settlers.len()
            &&& m1.blueprints.len() == m.blueprints.len()
            &&& forall|k: int| 0 <= k < m.settlers.len() && k != i ==> m1.settlers[k] == m.settlers[k]
            &&& m1.settlers[i] == (SettlerModel { current_target: None, ..m.settlers[i] })
            &&& forall|j: int|
                0 <= j < m.blueprints.len() ==> (#[trigger] m1.blueprints[j]).position
                    == m.blueprints[j].position && m1.blueprints[j].max_workers
                    == m.blueprints[j].max_workers && m1.blueprints[j].process
                    == m.blueprints[j].process && m1.blueprints[j].workers.len()
                    <= m.blueprints[j].workers.len()
            &&& forall|j: int, x: usize|
                0 <= j < m.blueprints.len() && x != i ==> (#[trigger] m1.blueprints[j].workers.contains(
                    x,
                ) <==> m.blueprints[j].workers.contains(x))
            &&& forall|j: int|
                0 <= j < m.blueprints.len() ==> !(#[trigger] m1.blueprints[j].workers.contains(
                    i as usize,
                ))
        }),
{
    let s = m.settlers[i];
    let m1 = release_claim(m, i);
    assert(m.settler_wf(i));
    match s.current_target {
        None => {
            assert forall|j: int| 0 <= j < m.blueprints.len() implies !(
            #[trigger] m1.blueprints[j].workers.contains(i as usize)) by {
                assert(m.blueprint_wf(j));
                if m.blueprints[j].workers.contains(i as usize) {
                    let k = choose|k: int|
                        0 <= k < m.blueprints[j].workers.len() && m.blueprints[j].workers[k]
                            == i as usize;
                    assert(m.settlers[i].current_target == Some(j as usize));
                }
            }
        },
        Some(jt) => {
            let j = jt as int;
            assert(m.blueprint_wf(j));
            let b = m.blueprints[j];
            let w2 = remove_worker(b.workers, i as usize);
            lemma_remove_len_distinct(b.workers, i as usize);
            // Membership in any list after the release.
            assert forall|j2: int, x: usize|
                0 <= j2 < m.blueprints.len() && x != i implies (
                #[trigger] m1.blueprints[j2].workers.contains(x)
                    <==> m.blueprints[j2].workers.contains(x)) by {
                crate::components::lemma_remove_contains(b.workers, i as usize, x);
            }
            assert forall|j2: int| 0 <= j2 < m.blueprints.len() implies !(
            #[trigger] m1.blueprints[j2].workers.contains(i as usize)) by {
                if j2 == j {
                    crate::components::lemma_remove_contains(b.workers, i as usize, i as usize);
                } else {
                    assert(m.blueprint_wf(j2));
                    if m.blueprints[j2].workers.contains(i as usize) {
                        let k = choose|k: int|
                            0 <= k < m.blueprints[j2].workers.len() && m.blueprints[j2].workers[k]
                                == i as usize;
                        assert(m.settlers[i].current_target == Some(j2 as usize));
                    }
                }
            }
            // Well-formedness of every settler.
            assert forall|k: int| 0 <= k < m1.settlers.len() implies #[trigger] m1.settler_wf(
                k,
            ) by {
                assert(m.settler_wf(k));
                if k != i {
                    match m.settlers[k].current_target {
                        Some(j2) => {
                            crate::components::lemma_remove_contains(
                                b.workers,
                                i as usize,
                                k as usize,
                            );
                            if j2 as int == j {
                                assert(m1.blueprints[j2 as int].workers.contains(k as usize));
                            }
                        },
                        None => {},
                    }
                }
            }
            // Well-formedness of every blueprint.
            assert forall|j2: int| 0 <= j2 < m1.blueprints.len() implies #[trigger] m1.blueprint_wf(
                j2,
            ) by {
                assert(m.blueprint_wf(j2));
                if j2 == j {
                    assert forall|k: int| 0 <= k < w2.len() implies (w2[k] < m1.settlers.len()
                        && #[trigger] m1.settlers[w2[k] as int].current_target == Some(
                        j2 as usize,
                    )) by {
                        assert(w2.contains(w2[k]));
                        crate::components::lemma_remove_contains(b.workers, i as usize, w2[k]);
                        let k0 = choose|k0: int|
                            0 <= k0 < b.workers.len() && b.workers[k0] == w2[k];
                        assert(m.settlers[w2[k] as int].current_target == Some(j2 as usize));
                        assert(w2[k] != i as usize);
                    }
                } else {
                    assert forall|k: int| 0 <= k < m1.blueprints[j2].workers.len() implies (
                    m1.blueprints[j2].workers[k] < m1.settlers.len()
                        && #[trigger] m1.settlers[m1.blueprints[j2].workers[k] as int].current_target
                        == Some(j2 as usize)) by {
                        let x = m1.blueprints[j2].workers[k];
                        assert(m.blueprints[j2].workers[k] == x);
                        assert(m.settlers[x as int].current_target == Some(j2 as usize));
                        assert(x != i as usize) by {
                            if x == i as usize {
                                assert(m.settlers[i].current_target == Some(j2 as usize));
                            }
                        }
                    }
                }
            }
        },
    }
}

/// Admission keeps the world sound; it touches only settler `i`'s target
/// field and the worker lists, and only by moving `i` between them.
pub proof fn lemma_admit_claim(m: WorldModel, i: int, j: int)
    requires
        m.wf(),
        0 <= i < m.settlers.len(),
        0 <= j < m.blueprints.len(),
    ensures
        ({
            let m2 = admit_claim(m, i, j);
            &&& m2.wf()
            &&& m2.ticks_per_second == m.ticks_per_second
            &&& m2.settlers.len() == m.settlers.len()
            &&& m2.blueprints.len() == m.blueprints.len()
            &&& forall|k: int| 0 <= k < m.settlers.len() && k != i ==> m2.settlers[k] == m.settlers[k]
            &&& m2.settlers[i].position == m.settlers[i].position
            &&& m2.settlers[i].motion == m.settlers[i].motion
            &&& m2.settlers[i].plan == m.settlers[i].plan
            &&& m2.settlers[i].building_need == m.settlers[i].building_need
            &&& forall|j2: int|
                0 <= j2 < m.blueprints.len() ==> (#[trigger] m2.blueprints[j2]).position
                    == m.blueprints[j2].position && m2.blueprints[j2].max_workers
                    == m.blueprints[j2].max_workers && m2.blueprints[j2].process
                    == m.blueprints[j2].process
            &&& forall|j2: int, x: usize|
                0 <= j2 < m.blueprints.len() && x != i ==> (
                #[trigger] m2.blueprints[j2].workers.contains(x)
                    <==> m.blueprints[j2].workers.contains(x))
            &&& (m2.blueprints[j].workers.contains(i as usize) ==> m2.settlers[i].current_target
                == Some(j as usize))
        }),
{
    let m2 = admit_claim(m, i, j);
    if m.blueprints[j].workers.contains(i as usize) {
        assert(m.blueprint_wf(j));
        let k = choose|k: int|
            0 <= k < m.blueprints[j].workers.len() && m.blueprints[j].workers[k] == i as usize;
        assert(m.settlers[i].current_target == Some(j as usize));
    } else {
        lemma_release_claim(m, i);
        let m1 = release_claim(m, i);
        let b = m1.blueprints[j];
        if b.workers.len() < b.max_workers {
            let w2 = b.workers.push(i as usize);
            assert(w2[b.workers.len() as int] == i as usize);
            assert(w2.contains(i as usize));
            assert(!b.workers.contains(i as usize));
            assert(distinct_seq(b.workers)) by {
                assert(m1.blueprint_wf(j));
            }
            assert(claim_spec(b.workers, i as usize) == w2);
            crate::components::lemma_claim_distinct(b.workers, i as usize);
            // Membership after the push, for everyone but `i`.
            assert forall|j2: int, x: usize|
                0 <= j2 < m.blueprints.len() && x != i implies (
            #[trigger] m2.blueprints[j2].workers.contains(x) <==> m.blueprints[j2].workers.contains(
                x,
            )) by {
                if j2 == j {
                    crate::components::lemma_claim_contains(b.workers, i as usize, x);
                    assert(x != i as usize);
                }
            }
            // Every settler record remains sound.
            assert forall|k: int| 0 <= k < m2.settlers.len() implies #[trigger] m2.settler_wf(
                k,
            ) by {
                assert(m1.settler_wf(k));
                if k == i {
                    assert(m2.settlers[i].current_target == Some(j as usize));
                    assert(m2.blueprints[j].workers.contains(i as usize));
                } else {
                    match m1.settlers[k].current_target {
                        Some(j2) => {
                            if j2 as int == j {
                                crate::components::lemma_claim_contains(
                                    b.workers,
                                    i as usize,
                                    k as usize,
                                );
                            }
                        },
                        None => {},
                    }
                }
            }
            // Every blueprint record remains sound.
            assert forall|j2: int| 0 <= j2 < m2.blueprints.len() implies #[trigger] m2.blueprint_wf(
                j2,
            ) by {
                assert(m1.blueprint_wf(j2));
                if j2 == j {
                    assert forall|k: int| 0 <= k < w2.len() implies (w2[k] < m2.settlers.len()
                        && #[trigger] m2.settlers[w2[k] as int].current_target == Some(
                        j2 as usize,
                    )) by {
                        if k == w2.len() - 1 {
                            assert(w2[k] == i as usize);
                        } else {
                            assert(w2[k] == b.workers[k]);
                            assert(m1.settlers[b.workers[k] as int].current_target == Some(
                                j2 as usize,
                            ));
                            assert(b.workers[k] != i as usize) by {
                                assert(m1.settlers[i].current_target is None);
                            }
                        }
                    }
                } else {
                    assert forall|k: int| 0 <= k < m2.blueprints[j2].workers.len() implies (
                    m2.blueprints[j2].workers[k] < m2.settlers.len()
                        && #[trigger] m2.settlers[m2.blueprints[j2].workers[k] as int].current_target
                        == Some(j2 as usize)) by {
                        let x = m2.blueprints[j2].workers[k];
                        assert(m1.blueprints[j2].workers[k] == x);
                        assert(m1.settlers[x as int].current_target == Some(j2 as usize));
                        assert(x != i as usize) by {
                            assert(m1.settlers[i].current_target is None);
                        }
                    }
                }
            }
        } else {
            assert(m2 == m1);
        }
    }
}

/// Bundles the length and distinctness facts about one removal.
proof fn lemma_remove_len_distinct(workers: Seq<usize>, agent: usize)
    requires
        distinct_seq(workers),
    ensures
        remove_worker(workers, agent).len() <= workers.len(),
        distinct_seq(remove_worker(workers, agent)),
{
    crate::components::lemma_remove_len(workers, agent);
    crate::components::lemma_remove_distinct(workers, agent);
}

/// Replacing settler `i`'s plan and motion (but not its position or claim)
/// keeps the world sound.
proof fn lemma_with_settler_wf(m: WorldModel, i: int, s2: SettlerModel)
    requires
        m.wf(),
        0 <= i < m.settlers.len(),
        s2.position == m.settlers[i].position,
        s2.current_target == m.settlers[i].current_target,
        s2.plan matches Some(p) ==> p.wf(),
        s2.motion matches Some(mv) ==> -COORD_LIMIT <= s2.position.x + mv.x <= COORD_LIMIT
            && -COORD_LIMIT <= s2.position.y + mv.y <= COORD_LIMIT,
    ensures
        with_settler(m, i, s2).wf(),
{
    let m1 = with_settler(m, i, s2);
    assert forall|k: int| 0 <= k < m1.settlers.len() implies #[trigger] m1.settler_wf(k) by {
        assert(m.settler_wf(k));
    }
    assert forall|j: int| 0 <= j < m1.blueprints.len() implies #[trigger] m1.blueprint_wf(j) by {
        assert(m.blueprint_wf(j));
        assert forall|k: int| 0 <= k < m1.blueprints[j].workers.len() implies (
        m1.blueprints[j].workers[k] < m1.settlers.len()
            && #[trigger] m1.settlers[m1.blueprints[j].workers[k] as int].current_target == Some(
            j as usize,
        )) by {
            assert(m.settlers[m.blueprints[j].workers[k] as int].current_target == Some(
                j as usize,
            ));
        }
    }
}

/// Rewriting one blueprint's progress (still within the scale) keeps the
/// world sound.
proof fn lemma_with_blueprint_process_wf(m: WorldModel, j: int, newp: u32)
    requires
        m.wf(),
        0 <= j < m.blueprints.len(),
        newp <= PROGRESS_ONE,
    ensures
        with_blueprint(m, j, BlueprintModel { process: newp, ..m.blueprints[j] }).wf(),
{
    let m1 = with_blueprint(m, j, BlueprintModel { process: newp, ..m.blueprints[j] });
    assert forall|k: int| 0 <= k < m1.settlers.len() implies #[trigger] m1.settler_wf(k) by {
        assert(m.settler_wf(k));
    }
    assert forall|j2: int| 0 <= j2 < m1.blueprints.len() implies #[trigger] m1.blueprint_wf(j2) by {
        assert(m.blueprint_wf(j2));
        assert forall|k: int| 0 <= k < m1.blueprints[j2].workers.len() implies (
        m1.blueprints[j2].workers[k] < m1.settlers.len()
            && #[trigger] m1.settlers[m1.blueprints[j2].workers[k] as int].current_target == Some(
            j2 as usize,
        )) by {
            assert(m.settlers[m.blueprints[j2].workers[k] as int].current_target == Some(
                j2 as usize,
            ));
        }
    }
}

/// One commit keeps the world sound, touches only settler `i` and the worker
/// lists and progress, moves progress only forward and only up to the scale,
/// and emits exactly the crossing of one blueprint into completion.
pub proof fn lemma_commit_one(m: WorldModel, i: int, d: TickDecision)
    requires
        m.wf(),
        decision_ok(m, i, d),
    ensures
        ({
            let (m1, ev) = commit_one(m, i, d);
            &&& m1.wf()
            &&& m1.ticks_per_second == m.ticks_per_second
            &&& m1.settlers.len() == m.settlers.len()
            &&& m1.blueprints.len() == m.blueprints.len()
            &&& forall|k: int| 0 <= k < m.settlers.len() && k != i ==> m1.settlers[k] == m.settlers[k]
            &&& m1.settlers[i].position == m.settlers[i].position
            &&& m1.settlers[i].building_need == m.settlers[i].building_need
            &&& forall|j: int|
                0 <= j < m.blueprints.len() ==> (#[trigger] m1.blueprints[j]).position
                    == m.blueprints[j].position && m1.blueprints[j].max_workers
                    == m.blueprints[j].max_workers
            &&& forall|j: int|
                0 <= j < m.blueprints.len() ==> m.blueprints[j].process <= (
                #[trigger] m1.blueprints[j]).process <= PROGRESS_ONE
            &&& forall|j: int|
                0 <= j < m.blueprints.len() && m.blueprints[j].process == PROGRESS_ONE ==> (
                #[trigger] m1.blueprints[j]).process == PROGRESS_ONE
            &&& forall|j: int, x: usize|
                0 <= j < m.blueprints.len() && x != i ==> (
                #[trigger] m1.blueprints[j].workers.contains(x)
                    <==> m.blueprints[j].workers.contains(x))
            &&& ev.len() <= 1
            &&& forall|n: int|
                0 <= n < ev.len() ==> 0 <= (#[trigger] ev[n]).0 < m.blueprints.len()
                    && m.blueprints[ev[n].0 as int].process < PROGRESS_ONE
                    && m1.blueprints[ev[n].0 as int].process == PROGRESS_ONE
            &&& forall|j: int|
                0 <= j < m.blueprints.len() && m.blueprints[j].process < PROGRESS_ONE && (
                #[trigger] m1.blueprints[j]).process == PROGRESS_ONE ==> (ev.len() == 1 && ev[0]
                    == BlueprintFinished(j as usize))
            &&& (d == TickDecision::Idle ==> m1.settlers[i] == (SettlerModel {
                motion: None,
                ..m.settlers[i]
            }) && m1.blueprints == m.blueprints)
            &&& (d == TickDecision::Activate ==> m1.settlers[i] == (SettlerModel {
                motion: None,
                plan: Some(m.settlers[i].plan->Some_0.activated()),
                ..m.settlers[i]
            }) && m1.blueprints == m.blueprints)
            &&& (d == TickDecision::Advance ==> m1.settlers[i].plan == Some(
                m.settlers[i].plan->Some_0.advanced(),
            ) && m1.settlers[i].motion is None)
            &&& (d == TickDecision::Complete ==> m1.settlers[i].plan == Some(
                m.settlers[i].plan->Some_0.completed(),
            ) && m1.settlers[i].current_target is None && m1.settlers[i].motion is None)
            &&& (d == TickDecision::ActionFail ==> m1.settlers[i].plan == Some(
                m.settlers[i].plan->Some_0.failed(),
            ) && m1.settlers[i].current_target is None && m1.settlers[i].motion is None && forall|
                j: int,
            |
                0 <= j < m.blueprints.len() ==> !(#[trigger] m1.blueprints[j].workers.contains(
                    i as usize,
                )))
            &&& (d matches TickDecision::MoveStep { target, intent } ==> m1.settlers[i].motion
                == Some(intent) && m1.settlers[i].plan == m.settlers[i].plan)
            &&& (d matches TickDecision::WorkStep { target, amount } ==> m1.settlers[i].motion
                is None)
        }),
{
    let s = m.settlers[i];
    assert(m.settler_wf(i));
    assert forall|j: int| 0 <= j < m.blueprints.len() implies (#[trigger] m.blueprints[j]).process
        <= PROGRESS_ONE by {
        assert(m.blueprint_wf(j));
    }
    match d {
        TickDecision::Idle => {
            lemma_with_settler_wf(m, i, SettlerModel { motion: None, ..s });
        },
        TickDecision::Activate => {
            lemma_with_settler_wf(
                m,
                i,
                SettlerModel { motion: None, plan: Some(s.plan->Some_0.activated()), ..s },
            );
        },
        TickDecision::Advance => {
            let p2 = s.plan->Some_0.advanced();
            let s2 = SettlerModel { motion: None, plan: Some(p2), ..s };
            lemma_with_settler_wf(m, i, s2);
            let m1 = with_settler(m, i, s2);
            if p2.status == PlanStatus::Success {
                lemma_release_claim(m1, i);
            }
        },
        TickDecision::Complete => {
            let p2 = s.plan->Some_0.completed();
            let s2 = SettlerModel { motion: None, plan: Some(p2), ..s };
            lemma_with_settler_wf(m, i, s2);
            lemma_release_claim(with_settler(m, i, s2), i);
        },
        TickDecision::ActionFail => {
            let p2 = s.plan->Some_0.failed();
            let s2 = SettlerModel { motion: None, plan: Some(p2), ..s };
            lemma_with_settler_wf(m, i, s2);
            lemma_release_claim(with_settler(m, i, s2), i);
        },
        TickDecision::MoveStep { target, intent } => {
            lemma_admit_claim(m, i, target as int);
            let m1 = admit_claim(m, i, target as int);
            let s1 = m1.settlers[i];
            lemma_with_settler_wf(m1, i, SettlerModel { motion: Some(intent), ..s1 });
        },
        TickDecision::WorkStep { target, amount } => {
            let t = target as int;
            lemma_admit_claim(m, i, t);
            let m1 = admit_claim(m, i, t);
            if m1.blueprints[t].workers.contains(i as usize) {
                let b = m1.blueprints[t];
                let oldp = b.process;
                let newp: u32 = if oldp + amount >= PROGRESS_ONE {
                    PROGRESS_ONE
                } else {
                    (oldp + amount) as u32
                };
                lemma_with_blueprint_process_wf(m1, t, newp);
                let m2 = with_blueprint(m1, t, BlueprintModel { process: newp, ..b });
                if newp == PROGRESS_ONE {
                    let s1 = m2.settlers[i];
                    assert(s1.plan == m.settlers[i].plan);
                    let p2 = s1.plan->Some_0.advanced();
                    let s2 = SettlerModel { motion: None, plan: Some(p2), ..s1 };
                    lemma_with_settler_wf(m2, i, s2);
                    let m3 = with_settler(m2, i, s2);
                    lemma_release_claim(m3, i);
                } else {
                    let s1 = m2.settlers[i];
                    lemma_with_settler_wf(m2, i, SettlerModel { motion: None, ..s1 });
                }
            } else {
                let s1 = m1.settlers[i];
                lemma_with_settler_wf(m1, i, SettlerModel { motion: None, ..s1 });
            }
        },
    }
}

/// What settler `i` decides this tick, reading only the snapshot `m`.
pub open spec fn decide(m: WorldModel, i: int) -> TickDecision {
    let s = m.settlers[i];
    match s.plan {
        None => TickDecision::Idle,
        Some(p) => {
            if p.status != PlanStatus::Running {
                TickDecision::Idle
            } else if p.cancel_requested {
                TickDecision::ActionFail
            } else {
                match p.active {
                    None => if p.cursor == p.steps.len() {
                        TickDecision::Complete
                    } else {
                        TickDecision::Activate
                    },
                    Some(ActionState::Requested) => TickDecision::Activate,
                    Some(ActionState::Executing) => match p.steps[p.cursor as int] {
                        PlanStep::MoveToBlueprint(mv) => move_action_decision(
                            i as usize,
                            s.position,
                            mv,
                            m.blueprints,
                            m.ticks_per_second,
                        ),
                        PlanStep::Build(b) => build_action_decision(
                            i as usize,
                            s.position,
                            b,
                            m.blueprints,
                            m.ticks_per_second,
                        ),
                    },
                    Some(ActionState::Cancelled) => TickDecision::ActionFail,
                    Some(ActionState::Success) => TickDecision::Advance,
                    Some(ActionState::Failure) => TickDecision::ActionFail,
                }
            }
        },
    }
}

/// On a sound world, every decision can be committed.
pub proof fn lemma_decide_ok(m: WorldModel, i: int)
    requires
        m.wf(),
        0 <= i < m.settlers.len(),
    ensures
        decision_ok(m, i, decide(m, i)),
{
    let s = m.settlers[i];
    assert(m.settler_wf(i));
    match s.plan {
        None => {},
        Some(p) => {
            if p.status == PlanStatus::Running && !p.cancel_requested && p.active == Some(
                ActionState::Executing,
            ) {
                crate::selector::lemma_select_target_props(i as usize, s.position, m.blueprints);
                match crate::selector::select_target(i as usize, s.position, m.blueprints) {
                    None => {},
                    Some(j) => {
                        assert(m.blueprint_wf(j));
                        let to = m.blueprints[j].position;
                        match p.steps[p.cursor as int] {
                            PlanStep::MoveToBlueprint(mv) => {
                                let step: int = (mv.speed / m.ticks_per_second) as int;
                                crate::vec2::lemma_step_delta_props(s.position, to, step);
                                let md = crate::vec2::step_delta(s.position, to, step);
                                assert(-2_000_000 <= md.0 <= 2_000_000 && -2_000_000 <= md.1
                                    <= 2_000_000);
                                let intent = Vec2i { x: md.0 as i64, y: md.1 as i64 };
                                assert(intent.x == md.0 && intent.y == md.1);
                                assert(-COORD_LIMIT <= s.position.x + intent.x <= COORD_LIMIT);
                                assert(-COORD_LIMIT <= s.position.y + intent.y <= COORD_LIMIT);
                            },
                            PlanStep::Build(b) => {},
                        }
                    },
                }
            }
        },
    }
}

/// All settlers' decisions against the snapshot `m`.
pub open spec fn decisions(m: WorldModel) -> Seq<TickDecision> {
    Seq::new(m.settlers.len(), |i: int| decide(m, i))
}

/// What the commit of decision `d` needs of the world it runs on. Decisions
/// are made against the tick's snapshot and committed against an evolved
/// world; every condition here is untouched by other settlers' commits.
pub open spec fn decision_ok(m: WorldModel, i: int, d: TickDecision) -> bool {
    let s = m.settlers[i];
    &&& 0 <= i < m.settlers.len()
    &&& match d {
        TickDecision::Idle => true,
        TickDecision::Activate => s.plan matches Some(p) && p.status == PlanStatus::Running
            && p.cursor < p.steps.len(),
        TickDecision::Advance => s.plan matches Some(p) && p.status == PlanStatus::Running
            && p.cursor < p.steps.len(),
        TickDecision::Complete => s.plan matches Some(p) && p.status == PlanStatus::Running,
        TickDecision::ActionFail => s.plan is Some,
        TickDecision::MoveStep { target, intent } => {
            &&& 0 <= target < m.blueprints.len()
            &&& -COORD_LIMIT <= s.position.x + intent.x <= COORD_LIMIT
            &&& -COORD_LIMIT <= s.position.y + intent.y <= COORD_LIMIT
        },
        TickDecision::WorkStep { target, amount } => {
            &&& 0 <= target < m.blueprints.len()
            &&& s.plan matches Some(p) && p.status == PlanStatus::Running && p.cursor
                < p.steps.len()
        },
    }
}

/// Commits one settler's decision: the next world state and the finished
/// events it emits (at most one). Claims go through the atomic admission; a
/// work step contributes progress only when the settler holds a claim after
/// admission, and its read-modify-write of the live progress is serialized by
/// the commit order, clamping at the scale. On the commit where progress
/// first reaches the scale, the work action emits the finished event, its
/// plan advances, and its claim is released.
pub open spec fn commit_one(m: WorldModel, i: int, d: TickDecision) -> (
    WorldModel,
    Seq<BlueprintFinished>,
) {
    let s = m.settlers[i];
    match d {
        TickDecision::Idle => (with_settler(m, i, SettlerModel { motion: None, ..s }), Seq::empty()),
        TickDecision::Activate => (
            with_settler(
                m,
                i,
                SettlerModel { motion: None, plan: Some(s.plan->Some_0.activated()), ..s },
            ),
            Seq::empty(),
        ),
        TickDecision::Advance => {
            let p2 = s.plan->Some_0.advanced();
            let m1 = with_settler(m, i, SettlerModel { motion: None, plan: Some(p2), ..s });
            if p2.status == PlanStatus::Success {
                (release_claim(m1, i), Seq::empty())
            } else {
                (m1, Seq::empty())
            }
        },
        TickDecision::Complete => {
            let p2 = s.plan->Some_0.completed();
            let m1 = with_settler(m, i, SettlerModel { motion: None, plan: Some(p2), ..s });
            (release_claim(m1, i), Seq::empty())
        },
        TickDecision::ActionFail => {
            let p2 = s.plan->Some_0.failed();
            let m1 = with_settler(m, i, SettlerModel { motion: None, plan: Some(p2), ..s });
            (release_claim(m1, i), Seq::empty())
        },
        TickDecision::MoveStep { target, intent } => {
            let m1 = admit_claim(m, i, target as int);
            let s1 = m1.settlers[i];
            (with_settler(m1, i, SettlerModel { motion: Some(intent), ..s1 }), Seq::empty())
        },
        TickDecision::WorkStep { target, amount } => {
            let m1 = admit_claim(m, i, target as int);
            if m1.blueprints[target as int].workers.contains(i as usize) {
                let b = m1.blueprints[target as int];
                let oldp = b.process;
                let newp: u32 = if oldp + amount >= PROGRESS_ONE {
                    PROGRESS_ONE
                } else {
                    (oldp + amount) as u32
                };
                let m2 = with_blueprint(m1, target as int, BlueprintModel { process: newp, ..b });
                if newp == PROGRESS_ONE {
                    let s1 = m2.settlers[i];
                    let m3 = with_settler(
                        m2,
                        i,
                        SettlerModel {
                            motion: None,
                            plan: Some(s1.plan->Some_0.advanced()),
                            ..s1
                        },
                    );
                    let m4 = release_claim(m3, i);
                    let evs: Seq<BlueprintFinished> = if oldp < PROGRESS_ONE {
                        seq![BlueprintFinished(target)]
                    } else {
                        Seq::empty()
                    };
                    (m4, evs)
                } else {
                    let s1 = m2.settlers[i];
                    (with_settler(m2, i, SettlerModel { motion: None, ..s1 }), Seq::empty())
                }
            } else {
                let s1 = m1.settlers[i];
                (with_settler(m1, i, SettlerModel { motion: None, ..s1 }), Seq::empty())
            }
        },
    }
}

/// Commits decisions `ds[i..]` in order, collecting the emitted events.
pub open spec fn commit_from(m: WorldModel, ds: Seq<TickDecision>, i: int) -> (
    WorldModel,
    Seq<BlueprintFinished>,
)
    decreases ds.len() - i,
{
    if i < 0 || i >= ds.len() {
        (m, Seq::empty())
    } else {
        let (m1, ev1) = commit_one(m, i, ds[i]);
        let (mf, evf) = commit_from(m1, ds, i + 1);
        (mf, ev1 + evf)
    }
}

/// Committing a suffix of the decisions keeps the world sound; progress only
/// grows up to the scale and freezes at it; settlers that did not commit are
/// untouched; failed and cancelled plans end in `Failure` with their claim
/// released; movers get exactly their decided intent.
#[verifier::rlimit(100)]
pub proof fn lemma_commit_from_core(m: WorldModel, ds: Seq<TickDecision>, i: int)
    requires
        m.wf(),
        0 <= i,
        forall|k: int| i <= k < ds.len() ==> #[trigger] decision_ok(m, k, ds[k]),
    ensures
        ({
            let (mf, evs) = commit_from(m, ds, i);
            &&& mf.wf()
            &&& mf.ticks_per_second == m.ticks_per_second
            &&& mf.settlers.len() == m.settlers.len()
            &&& mf.blueprints.len() == m.blueprints.len()
            &&& forall|k: int|
                0 <= k < m.settlers.len() ==> (#[trigger] mf.settlers[k]).position
                    == m.settlers[k].position && mf.settlers[k].building_need
                    == m.settlers[k].building_need
            &&& forall|k: int|
                0 <= k < m.settlers.len() && !(i <= k < ds.len()) ==> #[trigger] mf.settlers[k]
                    == m.settlers[k]
            &&& forall|j: int|
                0 <= j < m.blueprints.len() ==> (#[trigger] mf.blueprints[j]).position
                    == m.blueprints[j].position && mf.blueprints[j].max_workers
                    == m.blueprints[j].max_workers
            &&& forall|j: int|
                0 <= j < m.blueprints.len() ==> m.blueprints[j].process <= (
                #[trigger] mf.blueprints[j]).process <= PROGRESS_ONE
            &&& forall|j: int|
                0 <= j < m.blueprints.len() && m.blueprints[j].process == PROGRESS_ONE ==> (
                #[trigger] mf.blueprints[j]).process == PROGRESS_ONE
            &&& forall|k: int|
                i <= k < ds.len() ==> ((#[trigger] ds[k]) == TickDecision::Idle
                    ==> mf.settlers[k] == (SettlerModel { motion: None, ..m.settlers[k] }))
            &&& forall|k: int|
                i <= k < ds.len() ==> ((#[trigger] ds[k]) == TickDecision::ActionFail
                    ==> mf.settlers[k].plan == Some(m.settlers[k].plan->Some_0.failed())
                    && mf.settlers[k].current_target is None)
            &&& forall|k: int|
                i <= k < ds.len() ==> ((#[trigger] ds[k]) == TickDecision::Complete
                    ==> mf.settlers[k].plan == Some(m.settlers[k].plan->Some_0.completed()))
            &&& forall|k: int|
                i <= k < ds.len() ==> ((#[trigger] ds[k]) == TickDecision::Advance
                    ==> mf.settlers[k].plan == Some(m.settlers[k].plan->Some_0.advanced()))
            &&& forall|k: int|
                i <= k < ds.len() ==> ((#[trigger] ds[k]) == TickDecision::Activate
                    ==> mf.settlers[k].plan == Some(m.settlers[k].plan->Some_0.activated()))
            &&& forall|k: int|
                i <= k < ds.len() ==> ((#[trigger] ds[k]) matches TickDecision::MoveStep {
                    target,
                    intent,
                } ==> mf.settlers[k].motion == Some(intent))
        }),
    decreases ds.len() - i,
{
    if i >= ds.len() {
        assert forall|j: int| 0 <= j < m.blueprints.len() implies (
        #[trigger] m.blueprints[j]).process <= PROGRESS_ONE by {
            assert(m.blueprint_wf(j));
        }
    } else {
        assert(decision_ok(m, i, ds[i]));
        lemma_commit_one(m, i, ds[i]);
        let (m1, ev1) = commit_one(m, i, ds[i]);
        assert forall|k: int| i + 1 <= k < ds.len() implies #[trigger] decision_ok(
            m1,
            k,
            ds[k],
        ) by {
            assert(decision_ok(m, k, ds[k]));
            assert(m1.settlers[k] == m.settlers[k]);
        }
        lemma_commit_from_core(m1, ds, i + 1);
        let (mf, evf) = commit_from(m1, ds, i + 1);
        assert(mf.settlers[i] == m1.settlers[i]);
        assert forall|k: int|
            i <= k < ds.len() && (#[trigger] ds[k]) == TickDecision::Idle implies mf.settlers[k]
            == (SettlerModel { motion: None, ..m.settlers[k] }) by {
            assert(decision_ok(m, k, ds[k]));
            if k > i {
                assert(m1.settlers[k] == m.settlers[k]);
                assert(decision_ok(m1, k, ds[k]));
            }
        }
        assert forall|k: int|
            i <= k < ds.len() && (#[trigger] ds[k]) == TickDecision::ActionFail implies mf.settlers[k].plan
            == Some(m.settlers[k].plan->Some_0.failed()) && mf.settlers[k].current_target
            is None by {
            assert(decision_ok(m, k, ds[k]));
            if k > i {
                assert(m1.settlers[k] == m.settlers[k]);
                assert(decision_ok(m1, k, ds[k]));
            }
        }
        assert forall|k: int|
            i <= k < ds.len() && (#[trigger] ds[k]) == TickDecision::Complete implies mf.settlers[k].plan
            == Some(m.settlers[k].plan->Some_0.completed()) by {
            assert(decision_ok(m, k, ds[k]));
            if k > i {
                assert(m1.settlers[k] == m.settlers[k]);
                assert(decision_ok(m1, k, ds[k]));
            }
        }
        assert forall|k: int|
            i <= k < ds.len() && (#[trigger] ds[k]) == TickDecision::Advance implies mf.settlers[k].plan
            == Some(m.settlers[k].plan->Some_0.advanced()) by {
            assert(decision_ok(m, k, ds[k]));
            if k > i {
                assert(m1.settlers[k] == m.settlers[k]);
                assert(decision_ok(m1, k, ds[k]));
            }
        }
        assert forall|k: int|
            i <= k < ds.len() && (#[trigger] ds[k]) == TickDecision::Activate implies mf.settlers[k].plan
            == Some(m.settlers[k].plan->Some_0.activated()) by {
            assert(decision_ok(m, k, ds[k]));
            if k > i {
                assert(m1.settlers[k] == m.settlers[k]);
                assert(decision_ok(m1, k, ds[k]));
            }
        }
        assert forall|k: int|
            i <= k < ds.len() && ((#[trigger] ds[k]) matches TickDecision::MoveStep {
                target,
                intent,
            }) implies (ds[k] matches TickDecision::MoveStep { target, intent }
            && mf.settlers[k].motion == Some(intent)) by {
            assert(decision_ok(m, k, ds[k]));
            if k > i {
                assert(m1.settlers[k] == m.settlers[k]);
                assert(decision_ok(m1, k, ds[k]));
            }
        }
    }
}

/// The events of a committed suffix name exactly the blueprints whose
/// progress crossed into completion during it, each exactly once.
#[verifier::rlimit(100)]
pub proof fn lemma_commit_from_events(m: WorldModel, ds: Seq<TickDecision>, i: int)
    requires
        m.wf(),
        0 <= i,
        forall|k: int| i <= k < ds.len() ==> #[trigger] decision_ok(m, k, ds[k]),
    ensures
        ({
            let (mf, evs) = commit_from(m, ds, i);
            &&& forall|n: int|
                0 <= n < evs.len() ==> 0 <= (#[trigger] evs[n]).0 < m.blueprints.len()
                    && m.blueprints[evs[n].0 as int].process < PROGRESS_ONE
                    && mf.blueprints[evs[n].0 as int].process == PROGRESS_ONE
            &&& forall|a: int, b: int| 0 <= a < b < evs.len() ==> evs[a] != evs[b]
            &&& forall|j: int|
                0 <= j < m.blueprints.len() && m.blueprints[j].process < PROGRESS_ONE && (
                #[trigger] mf.blueprints[j]).process == PROGRESS_ONE ==> evs.contains(
                    BlueprintFinished(j as usize),
                )
        }),
    decreases ds.len() - i,
{
    if i >= ds.len() {
    } else {
        assert(decision_ok(m, i, ds[i]));
        lemma_commit_one(m, i, ds[i]);
        let (m1, ev1) = commit_one(m, i, ds[i]);
        assert forall|k: int| i + 1 <= k < ds.len() implies #[trigger] decision_ok(
            m1,
            k,
            ds[k],
        ) by {
            assert(decision_ok(m, k, ds[k]));
            assert(m1.settlers[k] == m.settlers[k]);
        }
        lemma_commit_from_events(m1, ds, i + 1);
        lemma_commit_from_core(m1, ds, i + 1);
        let (mf, evf) = commit_from(m1, ds, i + 1);
        let evs = ev1 + evf;
        if ev1.len() == 1 {
            let j = ev1[0].0 as int;
            assert(0 <= j < m.blueprints.len());
            assert(m.blueprints[j].process < PROGRESS_ONE && m1.blueprints[j].process
                == PROGRESS_ONE);
            assert(mf.blueprints[j].process == PROGRESS_ONE);
        }
        assert forall|n: int| 0 <= n < evs.len() implies 0 <= (#[trigger] evs[n]).0
            < m.blueprints.len() && m.blueprints[evs[n].0 as int].process < PROGRESS_ONE
            && mf.blueprints[evs[n].0 as int].process == PROGRESS_ONE by {
            if n < ev1.len() {
                assert(evs[n] == ev1[n]);
            } else {
                assert(evs[n] == evf[n - ev1.len()]);
                let j2 = evf[n - ev1.len()].0 as int;
                assert(m1.blueprints[j2].process < PROGRESS_ONE);
                assert(m.blueprints[j2].process <= m1.blueprints[j2].process) by {
                    lemma_commit_one(m, i, ds[i]);
                }
            }
        }
        assert forall|a: int, b: int| 0 <= a < b < evs.len() implies evs[a] != evs[b] by {
            if a < ev1.len() && b >= ev1.len() {
                assert(evs[a] == ev1[a]);
                assert(evs[b] == evf[b - ev1.len()]);
                let j = ev1[0].0 as int;
                assert(m1.blueprints[j].process == PROGRESS_ONE);
                assert(m1.blueprints[evf[b - ev1.len()].0 as int].process < PROGRESS_ONE);
            } else if a >= ev1.len() {
                assert(evs[a] == evf[a - ev1.len()]);
                assert(evs[b] == evf[b - ev1.len()]);
            } else {
                assert(evs[a] == ev1[a] && evs[b] == ev1[b]);
            }
        }
        assert forall|j: int|
            0 <= j < m.blueprints.len() && m.blueprints[j].process < PROGRESS_ONE && (
        #[trigger] mf.blueprints[j]).process == PROGRESS_ONE implies evs.contains(
            BlueprintFinished(j as usize),
        ) by {
            if m1.blueprints[j].process == PROGRESS_ONE {
                assert(ev1.len() == 1 && ev1[0] == BlueprintFinished(j as usize));
                assert(evs[0] == ev1[0]);
            } else {
                assert(evf.contains(BlueprintFinished(j as usize)));
                let n = choose|n: int|
                    0 <= n < evf.len() && evf[n] == BlueprintFinished(j as usize);
                assert(evs[ev1.len() + n] == evf[n]);
            }
        }
    }
}

/// One whole tick: decide everything against the snapshot, then commit in
/// settler order.
pub open spec fn tick_model(m: WorldModel) -> (WorldModel, Seq<BlueprintFinished>) {
    commit_from(m, decisions(m), 0)
}

/// Updating one element commutes with taking the settlers' models.
proof fn lemma_settlers_view_update(v: Seq<Settler>, i: int, s: Settler)
    requires
        0 <= i < v.len(),
    ensures
        v.update(i, s).map_values(|x: Settler| x@) =~= v.map_values(|x: Settler| x@).update(
            i,
            s@,
        ),
{
}

/// Updating one element commutes with taking the blueprints' models.
proof fn lemma_blueprints_view_update(v: Seq<Blueprint>, j: int, b: Blueprint)
    requires
        0 <= j < v.len(),
    ensures
        v.update(j, b).map_values(|x: Blueprint| x@) =~= v.map_values(|x: Blueprint| x@).update(
            j,
            b@,
        ),
{
}

/// Mutable access to one settler record.
fn settler_mut(w: &mut World, i: usize) -> (r: &mut Settler)
    requires
        i < old(w).settlers@.len(),
    ensures
        *r == old(w).settlers@[i as int],
        final(w).settlers@ == old(w).settlers@.update(i as int, *final(r)),
        final(w).blueprints == old(w).blueprints,
        final(w).ticks_per_second == old(w).ticks_per_second,
{
    &mut w.settlers[i]
}

/// Mutable access to one blueprint record.
fn blueprint_mut(w: &mut World, j: usize) -> (r: &mut Blueprint)
    requires
        j < old(w).blueprints@.len(),
    ensures
        *r == old(w).blueprints@[j as int],
        final(w).blueprints@ == old(w).blueprints@.update(j as int, *final(r)),
        final(w).settlers == old(w).settlers,
        final(w).ticks_per_second == old(w).ticks_per_second,
{
    &mut w.blueprints[j]
}

/// Computes settler `i`'s decision against the current world as snapshot.
pub fn decide_one(w: &World, i: usize) -> (d: TickDecision)
    requires
        w@.wf(),
        i < w@.settlers.len(),
    ensures
        d == decide(w@, i as int),
{
    proof {
        assert(w@.settler_wf(i as int));
        assert forall|k: int| 0 <= k < w.blueprints@.len() implies w.blueprints@[k]@.position.in_bounds() by {
            assert(w@.blueprint_wf(k));
        }
    }
    let s = &w.settlers[i];
    proof {
        assert(s@ == w@.settlers[i as int]);
    }
    match &s.plan {
        None => TickDecision::Idle,
        Some(p) => {
            if p.status != PlanStatus::Running {
                TickDecision::Idle
            } else if p.cancel_requested {
                TickDecision::ActionFail
            } else {
                match p.active {
                    None => {
                        if p.cursor == p.steps.len() {
                            TickDecision::Complete
                        } else {
                            TickDecision::Activate
                        }
                    },
                    Some(ActionState::Requested) => TickDecision::Activate,
                    Some(ActionState::Executing) => {
                        match p.steps[p.cursor] {
                            PlanStep::MoveToBlueprint(mv) => crate::actions::move_to_blueprint_action_system(
                                i,
                                s.position,
                                &mv,
                                &w.blueprints,
                                w.ticks_per_second,
                            ),
                            PlanStep::Build(b) => crate::actions::build_action_system(
                                i,
                                s.position,
                                &b,
                                &w.blueprints,
                                w.ticks_per_second,
                            ),
                        }
                    },
                    Some(ActionState::Cancelled) => TickDecision::ActionFail,
                    Some(ActionState::Success) => TickDecision::Advance,
                    Some(ActionState::Failure) => TickDecision::ActionFail,
                }
            }
        },
    }
}

/// Releases settler `i`'s claim, if any.
fn release_claim_ex(w: &mut World, i: usize)
    requires
        old(w)@.wf(),
        i < old(w)@.settlers.len(),
    ensures
        final(w)@ == release_claim(old(w)@, i as int),
        final(w)@.wf(),
{
    let ghost m0 = w@;
    proof {
        assert(m0.settler_wf(i as int));
        lemma_release_claim(m0, i as int);
    }
    let tgt = w.settlers[i].current_target;
    match tgt {
        None => {
            proof {
                assert(w@ == release_claim(m0, i as int));
            }
        },
        Some(j) => {
            let b = blueprint_mut(w, j);
            b.job_target.release(i);
            proof {
                lemma_blueprints_view_update(old(w).blueprints@, j as int, *b);
            }
            let ghost m1 = with_blueprint(
                m0,
                j as int,
                BlueprintModel {
                    workers: remove_worker(m0.blueprints[j as int].workers, i),
                    ..m0.blueprints[j as int]
                },
            );
            proof {
                assert(w@.blueprints =~= m1.blueprints);
                assert(w@ =~= m1);
            }
            let s = settler_mut(w, i);
            s.current_target = None;
            proof {
                lemma_settlers_view_update(old(w).settlers@, i as int, *s);
                assert(w@.settlers =~= release_claim(m0, i as int).settlers);
                assert(w@ =~= release_claim(m0, i as int));
            }
        },
    }
}

/// Attempts the atomic admission of settler `i` to blueprint `j`.
fn admit_claim_ex(w: &mut World, i: usize, j: usize)
    requires
        old(w)@.wf(),
        i < old(w)@.settlers.len(),
        j < old(w)@.blueprints.len(),
    ensures
        final(w)@ == admit_claim(old(w)@, i as int, j as int),
        final(w)@.wf(),
{
    let ghost m0 = w@;
    proof {
        lemma_admit_claim(m0, i as int, j as int);
    }
    let already = w.blueprints[j].job_target.is_claimed_by(i);
    proof {
        assert(w.blueprints@[j as int]@ == m0.blueprints[j as int]);
    }
    if !already {
        release_claim_ex(w, i);
        proof {
            lemma_release_claim(m0, i as int);
        }
        let ghost m1 = release_claim(m0, i as int);
        let cnt = w.blueprints[j].job_target.count();
        let maxw = w.blueprints[j].job_target.max_workers;
        proof {
            assert(w.blueprints@[j as int]@ == m1.blueprints[j as int]);
        }
        if cnt < maxw {
            let b = blueprint_mut(w, j);
            b.job_target.claim(i);
            proof {
                assert(!m1.blueprints[j as int].workers.contains(i));
                assert(claim_spec(m1.blueprints[j as int].workers, i)
                    == m1.blueprints[j as int].workers.push(i));
                lemma_blueprints_view_update(old(w).blueprints@, j as int, *b);
            }
            let ghost m2 = with_blueprint(
                m1,
                j as int,
                BlueprintModel {
                    workers: m1.blueprints[j as int].workers.push(i),
                    ..m1.blueprints[j as int]
                },
            );
            proof {
                assert(w@.blueprints =~= m2.blueprints);
                assert(w@ =~= m2);
            }
            let s = settler_mut(w, i);
            s.current_target = Some(j);
            proof {
                lemma_settlers_view_update(old(w).settlers@, i as int, *s);
                assert(w@.settlers =~= admit_claim(m0, i as int, j as int).settlers);
                assert(w@ =~= admit_claim(m0, i as int, j as int));
            }
        }
    }
}

/// Commits one settler's decision against the current world, appending any
/// emitted event.
fn commit_one_ex(w: &mut World, i: usize, d: TickDecision, events: &mut Vec<BlueprintFinished>)
    requires
        old(w)@.wf(),
        decision_ok(old(w)@, i as int, d),
    ensures
        final(w)@ == commit_one(old(w)@, i as int, d).0,
        final(events)@ == old(events)@ + commit_one(old(w)@, i as int, d).1,
        final(w)@.wf(),
{
    let ghost m0 = w@;
    proof {
        assert(m0.settler_wf(i as int));
        lemma_commit_one(m0, i as int, d);
        assert(old(events)@ + Seq::<BlueprintFinished>::empty() =~= old(events)@);
    }
    match d {
        TickDecision::Idle => {
            let s = settler_mut(w, i);
            s.motion = None;
            proof {
                lemma_settlers_view_update(old(w).settlers@, i as int, *s);
                assert(w@.settlers =~= commit_one(m0, i as int, d).0.settlers);
                assert(w@ =~= commit_one(m0, i as int, d).0);
            }
        },
        TickDecision::Activate => {
            let s = settler_mut(w, i);
            s.motion = None;
            match &mut s.plan {
                Some(p) => {
                    p.activate();
                },
                None => {
                    proof {
                        assert(false);
                    }
                },
            }
            proof {
                lemma_settlers_view_update(old(w).settlers@, i as int, *s);
                assert(w@.settlers =~= commit_one(m0, i as int, d).0.settlers);
                assert(w@ =~= commit_one(m0, i as int, d).0);
            }
        },
        TickDecision::Advance => {
            let ghost p2 = m0.settlers[i as int].plan->Some_0.advanced();
            let mut done: bool = false;
            {
                let s = settler_mut(w, i);
                s.motion = None;
                match &mut s.plan {
                    Some(p) => {
                        p.advance();
                        done = p.status == PlanStatus::Success;
                    },
                    None => {
                        proof {
                            assert(false);
                        }
                    },
                }
                proof {
                    lemma_settlers_view_update(old(w).settlers@, i as int, *s);
                }
            }
            let ghost ma = with_settler(
                m0,
                i as int,
                SettlerModel { motion: None, plan: Some(p2), ..m0.settlers[i as int] },
            );
            proof {
                assert(w@.settlers =~= ma.settlers);
                assert(w@ =~= ma);
                lemma_with_settler_wf(
                    m0,
                    i as int,
                    SettlerModel { motion: None, plan: Some(p2), ..m0.settlers[i as int] },
                );
            }
            if done {
                release_claim_ex(w, i);
            }
            proof {
                assert(w@ == commit_one(m0, i as int, d).0);
            }
        },
        TickDecision::Complete => {
            let s = settler_mut(w, i);
            s.motion = None;
            match &mut s.plan {
                Some(p) => {
                    p.complete();
                },
                None => {
                    proof {
                        assert(false);
                    }
                },
            }
            let ghost p2 = m0.settlers[i as int].plan->Some_0.completed();
            let ghost ma = with_settler(
                m0,
                i as int,
                SettlerModel { motion: None, plan: Some(p2), ..m0.settlers[i as int] },
            );
            proof {
                lemma_settlers_view_update(old(w).settlers@, i as int, *s);
                assert(w@.settlers =~= ma.settlers);
                assert(w@ =~= ma);
                lemma_with_settler_wf(
                    m0,
                    i as int,
                    SettlerModel { motion: None, plan: Some(p2), ..m0.settlers[i as int] },
                );
            }
            release_claim_ex(w, i);
            proof {
                assert(w@ == commit_one(m0, i as int, d).0);
            }
        },
        TickDecision::ActionFail => {
            let s = settler_mut(w, i);
            s.motion = None;
            match &mut s.plan {
                Some(p) => {
                    p.fail();
                },
                None => {
                    proof {
                        assert(false);
                    }
                },
            }
            let ghost p2 = m0.settlers[i as int].plan->Some_0.failed();
            let ghost ma = with_settler(
                m0,
                i as int,
                SettlerModel { motion: None, plan: Some(p2), ..m0.settlers[i as int] },
            );
            proof {
                lemma_settlers_view_update(old(w).settlers@, i as int, *s);
                assert(w@.settlers =~= ma.settlers);
                assert(w@ =~= ma);
                lemma_with_settler_wf(
                    m0,
                    i as int,
                    SettlerModel { motion: None, plan: Some(p2), ..m0.settlers[i as int] },
                );
            }
            release_claim_ex(w, i);
            proof {
                assert(w@ == commit_one(m0, i as int, d).0);
            }
        },
        TickDecision::MoveStep { target, intent } => {
            admit_claim_ex(w, i, target);
            let ghost vpre = w.settlers@;
            let s = settler_mut(w, i);
            s.motion = Some(intent);
            proof {
                lemma_settlers_view_update(vpre, i as int, *s);
                assert(w@.settlers =~= commit_one(m0, i as int, d).0.settlers);
                assert(w@ =~= commit_one(m0, i as int, d).0);
            }
        },
        TickDecision::WorkStep { target, amount } => {
            admit_claim_ex(w, i, target);
            proof {
                lemma_admit_claim(m0, i as int, target as int);
            }
            let ghost m1 = admit_claim(m0, i as int, target as int);
            let member = w.blueprints[target].job_target.is_claimed_by(i);
            proof {
                assert(w.blueprints@[target as int]@ == m1.blueprints[target as int]);
            }
            if member {
                let oldp = w.blueprints[target].building_process.process;
                let sum: u64 = oldp as u64 + amount as u64;
                let newp: u32 = if sum >= PROGRESS_ONE as u64 {
                    PROGRESS_ONE
                } else {
                    sum as u32
                };
                {
                    let b = blueprint_mut(w, target);
                    b.building_process.process = newp;
                    proof {
                        lemma_blueprints_view_update(old(w).blueprints@, target as int, *b);
                    }
                }
                let ghost m2 = with_blueprint(
                    m1,
                    target as int,
                    BlueprintModel { process: newp, ..m1.blueprints[target as int] },
                );
                proof {
                    assert(w@.blueprints =~= m2.blueprints);
                    assert(w@ =~= m2);
                    lemma_with_blueprint_process_wf(m1, target as int, newp);
                }
                if newp == PROGRESS_ONE {
                    {
                        let ghost vpre = w.settlers@;
                        let s = settler_mut(w, i);
                        s.motion = None;
                        match &mut s.plan {
                            Some(p) => {
                                p.advance();
                            },
                            None => {
                                proof {
                                    assert(false);
                                }
                            },
                        }
                        proof {
                            lemma_settlers_view_update(vpre, i as int, *s);
                        }
                    }
                    let ghost p2 = m2.settlers[i as int].plan->Some_0.advanced();
                    let ghost m3 = with_settler(
                        m2,
                        i as int,
                        SettlerModel { motion: None, plan: Some(p2), ..m2.settlers[i as int] },
                    );
                    proof {
                        assert(w@.settlers =~= m3.settlers);
                        assert(w@ =~= m3);
                        lemma_with_settler_wf(
                            m2,
                            i as int,
                            SettlerModel { motion: None, plan: Some(p2), ..m2.settlers[i as int] },
                        );
                    }
                    release_claim_ex(w, i);
                    if oldp < PROGRESS_ONE {
                        events.push(BlueprintFinished(target));
                        proof {
                            assert(events@ =~= old(events)@ + seq![BlueprintFinished(target)]);
                        }
                    }
                    proof {
                        assert(w@ == commit_one(m0, i as int, d).0);
                    }
                } else {
                    let ghost vpre = w.settlers@;
                    let s = settler_mut(w, i);
                    s.motion = None;
                    proof {
                        lemma_settlers_view_update(vpre, i as int, *s);
                        assert(w@.settlers =~= commit_one(m0, i as int, d).0.settlers);
                        assert(w@ =~= commit_one(m0, i as int, d).0);
                    }
                }
            } else {
                let ghost vpre = w.settlers@;
                let s = settler_mut(w, i);
                s.motion = None;
                proof {
                    lemma_settlers_view_update(vpre, i as int, *s);
                    assert(w@.settlers =~= commit_one(m0, i as int, d).0.settlers);
                    assert(w@ =~= commit_one(m0, i as int, d).0);
                }
            }
        },
    }
}

/// The world after the motion integrator applied every pending displacement.
pub open spec fn motion_applied(m: WorldModel) -> WorldModel {
    WorldModel {
        settlers: Seq::new(
            m.settlers.len(),
            |i: int|
                {
                    let s = m.settlers[i];
                    match s.motion {
                        None => s,
                        Some(mv) => SettlerModel {
                            position: s.position.spec_translated(mv),
                            motion: None,
                            ..s
                        },
                    }
                },
        ),
        ..m
    }
}

/// Applying the pending displacements keeps the world sound: every intent
/// was bounded when it was written.
pub proof fn lemma_motion_applied_wf(m: WorldModel)
    requires
        m.wf(),
    ensures
        motion_applied(m).wf(),
{
    let m1 = motion_applied(m);
    assert forall|i: int| 0 <= i < m1.settlers.len() implies #[trigger] m1.settler_wf(i) by {
        assert(m.settler_wf(i));
    }
    assert forall|j: int| 0 <= j < m1.blueprints.len() implies #[trigger] m1.blueprint_wf(j) by {
        assert(m.blueprint_wf(j));
        assert forall|k: int| 0 <= k < m1.blueprints[j].workers.len() implies (
        m1.blueprints[j].workers[k] < m1.settlers.len()
            && #[trigger] m1.settlers[m1.blueprints[j].workers[k] as int].current_target == Some(
            j as usize,
        )) by {
            assert(m.settlers[m.blueprints[j].workers[k] as int].current_target == Some(
                j as usize,
            ));
        }
    }
}

impl World {
    /// Whether the world satisfies the tick invariant.
    pub open spec fn wf(&self) -> bool {
        self@.wf()
    }

    /// An empty world running at `ticks_per_second`.
    pub fn new(ticks_per_second: u32) -> (r: World)
        requires
            ticks_per_second >= 1,
        ensures
            r@ == (WorldModel {
                ticks_per_second,
                settlers: Seq::<SettlerModel>::empty(),
                blueprints: Seq::<BlueprintModel>::empty(),
            }),
            r.wf(),
    {
        let r = World { ticks_per_second, settlers: Vec::new(), blueprints: Vec::new() };
        proof {
            assert(r@.settlers =~= Seq::<SettlerModel>::empty());
            assert(r@.blueprints =~= Seq::<BlueprintModel>::empty());
        }
        r
    }

    /// Adds an idle settler and returns its identity.
    pub fn add_settler(&mut self, position: Vec2i, building_need: u32) -> (i: usize)
        requires
            old(self).wf(),
            position.in_bounds(),
            old(self)@.settlers.len() < usize::MAX,
        ensures
            i == old(self)@.settlers.len(),
            final(self)@.settlers == old(self)@.settlers.push(
                SettlerModel {
                    position,
                    motion: None,
                    building_need,
                    current_target: None,
                    plan: None,
                },
            ),
            final(self)@.blueprints == old(self)@.blueprints,
            final(self)@.ticks_per_second == old(self)@.ticks_per_second,
            final(self).wf(),
    {
        let ghost m0 = self@;
        let i = self.settlers.len();
        self.settlers.push(Settler::new(position, building_need));
        proof {
            let m1 = self@;
            assert(self.settlers@.len() == m1.settlers.len());
            assert(m1.settlers =~= m0.settlers.push(
                SettlerModel {
                    position,
                    motion: None,
                    building_need,
                    current_target: None,
                    plan: None,
                },
            ));
            assert forall|k: int| 0 <= k < m1.settlers.len() implies #[trigger] m1.settler_wf(
                k,
            ) by {
                if k < m0.settlers.len() {
                    assert(m0.settler_wf(k));
                    assert(m1.settlers[k] == m0.settlers[k]);
                }
            }
            assert forall|j: int| 0 <= j < m1.blueprints.len() implies #[trigger] m1.blueprint_wf(
                j,
            ) by {
                assert(m0.blueprint_wf(j));
                assert forall|k: int| 0 <= k < m1.blueprints[j].workers.len() implies (
                m1.blueprints[j].workers[k] < m1.settlers.len()
                    && #[trigger] m1.settlers[m1.blueprints[j].workers[k] as int].current_target
                    == Some(j as usize)) by {
                    let x = m0.blueprints[j].workers[k];
                    assert(m0.settlers[x as int].current_target == Some(j as usize));
                    assert(m1.settlers[x as int] == m0.settlers[x as int]);
                }
            }
        }
        i
    }

    /// Places a fresh blueprint and returns its identity.
    pub fn add_blueprint(&mut self, position: Vec2i) -> (j: usize)
        requires
            old(self).wf(),
            position.in_bounds(),
            old(self)@.blueprints.len() < usize::MAX,
        ensures
            j == old(self)@.blueprints.len(),
            final(self)@.blueprints == old(self)@.blueprints.push(
                BlueprintModel {
                    position,
                    process: 0,
                    workers: Seq::<usize>::empty(),
                    max_workers: MAX_TARGETS_PER_JOB,
                },
            ),
            final(self)@.settlers == old(self)@.settlers,
            final(self)@.ticks_per_second == old(self)@.ticks_per_second,
            final(self).wf(),
    {
        let ghost m0 = self@;
        let j = self.blueprints.len();
        self.blueprints.push(Blueprint::new(position));
        proof {
            let m1 = self@;
            assert(self.blueprints@.len() == m1.blueprints.len());
            assert(m1.blueprints =~= m0.blueprints.push(
                BlueprintModel {
                    position,
                    process: 0,
                    workers: Seq::<usize>::empty(),
                    max_workers: MAX_TARGETS_PER_JOB,
                },
            ));
            assert forall|k: int| 0 <= k < m1.settlers.len() implies #[trigger] m1.settler_wf(
                k,
            ) by {
                assert(m0.settler_wf(k));
                match m0.settlers[k].current_target {
                    Some(j2) => {
                        assert(m1.blueprints[j2 as int] == m0.blueprints[j2 as int]);
                    },
                    None => {},
                }
            }
            assert forall|j2: int| 0 <= j2 < m1.blueprints.len() implies #[trigger] m1.blueprint_wf(
                j2,
            ) by {
                if j2 < m0.blueprints.len() {
                    assert(m0.blueprint_wf(j2));
                    assert(m1.blueprints[j2] == m0.blueprints[j2]);
                }
            }
        }
        j
    }

    /// Hands settler `i` a fresh plan over `steps`; the upstream scoring
    /// layer decides when to call this.
    pub fn assign_plan(&mut self, i: usize, steps: Vec<PlanStep>)
        requires
            old(self).wf(),
            i < old(self)@.settlers.len(),
        ensures
            final(self)@ == with_settler(
                old(self)@,
                i as int,
                SettlerModel {
                    plan: Some(
                        PlanModel {
                            steps: steps@,
                            cursor: 0,
                            active: None,
                            status: PlanStatus::Running,
                            cancel_requested: false,
                        },
                    ),
                    ..old(self)@.settlers[i as int]
                },
            ),
            final(self).wf(),
    {
        let ghost m0 = self@;
        let ghost s2 = SettlerModel {
            plan: Some(
                PlanModel {
                    steps: steps@,
                    cursor: 0,
                    active: None,
                    status: PlanStatus::Running,
                    cancel_requested: false,
                },
            ),
            ..m0.settlers[i as int]
        };
        proof {
            assert(m0.settler_wf(i as int));
            lemma_with_settler_wf(m0, i as int, s2);
        }
        let p = crate::components::Plan::new(steps);
        let s = settler_mut(self, i);
        s.plan = Some(p);
        proof {
            lemma_settlers_view_update(old(self).settlers@, i as int, *s);
            assert(self@.settlers =~= with_settler(m0, i as int, s2).settlers);
            assert(self@ =~= with_settler(m0, i as int, s2));
        }
    }

    /// Requests cooperative cancellation of settler `i`'s plan; a no-op when
    /// the settler runs none.
    pub fn cancel_plan(&mut self, i: usize)
        requires
            old(self).wf(),
            i < old(self)@.settlers.len(),
        ensures
            old(self)@.settlers[i as int].plan is Some ==> final(self)@ == with_settler(
                old(self)@,
                i as int,
                SettlerModel {
                    plan: Some(
                        PlanModel {
                            cancel_requested: true,
                            ..old(self)@.settlers[i as int].plan->Some_0
                        },
                    ),
                    ..old(self)@.settlers[i as int]
                },
            ),
            old(self)@.settlers[i as int].plan is None ==> final(self)@ == old(self)@,
            final(self).wf(),
    {
        let ghost m0 = self@;
        proof {
            assert(m0.settler_wf(i as int));
            if m0.settlers[i as int].plan is Some {
                lemma_with_settler_wf(
                    m0,
                    i as int,
                    SettlerModel {
                        plan: Some(
                            PlanModel {
                                cancel_requested: true,
                                ..m0.settlers[i as int].plan->Some_0
                            },
                        ),
                        ..m0.settlers[i as int]
                    },
                );
            }
        }
        let s = settler_mut(self, i);
        match &mut s.plan {
            Some(p) => {
                p.cancel();
            },
            None => {},
        }
        proof {
            lemma_settlers_view_update(old(self).settlers@, i as int, *s);
            if m0.settlers[i as int].plan is Some {
                let s2 = SettlerModel {
                    plan: Some(
                        PlanModel {
                            cancel_requested: true,
                            ..m0.settlers[i as int].plan->Some_0
                        },
                    ),
                    ..m0.settlers[i as int]
                };
                assert(self@.settlers =~= with_settler(m0, i as int, s2).settlers);
                assert(self@ =~= with_settler(m0, i as int, s2));
            } else {
                assert(self@.settlers =~= m0.settlers);
                assert(self@ =~= m0);
            }
        }
    }

    /// Advances the whole simulation by one tick: every settler decides
    /// against the committed snapshot, then the decisions are committed in
    /// settler order. Returns the events of blueprints finished this tick.
    pub fn tick(&mut self) -> (events: Vec<BlueprintFinished>)
        requires
            old(self).wf(),
        ensures
            final(self)@ == tick_model(old(self)@).0,
            events@ == tick_model(old(self)@).1,
            final(self).wf(),
            final(self)@.settlers.len() == old(self)@.settlers.len(),
            final(self)@.blueprints.len() == old(self)@.blueprints.len(),
            final(self)@.ticks_per_second == old(self)@.ticks_per_second,
    {
        let ghost m0 = self@;
        let n = self.settlers.len();
        proof {
            assert(n == m0.settlers.len());
        }
        let mut ds: Vec<TickDecision> = Vec::new();
        let mut i: usize = 0;
        while i < n
            invariant
                0 <= i <= n,
                self@ == m0,
                m0.wf(),
                n == m0.settlers.len(),
                ds@.len() == i,
                forall|k: int| 0 <= k < i ==> ds@[k] == decide(m0, k),
            decreases n - i,
        {
            let d = decide_one(self, i);
            ds.push(d);
            i = i + 1;
        }
        proof {
            assert(ds@ =~= decisions(m0));
            assert forall|k: int| 0 <= k < ds@.len() implies #[trigger] decision_ok(
                m0,
                k,
                ds@[k],
            ) by {
                lemma_decide_ok(m0, k);
            }
        }
        let mut events: Vec<BlueprintFinished> = Vec::new();
        let mut i2: usize = 0;
        while i2 < n
            invariant
                0 <= i2 <= n,
                self@.wf(),
                n == self@.settlers.len(),
                self@.blueprints.len() == m0.blueprints.len(),
                self@.ticks_per_second == m0.ticks_per_second,
                ds@ == decisions(m0),
                ds@.len() == n,
                forall|k: int| i2 <= k < n ==> #[trigger] decision_ok(self@, k, ds@[k]),
                tick_model(m0).0 == commit_from(self@, ds@, i2 as int).0,
                tick_model(m0).1 == events@ + commit_from(self@, ds@, i2 as int).1,
            decreases n - i2,
        {
            let ghost mpre = self@;
            let ghost evpre = events@;
            let d = ds[i2];
            commit_one_ex(self, i2, d, &mut events);
            proof {
                lemma_commit_one(mpre, i2 as int, d);
                let (m1, ev1) = commit_one(mpre, i2 as int, d);
                assert(self@ == m1);
                assert forall|k: int| i2 + 1 <= k < n implies #[trigger] decision_ok(
                    self@,
                    k,
                    ds@[k],
                ) by {
                    assert(decision_ok(mpre, k, ds@[k]));
                    assert(m1.settlers[k] == mpre.settlers[k]);
                }
                let (mf, evf) = commit_from(m1, ds@, i2 + 1);
                assert(commit_from(mpre, ds@, i2 as int).0 == mf);
                assert(commit_from(mpre, ds@, i2 as int).1 == ev1 + evf);
                assert((evpre + ev1) + evf =~= evpre + (ev1 + evf));
            }
            i2 = i2 + 1;
        }
        proof {
            assert(commit_from(self@, ds@, n as int).0 == self@);
            assert(commit_from(self@, ds@, n as int).1 == Seq::<BlueprintFinished>::empty());
            assert(events@ + Seq::<BlueprintFinished>::empty() =~= events@);
        }
        events
    }

    /// The straight-line motion integrator: applies every pending
    /// displacement to its settler's position and clears the intents.
    pub fn apply_motion(&mut self)
        requires
            old(self).wf(),
        ensures
            final(self)@ == motion_applied(old(self)@),
            final(self).wf(),
    {
        let ghost m0 = self@;
        proof {
            lemma_motion_applied_wf(m0);
        }
        let n = self.settlers.len();
        let mut i: usize = 0;
        while i < n
            invariant
                0 <= i <= n,
                n == self@.settlers.len(),
                n == m0.settlers.len(),
                self@.ticks_per_second == m0.ticks_per_second,
                self@.blueprints == m0.blueprints,
                m0.wf(),
                forall|k: int| i <= k < n ==> self@.settlers[k] == m0.settlers[k],
                forall|k: int|
                    0 <= k < i ==> self@.settlers[k] == motion_applied(m0).settlers[k],
            decreases n - i,
        {
            proof {
                assert(m0.settler_wf(i as int));
            }
            let mv = self.settlers[i].motion;
            match mv {
                None => {
                    proof {
                        assert(self@.settlers[i as int] == motion_applied(m0).settlers[i as int]);
                    }
                },
                Some(step) => {
                    let pos = self.settlers[i].position;
                    let np = pos.translated(step);
                    let ghost vpre = self.settlers@;
                    let s = settler_mut(self, i);
                    s.position = np;
                    s.motion = None;
                    proof {
                        lemma_settlers_view_update(vpre, i as int, *s);
                    }
                },
            }
            i = i + 1;
        }
        proof {
            assert(self@.settlers =~= motion_applied(m0).settlers);
            assert(self@ =~= motion_applied(m0));
        }
    }
}

} // verus!
