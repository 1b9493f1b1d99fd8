//! The target selector: among all eligible blueprints, the one nearest to a
//! settler, with ties broken by the lowest index.

use vstd::prelude::*;
use crate::vec2::{Vec2i, dist_sq, dist_sq_ex};
use crate::components::{Blueprint, BlueprintModel, PROGRESS_ONE};

verus! {

/// The models of a list of blueprints.
pub open spec fn views_of(bps: Seq<Blueprint>) -> Seq<BlueprintModel> {
    bps.map_values(|b: Blueprint| b@)
}

/// A blueprint may be selected by `agent` only while it is unfinished and
/// either below its worker capacity or already claimed by that agent. The
/// own-claim exception is what lets a claim survive re-selection: a worker of
/// a blueprint at capacity (for instance one whose move step kept its claim
/// for the following work step) must still resolve that blueprint, or it
/// would abandon it the moment the last slot filled.
pub open spec fn blueprint_eligible(agent: usize, b: BlueprintModel) -> bool {
    &&& b.process < PROGRESS_ONE
    &&& (b.workers.len() < b.max_workers || b.workers.contains(agent))
}

/// The index `agent` selects among the first `n` blueprints: the eligible
/// one nearest to `pos`, earliest index on ties.
pub open spec fn select_prefix(agent: usize, pos: Vec2i, bps: Seq<BlueprintModel>, n: int) -> Option<
    int,
>
    decreases n,
{
    if n <= 0 {
        None
    } else {
        let prev = select_prefix(agent, pos, bps, n - 1);
        if !blueprint_eligible(agent, bps[n - 1]) {
            prev
        } else {
            match prev {
                None => Some(n - 1),
                Some(k) => if dist_sq(pos, bps[n - 1].position) < dist_sq(pos, bps[k].position) {
                    Some(n - 1)
                } else {
                    Some(k)
                },
            }
        }
    }
}

/// The blueprint the settler `agent` standing at `pos` selects, if any is
/// eligible to it.
pub open spec fn select_target(agent: usize, pos: Vec2i, bps: Seq<BlueprintModel>) -> Option<int> {
    select_prefix(agent, pos, bps, bps.len() as int)
}

proof fn lemma_select_prefix_props(agent: usize, pos: Vec2i, bps: Seq<BlueprintModel>, n: int)
    requires
        0 <= n <= bps.len(),
    ensures
        select_prefix(agent, pos, bps, n) is None ==> forall|k: int|
            0 <= k < n ==> !blueprint_eligible(agent, bps[k]),
        select_prefix(agent, pos, bps, n) matches Some(j) ==> {
            &&& 0 <= j < n
            &&& blueprint_eligible(agent, bps[j])
            &&& forall|k: int|
                0 <= k < n && blueprint_eligible(agent, bps[k]) ==> dist_sq(pos, bps[j].position)
                    <= dist_sq(pos, bps[k].position)
            &&& forall|k: int|
                0 <= k < j && blueprint_eligible(agent, bps[k]) ==> dist_sq(pos, bps[j].position)
                    < dist_sq(pos, bps[k].position)
        },
    decreases n,
{
    if n > 0 {
        lemma_select_prefix_props(agent, pos, bps, n - 1);
    }
}

/// What the selection returns: `None` exactly when no blueprint is eligible;
/// otherwise an eligible blueprint at minimal squared distance, and the
/// first such index.
pub proof fn lemma_select_target_props(agent: usize, pos: Vec2i, bps: Seq<BlueprintModel>)
    ensures
        select_target(agent, pos, bps) is None ==> forall|k: int|
            0 <= k < bps.len() ==> !blueprint_eligible(agent, bps[k]),
        select_target(agent, pos, bps) matches Some(j) ==> {
            &&& 0 <= j < bps.len()
            &&& blueprint_eligible(agent, bps[j])
            &&& forall|k: int|
                0 <= k < bps.len() && blueprint_eligible(agent, bps[k]) ==> dist_sq(
                    pos,
                    bps[j].position,
                ) <= dist_sq(pos, bps[k].position)
            &&& forall|k: int|
                0 <= k < j && blueprint_eligible(agent, bps[k]) ==> dist_sq(pos, bps[j].position)
                    < dist_sq(pos, bps[k].position)
        },
{
    lemma_select_prefix_props(agent, pos, bps, bps.len() as int);
}

/// Scans the blueprints for the settler `agent` and picks the nearest
/// eligible one, the earliest index on ties; `None` when none is eligible.
pub fn find_closest_blueprint(agent: usize, position: Vec2i, blueprints: &Vec<Blueprint>) -> (r:
    Option<usize>)
    requires
        position.in_bounds(),
        forall|k: int| 0 <= k < blueprints@.len() ==> blueprints@[k]@.position.in_bounds(),
    ensures
        ({
            let sel = select_target(agent, position, views_of(blueprints@));
            &&& (sel is None ==> r is None)
            &&& (sel matches Some(j) ==> r == Some(j as usize))
            &&& (r matches Some(u) ==> sel == Some(u as int))
        }),
{
    let ghost bvs = views_of(blueprints@);
    let mut best: Option<usize> = None;
    let mut best_d2: i64 = 0;
    let mut j: usize = 0;
    while j < blueprints.len()
        invariant
            0 <= j <= blueprints@.len(),
            position.in_bounds(),
            forall|k: int| 0 <= k < blueprints@.len() ==> blueprints@[k]@.position.in_bounds(),
            bvs == views_of(blueprints@),
            select_prefix(agent, position, bvs, j as int) is None ==> best is None,
            select_prefix(agent, position, bvs, j as int) matches Some(k) ==> best == Some(
                k as usize,
            ) && best_d2 == dist_sq(position, bvs[k].position),
        decreases blueprints@.len() - j,
    {
        let bp = &blueprints[j];
        let eligible = bp.building_process.process < PROGRESS_ONE && (
        bp.job_target.current_workers.len() < bp.job_target.max_workers
            || bp.job_target.is_claimed_by(agent));
        proof {
            assert(bvs[j as int] == blueprints@[j as int]@);
        }
        if eligible {
            let d2 = dist_sq_ex(position, bp.position);
            match best {
                None => {
                    best = Some(j);
                    best_d2 = d2;
                },
                Some(_) => {
                    if d2 < best_d2 {
                        best = Some(j);
                        best_d2 = d2;
                    }
                },
            }
        }
        j = j + 1;
    }
    proof {
        assert(bvs.len() == blueprints@.len());
        lemma_select_target_props(agent, position, bvs);
        if best matches Some(u) {
            let sel = select_target(agent, position, bvs);
            assert(sel matches Some(k) && 0 <= k < blueprints@.len() && best == Some(k as usize));
        }
    }
    best
}

} // verus!
