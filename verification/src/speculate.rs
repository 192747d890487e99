//! Speculative branching: picking a winner among candidate runs and
//! recording every candidate as a branch of one `speculate` step.

use vstd::prelude::*;
use crate::binary64::{self, Binary64};
use crate::ids;
use crate::step::{Branch, BranchOutcome, Step};

verus! {

/// `-inf`, below every score.
pub const NEG_INFINITY: u64 = 0xfff0_0000_0000_0000u64;

/// `s` can win: it is a number above `-inf`.
pub open spec fn contender(s: Binary64) -> bool {
    binary64::lt(NEG_INFINITY, s)
}

/// `i` is the position of the first strictly greatest score. If no score
/// is a number above `-inf`, that position is `0`.
pub open spec fn is_first_max(scores: Seq<Binary64>, i: int) -> bool {
    &&& 0 <= i < scores.len()
    &&& (exists|j: int| 0 <= j < scores.len() && contender(#[trigger] scores[j])) ==> {
        &&& contender(scores[i])
        &&& forall|j: int| 0 <= j < scores.len() ==> !binary64::lt(scores[i], #[trigger] scores[j])
        &&& forall|j: int| 0 <= j < i && contender(#[trigger] scores[j]) ==> binary64::lt(scores[j], scores[i])
    }
    &&& (forall|j: int| 0 <= j < scores.len() ==> !contender(#[trigger] scores[j])) ==> i == 0
}

/// The position of the first strictly greatest score: ties keep the
/// earliest candidate, and a `NaN` never wins.
pub fn first_max_index(scores: &Vec<Binary64>) -> (i: usize)
    requires
        scores@.len() > 0,
    ensures
        is_first_max(scores@, i as int),
{
    let mut winner: usize = 0;
    let mut best: u64 = NEG_INFINITY;
    let mut k: usize = 0;
    while k < scores.len()
        invariant
            k <= scores@.len(),
            scores@.len() > 0,
            winner < scores@.len(),
            winner <= k,
            (exists|j: int| 0 <= j < k && contender(#[trigger] scores@[j])) ==> {
                &&& best == scores@[winner as int]
                &&& contender(best)
                &&& forall|j: int| 0 <= j < k ==> !binary64::lt(best, #[trigger] scores@[j])
                &&& forall|j: int|
                    0 <= j < winner && contender(#[trigger] scores@[j]) ==> binary64::lt(scores@[j], best)
            },
            (forall|j: int| 0 <= j < k ==> !contender(#[trigger] scores@[j])) ==> winner == 0 && best
                == NEG_INFINITY,
        decreases scores@.len() - k,
    {
        let s = scores[k];
        if binary64::less_than(best, s) {
            best = s;
            winner = k;
        }
        proof {
            if exists|j: int| 0 <= j < k + 1 && contender(#[trigger] scores@[j]) {
                if !(exists|j: int| 0 <= j < k && contender(#[trigger] scores@[j])) {
                    assert(contender(scores@[k as int]));
                }
            }
        }
        k = k + 1;
    }
    winner
}

/// What the candidate at `i` is recorded as, when `winner` won: `Taken`
/// for the winner; otherwise `Rejected`, with the candidate's failure text
/// if it failed, else "lower confidence than winner".
pub open spec fn branch_outcome_ok(b: Branch, i: int, winner: int, failure: Option<String>) -> bool {
    if i == winner {
        b.outcome is Taken
    } else {
        b.outcome matches BranchOutcome::Rejected { reason } && reason@ == match failure {
            Some(f) => f@,
            None => "lower confidence than winner"@,
        }
    }
}

/// The `speculate` step: a fresh step with nothing recorded but one branch
/// per candidate, in candidate order, each labelled with the candidate's
/// label, marked as `branch_outcome_ok` says, and carrying the candidate's
/// score clamped into `[0.0, 1.0]`.
pub fn speculation_step(
    labels: &Vec<String>,
    failures: &Vec<Option<String>>,
    scores: &Vec<Binary64>,
    winner: usize,
) -> (step: Step)
    requires
        labels@.len() == failures@.len(),
        labels@.len() == scores@.len(),
        winner < labels@.len(),
    ensures
        step.name@ == "speculate"@,
        ids::is_random_uuid(step.id),
        step.started_at.clock_reading(),
        step.outcome is Taken,
        step.confidence is None,
        step.duration is None,
        step.notes is None,
        step.cost is None,
        step.branches@.len() == labels@.len(),
        forall|i: int|
            0 <= i < labels@.len() ==> {
                let b = #[trigger] step.branches@[i];
                &&& b.label@ == labels@[i]@
                &&& branch_outcome_ok(b, i, winner as int, failures@[i])
                &&& b.confidence == Some(binary64::clamp_unit_spec(scores@[i]))
            },
{
    let mut step = Step::named("speculate");
    let mut branches: Vec<Branch> = Vec::new();
    let mut i: usize = 0;
    while i < labels.len()
        invariant
            labels@.len() == failures@.len(),
            labels@.len() == scores@.len(),
            winner < labels@.len(),
            i <= labels@.len(),
            branches@.len() == i,
            forall|j: int|
                0 <= j < i ==> {
                    let b = #[trigger] branches@[j];
                    &&& b.label@ == labels@[j]@
                    &&& branch_outcome_ok(b, j, winner as int, failures@[j])
                    &&& b.confidence == Some(binary64::clamp_unit_spec(scores@[j]))
                },
        decreases labels@.len() - i,
    {
        let label = labels[i].as_str();
        let branch = if i == winner {
            Branch::taken(label)
        } else {
            match &failures[i] {
                Some(f) => Branch::rejected(label, f.as_str()),
                None => {
                    proof {
                        reveal_strlit("lower confidence than winner");
                    }
                    Branch::rejected(label, "lower confidence than winner")
                },
            }
        };
        branches.push(branch.with_confidence(scores[i]));
        i = i + 1;
    }
    step.branches = branches;
    step
}

} // verus!
