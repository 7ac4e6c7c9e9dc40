use vstd::prelude::*;

use crate::drops::{lemma_total_nonneg, lemma_total_zero};
use crate::env::{waters, Environment};

verus! {

/// Every drop is accounted for: after `drops` drops per column fall on a dry
/// relief of `n` columns, the pooled water and the leftover that `rain`
/// reports add up to `n * drops`, so with no leftover exactly `n * drops`
/// drops are pooled. That the leftover is 0 is not stated here.
pub proof fn lemma_rain_accounts_for_every_drop(
    before: Environment,
    after: Environment,
    drops: u64,
    leftover: u64,
)
    requires
        before.wf(),
        before.water_total() == 0,
        before.rained(&after, drops, leftover),
    ensures
        after.water_total() + leftover == before.n() * drops,
        leftover == 0 ==> after.water_total() == before.n() * drops,
{
}

/// No column ever holds a negative amount of water.
pub proof fn lemma_water_nonneg(env: Environment)
    ensures
        forall|i: int| 0 <= i < env.n() ==> #[trigger] env.cols()[i].water >= 0,
        env.water_total() >= 0,
{
    lemma_total_nonneg(waters(env.cols()));
}

/// Water never sinks into the terrain: every water level is at least the
/// column's height, and equals it exactly where no water lies.
pub proof fn lemma_level_on_terrain(env: Environment)
    ensures
        forall|i: int|
            1 <= i <= env.n() ==> #[trigger] env.level_at(i) >= env.cols()[i - 1].height_drops(),
        forall|i: int|
            1 <= i <= env.n() && env.cols()[i - 1].water == 0 ==> #[trigger] env.level_at(i)
                == env.cols()[i - 1].height_drops(),
{
}

/// With no rain, a dry relief stays dry and nothing is left over.
pub proof fn lemma_no_rain_stays_dry(before: Environment, after: Environment, leftover: u64)
    requires
        before.wf(),
        before.water_total() == 0,
        before.rained(&after, 0, leftover),
    ensures
        leftover == 0,
        forall|i: int| 0 <= i < after.n() ==> #[trigger] after.cols()[i].water == 0,
{
    assert(before.n() * 0 == 0) by (nonlinear_arith);
    lemma_total_nonneg(waters(after.cols()));
    lemma_total_zero(waters(after.cols()));
    assert forall|i: int| 0 <= i < after.n() implies #[trigger] after.cols()[i].water == 0 by {
        assert(waters(after.cols())[i] == after.cols()[i].water);
    }
}

/// Water is held between higher ground: for every wet interior column `i`
/// there are positions `j <= i` and `k >= i`, the walls included, whose
/// terrain stands at least as high as the water level at `i`.
pub proof fn lemma_water_contained(env: Environment, i: int)
    requires
        env.wf(),
        1 <= i <= env.n(),
        env.cols()[i - 1].water > 0,
    ensures
        exists|j: int| 0 <= j <= i && #[trigger] env.height_at(j) >= env.level_at(i),
        exists|k: int| i <= k <= env.n() + 1 && #[trigger] env.height_at(k) >= env.level_at(i),
{
    env.lemma_held_at(i);
}

} // verus!
