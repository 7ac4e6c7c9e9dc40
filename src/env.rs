use vstd::prelude::*;

use crate::bank::RainBank;
use crate::column::{Column, MAX_HEIGHT_DROPS};
use crate::model::{
    downwards_step, drive, flow_step, l_plateau_step, level_in, peak_step, raise, rain_outcome,
    s_plateau_step, scan, valley_step,
};
use crate::render::{cell, grid, top_units};
use crate::drops::{
    drops_total, lemma_entry_le_total, lemma_total_nonneg, lemma_total_update, uniform,
};

verus! {

/// Level of the walls at both ends, in drops: above every interior level.
pub const WALL_LEVEL: u64 = 18446744073709551615;

/// Most water, in drops, that an environment holds at once, pooled or pending.
pub const WATER_BUDGET: u64 = 4611686018427387904;

/// Number of flow steps one call of `rain` may spend before it gives up and
/// reports what it could not place.
pub const STEP_BUDGET: u64 = 16777216;

/// Local shape of the terrain at a column, read from the water levels of the
/// column and its two neighbours.
#[derive(PartialEq, Eq, Structural, Clone, Copy, Debug)]
pub enum Topology {
    /// Both neighbours are higher.
    Valley,
    /// Both neighbours are lower.
    Peak,
    /// The right neighbour is lower and the left one is not.
    Downwards,
    /// A rise from the left onto a flat stretch.
    SPlateau,
    /// A drop from the left onto a flat stretch.
    LPlateau,
    /// The terrain rises from left to right through the column.
    Uphill,
    /// Level with the left neighbour, and the right one is not lower.
    Level,
}

/// The topology of a column at level `curr` between `prev` and `next`.
pub open spec fn topology_of(prev: int, curr: int, next: int) -> Topology {
    if prev > curr && next > curr {
        Topology::Valley
    } else if prev < curr && next < curr {
        Topology::Peak
    } else if prev >= curr && next < curr {
        Topology::Downwards
    } else if prev < curr && next == curr {
        Topology::SPlateau
    } else if prev > curr && next == curr {
        Topology::LPlateau
    } else if prev < curr && next > curr {
        Topology::Uphill
    } else {
        Topology::Level
    }
}

/// Classifies a column by the water levels of itself and its neighbours.
pub fn classify(prev: u64, curr: u64, next: u64) -> (t: Topology)
    ensures
        t == topology_of(prev as int, curr as int, next as int),
        t == Topology::Level ==> prev == curr && next >= curr,
{
    if prev > curr && next > curr {
        Topology::Valley
    } else if prev < curr && next < curr {
        Topology::Peak
    } else if prev >= curr && next < curr {
        Topology::Downwards
    } else if prev < curr && next == curr {
        Topology::SPlateau
    } else if prev > curr && next == curr {
        Topology::LPlateau
    } else if prev < curr && next > curr {
        Topology::Uphill
    } else {
        Topology::Level
    }
}

/// Water of each column, in drops.
pub open spec fn waters(cols: Seq<Column>) -> Seq<u64> {
    cols.map_values(|c: Column| c.water)
}

/// A relief between two walls, the water pooled on it and the rain still
/// waiting to fall on each interior column.
///
/// Positions count the walls: position 0 is the left wall, positions
/// `1..=n` are the interior columns and position `n + 1` is the right wall.
pub struct Environment {
    columns: Vec<Column>,
    bank: RainBank,
}

impl Environment {
    /// The interior columns, left to right.
    pub closed spec fn cols(&self) -> Seq<Column> {
        self.columns@
    }

    /// Rain not yet taken up, one entry per interior column.
    pub closed spec fn pending(&self) -> Seq<u64> {
        self.bank@
    }

    /// Number of interior columns.
    pub open spec fn n(&self) -> nat {
        self.cols().len()
    }

    /// Water level at a position, walls included.
    pub open spec fn level_at(&self, pos: int) -> int {
        level_in(self.cols(), pos)
    }

    /// Terrain height at a position in drops, walls included.
    pub open spec fn height_at(&self, pos: int) -> int {
        if pos <= 0 || pos >= self.n() + 1 {
            WALL_LEVEL as int
        } else {
            self.cols()[pos - 1].height_drops()
        }
    }

    /// Some ground at or left of `pos` stands at least as high as the water
    /// level at `pos`.
    pub open spec fn held_left(&self, pos: int) -> bool {
        exists|j: int| 0 <= j <= pos && #[trigger] self.height_at(j) >= self.level_at(pos)
    }

    /// Some ground at or right of `pos` stands at least as high as the water
    /// level at `pos`.
    pub open spec fn held_right(&self, pos: int) -> bool {
        exists|k: int| pos <= k <= self.n() + 1 && #[trigger] self.height_at(k) >= self.level_at(pos)
    }

    /// Every interior water level is held by ground on both sides.
    pub open spec fn contained(&self) -> bool {
        forall|i: int| 1 <= i <= self.n() ==> #[trigger] self.held_left(i) && self.held_right(i)
    }

    /// Water pooled on the interior columns.
    pub open spec fn water_total(&self) -> int {
        drops_total(waters(self.cols()))
    }

    /// Water pooled plus water still pending in the bank.
    pub open spec fn total(&self) -> int {
        self.water_total() + drops_total(self.pending())
    }

    /// One bank entry per column, positions that fit in `usize`, all water
    /// within `WATER_BUDGET`, and every level held by the terrain.
    pub open spec fn wf(&self) -> bool {
        &&& self.pending().len() == self.n()
        &&& self.n() + 2 <= usize::MAX
        &&& self.total() <= WATER_BUDGET
        &&& self.contained()
    }

    /// `later` comes from `self` by pouring water and claiming rain: the same
    /// terrain, no water removed, and each bank entry kept or emptied.
    pub open spec fn evolves(&self, later: &Self) -> bool {
        &&& later.n() == self.n()
        &&& later.pending().len() == self.pending().len()
        &&& forall|i: int|
            0 <= i < self.n() ==> #[trigger] later.cols()[i].height == self.cols()[i].height
                && later.cols()[i].water >= self.cols()[i].water
        &&& forall|i: int|
            0 <= i < self.pending().len() ==> #[trigger] later.pending()[i] == self.pending()[i]
                || later.pending()[i] == 0
    }

    /// No column left of position `pos`, nor its pending rain, differs
    /// between `self` and `later`.
    pub open spec fn untouched_before(&self, later: &Self, pos: int) -> bool {
        forall|i: int|
            0 <= i < pos - 1 && i < self.n() ==> #[trigger] later.cols()[i] == self.cols()[i]
                && later.pending()[i] == self.pending()[i]
    }

    /// `later` comes from `self` by moving `water` drops in flight from `pos`
    /// rightwards, of which `back` were handed back: nothing was created or
    /// lost, and nothing left of `pos` was touched.
    pub open spec fn moved(&self, later: &Self, pos: int, water: u64, back: u64) -> bool {
        &&& later.wf()
        &&& self.evolves(later)
        &&& self.untouched_before(later, pos)
        &&& later.total() + back == self.total() + water
    }

    pub proof fn lemma_evolves_trans(a: &Self, b: &Self, c: &Self)
        requires
            a.evolves(b),
            b.evolves(c),
        ensures
            a.evolves(c),
    {
        assert forall|i: int| 0 <= i < a.n() implies #[trigger] c.cols()[i].height
            == a.cols()[i].height && c.cols()[i].water >= a.cols()[i].water by {
            assert(b.cols()[i].height == a.cols()[i].height);
            assert(c.cols()[i].height == b.cols()[i].height);
        }
        assert forall|i: int| 0 <= i < a.pending().len() implies #[trigger] c.pending()[i]
            == a.pending()[i] || c.pending()[i] == 0 by {
            assert(b.pending()[i] == a.pending()[i] || b.pending()[i] == 0);
            assert(c.pending()[i] == b.pending()[i] || c.pending()[i] == 0);
        }
    }

    /// Two steps that each leave everything left of their start alone leave
    /// alone everything left of the leftmost start.
    pub proof fn lemma_chain(a: &Self, b: &Self, c: &Self, pos: int, pb: int, pc: int)
        requires
            a.evolves(b),
            b.evolves(c),
            a.untouched_before(b, pb),
            b.untouched_before(c, pc),
            pos <= pb,
            pos <= pc,
        ensures
            a.evolves(c),
            a.untouched_before(c, pos),
    {
        Self::lemma_evolves_trans(a, b, c);
        assert forall|i: int| 0 <= i < pos - 1 && i < a.n() implies #[trigger] c.cols()[i]
            == a.cols()[i] && c.pending()[i] == a.pending()[i] by {
            assert(b.cols()[i] == a.cols()[i]);
            assert(c.cols()[i] == b.cols()[i]);
        }
    }

    pub proof fn lemma_untouched_weaken(a: &Self, b: &Self, pos: int, wider: int)
        requires
            a.untouched_before(b, wider),
            pos <= wider,
        ensures
            a.untouched_before(b, pos),
    {
        assert forall|i: int| 0 <= i < pos - 1 && i < a.n() implies #[trigger] b.cols()[i]
            == a.cols()[i] && b.pending()[i] == a.pending()[i] by {
            assert(b.cols()[i] == a.cols()[i]);
        }
    }

    pub proof fn lemma_totals_nonneg(&self)
        ensures
            self.water_total() >= 0,
            drops_total(self.pending()) >= 0,
            self.total() >= self.water_total(),
    {
        lemma_total_nonneg(waters(self.cols()));
        lemma_total_nonneg(self.pending());
    }

    /// Levels, heights and containment depend on the columns alone.
    pub proof fn lemma_same_cols(a: &Self, b: &Self)
        requires
            a.cols() == b.cols(),
        ensures
            a.contained() ==> b.contained(),
            forall|p: int| #[trigger] b.level_at(p) == a.level_at(p),
            forall|p: int| #[trigger] b.height_at(p) == a.height_at(p),
    {
        if a.contained() {
            assert forall|i: int| 1 <= i <= b.n() implies #[trigger] b.held_left(i)
                && b.held_right(i) by {
                a.lemma_held_at(i);
                let j = choose|j: int| 0 <= j <= i && #[trigger] a.height_at(j) >= a.level_at(i);
                let k = choose|k: int|
                    i <= k <= a.n() + 1 && #[trigger] a.height_at(k) >= a.level_at(i);
                assert(b.height_at(j) >= b.level_at(i));
                assert(b.height_at(k) >= b.level_at(i));
            }
        }
    }

    /// The walls hold themselves, and the interior is held where `contained`.
    pub proof fn lemma_held_at(&self, pos: int)
        requires
            self.contained(),
            0 <= pos <= self.n() + 1,
        ensures
            self.held_left(pos),
            self.held_right(pos),
    {
        if pos == 0 || pos == self.n() + 1 {
            assert(self.height_at(pos) >= self.level_at(pos));
        }
    }

    /// Every interior level stays below the walls.
    pub proof fn lemma_level_bound(&self, i: int)
        requires
            self.wf(),
            0 <= i < self.n(),
        ensures
            self.cols()[i].level() <= MAX_HEIGHT_DROPS + WATER_BUDGET,
            self.cols()[i].water <= self.water_total(),
    {
        self.cols()[i].lemma_bounds();
        lemma_entry_le_total(waters(self.cols()), i);
        self.lemma_totals_nonneg();
    }

    /// A dry relief with an empty rain bank.
    pub fn new(relief: Vec<u32>) -> (env: Environment)
        requires
            relief.len() + 2 <= usize::MAX,
        ensures
            env.wf(),
            env.n() == relief.len(),
            forall|i: int| 0 <= i < relief.len() ==> (#[trigger] env.cols()[i]).height == relief[i],
            forall|i: int| 0 <= i < relief.len() ==> (#[trigger] env.cols()[i]).water == 0,
            env.pending() == uniform(relief.len() as nat, 0),
            env.total() == 0,
    {
        let mut columns: Vec<Column> = Vec::new();
        let mut i: usize = 0;
        while i < relief.len()
            invariant
                i <= relief.len(),
                columns.len() == i,
                forall|j: int| 0 <= j < i ==> (#[trigger] columns@[j]).height == relief[j],
                forall|j: int| 0 <= j < i ==> (#[trigger] columns@[j]).water == 0,
                waters(columns@) == uniform(i as nat, 0),
            decreases relief.len() - i,
        {
            columns.push(Column::new(relief[i]));
            i = i + 1;
            assert(waters(columns@) =~= uniform(i as nat, 0));
        }
        let bank = RainBank::new(relief.len(), 0);
        proof {
            crate::drops::lemma_total_uniform(relief.len() as nat, 0);
        }
        let env = Environment { columns, bank };
        proof {
            assert forall|i: int| 1 <= i <= env.n() implies #[trigger] env.held_left(i)
                && env.held_right(i) by {
                assert(env.height_at(i) >= env.level_at(i));
            }
        }
        env
    }

    /// Number of interior columns.
    pub fn len(&self) -> (r: usize)
        ensures
            r == self.n(),
    {
        self.columns.len()
    }

    /// Water level at `pos`, in drops; the walls read `WALL_LEVEL`.
    pub fn water_level(&self, pos: usize) -> (r: u64)
        requires
            self.wf(),
        ensures
            r == self.level_at(pos as int),
    {
        if pos == 0 || pos >= self.columns.len() + 1 {
            WALL_LEVEL
        } else {
            proof {
                self.lemma_level_bound(pos - 1);
            }
            self.columns[pos - 1].water_level()
        }
    }

    /// Water pooled at interior position `pos`, in drops.
    pub fn water(&self, pos: usize) -> (r: u64)
        requires
            1 <= pos <= self.n(),
        ensures
            r == self.cols()[pos - 1].water,
    {
        self.columns[pos - 1].water()
    }

    /// Pours `amount` drops onto the interior column at `pos`.
    /// The new level may rise no higher than the levels at `left` and `right`,
    /// so the ground holding those holds it too.
    fn pour(&mut self, pos: usize, amount: u64, Ghost(left): Ghost<int>, Ghost(right): Ghost<int>)
        requires
            old(self).wf(),
            1 <= pos <= old(self).n(),
            old(self).total() + amount <= WATER_BUDGET,
            0 <= left < pos < right <= old(self).n() + 1,
            old(self).level_at(pos as int) + amount <= old(self).level_at(left),
            old(self).level_at(pos as int) + amount <= old(self).level_at(right),
        ensures
            final(self).wf(),
            old(self).evolves(final(self)),
            final(self).total() == old(self).total() + amount,
            final(self).pending() == old(self).pending(),
            final(self).cols()[pos - 1].water == old(self).cols()[pos - 1].water + amount,
            forall|i: int|
                0 <= i < old(self).n() && i != pos - 1 ==> #[trigger] final(self).cols()[i]
                    == old(self).cols()[i],
            forall|p: int| p != pos ==> #[trigger] final(self).level_at(p) == old(self).level_at(p),
            final(self).level_at(pos as int) == old(self).level_at(pos as int) + amount,
            old(self).untouched_before(final(self), pos as int),
            final(self).cols() == old(self).cols().update(
                pos - 1,
                (Column {
                    height: old(self).cols()[pos - 1].height,
                    water: (old(self).cols()[pos - 1].water + amount) as u64,
                }),
            ),
    {
        proof {
            self.lemma_level_bound(pos - 1);
            self.lemma_totals_nonneg();
        }
        let mut c = self.columns[pos - 1];
        c.add_water(amount);
        self.columns.set(pos - 1, c);
        proof {
            lemma_total_update(waters(old(self).cols()), pos - 1, c.water);
            assert(waters(self.cols()) =~= waters(old(self).cols()).update(pos - 1, c.water));
            let ghost before = *old(self);
            assert forall|p: int| 0 <= p <= self.n() + 1 implies #[trigger] self.height_at(p)
                == before.height_at(p) by {
                if 1 <= p <= self.n() && p != pos {
                    assert(self.cols()[p - 1] == before.cols()[p - 1]);
                }
            }
            assert forall|p: int| p != pos implies #[trigger] self.level_at(p) == before.level_at(
                p,
            ) by {
                if 1 <= p <= self.n() {
                    assert(self.cols()[p - 1] == before.cols()[p - 1]);
                }
            }
            assert forall|i: int| 1 <= i <= self.n() implies #[trigger] self.held_left(i)
                && self.held_right(i) by {
                let (l, r) = if i == pos {
                    (left, right)
                } else {
                    (i, i)
                };
                before.lemma_held_at(l);
                before.lemma_held_at(r);
                let j = choose|j: int| 0 <= j <= l && #[trigger] before.height_at(j) >= before.level_at(l);
                let k = choose|k: int|
                    r <= k <= before.n() + 1 && #[trigger] before.height_at(k) >= before.level_at(r);
                assert(self.height_at(j) >= self.level_at(i));
                assert(self.height_at(k) >= self.level_at(i));
            }
        }
    }

    /// Takes the pending rain of the interior column at `pos` out of the bank.
    fn claim_at(&mut self, pos: usize) -> (r: u64)
        requires
            old(self).wf(),
            1 <= pos <= old(self).n(),
        ensures
            final(self).wf(),
            old(self).evolves(final(self)),
            final(self).total() + r == old(self).total(),
            final(self).cols() == old(self).cols(),
            r == old(self).pending()[pos - 1],
            final(self).pending() == old(self).pending().update(pos - 1, 0),
            old(self).untouched_before(final(self), pos as int),
    {
        let r = self.bank.claim(pos - 1);
        proof {
            Self::lemma_same_cols(&*old(self), &*self);
        }
        r
    }

    /// Moves `water` drops in flight into the terrain starting at `pos`,
    /// taking up the pending rain of each column it visits, and returns the
    /// water it could not place to the right of `pos` together with the steps
    /// left of `steps`. Each call spends one step; with none left the water is
    /// handed back untouched, and so is water at or past the right wall.
    /// The columns, the bank and both results are exactly those of
    /// `flow_step`.
    pub fn flow(&mut self, pos: usize, water: u64, steps: u64) -> (r: (u64, u64))
        requires
            old(self).wf(),
            1 <= pos,
            old(self).total() + water <= WATER_BUDGET,
        ensures
            old(self).moved(final(self), pos as int, water, r.0),
            r.1 <= steps,
            steps > 0 ==> r.1 < steps,
            steps == 0 ==> r.0 == water && r.1 == 0 && *final(self) == *old(self),
            steps > 0 && pos >= old(self).n() + 1 ==> r.0 == water && r.1 == steps - 1
                && *final(self) == *old(self),
            (final(self).cols(), final(self).pending(), r.0 as int, r.1 as int) == flow_step(
                old(self).cols(),
                old(self).pending(),
                pos as int,
                water as int,
                steps as int,
            ),
        decreases steps, 2nat,
    {
        if steps == 0 {
            return (water, 0);
        }
        if pos >= self.columns.len() + 1 {
            return (water, steps - 1);
        }
        let got = self.claim_at(pos);
        let ghost mid = *self;
        proof {
            self.lemma_totals_nonneg();
        }
        let water = water + got;
        if water == 0 {
            let r = self.flow(pos + 1, 0, steps - 1);
            proof {
                Self::lemma_chain(&*old(self), &mid, &*self, pos as int, pos as int, pos + 1);
            }
            return r;
        }
        let prev = self.water_level(pos - 1);
        let curr = self.water_level(pos);
        let next = self.water_level(pos + 1);
        let r = match classify(prev, curr, next) {
            Topology::Valley => self.handle_valley(pos, water, prev - curr, next - curr, pos + 1, steps),
            Topology::Peak => self.handle_peak(pos, water, pos + 1, steps),
            Topology::Downwards => self.handle_downwards(pos, water, steps),
            Topology::SPlateau => self.handle_s_plateau(pos, water, steps),
            Topology::LPlateau => self.handle_l_plateau(pos, water, prev - curr, steps),
            Topology::Uphill => (water, steps - 1),
            Topology::Level => (water, steps - 1),
        };
        proof {
            Self::lemma_chain(&*old(self), &mid, &*self, pos as int, pos as int, pos as int);
        }
        r
    }

    /// Water striking a peak spanning `pos..end`: half runs back to the left,
    /// half flows on from `end`. Nothing pools on the peak.
    fn handle_peak(&mut self, pos: usize, water: u64, end: usize, steps: u64) -> (r: (u64, u64))
        requires
            old(self).wf(),
            1 <= pos < end <= old(self).n() + 1,
            old(self).total() + water <= WATER_BUDGET,
            steps > 0,
        ensures
            old(self).moved(final(self), pos as int, water, r.0),
            r.1 < steps,
            (final(self).cols(), final(self).pending(), r.0 as int, r.1 as int) == peak_step(
                old(self).cols(),
                old(self).pending(),
                pos as int,
                water as int,
                end as int,
                steps as int,
            ),
        decreases steps, 0nat,
    {
        let forward = water / 2;
        let back = water - forward;
        let (b, f) = self.flow(end, forward, steps - 1);
        proof {
            self.lemma_totals_nonneg();
            Self::lemma_untouched_weaken(&*old(self), &*self, pos as int, end as int);
        }
        (back + b, f)
    }

    /// Water on a slope that falls to the right runs down first; whatever
    /// comes back is placed again from `pos`.
    fn handle_downwards(&mut self, pos: usize, water: u64, steps: u64) -> (r: (u64, u64))
        requires
            old(self).wf(),
            1 <= pos <= old(self).n(),
            old(self).total() + water <= WATER_BUDGET,
            steps > 0,
        ensures
            old(self).moved(final(self), pos as int, water, r.0),
            r.1 < steps,
            (final(self).cols(), final(self).pending(), r.0 as int, r.1 as int) == downwards_step(
                old(self).cols(),
                old(self).pending(),
                pos as int,
                water as int,
                steps as int,
            ),
        decreases steps, 0nat,
    {
        let (b, f) = self.flow(pos + 1, water, steps - 1);
        let ghost mid = *self;
        let r = self.flow(pos, b, f);
        proof {
            Self::lemma_chain(&*old(self), &mid, &*self, pos as int, pos + 1, pos as int);
        }
        r
    }
    /// Water filling the flat-bottomed valley `pos..end`, whose rims stand
    /// `left_diff` and `right_diff` drops above its floor.
    ///
    /// Each valley column gets the same share, at most up to the lower rim.
    /// When there are fewer drops than columns, the first columns get one drop
    /// each. What is left spills over the lower rim: to the left it is handed
    /// back, to the right it flows on from `pos`, and over equal rims it is
    /// split between the two.
    fn handle_valley(
        &mut self,
        pos: usize,
        water: u64,
        left_diff: u64,
        right_diff: u64,
        end: usize,
        steps: u64,
    ) -> (r: (u64, u64))
        requires
            old(self).wf(),
            1 <= pos < end <= old(self).n() + 1,
            old(self).total() + water <= WATER_BUDGET,
            left_diff >= 1,
            right_diff >= 1,
            steps > 0,
            forall|p: int|
                pos <= p < end ==> #[trigger] old(self).level_at(p) == old(self).level_at(
                    pos as int,
                ),
            old(self).level_at(pos - 1) == old(self).level_at(pos as int) + left_diff,
            old(self).level_at(end as int) == old(self).level_at(pos as int) + right_diff,
        ensures
            old(self).moved(final(self), pos as int, water, r.0),
            r.1 < steps,
            (final(self).cols(), final(self).pending(), r.0 as int, r.1 as int) == valley_step(
                old(self).cols(),
                old(self).pending(),
                pos as int,
                water as int,
                left_diff as int,
                right_diff as int,
                end as int,
                steps as int,
            ),
        decreases steps, 0nat,
    {
        let width = (end - pos) as u64;
        let cap = if left_diff < right_diff { left_diff } else { right_diff };
        let even = water / width;
        let share = if even < cap { even } else { cap };
        let mut rest = water;
        let mut q = pos;
        let ghost floor = old(self).level_at(pos as int);
        let ghost c0 = old(self).cols();
        proof {
            assert(width * (water / width) <= water) by (nonlinear_arith)
                requires width > 0;
            assert(width * share <= width * even) by (nonlinear_arith)
                requires share <= even;
        }
        while q < end
            invariant
                1 <= pos <= q <= end,
                end <= old(self).n() + 1,
                old(self).total() + water <= WATER_BUDGET,
                self.wf(),
                self.n() == old(self).n(),
                old(self).evolves(self),
                old(self).untouched_before(self, pos as int),
                self.total() + rest == old(self).total() + water,
                rest >= (end - q) * share,
                rest + (q - pos) * share == water,
                share <= left_diff,
                share <= right_diff,
                forall|p: int| q <= p < end ==> #[trigger] self.level_at(p) == floor,
                forall|p: int| pos <= p < q ==> #[trigger] self.level_at(p) == floor + share,
                self.level_at(pos - 1) == floor + left_diff,
                self.level_at(end as int) == floor + right_diff,
                self.cols() == raise(c0, pos as int, q as int, share as int),
                self.pending() == old(self).pending(),
            decreases end - q,
        {
            proof {
                assert((end - q) * share == (end - q - 1) * share + share) by (nonlinear_arith);
                assert((end - q - 1) * share >= 0) by (nonlinear_arith)
                    requires q < end;
                assert((q + 1 - pos) * share == (q - pos) * share + share) by (nonlinear_arith);
                self.lemma_totals_nonneg();
            }
            let ghost before = *self;
            self.pour(q, share, Ghost((pos - 1) as int), Ghost(end as int));
            proof {
                Self::lemma_chain(&*old(self), &before, &*self, pos as int, pos as int, q as int);
                assert(self.cols() =~= raise(c0, pos as int, q + 1, share as int));
            }
            rest = rest - share;
            q = q + 1;
        }
        let ghost c1 = self.cols();
        let ghost odd = rest;
        if share < cap {
            proof {
                assert(share == even);
                assert(water - width * (water / width) < width) by (nonlinear_arith)
                    requires width > 0;
                assert(rest == water - width * share) by (nonlinear_arith)
                    requires rest + (end - pos) * share == water, width == end - pos;
            }
            let mut k = pos;
            while rest > 0
                invariant
                    rest <= odd,
                    odd < width,
                    share + 1 <= left_diff,
                    share + 1 <= right_diff,
                    k == pos + (odd - rest),
                    1 <= pos < end <= old(self).n() + 1,
                    width == end - pos,
                    old(self).total() + water <= WATER_BUDGET,
                    self.wf(),
                    self.n() == old(self).n(),
                    old(self).evolves(self),
                    old(self).untouched_before(self, pos as int),
                    self.total() + rest == old(self).total() + water,
                    forall|p: int| k <= p < end ==> #[trigger] self.level_at(p) == floor + share,
                    self.level_at(pos - 1) == floor + left_diff,
                    self.level_at(end as int) == floor + right_diff,
                    self.cols() == raise(c1, pos as int, k as int, 1),
                    self.pending() == old(self).pending(),
                decreases rest,
            {
                proof {
                    self.lemma_totals_nonneg();
                }
                let ghost before = *self;
                assert(self.level_at(k as int) == floor + share);
                self.pour(k, 1, Ghost((pos - 1) as int), Ghost(end as int));
                proof {
                    Self::lemma_chain(&*old(self), &before, &*self, pos as int, pos as int, k as int);
                    assert(self.cols() =~= raise(c1, pos as int, k + 1, 1));
                }
                rest = rest - 1;
                k = k + 1;
            }
        }
        let ghost filled = *self;
        proof {
            self.lemma_totals_nonneg();
            assert(odd == water - share * width) by (nonlinear_arith)
                requires odd + (end - pos) * share == water, width == end - pos;
        }
        if rest > 0 {
            if right_diff > left_diff {
                return (rest, steps - 1);
            } else if right_diff < left_diff {
                let r = self.flow(pos, rest, steps - 1);
                proof {
                    Self::lemma_chain(&*old(self), &filled, &*self, pos as int, pos as int, pos as int);
                }
                return r;
            }
            let forward = rest / 2;
            let back = rest - forward;
            let (b, f) = self.flow(end, forward, steps - 1);
            proof {
                Self::lemma_chain(&*old(self), &filled, &*self, pos as int, pos as int, end as int);
                self.lemma_totals_nonneg();
            }
            return (back + b, f);
        }
        let (b, f) = self.flow(end, 0, steps - 1);
        proof {
            Self::lemma_chain(&*old(self), &filled, &*self, pos as int, pos as int, end as int);
        }
        if b > 0 {
            let ghost drained = *self;
            let r = self.flow(pos, b, f);
            proof {
                Self::lemma_chain(&*old(self), &drained, &*self, pos as int, pos as int, pos as int);
            }
            return r;
        }
        (0, f)
    }

    /// Scans right from `pos` over the columns level with it, taking up their
    /// pending rain, and returns the first position that is not level with
    /// `pos` and the water gathered.
    fn scan_plateau(&mut self, pos: usize, water: u64) -> (r: (usize, u64))
        requires
            old(self).wf(),
            1 <= pos <= old(self).n(),
            old(self).total() + water <= WATER_BUDGET,
        ensures
            old(self).moved(final(self), pos as int, water, r.1),
            final(self).cols() == old(self).cols(),
            pos < r.0 <= old(self).n() + 1,
            old(self).level_at(r.0 as int) != old(self).level_at(pos as int),
            forall|p: int|
                pos <= p < r.0 ==> #[trigger] old(self).level_at(p) == old(self).level_at(
                    pos as int,
                ),
            (final(self).pending(), r.1 as int, r.0 as int) == scan(
                old(self).cols(),
                old(self).pending(),
                pos as int,
                pos + 1,
                water as int,
            ),
    {
        proof {
            self.lemma_level_bound(pos - 1);
        }
        let curr = self.water_level(pos);
        let mut acc = water;
        let mut end = pos + 1;
        while self.water_level(end) == curr
            invariant
                1 <= pos < end <= old(self).n() + 1,
                old(self).total() + water <= WATER_BUDGET,
                self.wf(),
                self.cols() == old(self).cols(),
                old(self).evolves(self),
                old(self).untouched_before(self, pos as int),
                self.total() + acc == old(self).total() + water,
                curr == old(self).level_at(pos as int),
                curr < WALL_LEVEL,
                forall|p: int| pos <= p < end ==> #[trigger] old(self).level_at(p) == curr,
                scan(self.cols(), self.pending(), pos as int, end as int, acc as int) == scan(
                    old(self).cols(),
                    old(self).pending(),
                    pos as int,
                    pos + 1,
                    water as int,
                ),
            decreases old(self).n() + 1 - end,
        {
            let ghost before = *self;
            let got = self.claim_at(end);
            proof {
                Self::lemma_chain(&*old(self), &before, &*self, pos as int, pos as int, end as int);
                self.lemma_totals_nonneg();
            }
            acc = acc + got;
            end = end + 1;
        }
        (end, acc)
    }

    /// A drop from the left onto a flat stretch. If the stretch ends in a
    /// rise it is a flat-bottomed valley; if it ends in a fall the water runs
    /// over the edge first and whatever comes back is placed again from `pos`.
    fn handle_l_plateau(&mut self, pos: usize, water: u64, left_diff: u64, steps: u64) -> (r: (
        u64,
        u64,
    ))
        requires
            old(self).wf(),
            1 <= pos <= old(self).n(),
            old(self).total() + water <= WATER_BUDGET,
            left_diff >= 1,
            left_diff == old(self).level_at(pos - 1) - old(self).level_at(pos as int),
            steps > 0,
        ensures
            old(self).moved(final(self), pos as int, water, r.0),
            r.1 < steps,
            (final(self).cols(), final(self).pending(), r.0 as int, r.1 as int) == l_plateau_step(
                old(self).cols(),
                old(self).pending(),
                pos as int,
                water as int,
                left_diff as int,
                steps as int,
            ),
        decreases steps, 1nat,
    {
        let (end, acc) = self.scan_plateau(pos, water);
        let ghost scanned = *self;
        proof {
            Self::lemma_same_cols(&*old(self), &*self);
        }
        let curr = self.water_level(pos);
        let right = self.water_level(end);
        let r = if right > curr {
            self.handle_valley(pos, acc, left_diff, right - curr, end, steps)
        } else {
            let (b, f) = self.flow(end, acc, steps - 1);
            let ghost mid = *self;
            let r = self.flow(pos, b, f);
            proof {
                Self::lemma_chain(&scanned, &mid, &*self, pos as int, end as int, pos as int);
            }
            r
        };
        proof {
            Self::lemma_chain(&*old(self), &scanned, &*self, pos as int, pos as int, pos as int);
        }
        r
    }

    /// A rise from the left onto a flat stretch. If the stretch ends in a
    /// fall it is a wide peak; if it ends in a rise nothing pools on it and
    /// the water is handed back.
    fn handle_s_plateau(&mut self, pos: usize, water: u64, steps: u64) -> (r: (u64, u64))
        requires
            old(self).wf(),
            1 <= pos <= old(self).n(),
            old(self).total() + water <= WATER_BUDGET,
            steps > 0,
        ensures
            old(self).moved(final(self), pos as int, water, r.0),
            r.1 < steps,
            (final(self).cols(), final(self).pending(), r.0 as int, r.1 as int) == s_plateau_step(
                old(self).cols(),
                old(self).pending(),
                pos as int,
                water as int,
                steps as int,
            ),
        decreases steps, 1nat,
    {
        let (end, acc) = self.scan_plateau(pos, water);
        let ghost scanned = *self;
        let curr = self.water_level(pos);
        let right = self.water_level(end);
        if right < curr {
            let r = self.handle_peak(pos, acc, end, steps);
            proof {
                Self::lemma_chain(&*old(self), &scanned, &*self, pos as int, pos as int, pos as int);
            }
            r
        } else {
            (acc, steps - 1)
        }
    }

    /// `later` and `leftover` are what raining `drops` drops on every interior
    /// column of `self` comes to, as `rain_outcome` defines it: the same
    /// terrain, no water removed, the bank empty, and every drop either
    /// pooled or counted in `leftover`.
    pub open spec fn rained(&self, later: &Self, drops: u64, leftover: u64) -> bool {
        &&& later.cols() == rain_outcome(self.cols(), drops as int).0
        &&& leftover == rain_outcome(self.cols(), drops as int).1
        &&& later.wf()
        &&& later.n() == self.n()
        &&& forall|i: int|
            0 <= i < self.n() ==> #[trigger] later.cols()[i].height == self.cols()[i].height
                && later.cols()[i].water >= self.cols()[i].water
        &&& later.pending() == uniform(self.n(), 0)
        &&& later.water_total() + leftover == self.water_total() + self.n() * drops
    }

    /// Rains `drops` drops on every interior column and lets the water settle.
    ///
    /// The settled columns and the result are exactly those of
    /// `rain_outcome`. The result is the water that could not be placed
    /// within `STEP_BUDGET` flow steps; it is 0 when the engine reached
    /// equilibrium.
    pub fn rain(&mut self, drops: u64) -> (leftover: u64)
        requires
            old(self).wf(),
            old(self).water_total() + old(self).n() * drops <= WATER_BUDGET,
        ensures
            old(self).rained(final(self), drops, leftover),
    {
        let n = self.columns.len();
        proof {
            self.lemma_totals_nonneg();
            assert(0 <= n * drops) by (nonlinear_arith);
        }
        self.bank = RainBank::new(n, drops);
        let ghost start = *self;
        proof {
            Self::lemma_same_cols(&*old(self), &*self);
        }
        let (mut back, mut steps) = self.flow(1, 0, STEP_BUDGET);
        let ghost first = (self.cols(), self.pending(), back as int, steps as int);
        while back > 0 && steps > 0
            invariant
                drive(self.cols(), self.pending(), back as int, steps as int) == drive(
                    first.0,
                    first.1,
                    first.2,
                    first.3,
                ),
                start.wf(),
                self.wf(),
                start.evolves(self),
                self.total() + back == start.total(),
            decreases steps,
        {
            proof {
                self.lemma_totals_nonneg();
            }
            let ghost before = *self;
            let (b, s) = self.flow(1, back, steps);
            proof {
                Self::lemma_evolves_trans(&start, &before, &*self);
            }
            back = b;
            steps = s;
        }
        proof {
            self.lemma_totals_nonneg();
        }
        let ghost settled = *self;
        let rest = self.bank.drain();
        proof {
            Self::lemma_same_cols(&settled, &*self);
        }
        back + rest
    }

    /// Replaces the pending rain of every interior column.
    pub fn set_pending(&mut self, drops: Vec<u64>)
        requires
            old(self).wf(),
            drops.len() == old(self).n(),
            old(self).water_total() + drops_total(drops@) <= WATER_BUDGET,
        ensures
            final(self).wf(),
            final(self).cols() == old(self).cols(),
            final(self).pending() == drops@,
    {
        self.bank = RainBank::from_drops(drops);
        proof {
            Self::lemma_same_cols(&*old(self), &*self);
        }
    }

    /// Water levels of the interior columns, left to right, in drops.
    pub fn levels(&self) -> (r: Vec<u64>)
        requires
            self.wf(),
        ensures
            r@.len() == self.n(),
            forall|i: int| 0 <= i < self.n() ==> r@[i] == #[trigger] self.level_at(i + 1),
    {
        let mut r: Vec<u64> = Vec::new();
        let mut pos: usize = 1;
        while pos <= self.columns.len()
            invariant
                self.wf(),
                1 <= pos <= self.n() + 1,
                r@.len() == pos - 1,
                forall|i: int| 0 <= i < pos - 1 ==> r@[i] == #[trigger] self.level_at(i + 1),
            decreases self.n() + 1 - pos,
        {
            r.push(self.water_level(pos));
            pos = pos + 1;
        }
        r
    }
    /// Water levels of the interior columns, left to right, in drops.
    pub open spec fn level_seq(&self) -> Seq<u64> {
        Seq::new(self.n(), |i: int| self.level_at(i + 1) as u64)
    }

    /// Heights of the interior columns, left to right.
    pub fn heights(&self) -> (r: Vec<u32>)
        ensures
            r@.len() == self.n(),
            forall|i: int| 0 <= i < self.n() ==> r@[i] == (#[trigger] self.cols()[i]).height,
    {
        let mut r: Vec<u32> = Vec::new();
        let mut i: usize = 0;
        while i < self.columns.len()
            invariant
                i <= self.n(),
                r@.len() == i,
                forall|j: int| 0 <= j < i ==> r@[j] == (#[trigger] self.cols()[j]).height,
            decreases self.n() - i,
        {
            r.push(self.columns[i].height);
            i = i + 1;
        }
        r
    }

    /// The settled terrain as rows of cells, the highest row first.
    pub fn grid(&self) -> (rows: Vec<Vec<u8>>)
        requires
            self.wf(),
        ensures
            rows.len() == top_units(self.level_seq()),
            forall|k: int|
                0 <= k < rows.len() ==> (#[trigger] rows@[k])@.len() == self.n() && forall|i: int|
                    0 <= i < self.n() ==> rows@[k]@[i] == cell(
                        self.cols()[i].height,
                        self.level_seq()[i],
                        top_units(self.level_seq()) - 1 - k,
                    ),
    {
        let heights = self.heights();
        let levels = self.levels();
        proof {
            assert forall|i: int| 0 <= i < self.n() implies levels@[i] == self.level_seq()[i] by {
                self.lemma_level_bound(i);
            }
            assert(levels@ =~= self.level_seq());
        }
        grid(&heights, &levels)
    }
}

} // verus!
