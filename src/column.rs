use vstd::prelude::*;

verus! {

/// Number of drops in one unit of terrain height.
pub const DROPS_PER_UNIT: u64 = 16777216;

/// Largest height a column may have, in drops.
pub const MAX_HEIGHT_DROPS: u64 = 72057594021150720;

/// One cell of the terrain: a fixed height and the water pooled on it.
#[derive(Clone, Copy, Debug)]
pub struct Column {
    pub height: u32,
    pub water: u64,
}

impl Column {
    /// Height of the terrain, in drops.
    pub open spec fn height_drops(&self) -> int {
        self.height as int * DROPS_PER_UNIT as int
    }

    /// Water pooled on the column, in drops.
    pub open spec fn water_spec(&self) -> int {
        self.water as int
    }

    /// Height plus water, in drops.
    pub open spec fn level(&self) -> int {
        self.height_drops() + self.water_spec()
    }

    pub proof fn lemma_bounds(&self)
        ensures
            0 <= self.height_drops() <= MAX_HEIGHT_DROPS,
            0 <= self.water_spec() <= u64::MAX,
    {
        assert(self.height as int * DROPS_PER_UNIT as int <= 4294967295 * 16777216) by (nonlinear_arith)
            requires self.height <= 4294967295u32;
    }

    /// A dry column of the given height.
    pub fn new(height: u32) -> (c: Column)
        ensures
            c.height == height,
            c.water_spec() == 0,
    {
        Column { height, water: 0 }
    }

    /// Water pooled on the column, in drops.
    pub fn water(&self) -> (r: u64)
        ensures
            r == self.water_spec(),
    {
        self.water
    }

    /// Height plus water, in drops.
    pub fn water_level(&self) -> (r: u64)
        requires
            self.level() <= u64::MAX,
        ensures
            r == self.level(),
    {
        proof { self.lemma_bounds(); }
        self.height as u64 * DROPS_PER_UNIT + self.water
    }

    /// Pours `water` drops onto the column.
    pub fn add_water(&mut self, water: u64)
        requires
            old(self).water_spec() + water <= u64::MAX,
        ensures
            final(self).height == old(self).height,
            final(self).water_spec() == old(self).water_spec() + water,
    {
        self.water = self.water + water;
    }

    /// Takes up to `water` drops off the column and returns how many were taken.
    pub fn request_water(&mut self, water: u64) -> (taken: u64)
        ensures
            taken == if old(self).water_spec() > water { water as int } else { old(self).water_spec() },
            final(self).height == old(self).height,
            final(self).water_spec() == old(self).water_spec() - taken,
    {
        if self.water > water {
            self.water = self.water - water;
            return water;
        }
        let taken = self.water;
        self.water = 0;
        taken
    }
}

} // verus!
