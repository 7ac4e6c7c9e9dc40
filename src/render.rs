use vstd::prelude::*;

use crate::column::DROPS_PER_UNIT;

verus! {

/// Cell drawn for terrain.
pub const TERRAIN: u8 = 79;

/// Cell drawn for water.
pub const WATER: u8 = 120;

/// Cell drawn for open air.
pub const AIR: u8 = 32;

/// Whole units of a level given in drops, rounded down.
pub open spec fn whole_units(level: u64) -> int {
    level as int / DROPS_PER_UNIT as int
}

/// Highest whole-unit water level among `levels`, or 0 when there is none.
pub open spec fn top_units(levels: Seq<u64>) -> int
    decreases levels.len(),
{
    if levels.len() == 0 {
        0
    } else {
        let rest = top_units(levels.drop_last());
        let last = whole_units(levels.last());
        if last > rest {
            last
        } else {
            rest
        }
    }
}

/// What row `row` of a column of height `height` and water level `level`
/// shows: terrain below its height, water below its level, air above.
pub open spec fn cell(height: u32, level: u64, row: int) -> u8 {
    if height as int > row {
        TERRAIN
    } else if whole_units(level) > row {
        WATER
    } else {
        AIR
    }
}

/// Draws the columns as rows of cells, the highest row first: one row per
/// whole unit up to the highest water level, one cell per column.
pub fn grid(heights: &Vec<u32>, levels: &Vec<u64>) -> (rows: Vec<Vec<u8>>)
    requires
        heights.len() == levels.len(),
    ensures
        rows.len() == top_units(levels@),
        forall|k: int|
            0 <= k < rows.len() ==> (#[trigger] rows@[k])@.len() == levels.len() && forall|i: int|
                0 <= i < levels.len() ==> rows@[k]@[i] == cell(
                    heights[i],
                    levels[i],
                    top_units(levels@) - 1 - k,
                ),
{
    let mut top: u64 = 0;
    let mut i: usize = 0;
    while i < levels.len()
        invariant
            i <= levels.len(),
            top == top_units(levels@.take(i as int)),
        decreases levels.len() - i,
    {
        assert(levels@.take(i + 1).drop_last() =~= levels@.take(i as int));
        let units = levels[i] / DROPS_PER_UNIT;
        if units > top {
            top = units;
        }
        i = i + 1;
    }
    assert(levels@.take(levels.len() as int) =~= levels@);
    let mut rows: Vec<Vec<u8>> = Vec::new();
    let mut k: u64 = 0;
    while k < top
        invariant
            k <= top,
            top == top_units(levels@),
            heights.len() == levels.len(),
            rows.len() == k,
            forall|j: int|
                0 <= j < k ==> (#[trigger] rows@[j])@.len() == levels.len() && forall|i: int|
                    0 <= i < levels.len() ==> rows@[j]@[i] == cell(
                        heights[i],
                        levels[i],
                        top - 1 - j,
                    ),
        decreases top - k,
    {
        let row = top - 1 - k;
        let mut line: Vec<u8> = Vec::new();
        let mut i: usize = 0;
        while i < levels.len()
            invariant
                i <= levels.len(),
                heights.len() == levels.len(),
                row == top - 1 - k,
                line@.len() == i,
                forall|c: int| 0 <= c < i ==> line@[c] == cell(heights[c], levels[c], row as int),
            decreases levels.len() - i,
        {
            let b = if heights[i] as u64 > row {
                TERRAIN
            } else if levels[i] / DROPS_PER_UNIT > row {
                WATER
            } else {
                AIR
            };
            line.push(b);
            i = i + 1;
        }
        rows.push(line);
        k = k + 1;
    }
    rows
}

} // verus!
