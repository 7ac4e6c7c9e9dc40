use vstd::prelude::*;

use crate::column::Column;
use crate::drops::{drops_total, uniform};
use crate::env::{topology_of, Topology, STEP_BUDGET, WALL_LEVEL};

verus! {

/// The state of the terrain as the engine sees it, the water handed back,
/// and the steps left: `(columns, pending rain, backwater, steps)`.
pub type Outcome = (Seq<Column>, Seq<u64>, int, int);

/// Water level at a position of `cols` in drops; position 0 and
/// `cols.len() + 1` are the walls.
pub open spec fn level_in(cols: Seq<Column>, pos: int) -> int {
    if pos <= 0 || pos >= cols.len() + 1 {
        WALL_LEVEL as int
    } else {
        cols[pos - 1].level()
    }
}

/// `cols` with `amount` drops added to each column at positions `from..to`.
pub open spec fn raise(cols: Seq<Column>, from: int, to: int, amount: int) -> Seq<Column> {
    Seq::new(
        cols.len(),
        |i: int|
            if from <= i + 1 < to {
                Column { height: cols[i].height, water: (cols[i].water + amount) as u64 }
            } else {
                cols[i]
            },
    )
}

/// The smaller of two integers.
pub open spec fn least(a: int, b: int) -> int {
    if a < b {
        a
    } else {
        b
    }
}

/// `f` where it is a count of steps under `steps`, else `steps - 1`.
pub open spec fn below(f: int, steps: int) -> int {
    if 0 <= f && f < steps {
        f
    } else {
        steps - 1
    }
}

/// Walks right from `end` over the positions level with `pos`, claiming the
/// rain pending on each: the bank afterwards, the water gathered on top of
/// `acc`, and the first position not level with `pos`.
pub open spec fn scan(cols: Seq<Column>, pending: Seq<u64>, pos: int, end: int, acc: int) -> (
    Seq<u64>,
    int,
    int,
)
    decreases cols.len() + 1 - end,
{
    if end < 1 || end >= cols.len() + 1 || level_in(cols, end) != level_in(cols, pos) {
        (pending, acc, end)
    } else {
        scan(cols, pending.update(end - 1, 0), pos, end + 1, acc + pending[end - 1])
    }
}

/// One step of the flow engine at `pos` with `water` in flight: take up the
/// rain pending at `pos`, move on if nothing is in flight, and otherwise let
/// the local topology decide.
pub open spec fn flow_step(
    cols: Seq<Column>,
    pending: Seq<u64>,
    pos: int,
    water: int,
    steps: int,
) -> Outcome
    decreases steps, 2int,
{
    if steps <= 0 {
        (cols, pending, water, 0)
    } else if pos >= cols.len() + 1 || pos < 1 {
        (cols, pending, water, steps - 1)
    } else {
        let w = water + pending[pos - 1];
        let p = pending.update(pos - 1, 0);
        if w == 0 {
            flow_step(cols, p, pos + 1, 0, steps - 1)
        } else {
            let prev = level_in(cols, pos - 1);
            let curr = level_in(cols, pos);
            let next = level_in(cols, pos + 1);
            match topology_of(prev, curr, next) {
                Topology::Valley => valley_step(
                    cols,
                    p,
                    pos,
                    w,
                    prev - curr,
                    next - curr,
                    pos + 1,
                    steps,
                ),
                Topology::Peak => peak_step(cols, p, pos, w, pos + 1, steps),
                Topology::Downwards => downwards_step(cols, p, pos, w, steps),
                Topology::SPlateau => s_plateau_step(cols, p, pos, w, steps),
                Topology::LPlateau => l_plateau_step(cols, p, pos, w, prev - curr, steps),
                Topology::Uphill => (cols, p, w, steps - 1),
                Topology::Level => (cols, p, w, steps - 1),
            }
        }
    }
}

/// A peak spanning `pos..end`: half the water is handed back, half flows on
/// from `end`.
pub open spec fn peak_step(
    cols: Seq<Column>,
    pending: Seq<u64>,
    pos: int,
    water: int,
    end: int,
    steps: int,
) -> Outcome
    decreases steps, 0int,
{
    if steps <= 0 {
        (cols, pending, water, 0)
    } else {
        let forward = water / 2;
        let (c, p, b, f) = flow_step(cols, pending, end, forward, steps - 1);
        (c, p, water - forward + b, f)
    }
}

/// A slope falling to the right: the water runs down from `pos + 1`, and
/// what comes back is placed again from `pos`.
pub open spec fn downwards_step(
    cols: Seq<Column>,
    pending: Seq<u64>,
    pos: int,
    water: int,
    steps: int,
) -> Outcome
    decreases steps, 0int,
{
    if steps <= 0 {
        (cols, pending, water, 0)
    } else {
        let (c, p, b, f) = flow_step(cols, pending, pos + 1, water, steps - 1);
        flow_step(c, p, pos, b, below(f, steps))
    }
}

/// The flat-bottomed valley `pos..end` with rims `left_diff` and
/// `right_diff` above its floor. Every column gets `share`, the even share
/// capped at the lower rim; below the rim, the drops that do not divide
/// evenly go one to a column from the left. What is left spills over the
/// lower rim: handed back on the left, flowing on from `pos` on the right,
/// split in half over equal rims. A valley that took everything lets the
/// columns from `end` drain first and places what comes back from `pos`.
pub open spec fn valley_step(
    cols: Seq<Column>,
    pending: Seq<u64>,
    pos: int,
    water: int,
    left_diff: int,
    right_diff: int,
    end: int,
    steps: int,
) -> Outcome
    decreases steps, 0int,
{
    if steps <= 0 || end <= pos {
        (cols, pending, water, 0)
    } else {
        let width = end - pos;
        let cap = least(left_diff, right_diff);
        let share = least(water / width, cap);
        let even = raise(cols, pos, end, share);
        let odd = water - share * width;
        let filled = if share < cap {
            raise(even, pos, pos + odd, 1)
        } else {
            even
        };
        let rest = if share < cap {
            0
        } else {
            odd
        };
        if rest > 0 {
            if right_diff > left_diff {
                (filled, pending, rest, steps - 1)
            } else if right_diff < left_diff {
                flow_step(filled, pending, pos, rest, steps - 1)
            } else {
                let forward = rest / 2;
                let (c, p, b, f) = flow_step(filled, pending, end, forward, steps - 1);
                (c, p, rest - forward + b, f)
            }
        } else {
            let (c, p, b, f) = flow_step(filled, pending, end, 0, steps - 1);
            if b > 0 {
                flow_step(c, p, pos, b, below(f, steps))
            } else {
                (c, p, 0, f)
            }
        }
    }
}

/// A drop from the left onto a flat stretch: a flat-bottomed valley if the
/// stretch ends in a rise, otherwise the water runs over the edge first and
/// what comes back is placed again from `pos`.
pub open spec fn l_plateau_step(
    cols: Seq<Column>,
    pending: Seq<u64>,
    pos: int,
    water: int,
    left_diff: int,
    steps: int,
) -> Outcome
    decreases steps, 1int,
{
    if steps <= 0 {
        (cols, pending, water, 0)
    } else {
        let (p, acc, end) = scan(cols, pending, pos, pos + 1, water);
        let curr = level_in(cols, pos);
        let right = level_in(cols, end);
        if right > curr {
            valley_step(cols, p, pos, acc, left_diff, right - curr, end, steps)
        } else {
            let (c2, p2, b, f) = flow_step(cols, p, end, acc, steps - 1);
            flow_step(c2, p2, pos, b, below(f, steps))
        }
    }
}

/// A rise from the left onto a flat stretch: a wide peak if the stretch ends
/// in a fall, otherwise the water gathered is handed back.
pub open spec fn s_plateau_step(
    cols: Seq<Column>,
    pending: Seq<u64>,
    pos: int,
    water: int,
    steps: int,
) -> Outcome
    decreases steps, 1int,
{
    if steps <= 0 {
        (cols, pending, water, 0)
    } else {
        let (p, acc, end) = scan(cols, pending, pos, pos + 1, water);
        if level_in(cols, end) < level_in(cols, pos) {
            peak_step(cols, p, pos, acc, end, steps)
        } else {
            (cols, p, acc, steps - 1)
        }
    }
}

/// Re-launches the flow from the first column with the water handed back,
/// while there is some and steps remain.
pub open spec fn drive(cols: Seq<Column>, pending: Seq<u64>, back: int, steps: int) -> Outcome
    decreases steps,
{
    if back > 0 && steps > 0 {
        let (c, p, b, f) = flow_step(cols, pending, 1, back, steps);
        drive(c, p, b, below(f, steps))
    } else {
        (cols, pending, back, steps)
    }
}

/// What raining `drops` drops on every column of `cols` comes to: the
/// columns after the water settled, and the water left unplaced when the
/// step budget ran out (0 when it settled).
pub open spec fn rain_outcome(cols: Seq<Column>, drops: int) -> (Seq<Column>, int) {
    let (c0, p0, b0, f0) = flow_step(
        cols,
        uniform(cols.len(), drops as u64),
        1,
        0,
        STEP_BUDGET as int,
    );
    let (c, p, b, f) = drive(c0, p0, b0, f0);
    (c, b + drops_total(p))
}

} // verus!
