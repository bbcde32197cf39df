//! The second stage: plates grow out of the seeds, cell by cell.
use vstd::prelude::*;
use rand_chacha::ChaCha8Rng;
use rayon::iter::IndexedParallelIterator;
use rayon::iter::IntoParallelIterator;
use rayon::iter::ParallelIterator;
use crate::rng::{random_unit, UNIT_SCALE};
use crate::table::{signed_coordinate, square_around, Table};

verus! {

/// The number of set cells in `cells`.
pub open spec fn count_set(cells: Seq<bool>) -> nat
    decreases cells.len(),
{
    if cells.len() == 0 {
        0
    } else {
        count_set(cells.drop_last()) + if cells.last() {
            1nat
        } else {
            0nat
        }
    }
}

/// The number of set neighbours of the cell at `index` on a square grid of
/// side `side`.
pub open spec fn set_neighbours(cells: Seq<bool>, side: int, index: int) -> nat {
    count_set(square_around(cells, side, index % side, index / side))
}

/// Whether the cell at `index` is set after a growth step in which it drew
/// `unit / UNIT_SCALE` from `[0, 1)`: a set cell stays set; an empty cell with
/// `a > 0` set neighbours becomes set exactly when the draw does not exceed
/// `(a / 4)^2`, that is when `unit <= a * a * UNIT_SCALE / 16`.
pub open spec fn grown_cell(cells: Seq<bool>, side: int, index: int, unit: u32) -> bool {
    let a = set_neighbours(cells, side, index);
    cells[index] || (a > 0 && unit <= a * a * (UNIT_SCALE / 16))
}

/// The world after a growth step with the draws `units`, one per cell.
pub open spec fn grown(cells: Seq<bool>, side: int, units: Seq<u32>) -> Seq<bool> {
    Seq::new(cells.len(), |i: int| grown_cell(cells, side, i, units[i]))
}

/// Growth keeps every plate cell; a cell joins a plate only next to one; a
/// cell whose four neighbours all belong to plates always joins; and an empty
/// cell with `a` plate neighbours joins exactly when `a > 0` and its draw
/// `units[i] / UNIT_SCALE` is at most `(a / 4)^2`, that is when
/// `16 * units[i] <= a * a * UNIT_SCALE`.
pub proof fn lemma_growth(cells: Seq<bool>, side: int, units: Seq<u32>)
    requires
        units.len() == cells.len(),
        forall|i: int| 0 <= i < units.len() ==> units[i] < UNIT_SCALE,
    ensures
        grown(cells, side, units).len() == cells.len(),
        forall|i: int|
            0 <= i < cells.len() ==> (cells[i] ==> #[trigger] grown(cells, side, units)[i]),
        forall|i: int|
            0 <= i < cells.len() && #[trigger] grown(cells, side, units)[i] && !cells[i]
                ==> set_neighbours(cells, side, i) > 0,
        forall|i: int|
            0 <= i < cells.len() && set_neighbours(cells, side, i) == 4 ==> #[trigger] grown(
                cells,
                side,
                units,
            )[i],
        forall|i: int|
            0 <= i < cells.len() && !cells[i] ==> (#[trigger] grown(cells, side, units)[i] <==> (
            set_neighbours(cells, side, i) > 0 && 16 * units[i] <= set_neighbours(cells, side, i)
                * set_neighbours(cells, side, i) * UNIT_SCALE)),
{
    assert forall|i: int|
        0 <= i < cells.len() && !cells[i] implies (#[trigger] grown(cells, side, units)[i] <==> (
        set_neighbours(cells, side, i) > 0 && 16 * units[i] <= set_neighbours(cells, side, i)
            * set_neighbours(cells, side, i) * UNIT_SCALE)) by {
        let a = set_neighbours(cells, side, i);
        let u = units[i];
        assert((u <= a * a * (UNIT_SCALE / 16)) == (16 * u <= a * a * UNIT_SCALE)) by (nonlinear_arith)
            requires
                UNIT_SCALE / 16 == 0x10_0000,
                UNIT_SCALE == 0x100_0000,
        ;
    }
    assert forall|i: int|
        0 <= i < cells.len() && set_neighbours(cells, side, i) == 4 implies #[trigger] grown(
        cells,
        side,
        units,
    )[i] by {
        let a = set_neighbours(cells, side, i);
        assert(a * a * (UNIT_SCALE / 16) == 16 * 0x10_0000) by (nonlinear_arith)
            requires
                a == 4,
        ;
    }
}

/// A world of seeds from which plates grow.
pub struct PlateAutomation {
    pub world: Table<bool>,
}

/// The number of set cells among the referenced ones.
fn count_set_refs(cells: &Vec<&bool>) -> (count: usize)
    requires
        cells@.len() <= 4,
    ensures
        count == count_set(Seq::new(cells@.len(), |i: int| *cells@[i])),
        count <= 4,
{
    let ghost all = Seq::new(cells@.len(), |i: int| *cells@[i]);
    let mut count: usize = 0;
    let mut i: usize = 0;
    while i < cells.len()
        invariant
            cells@.len() <= 4,
            i <= cells@.len(),
            all == Seq::new(cells@.len(), |i: int| *cells@[i]),
            count == count_set(all.take(i as int)),
            count <= i,
        decreases cells@.len() - i,
    {
        assert(all.take(i + 1).drop_last() =~= all.take(i as int));
        if *cells[i] {
            count = count + 1;
        }
        i = i + 1;
    }
    assert(all.take(cells@.len() as int) =~= all);
    count
}

/// The state of the cell at `index` after a growth step in which it drew
/// `unit`.
fn grown_cell_exec(world: &Table<bool>, index: usize, unit: u32) -> (alive: bool)
    requires
        world.wf(),
        index < world@.len(),
    ensures
        alive == grown_cell(world@, world.dim() as int, index as int, unit),
{
    if *world.get(index) {
        return true;
    }
    let side = world.side();
    proof {
        assert(side > 0) by (nonlinear_arith)
            requires
                index < side * side,
        ;
        assert((index as int) / (side as int) < isize::MAX) by (nonlinear_arith)
            requires
                index < side * side,
                side > 0,
                side * side <= usize::MAX,
                usize::MAX <= 2 * isize::MAX + 1,
        ;
        assert(signed_coordinate((index as int) / (side as int)) == (index as int) / (side as int));
    }
    let around = world.around_line(index);
    let ghost neighbours = world.around_spec(
        (index as int) % (side as int),
        (index as int) / (side as int),
    );
    assert(neighbours.len() <= 4);
    let count = count_set_refs(&around);
    assert(Seq::new(around@.len(), |i: int| *around@[i]) =~= neighbours);
    if count == 0 {
        return false;
    }
    let c = count as u32;
    proof {
        assert(c * c <= 16) by (nonlinear_arith)
            requires
                c <= 4,
        ;
    }
    let square = c * c;
    proof {
        assert(square * 0x10_0000 <= 16 * 0x10_0000) by (nonlinear_arith)
            requires
                square <= 16,
        ;
    }
    let chance: u32 = square * (UNIT_SCALE / 16);
    if unit > chance {
        return false;
    }
    true
}

/// Applies `grown_cell_exec` to every cell at once, spread over rayon's
/// thread pool: `into_par_iter` on the index range, `zip` with the draws,
/// `map` and `collect`. The contract claims what rayon documents for an
/// indexed parallel iterator collected into a vector: the result holds the
/// mapped values in index order, one per index.
#[verifier::external_body]
fn grow_in_parallel(world: &Table<bool>, units: Vec<u32>) -> (next: Vec<bool>)
    requires
        world.wf(),
        units@.len() == world@.len(),
    ensures
        next@ == grown(world@, world.dim() as int, units@),
{
    (0..units.len()).into_par_iter().zip(units).map(
        |(index, unit)| grown_cell_exec(world, index, unit),
    ).collect()
}

impl PlateAutomation {
    /// One growth step with the given draws, one per cell: see `grown`.
    pub fn step(&mut self, units: Vec<u32>)
        requires
            old(self).world.wf(),
            units@.len() == old(self).world@.len(),
        ensures
            final(self).world.wf(),
            final(self).world.dim() == old(self).world.dim(),
            final(self).world.fill_value() == old(self).world.fill_value(),
            final(self).world@ == grown(old(self).world@, old(self).world.dim() as int, units@),
    {
        let next = grow_in_parallel(&self.world, units);
        self.world.replace_cells(next);
    }

    /// One growth step: draws one value from `[0, 1)` per cell, in index
    /// order, then applies `step`.
    pub fn next(&mut self, rng: &mut ChaCha8Rng)
        requires
            old(self).world.wf(),
        ensures
            final(self).world.wf(),
            final(self).world.dim() == old(self).world.dim(),
            final(self).world.fill_value() == old(self).world.fill_value(),
            exists|units: Seq<u32>|
                units.len() == old(self).world@.len() && (forall|i: int|
                    0 <= i < units.len() ==> units[i] < UNIT_SCALE) && #[trigger] grown(
                    old(self).world@,
                    old(self).world.dim() as int,
                    units,
                ) == final(self).world@,
    {
        let side = self.world.side();
        let n = side * side;
        let mut units: Vec<u32> = Vec::with_capacity(n);
        let mut i: usize = 0;
        while i < n
            invariant
                i <= n,
                units@.len() == i,
                forall|k: int| 0 <= k < i ==> units@[k] < UNIT_SCALE,
            decreases n - i,
        {
            units.push(random_unit(rng));
            i = i + 1;
        }
        let ghost drawn = units@;
        self.step(units);
        assert(grown(old(self).world@, old(self).world.dim() as int, drawn) == self.world@);
    }
}

} // verus!
