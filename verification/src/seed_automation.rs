//! The first stage: seeds are dropped one by one on empty cells of the
//! middle of the world.
use vstd::prelude::*;
use rand_chacha::ChaCha8Rng;
use crate::rng::random_range;
use crate::table::Table;

verus! {

/// Seeds are dropped in the columns and rows from `SEED_LOW` up to, but not
/// including, `SEED_HIGH`.
pub const SEED_LOW: usize = 16;

/// See `SEED_LOW`.
pub const SEED_HIGH: usize = 48;

/// A world on which seeds are dropped.
pub struct SeedAutomation {
    pub world: Table<bool>,
}

impl SeedAutomation {
    /// Drops a seed on column `x`, row `y` if that cell is empty, and tells
    /// whether it did; a cell that already holds a seed is left as it is.
    /// The cell is the one at index `x + y * side`.
    pub fn place(&mut self, x: usize, y: usize) -> (placed: bool)
        requires
            old(self).world.wf(),
            x + y * old(self).world.dim() < old(self).world@.len(),
        ensures
            final(self).world.wf(),
            final(self).world.dim() == old(self).world.dim(),
            final(self).world.fill_value() == old(self).world.fill_value(),
            placed == !old(self).world.cell(x as int, y as int),
            placed ==> final(self).world@ == old(self).world@.update(
                x + y * old(self).world.dim(),
                true,
            ),
            !placed ==> final(self).world@ == old(self).world@,
    {
        if *self.world.get_dim(x, y) {
            return false;
        }
        self.world.set_dim(x, y, true);
        true
    }

    /// Drops a seed on column `x`, row `y` as `place` does, where the index
    /// `x + y * side` lies inside the world; gives `None`, and leaves the
    /// world as it is, where it does not.
    pub fn drop_at(&mut self, x: usize, y: usize) -> (placed: Option<bool>)
        requires
            old(self).world.wf(),
        ensures
            final(self).world.wf(),
            final(self).world.dim() == old(self).world.dim(),
            final(self).world.fill_value() == old(self).world.fill_value(),
            seed_dropped(old(self).world, final(self).world, x as int, y as int, placed),
            placed is None <==> x + y * old(self).world.dim() >= old(self).world@.len(),
            placed is Some ==> placed->0 == !old(self).world.cell(x as int, y as int),
            placed == Some(true) ==> final(self).world@ == old(self).world@.update(
                x + y * old(self).world.dim(),
                true,
            ),
            placed != Some(true) ==> final(self).world@ == old(self).world@,
    {
        let side = self.world.side();
        let len = self.world.len();
        match y.checked_mul(side) {
            Some(row_start) => match row_start.checked_add(x) {
                Some(index) => {
                    if index < len {
                        Some(self.place(x, y))
                    } else {
                        None
                    }
                },
                None => None,
            },
            None => {
                proof {
                    assert(y * side <= x + y * side);
                }
                None
            },
        }
    }

    /// Draws a column and then a row from `SEED_LOW..SEED_HIGH` and drops a
    /// seed there as `drop_at` does.
    pub fn try_next(&mut self, rng: &mut ChaCha8Rng) -> (placed: Option<bool>)
        requires
            old(self).world.wf(),
        ensures
            final(self).world.wf(),
            final(self).world.dim() == old(self).world.dim(),
            final(self).world.fill_value() == old(self).world.fill_value(),
            exists|x: int, y: int|
                SEED_LOW <= x < SEED_HIGH && SEED_LOW <= y < SEED_HIGH && #[trigger] seed_dropped(
                    old(self).world,
                    final(self).world,
                    x,
                    y,
                    placed,
                ),
    {
        let x = random_range(rng, SEED_LOW, SEED_HIGH);
        let y = random_range(rng, SEED_LOW, SEED_HIGH);
        let ghost before = self.world;
        let placed = self.drop_at(x, y);
        assert(seed_dropped(before, self.world, x as int, y as int, placed));
        placed
    }
}

/// What dropping a seed on column `x`, row `y` of `before` leaves: `None`
/// and the same world where the index `x + y * side` lies outside it, else
/// whether the cell was empty, and the world with that cell set if it was.
pub open spec fn seed_dropped(
    before: Table<bool>,
    after: Table<bool>,
    x: int,
    y: int,
    placed: Option<bool>,
) -> bool {
    let index = x + y * before.dim();
    match placed {
        None => index >= before@.len() && after@ == before@,
        Some(p) => {
            &&& index < before@.len()
            &&& p == !before@[index]
            &&& p ==> after@ == before@.update(index, true)
            &&& !p ==> after@ == before@
        },
    }
}

} // verus!
