//! The third stage: the plates are split into sub-plates that spread from
//! coloured seeds, get smoothed, and have their front lines traced.
use vstd::prelude::*;
use rand_chacha::ChaCha8Rng;
use crate::rng::{random_range, random_unit, UNIT_SCALE};
use crate::hex_table::{hex_around, HexTable};
use crate::table::{signed_coordinate, square_around, Table};

verus! {

/// The colour of plate cells that no sub-plate has reached yet.
pub const UNCLAIMED: u8 = 255;

/// A spreading step skips an unclaimed cell whose draw from `[0, 1)` is below
/// `0.8`; as a numerator over `UNIT_SCALE`, `0.8` (as an `f32`) is this value.
pub const SPREAD_SKIP_BELOW: u32 = 13421773;

/// Whether `colour` belongs to a sub-plate: neither empty nor unclaimed.
pub open spec fn is_sub_plate(colour: u8) -> bool {
    colour != 0 && colour != UNCLAIMED
}

/// The sub-plate colours among `colours`, in order.
pub open spec fn sub_plate_colours(colours: Seq<u8>) -> Seq<u8>
    decreases colours.len(),
{
    if colours.len() == 0 {
        Seq::empty()
    } else {
        sub_plate_colours(colours.drop_last()) + if is_sub_plate(colours.last()) {
            seq![colours.last()]
        } else {
            Seq::empty()
        }
    }
}

/// The neighbours of the cell at `index` on a square grid of side `side`.
pub open spec fn neighbours_of(cells: Seq<u8>, side: int, index: int) -> Seq<u8> {
    square_around(cells, side, index % side, index / side)
}

/// The world while a pass that rewrites cells in index order stands at
/// `index`: the cells before it as the pass left them, the others as they
/// were before the pass.
pub open spec fn mid_pass(done: Seq<u8>, before: Seq<u8>, index: int) -> Seq<u8> {
    done.take(index) + before.skip(index)
}

/// The colour the cell at `index` of `cells` takes in a spreading pass when
/// it draws `unit / UNIT_SCALE` from `[0, 1)` and, where it needs one, the
/// position `pick`: an unclaimed cell whose draw is at least `0.8` and that
/// has sub-plate neighbours takes the colour of the neighbour at position
/// `pick` among them; any other cell keeps its colour.
pub open spec fn spread_cell(cells: Seq<u8>, side: int, index: int, unit: u32, pick: int) -> u8 {
    let candidates = sub_plate_colours(neighbours_of(cells, side, index));
    if cells[index] == UNCLAIMED && unit >= SPREAD_SKIP_BELOW && 0 <= pick < candidates.len() {
        candidates[pick]
    } else {
        cells[index]
    }
}

/// The spreading rule of one cell, stated on its draw: a cell that is not
/// unclaimed keeps its colour; an unclaimed cell whose draw `unit /
/// UNIT_SCALE` is below `0.8` (that is, `unit < SPREAD_SKIP_BELOW`, or
/// `5 * unit < 4 * UNIT_SCALE`) keeps its colour; an unclaimed cell whose draw
/// is at least `0.8` takes the colour at position `pick` among the sub-plate
/// colours of its neighbours, in the order above, below, right, left, where
/// there is such a position, and keeps its colour where there is none.
pub proof fn lemma_spread_rule(cells: Seq<u8>, side: int, index: int, unit: u32, pick: int)
    requires
        0 <= index < cells.len(),
        unit < UNIT_SCALE,
    ensures
        (unit >= SPREAD_SKIP_BELOW) == (5 * unit >= 4 * UNIT_SCALE),
        cells[index] != UNCLAIMED ==> spread_cell(cells, side, index, unit, pick) == cells[index],
        cells[index] == UNCLAIMED && unit < SPREAD_SKIP_BELOW ==> spread_cell(
            cells,
            side,
            index,
            unit,
            pick,
        ) == UNCLAIMED,
        cells[index] == UNCLAIMED && unit >= SPREAD_SKIP_BELOW && 0 <= pick < sub_plate_colours(
            square_around(cells, side, index % side, index / side),
        ).len() ==> spread_cell(cells, side, index, unit, pick) == sub_plate_colours(
            square_around(cells, side, index % side, index / side),
        )[pick],
        cells[index] == UNCLAIMED && !(0 <= pick < sub_plate_colours(
            square_around(cells, side, index % side, index / side),
        ).len()) ==> spread_cell(cells, side, index, unit, pick) == UNCLAIMED,
{
}

/// Whether `done` is what a spreading pass over `before`, cell by cell in
/// index order, leaves when cell `i` draws `units[i]` (below `UNIT_SCALE`)
/// and, where it needs one, the position `picks[i]`.
pub open spec fn spread_by(
    before: Seq<u8>,
    done: Seq<u8>,
    side: int,
    units: Seq<u32>,
    picks: Seq<int>,
) -> bool {
    &&& units.len() == before.len()
    &&& picks.len() == before.len()
    &&& done.len() == before.len()
    &&& forall|i: int| 0 <= i < units.len() ==> #[trigger] units[i] < UNIT_SCALE
    &&& forall|i: int|
        0 <= i < before.len() ==> #[trigger] done[i] == spread_cell(
            mid_pass(done, before, i),
            side,
            i,
            units[i],
            picks[i],
        )
}

/// How many of the colours at positions `from` up to, but not including, `to`
/// equal `colour`.
pub open spec fn count_between(colours: Seq<u8>, colour: u8, from: int, to: int) -> nat
    decreases to - from,
{
    if to <= from {
        0
    } else {
        count_between(colours, colour, from, to - 1) + if colours[to - 1] == colour {
            1nat
        } else {
            0nat
        }
    }
}

/// The tally smoothing keeps for the neighbour at position `j`: one for
/// itself and one for each later neighbour of the same colour.
pub open spec fn tally(colours: Seq<u8>, j: int) -> nat {
    1 + count_between(colours, colours[j], j + 1, colours.len() as int)
}

/// The position of the last largest tally among the first `n` neighbours.
pub open spec fn last_top_tally(colours: Seq<u8>, n: int) -> int
    decreases n,
{
    if n <= 1 {
        0
    } else {
        let best = last_top_tally(colours, n - 1);
        if tally(colours, n - 1) >= tally(colours, best) {
            n - 1
        } else {
            best
        }
    }
}

/// The colour smoothing gives a cell with neighbours `colours`: the colour of
/// the last neighbour whose tally is largest.
pub open spec fn smoothed_colour(colours: Seq<u8>) -> u8 {
    colours[last_top_tally(colours, colours.len() as int)]
}

/// A count over a range is at most the length of the range.
proof fn lemma_count_between_bound(colours: Seq<u8>, colour: u8, from: int, to: int)
    requires
        from <= to,
    ensures
        count_between(colours, colour, from, to) <= to - from,
    decreases to - from,
{
    if to > from {
        lemma_count_between_bound(colours, colour, from, to - 1);
    }
}

/// The last largest tally is among the first `n` positions.
proof fn lemma_last_top_tally_range(colours: Seq<u8>, n: int)
    requires
        n >= 1,
    ensures
        0 <= last_top_tally(colours, n) < n,
    decreases n,
{
    if n > 1 {
        lemma_last_top_tally_range(colours, n - 1);
    }
}

/// The colour smoothing picks among `neighbours`: tallies each neighbour
/// (one, plus one for every later neighbour of the same colour, counted by
/// bumping every earlier entry of that colour) and takes the colour of the
/// last entry with the largest tally.
fn smoothed_colour_exec(neighbours: &Vec<&u8>) -> (colour: u8)
    requires
        0 < neighbours@.len() <= 4,
    ensures
        colour == smoothed_colour(Seq::new(neighbours@.len(), |i: int| *neighbours@[i])),
{
    let ghost colours = Seq::new(neighbours@.len(), |i: int| *neighbours@[i]);
    let n = neighbours.len();
    let mut counts: Vec<(u8, u8)> = Vec::new();
    let mut m: usize = 0;
    while m < n
        invariant
            n == colours.len(),
            0 < n <= 4,
            colours == Seq::new(neighbours@.len(), |i: int| *neighbours@[i]),
            m <= n,
            counts@.len() == m,
            forall|j: int|
                0 <= j < m ==> (#[trigger] counts@[j]).0 == colours[j] && counts@[j].1 == 1
                    + count_between(colours, colours[j], j + 1, m as int),
        decreases n - m,
    {
        let colour = *neighbours[m];
        let mut c: usize = 0;
        while c < counts.len()
            invariant
                n == colours.len(),
                0 < n <= 4,
                m < n,
                colour == colours[m as int],
                counts@.len() == m,
                c <= m,
                forall|j: int|
                    0 <= j < c ==> (#[trigger] counts@[j]).0 == colours[j] && counts@[j].1 == 1
                        + count_between(colours, colours[j], j + 1, m + 1),
                forall|j: int|
                    c <= j < m ==> (#[trigger] counts@[j]).0 == colours[j] && counts@[j].1 == 1
                        + count_between(colours, colours[j], j + 1, m as int),
            decreases m - c,
        {
            let entry = counts[c];
            proof {
                lemma_count_between_bound(colours, colours[c as int], c + 1, m as int);
            }
            if entry.0 == colour {
                counts.set(c, (entry.0, entry.1 + 1));
            }
            c = c + 1;
        }
        counts.push((colour, 1));
        m = m + 1;
    }
    proof {
        lemma_last_top_tally_range(colours, 1);
    }
    let mut best: usize = 0;
    let mut k: usize = 1;
    while k < n
        invariant
            n == colours.len(),
            0 < n <= 4,
            counts@.len() == n,
            forall|j: int|
                0 <= j < n ==> (#[trigger] counts@[j]).0 == colours[j] && counts@[j].1 == tally(
                    colours,
                    j,
                ),
            1 <= k <= n,
            best == last_top_tally(colours, k as int),
            best < k,
        decreases n - k,
    {
        if counts[k].1 >= counts[best].1 {
            best = k;
        }
        k = k + 1;
    }
    counts[best].0
}

/// The colours of a square world of side `side` at the columns and rows
/// `points`.
pub open spec fn sampled_colours(cells: Seq<u8>, side: int, points: Seq<(usize, usize)>) -> Seq<u8> {
    Seq::new(points.len(), |i: int| cells[points[i].0 + points[i].1 * side])
}

/// Whether each of `points` has a column and row whose index lies on a
/// square grid of side `side`.
pub open spec fn points_on_square(side: int, points: Seq<(usize, usize)>) -> bool {
    forall|i: int|
        0 <= i < points.len() ==> (#[trigger] points[i]).0 + points[i].1 * side < side * side
}

/// Whether all of `colours` equal the first one (so also when there is none).
pub open spec fn all_alike(colours: Seq<u8>) -> bool {
    forall|k: int| 0 <= k < colours.len() ==> #[trigger] colours[k] == colours[0]
}

/// The hexagonal grid after tracing front lines: `sampled` holds, for each
/// hexagonal cell, the colour of the square world under it. A cell over empty
/// ground keeps its former colour `former[i]`; a cell whose on-grid
/// neighbours in `sampled` all share one colour lies inside a sub-plate and
/// becomes empty; any other cell is on a front line and keeps its sampled
/// colour.
pub open spec fn front_lines(former: Seq<u8>, sampled: Seq<u8>, width: int, height: int)
    -> Seq<u8> {
    Seq::new(
        sampled.len(),
        |i: int|
            if sampled[i] == 0 {
                former[i]
            } else if all_alike(hex_around(sampled, width, height, i % width, i / width)) {
                0
            } else {
                sampled[i]
            },
    )
}

/// The front-line rule of one hexagonal cell, stated on its neighbours: a
/// cell over empty ground keeps its former colour; a cell over a colour
/// becomes empty when every two of its on-grid neighbours in `sampled` have
/// the same colour (an empty neighbour counts as the colour 0, so it differs
/// from any sub-plate), and keeps its sampled colour when two neighbours
/// differ.
pub proof fn lemma_front_line_rule(
    former: Seq<u8>,
    sampled: Seq<u8>,
    width: int,
    height: int,
    i: int,
)
    requires
        0 <= i < sampled.len(),
    ensures
        sampled[i] == 0 ==> front_lines(former, sampled, width, height)[i] == former[i],
        sampled[i] != 0 && (forall|j: int, k: int|
            0 <= j < hex_around(sampled, width, height, i % width, i / width).len() && 0 <= k
                < hex_around(sampled, width, height, i % width, i / width).len() ==> #[trigger] hex_around(
                sampled,
                width,
                height,
                i % width,
                i / width,
            )[j] == #[trigger] hex_around(sampled, width, height, i % width, i / width)[k])
            ==> front_lines(former, sampled, width, height)[i] == 0,
        sampled[i] != 0 && (exists|j: int, k: int|
            0 <= j < hex_around(sampled, width, height, i % width, i / width).len() && 0 <= k
                < hex_around(sampled, width, height, i % width, i / width).len() && #[trigger] hex_around(
                sampled,
                width,
                height,
                i % width,
                i / width,
            )[j] != #[trigger] hex_around(sampled, width, height, i % width, i / width)[k])
            ==> front_lines(former, sampled, width, height)[i] == sampled[i],
{
    let around = hex_around(sampled, width, height, i % width, i / width);
    if exists|j: int, k: int| 0 <= j < around.len() && 0 <= k < around.len() && #[trigger] around[j]
        != #[trigger] around[k] {
        let (j, k) = choose|j: int, k: int|
            0 <= j < around.len() && 0 <= k < around.len() && #[trigger] around[j]
                != #[trigger] around[k];
        if all_alike(around) {
            assert(around[j] == around[0]);
            assert(around[k] == around[0]);
        }
    } else {
        if around.len() > 0 {
            assert forall|k: int| 0 <= k < around.len() implies #[trigger] around[k] == around[0] by {
                assert(around[k] == around[0]);
            }
        }
    }
}

/// The distinct colours among the first `n` cells, in the order in which
/// they first appear.
pub open spec fn first_colours(cells: Seq<u8>, n: int) -> Seq<u8>
    decreases n,
{
    if n <= 0 {
        Seq::empty()
    } else {
        let earlier = first_colours(cells, n - 1);
        if earlier.contains(cells[n - 1]) {
            earlier
        } else {
            earlier.push(cells[n - 1])
        }
    }
}

/// The indices, in increasing order, of the cells among the first `n` that
/// hold `colour`.
pub open spec fn cells_coloured(cells: Seq<u8>, colour: u8, n: int) -> Seq<usize>
    decreases n,
{
    if n <= 0 {
        Seq::empty()
    } else {
        let earlier = cells_coloured(cells, colour, n - 1);
        if cells[n - 1] == colour {
            earlier.push((n - 1) as usize)
        } else {
            earlier
        }
    }
}

/// The cells of a world grouped by colour: `colours[g]` is a colour and
/// `cells[g]` the indices of the cells that hold it.
pub struct SubPlates {
    pub colours: Vec<u8>,
    pub cells: Vec<Vec<usize>>,
}

/// The cells visited before step `n` of a walk over `columns` columns and
/// `rows` rows of a square world of side `side`, column after column (step
/// `k` visits column `k / rows`, row `k % rows`), that hold `colour`, as
/// column and row pairs in the order of the walk.
pub open spec fn walk_cells(cells: Seq<u8>, side: int, rows: int, colour: u8, n: int) -> Seq<
    (usize, usize),
>
    decreases n,
{
    if n <= 0 {
        Seq::empty()
    } else {
        let earlier = walk_cells(cells, side, rows, colour, n - 1);
        let (x, y) = ((n - 1) / rows, (n - 1) % rows);
        if cells[x + y * side] == colour {
            earlier.push((x as usize, y as usize))
        } else {
            earlier
        }
    }
}

/// Where the sub-plates of a world lie, ready to become rigid bodies.
pub struct CollisionLayout {
    /// The sub-plate colours, increasing.
    pub colours: Vec<u8>,
    /// For each colour, the columns and rows of the world that hold it,
    /// column after column.
    pub territories: Vec<Vec<(usize, usize)>>,
    /// For each colour, the columns and rows of the hexagonal grid whose
    /// column and row, read on the world, hold it, column after column.
    pub borders: Vec<Vec<(usize, usize)>>,
}

/// The smallest column, smallest row, largest column and largest row among
/// the cells of a territory.
pub fn territory_bounds(territory: &Vec<(usize, usize)>) -> (bounds: (usize, usize, usize, usize))
    requires
        territory@.len() > 0,
    ensures
        forall|i: int|
            #![trigger territory@[i]]
            0 <= i < territory@.len() ==> bounds.0 <= territory@[i].0 <= bounds.2 && bounds.1
                <= territory@[i].1 <= bounds.3,
        exists|i: int| 0 <= i < territory@.len() && #[trigger] territory@[i].0 == bounds.0,
        exists|i: int| 0 <= i < territory@.len() && #[trigger] territory@[i].1 == bounds.1,
        exists|i: int| 0 <= i < territory@.len() && #[trigger] territory@[i].0 == bounds.2,
        exists|i: int| 0 <= i < territory@.len() && #[trigger] territory@[i].1 == bounds.3,
{
    let first = territory[0];
    let mut bounds = (first.0, first.1, first.0, first.1);
    let ghost mut at: (int, int, int, int) = (0, 0, 0, 0);
    let mut i: usize = 1;
    while i < territory.len()
        invariant
            1 <= i <= territory@.len(),
            forall|k: int|
                #![trigger territory@[k]]
                0 <= k < i ==> bounds.0 <= territory@[k].0 <= bounds.2 && bounds.1
                    <= territory@[k].1 <= bounds.3,
            0 <= at.0 < i && territory@[at.0].0 == bounds.0,
            0 <= at.1 < i && territory@[at.1].1 == bounds.1,
            0 <= at.2 < i && territory@[at.2].0 == bounds.2,
            0 <= at.3 < i && territory@[at.3].1 == bounds.3,
        decreases territory@.len() - i,
    {
        let (x, y) = territory[i];
        if x < bounds.0 {
            bounds.0 = x;
            proof {
                at.0 = i as int;
            }
        }
        if y < bounds.1 {
            bounds.1 = y;
            proof {
                at.1 = i as int;
            }
        }
        if x > bounds.2 {
            bounds.2 = x;
            proof {
                at.2 = i as int;
            }
        }
        if y > bounds.3 {
            bounds.3 = y;
            proof {
                at.3 = i as int;
            }
        }
        i = i + 1;
    }
    bounds
}

/// Smoothing gives a cell the colour of one of its neighbours, and a cell
/// whose neighbours all share one colour gets that colour.
pub proof fn lemma_smoothed_colour(colours: Seq<u8>)
    requires
        colours.len() > 0,
    ensures
        colours.contains(smoothed_colour(colours)),
        all_alike(colours) ==> smoothed_colour(colours) == colours[0],
{
    lemma_last_top_tally_range(colours, colours.len() as int);
    let j = last_top_tally(colours, colours.len() as int);
    assert(colours[j] == smoothed_colour(colours));
}

/// How often `colour` occurs among `colours`.
pub open spec fn occurrences(colours: Seq<u8>, colour: u8) -> nat {
    count_between(colours, colour, 0, colours.len() as int)
}

/// Whether position `i` holds the first occurrence of `colour` in `colours`.
pub open spec fn first_occurrence(colours: Seq<u8>, colour: u8, i: int) -> bool {
    &&& 0 <= i < colours.len()
    &&& colours[i] == colour
    &&& forall|k: int| 0 <= k < i ==> colours[k] != colour
}

/// Counts over adjacent ranges add up.
proof fn lemma_count_between_split(colours: Seq<u8>, colour: u8, from: int, mid: int, to: int)
    requires
        from <= mid <= to,
    ensures
        count_between(colours, colour, from, to) == count_between(colours, colour, from, mid)
            + count_between(colours, colour, mid, to),
    decreases to - mid,
{
    if to > mid {
        lemma_count_between_split(colours, colour, from, mid, to - 1);
    }
}

/// A range holding no `colour` counts none.
proof fn lemma_count_between_absent(colours: Seq<u8>, colour: u8, from: int, to: int)
    requires
        forall|k: int| from <= k < to ==> colours[k] != colour,
    ensures
        count_between(colours, colour, from, to) == 0,
    decreases to - from,
{
    if to > from {
        lemma_count_between_absent(colours, colour, from, to - 1);
    }
}

/// The tally of position `j` counts its colour from `j` to the end.
proof fn lemma_tally_from(colours: Seq<u8>, j: int)
    requires
        0 <= j < colours.len(),
    ensures
        tally(colours, j) == count_between(colours, colours[j], j, colours.len() as int),
{
    lemma_count_between_split(colours, colours[j], j, j + 1, colours.len() as int);
    assert(count_between(colours, colours[j], j, j + 1) == 1) by {
        assert(count_between(colours, colours[j], j, j) == 0);
    }
}

/// Every colour present has a first occurrence, at or before any of its
/// positions.
proof fn lemma_first_occurrence_exists(colours: Seq<u8>, colour: u8, i: int)
    requires
        0 <= i < colours.len(),
        colours[i] == colour,
    ensures
        exists|f: int| f <= i && #[trigger] first_occurrence(colours, colour, f),
    decreases i,
{
    if exists|k: int| 0 <= k < i && colours[k] == colour {
        let k = choose|k: int| 0 <= k < i && colours[k] == colour;
        lemma_first_occurrence_exists(colours, colour, k);
        let f = choose|f: int| f <= k && #[trigger] first_occurrence(colours, colour, f);
        assert(f <= i && first_occurrence(colours, colour, f));
    } else {
        assert(first_occurrence(colours, colour, i));
    }
}

/// The tally of a first occurrence is the number of occurrences.
proof fn lemma_tally_of_first(colours: Seq<u8>, colour: u8, f: int)
    requires
        first_occurrence(colours, colour, f),
    ensures
        tally(colours, f) == occurrences(colours, colour),
{
    lemma_tally_from(colours, f);
    lemma_count_between_split(colours, colour, 0, f, colours.len() as int);
    lemma_count_between_absent(colours, colour, 0, f);
}

/// The last largest tally is at least every tally, and no later position
/// ties with it.
proof fn lemma_last_top_tally_max(colours: Seq<u8>, n: int)
    requires
        1 <= n <= colours.len(),
    ensures
        forall|k: int|
            0 <= k < n ==> #[trigger] tally(colours, k) <= tally(colours, last_top_tally(colours, n)),
        forall|k: int|
            0 <= k < n && #[trigger] tally(colours, k) == tally(colours, last_top_tally(colours, n)) ==> k
                <= last_top_tally(colours, n),
    decreases n,
{
    lemma_last_top_tally_range(colours, n);
    if n > 1 {
        lemma_last_top_tally_max(colours, n - 1);
    }
}

/// Smoothing picks the most frequent colour among the neighbours; among
/// colours that occur equally often, the one whose first occurrence comes
/// last.
pub proof fn lemma_smoothed_colour_most_frequent(colours: Seq<u8>)
    requires
        colours.len() > 0,
    ensures
        forall|v: u8|
            #[trigger] occurrences(colours, v) <= occurrences(colours, smoothed_colour(colours)),
        forall|v: u8, i: int, k: int|
            #![trigger first_occurrence(colours, v, i), first_occurrence(colours, smoothed_colour(colours), k)]
            v != smoothed_colour(colours) && first_occurrence(colours, v, i) && first_occurrence(
                colours,
                smoothed_colour(colours),
                k,
            ) && occurrences(colours, v) == occurrences(colours, smoothed_colour(colours)) ==> i
                < k,
{
    let n = colours.len() as int;
    let best = last_top_tally(colours, n);
    let c = smoothed_colour(colours);
    lemma_last_top_tally_range(colours, n);
    lemma_last_top_tally_max(colours, n);
    assert(first_occurrence(colours, c, best)) by {
        if exists|f: int| 0 <= f < best && colours[f] == c {
            let f = choose|f: int| 0 <= f < best && colours[f] == c;
            lemma_tally_from(colours, f);
            lemma_tally_from(colours, best);
            lemma_count_between_split(colours, c, f, best, n);
            lemma_count_between_split(colours, c, f, f + 1, best);
            assert(count_between(colours, c, f, f + 1) == 1) by {
                assert(count_between(colours, c, f, f) == 0);
            }
            assert(tally(colours, f) > tally(colours, best));
        }
    }
    lemma_tally_of_first(colours, c, best);
    assert forall|v: u8| #[trigger] occurrences(colours, v) <= occurrences(colours, c) by {
        if exists|i: int| 0 <= i < n && colours[i] == v {
            let i = choose|i: int| 0 <= i < n && colours[i] == v;
            lemma_first_occurrence_exists(colours, v, i);
            let f = choose|f: int| f <= i && #[trigger] first_occurrence(colours, v, f);
            lemma_tally_of_first(colours, v, f);
        } else {
            lemma_count_between_absent(colours, v, 0, n);
        }
    }
    assert forall|v: u8, i: int, k: int|
        #![trigger first_occurrence(colours, v, i), first_occurrence(colours, c, k)]
        v != c && first_occurrence(colours, v, i) && first_occurrence(colours, c, k)
            && occurrences(colours, v) == occurrences(colours, c) implies i < k by {
        lemma_tally_of_first(colours, v, i);
        if k < best {
            assert(colours[k] != c);
        }
        if best < k {
            assert(colours[best] != c);
        }
        assert(i <= best);
        assert(i != best);
    }
}

/// Grouping by colour puts every cell in the group of its colour.
pub proof fn lemma_cell_in_its_group(cells: Seq<u8>, n: int, i: int)
    requires
        0 <= i < n <= cells.len(),
    ensures
        first_colours(cells, n).contains(cells[i]),
        cells_coloured(cells, cells[i], n).contains(i as usize),
    decreases n,
{
    if i < n - 1 {
        lemma_cell_in_its_group(cells, n - 1, i);
        let earlier = first_colours(cells, n - 1);
        let k = choose|k: int| 0 <= k < earlier.len() && earlier[k] == cells[i];
        if !earlier.contains(cells[n - 1]) {
            assert(first_colours(cells, n)[k] == cells[i]);
        }
        let listed = cells_coloured(cells, cells[i], n - 1);
        let m = choose|m: int| 0 <= m < listed.len() && listed[m] == i as usize;
        if cells[n - 1] == cells[i] {
            assert(cells_coloured(cells, cells[i], n)[m] == i as usize);
        }
    } else {
        let earlier = first_colours(cells, n - 1);
        if earlier.contains(cells[n - 1]) {
        } else {
            assert(first_colours(cells, n)[earlier.len() as int] == cells[i]);
        }
        let listed = cells_coloured(cells, cells[i], n - 1);
        assert(cells_coloured(cells, cells[i], n)[listed.len() as int] == i as usize);
    }
}

/// A world of plates split into coloured sub-plates.
pub struct SubPlateAutomation {
    pub world: Table<u8>,
}

/// The side of a grid with `len` cells is positive and the row of any of its
/// cells fits an `isize`.
proof fn lemma_row_fits(index: int, side: int)
    requires
        0 <= side,
        0 <= index < side * side,
        side * side <= usize::MAX,
    ensures
        side > 0,
        index / side < isize::MAX,
        signed_coordinate(index / side) == index / side,
{
    assert(side > 0) by (nonlinear_arith)
        requires
            0 <= side,
            0 <= index < side * side,
    ;
    assert(index / side < isize::MAX) by (nonlinear_arith)
        requires
            0 <= index < side * side,
            side > 0,
            side * side <= usize::MAX,
            usize::MAX <= 2 * isize::MAX + 1,
    ;
}

/// On a grid of side at least two every cell has a neighbour, and no cell
/// has more than four.
proof fn lemma_neighbour_count(cells: Seq<u8>, side: int, index: int)
    requires
        side >= 2,
        0 <= index < side * side,
    ensures
        0 < neighbours_of(cells, side, index).len() <= 4,
{
    let x = index % side;
    let y = index / side;
    assert(0 <= y < side) by (nonlinear_arith)
        requires
            0 <= index < side * side,
            side >= 2,
            y == index / side,
    ;
}

/// The position of the first `colour` in `colours`, or their length when
/// there is none.
fn position_of(colours: &Vec<u8>, colour: u8) -> (position: usize)
    ensures
        position <= colours@.len(),
        position < colours@.len() ==> colours@[position as int] == colour,
        forall|g: int| 0 <= g < position ==> colours@[g] != colour,
{
    let mut position: usize = 0;
    while position < colours.len()
        invariant
            position <= colours@.len(),
            forall|g: int| 0 <= g < position ==> colours@[g] != colour,
        decreases colours@.len() - position,
    {
        if colours[position] == colour {
            return position;
        }
        position = position + 1;
    }
    position
}

/// The first colours of the first `n` cells are distinct.
proof fn lemma_first_colours_distinct(cells: Seq<u8>, n: int)
    ensures
        forall|a: int, b: int|
            0 <= a < b < first_colours(cells, n).len() ==> first_colours(cells, n)[a]
                != first_colours(cells, n)[b],
    decreases n,
{
    if n > 0 {
        lemma_first_colours_distinct(cells, n - 1);
        let earlier = first_colours(cells, n - 1);
        if !earlier.contains(cells[n - 1]) {
            let now = earlier.push(cells[n - 1]);
            assert forall|a: int, b: int| 0 <= a < b < now.len() implies now[a] != now[b] by {
                if b == earlier.len() {
                    assert(earlier[a] == now[a]);
                    if now[a] == now[b] {
                        assert(earlier.contains(cells[n - 1]));
                    }
                }
            }
        }
    }
}

/// The distinct non-empty colours of `cells`, increasing.
fn sorted_colours(cells: &Table<u8>) -> (colours: Vec<u8>)
    ensures
        forall|a: int, b: int| 0 <= a < b < colours@.len() ==> colours@[a] < colours@[b],
        forall|c: u8| colours@.contains(c) <==> c != 0 && cells@.contains(c),
{
    let mut present: Vec<bool> = Vec::new();
    let mut v: usize = 0;
    while v < 256
        invariant
            v <= 256,
            present@.len() == v,
            forall|k: int| 0 <= k < v ==> !#[trigger] present@[k],
        decreases 256 - v,
    {
        present.push(false);
        v = v + 1;
    }
    let n = cells.len();
    let mut i: usize = 0;
    while i < n
        invariant
            n == cells@.len(),
            i <= n,
            present@.len() == 256,
            forall|c: u8| #[trigger] present@[c as int] <==> cells@.take(i as int).contains(c),
        decreases n - i,
    {
        let c = *cells.get(i);
        present.set(c as usize, true);
        proof {
            let seen = cells@.take(i as int);
            let now = cells@.take(i + 1);
            assert forall|d: u8| #[trigger] present@[d as int] <==> now.contains(d) by {
                if seen.contains(d) {
                    let k = choose|k: int| 0 <= k < seen.len() && #[trigger] seen[k] == d;
                    assert(now[k] == d);
                }
                if now.contains(d) {
                    let k = choose|k: int| 0 <= k < now.len() && #[trigger] now[k] == d;
                    if k < i {
                        assert(seen[k] == d);
                    } else {
                        assert(d == c);
                    }
                }
                if d == c {
                    assert(now[i as int] == c);
                }
            }
        }
        i = i + 1;
    }
    assert(cells@.take(n as int) =~= cells@);
    let mut colours: Vec<u8> = Vec::new();
    let mut v: usize = 1;
    while v < 256
        invariant
            1 <= v <= 256,
            present@.len() == 256,
            forall|c: u8| #[trigger] present@[c as int] <==> cells@.contains(c),
            forall|a: int, b: int| 0 <= a < b < colours@.len() ==> colours@[a] < colours@[b],
            forall|a: int| 0 <= a < colours@.len() ==> 0 < #[trigger] colours@[a] < v,
            forall|c: u8| 0 < c < v ==> (colours@.contains(c) <==> present@[c as int]),
        decreases 256 - v,
    {
        let ghost before = colours@;
        if present[v] {
            colours.push(v as u8);
        }
        proof {
            assert forall|c: u8| 0 < c < v + 1 implies (colours@.contains(c)
                <==> present@[c as int]) by {
                if colours@.contains(c) {
                    let k = choose|k: int| 0 <= k < colours@.len() && colours@[k] == c;
                    if k < before.len() {
                        assert(before.contains(c));
                    }
                }
                if c < v && before.contains(c) {
                    let k = choose|k: int| 0 <= k < before.len() && before[k] == c;
                    assert(colours@[k] == c);
                }
                if c == v && present@[c as int] {
                    assert(colours@[colours@.len() - 1] == c);
                }
            }
        }
        v = v + 1;
    }
    proof {
        assert forall|c: u8| colours@.contains(c) <==> c != 0 && cells@.contains(c) by {
            if colours@.contains(c) {
                let k = choose|k: int| 0 <= k < colours@.len() && colours@[k] == c;
                assert(0 < colours@[k]);
            }
        }
    }
    colours
}

/// Whether every column below `columns` and row below `rows` of a walk names
/// a cell of a square world of side `side`.
pub open spec fn walk_on_world(side: int, columns: int, rows: int) -> bool {
    columns == 0 || rows == 0 || (columns - 1) + (rows - 1) * side < side * side
}

/// Walks `columns` columns and `rows` rows of `world`, column after column,
/// and lists for each of `colours` the cells holding it.
fn walk_by_colour(world: &Table<u8>, colours: &Vec<u8>, columns: usize, rows: usize) -> (lists:
    Vec<Vec<(usize, usize)>>)
    requires
        world.wf(),
        columns * rows <= usize::MAX,
        walk_on_world(world.dim() as int, columns as int, rows as int),
        forall|a: int, b: int| 0 <= a < b < colours@.len() ==> colours@[a] < colours@[b],
        forall|c: u8| colours@.contains(c) <==> c != 0 && world@.contains(c),
    ensures
        lists@.len() == colours@.len(),
        forall|g: int|
            #![trigger lists@[g]]
            0 <= g < lists@.len() ==> lists@[g].view() == walk_cells(
                world@,
                world.dim() as int,
                rows as int,
                colours@[g],
                columns * rows,
            ),
{
    let side = world.side();
    let ghost cells = world@;
    let mut lists: Vec<Vec<(usize, usize)>> = Vec::new();
    let mut g: usize = 0;
    while g < colours.len()
        invariant
            g <= colours@.len(),
            lists@.len() == g,
            forall|h: int| #![trigger lists@[h]] 0 <= h < g ==> lists@[h].view() == Seq::<(usize, usize)>::empty(),
        decreases colours@.len() - g,
    {
        lists.push(Vec::new());
        g = g + 1;
    }
    let n = columns * rows;
    let mut k: usize = 0;
    while k < n
        invariant
            world.wf(),
            cells == world@,
            side == world.dim(),
            n == columns * rows,
            walk_on_world(side as int, columns as int, rows as int),
            forall|a: int, b: int| 0 <= a < b < colours@.len() ==> colours@[a] < colours@[b],
            forall|c: u8| colours@.contains(c) <==> c != 0 && world@.contains(c),
            k <= n,
            lists@.len() == colours@.len(),
            forall|h: int|
                #![trigger lists@[h]]
                0 <= h < lists@.len() ==> lists@[h].view() == walk_cells(
                    cells,
                    side as int,
                    rows as int,
                    colours@[h],
                    k as int,
                ),
        decreases n - k,
    {
        let x = k / rows;
        let y = k % rows;
        proof {
            assert(rows > 0) by (nonlinear_arith)
                requires
                    k < columns * rows,
            ;
            assert(x < columns) by (nonlinear_arith)
                requires
                    k < columns * rows,
                    rows > 0,
                    x == k / rows,
            ;
            assert(x + y * side <= (columns - 1) + (rows - 1) * side) by (nonlinear_arith)
                requires
                    x < columns,
                    y < rows,
                    side >= 0,
            ;
        }
        let colour = *world.get_dim(x, y);
        let ghost before = lists@;
        if colour != 0 {
            proof {
                assert(cells.contains(colour)) by {
                    assert(cells[x + y * side] == colour);
                }
            }
            let position = position_of(colours, colour);
            proof {
                if position == colours@.len() {
                    assert(colours@.contains(colour));
                    let q = choose|q: int| 0 <= q < colours@.len() && colours@[q] == colour;
                    assert(colours@[q] != colour);
                }
            }
            let mut list: Vec<(usize, usize)> = Vec::new();
            lists.set_and_swap(position, &mut list);
            list.push((x, y));
            lists.set_and_swap(position, &mut list);
        }
        proof {
            assert forall|h: int|
                #![trigger lists@[h]]
                0 <= h < lists@.len() implies lists@[h].view() == walk_cells(
                cells,
                side as int,
                rows as int,
                colours@[h],
                k + 1,
            ) by {
                assert(((k + 1 - 1) / (rows as int), (k + 1 - 1) % (rows as int)) == (
                x as int,
                y as int,
                ));
                if colours@[h] == colour {
                    assert(colour != 0) by {
                        assert(colours@.contains(colours@[h]));
                    }
                } else {
                    assert(lists@[h] == before[h]);
                }
            }
        }
        k = k + 1;
    }
    lists
}

/// A colour that is not among the first colours of the first `n` cells
/// colours none of them.
proof fn lemma_absent_colour(cells: Seq<u8>, colour: u8, n: int)
    requires
        !first_colours(cells, n).contains(colour),
    ensures
        cells_coloured(cells, colour, n) == Seq::<usize>::empty(),
    decreases n,
{
    if n > 0 {
        let earlier = first_colours(cells, n - 1);
        if !earlier.contains(cells[n - 1]) {
            assert(first_colours(cells, n) == earlier.push(cells[n - 1]));
            assert(first_colours(cells, n)[earlier.len() as int] == cells[n - 1]);
        }
        assert forall|c: u8| earlier.contains(c) implies first_colours(cells, n).contains(c) by {
            let k = choose|k: int| 0 <= k < earlier.len() && earlier[k] == c;
            if !earlier.contains(cells[n - 1]) {
                assert(first_colours(cells, n)[k] == c);
            }
        }
        lemma_absent_colour(cells, colour, n - 1);
    }
}

/// The colour a cell starts with in the sub-plate stage: unclaimed on a
/// plate, empty elsewhere.
fn plate_colour(value: bool) -> (colour: u8)
    ensures
        colour == if value {
            UNCLAIMED
        } else {
            0
        },
{
    if value {
        u8::MAX
    } else {
        0
    }
}

impl SubPlateAutomation {
    /// The starting world of sub-plates: plate cells become unclaimed
    /// (`UNCLAIMED`), the others empty.
    pub fn from_plates(plates: &Table<bool>) -> (automation: Self)
        requires
            plates.wf(),
        ensures
            automation.world.wf(),
            automation.world.dim() == plates.dim(),
            automation.world.fill_value() == 0,
            automation.world@.len() == plates@.len(),
            forall|i: int|
                0 <= i < plates@.len() ==> #[trigger] automation.world@[i] == if plates@[i] {
                    UNCLAIMED
                } else {
                    0
                },
    {
        let mut world = Table::new(0u8, plates.side());
        plates.convert_copy(&mut world, plate_colour);
        SubPlateAutomation { world }
    }

    /// Seeds the sub-plate colour `colour` on the cell at `index` if that
    /// cell belongs to a plate, and tells whether it did; a cell of empty
    /// ground is left as it is.
    pub fn seed_at(&mut self, index: usize, colour: u8) -> (seeded: bool)
        requires
            index < old(self).world@.len(),
        ensures
            final(self).world.dim() == old(self).world.dim(),
            final(self).world.fill_value() == old(self).world.fill_value(),
            seeded == (old(self).world@[index as int] != 0),
            seeded ==> final(self).world@ == old(self).world@.update(index as int, colour),
            !seeded ==> final(self).world@ == old(self).world@,
    {
        if *self.world.get(index) == 0 {
            return false;
        }
        self.world.set(index, colour);
        true
    }

    /// Traces the front lines of the sub-plates on `hex_matrix`:
    /// `points[i]` is the column and row of the square world under
    /// hexagonal cell `i`. See `front_lines`.
    pub fn calculate_front_lines(&self, hex_matrix: &mut HexTable<u8>, points: &Vec<(usize, usize)>)
        requires
            self.world.wf(),
            old(hex_matrix).wf(),
            old(hex_matrix).width() < isize::MAX,
            old(hex_matrix).height() < isize::MAX,
            points@.len() == old(hex_matrix)@.len(),
            points_on_square(self.world.dim() as int, points@),
        ensures
            final(hex_matrix).wf(),
            final(hex_matrix).width() == old(hex_matrix).width(),
            final(hex_matrix).height() == old(hex_matrix).height(),
            final(hex_matrix).side_len() == old(hex_matrix).side_len(),
            final(hex_matrix).fill_value() == old(hex_matrix).fill_value(),
            final(hex_matrix)@ == front_lines(
                old(hex_matrix)@,
                sampled_colours(self.world@, self.world.dim() as int, points@),
                old(hex_matrix).width() as int,
                old(hex_matrix).height() as int,
            ),
    {
        let former = hex_matrix.clone();
        let (width, height) = hex_matrix.dimensions();
        let n = width * height;
        let side = self.world.side();
        let ghost sampled = sampled_colours(self.world@, side as int, points@);
        let mut i: usize = 0;
        while i < n
            invariant
                n == old(hex_matrix)@.len(),
                side == self.world.dim(),
                hex_matrix@.len() == n,
                hex_matrix.width() == old(hex_matrix).width(),
                hex_matrix.height() == old(hex_matrix).height(),
                hex_matrix.side_len() == old(hex_matrix).side_len(),
                hex_matrix.fill_value() == old(hex_matrix).fill_value(),
                points@.len() == n,
                self.world.wf(),
                points_on_square(side as int, points@),
                sampled == sampled_colours(self.world@, side as int, points@),
                i <= n,
                forall|k: int| 0 <= k < i ==> #[trigger] hex_matrix@[k] == sampled[k],
            decreases n - i,
        {
            let (x, y) = points[i];
            let colour = *self.world.get_dim(x, y);
            hex_matrix.set(i, colour);
            i = i + 1;
        }
        assert(hex_matrix@ =~= sampled);
        let mut traced = former;
        let mut i: usize = 0;
        while i < n
            invariant
                n == old(hex_matrix)@.len(),
                hex_matrix.wf(),
                hex_matrix@ == sampled,
                width == hex_matrix.width(),
                height == hex_matrix.height(),
                width < isize::MAX,
                height < isize::MAX,
                n == width * height,
                traced@.len() == n,
                traced.width() == old(hex_matrix).width(),
                traced.height() == old(hex_matrix).height(),
                traced.side_len() == old(hex_matrix).side_len(),
                traced.fill_value() == old(hex_matrix).fill_value(),
                i <= n,
                forall|k: int| i <= k < n ==> #[trigger] traced@[k] == old(hex_matrix)@[k],
                forall|k: int|
                    0 <= k < i ==> #[trigger] traced@[k] == front_lines(
                        old(hex_matrix)@,
                        sampled,
                        width as int,
                        height as int,
                    )[k],
            decreases n - i,
        {
            let colour = *hex_matrix.get(i);
            if colour != 0 {
                proof {
                    assert(width > 0) by (nonlinear_arith)
                        requires
                            i < width * height,
                    ;
                    assert((i as int) / (width as int) < height) by (nonlinear_arith)
                        requires
                            i < width * height,
                            width > 0,
                    ;
                }
                let around = hex_matrix.around(i % width, i / width);
                let ghost neighbours = hex_around(
                    sampled,
                    width as int,
                    height as int,
                    (i as int) % (width as int),
                    (i as int) / (width as int),
                );
                let mut alike = true;
                let mut k: usize = 0;
                while k < around.len()
                    invariant
                        around@.len() == neighbours.len(),
                        forall|j: int| 0 <= j < around@.len() ==> *around@[j] == neighbours[j],
                        k <= around@.len(),
                        alike == (forall|j: int| 0 <= j < k ==> #[trigger] neighbours[j] == neighbours[0]),
                    decreases around@.len() - k,
                {
                    let ghost was_alike = alike;
                    if *around[k] != *around[0] {
                        alike = false;
                    }
                    proof {
                        assert(*around@[k as int] == neighbours[k as int]);
                        assert(*around@[0] == neighbours[0]);
                        if alike {
                            assert forall|j: int| 0 <= j < k + 1 implies #[trigger] neighbours[j]
                                == neighbours[0] by {
                                if j < k {
                                    assert(was_alike);
                                }
                            }
                        } else {
                            if was_alike {
                                assert(neighbours[k as int] != neighbours[0]);
                            }
                        }
                    }
                    k = k + 1;
                }
                if alike {
                    traced.set(i, 0);
                } else {
                    traced.set(i, colour);
                }
            }
            i = i + 1;
        }
        assert(traced@ =~= front_lines(old(hex_matrix)@, sampled, width as int, height as int));
        *hex_matrix = traced;
    }

    /// The cells of the world grouped by colour, the colours in the order in
    /// which they first appear, each with the indices of its cells in
    /// increasing order.
    pub fn calculate_subplates(&self) -> (groups: SubPlates)
        ensures
            groups.colours@ == first_colours(self.world@, self.world@.len() as int),
            groups.cells@.len() == groups.colours@.len(),
            forall|g: int|
                #![trigger groups.cells@[g]]
                0 <= g < groups.cells@.len() ==> groups.cells@[g].view() == cells_coloured(
                    self.world@,
                    groups.colours@[g],
                    self.world@.len() as int,
                ),
    {
        let n = self.world.len();
        let ghost cells = self.world@;
        let mut colours: Vec<u8> = Vec::new();
        let mut members: Vec<Vec<usize>> = Vec::new();
        let mut i: usize = 0;
        while i < n
            invariant
                n == cells.len(),
                cells == self.world@,
                i <= n,
                colours@ == first_colours(cells, i as int),
                members@.len() == colours@.len(),
                forall|g: int|
                    #![trigger members@[g]]
                    0 <= g < members@.len() ==> members@[g].view() == cells_coloured(
                        cells,
                        colours@[g],
                        i as int,
                    ),
            decreases n - i,
        {
            let colour = *self.world.get(i);
            let position = position_of(&colours, colour);
            let ghost old_members = members@;
            if position < colours.len() {
                let mut list: Vec<usize> = Vec::new();
                members.set_and_swap(position, &mut list);
                list.push(i);
                members.set_and_swap(position, &mut list);
                proof {
                    assert(first_colours(cells, i + 1) == first_colours(cells, i as int)) by {
                        assert(first_colours(cells, i as int)[position as int] == colour);
                    }
                }
            } else {
                colours.push(colour);
                let mut list: Vec<usize> = Vec::new();
                list.push(i);
                members.push(list);
                proof {
                    assert(!first_colours(cells, i as int).contains(colour));
                    assert(cells_coloured(cells, colour, i as int) =~= Seq::empty()) by {
                        lemma_absent_colour(cells, colour, i as int);
                    }
                }
            }
            proof {
                lemma_first_colours_distinct(cells, i as int);
                assert forall|g: int| 0 <= g < members@.len() implies #[trigger] members@[g].view()
                    == cells_coloured(cells, colours@[g], i + 1) by {
                    if g < old_members.len() && g != position {
                        assert(members@[g] == old_members[g]);
                    }
                }
            }
            i = i + 1;
        }
        SubPlates { colours: colours, cells: members }
    }

    /// Where the sub-plates lie: their colours, the cells of each, and the
    /// cells of a hexagonal grid of `hex_width` columns and `hex_height`
    /// rows whose column and row, read on the world, hold each colour. The
    /// world must hold some empty ground.
    pub fn collision_layout(&self, hex_width: usize, hex_height: usize) -> (layout:
        CollisionLayout)
        requires
            self.world.wf(),
            self.world@.contains(0u8),
            hex_width * hex_height <= usize::MAX,
            walk_on_world(self.world.dim() as int, hex_width as int, hex_height as int),
        ensures
            forall|a: int, b: int|
                0 <= a < b < layout.colours@.len() ==> layout.colours@[a] < layout.colours@[b],
            forall|c: u8| layout.colours@.contains(c) <==> c != 0 && self.world@.contains(c),
            layout.territories@.len() == layout.colours@.len(),
            layout.borders@.len() == layout.colours@.len(),
            forall|g: int|
                #![trigger layout.territories@[g]]
                0 <= g < layout.territories@.len() ==> layout.territories@[g].view() == walk_cells(
                    self.world@,
                    self.world.dim() as int,
                    self.world.dim() as int,
                    layout.colours@[g],
                    self.world@.len() as int,
                ),
            forall|g: int|
                #![trigger layout.borders@[g]]
                0 <= g < layout.borders@.len() ==> layout.borders@[g].view() == walk_cells(
                    self.world@,
                    self.world.dim() as int,
                    hex_height as int,
                    layout.colours@[g],
                    hex_width * hex_height,
                ),
    {
        let side = self.world.side();
        let colours = sorted_colours(&self.world);
        proof {
            assert(walk_on_world(side as int, side as int, side as int)) by {
                if side > 0 {
                    assert((side - 1) + (side - 1) * side < side * side) by (nonlinear_arith)
                        requires
                            side > 0,
                    ;
                }
            }
        }
        let territories = walk_by_colour(&self.world, &colours, side, side);
        let borders = walk_by_colour(&self.world, &colours, hex_width, hex_height);
        CollisionLayout { colours: colours, territories: territories, borders: borders }
    }

    /// One smoothing pass, cell by cell in index order: each cell takes the
    /// colour `smoothed_colour` picks among its neighbours, as the pass has
    /// left them.
    pub fn smooth(&mut self)
        requires
            old(self).world.wf(),
            old(self).world.dim() != 1,
        ensures
            final(self).world.wf(),
            final(self).world.dim() == old(self).world.dim(),
            final(self).world.fill_value() == old(self).world.fill_value(),
            forall|i: int|
                0 <= i < old(self).world@.len() ==> #[trigger] final(self).world@[i]
                    == smoothed_colour(
                    neighbours_of(
                        mid_pass(final(self).world@, old(self).world@, i),
                        old(self).world.dim() as int,
                        i,
                    ),
                ),
    {
        let side = self.world.side();
        let n = side * side;
        let ghost before = self.world@;
        let mut index: usize = 0;
        while index < n
            invariant
                n == before.len(),
                n == side * side,
                side != 1,
                self.world.wf(),
                self.world.dim() == side,
                self.world.fill_value() == old(self).world.fill_value(),
                before == old(self).world@,
                side == old(self).world.dim(),
                index <= n,
                self.world@.skip(index as int) == before.skip(index as int),
                self.world@.len() == n,
                forall|i: int|
                    0 <= i < index ==> #[trigger] self.world@[i] == smoothed_colour(
                        neighbours_of(mid_pass(self.world@, before, i), side as int, i),
                    ),
            decreases n - index,
        {
            let ghost current = self.world@;
            proof {
                lemma_row_fits(index as int, side as int);
                lemma_neighbour_count(current, side as int, index as int);
                assert(mid_pass(current, before, index as int) =~= current);
            }
            let around = self.world.around_line(index);
            let ghost neighbours = neighbours_of(current, side as int, index as int);
            assert(Seq::new(around@.len(), |i: int| *around@[i]) =~= neighbours);
            let colour = smoothed_colour_exec(&around);
            self.world.set(index, colour);
            proof {
                let after = self.world@;
                assert forall|i: int| 0 <= i < index implies mid_pass(after, before, i)
                    == mid_pass(current, before, i) by {
                    assert(mid_pass(after, before, i) =~= mid_pass(current, before, i));
                }
                assert(mid_pass(after, before, index as int) =~= current);
                assert forall|i: int| 0 <= i < index + 1 implies #[trigger] after[i]
                    == smoothed_colour(neighbours_of(mid_pass(after, before, i), side as int, i)) by {
                    if i < index {
                        assert(after[i] == current[i]);
                    }
                }
                assert(after.skip(index + 1) =~= before.skip(index + 1)) by {
                    assert forall|k: int| 0 <= k < after.len() - (index + 1) implies #[trigger] after.skip(
                        index + 1,
                    )[k] == before.skip(index + 1)[k] by {
                        assert(current.skip(index as int)[k + 1] == before.skip(index as int)[k
                            + 1]);
                    }
                }
            }
            index = index + 1;
        }
    }

    /// The sub-plate colours among the neighbours of the cell at `index`.
    pub fn spread_candidates(&self, index: usize) -> (candidates: Vec<u8>)
        requires
            self.world.wf(),
            index < self.world@.len(),
        ensures
            candidates@ == sub_plate_colours(
                neighbours_of(self.world@, self.world.dim() as int, index as int),
            ),
    {
        let side = self.world.side();
        proof {
            lemma_row_fits(index as int, side as int);
        }
        let around = self.world.around_line(index);
        let ghost all = neighbours_of(self.world@, side as int, index as int);
        let mut candidates: Vec<u8> = Vec::new();
        let mut i: usize = 0;
        while i < around.len()
            invariant
                i <= around@.len(),
                around@.len() == all.len(),
                forall|k: int| 0 <= k < around@.len() ==> *around@[k] == all[k],
                candidates@ == sub_plate_colours(all.take(i as int)),
            decreases around@.len() - i,
        {
            assert(all.take(i + 1).drop_last() =~= all.take(i as int));
            let colour = *around[i];
            if colour != UNCLAIMED && colour != 0 {
                candidates.push(colour);
            }
            i = i + 1;
        }
        assert(all.take(around@.len() as int) =~= all);
        candidates
    }

    /// The spreading rule for the cell at `index` with its draw `unit` from
    /// `[0, 1)` (as a numerator over `UNIT_SCALE`) and its pick `pick`: see
    /// `spread_cell`. The other cells keep their colours.
    pub fn spread_at(&mut self, index: usize, unit: u32, pick: usize)
        requires
            old(self).world.wf(),
            index < old(self).world@.len(),
            unit < UNIT_SCALE,
        ensures
            final(self).world.wf(),
            final(self).world.dim() == old(self).world.dim(),
            final(self).world.fill_value() == old(self).world.fill_value(),
            final(self).world@ == old(self).world@.update(
                index as int,
                spread_cell(
                    old(self).world@,
                    old(self).world.dim() as int,
                    index as int,
                    unit,
                    pick as int,
                ),
            ),
            old(self).world@[index as int] != UNCLAIMED ==> final(self).world@ == old(self).world@,
            unit < SPREAD_SKIP_BELOW ==> final(self).world@ == old(self).world@,
            old(self).world@[index as int] == UNCLAIMED && unit >= SPREAD_SKIP_BELOW && pick
                < sub_plate_colours(
                square_around(
                    old(self).world@,
                    old(self).world.dim() as int,
                    index as int % old(self).world.dim() as int,
                    index as int / old(self).world.dim() as int,
                ),
            ).len() ==> final(self).world@ == old(self).world@.update(
                index as int,
                sub_plate_colours(
                    square_around(
                        old(self).world@,
                        old(self).world.dim() as int,
                        index as int % old(self).world.dim() as int,
                        index as int / old(self).world.dim() as int,
                    ),
                )[pick as int],
            ),
    {
        proof {
            lemma_spread_rule(
                self.world@,
                self.world.dim() as int,
                index as int,
                unit,
                pick as int,
            );
        }
        let ghost before = self.world@;
        if *self.world.get(index) == UNCLAIMED && unit >= SPREAD_SKIP_BELOW {
            let candidates = self.spread_candidates(index);
            if pick < candidates.len() {
                self.world.set(index, candidates[pick]);
                return;
            }
        }
        assert(before.update(index as int, before[index as int]) =~= before);
    }

    /// One spreading pass, cell by cell in index order: an unclaimed cell
    /// draws from `[0, 1)`; when the draw is at least `0.8` and some
    /// neighbour (as the pass has left it) belongs to a sub-plate, the cell
    /// takes the colour of one of those neighbours, drawn uniformly.
    pub fn next(&mut self, rng: &mut ChaCha8Rng)
        requires
            old(self).world.wf(),
        ensures
            final(self).world.wf(),
            final(self).world.dim() == old(self).world.dim(),
            final(self).world.fill_value() == old(self).world.fill_value(),
            forall|i: int|
                0 <= i < old(self).world@.len() ==> {
                    let candidates = sub_plate_colours(
                        neighbours_of(
                            mid_pass(final(self).world@, old(self).world@, i),
                            old(self).world.dim() as int,
                            i,
                        ),
                    );
                    &&& old(self).world@[i] != UNCLAIMED ==> #[trigger] final(self).world@[i]
                        == old(self).world@[i]
                    &&& old(self).world@[i] == UNCLAIMED ==> final(self).world@[i] == UNCLAIMED
                        || candidates.contains(final(self).world@[i])
                },
            exists|units: Seq<u32>, picks: Seq<int>|
                #[trigger] spread_by(
                    old(self).world@,
                    final(self).world@,
                    old(self).world.dim() as int,
                    units,
                    picks,
                ),
    {
        let side = self.world.side();
        let n = side * side;
        let ghost before = self.world@;
        let ghost mut units: Seq<u32> = Seq::empty();
        let ghost mut picks: Seq<int> = Seq::empty();
        let mut index: usize = 0;
        while index < n
            invariant
                n == before.len(),
                self.world.wf(),
                self.world.dim() == side,
                self.world.fill_value() == old(self).world.fill_value(),
                before == old(self).world@,
                side == old(self).world.dim(),
                index <= n,
                self.world@.skip(index as int) == before.skip(index as int),
                self.world@.len() == n,
                units.len() == index,
                picks.len() == index,
                forall|i: int| 0 <= i < index ==> #[trigger] units[i] < UNIT_SCALE,
                forall|i: int|
                    0 <= i < index ==> #[trigger] self.world@[i] == spread_cell(
                        mid_pass(self.world@, before, i),
                        side as int,
                        i,
                        units[i],
                        picks[i],
                    ),
                forall|i: int|
                    0 <= i < index ==> {
                        let candidates = sub_plate_colours(
                            neighbours_of(mid_pass(self.world@, before, i), side as int, i),
                        );
                        &&& before[i] != UNCLAIMED ==> #[trigger] self.world@[i] == before[i]
                        &&& before[i] == UNCLAIMED ==> self.world@[i] == UNCLAIMED
                            || candidates.contains(self.world@[i])
                    },
            decreases n - index,
        {
            let ghost current = self.world@;
            proof {
                assert(current[index as int] == before[index as int]) by {
                    assert(current.skip(index as int)[0] == before.skip(index as int)[0]);
                }
                assert(mid_pass(current, before, index as int) =~= current);
            }
            let colour = *self.world.get(index);
            let ghost candidates_here = sub_plate_colours(
                neighbours_of(current, side as int, index as int),
            );
            let ghost mut drawn: u32 = 0;
            let ghost mut picked: int = 0;
            if colour == UNCLAIMED {
                let unit = random_unit(rng);
                let mut pick: usize = 0;
                if unit >= SPREAD_SKIP_BELOW {
                    let count = self.spread_candidates(index).len();
                    if count > 0 {
                        pick = random_range(rng, 0, count);
                    }
                }
                proof {
                    drawn = unit;
                    picked = pick as int;
                    if unit >= SPREAD_SKIP_BELOW && pick < candidates_here.len() {
                        assert(candidates_here.contains(candidates_here[pick as int]));
                    }
                }
                self.spread_at(index, unit, pick);
            }
            proof {
                let after = self.world@;
                assert(after.len() == n);
                assert(colour != UNCLAIMED ==> after[index as int] == colour);
                assert(colour == UNCLAIMED ==> after[index as int] == UNCLAIMED
                    || candidates_here.contains(after[index as int]));
                assert forall|i: int| 0 <= i < index implies mid_pass(after, before, i)
                    == mid_pass(current, before, i) by {
                    assert(mid_pass(after, before, i) =~= mid_pass(current, before, i));
                }
                assert(mid_pass(after, before, index as int) =~= current);
                assert(after[index as int] == spread_cell(
                    current,
                    side as int,
                    index as int,
                    drawn,
                    picked,
                ));
                let new_units = units.push(drawn);
                let new_picks = picks.push(picked);
                assert forall|i: int| 0 <= i < index + 1 implies #[trigger] after[i]
                    == spread_cell(
                    mid_pass(after, before, i),
                    side as int,
                    i,
                    new_units[i],
                    new_picks[i],
                ) by {
                    if i < index {
                        assert(after[i] == current[i]);
                        assert(new_units[i] == units[i]);
                        assert(new_picks[i] == picks[i]);
                    }
                }
                assert forall|i: int| 0 <= i < index + 1 implies #[trigger] new_units[i]
                    < UNIT_SCALE by {
                    if i < index {
                        assert(new_units[i] == units[i]);
                    }
                }
                units = new_units;
                picks = new_picks;
                assert forall|i: int| 0 <= i < index + 1 implies {
                    let candidates = sub_plate_colours(
                        neighbours_of(mid_pass(after, before, i), side as int, i),
                    );
                    &&& before[i] != UNCLAIMED ==> #[trigger] after[i] == before[i]
                    &&& before[i] == UNCLAIMED ==> after[i] == UNCLAIMED || candidates.contains(
                        after[i],
                    )
                } by {
                    if i < index {
                        assert(after[i] == current[i]);
                    }
                }
                assert(after.skip(index + 1) =~= before.skip(index + 1)) by {
                    assert forall|k: int| 0 <= k < after.len() - (index + 1) implies #[trigger] after.skip(
                        index + 1,
                    )[k] == before.skip(index + 1)[k] by {
                        assert(current.skip(index as int)[k + 1] == before.skip(index as int)[k
                            + 1]);
                    }
                }
            }
            index = index + 1;
        }
        assert(spread_by(before, self.world@, side as int, units, picks));
    }
}

} // verus!
