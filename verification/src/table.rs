use vstd::prelude::*;
use vstd::arithmetic::div_mod::lemma_fundamental_div_mod_converse;

verus! {

/// A square grid of `side * side` cells stored row after row: the cell in
/// column `x` and row `y` sits at index `x + y * side`.
pub struct Table<T> {
    default: T,
    data: Vec<T>,
    side: usize,
}

/// Whether column `x`, row `y` lies on a square grid of side `side`.
pub open spec fn on_square(side: int, x: int, y: int) -> bool {
    0 <= x < side && 0 <= y < side
}

/// The cell at `(x, y)` of a square grid stored row after row, as a
/// one-element sequence, or nothing off the grid.
pub open spec fn square_cell_if<T>(cells: Seq<T>, side: int, x: int, y: int) -> Seq<T> {
    if on_square(side, x, y) {
        seq![cells[x + y * side]]
    } else {
        Seq::empty()
    }
}

/// The on-grid neighbours of `(x, y)` on a square grid stored row after row,
/// in the order: above, below, right, left.
pub open spec fn square_around<T>(cells: Seq<T>, side: int, x: int, y: int) -> Seq<T> {
    square_cell_if(cells, side, x, y - 1) + square_cell_if(cells, side, x, y + 1)
        + square_cell_if(cells, side, x + 1, y) + square_cell_if(cells, side, x - 1, y)
}

/// The two values of a `usize` coordinate whose neighbours cannot be
/// counted in an `isize`: `isize::MAX` and the one above it.
pub open spec fn is_wrap_edge(v: int) -> bool {
    v == isize::MAX || v == isize::MAX + 1
}

/// The signed number with the same bits as the `usize` value `v`.
pub open spec fn signed_coordinate(v: int) -> int {
    if v <= isize::MAX {
        v
    } else {
        v - usize::MAX - 1
    }
}

/// Reads `v` as the signed number with the same bits.
fn to_signed(v: usize) -> (signed: isize)
    requires
        !is_wrap_edge(v as int),
    ensures
        signed == signed_coordinate(v as int),
        isize::MIN < signed < isize::MAX,
{
    assert(usize::MAX == 2 * isize::MAX + 1);
    if v <= isize::MAX as usize {
        v as isize
    } else {
        -((usize::MAX - v) as isize) - 1
    }
}

impl<T> View for Table<T> {
    type V = Seq<T>;

    /// The cells, row after row.
    closed spec fn view(&self) -> Seq<T> {
        self.data@
    }
}

impl<T> Table<T> {
    /// The length of a side of the grid.
    pub closed spec fn dim(&self) -> nat {
        self.side as nat
    }

    /// The value a table was first filled with; `grow` keeps it.
    pub closed spec fn fill_value(&self) -> T {
        self.default
    }

    /// A table holds exactly `side * side` cells.
    pub open spec fn wf(&self) -> bool {
        &&& self@.len() == self.dim() * self.dim()
        &&& self.dim() * self.dim() <= usize::MAX
    }

    /// The cells next to `(x, y)` that lie on the grid, in the order: above,
    /// below, right, left.
    pub open spec fn around_spec(&self, x: int, y: int) -> Seq<T> {
        square_around(self@, self.dim() as int, x, y)
    }

    /// Whether column `x`, row `y` lies on the grid.
    pub open spec fn in_grid(&self, x: int, y: int) -> bool {
        on_square(self.dim() as int, x, y)
    }

    /// The cell in column `x` and row `y`.
    pub open spec fn cell(&self, x: int, y: int) -> T {
        self@[x + y * self.dim()]
    }
}

impl<T: Copy> Table<T> {
    /// A grid of `side * side` cells, each holding `fill`.
    pub fn new(fill: T, side: usize) -> (table: Self)
        requires
            side * side <= usize::MAX,
        ensures
            table.wf(),
            table.dim() == side,
            table.fill_value() == fill,
            table@ == Seq::new((side * side) as nat, |i: int| fill),
    {
        let n = side * side;
        let mut data: Vec<T> = Vec::with_capacity(n);
        let mut i: usize = 0;
        while i < n
            invariant
                i <= n,
                data@ == Seq::new(i as nat, |k: int| fill),
            decreases n - i,
        {
            data.push(fill);
            i = i + 1;
        }
        Table { default: fill, data, side }
    }

    /// The length of a side of the grid.
    pub fn side(&self) -> (side: usize)
        ensures
            side == self.dim(),
    {
        self.side
    }

    /// The number of cells.
    pub fn len(&self) -> (len: usize)
        ensures
            len == self@.len(),
    {
        self.data.len()
    }

    /// The cell at `index`, counting row after row.
    pub fn get(&self, index: usize) -> (value: &T)
        requires
            index < self@.len(),
        ensures
            *value == self@[index as int],
    {
        &self.data[index]
    }

    /// The cell in column `x` and row `y`.
    pub fn get_dim(&self, x: usize, y: usize) -> (value: &T)
        requires
            x + y * self.dim() < self@.len(),
        ensures
            *value == self.cell(x as int, y as int),
    {
        proof {
            assert(self.data@.len() == self.data.len());
            assert(y * self.side <= x + y * self.side);
        }
        self.get(x + y * self.side)
    }

    /// Replaces the cell in column `x` and row `y`.
    pub fn set_dim(&mut self, x: usize, y: usize, value: T)
        requires
            x + y * old(self).dim() < old(self)@.len(),
        ensures
            final(self)@ == old(self)@.update(x + y * old(self).dim(), value),
            final(self).dim() == old(self).dim(),
            final(self).fill_value() == old(self).fill_value(),
    {
        proof {
            assert(self.data@.len() == self.data.len());
            assert(y * self.side <= x + y * self.side);
        }
        let index = x + y * self.side;
        self.set(index, value);
    }

    /// The on-grid neighbours of the cell at `index` (row after row), in the
    /// order above, below, right, left.
    pub fn around_line(&self, index: usize) -> (around: Vec<&T>)
        requires
            self.wf(),
            self.dim() > 0,
            !is_wrap_edge((index as int) / (self.dim() as int)),
        ensures
            around@.len() == self.around_spec(
                (index as int) % (self.dim() as int),
                signed_coordinate((index as int) / (self.dim() as int)),
            ).len(),
            forall|i: int|
                0 <= i < around@.len() ==> *around@[i] == self.around_spec(
                    (index as int) % (self.dim() as int),
                    signed_coordinate((index as int) / (self.dim() as int)),
                )[i],
    {
        proof {
            lemma_side_fits_isize(self.side as int);
            assert(signed_coordinate((index as int) % (self.dim() as int)) == (index as int) % (
            self.dim() as int));
        }
        self.around(index % self.side, index / self.side)
    }

    /// The on-grid neighbours of column `x`, row `y`, in the order above,
    /// below, right, left. A coordinate is read as the signed number with
    /// the same bits, so that `usize::MAX` stands for `-1`.
    pub fn around(&self, x: usize, y: usize) -> (around: Vec<&T>)
        requires
            self.wf(),
            !is_wrap_edge(x as int),
            !is_wrap_edge(y as int),
        ensures
            around@.len() == self.around_spec(
                signed_coordinate(x as int),
                signed_coordinate(y as int),
            ).len(),
            forall|i: int|
                0 <= i < around@.len() ==> *around@[i] == self.around_spec(
                    signed_coordinate(x as int),
                    signed_coordinate(y as int),
                )[i],
    {
        proof {
            lemma_side_fits_isize(self.side as int);
        }
        let side = self.side as isize;
        let xs = to_signed(x);
        let ys = to_signed(y);
        let ghost s = self.around_spec(xs as int, ys as int);
        let ghost cells = self@;
        let ghost n = self.side as int;
        let ghost a = square_cell_if(cells, n, xs as int, ys - 1);
        let ghost b = square_cell_if(cells, n, xs as int, ys + 1);
        let ghost c = square_cell_if(cells, n, xs + 1, ys as int);
        let ghost d = square_cell_if(cells, n, xs - 1, ys as int);
        let mut around: Vec<&T> = Vec::new();
        if 0 <= xs && xs < side && 1 <= ys && ys - 1 < side {
            proof {
                lemma_grid_index(xs as int, ys - 1, n);
            }
            around.push(self.get_dim(xs as usize, (ys - 1) as usize));
        }
        assert(around@.len() == a.len());
        assert(forall|i: int| 0 <= i < around@.len() ==> *around@[i] == a[i]);
        if 0 <= xs && xs < side && 0 <= ys + 1 && ys + 1 < side {
            proof {
                lemma_grid_index(xs as int, ys + 1, n);
            }
            around.push(self.get_dim(xs as usize, (ys + 1) as usize));
        }
        assert(around@.len() == (a + b).len());
        assert(forall|i: int| 0 <= i < around@.len() ==> *around@[i] == (a + b)[i]);
        if 0 <= xs + 1 && xs + 1 < side && 0 <= ys && ys < side {
            proof {
                lemma_grid_index(xs + 1, ys as int, n);
            }
            around.push(self.get_dim((xs + 1) as usize, ys as usize));
        }
        assert(around@.len() == (a + b + c).len());
        assert(forall|i: int| 0 <= i < around@.len() ==> *around@[i] == (a + b + c)[i]);
        if 1 <= xs && xs - 1 < side && 0 <= ys && ys < side {
            proof {
                lemma_grid_index(xs - 1, ys as int, n);
            }
            around.push(self.get_dim((xs - 1) as usize, ys as usize));
        }
        assert(s == a + b + c + d);
        around
    }

    /// Doubles the side of the grid: every cell becomes a two-by-two block
    /// holding its value.
    pub fn grow(&mut self)
        requires
            old(self).wf(),
            (2 * old(self).dim()) * (2 * old(self).dim()) <= usize::MAX,
        ensures
            final(self).wf(),
            final(self).dim() == 2 * old(self).dim(),
            final(self).fill_value() == old(self).fill_value(),
            forall|x: int, y: int|
                0 <= x < final(self).dim() && 0 <= y < final(self).dim()
                    ==> #[trigger] final(self).cell(x, y) == old(self).cell(x / 2, y / 2),
            forall|value: T|
                #[trigger] count_of(final(self)@, value) == 4 * count_of(old(self)@, value),
    {
        let side = self.side;
        proof {
            let d = 2 * side;
            assert(d <= usize::MAX) by (nonlinear_arith)
                requires
                    d * d <= usize::MAX,
                    d >= 0,
            ;
        }
        let new_side = side * 2;
        let ghost n = new_side as int;
        let mut data: Vec<T> = Vec::with_capacity(new_side * new_side);
        let mut y: usize = 0;
        while y < new_side
            invariant
                side == self.dim(),
                self.wf(),
                new_side == 2 * side,
                n == new_side,
                new_side * new_side <= usize::MAX,
                y <= new_side,
                data@.len() == y * n,
                forall|j: int|
                    0 <= j < data@.len() ==> #[trigger] data@[j] == self.cell((j % n) / 2, (j / n) / 2),
            decreases new_side - y,
        {
            let mut x: usize = 0;
            while x < new_side
                invariant
                    side == self.dim(),
                    self.wf(),
                    new_side == 2 * side,
                    n == new_side,
                    new_side * new_side <= usize::MAX,
                    y < new_side,
                    x <= new_side,
                    data@.len() == y * n + x,
                    forall|j: int|
                        0 <= j < data@.len() ==> #[trigger] data@[j] == self.cell(
                            (j % n) / 2,
                            (j / n) / 2,
                        ),
                decreases new_side - x,
            {
                proof {
                    lemma_grid_index((x / 2) as int, (y / 2) as int, side as int);
                    lemma_fundamental_div_mod_converse(y * n + x, n, y as int, x as int);
                }
                let value = *self.get_dim(x / 2, y / 2);
                data.push(value);
                x = x + 1;
            }
            proof {
                assert(y * n + n == (y + 1) * n) by (nonlinear_arith);
            }
            y = y + 1;
        }
        let ghost old_table = *self;
        *self = Table { default: self.default, data, side: new_side };
        proof {
            assert(data@.len() == n * n);
            assert forall|x: int, y: int|
                0 <= x < n && 0 <= y < n implies #[trigger] self.cell(x, y) == old_table.cell(
                x / 2,
                y / 2,
            ) by {
                lemma_grid_index(x, y, n);
                lemma_fundamental_div_mod_converse(x + y * n, n, y, x);
                assert(x + y * n == y * n + x);
            }
            assert forall|value: T| #[trigger] count_of(self@, value) == 4 * count_of(
                old_table@,
                value,
            ) by {
                lemma_grown_counts(old_table, *self, value);
            }
        }
    }

    /// An iterator over the cells, row after row.
    pub fn iter(&self) -> (cells: std::slice::Iter<'_, T>)
        ensures
            vstd::std_specs::slice::into_iter_elts(cells) == self@,
    {
        self.data.as_slice().iter()
    }

    /// Writes `f` of each cell of this table into the cell of `table` at the
    /// same index; the cells of `table` past this table's length keep their
    /// values.
    pub fn convert_copy<X: Copy>(&self, table: &mut Table<X>, f: impl Fn(T) -> X)
        requires
            old(table)@.len() >= self@.len(),
            forall|i: int| 0 <= i < self@.len() ==> f.requires((#[trigger] self@[i],)),
        ensures
            final(table).dim() == old(table).dim(),
            final(table).fill_value() == old(table).fill_value(),
            final(table)@.len() == old(table)@.len(),
            forall|i: int|
                0 <= i < self@.len() ==> f.ensures((self@[i],), #[trigger] final(table)@[i]),
            forall|i: int|
                self@.len() <= i < old(table)@.len() ==> #[trigger] final(table)@[i] == old(
                    table,
                )@[i],
    {
        let n = self.data.len();
        let mut i: usize = 0;
        while i < n
            invariant
                n == self@.len(),
                i <= n,
                table@.len() == old(table)@.len(),
                table@.len() >= n,
                table.dim() == old(table).dim(),
                table.fill_value() == old(table).fill_value(),
                forall|k: int| 0 <= k < self@.len() ==> f.requires((#[trigger] self@[k],)),
                forall|k: int| 0 <= k < i ==> f.ensures((self@[k],), #[trigger] table@[k]),
                forall|k: int| i <= k < old(table)@.len() ==> #[trigger] table@[k] == old(table)@[k],
            decreases n - i,
        {
            let value = f(self.data[i]);
            table.set(i, value);
            i = i + 1;
        }
    }

    /// Replaces all the cells at once, keeping the side.
    pub(crate) fn replace_cells(&mut self, cells: Vec<T>)
        requires
            cells@.len() == old(self)@.len(),
        ensures
            final(self)@ == cells@,
            final(self).dim() == old(self).dim(),
            final(self).fill_value() == old(self).fill_value(),
    {
        self.data = cells;
    }

    /// Replaces the cell at `index`.
    pub fn set(&mut self, index: usize, value: T)
        requires
            index < old(self)@.len(),
        ensures
            final(self)@ == old(self)@.update(index as int, value),
            final(self).dim() == old(self).dim(),
            final(self).fill_value() == old(self).fill_value(),
    {
        self.data.set(index, value);
    }
}

impl<T: Copy> Clone for Table<T> {
    /// A table with the same side, fill value and cells.
    fn clone(&self) -> (copy: Self)
        ensures
            copy@ == self@,
            copy.dim() == self.dim(),
            copy.fill_value() == self.fill_value(),
    {
        let mut data: Vec<T> = Vec::with_capacity(self.data.len());
        let mut i: usize = 0;
        while i < self.data.len()
            invariant
                i <= self.data@.len(),
                data@ == self.data@.subrange(0, i as int),
            decreases self.data@.len() - i,
        {
            data.push(self.data[i]);
            i = i + 1;
        }
        Table { default: self.default, data, side: self.side }
    }
}

impl<T> Table<T> {
    /// The cells as an owned vector, row after row.
    pub closed spec fn into_cells(self) -> Vec<T> {
        self.data
    }
}

impl<T> From<Table<T>> for Vec<T> {
    /// The cells of the table, row after row.
    fn from(table: Table<T>) -> (cells: Vec<T>)
        ensures
            cells@ == table@,
    {
        table.data
    }
}

impl<T> vstd::std_specs::convert::FromSpecImpl<Table<T>> for Vec<T> {
    open spec fn obeys_from_spec() -> bool {
        true
    }

    open spec fn from_spec(table: Table<T>) -> Vec<T> {
        table.into_cells()
    }
}

/// The byte a cell of a boolean table shows in each of the four RGBA
/// channels: full for a set cell, zero otherwise.
pub open spec fn bool_channel(value: bool, channel: int) -> u8 {
    if value {
        255
    } else {
        0
    }
}

/// The byte a cell of a byte table shows in an RGBA channel: its value in
/// red, green and blue, and full opacity exactly where it is not zero.
pub open spec fn byte_channel(value: u8, channel: int) -> u8 {
    if channel < 3 {
        value
    } else if value != 0 {
        255
    } else {
        0
    }
}

impl Table<bool> {
    /// The RGBA bytes of the table, four per cell, row after row.
    pub fn get_image_data(&self) -> (image: Vec<u8>)
        requires
            self.wf(),
            4 * self@.len() <= usize::MAX,
        ensures
            image@.len() == 4 * self@.len(),
            forall|j: int|
                0 <= j < image@.len() ==> #[trigger] image@[j] == bool_channel(
                    self@[j / 4],
                    j % 4,
                ),
            forall|i: int|
                0 <= i < self@.len() ==> {
                    let shade: u8 = if #[trigger] self@[i] {
                        255
                    } else {
                        0
                    };
                    &&& image@[4 * i] == shade
                    &&& image@[4 * i + 1] == shade
                    &&& image@[4 * i + 2] == shade
                    &&& image@[4 * i + 3] == shade
                },
    {
        let n = self.data.len();
        let mut image: Vec<u8> = Vec::with_capacity(n * 4);
        let mut i: usize = 0;
        while i < n
            invariant
                n == self@.len(),
                4 * n <= usize::MAX,
                i <= n,
                image@.len() == 4 * i,
                forall|j: int|
                    0 <= j < image@.len() ==> #[trigger] image@[j] == bool_channel(
                        self@[j / 4],
                        j % 4,
                    ),
            decreases n - i,
        {
            let value: u8 = if self.data[i] {
                255
            } else {
                0
            };
            image.push(value);
            image.push(value);
            image.push(value);
            image.push(value);
            i = i + 1;
        }
        proof {
            assert forall|k: int| 0 <= k < self@.len() implies {
                let shade: u8 = if #[trigger] self@[k] {
                    255
                } else {
                    0
                };
                &&& image@[4 * k] == shade
                &&& image@[4 * k + 1] == shade
                &&& image@[4 * k + 2] == shade
                &&& image@[4 * k + 3] == shade
            } by {
                lemma_pixel_bytes(k);
                assert(image@[4 * k] == bool_channel(self@[k], 0));
                assert(image@[4 * k + 1] == bool_channel(self@[k], 1));
                assert(image@[4 * k + 2] == bool_channel(self@[k], 2));
                assert(image@[4 * k + 3] == bool_channel(self@[k], 3));
            }
        }
        image
    }
}

impl Table<u8> {
    /// The RGBA bytes of the table, four per cell, row after row.
    pub fn get_image_data(&self) -> (image: Vec<u8>)
        requires
            self.wf(),
            4 * self@.len() <= usize::MAX,
        ensures
            image@.len() == 4 * self@.len(),
            forall|j: int|
                0 <= j < image@.len() ==> #[trigger] image@[j] == byte_channel(
                    self@[j / 4],
                    j % 4,
                ),
            forall|i: int|
                0 <= i < self@.len() ==> {
                    &&& image@[4 * i] == #[trigger] self@[i]
                    &&& image@[4 * i + 1] == self@[i]
                    &&& image@[4 * i + 2] == self@[i]
                    &&& image@[4 * i + 3] == if self@[i] != 0 {
                        255u8
                    } else {
                        0u8
                    }
                },
    {
        let n = self.data.len();
        let mut image: Vec<u8> = Vec::with_capacity(n * 4);
        let mut i: usize = 0;
        while i < n
            invariant
                n == self@.len(),
                4 * n <= usize::MAX,
                i <= n,
                image@.len() == 4 * i,
                forall|j: int|
                    0 <= j < image@.len() ==> #[trigger] image@[j] == byte_channel(
                        self@[j / 4],
                        j % 4,
                    ),
            decreases n - i,
        {
            let value = self.data[i];
            let alpha: u8 = if value != 0 {
                255
            } else {
                0
            };
            image.push(value);
            image.push(value);
            image.push(value);
            image.push(alpha);
            i = i + 1;
        }
        proof {
            assert forall|k: int| 0 <= k < self@.len() implies {
                &&& image@[4 * k] == #[trigger] self@[k]
                &&& image@[4 * k + 1] == self@[k]
                &&& image@[4 * k + 2] == self@[k]
                &&& image@[4 * k + 3] == if self@[k] != 0 {
                    255u8
                } else {
                    0u8
                }
            } by {
                lemma_pixel_bytes(k);
                assert(image@[4 * k] == byte_channel(self@[k], 0));
                assert(image@[4 * k + 1] == byte_channel(self@[k], 1));
                assert(image@[4 * k + 2] == byte_channel(self@[k], 2));
                assert(image@[4 * k + 3] == byte_channel(self@[k], 3));
            }
        }
        image
    }
}

/// The four bytes of pixel `k` sit at `4 * k` up to `4 * k + 3`.
proof fn lemma_pixel_bytes(k: int)
    requires
        0 <= k,
    ensures
        (4 * k) / 4 == k && (4 * k) % 4 == 0,
        (4 * k + 1) / 4 == k && (4 * k + 1) % 4 == 1,
        (4 * k + 2) / 4 == k && (4 * k + 2) % 4 == 2,
        (4 * k + 3) / 4 == k && (4 * k + 3) % 4 == 3,
{
}

/// How often `value` occurs among `cells`.
pub open spec fn count_of<T>(cells: Seq<T>, value: T) -> nat
    decreases cells.len(),
{
    if cells.len() == 0 {
        0
    } else {
        count_of(cells.drop_last(), value) + if cells.last() == value {
            1nat
        } else {
            0nat
        }
    }
}

/// Counts over two sequences put end to end add up.
proof fn lemma_count_of_concat<T>(a: Seq<T>, b: Seq<T>, value: T)
    ensures
        count_of(a + b, value) == count_of(a, value) + count_of(b, value),
    decreases b.len(),
{
    if b.len() > 0 {
        assert((a + b).drop_last() =~= a + b.drop_last());
        lemma_count_of_concat(a, b.drop_last(), value);
    } else {
        assert(a + b =~= a);
    }
}

/// A sequence that repeats every element of `row` twice in place holds each
/// value twice as often.
proof fn lemma_count_of_doubled<T>(row: Seq<T>, doubled: Seq<T>, value: T)
    requires
        doubled.len() == 2 * row.len(),
        forall|i: int| 0 <= i < doubled.len() ==> #[trigger] doubled[i] == row[i / 2],
    ensures
        count_of(doubled, value) == 2 * count_of(row, value),
    decreases row.len(),
{
    if row.len() > 0 {
        let m = row.len() - 1;
        let head = doubled.take(2 * m);
        let tail = doubled.subrange(2 * m, 2 * m + 2);
        assert(doubled =~= head + tail);
        assert forall|i: int| 0 <= i < head.len() implies #[trigger] head[i] == row.drop_last()[i
            / 2] by {
            assert(head[i] == doubled[i]);
        }
        lemma_count_of_doubled(row.drop_last(), head, value);
        lemma_count_of_concat(head, tail, value);
        assert(tail.len() == 2);
        assert(tail[0] == doubled[2 * m]);
        assert(doubled[2 * m] == row[(2 * m) / 2]);
        assert(tail[1] == doubled[2 * m + 1]);
        assert(doubled[2 * m + 1] == row[(2 * m + 1) / 2]);
        assert((2 * m) / 2 == m && (2 * m + 1) / 2 == m);
        let first = tail.drop_last();
        assert(first.drop_last() =~= Seq::<T>::empty());
        assert(count_of(first.drop_last(), value) == 0);
        assert(first.last() == row[m]);
        assert(tail.last() == row[m]);
        assert(row.last() == row[m]);
        assert(row.drop_last().len() == m);
        assert(count_of(first, value) == if row[m] == value {
            1nat
        } else {
            0nat
        });
        assert(count_of(tail, value) == 2 * if row[m] == value {
            1nat
        } else {
            0nat
        });
        assert(count_of(row, value) == count_of(row.drop_last(), value) + if row[m] == value {
            1nat
        } else {
            0nat
        });
    }
}

/// The first `k + 1` rows of a grid of width `width` are its first `k` rows
/// followed by row `k`.
proof fn lemma_take_rows<T>(cells: Seq<T>, width: int, k: int)
    requires
        0 <= k,
        0 <= width,
        (k + 1) * width <= cells.len(),
    ensures
        k * width <= (k + 1) * width,
        cells.take((k + 1) * width) == cells.take(k * width) + cells.subrange(
            k * width,
            (k + 1) * width,
        ),
{
    assert(k * width <= (k + 1) * width) by (nonlinear_arith)
        requires
            0 <= k,
            0 <= width,
    ;
    assert(cells.take((k + 1) * width) =~= cells.take(k * width) + cells.subrange(
        k * width,
        (k + 1) * width,
    ));
}

/// In a grid grown from `before`, the first `2 * k` rows hold each value four
/// times as often as the first `k` rows of `before`.
proof fn lemma_grown_rows<T>(before: Table<T>, after: Table<T>, value: T, k: int)
    requires
        before.wf(),
        after.wf(),
        after.dim() == 2 * before.dim(),
        0 <= k <= before.dim(),
        forall|x: int, y: int|
            0 <= x < after.dim() && 0 <= y < after.dim() ==> #[trigger] after.cell(x, y)
                == before.cell(x / 2, y / 2),
    ensures
        count_of(after@.take((2 * k) * after.dim()), value) == 4 * count_of(
            before@.take(k * before.dim()),
            value,
        ),
    decreases k,
{
    let s = before.dim() as int;
    let w = 2 * s;
    if k == 0 {
        assert(before@.take(0) =~= Seq::<T>::empty());
        assert(after@.take(0) =~= Seq::<T>::empty());
        assert((2 * k) * w == 0 && k * s == 0) by (nonlinear_arith)
            requires
                k == 0,
        ;
    } else {
        let j = k - 1;
        lemma_grown_rows(before, after, value, j);
        let row = before@.subrange(j * s, (j + 1) * s);
        assert((j + 1) * s <= s * s) by (nonlinear_arith)
            requires
                j < s,
                0 <= j,
        ;
        assert((2 * j + 2) * w <= w * w) by (nonlinear_arith)
            requires
                j < s,
                0 <= j,
                w == 2 * s,
        ;
        lemma_take_rows(before@, s, j);
        lemma_count_of_concat(before@.take(j * s), row, value);
        assert((2 * j + 1) * w <= (2 * j + 2) * w) by (nonlinear_arith)
            requires
                0 <= j,
                0 <= w,
        ;
        assert(after@.len() == w * w);
        lemma_take_rows(after@, w, 2 * j);
        lemma_take_rows(after@, w, 2 * j + 1);
        let upper = after@.subrange((2 * j) * w, (2 * j + 1) * w);
        let lower = after@.subrange((2 * j + 1) * w, (2 * j + 2) * w);
        lemma_count_of_concat(after@.take((2 * j) * w), upper, value);
        lemma_count_of_concat(after@.take((2 * j + 1) * w), lower, value);
        assert(row.len() == s) by (nonlinear_arith)
            requires
                row.len() == (j + 1) * s - j * s,
        ;
        assert((2 * j + 1) * w - (2 * j) * w == w && (2 * j + 2) * w - (2 * j + 1) * w == w)
            by (nonlinear_arith);
        assert forall|i: int| 0 <= i < upper.len() implies #[trigger] upper[i] == row[i / 2] by {
            assert(upper[i] == after@[(2 * j) * w + i]);
            assert(after.cell(i, 2 * j) == before.cell(i / 2, j));
            assert((2 * j) * w + i == i + (2 * j) * w) by (nonlinear_arith);
            assert(j * s + i / 2 == i / 2 + j * s) by (nonlinear_arith);
            assert(0 <= i / 2 < s);
        }
        assert forall|i: int| 0 <= i < lower.len() implies #[trigger] lower[i] == row[i / 2] by {
            assert(lower[i] == after@[(2 * j + 1) * w + i]);
            assert(after.cell(i, 2 * j + 1) == before.cell(i / 2, (2 * j + 1) / 2));
            assert((2 * j + 1) / 2 == j);
            assert((2 * j + 1) * w + i == i + (2 * j + 1) * w) by (nonlinear_arith);
            assert(j * s + i / 2 == i / 2 + j * s) by (nonlinear_arith);
            assert(0 <= i / 2 < s);
        }
        lemma_count_of_doubled(row, upper, value);
        lemma_count_of_doubled(row, lower, value);
        assert((2 * j + 1 + 1) * w == (2 * k) * w);
        assert((j + 1) * s == k * s);
        assert(count_of(after@.take((2 * k) * w), value) == count_of(
            after@.take((2 * j) * w),
            value,
        ) + count_of(upper, value) + count_of(lower, value));
        assert(count_of(before@.take(k * s), value) == count_of(before@.take(j * s), value)
            + count_of(row, value));
        assert(count_of(upper, value) == 2 * count_of(row, value));
        assert(count_of(lower, value) == 2 * count_of(row, value));
        assert(count_of(after@.take((2 * j) * w), value) == 4 * count_of(before@.take(j * s), value));
        assert(count_of(after@.take((2 * k) * w), value) == 4 * count_of(before@.take(k * s), value));
    }
}

/// Growing a grid makes each value occur four times as often.
proof fn lemma_grown_counts<T>(before: Table<T>, after: Table<T>, value: T)
    requires
        before.wf(),
        after.wf(),
        after.dim() == 2 * before.dim(),
        forall|x: int, y: int|
            0 <= x < after.dim() && 0 <= y < after.dim() ==> #[trigger] after.cell(x, y)
                == before.cell(x / 2, y / 2),
    ensures
        count_of(after@, value) == 4 * count_of(before@, value),
{
    let s = before.dim() as int;
    let w = 2 * s;
    lemma_grown_rows(before, after, value, s);
    assert(before@.take(s * s) =~= before@);
    assert(after@.take(2 * s * w) =~= after@) by {
        assert(2 * s * w == w * w) by (nonlinear_arith)
            requires
                w == 2 * s,
        ;
    }
}

/// A cell of a grid has one neighbour for each direction (up, down, right,
/// left) that stays on the grid: two in a corner, three on an edge and four
/// inside.
pub proof fn lemma_around_count<T>(table: Table<T>, x: int, y: int)
    requires
        table.in_grid(x, y),
    ensures
        table.around_spec(x, y).len() == (if y > 0 {
            1int
        } else {
            0
        }) + (if y + 1 < table.dim() {
            1int
        } else {
            0
        }) + (if x + 1 < table.dim() {
            1int
        } else {
            0
        }) + (if x > 0 {
            1int
        } else {
            0
        }),
{
}

/// A cell on a grid of side `side` has an index below `side * side`.
pub proof fn lemma_grid_index(x: int, y: int, side: int)
    requires
        0 <= x < side,
        0 <= y < side,
    ensures
        0 <= x + y * side < side * side,
{
    assert(0 <= x + y * side < side * side) by (nonlinear_arith)
        requires
            0 <= x < side,
            0 <= y < side,
    ;
}

/// On a grid whose cell count fits a `usize`, a side is below `isize::MAX`.
proof fn lemma_side_fits_isize(side: int)
    requires
        0 <= side,
        side * side <= usize::MAX,
    ensures
        side < isize::MAX,
{
    assert(usize::MAX == 0xffff_ffff || usize::MAX == 0xffff_ffff_ffff_ffff);
    assert(side < isize::MAX) by (nonlinear_arith)
        requires
            0 <= side,
            side * side <= usize::MAX,
            usize::MAX == 0xffff_ffff && isize::MAX == 0x7fff_ffff || usize::MAX
                == 0xffff_ffff_ffff_ffff && isize::MAX == 0x7fff_ffff_ffff_ffff,
    ;
}

} // verus!
