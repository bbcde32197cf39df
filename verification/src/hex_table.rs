use vstd::prelude::*;

verus! {

/// Whether `(x, y)` lies on a grid of `width` columns and `height` rows.
pub open spec fn on_hex_grid(width: int, height: int, x: int, y: int) -> bool {
    0 <= x < width && 0 <= y < height
}

/// The cell at `(x, y)` of a grid of `width` columns stored row after row, as
/// a one-element sequence, or nothing off the grid.
pub open spec fn hex_cell_if<T>(cells: Seq<T>, width: int, height: int, x: int, y: int) -> Seq<T> {
    if on_hex_grid(width, height, x, y) {
        seq![cells[x + y * width]]
    } else {
        Seq::empty()
    }
}

/// The six on-grid neighbours of `(x, y)` on a hexagonal grid whose odd rows
/// are shifted half a cell to the right, in the order: `(x, y - 1)`,
/// `(x + 1, y - 1)`, `(x - 1, y)`, `(x + 1, y)`, `(x - 1, y + 1)`, `(x, y + 1)`.
pub open spec fn hex_around<T>(cells: Seq<T>, width: int, height: int, x: int, y: int) -> Seq<T> {
    hex_cell_if(cells, width, height, x, y - 1) + hex_cell_if(cells, width, height, x + 1, y - 1)
        + hex_cell_if(cells, width, height, x - 1, y) + hex_cell_if(cells, width, height, x + 1, y)
        + hex_cell_if(cells, width, height, x - 1, y + 1) + hex_cell_if(
        cells,
        width,
        height,
        x,
        y + 1,
    )
}

/// A hexagonal grid of `width * height` cells stored row after row: the cell
/// in column `x` and row `y` sits at index `x + y * width`. A grid made for a
/// picture of side `len` has `len` columns.
pub struct HexTable<T> {
    default: T,
    data: Vec<T>,
    len: usize,
    dimensions: (usize, usize),
}

impl<T> View for HexTable<T> {
    type V = Seq<T>;

    /// The cells, row after row.
    closed spec fn view(&self) -> Seq<T> {
        self.data@
    }
}

impl<T> HexTable<T> {
    /// The number of columns.
    pub closed spec fn width(&self) -> nat {
        self.dimensions.0 as nat
    }

    /// The number of rows.
    pub closed spec fn height(&self) -> nat {
        self.dimensions.1 as nat
    }

    /// The side of the square picture the grid covers.
    pub closed spec fn side_len(&self) -> nat {
        self.len as nat
    }

    /// The value the grid was filled with.
    pub closed spec fn fill_value(&self) -> T {
        self.default
    }

    /// The grid holds exactly `width * height` cells.
    pub open spec fn wf(&self) -> bool {
        &&& self@.len() == self.width() * self.height()
        &&& self.width() * self.height() <= usize::MAX
    }

    /// The cell in column `x` and row `y`.
    pub open spec fn cell(&self, x: int, y: int) -> T {
        self@[x + y * self.width()]
    }

    /// The on-grid neighbours of `(x, y)`.
    pub open spec fn around_spec(&self, x: int, y: int) -> Seq<T> {
        hex_around(self@, self.width() as int, self.height() as int, x, y)
    }
}

impl<T: Copy> HexTable<T> {
    /// A grid for a picture of side `len`: `len` columns and `rows` rows, each
    /// cell holding `default`.
    pub fn new(len: usize, default: T, rows: usize) -> (table: Self)
        requires
            len * rows <= usize::MAX,
        ensures
            table.wf(),
            table.width() == len,
            table.height() == rows,
            table.side_len() == len,
            table.fill_value() == default,
            table@ == Seq::new((len * rows) as nat, |i: int| default),
    {
        let n = len * rows;
        let mut data: Vec<T> = Vec::with_capacity(n);
        let mut i: usize = 0;
        while i < n
            invariant
                i <= n,
                data@ == Seq::new(i as nat, |k: int| default),
            decreases n - i,
        {
            data.push(default);
            i = i + 1;
        }
        HexTable { default, len, data, dimensions: (len, rows) }
    }

    /// The number of columns and rows.
    pub fn dimensions(&self) -> (dimensions: (usize, usize))
        ensures
            dimensions.0 == self.width(),
            dimensions.1 == self.height(),
    {
        self.dimensions
    }

    /// The side of the square picture the grid covers.
    pub fn len(&self) -> (len: usize)
        ensures
            len == self.side_len(),
    {
        self.len
    }

    /// The cell at `index`, counting row after row.
    pub fn get(&self, index: usize) -> (value: &T)
        requires
            index < self@.len(),
        ensures
            *value == self@[index as int],
    {
        &self.data[index]
    }

    /// The cell in column `x` and row `y`.
    pub fn get_dim(&self, x: usize, y: usize) -> (value: &T)
        requires
            x + y * self.width() < self@.len(),
        ensures
            *value == self.cell(x as int, y as int),
    {
        proof {
            assert(self.data@.len() == self.data.len());
            assert(y * self.dimensions.0 <= x + y * self.dimensions.0);
        }
        let index = self.to_index(x, y);
        self.get(index)
    }

    /// Replaces the cell at `index`.
    pub fn set(&mut self, index: usize, value: T)
        requires
            index < old(self)@.len(),
        ensures
            final(self)@ == old(self)@.update(index as int, value),
            final(self).width() == old(self).width(),
            final(self).height() == old(self).height(),
            final(self).side_len() == old(self).side_len(),
            final(self).fill_value() == old(self).fill_value(),
    {
        self.data.set(index, value);
    }

    /// Replaces the cell in column `x` and row `y`.
    pub fn set_dim(&mut self, x: usize, y: usize, value: T)
        requires
            x + y * old(self).width() < old(self)@.len(),
        ensures
            final(self)@ == old(self)@.update(x + y * old(self).width(), value),
            final(self).width() == old(self).width(),
            final(self).height() == old(self).height(),
            final(self).side_len() == old(self).side_len(),
            final(self).fill_value() == old(self).fill_value(),
    {
        proof {
            assert(self.data@.len() == self.data.len());
            assert(y * self.dimensions.0 <= x + y * self.dimensions.0);
        }
        let index = self.to_index(x, y);
        self.set(index, value);
    }

    /// The index of column `x`, row `y`.
    fn to_index(&self, x: usize, y: usize) -> (index: usize)
        requires
            x + y * self.width() <= usize::MAX,
        ensures
            index == x + y * self.width(),
    {
        proof {
            assert(y * self.dimensions.0 <= x + y * self.dimensions.0);
        }
        x + y * self.dimensions.0
    }

    /// The column and row of `index`.
    fn to_coordinates(&self, index: usize) -> (coordinates: (usize, usize))
        requires
            self.width() > 0,
        ensures
            coordinates.0 == index as int % self.width() as int,
            coordinates.1 == index as int / self.width() as int,
    {
        (index % self.dimensions.0, index / self.dimensions.0)
    }

    /// The on-grid neighbours of column `x`, row `y`, in the order
    /// `(x, y - 1)`, `(x + 1, y - 1)`, `(x - 1, y)`, `(x + 1, y)`,
    /// `(x - 1, y + 1)`, `(x, y + 1)`.
    pub fn around(&self, x: usize, y: usize) -> (around: Vec<&T>)
        requires
            self.wf(),
            x < isize::MAX,
            y < isize::MAX,
        ensures
            around@.len() == self.around_spec(x as int, y as int).len(),
            forall|i: int|
                0 <= i < around@.len() ==> *around@[i] == self.around_spec(x as int, y as int)[i],
    {
        let w = self.dimensions.0;
        let h = self.dimensions.1;
        let ghost cells = self@;
        let ghost wi = w as int;
        let ghost hi = h as int;
        let ghost (xi, yi) = (x as int, y as int);
        let ghost s1 = hex_cell_if(cells, wi, hi, xi, yi - 1);
        let ghost s2 = s1 + hex_cell_if(cells, wi, hi, xi + 1, yi - 1);
        let ghost s3 = s2 + hex_cell_if(cells, wi, hi, xi - 1, yi);
        let ghost s4 = s3 + hex_cell_if(cells, wi, hi, xi + 1, yi);
        let ghost s5 = s4 + hex_cell_if(cells, wi, hi, xi - 1, yi + 1);
        let ghost s6 = s5 + hex_cell_if(cells, wi, hi, xi, yi + 1);
        let mut around: Vec<&T> = Vec::new();
        if x < w && y >= 1 && y - 1 < h {
            proof {
                lemma_hex_index(xi, yi - 1, wi, hi);
            }
            around.push(self.get_dim(x, y - 1));
        }
        assert(around@.len() == s1.len());
        assert(forall|i: int| 0 <= i < around@.len() ==> *around@[i] == s1[i]);
        if x + 1 < w && y >= 1 && y - 1 < h {
            proof {
                lemma_hex_index(xi + 1, yi - 1, wi, hi);
            }
            around.push(self.get_dim(x + 1, y - 1));
        }
        assert(around@.len() == s2.len());
        assert(forall|i: int| 0 <= i < around@.len() ==> *around@[i] == s2[i]);
        if x >= 1 && x - 1 < w && y < h {
            proof {
                lemma_hex_index(xi - 1, yi, wi, hi);
            }
            around.push(self.get_dim(x - 1, y));
        }
        assert(around@.len() == s3.len());
        assert(forall|i: int| 0 <= i < around@.len() ==> *around@[i] == s3[i]);
        if x + 1 < w && y < h {
            proof {
                lemma_hex_index(xi + 1, yi, wi, hi);
            }
            around.push(self.get_dim(x + 1, y));
        }
        assert(around@.len() == s4.len());
        assert(forall|i: int| 0 <= i < around@.len() ==> *around@[i] == s4[i]);
        if x >= 1 && x - 1 < w && y + 1 < h {
            proof {
                lemma_hex_index(xi - 1, yi + 1, wi, hi);
            }
            around.push(self.get_dim(x - 1, y + 1));
        }
        assert(around@.len() == s5.len());
        assert(forall|i: int| 0 <= i < around@.len() ==> *around@[i] == s5[i]);
        if x < w && y + 1 < h {
            proof {
                lemma_hex_index(xi, yi + 1, wi, hi);
            }
            around.push(self.get_dim(x, y + 1));
        }
        assert(self.around_spec(xi, yi) == s6);
        around
    }
}

impl<T: Copy> Clone for HexTable<T> {
    /// A grid with the same dimensions, side, fill value and cells.
    fn clone(&self) -> (copy: Self)
        ensures
            copy@ == self@,
            copy.width() == self.width(),
            copy.height() == self.height(),
            copy.side_len() == self.side_len(),
            copy.fill_value() == self.fill_value(),
    {
        let mut data: Vec<T> = Vec::with_capacity(self.data.len());
        let mut i: usize = 0;
        while i < self.data.len()
            invariant
                i <= self.data@.len(),
                data@ == self.data@.subrange(0, i as int),
            decreases self.data@.len() - i,
        {
            data.push(self.data[i]);
            i = i + 1;
        }
        HexTable { default: self.default, data, len: self.len, dimensions: self.dimensions }
    }
}

/// A cell of a hexagonal grid has one neighbour for each of its six
/// directions that stays on the grid.
pub proof fn lemma_hex_around_count<T>(table: HexTable<T>, x: int, y: int)
    requires
        on_hex_grid(table.width() as int, table.height() as int, x, y),
    ensures
        table.around_spec(x, y).len() == (if y > 0 {
            1int
        } else {
            0
        }) + (if y > 0 && x + 1 < table.width() {
            1int
        } else {
            0
        }) + (if x > 0 {
            1int
        } else {
            0
        }) + (if x + 1 < table.width() {
            1int
        } else {
            0
        }) + (if x > 0 && y + 1 < table.height() {
            1int
        } else {
            0
        }) + (if y + 1 < table.height() {
            1int
        } else {
            0
        }),
{
}

/// A cell on a grid of `width` columns and `height` rows has an index below
/// `width * height`.
pub proof fn lemma_hex_index(x: int, y: int, width: int, height: int)
    requires
        0 <= x < width,
        0 <= y < height,
    ensures
        0 <= x + y * width < width * height,
{
    assert(0 <= x + y * width < width * height) by (nonlinear_arith)
        requires
            0 <= x < width,
            0 <= y < height,
    ;
}

/// Column and row of an index, and the index of a column and row, undo each
/// other: on a grid of `width` columns, the index `x + y * width` of column
/// `x` (below `width`) and row `y` has column `x` and row `y`, and every index
/// is its column plus its row times `width`.
pub proof fn lemma_index_coordinates_round_trip(width: int, x: int, y: int, index: int)
    requires
        width > 0,
        0 <= x < width,
        0 <= y,
        0 <= index,
    ensures
        (x + y * width) % width == x,
        (x + y * width) / width == y,
        index % width + (index / width) * width == index,
{
    vstd::arithmetic::div_mod::lemma_fundamental_div_mod_converse(x + y * width, width, y, x);
    vstd::arithmetic::div_mod::lemma_fundamental_div_mod(index, width);
    assert(width * (index / width) == (index / width) * width) by (nonlinear_arith);
}

} // verus!
