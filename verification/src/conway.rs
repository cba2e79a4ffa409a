use vstd::prelude::*;
use vstd::pervasive::VecAdditionalExecFns;

verus! {

/// A `rows` by `cols` grid, stored row by row.
#[derive(PartialEq, Eq)]
pub struct Grid<T> {
    rows: usize,
    cols: usize,
    grid: Vec<T>,
}

/// Index of cell `(row, col)` in the row-major layout of a grid with `cols` columns.
pub open spec fn cell_index(cols: int, row: int, col: int) -> int {
    row * cols + col
}

/// A cell of the grid lies in a row and a column of it.
proof fn lemma_in_grid_index(rows: int, cols: int, row: int, col: int)
    requires
        0 <= row < rows,
        0 <= col < cols,
    ensures
        0 <= cell_index(cols, row, col) < rows * cols,
{
    assert(row * cols + col < rows * cols) by (nonlinear_arith)
        requires
            0 <= row < rows,
            0 <= col < cols,
    ;
    assert(0 <= row * cols) by (nonlinear_arith)
        requires
            0 <= row,
            0 <= col < cols,
    ;
}

impl<T> Grid<T> {
    #[verifier::type_invariant]
    spec fn shape_ok(self) -> bool {
        self.grid@.len() == self.rows * self.cols
    }

    /// Number of rows.
    pub closed spec fn rows(&self) -> nat {
        self.rows as nat
    }

    /// Number of columns.
    pub closed spec fn cols(&self) -> nat {
        self.cols as nat
    }

    /// The cells, row by row.
    pub closed spec fn cells(&self) -> Seq<T> {
        self.grid@
    }
}

impl<T: Clone> Clone for Grid<T> {
    fn clone(&self) -> (res: Self)
        ensures
            res.rows() == self.rows(),
            res.cols() == self.cols(),
            res.cells().len() == self.cells().len(),
            forall|i: int|
                0 <= i < self.cells().len() ==> cloned(self.cells()[i], #[trigger] res.cells()[i]),
    {
        proof {
            use_type_invariant(self);
        }
        Grid { rows: self.rows, cols: self.cols, grid: self.grid.clone() }
    }
}

impl<T: Clone + Default> Grid<T> {
    /// A grid whose every cell is a clone of one `T::default()` value.
    pub fn new(rows: usize, cols: usize) -> (res: Self)
        requires
            rows * cols <= usize::MAX,
        ensures
            res.rows() == rows,
            res.cols() == cols,
            res.cells().len() == rows * cols,
            exists|d: T|
                call_ensures(T::default, (), d) && forall|i: int|
                    0 <= i < rows * cols ==> cloned(d, #[trigger] res.cells()[i]),
    {
        let d = T::default();
        let grid = vec![d; rows * cols];
        Self { rows, cols, grid }
    }

    /// A grid holding clones of the cells of `grid`, taken row by row.
    pub fn from_slice(grid: &[T], rows: usize, cols: usize) -> (res: Self)
        requires
            grid@.len() == rows * cols,
        ensures
            res.rows() == rows,
            res.cols() == cols,
            res.cells().len() == grid@.len(),
            forall|i: int| 0 <= i < grid@.len() ==> cloned(grid@[i], #[trigger] res.cells()[i]),
    {
        let mut cells: Vec<T> = Vec::new();
        let mut i: usize = 0;
        while i < grid.len()
            invariant
                i <= grid@.len(),
                cells@.len() == i,
                forall|j: int| 0 <= j < i ==> cloned(grid@[j], #[trigger] cells@[j]),
            decreases grid@.len() - i,
        {
            cells.push(grid[i].clone());
            i = i + 1;
        }
        Self { rows, cols, grid: cells }
    }

    /// Clones of all cells, row by row.
    pub fn get_grid(&self) -> (res: Vec<T>)
        ensures
            res@.len() == self.cells().len(),
            self.cells().len() == self.rows() * self.cols(),
            forall|i: int| 0 <= i < res@.len() ==> cloned(self.cells()[i], #[trigger] res@[i]),
    {
        proof {
            use_type_invariant(self);
        }
        self.grid.clone()
    }

    /// `(rows, cols)`.
    pub fn size(&self) -> (res: (usize, usize))
        ensures
            res.0 == self.rows(),
            res.1 == self.cols(),
            self.cells().len() == self.rows() * self.cols(),
    {
        proof {
            use_type_invariant(self);
        }
        (self.rows, self.cols)
    }

    /// The cell at `row * cols + col` in the row-major layout.
    pub fn get(&self, row: usize, col: usize) -> (res: &T)
        requires
            cell_index(self.cols() as int, row as int, col as int) < self.cells().len(),
        ensures
            *res == self.cells()[cell_index(self.cols() as int, row as int, col as int)],
    {
        proof {
            use_type_invariant(self);
        }
        let len = self.grid.len();
        assert((row as int) * (self.cols as int) + (col as int) < len);
        &self.grid[row * self.cols + col]
    }

    /// Replaces the cell at `row * cols + col` in the row-major layout.
    pub fn set(&mut self, value: T, row: usize, col: usize)
        requires
            cell_index(old(self).cols() as int, row as int, col as int) < old(self).cells().len(),
        ensures
            final(self).rows() == old(self).rows(),
            final(self).cols() == old(self).cols(),
            final(self).cells() == old(self).cells().update(
                cell_index(old(self).cols() as int, row as int, col as int),
                value,
            ),
    {
        proof {
            use_type_invariant(&*self);
        }
        let len = self.grid.len();
        assert((row as int) * (self.cols as int) + (col as int) < len);
        let idx = row * self.cols + col;
        let mut taken = Grid { rows: 0, cols: 0, grid: Vec::new() };
        std::mem::swap(self, &mut taken);
        let Grid { rows, cols, grid: mut cells } = taken;
        cells.set(idx, value);
        *self = Grid { rows, cols, grid: cells };
    }
}

} // verus!

verus! {

/// The cell at offset `(dr, dc)` from `(row, col)`, kept only when `keep` holds.
pub open spec fn offset_if(row: int, col: int, dr: int, dc: int, keep: bool) -> Seq<(int, int)> {
    if keep {
        seq![(row + dr, col + dc)]
    } else {
        Seq::empty()
    }
}

/// The cells around `(row, col)`, in row-major order, whose row offset lies in
/// `lo_r..=hi_r` and whose column offset lies in `lo_c..=hi_c` (the cell itself excluded).
pub open spec fn window(row: int, col: int, lo_r: int, hi_r: int, lo_c: int, hi_c: int) -> Seq<
    (int, int),
> {
    offset_if(row, col, -1, -1, lo_r <= -1 && lo_c <= -1) + offset_if(
        row,
        col,
        -1,
        0,
        lo_r <= -1,
    ) + offset_if(row, col, -1, 1, lo_r <= -1 && 1 <= hi_c) + offset_if(
        row,
        col,
        0,
        -1,
        lo_c <= -1,
    ) + offset_if(row, col, 0, 1, 1 <= hi_c) + offset_if(row, col, 1, -1, 1 <= hi_r && lo_c <= -1)
        + offset_if(row, col, 1, 0, 1 <= hi_r) + offset_if(row, col, 1, 1, 1 <= hi_r && 1 <= hi_c)
}

/// The cells adjacent to `(row, col)` (horizontally, vertically or diagonally)
/// that lie inside a `rows` by `cols` grid, in row-major order.
pub open spec fn adjacent_cells(rows: int, cols: int, row: int, col: int) -> Seq<(int, int)> {
    window(
        row,
        col,
        if row == 0 { 0 } else { -1 },
        if row + 1 >= rows { 0 } else { 1 },
        if col == 0 { 0 } else { -1 },
        if col + 1 >= cols { 0 } else { 1 },
    )
}

/// What `Grid::neighbours` lists for the cell `(row, col)`.
///
/// A grid of one row lists the cells beside the cell in that row, and a grid of
/// one column the cells above and below it. Otherwise a first row or first
/// column cuts the window on that side, and a last row (or last column) cuts it
/// only when it is not also the first one. A cell outside the grid gets a list
/// by the same rules.
pub open spec fn neighbour_list(rows: int, cols: int, row: int, col: int) -> Seq<(int, int)> {
    if rows == 1 && row == 0 {
        if col == 0 {
            if cols == 1 {
                Seq::empty()
            } else {
                seq![(0, 1)]
            }
        } else if col == cols - 1 {
            seq![(0, cols - 2)]
        } else {
            seq![(0, col - 1), (0, col + 1)]
        }
    } else if cols == 1 && col == 0 {
        if row == 0 {
            seq![(1, 0)]
        } else if row == rows - 1 {
            seq![(rows - 2, 0)]
        } else {
            seq![(row - 1, 0), (row + 1, 0)]
        }
    } else {
        window(
            row,
            col,
            if row == 0 { 0 } else { -1 },
            if row != 0 && row == rows - 1 { 0 } else { 1 },
            if col == 0 { 0 } else { -1 },
            if col != 0 && col == cols - 1 { 0 } else { 1 },
        )
    }
}

/// The cells for which `Grid::neighbours` gives a list: it computes `rows - 1`,
/// `cols - 1`, `row + 1` and `col + 1` for every cell but `(0, 0)`, and
/// `cols - 1` is not needed for the first column.
pub open spec fn neighbours_defined(rows: int, cols: int, row: int, col: int) -> bool {
    ||| row == 0 && col == 0
    ||| {
        &&& rows >= 1
        &&& row < usize::MAX
        &&& col < usize::MAX
        &&& col != 0 ==> cols >= 1
    }
}

/// The neighbours of every cell of a grid are its adjacent cells inside the
/// grid, in row-major order.
pub proof fn lemma_neighbours_are_adjacent(rows: int, cols: int, row: int, col: int)
    requires
        0 <= row < rows,
        0 <= col < cols,
    ensures
        neighbour_list(rows, cols, row, col) == adjacent_cells(rows, cols, row, col),
{
    let adj = adjacent_cells(rows, cols, row, col);
    if rows == 1 && row == 0 {
        if col == 0 {
            if cols == 1 {
                assert(adj =~= Seq::<(int, int)>::empty());
            } else {
                assert(adj =~= seq![(0int, 1int)]);
            }
        } else if col == cols - 1 {
            assert(adj =~= seq![(0int, cols - 2)]);
        } else {
            assert(adj =~= seq![(0int, col - 1), (0int, col + 1)]);
        }
    } else if cols == 1 && col == 0 {
        if row == 0 {
            assert(adj =~= seq![(1int, 0int)]);
        } else if row == rows - 1 {
            assert(adj =~= seq![(rows - 2, 0int)]);
        } else {
            assert(adj =~= seq![(row - 1, 0int), (row + 1, 0int)]);
        }
    }
}

/// `a` comes before `b` in row-major order.
pub open spec fn row_major_before(a: (int, int), b: (int, int)) -> bool {
    a.0 < b.0 || (a.0 == b.0 && a.1 < b.1)
}

/// `p` is one of the eight cells that touch `(row, col)`.
pub open spec fn touches(row: int, col: int, p: (int, int)) -> bool {
    &&& row - 1 <= p.0 <= row + 1
    &&& col - 1 <= p.1 <= col + 1
    &&& p != (row, col)
}

/// Appending `o`, which is the cell `c` when `keep` holds and nothing otherwise,
/// to cells that all come before `c`.
proof fn lemma_append_offset(x: Seq<(int, int)>, o: Seq<(int, int)>, c: (int, int), keep: bool)
    requires
        keep ==> o == seq![c],
        !keep ==> o == Seq::<(int, int)>::empty(),
        forall|i: int, j: int| 0 <= i < j < x.len() ==> row_major_before(#[trigger] x[i], #[trigger] x[j]),
        forall|i: int| 0 <= i < x.len() ==> row_major_before(#[trigger] x[i], c),
    ensures
        forall|i: int, j: int|
            0 <= i < j < (x + o).len() ==> row_major_before(#[trigger] (x + o)[i], #[trigger] (x + o)[j]),
        forall|i: int| 0 <= i < (x + o).len() ==> row_major_before(#[trigger] (x + o)[i], c) || (x + o)[i] == c,
        forall|p: (int, int)| #[trigger] (x + o).contains(p) <==> x.contains(p) || (keep && p == c),
{
    let y = x + o;
    assert forall|i: int| 0 <= i < x.len() implies y[i] == x[i] by {}
    if keep {
        assert(y[x.len() as int] == c);
    }
    assert forall|p: (int, int)| #[trigger] y.contains(p) <==> x.contains(p) || (keep && p == c) by {
        if y.contains(p) {
            let i = choose|i: int| 0 <= i < y.len() && y[i] == p;
            if i < x.len() {
                assert(x[i] == p);
            }
        }
        if x.contains(p) {
            let i = choose|i: int| 0 <= i < x.len() && x[i] == p;
            assert(y[i] == p);
        }
    }
}

/// The adjacent cells of a cell inside the grid are exactly the cells of the
/// grid that touch it, each once, in row-major order.
pub proof fn lemma_adjacent_cells_exact(rows: int, cols: int, row: int, col: int)
    requires
        0 <= row < rows,
        0 <= col < cols,
    ensures
        forall|p: (int, int)|
            #[trigger] adjacent_cells(rows, cols, row, col).contains(p) <==> (0 <= p.0 < rows && 0 <= p.1
                < cols && touches(row, col, p)),
        forall|i: int, j: int|
            0 <= i < j < adjacent_cells(rows, cols, row, col).len() ==> row_major_before(
                #[trigger] adjacent_cells(rows, cols, row, col)[i],
                #[trigger] adjacent_cells(rows, cols, row, col)[j],
            ),
{
    let lo_r: int = if row == 0 { 0 } else { -1 };
    let hi_r: int = if row + 1 >= rows { 0 } else { 1 };
    let lo_c: int = if col == 0 { 0 } else { -1 };
    let hi_c: int = if col + 1 >= cols { 0 } else { 1 };
    let o1 = offset_if(row, col, -1, -1, lo_r <= -1 && lo_c <= -1);
    let o2 = offset_if(row, col, -1, 0, lo_r <= -1);
    let o3 = offset_if(row, col, -1, 1, lo_r <= -1 && 1 <= hi_c);
    let o4 = offset_if(row, col, 0, -1, lo_c <= -1);
    let o5 = offset_if(row, col, 0, 1, 1 <= hi_c);
    let o6 = offset_if(row, col, 1, -1, 1 <= hi_r && lo_c <= -1);
    let o7 = offset_if(row, col, 1, 0, 1 <= hi_r);
    let o8 = offset_if(row, col, 1, 1, 1 <= hi_r && 1 <= hi_c);
    let e = Seq::<(int, int)>::empty();
    lemma_append_offset(e, o1, (row - 1, col - 1), lo_r <= -1 && lo_c <= -1);
    let a1 = e + o1;
    lemma_append_offset(a1, o2, (row - 1, col), lo_r <= -1);
    let a2 = a1 + o2;
    lemma_append_offset(a2, o3, (row - 1, col + 1), lo_r <= -1 && 1 <= hi_c);
    let a3 = a2 + o3;
    lemma_append_offset(a3, o4, (row, col - 1), lo_c <= -1);
    let a4 = a3 + o4;
    lemma_append_offset(a4, o5, (row, col + 1), 1 <= hi_c);
    let a5 = a4 + o5;
    lemma_append_offset(a5, o6, (row + 1, col - 1), 1 <= hi_r && lo_c <= -1);
    let a6 = a5 + o6;
    lemma_append_offset(a6, o7, (row + 1, col), 1 <= hi_r);
    let a7 = a6 + o7;
    lemma_append_offset(a7, o8, (row + 1, col + 1), 1 <= hi_r && 1 <= hi_c);
    let a8 = a7 + o8;
    assert(e + o1 =~= o1);
    assert(adjacent_cells(rows, cols, row, col) == a8);
    assert forall|p: (int, int)| #[trigger] a8.contains(p) <==> (0 <= p.0 < rows && 0 <= p.1 < cols
        && touches(row, col, p)) by {
        assert(a8.contains(p) == (a7.contains(p) || (1 <= hi_r && 1 <= hi_c && p == (row + 1, col + 1))));
        assert(a7.contains(p) == (a6.contains(p) || (1 <= hi_r && p == (row + 1, col))));
        assert(a6.contains(p) == (a5.contains(p) || (1 <= hi_r && lo_c <= -1 && p == (row + 1, col - 1))));
        assert(a5.contains(p) == (a4.contains(p) || (1 <= hi_c && p == (row, col + 1))));
        assert(a4.contains(p) == (a3.contains(p) || (lo_c <= -1 && p == (row, col - 1))));
        assert(a3.contains(p) == (a2.contains(p) || (lo_r <= -1 && 1 <= hi_c && p == (row - 1, col + 1))));
        assert(a2.contains(p) == (a1.contains(p) || (lo_r <= -1 && p == (row - 1, col))));
        assert(a1.contains(p) == (e.contains(p) || (lo_r <= -1 && lo_c <= -1 && p == (row - 1, col - 1))));
        assert(!e.contains(p));
    }
}

/// Every adjacent cell inside the grid lies inside the grid.
pub proof fn lemma_adjacent_in_grid(rows: int, cols: int, row: int, col: int)
    requires
        0 <= row < rows,
        0 <= col < cols,
    ensures
        forall|i: int|
            0 <= i < adjacent_cells(rows, cols, row, col).len() ==> {
                let p = #[trigger] adjacent_cells(rows, cols, row, col)[i];
                &&& 0 <= p.0 < rows
                &&& 0 <= p.1 < cols
            },
{
    let a = adjacent_cells(rows, cols, row, col);
    assert forall|i: int| 0 <= i < a.len() implies {
        let p = #[trigger] a[i];
        &&& 0 <= p.0 < rows
        &&& 0 <= p.1 < cols
    } by {
        let lo_r: int = if row == 0 { 0 } else { -1 };
        let hi_r: int = if row + 1 >= rows { 0 } else { 1 };
        let lo_c: int = if col == 0 { 0 } else { -1 };
        let hi_c: int = if col + 1 >= cols { 0 } else { 1 };
        let s1 = offset_if(row, col, -1, -1, lo_r <= -1 && lo_c <= -1);
        let s2 = offset_if(row, col, -1, 0, lo_r <= -1);
        let s3 = offset_if(row, col, -1, 1, lo_r <= -1 && 1 <= hi_c);
        let s4 = offset_if(row, col, 0, -1, lo_c <= -1);
        let s5 = offset_if(row, col, 0, 1, 1 <= hi_c);
        let s6 = offset_if(row, col, 1, -1, 1 <= hi_r && lo_c <= -1);
        let s7 = offset_if(row, col, 1, 0, 1 <= hi_r);
        let s8 = offset_if(row, col, 1, 1, 1 <= hi_r && 1 <= hi_c);
        assert(a == s1 + s2 + s3 + s4 + s5 + s6 + s7 + s8);
        let all = seq![s1, s2, s3, s4, s5, s6, s7, s8];
        assert forall|k: int, m: int| 0 <= k < 8 && 0 <= m < all[k].len() implies {
            let p = #[trigger] all[k][m];
            &&& 0 <= p.0 < rows
            &&& 0 <= p.1 < cols
        } by {}
        let n1 = s1.len();
        let n2 = n1 + s2.len();
        let n3 = n2 + s3.len();
        let n4 = n3 + s4.len();
        let n5 = n4 + s5.len();
        let n6 = n5 + s6.len();
        let n7 = n6 + s7.len();
        if i < n1 {
            assert(a[i] == all[0][i]);
        } else if i < n2 {
            assert(a[i] == all[1][i - n1]);
        } else if i < n3 {
            assert(a[i] == all[2][i - n2]);
        } else if i < n4 {
            assert(a[i] == all[3][i - n3]);
        } else if i < n5 {
            assert(a[i] == all[4][i - n4]);
        } else if i < n6 {
            assert(a[i] == all[5][i - n5]);
        } else if i < n7 {
            assert(a[i] == all[6][i - n6]);
        } else {
            assert(a[i] == all[7][i - n7]);
        }
    }
}

/// The neighbours of one cell, handed out one at a time.
pub struct Neighbours {
    data: [(usize, usize); 8],
    len: usize,
    index: usize,
}

impl View for Neighbours {
    type V = Seq<(int, int)>;

    /// The neighbours not handed out yet, in order.
    closed spec fn view(&self) -> Seq<(int, int)> {
        self.data@.subrange(self.index as int, self.len as int).map_values(
            |p: (usize, usize)| (p.0 as int, p.1 as int),
        )
    }
}

impl Neighbours {
    #[verifier::type_invariant]
    spec fn counts_ok(self) -> bool {
        self.index <= self.len <= 8
    }

    closed spec fn is_fresh(&self) -> bool {
        self.index == 0
    }

    fn new() -> (res: Neighbours)
        ensures
            res@ == Seq::<(int, int)>::empty(),
            res.is_fresh(),
    {
        let res = Neighbours { data: [(0, 0);8], len: 0, index: 0 };
        assert(res@ =~= Seq::<(int, int)>::empty());
        res
    }

    fn set(&mut self, data: (usize, usize))
        requires
            old(self).is_fresh(),
            old(self)@.len() < 8,
        ensures
            final(self).is_fresh(),
            final(self)@ == old(self)@.push((data.0 as int, data.1 as int)),
    {
        proof {
            use_type_invariant(&*self);
        }
        let mut taken = Neighbours::new();
        std::mem::swap(self, &mut taken);
        let Neighbours { data: mut cells, len, index } = taken;
        let ghost before = cells@;
        cells[len] = data;
        *self = Neighbours { data: cells, len: len + 1, index };
        assert(self@ =~= old(self)@.push((data.0 as int, data.1 as int)));
    }

    /// The next neighbour, or `None` once all have been handed out.
    pub fn next(&mut self) -> (res: Option<(usize, usize)>)
        ensures
            old(self)@.len() == 0 ==> res.is_none() && final(self)@ == old(self)@,
            old(self)@.len() > 0 ==> res.is_some() && (res.unwrap().0 as int, res.unwrap().1 as int)
                == old(self)@[0] && final(self)@ == old(self)@.drop_first(),
    {
        proof {
            use_type_invariant(&*self);
        }
        if self.index < self.len {
            let item = self.data[self.index];
            self.index = self.index + 1;
            assert(self@ =~= old(self)@.drop_first());
            Some(item)
        } else {
            None
        }
    }
}

} // verus!

verus! {

impl<T: Clone + Default> Grid<T> {
    /// The neighbours of the cell `(row, col)`, as `neighbour_list` describes them.
    #[verifier::rlimit(50)]
    pub fn neighbours(&self, row: usize, col: usize) -> (res: Neighbours)
        requires
            neighbours_defined(self.rows() as int, self.cols() as int, row as int, col as int),
        ensures
            res@ == neighbour_list(self.rows() as int, self.cols() as int, row as int, col as int),
            row < self.rows() && col < self.cols() ==> res@ == adjacent_cells(
                self.rows() as int,
                self.cols() as int,
                row as int,
                col as int,
            ),
            row < self.rows() && col < self.cols() ==> forall|p: (int, int)|
                #[trigger] res@.contains(p) <==> (0 <= p.0 < self.rows() && 0 <= p.1 < self.cols()
                    && touches(row as int, col as int, p)),
            row < self.rows() && col < self.cols() ==> forall|i: int, j: int|
                0 <= i < j < res@.len() ==> row_major_before(#[trigger] res@[i], #[trigger] res@[j]),
    {
        proof {
            if row < self.rows() && col < self.cols() {
                lemma_neighbours_are_adjacent(self.rows() as int, self.cols() as int, row as int, col as int);
                lemma_adjacent_cells_exact(self.rows() as int, self.cols() as int, row as int, col as int);
            }
        }
        let rows = self.rows;
        let cols = self.cols;
        let ghost (r, c) = (row as int, col as int);
        let mut n = Neighbours::new();
        if row == 0 && rows == 1 {
            // a single row
            if col == 0 {
                if cols != 1 {
                    n.set((0, 1));
                }
            } else if col == cols - 1 {
                n.set((0, cols - 2));
            } else {
                n.set((0, col - 1));
                n.set((0, col + 1));
            }
        } else if col == 0 && cols == 1 {
            // a single column
            if row == 0 {
                n.set((1, 0));
            } else if row == rows - 1 {
                n.set((rows - 2, 0));
            } else {
                n.set((row - 1, 0));
                n.set((row + 1, 0));
            }
        } else if row == 0 && col == 0 {
            n.set((0, 1));
            n.set((1, 0));
            n.set((1, 1));
        } else if row == 0 && col == cols - 1 {
            n.set((row, col - 1));
            n.set((row + 1, col - 1));
            n.set((row + 1, col));
        } else if col == 0 && row == rows - 1 {
            n.set((row - 1, col));
            n.set((row - 1, col + 1));
            n.set((row, col + 1));
        } else if row == rows - 1 && col == cols - 1 {
            n.set((row - 1, col - 1));
            n.set((row - 1, col));
            n.set((row, col - 1));
        } else if row == 0 {
            n.set((row, col - 1));
            n.set((row, col + 1));
            n.set((row + 1, col - 1));
            n.set((row + 1, col));
            n.set((row + 1, col + 1));
        } else if col == 0 {
            n.set((row - 1, col));
            n.set((row - 1, col + 1));
            n.set((row, col + 1));
            n.set((row + 1, col));
            n.set((row + 1, col + 1));
        } else if row == rows - 1 {
            n.set((row - 1, col - 1));
            n.set((row - 1, col));
            n.set((row - 1, col + 1));
            n.set((row, col - 1));
            n.set((row, col + 1));
        } else if col == cols - 1 {
            n.set((row - 1, col - 1));
            n.set((row - 1, col));
            n.set((row, col - 1));
            n.set((row + 1, col - 1));
            n.set((row + 1, col));
        } else {
            n.set((row - 1, col - 1));
            n.set((row - 1, col));
            n.set((row - 1, col + 1));
            n.set((row, col - 1));
            n.set((row, col + 1));
            n.set((row + 1, col - 1));
            n.set((row + 1, col));
            n.set((row + 1, col + 1));
        }
        assert(n@ =~= neighbour_list(rows as int, cols as int, r, c));
        n
    }
}

} // verus!

verus! {

/// The state of one cell of the game of life.
#[derive(Clone, Copy, PartialEq, Eq, Debug, Structural)]
pub enum Cell {
    Dead,
    Alive,
}

impl Default for Cell {
    fn default() -> (res: Self)
        ensures
            res == Cell::Dead,
    {
        Cell::Dead
    }
}

/// The number of living cells among `ns` in a grid with `cols` columns.
pub open spec fn live_count(cells: Seq<Cell>, cols: int, ns: Seq<(int, int)>) -> nat
    decreases ns.len(),
{
    if ns.len() == 0 {
        0
    } else {
        live_count(cells, cols, ns.drop_last()) + if cells[cell_index(
            cols,
            ns.last().0,
            ns.last().1,
        )] == Cell::Alive {
            1nat
        } else {
            0nat
        }
    }
}

/// Conway's rule: a living cell survives with two or three living neighbours,
/// a dead cell comes to life with exactly three.
pub open spec fn next_state(cell: Cell, live: nat) -> Cell {
    match cell {
        Cell::Alive => if live == 2 || live == 3 {
            Cell::Alive
        } else {
            Cell::Dead
        },
        Cell::Dead => if live == 3 {
            Cell::Alive
        } else {
            Cell::Dead
        },
    }
}

/// 1 if `(r, c)` lies in the grid and its cell is alive, else 0.
pub open spec fn alive_at(cells: Seq<Cell>, rows: int, cols: int, r: int, c: int) -> nat {
    if 0 <= r < rows && 0 <= c < cols && cells[cell_index(cols, r, c)] == Cell::Alive {
        1
    } else {
        0
    }
}

/// The number of living cells among the eight that touch `(row, col)`, counting
/// only those inside the grid.
pub open spec fn live_around(cells: Seq<Cell>, rows: int, cols: int, row: int, col: int) -> nat {
    alive_at(cells, rows, cols, row - 1, col - 1) + alive_at(cells, rows, cols, row - 1, col)
        + alive_at(cells, rows, cols, row - 1, col + 1) + alive_at(cells, rows, cols, row, col - 1)
        + alive_at(cells, rows, cols, row, col + 1) + alive_at(cells, rows, cols, row + 1, col - 1)
        + alive_at(cells, rows, cols, row + 1, col) + alive_at(cells, rows, cols, row + 1, col + 1)
}

/// Counting over two lists adds up.
proof fn lemma_live_count_concat(cells: Seq<Cell>, cols: int, a: Seq<(int, int)>, b: Seq<(int, int)>)
    ensures
        live_count(cells, cols, a + b) == live_count(cells, cols, a) + live_count(cells, cols, b),
    decreases b.len(),
{
    if b.len() > 0 {
        lemma_live_count_concat(cells, cols, a, b.drop_last());
        assert((a + b).drop_last() =~= a + b.drop_last());
        assert((a + b).last() == b.last());
    } else {
        assert(a + b =~= a);
    }
}

/// Counting the living cells of one kept offset.
proof fn lemma_live_count_offset(cells: Seq<Cell>, rows: int, cols: int, row: int, col: int, dr: int, dc: int, keep: bool)
    requires
        keep <==> (0 <= row + dr < rows && 0 <= col + dc < cols),
    ensures
        live_count(cells, cols, offset_if(row, col, dr, dc, keep)) == alive_at(cells, rows, cols, row + dr, col + dc),
{
    let s1 = offset_if(row, col, dr, dc, keep);
    if keep {
        assert(s1.drop_last() =~= Seq::<(int, int)>::empty());
        assert(s1.last() == (row + dr, col + dc));
        assert(live_count(cells, cols, Seq::<(int, int)>::empty()) == 0);
    } else {
        assert(s1 =~= Seq::<(int, int)>::empty());
    }
}

/// The living neighbours that `step` counts over the listed cells are the living
/// cells among the eight that touch the cell, inside the grid.
pub proof fn lemma_live_count_is_live_around(cells: Seq<Cell>, rows: int, cols: int, row: int, col: int)
    requires
        0 <= row < rows,
        0 <= col < cols,
    ensures
        live_count(cells, cols, adjacent_cells(rows, cols, row, col)) == live_around(cells, rows, cols, row, col),
{
    let lo_r: int = if row == 0 { 0 } else { -1 };
    let hi_r: int = if row + 1 >= rows { 0 } else { 1 };
    let lo_c: int = if col == 0 { 0 } else { -1 };
    let hi_c: int = if col + 1 >= cols { 0 } else { 1 };
    let s1 = offset_if(row, col, -1, -1, lo_r <= -1 && lo_c <= -1);
    let s2 = offset_if(row, col, -1, 0, lo_r <= -1);
    let s3 = offset_if(row, col, -1, 1, lo_r <= -1 && 1 <= hi_c);
    let s4 = offset_if(row, col, 0, -1, lo_c <= -1);
    let s5 = offset_if(row, col, 0, 1, 1 <= hi_c);
    let s6 = offset_if(row, col, 1, -1, 1 <= hi_r && lo_c <= -1);
    let s7 = offset_if(row, col, 1, 0, 1 <= hi_r);
    let s8 = offset_if(row, col, 1, 1, 1 <= hi_r && 1 <= hi_c);
    assert(adjacent_cells(rows, cols, row, col) == s1 + s2 + s3 + s4 + s5 + s6 + s7 + s8);
    lemma_live_count_offset(cells, rows, cols, row, col, -1, -1, lo_r <= -1 && lo_c <= -1);
    lemma_live_count_offset(cells, rows, cols, row, col, -1, 0, lo_r <= -1);
    lemma_live_count_offset(cells, rows, cols, row, col, -1, 1, lo_r <= -1 && 1 <= hi_c);
    lemma_live_count_offset(cells, rows, cols, row, col, 0, -1, lo_c <= -1);
    lemma_live_count_offset(cells, rows, cols, row, col, 0, 1, 1 <= hi_c);
    lemma_live_count_offset(cells, rows, cols, row, col, 1, -1, 1 <= hi_r && lo_c <= -1);
    lemma_live_count_offset(cells, rows, cols, row, col, 1, 0, 1 <= hi_r);
    lemma_live_count_offset(cells, rows, cols, row, col, 1, 1, 1 <= hi_r && 1 <= hi_c);
    lemma_live_count_concat(cells, cols, s1, s2);
    lemma_live_count_concat(cells, cols, s1 + s2, s3);
    lemma_live_count_concat(cells, cols, s1 + s2 + s3, s4);
    lemma_live_count_concat(cells, cols, s1 + s2 + s3 + s4, s5);
    lemma_live_count_concat(cells, cols, s1 + s2 + s3 + s4 + s5, s6);
    lemma_live_count_concat(cells, cols, s1 + s2 + s3 + s4 + s5 + s6, s7);
    lemma_live_count_concat(cells, cols, s1 + s2 + s3 + s4 + s5 + s6 + s7, s8);
}

/// Conway's B3/S23 rule: a cell is alive in the next generation exactly when it
/// has three living neighbours, or it is alive and has two. In particular a dead
/// cell is born only with exactly three living neighbours, and a living cell
/// with fewer than two or more than three dies.
pub proof fn lemma_conway_rule(cell: Cell, live: nat)
    ensures
        (next_state(cell, live) == Cell::Alive) <==> (live == 3 || (cell == Cell::Alive && live
            == 2)),
        cell == Cell::Dead && live != 3 ==> next_state(cell, live) == Cell::Dead,
        cell == Cell::Alive && (live < 2 || live > 3) ==> next_state(cell, live) == Cell::Dead,
{
}

/// The state of cell `(row, col)` one generation after `cells`.
pub open spec fn next_cell(rows: int, cols: int, cells: Seq<Cell>, row: int, col: int) -> Cell {
    next_state(
        cells[cell_index(cols, row, col)],
        live_count(cells, cols, adjacent_cells(rows, cols, row, col)),
    )
}

proof fn lemma_index_unique(cols: int, r1: int, c1: int, r2: int, c2: int)
    requires
        0 <= c1 < cols,
        0 <= c2 < cols,
        0 <= r1,
        0 <= r2,
        cell_index(cols, r1, c1) == cell_index(cols, r2, c2),
    ensures
        r1 == r2,
        c1 == c2,
{
    if r1 < r2 {
        assert(r1 * cols + cols <= r2 * cols) by (nonlinear_arith)
            requires
                r1 < r2,
                0 <= cols,
        ;
    } else if r2 < r1 {
        assert(r2 * cols + cols <= r1 * cols) by (nonlinear_arith)
            requires
                r2 < r1,
                0 <= cols,
        ;
    }
}

/// Conway's game of life on a bounded grid.
#[derive(PartialEq, Eq)]
pub struct GameOfLife {
    grid: Grid<Cell>,
}

impl GameOfLife {
    /// The current generation.
    pub closed spec fn board(&self) -> Grid<Cell> {
        self.grid
    }

    pub fn from_grid(grid: Grid<Cell>) -> (res: Self)
        ensures
            res.board() == grid,
    {
        Self { grid }
    }

    pub fn get_grid(&self) -> (res: &Grid<Cell>)
        ensures
            *res == self.board(),
    {
        &self.grid
    }

    /// Advances every cell one generation at once.
    pub fn step(&mut self)
        ensures
            final(self).board().rows() == old(self).board().rows(),
            final(self).board().cols() == old(self).board().cols(),
            final(self).board().cells().len() == old(self).board().cells().len(),
            forall|r: int, c: int|
                0 <= r < old(self).board().rows() && 0 <= c < old(self).board().cols()
                    ==> #[trigger] final(self).board().cells()[cell_index(
                    old(self).board().cols() as int,
                    r,
                    c,
                )] == next_cell(
                    old(self).board().rows() as int,
                    old(self).board().cols() as int,
                    old(self).board().cells(),
                    r,
                    c,
                ),
            forall|r: int, c: int|
                0 <= r < old(self).board().rows() && 0 <= c < old(self).board().cols() ==> {
                    let cols = old(self).board().cols() as int;
                    let n = live_around(
                        old(self).board().cells(),
                        old(self).board().rows() as int,
                        cols,
                        r,
                        c,
                    );
                    let was_alive = old(self).board().cells()[cell_index(cols, r, c)] == Cell::Alive;
                    (#[trigger] final(self).board().cells()[cell_index(
                        old(self).board().cols() as int,
                        r,
                        c,
                    )] == Cell::Alive) <==> (n == 3 || (was_alive && n == 2))
                },
    {
        proof {
            use_type_invariant(&self.grid);
        }
        let rows = self.grid.rows;
        let cols = self.grid.cols;
        let ghost cells = self.grid.grid@;
        let ghost (nr, nc) = (rows as int, cols as int);
        let mut next: Vec<Cell> = Vec::new();
        let mut i: usize = 0;
        while i < rows
            invariant
                self.grid == old(self).grid,
                rows == self.grid.rows,
                cols == self.grid.cols,
                cells == self.grid.grid@,
                cells.len() == nr * nc,
                nr == rows as int,
                nc == cols as int,
                i <= rows,
                next@.len() == i * nc,
                forall|r: int, c: int|
                    0 <= r && 0 <= c < nc && cell_index(nc, r, c) < next@.len() ==> #[trigger] next@[cell_index(nc, r, c)]
                        == next_cell(nr, nc, cells, r, c),
            decreases rows - i,
        {
            let mut j: usize = 0;
            while j < cols
                invariant
                    self.grid == old(self).grid,
                    rows == self.grid.rows,
                    cols == self.grid.cols,
                    cells == self.grid.grid@,
                    cells.len() == nr * nc,
                    nr == rows as int,
                    nc == cols as int,
                        i < rows,
                    j <= cols,
                    next@.len() == i * nc + j,
                    forall|r: int, c: int|
                        0 <= r && 0 <= c < nc && cell_index(nc, r, c) < next@.len() ==> #[trigger] next@[cell_index(nc, r, c)]
                            == next_cell(nr, nc, cells, r, c),
                decreases cols - j,
            {
                proof {
                    lemma_neighbours_are_adjacent(nr, nc, i as int, j as int);
                    lemma_adjacent_in_grid(nr, nc, i as int, j as int);
                    lemma_in_grid_index(nr, nc, i as int, j as int);
                }
                let cell = *self.grid.get(i, j);
                let mut ns = self.grid.neighbours(i, j);
                let ghost all = ns@;
                let ghost mut done: Seq<(int, int)> = Seq::empty();
                let mut live: usize = 0;
                loop
                    invariant
                        self.grid == old(self).grid,
                        cols == self.grid.cols,
                        cells == self.grid.grid@,
                        cells.len() == nr * nc,
                        nc == cols as int,
                        all == adjacent_cells(nr, nc, i as int, j as int),
                        forall|k: int|
                            0 <= k < all.len() ==> {
                                let p = #[trigger] all[k];
                                &&& 0 <= p.0 < nr
                                &&& 0 <= p.1 < nc
                            },
                        all == done + ns@,
                        live == live_count(cells, nc, done),
                        live <= done.len(),
                        all.len() <= 8,
                    ensures
                        live == live_count(cells, nc, all),
                    decreases ns@.len(),
                {
                    match ns.next() {
                        None => {
                            assert(done =~= all);
                            break ;
                        },
                        Some(p) => {
                            let ghost k = done.len() as int;
                            assert(all[k] == (p.0 as int, p.1 as int));
                            proof {
                                lemma_in_grid_index(nr, nc, p.0 as int, p.1 as int);
                            }
                            let alive = *self.grid.get(p.0, p.1) == Cell::Alive;
                            proof {
                                let d2 = done.push((p.0 as int, p.1 as int));
                                assert(d2.drop_last() =~= done);
                                done = d2;
                                assert(all =~= done + ns@);
                            }
                            if alive {
                                live = live + 1;
                            }
                        },
                    }
                }
                let new_cell = match (cell, live) {
                    (Cell::Alive, 0) => Cell::Dead,
                    (Cell::Alive, 1) => Cell::Dead,
                    (Cell::Alive, 4..9) => Cell::Dead,
                    (Cell::Dead, 3) => Cell::Alive,
                    _ => cell,
                };
                assert(new_cell == next_cell(nr, nc, cells, i as int, j as int));
                let ghost before = next@;
                next.push(new_cell);
                assert forall|r: int, c: int|
                    0 <= r && 0 <= c < nc && cell_index(nc, r, c) < next@.len() implies #[trigger] next@[cell_index(nc, r, c)]
                        == next_cell(nr, nc, cells, r, c) by {
                    if cell_index(nc, r, c) == before.len() {
                        lemma_index_unique(nc, r, c, i as int, j as int);
                    }
                }
                j = j + 1;
            }
            assert(i * nc + nc == (i + 1) * nc) by (nonlinear_arith);
            i = i + 1;
        }
        let ghost old_grid = self.grid;
        self.grid = Grid { rows, cols, grid: next };
        assert forall|r: int, c: int|
            0 <= r < nr && 0 <= c < nc implies #[trigger] self.grid.grid@[cell_index(nc, r, c)]
                == next_cell(nr, nc, cells, r, c) by {
            lemma_in_grid_index(nr, nc, r, c);
        }
        assert forall|r: int, c: int| 0 <= r < nr && 0 <= c < nc implies {
            let n = live_around(cells, nr, nc, r, c);
            let was_alive = cells[cell_index(nc, r, c)] == Cell::Alive;
            (#[trigger] self.grid.grid@[cell_index(nc, r, c)] == Cell::Alive) <==> (n == 3 || (
            was_alive && n == 2))
        } by {
            lemma_conway_rule(cells[cell_index(nc, r, c)], live_count(cells, nc, adjacent_cells(nr, nc, r, c)));
            lemma_live_count_is_live_around(cells, nr, nc, r, c);
        }
    }
}

} // verus!
