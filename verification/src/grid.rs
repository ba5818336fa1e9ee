use vstd::prelude::*;
use vstd::arithmetic::div_mod::lemma_fundamental_div_mod_converse;

verus! {

/// A rectangular grid of `rows * cols` cells, stored row by row.
pub struct Grid<T> {
    arr: Vec<T>,
    rows: usize,
    cols: usize,
}

impl<T> View for Grid<T> {
    type V = Seq<T>;

    /// The cells in row-major order: cell `(row, col)` is at `row * cols + col`.
    closed spec fn view(&self) -> Seq<T> {
        self.arr@
    }
}

/// Index of cell `(row, col)` in the row-major order of a grid with `cols` columns.
pub open spec fn cell_index(cols: int, row: int, col: int) -> int {
    row * cols + col
}

impl<T: Default + Clone> Grid<T> {
    /// A grid of `rows * cols` cells, each holding `T::default()`.
    pub fn new(rows: usize, cols: usize) -> (g: Self)
        requires
            rows * cols <= usize::MAX,
        ensures
            g.wf(),
            g.rows() == rows,
            g.cols() == cols,
            forall|i: int| 0 <= i < g@.len() ==> call_ensures(T::default, (), #[trigger] g@[i]),
    {
        let len = rows * cols;
        let mut arr: Vec<T> = Vec::with_capacity(len);
        let mut i: usize = 0;
        while i < len
            invariant
                i <= len,
                arr@.len() == i,
                forall|j: int| 0 <= j < i ==> call_ensures(T::default, (), #[trigger] arr@[j]),
            decreases len - i,
        {
            arr.push(T::default());
            i = i + 1;
        }
        Grid { arr, rows, cols }
    }
}

impl<T> Grid<T> {
    pub closed spec fn spec_rows(&self) -> usize {
        self.rows
    }

    pub closed spec fn spec_cols(&self) -> usize {
        self.cols
    }

    /// Number of rows.
    #[verifier::when_used_as_spec(spec_rows)]
    pub fn rows(&self) -> (r: usize)
        ensures
            r == self.spec_rows(),
    {
        self.rows
    }

    /// Number of columns.
    #[verifier::when_used_as_spec(spec_cols)]
    pub fn cols(&self) -> (r: usize)
        ensures
            r == self.spec_cols(),
    {
        self.cols
    }

    /// The grid holds exactly one cell per (row, column) pair.
    pub open spec fn wf(&self) -> bool {
        self@.len() == self.rows() * self.cols()
    }

    pub open spec fn index_of(&self, row: int, col: int) -> int {
        cell_index(self.cols() as int, row, col)
    }

    /// Position of cell `(row, col)` in the row-major storage.
    fn flat_index(&self, row: usize, col: usize) -> (r: usize)
        requires
            self.index_of(row as int, col as int) < self@.len(),
        ensures
            r == self.index_of(row as int, col as int),
    {
        assert(self.arr@.len() <= usize::MAX) by {
            assert(self.arr.len() == self.arr@.len());
        }
        assert(0 <= row * self.cols) by (nonlinear_arith);
        row * self.cols + col
    }

    pub fn set(&mut self, row: usize, col: usize, value: T)
        requires
            old(self).index_of(row as int, col as int) < old(self)@.len(),
        ensures
            final(self)@ == old(self)@.update(old(self).index_of(row as int, col as int), value),
            final(self).rows() == old(self).rows(),
            final(self).cols() == old(self).cols(),
    {
        let index = self.flat_index(row, col);
        self.arr.set(index, value);
    }

    pub fn get(&self, row: usize, col: usize) -> (r: &T)
        requires
            self.index_of(row as int, col as int) < self@.len(),
        ensures
            *r == self@[self.index_of(row as int, col as int)],
    {
        &self.arr[self.flat_index(row, col)]
    }

    pub fn get_mut(&mut self, row: usize, col: usize) -> (r: &mut T)
        requires
            old(self).index_of(row as int, col as int) < old(self)@.len(),
        ensures
            *r == old(self)@[old(self).index_of(row as int, col as int)],
            final(self)@ == old(self)@.update(
                old(self).index_of(row as int, col as int),
                *final(r),
            ),
            final(self).rows() == old(self).rows(),
            final(self).cols() == old(self).cols(),
    {
        let index = self.flat_index(row, col);
        &mut self.arr[index]
    }

    pub fn set_by_index(&mut self, index: usize, value: T)
        requires
            index < old(self)@.len(),
        ensures
            final(self)@ == old(self)@.update(index as int, value),
            final(self).rows() == old(self).rows(),
            final(self).cols() == old(self).cols(),
    {
        self.arr.set(index, value);
    }

    /// Puts `value` into the cell at `index` and returns what the cell held.
    pub fn replace_by_index(&mut self, index: usize, value: T) -> (r: T)
        requires
            index < old(self)@.len(),
        ensures
            r == old(self)@[index as int],
            final(self)@ == old(self)@.update(index as int, value),
            final(self).rows() == old(self).rows(),
            final(self).cols() == old(self).cols(),
    {
        let mut value = value;
        core::mem::swap(&mut self.arr[index], &mut value);
        value
    }

    pub fn get_by_index(&self, index: usize) -> (r: &T)
        requires
            index < self@.len(),
        ensures
            *r == self@[index as int],
    {
        &self.arr[index]
    }

    pub fn get_mut_by_index(&mut self, index: usize) -> (r: &mut T)
        requires
            index < old(self)@.len(),
        ensures
            *r == old(self)@[index as int],
            final(self)@ == old(self)@.update(index as int, *final(r)),
            final(self).rows() == old(self).rows(),
            final(self).cols() == old(self).cols(),
    {
        &mut self.arr[index]
    }
}

impl<T> Grid<T> {
    /// Walks all cells in row-major order.
    pub fn enumerate_iter(&self) -> (it: EnumerateIter<'_, T>)
        requires
            self.wf(),
        ensures
            it.grid() == *self,
            it.position() == 0,
    {
        EnumerateIter { grid: self, next_row: 0, next_col: 0 }
    }
}

impl<T> Grid<Option<T>> {
    /// Walks the occupied (`Some`) cells in row-major order.
    pub fn enumerate_iter_sparse(&self) -> (it: EnumerateIterSparse<'_, T>)
        requires
            self.wf(),
        ensures
            it.grid() == *self,
            it.position() == 0,
    {
        EnumerateIterSparse { grid: self, next_row: 0, next_col: 0 }
    }
}

/// Writing a cell and reading it back gives the value written; every other
/// cell reads as before.
pub proof fn lemma_set_then_get<T>(cells: Seq<T>, index: int, value: T, other: int)
    requires
        0 <= index < cells.len(),
        0 <= other < cells.len(),
        other != index,
    ensures
        cells.update(index, value)[index] == value,
        cells.update(index, value)[other] == cells[other],
        cells.update(index, value).len() == cells.len(),
{
}

/// Cursor state shared by both walks: the next cell is `(row, col)`, and
/// once every row is done the cursor rests at `(rows, 0)`.
pub open spec fn cursor_ok(rows: int, cols: int, len: int, row: int, col: int) -> bool {
    &&& len == rows * cols
    &&& 0 <= cols
    &&& 0 <= row <= rows
    &&& 0 <= col
    &&& (col < cols || col == 0)
    &&& (row == rows ==> col == 0)
}

/// Row-major facts about a cursor at `(row, col)`: its position is at most
/// the number of cells, and when it names a cell that cell is
/// `(pos / cols, pos % cols)`.
proof fn lemma_cursor(rows: int, cols: int, len: int, row: int, col: int)
    requires
        cursor_ok(rows, cols, len, row, col),
    ensures
        0 <= cell_index(cols, row, col) <= len,
        cell_index(cols, row, col) < len <==> (row < rows && col < cols),
        cell_index(cols, row, col) < len ==> row == cell_index(cols, row, col) / cols && col
            == cell_index(cols, row, col) % cols,
{
    if row < rows && col < cols {
        assert(row * cols + col < rows * cols) by (nonlinear_arith)
            requires
                row < rows,
                col < cols,
                0 <= row,
                0 <= col,
        ;
        lemma_fundamental_div_mod_converse(row * cols + col, cols, row, col);
    } else if row == rows {
        assert(col == 0);
    } else {
        assert(cols == 0 && col == 0);
        assert(row * cols == 0) by (nonlinear_arith)
            requires
                cols == 0,
        ;
        assert(rows * cols == 0) by (nonlinear_arith)
            requires
                cols == 0,
        ;
    }
    assert(0 <= row * cols) by (nonlinear_arith)
        requires
            0 <= row,
            0 <= cols,
    ;
}

/// Moving the cursor past a cell advances its position by exactly one.
proof fn lemma_cursor_step(rows: int, cols: int, len: int, row: int, col: int)
    requires
        cursor_ok(rows, cols, len, row, col),
        row < rows,
        col < cols,
    ensures
        col + 1 < cols ==> cursor_ok(rows, cols, len, row, col + 1) && cell_index(cols, row, col + 1)
            == cell_index(cols, row, col) + 1,
        col + 1 == cols ==> cursor_ok(rows, cols, len, row + 1, 0) && cell_index(cols, row + 1, 0)
            == cell_index(cols, row, col) + 1,
{
    assert((row + 1) * cols == row * cols + cols) by (nonlinear_arith);
}

/// Walk over every cell of a grid, in row-major order.
pub struct EnumerateIter<'a, T> {
    grid: &'a Grid<T>,
    next_row: usize,
    next_col: usize,
}

impl<'a, T> EnumerateIter<'a, T> {
    #[verifier::type_invariant]
    spec fn inv(self) -> bool {
        cursor_ok(
            self.grid.rows() as int,
            self.grid.cols() as int,
            self.grid@.len() as int,
            self.next_row as int,
            self.next_col as int,
        )
    }

    /// The grid being walked.
    pub closed spec fn grid(&self) -> Grid<T> {
        *self.grid
    }

    /// Row-major position of the next cell; equal to the number of cells
    /// once the walk is over.
    pub closed spec fn position(&self) -> int {
        cell_index(self.grid.cols() as int, self.next_row as int, self.next_col as int)
    }

    /// `r` is what the walk yields from `self`, moving on to `after`: the cell
    /// at the current position with its `(row, col)` coordinates, or `None`
    /// once every cell has been yielded.
    pub open spec fn yields(&self, r: Option<((usize, usize), &'a T)>, after: Self) -> bool {
        let cells = self.grid()@;
        let cols = self.grid().cols() as int;
        let p = self.position();
        &&& after.grid() == self.grid()
        &&& if p < cells.len() {
            &&& r matches Some((rc, v)) && rc.0 == p / cols && rc.1 == p % cols && *v == cells[p]
            &&& after.position() == p + 1
        } else {
            r is None && after.position() == p
        }
    }

    /// Yields the next cell with its `(row, col)` coordinates, or `None`
    /// once every cell has been yielded.
    pub fn next(&mut self) -> (r: Option<((usize, usize), &'a T)>)
        ensures
            0 <= old(self).position() <= old(self).grid()@.len(),
            old(self).yields(r, *final(self)),
    {
        proof {
            use_type_invariant(&*self);
            lemma_cursor(
                self.grid.rows() as int,
                self.grid.cols() as int,
                self.grid@.len() as int,
                self.next_row as int,
                self.next_col as int,
            );
        }
        let rows = self.grid.rows();
        let cols = self.grid.cols();
        if self.next_row < rows && self.next_col < cols {
            let row = self.next_row;
            let col = self.next_col;
            let grid: &'a Grid<T> = self.grid;
            let element: &'a T = grid.get(row, col);
            proof {
                lemma_cursor_step(
                    rows as int,
                    cols as int,
                    grid@.len() as int,
                    row as int,
                    col as int,
                );
            }
            if col + 1 == cols {
                *self = EnumerateIter { grid, next_row: row + 1, next_col: 0 };
            } else {
                *self = EnumerateIter { grid, next_row: row, next_col: col + 1 };
            }
            Some(((row, col), element))
        } else {
            None
        }
    }
}

/// Walk over the occupied cells of a grid of optional values, in row-major order.
pub struct EnumerateIterSparse<'a, T> {
    grid: &'a Grid<Option<T>>,
    next_row: usize,
    next_col: usize,
}

/// Position of the first occupied cell at or after `from`, or `cells.len()`
/// when there is none.
pub open spec fn next_occupied<T>(cells: Seq<Option<T>>, from: int) -> int
    decreases cells.len() - from,
{
    if from >= cells.len() {
        cells.len() as int
    } else if cells[from] is Some {
        from
    } else {
        next_occupied(cells, from + 1)
    }
}

proof fn lemma_next_occupied<T>(cells: Seq<Option<T>>, from: int)
    requires
        0 <= from <= cells.len(),
    ensures
        from <= next_occupied(cells, from) <= cells.len(),
        next_occupied(cells, from) < cells.len() ==> cells[next_occupied(cells, from)] is Some,
        forall|j: int| from <= j < next_occupied(cells, from) ==> cells[j] is None,
    decreases cells.len() - from,
{
    if from < cells.len() && cells[from] is None {
        lemma_next_occupied(cells, from + 1);
    }
}

impl<'a, T> EnumerateIterSparse<'a, T> {
    #[verifier::type_invariant]
    spec fn inv(self) -> bool {
        cursor_ok(
            self.grid.rows() as int,
            self.grid.cols() as int,
            self.grid@.len() as int,
            self.next_row as int,
            self.next_col as int,
        )
    }

    /// The grid being walked.
    pub closed spec fn grid(&self) -> Grid<Option<T>> {
        *self.grid
    }

    /// Row-major position of the next cell to look at; equal to the number of
    /// cells once the walk is over.
    pub closed spec fn position(&self) -> int {
        cell_index(self.grid.cols() as int, self.next_row as int, self.next_col as int)
    }

    /// Yields the next cell, occupied or not, with its coordinates.
    fn _next(&mut self) -> (r: Option<((usize, usize), &'a Option<T>)>)
        ensures
            final(self).grid() == old(self).grid(),
            0 <= old(self).position() <= old(self).grid()@.len(),
            old(self).position() < old(self).grid()@.len() ==> {
                &&& r matches Some((rc, v)) && rc.0 == old(self).position() / (old(
                    self,
                ).grid().cols() as int) && rc.1 == old(self).position() % (old(
                    self,
                ).grid().cols() as int) && *v == old(self).grid()@[old(self).position()]
                &&& final(self).position() == old(self).position() + 1
            },
            old(self).position() == old(self).grid()@.len() ==> r is None && final(self).position()
                == old(self).position(),
    {
        proof {
            use_type_invariant(&*self);
            lemma_cursor(
                self.grid.rows() as int,
                self.grid.cols() as int,
                self.grid@.len() as int,
                self.next_row as int,
                self.next_col as int,
            );
        }
        let rows = self.grid.rows();
        let cols = self.grid.cols();
        if self.next_row < rows && self.next_col < cols {
            let row = self.next_row;
            let col = self.next_col;
            let grid: &'a Grid<Option<T>> = self.grid;
            let element: &'a Option<T> = grid.get(row, col);
            proof {
                lemma_cursor_step(
                    rows as int,
                    cols as int,
                    grid@.len() as int,
                    row as int,
                    col as int,
                );
            }
            if col + 1 == cols {
                *self = EnumerateIterSparse { grid, next_row: row + 1, next_col: 0 };
            } else {
                *self = EnumerateIterSparse { grid, next_row: row, next_col: col + 1 };
            }
            Some(((row, col), element))
        } else {
            None
        }
    }

    /// `r` is what the walk yields from `self`, moving on to `after`: the first
    /// occupied cell at or after the current position, with its `(row, col)`
    /// coordinates and the value it holds, or `None` when there is none.
    pub open spec fn yields(&self, r: Option<((usize, usize), &'a T)>, after: Self) -> bool {
        let cells = self.grid()@;
        let p = next_occupied(cells, self.position());
        let cols = self.grid().cols() as int;
        &&& after.grid() == self.grid()
        &&& if p < cells.len() {
            &&& r matches Some((rc, v)) && rc.0 == p / cols && rc.1 == p % cols && cells[p] == Some(
                *v,
            )
            &&& after.position() == p + 1
        } else {
            r is None && after.position() == cells.len()
        }
    }

    /// Yields the next occupied cell with its `(row, col)` coordinates and the
    /// value it holds, skipping empty cells; `None` once no occupied cell is left.
    pub fn next(&mut self) -> (r: Option<((usize, usize), &'a T)>)
        ensures
            0 <= old(self).position() <= old(self).grid()@.len(),
            old(self).yields(r, *final(self)),
    {
        let ghost start = self.position();
        let ghost grid = self.grid();
        let ghost cells = self.grid()@;
        proof {
            use_type_invariant(&*self);
            lemma_cursor(
                self.grid.rows() as int,
                self.grid.cols() as int,
                self.grid@.len() as int,
                self.next_row as int,
                self.next_col as int,
            );
            lemma_next_occupied(cells, start);
        }
        loop
            invariant
                self.grid() == grid,
                grid == old(self).grid(),
                start == old(self).position(),
                grid@ == cells,
                start <= self.position() <= cells.len(),
                next_occupied(cells, start) == next_occupied(cells, self.position()),
            decreases cells.len() - self.position(),
        {
            let ghost before = self.position();
            match self._next() {
                Some((index, item)) => {
                    match item {
                        Some(value) => {
                            return Some((index, value));
                        },
                        None => {
                            assert(next_occupied(cells, before) == next_occupied(cells, before + 1));
                        },
                    }
                },
                None => {
                    return None;
                },
            }
        }
    }
}

/// Cell index of the `k`-th occupied cell (counting from 0) in row-major
/// order, or `cells.len()` when there are at most `k` occupied cells.
pub open spec fn nth_occupied<T>(cells: Seq<Option<T>>, k: nat) -> int
    decreases k,
{
    if k == 0 {
        next_occupied(cells, 0)
    } else {
        let previous = nth_occupied(cells, (k - 1) as nat);
        if previous < cells.len() {
            next_occupied(cells, previous + 1)
        } else {
            cells.len() as int
        }
    }
}

/// Where a fresh walk over every cell stands after `k` calls.
proof fn lemma_walk_position<'a, T>(
    states: Seq<EnumerateIter<'a, T>>,
    results: Seq<Option<((usize, usize), &'a T)>>,
    k: int,
)
    requires
        states.len() == results.len() + 1,
        states[0].position() == 0,
        forall|i: int|
            #![trigger results[i]]
            0 <= i < results.len() ==> states[i].yields(results[i], states[i + 1]),
        0 <= k < states.len(),
    ensures
        states[k].grid() == states[0].grid(),
        states[k].position() == if k < states[0].grid()@.len() {
            k
        } else {
            states[0].grid()@.len() as int
        },
    decreases k,
{
    if k > 0 {
        lemma_walk_position(states, results, k - 1);
        assert(states[k - 1].yields(results[k - 1], states[k]));
    }
}

/// A fresh walk over every cell yields the cells in row-major order: its
/// `k`-th call yields cell `k` with coordinates `(k / cols, k % cols)`, and
/// every call after the last cell yields `None`.
pub proof fn lemma_walk<'a, T>(
    states: Seq<EnumerateIter<'a, T>>,
    results: Seq<Option<((usize, usize), &'a T)>>,
)
    requires
        states.len() == results.len() + 1,
        states[0].position() == 0,
        forall|i: int|
            #![trigger results[i]]
            0 <= i < results.len() ==> states[i].yields(results[i], states[i + 1]),
    ensures
        forall|k: int|
            #![trigger results[k]]
            0 <= k < results.len() ==> {
                let g = states[0].grid();
                if k < g@.len() {
                    results[k] matches Some((rc, v)) && rc.0 == k / (g.cols() as int) && rc.1 == k
                        % (g.cols() as int) && *v == g@[k]
                } else {
                    results[k] is None
                }
            },
{
    assert forall|k: int| #![trigger results[k]] 0 <= k < results.len() implies {
        let g = states[0].grid();
        if k < g@.len() {
            results[k] matches Some((rc, v)) && rc.0 == k / (g.cols() as int) && rc.1 == k % (
            g.cols() as int) && *v == g@[k]
        } else {
            results[k] is None
        }
    } by {
        lemma_walk_position(states, results, k);
        assert(states[k].yields(results[k], states[k + 1]));
    }
}

/// Where a fresh walk over the occupied cells stands after `k` calls: just
/// past the `k - 1`-th occupied cell, or at the end.
proof fn lemma_sparse_walk_position<'a, T>(
    states: Seq<EnumerateIterSparse<'a, T>>,
    results: Seq<Option<((usize, usize), &'a T)>>,
    k: int,
)
    requires
        states.len() == results.len() + 1,
        states[0].position() == 0,
        forall|i: int|
            #![trigger results[i]]
            0 <= i < results.len() ==> states[i].yields(results[i], states[i + 1]),
        0 <= k < states.len(),
    ensures
        states[k].grid() == states[0].grid(),
        next_occupied(states[0].grid()@, states[k].position()) == nth_occupied(
            states[0].grid()@,
            k as nat,
        ),
    decreases k,
{
    let cells = states[0].grid()@;
    if k > 0 {
        lemma_sparse_walk_position(states, results, k - 1);
        assert(states[k - 1].yields(results[k - 1], states[k]));
        let previous = nth_occupied(cells, (k - 1) as nat);
        if previous >= cells.len() {
            assert(states[k].position() == cells.len());
        }
    }
}

/// A fresh walk over the occupied cells yields them in row-major order: its
/// `k`-th call yields the `k`-th occupied cell with its coordinates and the
/// value it holds, and every call after the last one yields `None`.
pub proof fn lemma_sparse_walk<'a, T>(
    states: Seq<EnumerateIterSparse<'a, T>>,
    results: Seq<Option<((usize, usize), &'a T)>>,
)
    requires
        states.len() == results.len() + 1,
        states[0].position() == 0,
        forall|i: int|
            #![trigger results[i]]
            0 <= i < results.len() ==> states[i].yields(results[i], states[i + 1]),
    ensures
        forall|k: int|
            #![trigger results[k]]
            0 <= k < results.len() ==> {
                let g = states[0].grid();
                let p = nth_occupied(g@, k as nat);
                if p < g@.len() {
                    results[k] matches Some((rc, v)) && rc.0 == p / (g.cols() as int) && rc.1 == p
                        % (g.cols() as int) && g@[p] == Some(*v)
                } else {
                    results[k] is None
                }
            },
{
    assert forall|k: int| #![trigger results[k]] 0 <= k < results.len() implies {
        let g = states[0].grid();
        let p = nth_occupied(g@, k as nat);
        if p < g@.len() {
            results[k] matches Some((rc, v)) && rc.0 == p / (g.cols() as int) && rc.1 == p % (
            g.cols() as int) && g@[p] == Some(*v)
        } else {
            results[k] is None
        }
    } by {
        lemma_sparse_walk_position(states, results, k);
        assert(states[k].yields(results[k], states[k + 1]));
    }
}

/// Every occupied cell is the `k`-th occupied cell for some `k`: the walk over
/// occupied cells misses none of them.
pub proof fn lemma_nth_occupied_covers<T>(cells: Seq<Option<T>>, j: int)
    requires
        0 <= j < cells.len(),
        cells[j] is Some,
    ensures
        exists|k: nat| k <= j && nth_occupied(cells, k) == j,
{
    lemma_nth_occupied_reaches(cells, j, j as nat);
}

/// Occupied cells counted so far: the `k`-th occupied cell is either at least
/// `k` along or past the last cell, and any occupied cell `j` below it is the
/// `m`-th one for some `m < k`.
proof fn lemma_nth_occupied_reaches<T>(cells: Seq<Option<T>>, j: int, k: nat)
    requires
        0 <= j < cells.len(),
        cells[j] is Some,
    ensures
        nth_occupied(cells, k) >= k || nth_occupied(cells, k) == cells.len(),
        nth_occupied(cells, k) <= cells.len(),
        j <= nth_occupied(cells, k) ==> exists|m: nat| m <= k && nth_occupied(cells, m) == j,
    decreases k,
{
    if k == 0 {
        lemma_next_occupied(cells, 0);
        if j <= nth_occupied(cells, 0) {
            assert(nth_occupied(cells, 0) == j);
        }
    } else {
        lemma_nth_occupied_reaches(cells, j, (k - 1) as nat);
        let previous = nth_occupied(cells, (k - 1) as nat);
        if previous < cells.len() {
            lemma_next_occupied(cells, previous + 1);
            if j <= nth_occupied(cells, k) && j > previous {
                assert(nth_occupied(cells, k) == j);
            }
        }
    }
}

} // verus!
