//! A rectangular grid of `GridCell`s addressed by `Pos`, with its table of passages.
use vstd::prelude::*;
use crate::grid_cell::{GridCell, opt_seq};
use crate::position::{Pos, pos_of, index_of, in_grid, lemma_index_of, lemma_pos_of};
use crate::links::{linked, fresh_link, adjacent, north_of, south_of, east_of, west_of, LinkTable, removed_first, dead_end_count, is_dead_end, links_grow, links_adjacent, symmetric, simple};
use crate::braid::all_linked;
use crate::paths::connected;
use crate::error::MazeError;
use crate::random::random_below;

verus! {

/// The cell that a freshly built `rows` by `cols` grid holds at position `p`: its neighbours
/// are the positions one step north, south, east and west that lie in the grid.
pub open spec fn fresh_cell(g: GridCell, p: Pos, rows: int, cols: int) -> bool {
    &&& g.pos_spec() == p
    &&& g.north_spec() == (if p.r > 0 { Some(Pos { r: (p.r - 1) as usize, c: p.c }) } else { None })
    &&& g.south_spec() == (if p.r + 1 < rows { Some(Pos { r: (p.r + 1) as usize, c: p.c }) } else { None })
    &&& g.east_spec() == (if p.c + 1 < cols { Some(Pos { r: p.r, c: (p.c + 1) as usize }) } else { None })
    &&& g.west_spec() == (if p.c > 0 { Some(Pos { r: p.r, c: (p.c - 1) as usize }) } else { None })
}

/// The cell east of `p` is its structural neighbour, at the next index.
pub proof fn lemma_east_adjacent(p: Pos, rows: int, cols: int)
    requires
        in_grid(p, rows, cols),
        p.c + 1 < cols,
        cols <= usize::MAX,
    ensures
        index_of(Pos { r: p.r, c: (p.c + 1) as usize }, cols) == index_of(p, cols) + 1,
        adjacent(rows * cols, cols, index_of(p, cols), index_of(p, cols) + 1),
        adjacent(rows * cols, cols, index_of(p, cols) + 1, index_of(p, cols)),
{
    lemma_index_of(p, rows, cols);
    let q = Pos { r: p.r, c: (p.c + 1) as usize };
    lemma_index_of(q, rows, cols);
    assert(index_of(p, cols) % cols == p.c as int);
    assert(east_of(rows * cols, cols, index_of(p, cols)) == Some(index_of(p, cols) + 1));
    crate::links::lemma_adjacent_symmetric(rows * cols, cols, index_of(p, cols), index_of(p, cols) + 1);
}

/// The cell north of `p` is its structural neighbour, one row's worth of indices before.
pub proof fn lemma_north_adjacent(p: Pos, rows: int, cols: int)
    requires
        in_grid(p, rows, cols),
        p.r > 0,
    ensures
        index_of(Pos { r: (p.r - 1) as usize, c: p.c }, cols) == index_of(p, cols) - cols,
        adjacent(rows * cols, cols, index_of(p, cols), index_of(p, cols) - cols),
        adjacent(rows * cols, cols, index_of(p, cols) - cols, index_of(p, cols)),
{
    lemma_index_of(p, rows, cols);
    assert(index_of(Pos { r: (p.r - 1) as usize, c: p.c }, cols) == index_of(p, cols) - cols) by (nonlinear_arith)
        requires
            p.r > 0,
    ;
    assert(index_of(p, cols) >= cols) by (nonlinear_arith)
        requires
            p.r > 0,
            cols >= 0,
    ;
    assert(cols >= 1);
    crate::links::lemma_adjacent_symmetric(rows * cols, cols, index_of(p, cols), index_of(p, cols) - cols);
}

/// The four directions of the index arithmetic match the four neighbours of a position.
pub proof fn lemma_directions(p: Pos, rows: int, cols: int)
    requires
        in_grid(p, rows, cols),
        cols <= usize::MAX,
        rows <= usize::MAX,
    ensures
        ({
            let i = index_of(p, cols);
            let n = rows * cols;
            &&& (north_of(cols, i) is Some <==> p.r > 0)
            &&& (p.r > 0 ==> north_of(cols, i) == Some(index_of(Pos { r: (p.r - 1) as usize, c: p.c }, cols)))
            &&& (south_of(n, cols, i) is Some <==> p.r + 1 < rows)
            &&& (p.r + 1 < rows ==> south_of(n, cols, i) == Some(index_of(Pos { r: (p.r + 1) as usize, c: p.c }, cols)))
            &&& (east_of(n, cols, i) is Some <==> p.c + 1 < cols)
            &&& (p.c + 1 < cols ==> east_of(n, cols, i) == Some(index_of(Pos { r: p.r, c: (p.c + 1) as usize }, cols)))
            &&& (west_of(cols, i) is Some <==> p.c > 0)
            &&& (p.c > 0 ==> west_of(cols, i) == Some(index_of(Pos { r: p.r, c: (p.c - 1) as usize }, cols)))
        }),
{
    let i = index_of(p, cols);
    let n = rows * cols;
    lemma_index_of(p, rows, cols);
    assert(i % cols == p.c as int);
    assert((i >= cols) <==> (p.r > 0)) by (nonlinear_arith)
        requires
            i == p.r * cols + p.c,
            0 <= p.c < cols,
            p.r >= 0,
    {
        if p.r > 0 {
            assert(p.r * cols >= cols);
        }
    }
    assert((i + cols < n) <==> (p.r + 1 < rows)) by (nonlinear_arith)
        requires
            i == p.r * cols + p.c,
            0 <= p.c < cols,
            p.r >= 0,
            n == rows * cols,
            p.r < rows,
    {
        if p.r + 1 < rows {
            assert((p.r + 1) * cols + cols <= rows * cols);
        } else {
            assert(p.r + 1 == rows);
        }
    }
    assert((p.r + 1) * cols + p.c == i + cols) by (nonlinear_arith)
        requires
            i == p.r * cols + p.c,
    ;
    assert((p.r - 1) * cols + p.c == i - cols) by (nonlinear_arith)
        requires
            i == p.r * cols + p.c,
    ;
    if p.c + 1 < cols {
        lemma_index_of(Pos { r: p.r, c: (p.c + 1) as usize }, rows, cols);
    }
}

/// A `rows` by `cols` grid of cells, stored in row order, and the passages carved between
/// them.
#[derive(Debug)]
pub struct Grid {
    pub rows: usize,
    pub cols: usize,
    grid: Vec<GridCell>,
    links: LinkTable,
}

impl Grid {
    pub closed spec fn wf(&self) -> bool {
        &&& self.links.wf()
        &&& self.links.rows() == self.rows
        &&& self.links.cols() == self.cols
        &&& self.grid@.len() == self.rows * self.cols
        &&& forall|i: int| 0 <= i < self.grid@.len() ==> fresh_cell(#[trigger] self.grid@[i], pos_of(i, self.ncols()), self.nrows(), self.ncols())
    }

    /// For each cell index, the indices of the cells it links to, in the order the links
    /// were made.
    pub closed spec fn adj(&self) -> Seq<Seq<usize>> {
        self.links@
    }

    /// The cell held at index `i`.
    pub closed spec fn cell_spec(&self, i: int) -> GridCell {
        self.grid@[i]
    }

    /// The number of rows.
    pub closed spec fn nrows(&self) -> int {
        self.rows as int
    }

    /// The number of columns.
    pub closed spec fn ncols(&self) -> int {
        self.cols as int
    }

    /// The number of cells.
    pub closed spec fn n(&self) -> int {
        self.rows * self.cols
    }

    /// What well-formedness says of the dimensions and of the cells.
    pub proof fn lemma_wf(&self)
        requires
            self.wf(),
        ensures
            self.nrows() >= 1,
            self.ncols() >= 1,
            self.n() <= usize::MAX,
            self.n() == self.nrows() * self.ncols(),
            self.adj().len() == self.n(),
            forall|a: int, j: int| 0 <= a < self.n() && 0 <= j < self.adj()[a].len() ==> #[trigger] self.adj()[a][j] < self.n(),
            forall|i: int| 0 <= i < self.n() ==> fresh_cell(#[trigger] self.cell_spec(i), pos_of(i, self.ncols()), self.nrows(), self.ncols()),
            simple(self.adj()),
    {
        self.links.lemma_wf();
    }

    /// A grid of `rows` by `cols` cells, each of weight 1, with no passage carved.
    pub fn new(rows: usize, cols: usize) -> (g: Self)
        requires
            rows >= 1,
            cols >= 1,
            rows * cols <= usize::MAX,
        ensures
            g.wf(),
            g.nrows() == rows,
            g.ncols() == cols,
            forall|i: int| 0 <= i < g.n() ==> (#[trigger] g.adj()[i]).len() == 0,
            forall|i: int| 0 <= i < g.n() ==> (#[trigger] g.cell_spec(i)).weight_spec() == 1,
    {
        let cells = Grid::build_grid_cells(rows, cols);
        Grid { rows, cols, grid: cells, links: LinkTable::new(rows, cols) }
    }

    /// A grid of `rows` by `cols` cells, or `InvalidDimensions` where either is 0 or the cell
    /// count does not fit in `usize`.
    pub fn try_new(rows: usize, cols: usize) -> (r: Result<Self, MazeError>)
        ensures
            (rows >= 1 && cols >= 1 && rows * cols <= usize::MAX) <==> r is Ok,
            r matches Ok(g) ==> g.wf() && g.nrows() == rows && g.ncols() == cols && forall|i: int|
                0 <= i < g.n() ==> (#[trigger] g.adj()[i]).len() == 0,
            r matches Err(e) ==> e == MazeError::InvalidDimensions,
    {
        if rows == 0 || cols == 0 || cols > usize::MAX / rows {
            proof {
                if rows >= 1 && cols > usize::MAX / rows {
                    assert(rows * cols > usize::MAX) by (nonlinear_arith)
                        requires
                            rows >= 1,
                            cols > usize::MAX / rows,
                    ;
                }
            }
            Err(MazeError::InvalidDimensions)
        } else {
            assert(rows * cols <= usize::MAX) by (nonlinear_arith)
                requires
                    rows >= 1,
                    cols <= usize::MAX / rows,
            ;
            Ok(Grid::new(rows, cols))
        }
    }

    /// The cells of a `rows` by `cols` grid in row order, each with weight 1 and with the
    /// positions of the neighbours that lie in the grid.
    fn build_grid_cells(rows: usize, cols: usize) -> (v: Vec<GridCell>)
        requires
            rows >= 1,
            cols >= 1,
            rows * cols <= usize::MAX,
        ensures
            v@.len() == rows * cols,
            forall|i: int| 0 <= i < v@.len() ==> fresh_cell(#[trigger] v@[i], pos_of(i, cols as int), rows as int, cols as int)
                && v@[i].weight_spec() == 1,
    {
        let n = rows * cols;
        let mut grid: Vec<GridCell> = Vec::with_capacity(n);
        let mut i: usize = 0;
        while i < n
            invariant
                n == rows * cols,
                rows >= 1,
                cols >= 1,
                n <= usize::MAX,
                i <= n,
                grid@.len() == i,
                forall|k: int| 0 <= k < i ==> fresh_cell(#[trigger] grid@[k], pos_of(k, cols as int), rows as int, cols as int)
                    && grid@[k].weight_spec() == 1,
            decreases n - i,
        {
            proof {
                lemma_pos_of(i as int, rows as int, cols as int);
            }
            let pos = Pos::new(i / cols, i % cols);
            let gc = GridCell::new(
                pos,
                Grid::has_north(&pos),
                Grid::has_south(&pos, rows),
                Grid::has_east(&pos, cols),
                Grid::has_west(&pos),
                1,
            );
            grid.push(gc);
            i = i + 1;
        }
        grid
    }

    /// The position north of `pos`, if its row is not the first.
    fn has_north(pos: &Pos) -> (r: Option<Pos>)
        ensures
            r == (if pos.r > 0 { Some(Pos { r: (pos.r - 1) as usize, c: pos.c }) } else { None }),
    {
        if pos.r > 0 {
            Some(Pos::new(pos.r - 1, pos.c))
        } else {
            None
        }
    }

    /// The position south of `pos`, if its row is not the last of `grid_rows`.
    fn has_south(pos: &Pos, grid_rows: usize) -> (r: Option<Pos>)
        ensures
            r == (if pos.r + 1 < grid_rows { Some(Pos { r: (pos.r + 1) as usize, c: pos.c }) } else { None }),
    {
        if grid_rows > 0 && pos.r < grid_rows - 1 {
            Some(Pos::new(pos.r + 1, pos.c))
        } else {
            None
        }
    }

    /// The position east of `pos`, if its column is not the last of `grid_cols`.
    fn has_east(pos: &Pos, grid_cols: usize) -> (r: Option<Pos>)
        ensures
            r == (if pos.c + 1 < grid_cols { Some(Pos { r: pos.r, c: (pos.c + 1) as usize }) } else { None }),
    {
        if grid_cols > 0 && pos.c < grid_cols - 1 {
            Some(Pos::new(pos.r, pos.c + 1))
        } else {
            None
        }
    }

    /// The position west of `pos`, if its column is not the first.
    fn has_west(pos: &Pos) -> (r: Option<Pos>)
        ensures
            r == (if pos.c > 0 { Some(Pos { r: pos.r, c: (pos.c - 1) as usize }) } else { None }),
    {
        if pos.c > 0 {
            Some(Pos::new(pos.r, pos.c - 1))
        } else {
            None
        }
    }

    /// The number of cells, rows * cols.
    pub fn size(&self) -> (n: usize)
        requires
            self.wf(),
        ensures
            n == self.n(),
    {
        proof {
            self.lemma_wf();
        }
        self.rows * self.cols
    }

    /// The row-major index of `pos`.
    fn idx1d(&self, pos: &Pos) -> (i: usize)
        requires
            self.wf(),
            in_grid(*pos, self.nrows(), self.ncols()),
        ensures
            i == index_of(*pos, self.ncols()),
            i < self.n(),
            pos_of(i as int, self.ncols()) == *pos,
    {
        proof {
            self.lemma_wf();
            lemma_index_of(*pos, self.nrows(), self.ncols());
        }
        pos.r * self.cols + pos.c
    }

    /// The position of row-major index `index`.
    fn idx2d(&self, index: usize) -> (p: Pos)
        requires
            self.wf(),
            index < self.n(),
        ensures
            p == pos_of(index as int, self.ncols()),
            in_grid(p, self.nrows(), self.ncols()),
            index_of(p, self.ncols()) == index,
    {
        proof {
            self.lemma_wf();
            lemma_pos_of(index as int, self.nrows(), self.ncols());
        }
        Pos::new(index / self.cols, index % self.cols)
    }

    /// The cell at `pos`, or `OutOfBounds` outside the grid.
    pub fn cell(&self, pos: Pos) -> (r: Result<GridCell, MazeError>)
        requires
            self.wf(),
        ensures
            in_grid(pos, self.nrows(), self.ncols()) <==> r is Ok,
            r matches Ok(g) ==> g == self.cell_spec(index_of(pos, self.ncols())) && fresh_cell(
                g,
                pos,
                self.nrows(),
                self.ncols(),
            ),
            r matches Err(e) ==> e == MazeError::OutOfBounds,
    {
        if pos.r < self.rows && pos.c < self.cols {
            let i = self.idx1d(&pos);
            proof {
                self.lemma_wf();
            }
            Ok(self.grid[i])
        } else {
            Err(MazeError::OutOfBounds)
        }
    }

    /// Carves a passage from `from` to `to`, and from `to` to `from` as well when `bidi`
    /// holds.
    pub fn link(&mut self, from: &Pos, to: &Pos, bidi: bool)
        requires
            old(self).wf(),
            in_grid(*from, old(self).nrows(), old(self).ncols()),
            in_grid(*to, old(self).nrows(), old(self).ncols()),
        ensures
            final(self).wf(),
            final(self).nrows() == old(self).nrows(),
            final(self).ncols() == old(self).ncols(),
            final(self).n() == old(self).n(),
            forall|i: int| 0 <= i < old(self).n() ==> #[trigger] final(self).cell_spec(i) == old(self).cell_spec(i),
            ({
                let f = index_of(*from, old(self).ncols());
                let t = index_of(*to, old(self).ncols());
                let a1 = old(self).adj().update(f, old(self).adj()[f].push(t as usize));
                &&& final(self).adj() == linked(old(self).adj(), f, t, bidi)
                &&& fresh_link(old(self).adj(), f, t, bidi) && !bidi ==> final(self).adj() == a1
                &&& fresh_link(old(self).adj(), f, t, bidi) && bidi ==> final(self).adj() == a1.update(t, a1[t].push(f as usize))
            }),
    {
        let f = self.idx1d(from);
        let t = self.idx1d(to);
        proof {
            self.links.lemma_wf();
        }
        self.links.link(f, t, bidi);
    }

    /// Removes the first passage from `from` to `to`, if there is one, and when `bidi` holds
    /// the first from `to` to `from` as well.
    pub fn unlink(&mut self, from: &Pos, to: &Pos, bidi: bool)
        requires
            old(self).wf(),
            in_grid(*from, old(self).nrows(), old(self).ncols()),
            in_grid(*to, old(self).nrows(), old(self).ncols()),
        ensures
            final(self).wf(),
            final(self).nrows() == old(self).nrows(),
            final(self).ncols() == old(self).ncols(),
            final(self).n() == old(self).n(),
            forall|i: int| 0 <= i < old(self).n() ==> #[trigger] final(self).cell_spec(i) == old(self).cell_spec(i),
            ({
                let f = index_of(*from, old(self).ncols());
                let t = index_of(*to, old(self).ncols());
                &&& final(self).adj().len() == old(self).adj().len()
                &&& !bidi ==> removed_first(old(self).adj()[f], t as usize, final(self).adj()[f])
                    && forall|i: int| 0 <= i < old(self).n() && i != f ==> final(self).adj()[i] == old(self).adj()[i]
                &&& bidi && f != t ==> removed_first(old(self).adj()[f], t as usize, final(self).adj()[f])
                    && removed_first(old(self).adj()[t], f as usize, final(self).adj()[t])
                    && forall|i: int| 0 <= i < old(self).n() && i != f && i != t ==> final(self).adj()[i] == old(self).adj()[i]
                &&& bidi && f == t ==> removed_first(old(self).adj()[f], t as usize, final(self).adj()[f])
                    && forall|i: int| 0 <= i < old(self).n() && i != f ==> final(self).adj()[i] == old(self).adj()[i]
            }),
    {
        let f = self.idx1d(from);
        let t = self.idx1d(to);
        proof {
            self.links.lemma_wf();
        }
        let ghost a0 = self.links@;
        self.links.remove_first(f, t);
        let ghost mid = self.links@[f as int];
        if bidi {
            proof {
                if f == t {
                    crate::links::lemma_removed_first_gone(a0[f as int], t, mid);
                }
            }
            self.links.remove_first(t, f);
        }
    }

    /// Whether there is a passage from `from` to `to`.
    pub fn has_link(&self, from: &Pos, to: &Pos) -> (b: bool)
        requires
            self.wf(),
            in_grid(*from, self.nrows(), self.ncols()),
            in_grid(*to, self.nrows(), self.ncols()),
        ensures
            b == self.adj()[index_of(*from, self.ncols())].contains(index_of(*to, self.ncols()) as usize),
    {
        let f = self.idx1d(from);
        let t = self.idx1d(to);
        proof {
            self.links.lemma_wf();
        }
        self.links.contains(f, t)
    }

    /// The positions that `pos` links to, in the order the links were made.
    pub fn links(&self, pos: &Pos) -> (v: Vec<Pos>)
        requires
            self.wf(),
            in_grid(*pos, self.nrows(), self.ncols()),
        ensures
            v@.len() == self.adj()[index_of(*pos, self.ncols())].len(),
            forall|k: int| 0 <= k < v@.len() ==> #[trigger] v@[k] == pos_of(
                self.adj()[index_of(*pos, self.ncols())][k] as int,
                self.ncols(),
            ) && in_grid(v@[k], self.nrows(), self.ncols()),
            forall|k: int, l: int| 0 <= k < l < v@.len() ==> #[trigger] v@[k] != #[trigger] v@[l],
    {
        let i = self.idx1d(pos);
        proof {
            self.links.lemma_wf();
        }
        let ls = self.links.links_of(i);
        let mut v: Vec<Pos> = Vec::with_capacity(ls.len());
        let mut k: usize = 0;
        while k < ls.len()
            invariant
                self.wf(),
                i < self.n(),
                i == index_of(*pos, self.ncols()),
                ls@ == self.adj()[i as int],
                k <= ls@.len(),
                v@.len() == k,
                forall|j: int| 0 <= j < k ==> #[trigger] v@[j] == pos_of(ls@[j] as int, self.ncols())
                    && in_grid(v@[j], self.nrows(), self.ncols()) && index_of(v@[j], self.ncols()) == ls@[j],
            decreases ls@.len() - k,
        {
            proof {
                self.lemma_wf();
            }
            v.push(self.idx2d(ls[k]));
            k = k + 1;
        }
        proof {
            self.lemma_wf();
            assert forall|a: int, b: int| 0 <= a < b < v@.len() implies #[trigger] v@[a] != #[trigger] v@[b] by {
                assert(ls@[a] != ls@[b]);
            }
        }
        v
    }

    /// The positions of the dead ends (cells with exactly one link), in row order.
    pub fn dead_ends(&self) -> (v: Vec<Pos>)
        requires
            self.wf(),
        ensures
            v@.len() == dead_end_count(self.adj()),
            forall|k: int| 0 <= k < v@.len() ==> in_grid(#[trigger] v@[k], self.nrows(), self.ncols())
                && is_dead_end(self.adj(), index_of(v@[k], self.ncols())),
            forall|i: int| 0 <= i < self.n() && is_dead_end(self.adj(), i) ==> #[trigger] v@.contains(pos_of(i, self.ncols())),
            forall|k: int, l: int| 0 <= k < l < v@.len() ==> index_of(#[trigger] v@[k], self.ncols()) < index_of(#[trigger] v@[l], self.ncols()),
    {
        let idx = self.links.dead_ends();
        proof {
            self.links.lemma_wf();
        }
        let mut v: Vec<Pos> = Vec::with_capacity(idx.len());
        let mut j: usize = 0;
        while j < idx.len()
            invariant
                self.wf(),
                j <= idx@.len(),
                v@.len() == j,
                forall|k: int| 0 <= k < idx@.len() ==> #[trigger] idx@[k] < self.n() && is_dead_end(self.adj(), idx@[k] as int),
                forall|k: int| 0 <= k < j ==> #[trigger] v@[k] == pos_of(idx@[k] as int, self.ncols())
                    && in_grid(v@[k], self.nrows(), self.ncols())
                    && index_of(v@[k], self.ncols()) == idx@[k],
            decreases idx@.len() - j,
        {
            v.push(self.idx2d(idx[j]));
            j = j + 1;
        }
        assert forall|i: int| 0 <= i < self.n() && is_dead_end(self.adj(), i) implies #[trigger] v@.contains(pos_of(i, self.ncols())) by {
            self.lemma_wf();
            assert(idx@.contains(i as usize));
            let k = choose|k: int| 0 <= k < idx@.len() && idx@[k] == i as usize;
            assert(v@[k] == pos_of(i, self.ncols()));
        }
        assert forall|k: int| 0 <= k < v@.len() implies in_grid(#[trigger] v@[k], self.nrows(), self.ncols())
            && is_dead_end(self.adj(), index_of(v@[k], self.ncols())) by {
            assert(is_dead_end(self.adj(), idx@[k] as int));
        }
        v
    }

    /// The position of a cell picked at random.
    pub fn random_pos(&self) -> (p: Pos)
        requires
            self.wf(),
        ensures
            in_grid(p, self.nrows(), self.ncols()),
    {
        proof {
            self.lemma_wf();
            assert(self.rows * self.cols >= 1) by (nonlinear_arith)
                requires
                    self.rows >= 1,
                    self.cols >= 1,
            ;
        }
        let i = random_below(self.grid.len());
        self.idx2d(i)
    }

    /// Braids the grid: visits the dead ends in random order and, with probability
    /// `numerator / denominator`, links each one that is still a dead end to a neighbour it
    /// is not linked to, preferring a neighbour that is itself a dead end.
    pub fn braid(&mut self, numerator: u32, denominator: u32)
        requires
            old(self).wf(),
            0 < denominator,
            numerator <= denominator,
        ensures
            final(self).wf(),
            final(self).nrows() == old(self).nrows(),
            final(self).ncols() == old(self).ncols(),
            final(self).n() == old(self).n(),
            forall|i: int| 0 <= i < old(self).n() ==> #[trigger] final(self).cell_spec(i) == old(self).cell_spec(i),
            links_grow(old(self).adj(), final(self).adj()),
            connected(old(self).adj()) ==> connected(final(self).adj()),
            links_adjacent(old(self).adj(), old(self).ncols()) ==> links_adjacent(
                final(self).adj(),
                final(self).ncols(),
            ),
            symmetric(old(self).adj()) ==> symmetric(final(self).adj()),
            simple(final(self).adj()),
            all_linked(old(self).adj()) ==> all_linked(final(self).adj()) && dead_end_count(
                final(self).adj(),
            ) <= dead_end_count(old(self).adj()),
            all_linked(old(self).adj()) && numerator == denominator && old(self).nrows() >= 2
                && old(self).ncols() >= 2 && dead_end_count(old(self).adj()) > 0 ==> dead_end_count(
                final(self).adj(),
            ) < dead_end_count(old(self).adj()),
            all_linked(old(self).adj()) && numerator == denominator && old(self).nrows() >= 2
                && old(self).ncols() >= 2 ==> dead_end_count(final(self).adj()) == 0,
            forall|a: int, b: usize|
                0 <= a < old(self).adj().len() && #[trigger] final(self).adj()[a].contains(b) && !old(self).adj()[a].contains(b)
                    ==> is_dead_end(old(self).adj(), a) || is_dead_end(old(self).adj(), b as int),
    {
        self.links.braid(numerator, denominator);
    }

    /// The cells in row order.
    pub fn iter_cells(&self) -> (s: &[GridCell])
        requires
            self.wf(),
        ensures
            s@.len() == self.n(),
            forall|i: int| 0 <= i < s@.len() ==> #[trigger] s@[i] == self.cell_spec(i),
    {
        self.grid.as_slice()
    }

    /// The rows of the grid, each a copy of its cells from west to east.
    pub fn row_iter(&self) -> (rs: Vec<Vec<GridCell>>)
        requires
            self.wf(),
        ensures
            rs@.len() == self.nrows(),
            forall|r: int| 0 <= r < rs@.len() ==> (#[trigger] rs@[r])@.len() == self.ncols(),
            forall|r: int, c: int| 0 <= r < rs@.len() && 0 <= c < self.ncols() ==> #[trigger] rs@[r]@[c] == self.cell_spec(r * self.ncols() + c),
    {
        let rows = self.rows;
        let cols = self.cols;
        proof {
            self.lemma_wf();
        }
        let mut rs: Vec<Vec<GridCell>> = Vec::with_capacity(rows);
        let mut r: usize = 0;
        while r < rows
            invariant
                self.wf(),
                rows == self.rows,
                cols == self.cols,
                self.n() <= usize::MAX,
                r <= rows,
                rs@.len() == r,
                forall|k: int| 0 <= k < r ==> (#[trigger] rs@[k])@.len() == cols,
                forall|k: int, c: int| 0 <= k < r && 0 <= c < cols ==> #[trigger] rs@[k]@[c] == self.cell_spec(k * cols + c),
            decreases rows - r,
        {
            let mut row: Vec<GridCell> = Vec::with_capacity(cols);
            let mut c: usize = 0;
            while c < cols
                invariant
                    self.wf(),
                    rows == self.rows,
                    cols == self.cols,
                    self.n() <= usize::MAX,
                    r < rows,
                    c <= cols,
                    row@.len() == c,
                    forall|j: int| 0 <= j < c ==> #[trigger] row@[j] == self.cell_spec(r * cols + j),
                decreases cols - c,
            {
                assert(r * cols + c < rows * cols && 0 <= r * cols) by (nonlinear_arith)
                    requires
                        r < rows,
                        c < cols,
                ;
                row.push(self.grid[r * cols + c]);
                c = c + 1;
            }
            rs.push(row);
            r = r + 1;
        }
        rs
    }

    /// The positions of the structural neighbours of `pos`, in the order north, south, east,
    /// west.
    pub fn neighbors_of(&self, pos: &Pos) -> (v: Vec<Pos>)
        requires
            self.wf(),
            in_grid(*pos, self.nrows(), self.ncols()),
        ensures
            forall|k: int| 0 <= k < v@.len() ==> in_grid(#[trigger] v@[k], self.nrows(), self.ncols())
                && adjacent(self.n(), self.ncols(), index_of(*pos, self.ncols()), index_of(v@[k], self.ncols())),
            forall|j: int| #[trigger] adjacent(self.n(), self.ncols(), index_of(*pos, self.ncols()), j) ==> exists|k: int|
                0 <= k < v@.len() && index_of(#[trigger] v@[k], self.ncols()) == j,
    {
        let cell = self.cell(*pos).unwrap();
        let v = cell.neighbors();
        proof {
            self.lemma_wf();
            let rows = self.nrows();
            let cols = self.ncols();
            lemma_directions(*pos, rows, cols);
            let i = index_of(*pos, cols);
            let s1 = opt_seq(cell.north_spec());
            let s2 = opt_seq(cell.south_spec());
            let s3 = opt_seq(cell.east_spec());
            let s4 = opt_seq(cell.west_spec());
            assert(v@ == s1 + s2 + s3 + s4);
            assert forall|k: int| 0 <= k < v@.len() implies in_grid(#[trigger] v@[k], rows, cols)
                && adjacent(self.n(), cols, i, index_of(v@[k], cols)) by {
                lemma_index_of(*pos, rows, cols);
                if k < s1.len() {
                    assert(v@[k] == s1[k]);
                    assert(pos.r > 0);
                    assert(north_of(cols, i) == Some(index_of(v@[k], cols)));
                } else if k < s1.len() + s2.len() {
                    assert(v@[k] == s2[k - s1.len()]);
                    assert(south_of(self.n(), cols, i) == Some(index_of(v@[k], cols)));
                } else if k < s1.len() + s2.len() + s3.len() {
                    assert(v@[k] == s3[k - s1.len() - s2.len()]);
                    assert(east_of(self.n(), cols, i) == Some(index_of(v@[k], cols)));
                } else {
                    assert(v@[k] == s4[k - s1.len() - s2.len() - s3.len()]);
                    assert(west_of(cols, i) == Some(index_of(v@[k], cols)));
                }
            }
            assert forall|j: int| #[trigger] adjacent(self.n(), cols, i, j) implies exists|k: int|
                0 <= k < v@.len() && index_of(#[trigger] v@[k], cols) == j by {
                if north_of(cols, i) == Some(j) {
                    assert(v@[0] == s1[0]);
                } else if south_of(self.n(), cols, i) == Some(j) {
                    assert(v@[s1.len() as int] == s2[0]);
                } else if east_of(self.n(), cols, i) == Some(j) {
                    assert(v@[(s1.len() + s2.len()) as int] == s3[0]);
                } else {
                    assert(v@[(s1.len() + s2.len() + s3.len()) as int] == s4[0]);
                }
            }
        }
        v
    }
}

} // verus!
