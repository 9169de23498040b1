//! Row/column positions within a rectangular grid.
use vstd::prelude::*;
use vstd::arithmetic::div_mod::{lemma_fundamental_div_mod, lemma_fundamental_div_mod_converse};

verus! {

/// A (row, column) index within a rectangular grid. Positions are 0-based.
#[derive(Debug, Clone, Copy, PartialEq, Eq, Hash, Structural)]
pub struct Pos {
    pub r: usize,
    pub c: usize,
}

impl Pos {
    /// Creates the position at `row`, `col`.
    pub fn new(row: usize, col: usize) -> (p: Pos)
        ensures
            p.r == row,
            p.c == col,
    {
        Pos { r: row, c: col }
    }

    /// Walks the positions of a `max_row` by `max_col` grid in row order, from `Pos(0,0)`
    /// up to `Pos(max_row - 1, max_col - 1)`.
    pub fn iter(max_row: usize, max_col: usize) -> (it: PositionIter)
        requires
            max_row * max_col <= usize::MAX,
        ensures
            it.wf(),
            it.cursor() == 0,
            it.end() == max_row * max_col,
            it.columns() == max_col,
    {
        PositionIter::new(max_row, max_col)
    }
}

impl From<(usize, usize)> for Pos {
    /// The position (row, col) of a tuple.
    fn from(tup: (usize, usize)) -> (p: Pos) {
        Pos::new(tup.0, tup.1)
    }
}

impl vstd::std_specs::convert::FromSpecImpl<(usize, usize)> for Pos {
    open spec fn obeys_from_spec() -> bool {
        true
    }

    open spec fn from_spec(tup: (usize, usize)) -> Pos {
        Pos { r: tup.0, c: tup.1 }
    }
}

/// The position that the row-major index `i` stands for in a grid of `cols` columns.
pub open spec fn pos_of(i: int, cols: int) -> Pos
    recommends
        cols > 0,
        0 <= i,
{
    Pos { r: (i / cols) as usize, c: (i % cols) as usize }
}

/// The row-major index of position `p` in a grid of `cols` columns.
pub open spec fn index_of(p: Pos, cols: int) -> int {
    p.r * cols + p.c
}

/// Position `p` lies in a `rows` by `cols` grid.
pub open spec fn in_grid(p: Pos, rows: int, cols: int) -> bool {
    p.r < rows && p.c < cols
}

/// A position in the grid has an index in the grid, and that index leads back to it.
pub proof fn lemma_index_of(p: Pos, rows: int, cols: int)
    requires
        in_grid(p, rows, cols),
    ensures
        0 <= index_of(p, cols) < rows * cols,
        pos_of(index_of(p, cols), cols) == p,
{
    let i = index_of(p, cols);
    assert(0 <= i < rows * cols) by (nonlinear_arith)
        requires
            i == p.r * cols + p.c,
            p.r < rows,
            p.c < cols,
    ;
    lemma_fundamental_div_mod_converse(i, cols, p.r as int, p.c as int);
}

/// An index in the grid names a position in the grid, and that position leads back to it.
pub proof fn lemma_pos_of(i: int, rows: int, cols: int)
    requires
        cols >= 1,
        0 <= i < rows * cols,
        i <= usize::MAX,
    ensures
        in_grid(pos_of(i, cols), rows, cols),
        index_of(pos_of(i, cols), cols) == i,
        i / cols < rows,
{
    lemma_fundamental_div_mod(i, cols);
    let q = i / cols;
    let m = i % cols;
    assert(0 <= q <= i && q < rows) by (nonlinear_arith)
        requires
            i == cols * q + m,
            0 <= m < cols,
            cols >= 1,
            0 <= i < rows * cols,
    {
        if q >= rows {
            assert(cols * q >= cols * rows);
        }
        if q < 0 {
            assert(cols * q <= -cols);
        }
        assert(cols * q >= q);
    }
    assert(q * cols == cols * q) by (nonlinear_arith);
}

/// The state of a walk over positions in row order.
pub struct PositionIter {
    max_col: usize,
    cur_idx: usize,
    max_idx: usize,
}

impl PositionIter {
    pub closed spec fn cursor(&self) -> nat {
        self.cur_idx as nat
    }

    pub closed spec fn end(&self) -> nat {
        self.max_idx as nat
    }

    pub closed spec fn columns(&self) -> nat {
        self.max_col as nat
    }

    pub closed spec fn wf(&self) -> bool {
        &&& self.cur_idx <= self.max_idx
        &&& (self.max_idx > 0 ==> self.max_col > 0)
    }

    /// Starts a walk over the positions of a `max_row` by `max_col` grid.
    pub fn new(max_row: usize, max_col: usize) -> (it: Self)
        requires
            max_row * max_col <= usize::MAX,
        ensures
            it.wf(),
            it.cursor() == 0,
            it.end() == max_row * max_col,
            it.columns() == max_col,
    {
        let max_idx = max_row * max_col;
        if max_col == 0 {
            assert(max_idx == 0) by (nonlinear_arith)
                requires
                    max_idx == max_row * max_col,
                    max_col == 0,
            ;
        }
        PositionIter { max_col, cur_idx: 0, max_idx }
    }

    /// Hands out the next position in row order, or `None` once every position was handed out.
    pub fn next_pos(&mut self) -> (r: Option<Pos>)
        requires
            old(self).wf(),
        ensures
            final(self).wf(),
            final(self).end() == old(self).end(),
            final(self).columns() == old(self).columns(),
            old(self).cursor() < old(self).end() ==> final(self).cursor() == old(self).cursor() + 1
                && r == Some(pos_of(old(self).cursor() as int, old(self).columns() as int)),
            old(self).cursor() >= old(self).end() ==> final(self).cursor() == old(self).cursor()
                && r is None,
    {
        if self.cur_idx < self.max_idx {
            let r = self.cur_idx / self.max_col;
            let c = self.cur_idx % self.max_col;
            self.cur_idx = self.cur_idx + 1;
            Some(Pos::new(r, c))
        } else {
            None
        }
    }

    /// Consumes the walk and returns the last position it would hand out, if any is left.
    pub fn last(self) -> (r: Option<Pos>)
        requires
            self.wf(),
        ensures
            self.cursor() < self.end() ==> r == Some(
                pos_of(self.end() - 1, self.columns() as int),
            ),
            self.cursor() >= self.end() ==> r is None,
    {
        if self.cur_idx < self.max_idx {
            let i = self.max_idx - 1;
            Some(Pos::new(i / self.max_col, i % self.max_col))
        } else {
            None
        }
    }
}

} // verus!
