//! A maze stored as one byte per cell, each bit a carved wall.
use vstd::prelude::*;
use crate::bitfield::direction::Direction;
use crate::counting::{count_where, lemma_count_mono, lemma_count_strict};

verus! {

/// Cell (x, y) of `m` has its wall in direction `d` carved.
pub open spec fn carved(m: &Maze, x: int, y: int, d: Direction) -> bool {
    m.cell_spec(x, y) & d.bits_spec() != 0
}

/// The cell one step from (x, y) in direction `d`; north is towards row 0.
pub open spec fn step(x: int, y: int, d: Direction) -> (int, int) {
    match d {
        Direction::N => (x, y - 1),
        Direction::S => (x, y + 1),
        Direction::E => (x + 1, y),
        Direction::W => (x - 1, y),
    }
}

/// Every carved wall leads to a cell of the maze whose facing wall is carved too.
pub open spec fn consistent(m: &Maze) -> bool {
    forall|x: int, y: int, d: Direction|
        0 <= x < m.w() && 0 <= y < m.h() && #[trigger] carved(m, x, y, d) ==> {
            let (nx, ny) = step(x, y, d);
            &&& 0 <= nx < m.w()
            &&& 0 <= ny < m.h()
            &&& carved(m, nx, ny, d.opposite_spec())
        }
}

/// Setting one direction bit leaves the others as they were.
pub proof fn lemma_or_bit(v: u8, b: u8, c: u8)
    requires
        b == 1 || b == 2 || b == 4 || b == 8,
        c == 1 || c == 2 || c == 4 || c == 8,
    ensures
        ((v | b) & c != 0) == ((v & c != 0) || b == c),
{
    assert(((v | b) & c != 0) == ((v & c != 0) || b == c)) by (bit_vector)
        requires
            b == 1 || b == 2 || b == 4 || b == 8,
            c == 1 || c == 2 || c == 4 || c == 8,
    ;
}

/// The cell `p` where `b` holds, as a sequence of zero or one cells.
pub open spec fn cell_if(b: bool, p: (usize, usize)) -> Seq<(usize, usize)> {
    if b {
        seq![p]
    } else {
        Seq::empty()
    }
}

/// A `width` by `height` maze; cell (x, y) is a byte of `Direction` bits.
#[derive(Debug)]
pub struct Maze {
    pub width: usize,
    pub height: usize,
    field: Vec<u8>,
}

impl Maze {
    pub closed spec fn wf(&self) -> bool {
        &&& self.field@.len() == self.width * self.height
        &&& self.width * self.height <= usize::MAX
    }

    /// The byte of cell (x, y).
    pub closed spec fn cell_spec(&self, x: int, y: int) -> u8 {
        self.field@[y * self.width + x]
    }

    /// The number of cells with no wall carved.
    pub closed spec fn zero_cells(&self) -> nat {
        count_where(self.field@.len() as int, |i: int| self.field@[i] == 0)
    }

    pub closed spec fn w(&self) -> int {
        self.width as int
    }

    pub closed spec fn h(&self) -> int {
        self.height as int
    }

    /// The dimensions fit in `usize`.
    pub proof fn lemma_dims(&self)
        ensures
            0 <= self.w() <= usize::MAX,
            0 <= self.h() <= usize::MAX,
    {
    }

    /// A maze with no wall carved.
    pub fn new(width: usize, height: usize) -> (m: Self)
        requires
            width * height <= usize::MAX,
        ensures
            m.wf(),
            m.w() == width,
            m.h() == height,
            forall|x: int, y: int| 0 <= x < width && 0 <= y < height ==> #[trigger] m.cell_spec(x, y) == 0,
            consistent(&m),
    {
        let n = width * height;
        let field: Vec<u8> = vec![0u8; n];
        let m = Maze { width, height, field };
        assert forall|x: int, y: int| 0 <= x < width && 0 <= y < height implies #[trigger] m.cell_spec(x, y) == 0 by {
            assert(0 <= y * width + x < width * height) by (nonlinear_arith)
                requires
                    0 <= x < width,
                    0 <= y < height,
            ;
        }
        assert(forall|b: u8| 0u8 & b == 0) by (bit_vector);
        m
    }

    /// The index of cell (x, y) in the field.
    fn to_1d(&self, x: usize, y: usize) -> (i: usize)
        requires
            self.wf(),
            x < self.width,
            y < self.height,
        ensures
            i == y * self.width + x,
            i < self.field@.len(),
    {
        assert(0 <= y * self.width + x < self.width * self.height) by (nonlinear_arith)
            requires
                x < self.width,
                y < self.height,
        ;
        y * self.width + x
    }

    /// Whether (x, y) lies in the maze.
    pub fn in_bounds(&self, x: usize, y: usize) -> (b: bool)
        ensures
            b == (y < self.h() && x < self.w()),
    {
        y < self.height && x < self.width
    }

    /// The cells north, south, west and east of (x, y), in that order, that lie in the maze.
    pub fn neighbors(&self, x: usize, y: usize) -> (v: Vec<(usize, usize)>)
        ensures
            x < self.w() && y < self.h() ==> v@ == cell_if(y > 0, (x, (y - 1) as usize)) + cell_if(
                y + 1 < self.h(),
                (x, (y + 1) as usize),
            ) + cell_if(x > 0, ((x - 1) as usize, y)) + cell_if(x + 1 < self.w(), ((x + 1) as usize, y)),
            !(x < self.w() && y < self.h()) ==> v@ == cell_if(x < self.w() && y > 0 && y - 1 < self.h(), (x, (y - 1) as usize))
                + cell_if(y < self.h() && x > 0 && x - 1 < self.w(), ((x - 1) as usize, y)),
    {
        let mut v: Vec<(usize, usize)> = Vec::new();
        if x < self.width && y > 0 && y - 1 < self.height {
            v.push((x, y - 1));
        }
        let ghost s1 = v@;
        if x < self.width && y < self.height && y + 1 < self.height {
            v.push((x, y + 1));
        }
        let ghost s2 = v@;
        if y < self.height && x > 0 && x - 1 < self.width {
            v.push((x - 1, y));
        }
        let ghost s3 = v@;
        if y < self.height && x < self.width && x + 1 < self.width {
            v.push((x + 1, y));
        }
        proof {
            let n1 = cell_if(x < self.w() && y > 0 && y - 1 < self.h(), (x, (y - 1) as usize));
            let n2 = cell_if(x < self.w() && y < self.h() && y + 1 < self.h(), (x, (y + 1) as usize));
            let n3 = cell_if(y < self.h() && x > 0 && x - 1 < self.w(), ((x - 1) as usize, y));
            let n4 = cell_if(y < self.h() && x < self.w() && x + 1 < self.w(), ((x + 1) as usize, y));
            assert(s1 =~= n1);
            assert(s2 =~= n1 + n2);
            assert(s3 =~= n1 + n2 + n3);
            assert(v@ =~= n1 + n2 + n3 + n4);
            if !(x < self.w() && y < self.h()) {
                assert(n2 =~= Seq::<(usize, usize)>::empty());
                assert(n4 =~= Seq::<(usize, usize)>::empty());
                assert(v@ =~= n1 + n3);
            }
        }
        v
    }

    /// The direction of the wall carved when moving from (fx, fy) to (tx, ty).
    pub fn carve_passage(fx: usize, fy: usize, tx: usize, ty: usize) -> (d: Direction)
        ensures
            fx < tx ==> d == Direction::E,
            fx > tx ==> d == Direction::W,
            fx == tx && fy < ty ==> d == Direction::S,
            fx == tx && fy >= ty ==> d == Direction::N,
    {
        if fx < tx {
            Direction::E
        } else if fx > tx {
            Direction::W
        } else if fy < ty {
            Direction::S
        } else {
            Direction::N
        }
    }

    /// Whether the wall of (x, y) in direction `dir` is carved, or `None` outside the maze.
    pub fn is_carved(&self, x: usize, y: usize, dir: Direction) -> (r: Option<bool>)
        requires
            self.wf(),
        ensures
            (x < self.w() && y < self.h()) <==> r is Some,
            r matches Some(b) ==> b == (self.cell_spec(x as int, y as int) & dir.bits_spec() != 0),
    {
        if x < self.width && y < self.height {
            let idx = self.to_1d(x, y);
            Some(self.field[idx] & dir.bits() != 0)
        } else {
            None
        }
    }

    /// The byte of cell (x, y).
    pub fn cell(&self, x: usize, y: usize) -> (b: u8)
        requires
            self.wf(),
            x < self.w(),
            y < self.h(),
        ensures
            b == self.cell_spec(x as int, y as int),
    {
        let idx = self.to_1d(x, y);
        self.field[idx]
    }

    /// Carves the wall of (x, y) in direction `dir`.
    pub fn carve(&mut self, x: usize, y: usize, dir: Direction)
        requires
            old(self).wf(),
            x < old(self).w(),
            y < old(self).h(),
        ensures
            final(self).wf(),
            final(self).w() == old(self).w(),
            final(self).h() == old(self).h(),
            final(self).cell_spec(x as int, y as int) == old(self).cell_spec(x as int, y as int) | dir.bits_spec(),
            forall|i: int, j: int| 0 <= i < old(self).w() && 0 <= j < old(self).h() && !(i == x && j == y)
                ==> #[trigger] final(self).cell_spec(i, j) == old(self).cell_spec(i, j),
            final(self).zero_cells() <= old(self).zero_cells(),
            old(self).cell_spec(x as int, y as int) == 0 ==> final(self).zero_cells() < old(self).zero_cells(),
            final(self).cell_spec(x as int, y as int) != 0,
    {
        let idx = self.to_1d(x, y);
        let old_v = self.field[idx];
        let bits = dir.bits();
        let v = old_v | bits;
        assert(bits != 0);
        assert(v != 0) by (bit_vector)
            requires
                v == old_v | bits,
                bits != 0u8,
        ;
        self.field.set(idx, v);
        proof {
            let f = |i: int| old(self).field@[i] == 0;
            let g = |i: int| self.field@[i] == 0;
            assert forall|i: int| 0 <= i < self.field@.len() && #[trigger] g(i) implies f(i) by {
                if i != idx {
                    assert(self.field@[i] == old(self).field@[i]);
                }
            }
            lemma_count_mono(self.field@.len() as int, f, g);
            if old_v == 0 {
                lemma_count_strict(self.field@.len() as int, f, g, idx as int);
            }
            assert forall|i: int, j: int| 0 <= i < old(self).w() && 0 <= j < old(self).h() && !(i == x && j == y)
                implies #[trigger] self.cell_spec(i, j) == old(self).cell_spec(i, j) by {
                let w = self.width as int;
                assert(j * w + i != y * w + x) by (nonlinear_arith)
                    requires
                        0 <= i < w,
                        0 <= x < w,
                        !(i == x && j == y),
                {
                    if j == y {
                    } else if j < y {
                        assert(j * w + w <= y * w);
                    } else {
                        assert(y * w + w <= j * w);
                    }
                }
                assert(0 <= j * w + i < self.width * self.height) by (nonlinear_arith)
                    requires
                        0 <= i < w,
                        0 <= j < self.height,
                        w == self.width,
                ;
            }
        }
    }
}

} // verus!
