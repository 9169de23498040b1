//! Recursive backtracking on the bit-field maze: a depth-first carve from the north-west corner.
use vstd::prelude::*;
use crate::bitfield::direction::Direction;
use crate::bitfield::maze::{Maze, consistent, carved, step, lemma_or_bit};
use crate::random::shuffle;
use crate::generator::regions::lemma_rc;
use crate::grid::lemma_directions;
use crate::links::{adjacent, north_of, south_of, east_of};
use crate::perfect::lemma_closed_all;
use crate::position::{pos_of, lemma_pos_of};

verus! {

/// Cell (x, y) has some wall carved.
pub open spec fn lit(m: &Maze, x: int, y: int) -> bool {
    m.cell_spec(x, y) != 0
}

/// Every cell of the maze next to (x, y) has some wall carved.
pub open spec fn finished(m: &Maze, x: int, y: int) -> bool {
    &&& (y > 0 ==> lit(m, x, y - 1))
    &&& (y + 1 < m.h() ==> lit(m, x, y + 1))
    &&& (x > 0 ==> lit(m, x - 1, y))
    &&& (x + 1 < m.w() ==> lit(m, x + 1, y))
}

/// Every cell with a carved wall in `a` has one in `b`.
pub open spec fn grew(a: &Maze, b: &Maze) -> bool {
    &&& a.w() == b.w()
    &&& a.h() == b.h()
    &&& forall|i: int, j: int| 0 <= i < a.w() && 0 <= j < a.h() && lit(a, i, j) ==> #[trigger] lit(b, i, j)
}

/// Every cell that got its first carved wall between `a` and `b`, but (cx, cy), is finished.
pub open spec fn new_finished(a: &Maze, b: &Maze, cx: int, cy: int) -> bool {
    forall|i: int, j: int|
        0 <= i < a.w() && 0 <= j < a.h() && #[trigger] lit(b, i, j) && !lit(a, i, j) && !(i == cx && j == cy)
            ==> finished(b, i, j)
}

/// The neighbour of (cx, cy) in the direction numbered `code` (north, south, east, west) has a
/// carved wall, if it lies in the maze.
pub open spec fn dir_done(m: &Maze, cx: int, cy: int, code: usize) -> bool {
    &&& code == 0 ==> (cy > 0 ==> lit(m, cx, cy - 1))
    &&& code == 1 ==> (cy + 1 < m.h() ==> lit(m, cx, cy + 1))
    &&& code == 2 ==> (cx + 1 < m.w() ==> lit(m, cx + 1, cy))
    &&& code == 3 ==> (cx > 0 ==> lit(m, cx - 1, cy))
}

proof fn lemma_grew_trans(a: &Maze, b: &Maze, c: &Maze)
    requires
        grew(a, b),
        grew(b, c),
    ensures
        grew(a, c),
{
    assert forall|i: int, j: int| 0 <= i < a.w() && 0 <= j < a.h() && lit(a, i, j) implies #[trigger] lit(c, i, j) by {
        assert(lit(b, i, j));
    }
}

proof fn lemma_finished_grew(a: &Maze, b: &Maze, x: int, y: int)
    requires
        grew(a, b),
        finished(a, x, y),
        0 <= x < a.w(),
        0 <= y < a.h(),
    ensures
        finished(b, x, y),
{
    if y > 0 {
        assert(lit(b, x, y - 1));
    }
    if y + 1 < a.h() {
        assert(lit(b, x, y + 1));
    }
    if x > 0 {
        assert(lit(b, x - 1, y));
    }
    if x + 1 < a.w() {
        assert(lit(b, x + 1, y));
    }
}

proof fn lemma_dir_done_grew(a: &Maze, b: &Maze, x: int, y: int, code: usize)
    requires
        grew(a, b),
        dir_done(a, x, y, code),
        0 <= x < a.w(),
        0 <= y < a.h(),
    ensures
        dir_done(b, x, y, code),
{
    if y > 0 {
        assert(lit(a, x, y - 1) ==> lit(b, x, y - 1));
    }
    if y + 1 < a.h() {
        assert(lit(a, x, y + 1) ==> lit(b, x, y + 1));
    }
    if x > 0 {
        assert(lit(a, x - 1, y) ==> lit(b, x - 1, y));
    }
    if x + 1 < a.w() {
        assert(lit(a, x + 1, y) ==> lit(b, x + 1, y));
    }
}

/// Carving one cell keeps every carved cell carved and carves that cell.
proof fn lemma_carve_grew(a: &Maze, b: &Maze, x: int, y: int)
    requires
        a.w() == b.w(),
        a.h() == b.h(),
        lit(b, x, y),
        forall|i: int, j: int| 0 <= i < a.w() && 0 <= j < a.h() && !(i == x && j == y) ==> #[trigger] b.cell_spec(i, j) == a.cell_spec(i, j),
    ensures
        grew(a, b),
{
    assert forall|i: int, j: int| 0 <= i < a.w() && 0 <= j < a.h() && lit(a, i, j) implies #[trigger] lit(b, i, j) by {
        if !(i == x && j == y) {
            assert(b.cell_spec(i, j) == a.cell_spec(i, j));
        }
    }
}

/// Visits the four directions from (cx, cy) in random order, and for each one that leads to a
/// cell in the maze with no wall carved yet, carves the wall between them and continues from
/// there.
fn carve_passage(cx: usize, cy: usize, maze: &mut Maze)
    requires
        old(maze).wf(),
        cx < old(maze).w(),
        cy < old(maze).h(),
        consistent(old(maze)),
    ensures
        final(maze).wf(),
        consistent(final(maze)),
        final(maze).w() == old(maze).w(),
        final(maze).h() == old(maze).h(),
        final(maze).zero_cells() <= old(maze).zero_cells(),
        grew(old(maze), final(maze)),
        finished(final(maze), cx as int, cy as int),
        new_finished(old(maze), final(maze), cx as int, cy as int),
    decreases old(maze).zero_cells(),
{
    let mut order: Vec<usize> = vec![0, 1, 2, 3];
    let ghost order0 = order@;
    shuffle(&mut order);
    let ghost start = old(maze).zero_cells();
    let ghost me = *maze;
    proof {
        maze.lemma_dims();
        assert(grew(&me, maze));
    }
    let mut k: usize = 0;
    while k < order.len()
        invariant
            maze.wf(),
            maze.w() == old(maze).w(),
            maze.h() == old(maze).h(),
            cx < maze.w(),
            cy < maze.h(),
            start == old(maze).zero_cells(),
            maze.zero_cells() <= start,
            consistent(maze),
            me == *old(maze),
            grew(&me, maze),
            new_finished(&me, maze, cx as int, cy as int),
            order@.len() == 4,
            order@.to_multiset() == order0.to_multiset(),
            order0 == seq![0usize, 1, 2, 3],
            forall|j: int| 0 <= j < k ==> #[trigger] dir_done(maze, cx as int, cy as int, order@[j]),
        decreases order@.len() - k,
    {
        proof {
            maze.lemma_dims();
            order@.to_multiset_ensures();
            order0.to_multiset_ensures();
            assert(order@.contains(order@[k as int]));
            assert(order@.to_multiset().count(order@[k as int]) > 0);
            assert(order0.to_multiset().count(order@[k as int]) > 0);
            assert(order0.contains(order@[k as int]));
        }
        let code = order[k];
        let direction = if code == 0 {
            Direction::N
        } else if code == 1 {
            Direction::S
        } else if code == 2 {
            Direction::E
        } else {
            Direction::W
        };
        let ghost ma = *maze;
        let dx = direction.dx();
        let dy = direction.dy();
        let in_range = !(dx < 0 && cx == 0) && !(dy < 0 && cy == 0) && !(dx > 0 && cx == usize::MAX)
            && !(dy > 0 && cy == usize::MAX);
        if in_range {
            let nx = if dx > 0 { cx + 1 } else if dx < 0 { cx - 1 } else { cx };
            let ny = if dy > 0 { cy + 1 } else if dy < 0 { cy - 1 } else { cy };
            if maze.in_bounds(nx, ny) && maze.cell(nx, ny) == 0 {
                let ghost m0 = *maze;
                assert((nx as int, ny as int) == step(cx as int, cy as int, direction));
                maze.carve(cx, cy, direction);
                let ghost m1 = *maze;
                let ghost is_zero = maze.cell_spec(nx as int, ny as int) == 0;
                proof {
                    if !is_zero {
                        assert(nx == cx && ny == cy);
                    }
                }
                maze.carve(nx, ny, direction.opposite());
                let ghost m2 = *maze;
                proof {
                    lemma_carve_pair(&m0, &m1, maze, cx as int, cy as int, direction, nx as int, ny as int);
                    lemma_carve_grew(&m0, &m1, cx as int, cy as int);
                    lemma_carve_grew(&m1, &m2, nx as int, ny as int);
                    lemma_grew_trans(&m0, &m1, &m2);
                }
                carve_passage(nx, ny, maze);
                proof {
                    let md = *maze;
                    lemma_grew_trans(&m0, &m2, &md);
                    lemma_grew_trans(&me, &m0, &md);
                    assert forall|i: int, j: int|
                        0 <= i < me.w() && 0 <= j < me.h() && #[trigger] lit(&md, i, j) && !lit(&me, i, j) && !(i == cx && j == cy)
                            implies finished(&md, i, j) by {
                        if lit(&m0, i, j) {
                            assert(finished(&m0, i, j));
                            lemma_finished_grew(&m0, &md, i, j);
                        } else if lit(&m2, i, j) {
                            if !(i == nx && j == ny) {
                                assert(m1.cell_spec(i, j) == m0.cell_spec(i, j));
                                assert(m2.cell_spec(i, j) == m1.cell_spec(i, j));
                            }
                        }
                    }
                    assert(lit(&md, nx as int, ny as int));
                }
            }
        }
        proof {
            let mc = *maze;
            assert(grew(&ma, &mc));
            assert forall|j: int| 0 <= j < k + 1 implies #[trigger] dir_done(&mc, cx as int, cy as int, order@[j]) by {
                if j < k {
                    lemma_dir_done_grew(&ma, &mc, cx as int, cy as int, order@[j]);
                }
            }
        }
        k = k + 1;
    }
    proof {
        let mc = *maze;
        order@.to_multiset_ensures();
        order0.to_multiset_ensures();
        assert forall|c: usize| c < 4 implies #[trigger] order@.contains(c) by {
            assert(order0[c as int] == c);
            assert(order0.contains(c));
            assert(order0.to_multiset().count(c) > 0);
        }
        assert(order@.contains(0usize) && order@.contains(1usize) && order@.contains(2usize) && order@.contains(3usize));
        let j0 = choose|j: int| 0 <= j < 4 && order@[j] == 0usize;
        let j1 = choose|j: int| 0 <= j < 4 && order@[j] == 1usize;
        let j2 = choose|j: int| 0 <= j < 4 && order@[j] == 2usize;
        let j3 = choose|j: int| 0 <= j < 4 && order@[j] == 3usize;
        assert(dir_done(&mc, cx as int, cy as int, order@[j0]));
        assert(dir_done(&mc, cx as int, cy as int, order@[j1]));
        assert(dir_done(&mc, cx as int, cy as int, order@[j2]));
        assert(dir_done(&mc, cx as int, cy as int, order@[j3]));
    }
}

/// Carving a wall of (cx, cy) and the facing wall of its neighbour (nx, ny) keeps carved walls
/// in facing pairs.
proof fn lemma_carve_pair(m0: &Maze, m1: &Maze, m2: &Maze, cx: int, cy: int, d: Direction, nx: int, ny: int)
    requires
        m0.wf(),
        consistent(m0),
        0 <= cx < m0.w(),
        0 <= cy < m0.h(),
        0 <= nx < m0.w(),
        0 <= ny < m0.h(),
        (nx, ny) == step(cx, cy, d),
        m1.w() == m0.w() && m1.h() == m0.h(),
        m2.w() == m0.w() && m2.h() == m0.h(),
        m1.cell_spec(cx, cy) == m0.cell_spec(cx, cy) | d.bits_spec(),
        forall|i: int, j: int| 0 <= i < m0.w() && 0 <= j < m0.h() && !(i == cx && j == cy) ==> #[trigger] m1.cell_spec(i, j) == m0.cell_spec(i, j),
        m2.cell_spec(nx, ny) == m1.cell_spec(nx, ny) | d.opposite_spec().bits_spec(),
        forall|i: int, j: int| 0 <= i < m0.w() && 0 <= j < m0.h() && !(i == nx && j == ny) ==> #[trigger] m2.cell_spec(i, j) == m1.cell_spec(i, j),
    ensures
        consistent(m2),
{
    assert(!(nx == cx && ny == cy));
    assert forall|x: int, y: int, e: Direction| 0 <= x < m0.w() && 0 <= y < m0.h() implies
        (#[trigger] carved(m2, x, y, e) <==> (carved(m0, x, y, e) || (x == cx && y == cy && e == d)
            || (x == nx && y == ny && e == d.opposite_spec()))) by {
        if x == cx && y == cy {
            lemma_or_bit(m0.cell_spec(x, y), d.bits_spec(), e.bits_spec());
        } else if x == nx && y == ny {
            lemma_or_bit(m1.cell_spec(x, y), d.opposite_spec().bits_spec(), e.bits_spec());
        }
    }
    assert forall|x: int, y: int, e: Direction|
        0 <= x < m2.w() && 0 <= y < m2.h() && #[trigger] carved(m2, x, y, e) implies {
            let (sx, sy) = step(x, y, e);
            &&& 0 <= sx < m2.w()
            &&& 0 <= sy < m2.h()
            &&& carved(m2, sx, sy, e.opposite_spec())
        } by {
        let (sx, sy) = step(x, y, e);
        if carved(m0, x, y, e) {
            assert(carved(m0, sx, sy, e.opposite_spec()));
            assert(carved(m2, sx, sy, e.opposite_spec()));
        } else if x == cx && y == cy && e == d {
            assert(carved(m2, nx, ny, d.opposite_spec()));
        } else {
            assert(carved(m2, cx, cy, d));
        }
    }
}

/// Generates a `width` by `height` bit-field maze by recursive backtracking from the
/// north-west corner.
pub fn recursive_backtracking(width: usize, height: usize) -> (maze: Maze)
    requires
        width >= 1,
        height >= 1,
        width * height <= usize::MAX,
    ensures
        maze.wf(),
        maze.w() == width,
        maze.h() == height,
        consistent(&maze),
        width * height >= 2 ==> forall|x: int, y: int| 0 <= x < width && 0 <= y < height ==> #[trigger] maze.cell_spec(x, y) != 0,
{
    let mut maze = Maze::new(width, height);
    let ghost m0 = maze;
    carve_passage(0, 0, &mut maze);
    proof {
        if width * height >= 2 {
            lemma_all_carved(&m0, &maze, width as int, height as int);
        }
    }
    maze
}

/// A carved cell all of whose neighbours are carved passes that on to each neighbour, by index.
proof fn lemma_step_lit(m: &Maze, w: int, h: int, a: int, b: int)
    requires
        w >= 1,
        h >= 1,
        w * h <= usize::MAX,
        m.w() == w && m.h() == h,
        w <= usize::MAX,
        h <= usize::MAX,
        0 <= a < w * h,
        lit(m, a % w, a / w),
        adjacent(w * h, w, a, b),
        forall|x: int, y: int| 0 <= x < w && 0 <= y < h && lit(m, x, y) ==> #[trigger] finished(m, x, y),
    ensures
        lit(m, b % w, b / w),
{
    let n = w * h;
    lemma_pos_of(a, h, w);
    let p = pos_of(a, w);
    lemma_directions(p, h, w);
    let r = p.r as int;
    let c = p.c as int;
    assert(finished(m, c, r));
    if north_of(w, a) == Some(b) {
        lemma_rc(r - 1, c, w);
    } else if south_of(n, w, a) == Some(b) {
        lemma_rc(r + 1, c, w);
    } else if east_of(n, w, a) == Some(b) {
        lemma_rc(r, c + 1, w);
    } else {
        lemma_rc(r, c - 1, w);
    }
}

/// After a depth-first carve from (0, 0) over a maze with no wall carved, every cell of a maze
/// of two cells or more has a carved wall.
proof fn lemma_all_carved(m0: &Maze, m: &Maze, w: int, h: int)
    requires
        w >= 1,
        h >= 1,
        w * h >= 2,
        w * h <= usize::MAX,
        m0.w() == w && m0.h() == h,
        m.w() == w && m.h() == h,
        forall|x: int, y: int| 0 <= x < w && 0 <= y < h ==> #[trigger] m0.cell_spec(x, y) == 0,
        finished(m, 0, 0),
        new_finished(m0, m, 0, 0),
    ensures
        forall|x: int, y: int| 0 <= x < w && 0 <= y < h ==> #[trigger] m.cell_spec(x, y) != 0,
{
    let n = w * h;
    let s = |i: int| lit(m, i % w, i / w);
    assert forall|x: int, y: int| 0 <= x < w && 0 <= y < h && lit(m, x, y) implies #[trigger] finished(m, x, y) by {
        if !(x == 0 && y == 0) {
            assert(!lit(m0, x, y));
        }
    }
    if w >= 2 {
        lemma_rc(0, 1, w);
        assert(lit(m, 1, 0));
    } else {
        assert(h >= 2) by (nonlinear_arith)
            requires
                w == 1,
                w * h >= 2,
        ;
        lemma_rc(1, 0, w);
        assert(lit(m, 0, 1));
    }
    assert(s(1));
    assert(crate::perfect::closed_under_adjacency(n, w, s)) by {
        assert forall|a: int, b: int| 0 <= a < n && s(a) && #[trigger] adjacent(n, w, a, b) implies s(b) by {
            m.lemma_dims();
            lemma_step_lit(m, w, h, a, b);
        }
    }
    lemma_closed_all(h, w, s, 1);
    assert forall|x: int, y: int| 0 <= x < w && 0 <= y < h implies #[trigger] m.cell_spec(x, y) != 0 by {
        lemma_rc(y, x, w);
        assert(0 <= y * w + x < n) by (nonlinear_arith)
            requires
                0 <= x < w,
                0 <= y < h,
                n == w * h,
        ;
        assert(s(y * w + x));
    }
}

} // verus!
