//! Sidewinder: row by row, extend a run of cells eastward; where the run stops (at the east
//! edge, or at random below the top row) link one random member of the run to its north
//! neighbour and start a new run.
use vstd::prelude::*;
use crate::grid::{Grid, lemma_east_adjacent, lemma_north_adjacent};
use crate::position::{Pos, index_of, pos_of, lemma_index_of, lemma_pos_of};
use crate::links::{links_adjacent, symmetric, simple, lemma_pair_keeps};
use crate::perfect::{perfect, link_total, lemma_link_total_update};
use crate::paths::{reachable, lemma_reach_self, lemma_reach_step, lemma_reach_trans, lemma_reach_symmetric, lemma_reach_grow, lemma_connected_from};
use crate::random::{pick, random_bool};

verus! {

/// The shape of the links while the run that starts at cell `s` is open and cell `i` is next:
/// the cells before `s` link among themselves and all reach cell 0, the cells from `s` to `i`
/// link among themselves and all reach `s`, the later cells have no link, and the links number
/// a tree over the first block plus a path over the second.
pub open spec fn run_shape(adj: Seq<Seq<usize>>, s: int, i: int) -> bool {
    let n = adj.len() as int;
    &&& 0 <= s <= i
    &&& forall|x: int, k: int| 0 <= x < n && 0 <= k < adj[x].len() ==> {
        let y = #[trigger] adj[x][k] as int;
        &&& x < s ==> y < s
        &&& s <= x ==> s <= y <= i
    }
    &&& forall|x: int| i < x < n ==> (#[trigger] adj[x]).len() == 0
    &&& forall|x: int| 0 <= x < s && x < n ==> #[trigger] reachable(adj, x, 0)
    &&& forall|x: int| s <= x <= i && x < n ==> #[trigger] reachable(adj, x, s)
    &&& link_total(adj) == 2 * ((if s > 0 { s - 1 } else { 0 }) + (i - s))
}

/// Generates a `height` by `width` perfect maze by the sidewinder algorithm.
pub fn generate(height: usize, width: usize) -> (grid: Grid)
    requires
        height >= 1,
        width >= 1,
        height * width <= usize::MAX,
    ensures
        grid.wf(),
        grid.nrows() == height,
        grid.ncols() == width,
        perfect(grid.adj(), width as int),
{
    let mut grid = Grid::new(height, width);
    let n = grid.size();
    let ghost rows = height as int;
    let ghost cols = width as int;
    let ghost mut s: int = 0;
    proof {
        grid.lemma_wf();
        crate::perfect::lemma_link_total_zero(grid.adj());
        assert(n >= 1) by (nonlinear_arith)
            requires
                n == height * width,
                height >= 1,
                width >= 1,
        ;
        lemma_reach_self(grid.adj(), 0);
    }
    let mut run: Vec<Pos> = Vec::new();
    let mut i: usize = 0;
    while i < n
        invariant
            grid.wf(),
            grid.nrows() == height,
            grid.ncols() == width,
            rows == height,
            cols == width,
            n == grid.n(),
            n == rows * cols,
            n <= usize::MAX,
            grid.adj().len() == n,
            i <= n,
            links_adjacent(grid.adj(), cols),
            symmetric(grid.adj()),
            simple(grid.adj()),
            run_shape(grid.adj(), s, i as int),
            i < n ==> s >= i - (i as int) % cols,
            i < cols ==> s == 0,
            i == n ==> s == n,
            run@.len() == i - s,
            forall|k: int| 0 <= k < run@.len() ==> #[trigger] run@[k] == pos_of(s + k, cols),
        decreases n - i,
    {
        proof {
            grid.lemma_wf();
            lemma_pos_of(i as int, rows, cols);
        }
        let pos = Pos::new(i / width, i % width);
        let cell = grid.cell(pos).unwrap();
        let ghost a0 = grid.adj();
        let ghost run0 = run@;
        run.push(pos);
        proof {
            assert forall|k: int| 0 <= k < run@.len() implies #[trigger] run@[k] == pos_of(s + k, cols) by {
                if k < run0.len() {
                    assert(run@[k] == run0[k]);
                }
            }
        }
        let at_eastern_boundary = cell.east().is_none();
        let at_northern_boundary = cell.north().is_none();
        let close_out = at_eastern_boundary || (!at_northern_boundary && random_bool());
        if close_out {
            let member = pick(&run).unwrap();
            let ghost km = choose|k: int| 0 <= k < run@.len() && run@[k] == member;
            assert(run@[km] == member);
            let ghost m = s + km;
            proof {
                lemma_pos_of(m, rows, cols);
                lemma_index_of(member, rows, cols);
                assert(index_of(member, cols) == m);
            }
            let member_cell = grid.cell(member).unwrap();
            if let Some(north_pos) = member_cell.north() {
                proof {
                    lemma_north_adjacent(member, rows, cols);
                    assert(m - cols < s) by {
                        assert(member.r == pos.r) by {
                            vstd::arithmetic::div_mod::lemma_fundamental_div_mod(m, cols);
                            vstd::arithmetic::div_mod::lemma_fundamental_div_mod(i as int, cols);
                            lemma_same_row(m, i as int, cols, s);
                        }
                        assert(m < i + 1);
                    }
                    assert(index_of(north_pos, cols) == m - cols);
                }
                grid.link(&member, &north_pos, true);
                proof {
                    let a1 = grid.adj();
                    lemma_pair_keeps(a0, a1, cols, m, m - cols);
                    lemma_close_north(a0, a1, s, i as int, m, m - cols);
                }
            } else {
                proof {
                    assert(pos.r == 0) by {
                        if pos.r > 0 {
                            assert(member.r == pos.r) by {
                                vstd::arithmetic::div_mod::lemma_fundamental_div_mod(m, cols);
                                vstd::arithmetic::div_mod::lemma_fundamental_div_mod(i as int, cols);
                                lemma_same_row(m, i as int, cols, s);
                            }
                        }
                    }
                    assert(i < cols) by {
                        let ii = i as int;
                        vstd::arithmetic::div_mod::lemma_fundamental_div_mod(ii, cols);
                        assert(ii / cols == 0);
                        assert(cols * (ii / cols) == 0) by (nonlinear_arith)
                            requires
                                ii / cols == 0,
                        ;
                    }
                    lemma_close_top(a0, s, i as int);
                }
            }
            run.clear();
            proof {
                s = i + 1;
            }
        } else {
            let east = cell.east().unwrap();
            proof {
                lemma_east_adjacent(pos, rows, cols);
                lemma_index_of(pos, rows, cols);
                assert(index_of(pos, cols) == i);
            }
            grid.link(&pos, &east, true);
            proof {
                let a1 = grid.adj();
                lemma_pair_keeps(a0, a1, cols, i as int, i + 1);
                lemma_extend_east(a0, a1, s, i as int);
                let ii = i as int;
                assert((ii + 1) % cols == ii % cols + 1) by {
                    vstd::arithmetic::div_mod::lemma_fundamental_div_mod(ii, cols);
                    vstd::arithmetic::div_mod::lemma_fundamental_div_mod_converse(ii + 1, cols, ii / cols, ii % cols + 1);
                }
            }
        }
        i = i + 1;
    }
    proof {
        let adj = grid.adj();
        assert forall|c: int| 0 <= c < adj.len() implies #[trigger] reachable(adj, 0, c) by {
            assert(reachable(adj, c, 0));
            lemma_reach_symmetric(adj, c, 0);
        }
        lemma_connected_from(adj, 0);
    }
    grid
}

/// Two cells from `s` to `i` lie in the same row when the run that starts at `s` does not
/// reach back past the start of `i`'s row.
proof fn lemma_same_row(m: int, i: int, cols: int, s: int)
    requires
        cols >= 1,
        0 <= s <= m <= i,
        s >= i - i % cols,
        i == cols * (i / cols) + i % cols,
        m == cols * (m / cols) + m % cols,
        0 <= i % cols < cols,
        0 <= m % cols < cols,
    ensures
        m / cols == i / cols,
        m - cols < s,
{
    let qi = i / cols;
    let qm = m / cols;
    assert(qm == qi) by (nonlinear_arith)
        requires
            cols >= 1,
            m >= i - i % cols,
            m <= i,
            i == cols * qi + i % cols,
            m == cols * qm + m % cols,
            0 <= i % cols < cols,
            0 <= m % cols < cols,
    {
        if qm < qi {
            assert(cols * qm + cols <= cols * qi);
        }
        if qm > qi {
            assert(cols * qi + cols <= cols * qm);
        }
    }
}

/// Recording the link pair x <-> y on top of `a0` gives `a1`.
pub open spec fn paired(a0: Seq<Seq<usize>>, a1: Seq<Seq<usize>>, x: int, y: int) -> bool {
    a1 == a0.update(x, a0[x].push(y as usize)).update(y, a0.update(x, a0[x].push(y as usize))[y].push(x as usize))
}

/// Closing a run in the top row: the run becomes the tree.
proof fn lemma_close_top(a0: Seq<Seq<usize>>, s: int, i: int)
    requires
        run_shape(a0, s, i),
        s == 0,
        i < a0.len(),
        a0.len() <= usize::MAX,
    ensures
        run_shape(a0, i + 1, i + 1),
{
    let n = a0.len() as int;
    assert forall|x: int| 0 <= x < i + 1 && x < n implies #[trigger] reachable(a0, x, 0) by {
        assert(reachable(a0, x, s));
    }
    if i + 1 < n {
        lemma_reach_self(a0, i + 1);
    }
}

/// Extending a run eastward from `i` to `i + 1`.
proof fn lemma_extend_east(a0: Seq<Seq<usize>>, a1: Seq<Seq<usize>>, s: int, i: int)
    requires
        run_shape(a0, s, i),
        symmetric(a0),
        i + 1 < a0.len(),
        a0.len() <= usize::MAX,
        paired(a0, a1, i, i + 1),
    ensures
        run_shape(a1, s, i + 1),
        simple(a0) ==> simple(a1),
{
    let n = a0.len() as int;
    assert(a1[i] == a0[i].push((i + 1) as usize));
    assert(a1[i + 1] == a0[i + 1].push(i as usize));
    assert(a0[i + 1].len() == 0);
    assert forall|x: int, k: int| 0 <= x < n && 0 <= k < a1[x].len() implies {
        let y = #[trigger] a1[x][k] as int;
        &&& x < s ==> y < s
        &&& s <= x ==> s <= y <= i + 1
    } by {
        if x == i && k == a0[i].len() {
        } else if x == i + 1 {
            assert(a1[x][k] == i as usize);
        } else {
            assert(a1[x][k] == a0[x][k]);
        }
    }
    assert forall|a: int, b: usize| 0 <= a < a0.len() && #[trigger] a0[a].contains(b) implies #[trigger] a1[a].contains(b) by {
        let m = choose|m: int| 0 <= m < a0[a].len() && a0[a][m] == b;
        assert(a1[a][m] == b);
    }
    assert forall|x: int| 0 <= x < s && x < n implies #[trigger] reachable(a1, x, 0) by {
        lemma_reach_grow(a0, a1, x, 0);
    }
    assert forall|x: int| s <= x <= i + 1 && x < n implies #[trigger] reachable(a1, x, s) by {
        if x <= i {
            lemma_reach_grow(a0, a1, x, s);
        } else {
            assert(reachable(a0, i, s));
            lemma_reach_grow(a0, a1, i, s);
            lemma_reach_self(a1, i + 1);
            assert(a1[i + 1].contains(i as usize)) by {
                assert(a1[i + 1][0] == i as usize);
            }
            lemma_reach_step(a1, i + 1, i + 1, i as usize);
            lemma_reach_trans(a1, i + 1, i, s);
        }
    }
    assert(!a0[i].contains((i + 1) as usize)) by {
        if a0[i].contains((i + 1) as usize) {
            let k = choose|k: int| 0 <= k < a0[i].len() && a0[i][k] == (i + 1) as usize;
            assert(a0[i][k] <= i);
        }
    }
    lemma_link_total_update(a0, i, a0[i].push((i + 1) as usize));
    let mid = a0.update(i, a0[i].push((i + 1) as usize));
    lemma_link_total_update(mid, i + 1, mid[i + 1].push(i as usize));
    if simple(a0) {
        assert forall|x: int| 0 <= x < a1.len() implies (#[trigger] a1[x]).no_duplicates() by {
            if x == i {
                let t = a1[i];
                assert forall|p: int, q: int| 0 <= p < q < t.len() implies #[trigger] t[p] != #[trigger] t[q] by {
                    if q == a0[i].len() {
                        assert(t[p] == a0[i][p]);
                        assert(a0[i][p] <= i);
                    }
                }
            }
        }
    }
}

/// Closing a run below the top row: its member `m` links north to `up`, in the tree, and the
/// run joins the tree.
proof fn lemma_close_north(a0: Seq<Seq<usize>>, a1: Seq<Seq<usize>>, s: int, i: int, m: int, up: int)
    requires
        run_shape(a0, s, i),
        symmetric(a0),
        simple(a0),
        s <= m <= i,
        0 <= up < s,
        i < a0.len(),
        a0.len() <= usize::MAX,
        paired(a0, a1, m, up),
    ensures
        run_shape(a1, i + 1, i + 1),
        simple(a1),
{
    let n = a0.len() as int;
    assert(a1[m] == a0[m].push(up as usize));
    assert(a1[up] == a0[up].push(m as usize));
    assert forall|x: int, k: int| 0 <= x < n && 0 <= k < a1[x].len() implies {
        let y = #[trigger] a1[x][k] as int;
        &&& x < i + 1 ==> y < i + 1
        &&& i + 1 <= x ==> i + 1 <= y <= i + 1
    } by {
        if x == m && k == a0[m].len() {
        } else if x == up && k == a0[up].len() {
        } else {
            assert(a1[x][k] == a0[x][k]);
        }
    }
    assert forall|x: int| i + 1 < x < n implies (#[trigger] a1[x]).len() == 0 by {
        assert(a1[x] == a0[x]);
    }
    assert forall|a: int, b: usize| 0 <= a < a0.len() && #[trigger] a0[a].contains(b) implies #[trigger] a1[a].contains(b) by {
        let k = choose|k: int| 0 <= k < a0[a].len() && a0[a][k] == b;
        assert(a1[a][k] == b);
    }
    assert(reachable(a1, m, 0)) by {
        assert(reachable(a0, up, 0));
        lemma_reach_grow(a0, a1, up, 0);
        lemma_reach_self(a1, m);
        assert(a1[m][a0[m].len() as int] == up as usize);
        lemma_reach_step(a1, m, m, up as usize);
        lemma_reach_trans(a1, m, up, 0);
    }
    assert forall|x: int| 0 <= x < i + 1 && x < n implies #[trigger] reachable(a1, x, 0) by {
        if x < s {
            lemma_reach_grow(a0, a1, x, 0);
        } else {
            assert(reachable(a0, x, s));
            lemma_reach_grow(a0, a1, x, s);
            assert(reachable(a0, m, s));
            lemma_reach_grow(a0, a1, m, s);
            lemma_pair_symmetric(a0, a1, m, up);
            lemma_reach_symmetric(a1, m, s);
            lemma_reach_trans(a1, x, s, m);
            lemma_reach_trans(a1, x, m, 0);
        }
    }
    if i + 1 < n {
        lemma_reach_self(a1, i + 1);
    }
    assert(!a0[m].contains(up as usize)) by {
        if a0[m].contains(up as usize) {
            let k = choose|k: int| 0 <= k < a0[m].len() && a0[m][k] == up as usize;
            assert(a0[m][k] >= s);
        }
    }
    assert(!a0[up].contains(m as usize)) by {
        if a0[up].contains(m as usize) {
            let k = choose|k: int| 0 <= k < a0[up].len() && a0[up][k] == m as usize;
            assert(a0[up][k] < s);
        }
    }
    lemma_link_total_update(a0, m, a0[m].push(up as usize));
    let mid = a0.update(m, a0[m].push(up as usize));
    lemma_link_total_update(mid, up, mid[up].push(m as usize));
    assert forall|x: int| 0 <= x < a1.len() implies (#[trigger] a1[x]).no_duplicates() by {
        if x == m || x == up {
            let sq = a0[x];
            let v: usize = if x == m { up as usize } else { m as usize };
            let t = sq.push(v);
            assert(a1[x] == t);
            assert forall|p: int, q: int| 0 <= p < q < t.len() implies #[trigger] t[p] != #[trigger] t[q] by {
                if q == sq.len() {
                    assert(sq[p] == t[p]);
                    assert(sq.contains(sq[p]));
                }
            }
        }
    }
}

/// Recording a link pair on symmetric links keeps them symmetric.
proof fn lemma_pair_symmetric(a0: Seq<Seq<usize>>, a1: Seq<Seq<usize>>, x: int, y: int)
    requires
        symmetric(a0),
        0 <= x < a0.len(),
        0 <= y < a0.len(),
        x != y,
        a0.len() <= usize::MAX,
        paired(a0, a1, x, y),
    ensures
        symmetric(a1),
{
    assert(a1[x] == a0[x].push(y as usize));
    assert(a1[y] == a0[y].push(x as usize));
    assert forall|a: int, k: int| 0 <= a < a1.len() && 0 <= k < a1[a].len() implies #[trigger] a1[a][k] < a1.len()
        && a1[a1[a][k] as int].contains(a as usize) by {
        if a == x && k == a0[x].len() {
            assert(a1[y][a0[y].len() as int] == x as usize);
        } else if a == y && k == a0[y].len() {
            assert(a1[x][a0[x].len() as int] == y as usize);
        } else {
            assert(a1[a][k] == a0[a][k]);
            let b = a0[a][k] as int;
            assert(a0[b].contains(a as usize));
            let j = choose|j: int| 0 <= j < a0[b].len() && a0[b][j] == a as usize;
            assert(a1[b][j] == a as usize);
        }
    }
}

} // verus!
