//! Recursive division: start with every cell linked to all its neighbours, then split the
//! region by a wall along a random line with a single random passage through it, and repeat
//! on both sides until a side is one cell thick.
use vstd::prelude::*;
use crate::grid_maze::{GridMaze, unit_weights};
use crate::grid_node::GridNode;
use crate::links::{degree_of, lemma_without_len, adjacent, links_adjacent, symmetric, simple, without, lemma_without, lemma_without_no_dup, lemma_adjacent_symmetric, lemma_adjacent_in_range};
use crate::random::random_below;
use crate::perfect::{perfect, link_total, lemma_link_total_update};
use crate::paths::{reachable, is_path, lemma_connected_from};
use crate::position::lemma_pos_of;
use crate::generator::regions::{inner_pairs, lemma_full_total, in_rect, full_inside, reach_in, rect_connected, same_outside, path_in, lemma_rc,
    lemma_reach_in_step, lemma_reach_in_trans, lemma_reach_in_rev, lemma_reach_in_widen, lemma_reach_in_frame,
    lemma_line_connected, lemma_same_outside_trans};

verus! {

/// The links join structural neighbours, in matching pairs, each recorded once.
pub open spec fn well_linked(adj: Seq<Seq<usize>>, cols: int) -> bool {
    &&& links_adjacent(adj, cols)
    &&& symmetric(adj)
    &&& simple(adj)
}

/// Generates a `height` by `width` perfect maze by recursive division.
pub fn generate(height: usize, width: usize) -> (maze: GridMaze)
    requires
        height >= 1,
        width >= 1,
        height * width <= usize::MAX,
    ensures
        maze.wf(),
        maze.rows() == height,
        maze.cols() == width,
        perfect(maze.adj(), maze.cols() as int),
        unit_weights(&maze),
{
    let mut maze = GridMaze::new(height, width);
    let len = maze.len();
    let ghost n = len as int;
    let ghost cols = width as int;
    proof {
        maze.lemma_wf();
    }
    let mut pos: usize = 0;
    while pos < len
        invariant
            maze.wf(),
            unit_weights(&maze),
            maze.rows() == height,
            maze.cols() == width,
            n == maze.n(),
            len == n,
            cols == width,
            n <= usize::MAX,
            pos <= len,
            maze.adj().len() == n,
            forall|x: int| 0 <= x < pos ==> (#[trigger] maze.adj()[x]).no_duplicates()
                && (forall|b: usize| maze.adj()[x].contains(b) <==> adjacent(n, cols, x, b as int))
                && maze.adj()[x].len() == degree_of(n, cols, x),
            forall|x: int| pos <= x < n ==> (#[trigger] maze.adj()[x]).len() == 0,
        decreases len - pos,
    {
        let node = maze.node(pos).unwrap();
        let nbrs = maze.neighbors(&node);
        let ghost before = maze.adj();
        let mut k: usize = 0;
        while k < nbrs.len()
            invariant
                maze.wf(),
                unit_weights(&maze),
                maze.rows() == height,
                maze.cols() == width,
                n == maze.n(),
                cols == width,
                pos < n,
                node.pos_spec() == pos,
                maze.adj().len() == n,
                k <= nbrs@.len(),
                forall|i: int| 0 <= i < nbrs@.len() ==> adjacent(n, cols, pos as int, (#[trigger] nbrs@[i]).pos_spec() as int),
                forall|i: int, j: int| 0 <= i < j < nbrs@.len() ==> (#[trigger] nbrs@[i]).pos_spec() != (#[trigger] nbrs@[j]).pos_spec(),
                forall|x: int| 0 <= x < n && x != pos ==> (#[trigger] maze.adj()[x]) == before[x],
                maze.adj()[pos as int] =~= Seq::new(k as nat, |i: int| nbrs@[i].pos_spec()),
            decreases nbrs@.len() - k,
        {
            proof {
                maze.lemma_wf();
                lemma_adjacent_in_range(n, cols, pos as int, nbrs@[k as int].pos_spec() as int);
            }
            let nb = nbrs[k];
            maze.link(&node, &nb, false);
            k = k + 1;
        }
        proof {
            let s = maze.adj()[pos as int];
            assert forall|i: int, j: int| 0 <= i < j < s.len() implies s[i] != s[j] by {
            }
            assert(s.len() == degree_of(n, cols, pos as int));
            assert forall|b: usize| s.contains(b) <==> adjacent(n, cols, pos as int, b as int) by {
                if adjacent(n, cols, pos as int, b as int) {
                    let i = choose|i: int| 0 <= i < nbrs@.len() && (#[trigger] nbrs@[i]).pos_spec() == b as int;
                    assert(s[i] == b);
                }
            }
        }
        pos = pos + 1;
    }
    proof {
        let adj = maze.adj();
        assert(links_adjacent(adj, cols)) by {
            assert forall|a: int, j: int| 0 <= a < adj.len() && 0 <= j < adj[a].len() implies adjacent(adj.len() as int, cols, a, #[trigger] adj[a][j] as int) by {
                assert(adj[a].contains(adj[a][j]));
            }
        }
        assert(symmetric(adj)) by {
            assert forall|a: int, j: int| 0 <= a < adj.len() && 0 <= j < adj[a].len() implies #[trigger] adj[a][j] < adj.len()
                && adj[adj[a][j] as int].contains(a as usize) by {
                let b = adj[a][j] as int;
                assert(adj[a].contains(adj[a][j]));
                lemma_adjacent_in_range(n, cols, a, b);
                lemma_adjacent_symmetric(n, cols, a, b);
            }
        }
    }
    proof {
        let adj = maze.adj();
        maze.lemma_wf();
        assert forall|x: int, y: int|
            0 <= x < adj.len() && in_rect(cols, x, 0, 0, height as int, width as int) && in_rect(cols, y, 0, 0, height as int, width as int)
                && #[trigger] adjacent(adj.len() as int, cols, x, y) implies adj[x].contains(y as usize) by {
            lemma_adjacent_in_range(n, cols, x, y);
            assert(adjacent(n, cols, x, (y as usize) as int));
        }
    }
    proof {
        maze.lemma_wf();
        lemma_full_total(maze.adj(), height as int, width as int);
    }
    divide(&mut maze, 0, 0, height, width);
    proof {
        let adj = maze.adj();
        maze.lemma_wf();
        assert forall|c: int| 0 <= c < adj.len() implies #[trigger] reachable(adj, 0, c) by {
            lemma_pos_of(c, height as int, width as int);
            assert(in_rect(cols, c, 0, 0, height as int, width as int));
            assert(reach_in(adj, cols, 0, 0, height as int, width as int, 0 * cols + 0, c));
            let p = choose|p: Seq<usize>| #[trigger] is_path(adj, p) && p[0] == 0 * cols + 0 && p.last() == c
                && path_in(p, cols, 0, 0, height as int, width as int);
            assert(is_path(adj, p) && p[0] == 0 && p.last() == c);
        }
        assert(adj.len() >= 1) by (nonlinear_arith)
            requires
                adj.len() == height * width,
                height >= 1,
                width >= 1,
        ;
        lemma_connected_from(adj, 0);
    }
    maze
}

/// Divides the region of `height` by `width` cells whose north-west cell is at `row`, `col`,
/// along its longer side, unless a side is at most one cell.
fn divide(maze: &mut GridMaze, row: usize, col: usize, height: usize, width: usize)
    requires
        old(maze).wf(),
        well_linked(old(maze).adj(), old(maze).cols() as int),
        row + height <= old(maze).rows(),
        col + width <= old(maze).cols(),
        height >= 1,
        width >= 1,
        full_inside(old(maze).adj(), old(maze).cols() as int, row as int, col as int, height as int, width as int),
    ensures
        final(maze).wf(),
        final(maze).rows() == old(maze).rows(),
        final(maze).cols() == old(maze).cols(),
        final(maze).n() == old(maze).n(),
        forall|i: int| 0 <= i < old(maze).n() ==> #[trigger] final(maze).weight_of(i) == old(maze).weight_of(i),
        well_linked(final(maze).adj(), final(maze).cols() as int),
        rect_connected(final(maze).adj(), final(maze).cols() as int, row as int, col as int, height as int, width as int),
        same_outside(old(maze).adj(), final(maze).adj(), old(maze).cols() as int, row as int, col as int, height as int, width as int),
        link_total(final(maze).adj()) + 2 * (inner_pairs(height as int, width as int) - (height * width - 1)) == link_total(old(maze).adj()),
        height <= 1 || width <= 1 ==> final(maze).adj() == old(maze).adj(),
    decreases height + width, 1nat,
{
    if height <= 1 || width <= 1 {
        proof {
            maze.lemma_wf();
            lemma_line_connected(maze.adj(), maze.cols() as int, maze.rows() as int, row as int, col as int, height as int, width as int);
            assert(inner_pairs(height as int, width as int) == height * width - 1) by (nonlinear_arith)
                requires
                    height <= 1 || width <= 1,
                    height >= 1,
                    width >= 1,
            ;
        }
        return;
    }
    if height > width {
        divide_horizontally(maze, row, col, height, width);
    } else {
        divide_vertically(maze, row, col, height, width);
    }
}

/// Removes the passage pair between the structural neighbours `a` and `b`.
fn cut(maze: &mut GridMaze, a: &GridNode, b: &GridNode)
    requires
        old(maze).wf(),
        well_linked(old(maze).adj(), old(maze).cols() as int),
        a.pos_spec() < old(maze).n(),
        b.pos_spec() < old(maze).n(),
    ensures
        final(maze).wf(),
        final(maze).rows() == old(maze).rows(),
        final(maze).cols() == old(maze).cols(),
        final(maze).n() == old(maze).n(),
        forall|i: int| 0 <= i < old(maze).n() ==> #[trigger] final(maze).weight_of(i) == old(maze).weight_of(i),
        well_linked(final(maze).adj(), final(maze).cols() as int),
        final(maze).adj().len() == old(maze).adj().len(),
        forall|x: int, y: usize| 0 <= x < old(maze).n() ==> (#[trigger] final(maze).adj()[x].contains(y) <==> (
            old(maze).adj()[x].contains(y) && !(x == a.pos_spec() && y == b.pos_spec()) && !(x == b.pos_spec() && y == a.pos_spec()))),
        old(maze).adj()[a.pos_spec() as int].contains(b.pos_spec()) && a.pos_spec() != b.pos_spec() ==> link_total(
            final(maze).adj(),
        ) + 2 == link_total(old(maze).adj()),
{
    let ghost a0 = maze.adj();
    let ghost cols = maze.cols() as int;
    let ghost p = a.pos_spec() as int;
    let ghost q = b.pos_spec() as int;
    proof {
        maze.lemma_wf();
    }
    maze.unlink(a, b);
    proof {
        let a1 = maze.adj();
        let mid = a0.update(p, without(a0[p], q as usize));
        lemma_without(a0[p], q as usize);
        lemma_without(mid[q], p as usize);
        lemma_without(a0[q], p as usize);
        assert forall|x: int, y: usize| 0 <= x < a1.len() && #[trigger] a1[x].contains(y) implies a0[x].contains(y)
            && !(x == p && y == q) && !(x == q && y == p) by {
            if x == p && x == q {
                lemma_without(without(a0[p], q as usize), p as usize);
            } else if x == q {
                assert(mid[q] == a0[q]);
            }
        }
        assert forall|x: int, y: usize| 0 <= x < a1.len() && #[trigger] a0[x].contains(y) && !(x == p && y == q) && !(x == q && y == p)
            implies a1[x].contains(y) by {
            if x == p && x == q {
                lemma_without(without(a0[p], q as usize), p as usize);
            } else if x == q {
                assert(mid[q] == a0[q]);
            }
        }
        assert(links_adjacent(a1, cols)) by {
            assert forall|x: int, j: int| 0 <= x < a1.len() && 0 <= j < a1[x].len() implies adjacent(a1.len() as int, cols, x, #[trigger] a1[x][j] as int) by {
                assert(a1[x].contains(a1[x][j]));
                assert(a0[x].contains(a1[x][j]));
                let m = choose|m: int| 0 <= m < a0[x].len() && a0[x][m] == a1[x][j];
                assert(adjacent(a0.len() as int, cols, x, a0[x][m] as int));
            }
        }
        assert(symmetric(a1)) by {
            assert forall|x: int, j: int| 0 <= x < a1.len() && 0 <= j < a1[x].len() implies #[trigger] a1[x][j] < a1.len()
                && a1[a1[x][j] as int].contains(x as usize) by {
                let y = a1[x][j];
                assert(a1[x].contains(y));
                assert(a0[x].contains(y));
                let m = choose|m: int| 0 <= m < a0[x].len() && a0[x][m] == y;
                assert(a0[y as int].contains(x as usize));
            }
        }
        assert(simple(a1)) by {
            assert forall|x: int| 0 <= x < a1.len() implies (#[trigger] a1[x]).no_duplicates() by {
                lemma_without_no_dup(a0[x], q as usize);
                lemma_without_no_dup(a0[x], p as usize);
                if x == p {
                    lemma_without_no_dup(without(a0[p], q as usize), p as usize);
                }
                if x == q {
                    lemma_without_no_dup(mid[q], p as usize);
                }
            }
        }
        if a0[p].contains(q as usize) && p != q {
            let m = choose|m: int| 0 <= m < a0[p].len() && a0[p][m] == q as usize;
            assert(a0[a0[p][m] as int].contains(p as usize));
            lemma_without_len(a0[p], q as usize);
            lemma_without_len(a0[q], p as usize);
            assert(mid[q] == a0[q]);
            lemma_link_total_update(a0, p, without(a0[p], q as usize));
            lemma_link_total_update(mid, q, without(mid[q], p as usize));
            assert(mid.update(q, without(mid[q], p as usize)) == a1);
        }
    }
}

/// The wall pair below row `r0 + d`, column `c0 + j`, is still linked.
pub open spec fn south_pair_linked(adj: Seq<Seq<usize>>, cols: int, r0: int, c0: int, d: int, j: int) -> bool {
    adj[(r0 + d) * cols + c0 + j].contains(((r0 + d + 1) * cols + c0 + j) as usize)
}

/// The wall pair east of row `r0 + j`, column `c0 + d`, is still linked.
pub open spec fn east_pair_linked(adj: Seq<Seq<usize>>, cols: int, r0: int, c0: int, d: int, j: int) -> bool {
    adj[(r0 + j) * cols + c0 + d].contains(((r0 + j) * cols + c0 + d + 1) as usize)
}

/// Splitting a region in two parts `T` and `B` joined by the link `pt -> pb` keeps it
/// connected, once each part is connected and kept its links.
proof fn lemma_join(
    adj: Seq<Seq<usize>>,
    cols: int,
    r0: int,
    c0: int,
    h: int,
    w: int,
    tr: int,
    tc: int,
    th: int,
    tw: int,
    br: int,
    bc: int,
    bh: int,
    bw: int,
    pt: int,
    pb: int,
)
    requires
        symmetric(adj),
        cols >= 1,
        tr == r0 && tc == c0,
        r0 <= br && br + bh <= r0 + h && c0 <= bc && bc + bw <= c0 + w,
        tr + th <= r0 + h && tc + tw <= c0 + w,
        forall|x: int| #[trigger] in_rect(cols, x, r0, c0, h, w) ==> in_rect(cols, x, tr, tc, th, tw) || in_rect(cols, x, br, bc, bh, bw),
        rect_connected(adj, cols, tr, tc, th, tw),
        rect_connected(adj, cols, br, bc, bh, bw),
        0 <= pt < adj.len(),
        0 <= pb < adj.len(),
        in_rect(cols, pt, tr, tc, th, tw),
        in_rect(cols, pb, br, bc, bh, bw),
        adj[pt].contains(pb as usize),
    ensures
        rect_connected(adj, cols, r0, c0, h, w),
{
    let corner = r0 * cols + c0;
    let bcorner = br * cols + bc;
    assert(reach_in(adj, cols, tr, tc, th, tw, corner, pt));
    lemma_reach_in_widen(adj, cols, tr, tc, th, tw, r0, c0, h, w, corner, pt);
    lemma_reach_in_step(adj, cols, r0, c0, h, w, corner, pt, pb as usize);
    assert(reach_in(adj, cols, br, bc, bh, bw, bcorner, pb));
    lemma_reach_in_rev(adj, cols, br, bc, bh, bw, bcorner, pb);
    lemma_reach_in_widen(adj, cols, br, bc, bh, bw, r0, c0, h, w, pb, bcorner);
    lemma_reach_in_trans(adj, cols, r0, c0, h, w, corner, pb, bcorner);
    assert forall|x: int| 0 <= x < adj.len() && #[trigger] in_rect(cols, x, r0, c0, h, w) implies reach_in(
        adj, cols, r0, c0, h, w, corner, x) by {
        if in_rect(cols, x, tr, tc, th, tw) {
            lemma_reach_in_widen(adj, cols, tr, tc, th, tw, r0, c0, h, w, corner, x);
        } else {
            assert(reach_in(adj, cols, br, bc, bh, bw, bcorner, x));
            lemma_reach_in_widen(adj, cols, br, bc, bh, bw, r0, c0, h, w, bcorner, x);
            lemma_reach_in_trans(adj, cols, r0, c0, h, w, corner, bcorner, x);
        }
    }
}

/// After dividing the part `S` of a region, the other part `O` keeps its full links, its
/// connection and the link `pt -> pb` that leaves it.
proof fn lemma_other_part_kept(
    a1: Seq<Seq<usize>>,
    a2: Seq<Seq<usize>>,
    cols: int,
    sr: int,
    sc: int,
    sh: int,
    sw: int,
    or_: int,
    oc: int,
    oh: int,
    ow: int,
)
    requires
        same_outside(a1, a2, cols, sr, sc, sh, sw),
        forall|x: int| in_rect(cols, x, or_, oc, oh, ow) ==> !#[trigger] in_rect(cols, x, sr, sc, sh, sw),
        full_inside(a1, cols, or_, oc, oh, ow),
    ensures
        full_inside(a2, cols, or_, oc, oh, ow),
{
    assert forall|x: int, y: int|
        0 <= x < a2.len() && in_rect(cols, x, or_, oc, oh, ow) && in_rect(cols, y, or_, oc, oh, ow)
            && #[trigger] adjacent(a2.len() as int, cols, x, y) implies a2[x].contains(y as usize) by {
        assert(!in_rect(cols, x, sr, sc, sh, sw));
        assert(a1[x].contains(y as usize));
    }
}

/// Splits the region by a wall south of a random row, with one random passage through it,
/// and divides both halves.
fn divide_horizontally(maze: &mut GridMaze, row: usize, col: usize, height: usize, width: usize)
    requires
        old(maze).wf(),
        well_linked(old(maze).adj(), old(maze).cols() as int),
        row + height <= old(maze).rows(),
        col + width <= old(maze).cols(),
        height >= 2,
        width >= 1,
        full_inside(old(maze).adj(), old(maze).cols() as int, row as int, col as int, height as int, width as int),
    ensures
        final(maze).wf(),
        final(maze).rows() == old(maze).rows(),
        final(maze).cols() == old(maze).cols(),
        final(maze).n() == old(maze).n(),
        forall|i: int| 0 <= i < old(maze).n() ==> #[trigger] final(maze).weight_of(i) == old(maze).weight_of(i),
        well_linked(final(maze).adj(), final(maze).cols() as int),
        rect_connected(final(maze).adj(), final(maze).cols() as int, row as int, col as int, height as int, width as int),
        same_outside(old(maze).adj(), final(maze).adj(), old(maze).cols() as int, row as int, col as int, height as int, width as int),
        link_total(final(maze).adj()) + 2 * (inner_pairs(height as int, width as int) - (height * width - 1)) == link_total(old(maze).adj()),
    decreases height + width, 0nat,
{
    let ghost m0 = *maze;
    let ghost cols = maze.cols() as int;
    let ghost rows = maze.rows() as int;
    let ghost r0 = row as int;
    let ghost c0 = col as int;
    let ghost h = height as int;
    let ghost w = width as int;
    let divide_south_of = random_below(height - 1);
    let passage_at = random_below(width);
    let ghost d = divide_south_of as int;
    let ghost pt = (r0 + d) * cols + c0 + passage_at as int;
    let ghost pb = pt + cols;
    proof {
        maze.lemma_wf();
        lemma_rc(r0 + d, c0 + passage_at, cols);
        lemma_rc(r0 + d + 1, c0 + passage_at, cols);
        assert(pb == (r0 + d + 1) * cols + c0 + passage_at && 0 <= pt && pb < rows * cols) by (nonlinear_arith)
            requires
                pt == (r0 + d) * cols + c0 + passage_at,
                pb == pt + cols,
                r0 + d + 1 < rows,
                c0 + passage_at < cols,
                r0 >= 0,
                d >= 0,
                c0 >= 0,
        ;
        assert(crate::links::south_of(rows * cols, cols, pt) == Some(pb));
        assert(adjacent(rows * cols, cols, pt, pb));
        assert(m0.adj()[pt].contains(pb as usize));
        assert forall|j: int| 0 <= j < w && j != passage_at implies #[trigger] south_pair_linked(m0.adj(), cols, r0, c0, d, j) by {
            let a = (r0 + d) * cols + c0 + j;
            let b = (r0 + d + 1) * cols + c0 + j;
            lemma_rc(r0 + d, c0 + j, cols);
            lemma_rc(r0 + d + 1, c0 + j, cols);
            assert(b == a + cols && 0 <= a && b < rows * cols) by (nonlinear_arith)
                requires
                    a == (r0 + d) * cols + c0 + j,
                    b == (r0 + d + 1) * cols + c0 + j,
                    r0 + d + 1 < rows,
                    c0 + j < cols,
                    r0 >= 0,
                    d >= 0,
                    c0 >= 0,
                    j >= 0,
            ;
            assert(adjacent(rows * cols, cols, a, b));
        }
    }
    let mut x: usize = 0;
    while x < width
        invariant
            maze.wf(),
            forall|i: int| 0 <= i < old(maze).n() ==> #[trigger] maze.weight_of(i) == old(maze).weight_of(i),
            maze.rows() == old(maze).rows(),
            maze.cols() == old(maze).cols(),
            maze.n() == old(maze).n(),
            m0 == *old(maze),
            cols == maze.cols(),
            rows == maze.rows(),
            r0 == row && c0 == col && h == height && w == width && d == divide_south_of,
            well_linked(maze.adj(), maze.cols() as int),
            row + height <= maze.rows(),
            col + width <= maze.cols(),
            divide_south_of < height - 1,
            passage_at < width,
            x <= width,
            same_outside(m0.adj(), maze.adj(), cols, r0, c0, h, w),
            full_inside(maze.adj(), cols, r0, c0, d + 1, w),
            full_inside(maze.adj(), cols, r0 + d + 1, c0, h - d - 1, w),
            maze.adj()[pt].contains(pb as usize),
            pt == (r0 + d) * cols + c0 + passage_at as int,
            pb == pt + cols,
            0 <= pt < maze.n(),
            0 <= pb < maze.n(),
            link_total(maze.adj()) + 2 * (x - (if (passage_at as int) < x { 1int } else { 0int })) == link_total(m0.adj()),
            forall|j: int| x <= j < w && j != passage_at ==> #[trigger] south_pair_linked(maze.adj(), cols, r0, c0, d, j),
        decreases width - x,
    {
        proof {
            maze.lemma_wf();
        }
        if passage_at != x {
            if let Some(node) = maze.get2d(row + divide_south_of, col + x) {
                proof {
                    assert((r0 + d) * cols + c0 + x + cols < rows * cols) by (nonlinear_arith)
                        requires
                            r0 + d + 1 < rows,
                            c0 + x < cols,
                            r0 >= 0,
                            d >= 0,
                            c0 >= 0,
                    ;
                }
                if let Some(south_node) = maze.south(&node) {
                    let ghost i = node.pos_spec() as int;
                    let ghost s = south_node.pos_spec() as int;
                    let ghost before = maze.adj();
                    proof {
                        maze.lemma_wf();
                        assert(node.pos_spec() < maze.n());
                        assert(i == (r0 + d) * cols + c0 + x);
                        assert(s == i + cols);
                        lemma_rc(r0 + d, c0 + x, cols);
                        assert(s == (r0 + d + 1) * cols + c0 + x) by (nonlinear_arith)
                            requires
                                s == i + cols,
                                i == (r0 + d) * cols + c0 + x,
                        ;
                        lemma_rc(r0 + d + 1, c0 + x, cols);
                    }
                    cut(maze, &node, &south_node);
                    proof {
                        let after = maze.adj();
                        assert forall|a: int, b: usize|
                            0 <= a < m0.adj().len() && !(in_rect(cols, a, r0, c0, h, w) && in_rect(cols, b as int, r0, c0, h, w)) implies (
                            #[trigger] after[a].contains(b) <==> m0.adj()[a].contains(b)) by {
                            assert(after[a].contains(b) <==> before[a].contains(b));
                        }
                        assert forall|a: int, b: int|
                            0 <= a < after.len() && in_rect(cols, a, r0, c0, d + 1, w) && in_rect(cols, b, r0, c0, d + 1, w)
                                && #[trigger] adjacent(after.len() as int, cols, a, b) implies after[a].contains(b as usize) by {
                            assert(before[a].contains(b as usize));
                        }
                        assert forall|a: int, b: int|
                            0 <= a < after.len() && in_rect(cols, a, r0 + d + 1, c0, h - d - 1, w) && in_rect(cols, b, r0 + d + 1, c0, h - d - 1, w)
                                && #[trigger] adjacent(after.len() as int, cols, a, b) implies after[a].contains(b as usize) by {
                            assert(before[a].contains(b as usize));
                        }
                        lemma_rc(r0 + d, c0 + passage_at, cols);
                        assert(after[pt].contains(pb as usize));
                        assert(south_pair_linked(before, cols, r0, c0, d, x as int));
                        assert(before[i].contains(s as usize));
                        assert forall|j: int| x + 1 <= j < w && j != passage_at implies #[trigger] south_pair_linked(after, cols, r0, c0, d, j) by {
                            assert(south_pair_linked(before, cols, r0, c0, d, j));
                            let a = (r0 + d) * cols + c0 + j;
                            assert(a != i);
                            assert(a != s);
                        }
                    }
                }
            }
        }
        x = x + 1;
    }
    proof {
        maze.lemma_wf();
        assert(link_total(maze.adj()) + 2 * (w - 1) == link_total(m0.adj()));
    }
    let ghost m1 = *maze;
    divide(maze, row, col, divide_south_of + 1, width);
    let ghost m2 = *maze;
    proof {
        lemma_other_part_kept(m1.adj(), m2.adj(), cols, r0, c0, d + 1, w, r0 + d + 1, c0, h - d - 1, w);
        lemma_rc(r0 + d + 1, c0 + passage_at, cols);
        assert(m2.adj()[pt].contains(pb as usize)) by {
            assert(!in_rect(cols, pb, r0, c0, d + 1, w));
        }
        lemma_same_outside_trans(m0.adj(), m1.adj(), m2.adj(), cols, r0, c0, h, w, r0, c0, d + 1, w);
        maze.lemma_wf();
    }
    divide(maze, row + divide_south_of + 1, col, height - divide_south_of - 1, width);
    proof {
        let m3 = maze.adj();
        lemma_same_outside_trans(m0.adj(), m2.adj(), m3, cols, r0, c0, h, w, r0 + d + 1, c0, h - d - 1, w);
        lemma_rc(r0 + d, c0 + passage_at, cols);
        assert(m3[pt].contains(pb as usize)) by {
            assert(!in_rect(cols, pt, r0 + d + 1, c0, h - d - 1, w));
        }
        assert forall|y: int| 0 <= y < m3.len() && #[trigger] in_rect(cols, y, r0, c0, d + 1, w) implies reach_in(
            m3, cols, r0, c0, d + 1, w, r0 * cols + c0, y) by {
            assert(reach_in(m2.adj(), cols, r0, c0, d + 1, w, r0 * cols + c0, y));
            lemma_reach_in_frame(m2.adj(), m3, cols, r0, c0, d + 1, w, r0 + d + 1, c0, h - d - 1, w, r0 * cols + c0, y);
        }
        maze.lemma_wf();
        lemma_join(m3, cols, r0, c0, h, w, r0, c0, d + 1, w, r0 + d + 1, c0, h - d - 1, w, pt, pb);
        assert((w - 1) + (inner_pairs(d + 1, w) - ((d + 1) * w - 1)) + (inner_pairs(h - d - 1, w) - ((h - d - 1) * w - 1))
            == inner_pairs(h, w) - (h * w - 1)) by (nonlinear_arith);
    }
}

/// Splits the region by a wall east of a random column, with one random passage through it,
/// and divides both halves.
fn divide_vertically(maze: &mut GridMaze, row: usize, col: usize, height: usize, width: usize)
    requires
        old(maze).wf(),
        well_linked(old(maze).adj(), old(maze).cols() as int),
        row + height <= old(maze).rows(),
        col + width <= old(maze).cols(),
        height >= 1,
        width >= 2,
        full_inside(old(maze).adj(), old(maze).cols() as int, row as int, col as int, height as int, width as int),
    ensures
        final(maze).wf(),
        final(maze).rows() == old(maze).rows(),
        final(maze).cols() == old(maze).cols(),
        final(maze).n() == old(maze).n(),
        forall|i: int| 0 <= i < old(maze).n() ==> #[trigger] final(maze).weight_of(i) == old(maze).weight_of(i),
        well_linked(final(maze).adj(), final(maze).cols() as int),
        rect_connected(final(maze).adj(), final(maze).cols() as int, row as int, col as int, height as int, width as int),
        same_outside(old(maze).adj(), final(maze).adj(), old(maze).cols() as int, row as int, col as int, height as int, width as int),
        link_total(final(maze).adj()) + 2 * (inner_pairs(height as int, width as int) - (height * width - 1)) == link_total(old(maze).adj()),
    decreases height + width, 0nat,
{
    let ghost m0 = *maze;
    let ghost cols = maze.cols() as int;
    let ghost rows = maze.rows() as int;
    let ghost r0 = row as int;
    let ghost c0 = col as int;
    let ghost h = height as int;
    let ghost w = width as int;
    let divide_east_of = random_below(width - 1);
    let passage_at = random_below(height);
    let ghost d = divide_east_of as int;
    let ghost pt = (r0 + passage_at) * cols + c0 + d;
    let ghost pb = pt + 1;
    proof {
        maze.lemma_wf();
        lemma_rc(r0 + passage_at, c0 + d, cols);
        lemma_rc(r0 + passage_at, c0 + d + 1, cols);
        assert(0 <= pt && pb < rows * cols) by (nonlinear_arith)
            requires
                pt == (r0 + passage_at) * cols + c0 + d,
                pb == pt + 1,
                r0 + passage_at < rows,
                c0 + d + 1 < cols,
                r0 >= 0,
                d >= 0,
                c0 >= 0,
        ;
        assert(crate::links::east_of(rows * cols, cols, pt) == Some(pb));
        assert(adjacent(rows * cols, cols, pt, pb));
        assert(m0.adj()[pt].contains(pb as usize));
        assert forall|j: int| 0 <= j < h && j != passage_at implies #[trigger] east_pair_linked(m0.adj(), cols, r0, c0, d, j) by {
            let a = (r0 + j) * cols + c0 + d;
            lemma_rc(r0 + j, c0 + d, cols);
            lemma_rc(r0 + j, c0 + d + 1, cols);
            assert(0 <= a && a + 1 < rows * cols) by (nonlinear_arith)
                requires
                    a == (r0 + j) * cols + c0 + d,
                    r0 + j < rows,
                    c0 + d + 1 < cols,
                    r0 >= 0,
                    d >= 0,
                    c0 >= 0,
                    j >= 0,
            ;
            assert(adjacent(rows * cols, cols, a, a + 1));
        }
    }
    let mut y: usize = 0;
    while y < height
        invariant
            maze.wf(),
            forall|i: int| 0 <= i < old(maze).n() ==> #[trigger] maze.weight_of(i) == old(maze).weight_of(i),
            maze.rows() == old(maze).rows(),
            maze.cols() == old(maze).cols(),
            maze.n() == old(maze).n(),
            m0 == *old(maze),
            cols == maze.cols(),
            rows == maze.rows(),
            r0 == row && c0 == col && h == height && w == width && d == divide_east_of,
            well_linked(maze.adj(), maze.cols() as int),
            row + height <= maze.rows(),
            col + width <= maze.cols(),
            divide_east_of < width - 1,
            passage_at < height,
            y <= height,
            same_outside(m0.adj(), maze.adj(), cols, r0, c0, h, w),
            full_inside(maze.adj(), cols, r0, c0, h, d + 1),
            full_inside(maze.adj(), cols, r0, c0 + d + 1, h, w - d - 1),
            maze.adj()[pt].contains(pb as usize),
            pt == (r0 + passage_at) * cols + c0 + d,
            pb == pt + 1,
            0 <= pt < maze.n(),
            0 <= pb < maze.n(),
            link_total(maze.adj()) + 2 * (y - (if (passage_at as int) < y { 1int } else { 0int })) == link_total(m0.adj()),
            forall|j: int| y <= j < h && j != passage_at ==> #[trigger] east_pair_linked(maze.adj(), cols, r0, c0, d, j),
        decreases height - y,
    {
        proof {
            maze.lemma_wf();
        }
        if passage_at != y {
            if let Some(node) = maze.get2d(row + y, col + divide_east_of) {
                proof {
                    lemma_rc(r0 + y, c0 + d, cols);
                    assert((r0 + y) * cols + c0 + d + 1 < rows * cols) by (nonlinear_arith)
                        requires
                            r0 + y < rows,
                            c0 + d + 1 < cols,
                            r0 >= 0,
                            d >= 0,
                            c0 >= 0,
                    ;
                }
                if let Some(east_node) = maze.east(&node) {
                    let ghost i = node.pos_spec() as int;
                    let ghost s = east_node.pos_spec() as int;
                    let ghost before = maze.adj();
                    proof {
                        maze.lemma_wf();
                        assert(node.pos_spec() < maze.n());
                        assert(i == (r0 + y) * cols + c0 + d);
                        assert(s == i + 1);
                        lemma_rc(r0 + y, c0 + d, cols);
                        lemma_rc(r0 + y, c0 + d + 1, cols);
                    }
                    cut(maze, &node, &east_node);
                    proof {
                        let after = maze.adj();
                        assert forall|a: int, b: usize|
                            0 <= a < m0.adj().len() && !(in_rect(cols, a, r0, c0, h, w) && in_rect(cols, b as int, r0, c0, h, w)) implies (
                            #[trigger] after[a].contains(b) <==> m0.adj()[a].contains(b)) by {
                            assert(after[a].contains(b) <==> before[a].contains(b));
                        }
                        assert forall|a: int, b: int|
                            0 <= a < after.len() && in_rect(cols, a, r0, c0, h, d + 1) && in_rect(cols, b, r0, c0, h, d + 1)
                                && #[trigger] adjacent(after.len() as int, cols, a, b) implies after[a].contains(b as usize) by {
                            assert(before[a].contains(b as usize));
                        }
                        assert forall|a: int, b: int|
                            0 <= a < after.len() && in_rect(cols, a, r0, c0 + d + 1, h, w - d - 1) && in_rect(cols, b, r0, c0 + d + 1, h, w - d - 1)
                                && #[trigger] adjacent(after.len() as int, cols, a, b) implies after[a].contains(b as usize) by {
                            assert(before[a].contains(b as usize));
                        }
                        lemma_rc(r0 + passage_at, c0 + d, cols);
                        assert(after[pt].contains(pb as usize));
                        assert(east_pair_linked(before, cols, r0, c0, d, y as int));
                        assert(before[i].contains(s as usize));
                        assert forall|j: int| y + 1 <= j < h && j != passage_at implies #[trigger] east_pair_linked(after, cols, r0, c0, d, j) by {
                            assert(east_pair_linked(before, cols, r0, c0, d, j));
                            let a = (r0 + j) * cols + c0 + d;
                            lemma_rc(r0 + j, c0 + d, cols);
                            lemma_rc(r0 + y, c0 + d, cols);
                            lemma_rc(r0 + y, c0 + d + 1, cols);
                            assert(a / cols == r0 + j);
                            assert(i / cols == r0 + y);
                            assert(a != i);
                            assert(s % cols == c0 + d + 1);
                            assert(a % cols == c0 + d);
                            assert(a != s);
                            assert(before[a].contains((a + 1) as usize));
                            assert(0 <= a < rows * cols) by (nonlinear_arith)
                                requires
                                    a == (r0 + j) * cols + c0 + d,
                                    r0 + j < rows,
                                    c0 + d < cols,
                                    r0 >= 0,
                                    j >= 0,
                                    c0 >= 0,
                                    d >= 0,
                            ;
                            assert(after[a].contains((a + 1) as usize));
                        }
                    }
                }
            }
        }
        y = y + 1;
    }
    proof {
        maze.lemma_wf();
        assert(link_total(maze.adj()) + 2 * (h - 1) == link_total(m0.adj()));
    }
    let ghost m1 = *maze;
    divide(maze, row, col, height, divide_east_of + 1);
    let ghost m2 = *maze;
    proof {
        lemma_other_part_kept(m1.adj(), m2.adj(), cols, r0, c0, h, d + 1, r0, c0 + d + 1, h, w - d - 1);
        lemma_rc(r0 + passage_at, c0 + d + 1, cols);
        assert(m2.adj()[pt].contains(pb as usize)) by {
            assert(!in_rect(cols, pb, r0, c0, h, d + 1));
        }
        lemma_same_outside_trans(m0.adj(), m1.adj(), m2.adj(), cols, r0, c0, h, w, r0, c0, h, d + 1);
        maze.lemma_wf();
    }
    divide(maze, row, col + divide_east_of + 1, height, width - divide_east_of - 1);
    proof {
        let m3 = maze.adj();
        lemma_same_outside_trans(m0.adj(), m2.adj(), m3, cols, r0, c0, h, w, r0, c0 + d + 1, h, w - d - 1);
        lemma_rc(r0 + passage_at, c0 + d, cols);
        assert(m3[pt].contains(pb as usize)) by {
            assert(!in_rect(cols, pt, r0, c0 + d + 1, h, w - d - 1));
        }
        assert forall|z: int| 0 <= z < m3.len() && #[trigger] in_rect(cols, z, r0, c0, h, d + 1) implies reach_in(
            m3, cols, r0, c0, h, d + 1, r0 * cols + c0, z) by {
            assert(reach_in(m2.adj(), cols, r0, c0, h, d + 1, r0 * cols + c0, z));
            lemma_reach_in_frame(m2.adj(), m3, cols, r0, c0, h, d + 1, r0, c0 + d + 1, h, w - d - 1, r0 * cols + c0, z);
        }
        maze.lemma_wf();
        lemma_join(m3, cols, r0, c0, h, w, r0, c0, h, d + 1, r0, c0 + d + 1, h, w - d - 1, pt, pb);
        assert((h - 1) + (inner_pairs(h, d + 1) - (h * (d + 1) - 1)) + (inner_pairs(h, w - d - 1) - (h * (w - d - 1) - 1))
            == inner_pairs(h, w) - (h * w - 1)) by (nonlinear_arith);
    }
}

} // verus!
