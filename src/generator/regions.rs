//! Rectangular regions of a grid, and paths that stay inside them.
use vstd::prelude::*;
use vstd::arithmetic::div_mod::lemma_fundamental_div_mod_converse;
use crate::links::{adjacent, symmetric, degree_of, north_of, south_of, east_of, west_of};
use crate::counting::count_where;
use crate::perfect::link_total;
use crate::paths::is_path;

verus! {

/// Cell `x` lies in the region of `h` rows and `w` columns whose north-west cell is at row
/// `r0`, column `c0`, in a grid of `cols` columns.
pub open spec fn in_rect(cols: int, x: int, r0: int, c0: int, h: int, w: int) -> bool {
    &&& r0 <= x / cols < r0 + h
    &&& c0 <= x % cols < c0 + w
}

/// Every pair of structural neighbours inside the region is linked.
pub open spec fn full_inside(adj: Seq<Seq<usize>>, cols: int, r0: int, c0: int, h: int, w: int) -> bool {
    forall|x: int, y: int|
        0 <= x < adj.len() && in_rect(cols, x, r0, c0, h, w) && in_rect(cols, y, r0, c0, h, w)
            && #[trigger] adjacent(adj.len() as int, cols, x, y) ==> adj[x].contains(y as usize)
}

/// Every cell of `p` lies in the region.
pub open spec fn path_in(p: Seq<usize>, cols: int, r0: int, c0: int, h: int, w: int) -> bool {
    forall|i: int| 0 <= i < p.len() ==> in_rect(cols, #[trigger] p[i] as int, r0, c0, h, w)
}

/// Cell `b` can be reached from cell `a` along links without leaving the region.
pub open spec fn reach_in(adj: Seq<Seq<usize>>, cols: int, r0: int, c0: int, h: int, w: int, a: int, b: int) -> bool {
    exists|p: Seq<usize>| #[trigger] is_path(adj, p) && p[0] == a && p.last() == b && path_in(p, cols, r0, c0, h, w)
}

/// The north-west cell of the region reaches every cell of the region without leaving it.
pub open spec fn rect_connected(adj: Seq<Seq<usize>>, cols: int, r0: int, c0: int, h: int, w: int) -> bool {
    forall|x: int| 0 <= x < adj.len() && #[trigger] in_rect(cols, x, r0, c0, h, w) ==> reach_in(
        adj,
        cols,
        r0,
        c0,
        h,
        w,
        r0 * cols + c0,
        x,
    )
}

/// `a1` records the same links as `a0` but for links with both ends in the region.
pub open spec fn same_outside(a0: Seq<Seq<usize>>, a1: Seq<Seq<usize>>, cols: int, r0: int, c0: int, h: int, w: int) -> bool {
    &&& a1.len() == a0.len()
    &&& forall|x: int, y: usize|
        0 <= x < a0.len() && !(in_rect(cols, x, r0, c0, h, w) && in_rect(cols, y as int, r0, c0, h, w)) ==> (
        #[trigger] a1[x].contains(y) <==> a0[x].contains(y))
}

/// The row and column of `r * cols + c`.
pub proof fn lemma_rc(r: int, c: int, cols: int)
    requires
        r >= 0,
        0 <= c < cols,
    ensures
        (r * cols + c) / cols == r,
        (r * cols + c) % cols == c,
{
    lemma_fundamental_div_mod_converse(r * cols + c, cols, r, c);
}

/// A cell of the region reaches itself inside it.
pub proof fn lemma_reach_in_self(adj: Seq<Seq<usize>>, cols: int, r0: int, c0: int, h: int, w: int, a: int)
    requires
        0 <= a < adj.len(),
        adj.len() <= usize::MAX,
        in_rect(cols, a, r0, c0, h, w),
    ensures
        reach_in(adj, cols, r0, c0, h, w, a, a),
{
    let p = seq![a as usize];
    assert(is_path(adj, p));
    assert(path_in(p, cols, r0, c0, h, w));
}

/// A link out of a reached cell to a cell of the region extends the reach.
pub proof fn lemma_reach_in_step(adj: Seq<Seq<usize>>, cols: int, r0: int, c0: int, h: int, w: int, a: int, b: int, c: usize)
    requires
        reach_in(adj, cols, r0, c0, h, w, a, b),
        0 <= b < adj.len(),
        adj[b].contains(c),
        c < adj.len(),
        in_rect(cols, c as int, r0, c0, h, w),
    ensures
        reach_in(adj, cols, r0, c0, h, w, a, c as int),
{
    let p = choose|p: Seq<usize>| #[trigger] is_path(adj, p) && p[0] == a && p.last() == b && path_in(p, cols, r0, c0, h, w);
    let q = p.push(c);
    assert forall|i: int| 0 <= i < q.len() - 1 implies adj[#[trigger] q[i] as int].contains(q[i + 1]) by {
        if i < p.len() - 1 {
            assert(q[i] == p[i] && q[i + 1] == p[i + 1]);
        } else {
            assert(q[i] == p.last());
        }
    }
    assert forall|i: int| 0 <= i < q.len() implies #[trigger] q[i] < adj.len() by {
        if i < p.len() {
            assert(q[i] == p[i]);
        }
    }
    assert forall|i: int| 0 <= i < q.len() implies in_rect(cols, #[trigger] q[i] as int, r0, c0, h, w) by {
        if i < p.len() {
            assert(q[i] == p[i]);
        }
    }
    assert(is_path(adj, q));
}

/// Reach inside a region is transitive.
pub proof fn lemma_reach_in_trans(adj: Seq<Seq<usize>>, cols: int, r0: int, c0: int, h: int, w: int, a: int, b: int, c: int)
    requires
        reach_in(adj, cols, r0, c0, h, w, a, b),
        reach_in(adj, cols, r0, c0, h, w, b, c),
    ensures
        reach_in(adj, cols, r0, c0, h, w, a, c),
{
    let p = choose|p: Seq<usize>| #[trigger] is_path(adj, p) && p[0] == a && p.last() == b && path_in(p, cols, r0, c0, h, w);
    let q = choose|q: Seq<usize>| #[trigger] is_path(adj, q) && q[0] == b && q.last() == c && path_in(q, cols, r0, c0, h, w);
    let r = p + q.drop_first();
    assert forall|i: int| 0 <= i < r.len() implies #[trigger] r[i] < adj.len() && in_rect(cols, r[i] as int, r0, c0, h, w) by {
        if i >= p.len() {
            assert(r[i] == q[i - p.len() + 1]);
        } else {
            assert(r[i] == p[i]);
        }
    }
    assert forall|i: int| 0 <= i < r.len() - 1 implies adj[#[trigger] r[i] as int].contains(r[i + 1]) by {
        if i < p.len() - 1 {
            assert(r[i] == p[i] && r[i + 1] == p[i + 1]);
        } else if i == p.len() - 1 {
            assert(r[i] == q[0]);
            assert(r[i + 1] == q[1]);
        } else {
            assert(r[i] == q[i - p.len() + 1]);
            assert(r[i + 1] == q[i - p.len() + 2]);
        }
    }
    assert(is_path(adj, r));
    assert(path_in(r, cols, r0, c0, h, w));
    if q.len() == 1 {
        assert(r =~= p);
    } else {
        assert(r.last() == q.last());
    }
}

/// Over symmetric links, reach inside a region is symmetric.
pub proof fn lemma_reach_in_rev(adj: Seq<Seq<usize>>, cols: int, r0: int, c0: int, h: int, w: int, a: int, b: int)
    requires
        symmetric(adj),
        reach_in(adj, cols, r0, c0, h, w, a, b),
    ensures
        reach_in(adj, cols, r0, c0, h, w, b, a),
{
    let p = choose|p: Seq<usize>| #[trigger] is_path(adj, p) && p[0] == a && p.last() == b && path_in(p, cols, r0, c0, h, w);
    let r = p.reverse();
    assert forall|i: int| 0 <= i < r.len() implies #[trigger] r[i] < adj.len() && in_rect(cols, r[i] as int, r0, c0, h, w) by {
        assert(r[i] == p[p.len() - 1 - i]);
    }
    assert forall|i: int| 0 <= i < r.len() - 1 implies adj[#[trigger] r[i] as int].contains(r[i + 1]) by {
        let j = p.len() - 2 - i;
        assert(r[i] == p[j + 1]);
        assert(r[i + 1] == p[j]);
        assert(adj[p[j] as int].contains(p[j + 1]));
        let k = choose|k: int| 0 <= k < adj[p[j] as int].len() && adj[p[j] as int][k] == p[j + 1];
        assert(adj[adj[p[j] as int][k] as int].contains(p[j]));
    }
    assert(is_path(adj, r));
    assert(path_in(r, cols, r0, c0, h, w));
}

/// Reach inside a region is reach inside any region that contains it.
pub proof fn lemma_reach_in_widen(
    adj: Seq<Seq<usize>>,
    cols: int,
    r0: int,
    c0: int,
    h: int,
    w: int,
    r1: int,
    c1: int,
    h1: int,
    w1: int,
    a: int,
    b: int,
)
    requires
        reach_in(adj, cols, r0, c0, h, w, a, b),
        r1 <= r0,
        r0 + h <= r1 + h1,
        c1 <= c0,
        c0 + w <= c1 + w1,
    ensures
        reach_in(adj, cols, r1, c1, h1, w1, a, b),
{
    let p = choose|p: Seq<usize>| #[trigger] is_path(adj, p) && p[0] == a && p.last() == b && path_in(p, cols, r0, c0, h, w);
    assert(path_in(p, cols, r1, c1, h1, w1));
}

/// Reach inside a region survives changes to links that stay inside another, disjoint region.
pub proof fn lemma_reach_in_frame(
    a0: Seq<Seq<usize>>,
    a1: Seq<Seq<usize>>,
    cols: int,
    r0: int,
    c0: int,
    h: int,
    w: int,
    r1: int,
    c1: int,
    h1: int,
    w1: int,
    a: int,
    b: int,
)
    requires
        reach_in(a0, cols, r0, c0, h, w, a, b),
        same_outside(a0, a1, cols, r1, c1, h1, w1),
        forall|x: int| in_rect(cols, x, r0, c0, h, w) ==> !#[trigger] in_rect(cols, x, r1, c1, h1, w1),
    ensures
        reach_in(a1, cols, r0, c0, h, w, a, b),
{
    let p = choose|p: Seq<usize>| #[trigger] is_path(a0, p) && p[0] == a && p.last() == b && path_in(p, cols, r0, c0, h, w);
    assert forall|i: int| 0 <= i < p.len() - 1 implies a1[#[trigger] p[i] as int].contains(p[i + 1]) by {
        assert(a0[p[i] as int].contains(p[i + 1]));
        assert(in_rect(cols, p[i] as int, r0, c0, h, w));
        assert(!in_rect(cols, p[i] as int, r1, c1, h1, w1));
    }
    assert(is_path(a1, p));
}

/// A fully linked region one cell thick is connected inside.
pub proof fn lemma_line_connected(adj: Seq<Seq<usize>>, cols: int, rows: int, r0: int, c0: int, h: int, w: int)
    requires
        adj.len() == rows * cols,
        adj.len() <= usize::MAX,
        cols >= 1,
        0 <= r0,
        r0 + h <= rows,
        0 <= c0,
        c0 + w <= cols,
        h >= 1,
        w >= 1,
        h == 1 || w == 1,
        full_inside(adj, cols, r0, c0, h, w),
    ensures
        rect_connected(adj, cols, r0, c0, h, w),
{
    let corner = r0 * cols + c0;
    assert forall|x: int| 0 <= x < adj.len() && #[trigger] in_rect(cols, x, r0, c0, h, w) implies reach_in(
        adj, cols, r0, c0, h, w, corner, x) by {
        let r = x / cols;
        let c = x % cols;
        vstd::arithmetic::div_mod::lemma_fundamental_div_mod(x, cols);
        assert(x == r * cols + c) by (nonlinear_arith)
            requires
                x == cols * (x / cols) + x % cols,
                r == x / cols,
                c == x % cols,
        ;
        if h == 1 {
            lemma_row_walk(adj, cols, rows, r0, c0, w, c - c0);
        } else {
            lemma_col_walk(adj, cols, rows, r0, c0, h, r - r0);
        }
    }
}

/// Along a fully linked row region, the first cell reaches the cell `k` steps east.
proof fn lemma_row_walk(adj: Seq<Seq<usize>>, cols: int, rows: int, r0: int, c0: int, w: int, k: int)
    requires
        adj.len() == rows * cols,
        adj.len() <= usize::MAX,
        cols >= 1,
        0 <= r0 < rows,
        0 <= c0,
        c0 + w <= cols,
        0 <= k < w,
        full_inside(adj, cols, r0, c0, 1, w),
    ensures
        reach_in(adj, cols, r0, c0, 1, w, r0 * cols + c0, r0 * cols + c0 + k),
    decreases k,
{
    let n = adj.len() as int;
    lemma_rc(r0, c0 + k, cols);
    assert(0 <= r0 * cols + c0 + k < n) by (nonlinear_arith)
        requires
            0 <= r0 < rows,
            0 <= c0 + k < cols,
            n == rows * cols,
    ;
    if k == 0 {
        lemma_reach_in_self(adj, cols, r0, c0, 1, w, r0 * cols + c0);
    } else {
        lemma_row_walk(adj, cols, rows, r0, c0, w, k - 1);
        let y = r0 * cols + c0 + k - 1;
        lemma_rc(r0, c0 + k - 1, cols);
        assert(adjacent(n, cols, y, y + 1));
        assert(adj[y].contains((y + 1) as usize));
        lemma_reach_in_step(adj, cols, r0, c0, 1, w, r0 * cols + c0, y, (y + 1) as usize);
    }
}

/// Along a fully linked column region, the first cell reaches the cell `k` steps south.
proof fn lemma_col_walk(adj: Seq<Seq<usize>>, cols: int, rows: int, r0: int, c0: int, h: int, k: int)
    requires
        adj.len() == rows * cols,
        adj.len() <= usize::MAX,
        cols >= 1,
        0 <= r0,
        r0 + h <= rows,
        0 <= c0 < cols,
        0 <= k < h,
        full_inside(adj, cols, r0, c0, h, 1),
    ensures
        reach_in(adj, cols, r0, c0, h, 1, r0 * cols + c0, (r0 + k) * cols + c0),
    decreases k,
{
    let n = adj.len() as int;
    lemma_rc(r0 + k, c0, cols);
    assert(0 <= (r0 + k) * cols + c0 < n) by (nonlinear_arith)
        requires
            0 <= r0 + k < rows,
            0 <= c0 < cols,
            n == rows * cols,
    ;
    if k == 0 {
        lemma_reach_in_self(adj, cols, r0, c0, h, 1, r0 * cols + c0);
    } else {
        lemma_col_walk(adj, cols, rows, r0, c0, h, k - 1);
        let y = (r0 + k - 1) * cols + c0;
        lemma_rc(r0 + k - 1, c0, cols);
        assert(y + cols == (r0 + k) * cols + c0) by (nonlinear_arith)
            requires
                y == (r0 + k - 1) * cols + c0,
        ;
        assert(adjacent(n, cols, y, y + cols));
        assert(adj[y].contains((y + cols) as usize));
        lemma_reach_in_step(adj, cols, r0, c0, h, 1, r0 * cols + c0, y, (y + cols) as usize);
    }
}

/// Changes confined to a region `S` inside region `R`, after changes confined to `R`, are
/// confined to `R`.
pub proof fn lemma_same_outside_trans(
    a0: Seq<Seq<usize>>,
    a1: Seq<Seq<usize>>,
    a2: Seq<Seq<usize>>,
    cols: int,
    r0: int,
    c0: int,
    h: int,
    w: int,
    r1: int,
    c1: int,
    h1: int,
    w1: int,
)
    requires
        same_outside(a0, a1, cols, r0, c0, h, w),
        same_outside(a1, a2, cols, r1, c1, h1, w1),
        r0 <= r1,
        r1 + h1 <= r0 + h,
        c0 <= c1,
        c1 + w1 <= c0 + w,
    ensures
        same_outside(a0, a2, cols, r0, c0, h, w),
{
    assert forall|x: int, y: usize|
        0 <= x < a0.len() && !(in_rect(cols, x, r0, c0, h, w) && in_rect(cols, y as int, r0, c0, h, w)) implies (
        #[trigger] a2[x].contains(y) <==> a0[x].contains(y)) by {
        assert(a1[x].contains(y) <==> a0[x].contains(y));
        assert(!(in_rect(cols, x, r1, c1, h1, w1) && in_rect(cols, y as int, r1, c1, h1, w1)));
        assert(a2[x].contains(y) <==> a1[x].contains(y));
    }
}

/// The number of pairs of structural neighbours in a region of `h` rows and `w` columns.
pub open spec fn inner_pairs(h: int, w: int) -> int {
    h * (w - 1) + w * (h - 1)
}

proof fn lemma_count_north(k: int, cols: int)
    requires
        k >= 0,
        cols >= 0,
    ensures
        count_where(k, |x: int| north_of(cols, x) is Some) == if k > cols { k - cols } else { 0 },
    decreases k,
{
    if k > 0 {
        lemma_count_north(k - 1, cols);
    }
}

proof fn lemma_count_south(k: int, n: int, cols: int)
    requires
        k >= 0,
        cols >= 0,
        n >= cols,
    ensures
        count_where(k, |x: int| south_of(n, cols, x) is Some) == if k < n - cols { k } else { n - cols },
    decreases k,
{
    if k > 0 {
        lemma_count_south(k - 1, n, cols);
    }
}

/// Along row `r`, the cells off the west edge and off the east edge.
proof fn lemma_count_row(n: int, rows: int, cols: int, r: int, j: int)
    requires
        cols >= 1,
        0 <= r < rows,
        n == rows * cols,
        0 <= j <= cols,
        count_where(r * cols, |x: int| west_of(cols, x) is Some) == r * (cols - 1),
        count_where(r * cols, |x: int| east_of(n, cols, x) is Some) == r * (cols - 1),
    ensures
        count_where(r * cols + j, |x: int| west_of(cols, x) is Some) == r * (cols - 1) + if j > 0 { j - 1 } else { 0 },
        count_where(r * cols + j, |x: int| east_of(n, cols, x) is Some) == r * (cols - 1) + if j == cols { cols - 1 } else { j },
    decreases j,
{
    if j > 0 {
        lemma_count_row(n, rows, cols, r, j - 1);
        let x = r * cols + j - 1;
        lemma_rc(r, j - 1, cols);
        assert(x + 1 < n <==> j - 1 != cols - 1 || r + 1 < rows) by (nonlinear_arith)
            requires
                x == r * cols + j - 1,
                n == rows * cols,
                0 <= r < rows,
                1 <= j <= cols,
        {
            if r + 1 < rows {
                assert((r + 1) * cols <= rows * cols);
            } else {
                assert(r + 1 == rows);
            }
        }
    }
}

proof fn lemma_count_sides(n: int, rows: int, cols: int, r: int)
    requires
        cols >= 1,
        0 <= r <= rows,
        n == rows * cols,
    ensures
        count_where(r * cols, |x: int| west_of(cols, x) is Some) == r * (cols - 1),
        count_where(r * cols, |x: int| east_of(n, cols, x) is Some) == r * (cols - 1),
    decreases r,
{
    if r == 0 {
        assert(r * cols == 0);
    } else {
        lemma_count_sides(n, rows, cols, r - 1);
        lemma_count_row(n, rows, cols, r - 1, cols);
        assert((r - 1) * cols + cols == r * cols) by (nonlinear_arith);
        assert((r - 1) * (cols - 1) + (cols - 1) == r * (cols - 1)) by (nonlinear_arith);
    }
}

proof fn lemma_total_prefix(adj: Seq<Seq<usize>>, n: int, cols: int, k: int)
    requires
        n == adj.len(),
        0 <= k <= n,
        forall|x: int| 0 <= x < n ==> (#[trigger] adj[x]).len() == degree_of(n, cols, x),
    ensures
        link_total(adj.subrange(0, k)) == count_where(k, |x: int| north_of(cols, x) is Some) + count_where(
            k,
            |x: int| south_of(n, cols, x) is Some,
        ) + count_where(k, |x: int| east_of(n, cols, x) is Some) + count_where(k, |x: int| west_of(cols, x) is Some),
    decreases k,
{
    if k > 0 {
        lemma_total_prefix(adj, n, cols, k - 1);
        assert(adj.subrange(0, k).drop_last() =~= adj.subrange(0, k - 1));
        assert(adj.subrange(0, k).last() == adj[k - 1]);
    }
}

/// When every cell links to each of its structural neighbours once, the links number twice
/// the pairs of neighbours.
pub proof fn lemma_full_total(adj: Seq<Seq<usize>>, rows: int, cols: int)
    requires
        rows >= 1,
        cols >= 1,
        adj.len() == rows * cols,
        forall|x: int| 0 <= x < adj.len() ==> (#[trigger] adj[x]).len() == degree_of(adj.len() as int, cols, x),
    ensures
        link_total(adj) == 2 * inner_pairs(rows, cols),
{
    let n = rows * cols;
    lemma_total_prefix(adj, n, cols, n);
    assert(adj.subrange(0, n) =~= adj);
    assert(n >= cols) by (nonlinear_arith)
        requires
            n == rows * cols,
            rows >= 1,
            cols >= 1,
    ;
    lemma_count_north(n, cols);
    lemma_count_south(n, n, cols);
    lemma_count_sides(n, rows, cols, rows);
    assert(2 * (n - cols) + 2 * (rows * (cols - 1)) == 2 * inner_pairs(rows, cols)) by (nonlinear_arith)
        requires
            n == rows * cols,
    ;
}

} // verus!
