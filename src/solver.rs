//! Weighted distances from a root cell, and shortest paths between two cells.
use vstd::prelude::*;
use crate::grid_maze::GridMaze;
use crate::grid_node::GridNode;
use crate::distances::Distances;
use crate::counting::{count_where, lemma_count_plus_one, lemma_count_bound};
use crate::links::symmetric;
use crate::error::MazeError;
use crate::paths::{is_path, reachable, lemma_reach_self, lemma_reach_step, lemma_closed_reach};

verus! {

/// The cost of stepping into cell `i`.
pub open spec fn step_cost(m: &GridMaze, i: int) -> int {
    m.weight_of(i) as int
}

/// Every weight is non-negative and small enough that a path through all cells costs at
/// most `i32::MAX`.
pub open spec fn weights_bounded(m: &GridMaze) -> bool {
    forall|i: int| 0 <= i < m.n() ==> 0 <= #[trigger] m.weight_of(i) && m.weight_of(i) * m.n() <= i32::MAX
}

/// `d` holds the weighted distances from `root` over the links of `m`: the root at 0, exactly
/// the cells that the root reaches, each at the cost of some walk from the root, no link that would shorten a recorded distance, and for
/// every other recorded cell a linked predecessor whose distance plus the cell's weight
/// gives the cell's distance.
pub open spec fn is_distance_map(m: &GridMaze, d: &Distances, root: int) -> bool {
    &&& d.dist_of(root) == Some(0i32)
    &&& forall|i: int| #[trigger] d.dist_of(i) is Some ==> d.dist_of(i)->0 >= 0
    &&& forall|i: int| 0 <= i < m.n() ==> (#[trigger] d.dist_of(i) is Some <==> reachable(m.adj(), root, i))
    &&& forall|i: int| 0 <= i < m.n() && #[trigger] d.dist_of(i) is Some ==> witnessed(m, root, i, d.dist_of(i)->0 as int)
    &&& forall|i: int| !(0 <= i < m.n()) ==> #[trigger] d.dist_of(i) is None
    &&& forall|a: int, k: int|
        0 <= a < m.n() && d.dist_of(a) is Some && 0 <= k < m.adj()[a].len() ==> d.dist_of(
            #[trigger] m.adj()[a][k] as int,
        ) is Some && d.dist_of(m.adj()[a][k] as int)->0 <= d.dist_of(a)->0 + step_cost(
            m,
            m.adj()[a][k] as int,
        )
    &&& forall|c: int|
        0 <= c < m.n() && c != root && #[trigger] d.dist_of(c) is Some ==> exists|a: int|
            0 <= a < m.n() && d.dist_of(a) is Some && m.adj()[a].contains(c as usize) && d.dist_of(c)->0
                == d.dist_of(a)->0 + step_cost(m, c)
}

/// The cost of walking `p`: the weights of the cells it steps into after its first.
pub open spec fn path_cost(m: &GridMaze, p: Seq<usize>) -> int
    decreases p.len(),
{
    if p.len() <= 1 {
        0
    } else {
        path_cost(m, p.drop_last()) + step_cost(m, p.last() as int)
    }
}

/// A distance map records, for every cell at the end of a walk from the root, a distance no
/// greater than the walk's cost: its distances are the shortest ones.
pub proof fn lemma_distance_at_most_path_cost(m: &GridMaze, d: &Distances, root: int, p: Seq<usize>)
    requires
        m.wf(),
        is_distance_map(m, d, root),
        is_path(m.adj(), p),
        p[0] == root,
    ensures
        d.dist_of(p.last() as int) is Some,
        d.dist_of(p.last() as int)->0 <= path_cost(m, p),
    decreases p.len(),
{
    m.lemma_wf();
    if p.len() > 1 {
        let q = p.drop_last();
        assert(is_path(m.adj(), q)) by {
            assert forall|i: int| 0 <= i < q.len() - 1 implies m.adj()[#[trigger] q[i] as int].contains(q[i + 1]) by {
                assert(q[i] == p[i] && q[i + 1] == p[i + 1]);
            }
            assert forall|i: int| 0 <= i < q.len() implies #[trigger] q[i] < m.adj().len() by {
                assert(q[i] == p[i]);
            }
        }
        lemma_distance_at_most_path_cost(m, d, root, q);
        let a = q.last() as int;
        assert(m.adj()[p[p.len() - 2] as int].contains(p[p.len() - 1]));
        let k = choose|k: int| 0 <= k < m.adj()[a].len() && m.adj()[a][k] == p.last();
        assert(d.dist_of(m.adj()[a][k] as int) is Some);
    }
}

/// Some walk along links from `root` to `c` costs exactly `val`.
pub open spec fn witnessed(m: &GridMaze, root: int, c: int, val: int) -> bool {
    exists|p: Seq<usize>| #[trigger] is_path(m.adj(), p) && p[0] == root && p.last() == c && path_cost(m, p) == val
}

/// The root is reached by the empty walk, of cost 0.
proof fn lemma_witness_root(m: &GridMaze, root: int)
    requires
        m.wf(),
        0 <= root < m.n(),
    ensures
        witnessed(m, root, root, 0),
{
    m.lemma_wf();
    let p = seq![root as usize];
    assert(is_path(m.adj(), p));
    assert(path_cost(m, p) == 0);
}

/// A witnessed walk to `u` followed by the link `u -> v` witnesses `v`.
proof fn lemma_witness_step(m: &GridMaze, root: int, u: int, du: int, v: usize)
    requires
        m.wf(),
        witnessed(m, root, u, du),
        0 <= u < m.n(),
        m.adj()[u].contains(v),
        v < m.n(),
    ensures
        witnessed(m, root, v as int, du + step_cost(m, v as int)),
{
    m.lemma_wf();
    let adj = m.adj();
    let p = choose|p: Seq<usize>| #[trigger] is_path(m.adj(), p) && p[0] == root && p.last() == u && path_cost(m, p) == du;
    let q = p.push(v);
    assert forall|i: int| 0 <= i < q.len() - 1 implies adj[#[trigger] q[i] as int].contains(q[i + 1]) by {
        if i < p.len() - 1 {
            assert(q[i] == p[i] && q[i + 1] == p[i + 1]);
        } else {
            assert(q[i] == p.last());
        }
    }
    assert forall|i: int| 0 <= i < q.len() implies #[trigger] q[i] < adj.len() by {
        if i < p.len() {
            assert(q[i] == p[i]);
        }
    }
    assert(is_path(adj, q));
    assert(q.drop_last() =~= p);
    assert(path_cost(m, q) == path_cost(m, p) + step_cost(m, v as int));
}

/// Every recorded distance is the cost of some walk from `r`.
pub open spec fn all_witnessed(m: &GridMaze, dist: Seq<Option<i32>>, r: int) -> bool {
    forall|c: int| 0 <= c < m.n() && #[trigger] dist[c] is Some ==> witnessed(m, r, c, dist[c]->0 as int)
}

/// Relaxing the links out of `u` keeps every recorded distance witnessed by a walk.
proof fn lemma_witness_settle(m: &GridMaze, d0: Seq<Option<i32>>, d1: Seq<Option<i32>>, r: int, u: int)
    requires
        m.wf(),
        weights_bounded(m),
        all_witnessed(m, d0, r),
        0 <= u < m.n(),
        d0[u] is Some,
        d0[u]->0 >= 0,
        forall|i: int| 0 <= i < m.n() ==> d0[u]->0 + #[trigger] m.weight_of(i) <= i32::MAX,
        forall|i: int| 0 <= i < m.n() && #[trigger] d1[i] != d0[i] ==> m.adj()[u].contains(i as usize)
            && d1[i] == Some((d0[u]->0 + m.weight_of(i)) as i32),
    ensures
        all_witnessed(m, d1, r),
{
    m.lemma_wf();
    assert forall|x: int| 0 <= x < m.n() && #[trigger] d1[x] is Some implies witnessed(m, r, x, d1[x]->0 as int) by {
        if d1[x] != d0[x] {
            let du = d0[u]->0 as int;
            assert(witnessed(m, r, u, du));
            lemma_witness_step(m, r, u, du, x as usize);
            assert(0 <= m.weight_of(x));
            assert(d1[x]->0 == du + m.weight_of(x));
        } else {
            assert(d0[x] is Some);
        }
    }
}

/// The invariant of the settling loop of `distances`.
spec fn settle_inv(
    m: &GridMaze,
    dist: Seq<Option<i32>>,
    settled: Seq<bool>,
    r: int,
    count: int,
    bound: int,
) -> bool {
    let n = m.n();
    let adj = m.adj();
    &&& dist.len() == n
    &&& settled.len() == n
    &&& dist[r] == Some(0i32)
    &&& forall|i: int| 0 <= i < n && #[trigger] settled[i] ==> dist[i] is Some
    &&& count == count_where(n, |i: int| settled[i])
    &&& forall|i: int| 0 <= i < n && #[trigger] dist[i] is Some ==> 0 <= dist[i]->0 <= count * bound
    &&& forall|i: int, j: int|
        0 <= i < n && 0 <= j < n && #[trigger] settled[i] && !#[trigger] settled[j] && dist[j] is Some
            ==> dist[i]->0 <= dist[j]->0
    &&& forall|a: int, k: int|
        0 <= a < n && settled[a] && 0 <= k < adj[a].len() ==> dist[#[trigger] adj[a][k] as int] is Some
            && dist[adj[a][k] as int]->0 <= dist[a]->0 + step_cost(m, adj[a][k] as int)
    &&& forall|c: int|
        0 <= c < n && c != r && #[trigger] dist[c] is Some ==> exists|a: int|
            0 <= a < n && settled[a] && adj[a].contains(c as usize) && dist[c]->0 == dist[a]->0
                + step_cost(m, c)
    &&& forall|c: int| 0 <= c < n && #[trigger] dist[c] is Some ==> reachable(adj, r, c)
    &&& count == 0 ==> forall|i: int| 0 <= i < n && i != r ==> #[trigger] dist[i] is None
    &&& count > 0 ==> settled[r]
}

impl GridMaze {
    /// Relaxes the links out of the settled cell `u`, at distance `du`: each unsettled
    /// neighbour whose recorded distance is absent or above `du` plus its weight gets that
    /// sum.
    fn relax_neighbors(&self, dist: &mut Vec<Option<i32>>, settled: &Vec<bool>, u: usize, du: i32)
        requires
            self.wf(),
            u < self.n(),
            du >= 0,
            old(dist)@.len() == self.n(),
            settled@.len() == self.n(),
            settled@[u as int],
            forall|i: int| 0 <= i < self.n() ==> 0 <= #[trigger] self.weight_of(i) && du + self.weight_of(i) <= i32::MAX,
            forall|i: int| 0 <= i < self.n() && #[trigger] settled@[i] ==> old(dist)@[i] is Some && old(dist)@[i]->0 <= du,
        ensures
            final(dist)@.len() == self.n(),
            forall|i: int| 0 <= i < self.n() && #[trigger] settled@[i] ==> final(dist)@[i] == old(dist)@[i],
            forall|i: int| 0 <= i < self.n() && #[trigger] old(dist)@[i] is Some ==> final(dist)@[i] is Some && final(dist)@[i]->0 <= old(dist)@[i]->0,
            forall|i: int| 0 <= i < self.n() && #[trigger] final(dist)@[i] != old(dist)@[i] ==> !settled@[i] && self.adj()[u as int].contains(i as usize)
                && final(dist)@[i] == Some((du + self.weight_of(i)) as i32),
            forall|k: int| 0 <= k < self.adj()[u as int].len() ==> final(dist)@[#[trigger] self.adj()[u as int][k] as int] is Some
                && final(dist)@[self.adj()[u as int][k] as int]->0 <= du + step_cost(self, self.adj()[u as int][k] as int),
    {
        proof {
            self.lemma_wf();
        }
        let ghost d0 = dist@;
        let n = self.len();
        let node_u = GridNode::new(u, 0);
        let ls = self.get_links(&node_u);
        let mut k: usize = 0;
        while k < ls.len()
            invariant
                self.wf(),
                n == self.n(),
                u < n,
                k <= ls@.len(),
                ls@.len() == self.adj()[u as int].len(),
                forall|j: int| 0 <= j < ls@.len() ==> (#[trigger] ls@[j]) == self.node_spec(self.adj()[u as int][j] as int)
                    && ls@[j].pos_spec() == self.adj()[u as int][j],
                dist@.len() == n,
                settled@.len() == n,
                forall|i: int| 0 <= i < n ==> 0 <= #[trigger] self.weight_of(i) && du + self.weight_of(i) <= i32::MAX,
                forall|i: int| 0 <= i < n && #[trigger] settled@[i] ==> d0[i] is Some && d0[i]->0 <= du,
                forall|i: int| 0 <= i < n && #[trigger] settled@[i] ==> dist@[i] == d0[i],
                forall|i: int| 0 <= i < n && #[trigger] d0[i] is Some ==> dist@[i] is Some && dist@[i]->0 <= d0[i]->0,
                du >= 0,
                forall|i: int| 0 <= i < n && #[trigger] dist@[i] != d0[i] ==> !settled@[i] && self.adj()[u as int].contains(i as usize)
                    && dist@[i] == Some((du + self.weight_of(i)) as i32),
                forall|kk: int| 0 <= kk < k ==> dist@[#[trigger] self.adj()[u as int][kk] as int] is Some
                    && dist@[self.adj()[u as int][kk] as int]->0 <= du + step_cost(self, self.adj()[u as int][kk] as int),
            decreases ls@.len() - k,
        {
            proof {
                self.lemma_wf();
            }
            let v = ls[k].pos();
            let w = ls[k].weight();
            let ghost before = dist@;
            assert(self.adj()[u as int][k as int] == v);
            assert(w == self.weight_of(v as int));
            if !settled[v] {
                let cand = du + w as i32;
                let better = match dist[v] {
                    None => true,
                    Some(dv) => cand < dv,
                };
                if better {
                    dist.set(v, Some(cand));
                    assert(self.adj()[u as int].contains(v));
                }
            }
            assert forall|kk: int| 0 <= kk < k + 1 implies dist@[#[trigger] self.adj()[u as int][kk] as int] is Some
                && dist@[self.adj()[u as int][kk] as int]->0 <= du + step_cost(self, self.adj()[u as int][kk] as int) by {
                if kk < k {
                    assert(before[self.adj()[u as int][kk] as int] is Some);
                }
            }
            k = k + 1;
        }
    }

    /// The weighted distances from `root` to every cell it reaches: the root is at 0, and
    /// stepping into a cell costs that cell's weight. Cells settle in order of distance, each
    /// relaxing its linked neighbours; a cell that the root cannot reach gets no distance.
    pub fn distances(&self, root: &GridNode) -> (d: Distances)
        requires
            self.wf(),
            root.pos_spec() < self.n(),
            weights_bounded(self),
        ensures
            d.root_spec() == *root,
            is_distance_map(self, &d, root.pos_spec() as int),
    {
        proof {
            self.lemma_wf();
        }
        let n = self.len();
        let r = root.pos();
        let ghost bound: int = i32::MAX as int / n as int;
        let mut dist: Vec<Option<i32>> = Vec::with_capacity(n);
        let mut settled: Vec<bool> = Vec::with_capacity(n);
        let mut i: usize = 0;
        while i < n
            invariant
                i <= n,
                dist@.len() == i,
                settled@.len() == i,
                forall|k: int| 0 <= k < i ==> #[trigger] dist@[k] == (if k == r { Some(0i32) } else { None }),
                forall|k: int| 0 <= k < i ==> !#[trigger] settled@[k],
            decreases n - i,
        {
            if i == r {
                dist.push(Some(0));
            } else {
                dist.push(None);
            }
            settled.push(false);
            i = i + 1;
        }
        let mut count: usize = 0;
        proof {
            lemma_count_none(settled@, n as int);
            lemma_reach_self(self.adj(), r as int);
            lemma_witness_root(self, r as int);
            assert forall|c: int| 0 <= c < n && #[trigger] dist@[c] is Some implies witnessed(self, r as int, c, dist@[c]->0 as int) by {
                assert(c == r);
            }
        }
        loop
            invariant
                self.wf(),
                weights_bounded(self),
                n == self.n(),
                r < n,
                n <= usize::MAX,
                bound == i32::MAX as int / n as int,
                count <= n,
                settle_inv(self, dist@, settled@, r as int, count as int, bound),
                all_witnessed(self, dist@, r as int),
            ensures
                settle_inv(self, dist@, settled@, r as int, count as int, bound),
                all_witnessed(self, dist@, r as int),
                forall|j: int| 0 <= j < n && #[trigger] dist@[j] is Some ==> settled@[j],
            decreases n - count,
        {
            let mut best: Option<usize> = None;
            let mut i: usize = 0;
            while i < n
                invariant
                    n == self.n(),
                    dist@.len() == n,
                    settled@.len() == n,
                    i <= n,
                    best matches Some(b) ==> b < i && !settled@[b as int] && dist@[b as int] is Some,
                    best matches Some(b) ==> forall|j: int| 0 <= j < i && !settled@[j] && #[trigger] dist@[j] is Some ==> dist@[b as int]->0 <= dist@[j]->0,
                    best is None ==> forall|j: int| 0 <= j < i && !settled@[j] ==> #[trigger] dist@[j] is None,
                decreases n - i,
            {
                if !settled[i] {
                    if let Some(di) = dist[i] {
                        match best {
                            None => {
                                best = Some(i);
                            },
                            Some(b) => {
                                if di < dist[b].unwrap() {
                                    best = Some(i);
                                }
                            },
                        }
                    }
                }
                i = i + 1;
            }
            let u = match best {
                None => {
                    break;
                },
                Some(u) => u,
            };
            let ghost s0 = settled@;
            let ghost d0 = dist@;
            let du = dist[u].unwrap();
            settled.set(u, true);
            proof {
                lemma_count_plus_one(n as int, |i: int| s0[i], |i: int| settled@[i], u as int);
                lemma_count_bound(n as int, |i: int| settled@[i]);
            }
            let ghost c0 = count as int;
            count = count + 1;
            proof {
                self.lemma_wf();
                lemma_weight_fits_all(self, n as int, bound);
                assert(du <= c0 * bound);
                assert(c0 * bound + bound == count * bound) by (nonlinear_arith)
                    requires
                        count == c0 + 1,
                ;
                assert(count * bound <= n * bound) by (nonlinear_arith)
                    requires
                        count <= n,
                        bound >= 0,
                ;
                assert(n * bound <= i32::MAX) by (nonlinear_arith)
                    requires
                        n >= 1,
                        bound == i32::MAX as int / n as int,
                ;
                assert forall|i: int| 0 <= i < n && #[trigger] settled@[i] implies dist@[i] is Some && dist@[i]->0 <= du by {
                    if i != u {
                        assert(s0[i]);
                    }
                }
            }
            self.relax_neighbors(&mut dist, &settled, u, du);
            proof {
                lemma_settle_step(self, d0, s0, dist@, settled@, r as int, u as int, count as int - 1, bound);
                lemma_witness_settle(self, d0, dist@, r as int, u as int);
            }
        }
        let ghost fin = dist@;
        proof {
            let s = |i: int| 0 <= i < n && fin[i] is Some;
            assert forall|i: int| 0 <= i < n implies (#[trigger] fin[i] is Some <==> reachable(self.adj(), r as int, i)) by {
                if reachable(self.adj(), r as int, i) {
                    assert forall|x: int, k: int| 0 <= x < self.adj().len() && s(x) && 0 <= k < self.adj()[x].len() implies #[trigger] s(self.adj()[x][k] as int) by {
                        assert(settled@[x]);
                        assert(fin[self.adj()[x][k] as int] is Some);
                    }
                    lemma_closed_reach(self.adj(), s, r as int, i);
                }
            }
        }
        let d = Distances::from_vec(*root, dist);
        proof {
            let adj = self.adj();
            assert forall|a: int, k: int|
                0 <= a < n && d.dist_of(a) is Some && 0 <= k < adj[a].len() implies d.dist_of(
                    #[trigger] adj[a][k] as int,
                ) is Some && d.dist_of(adj[a][k] as int)->0 <= d.dist_of(a)->0 + step_cost(self, adj[a][k] as int) by {
                assert(fin[a] is Some);
                assert(settled@[a]);
                assert(fin[adj[a][k] as int] is Some);
            }
            assert forall|c: int|
                0 <= c < n && c != r && #[trigger] d.dist_of(c) is Some implies exists|a: int|
                    0 <= a < n && d.dist_of(a) is Some && adj[a].contains(c as usize) && d.dist_of(c)->0
                        == d.dist_of(a)->0 + step_cost(self, c) by {
                assert(fin[c] is Some);
                let a = choose|a: int| 0 <= a < n && settled@[a] && adj[a].contains(c as usize) && fin[c]->0 == fin[a]->0 + step_cost(self, c);
                assert(d.dist_of(a) == fin[a]);
            }
            assert forall|i: int| 0 <= i < n implies (#[trigger] d.dist_of(i) is Some <==> reachable(self.adj(), r as int, i)) by {
                assert(d.dist_of(i) == fin[i]);
            }
            assert forall|i: int| #[trigger] d.dist_of(i) is Some implies d.dist_of(i)->0 >= 0 by {
                assert(d.dist_of(i) == fin[i]);
            }
            assert forall|i: int| 0 <= i < n && #[trigger] d.dist_of(i) is Some implies witnessed(self, r as int, i, d.dist_of(i)->0 as int) by {
                assert(d.dist_of(i) == fin[i]);
            }
        }
        d
    }
}

/// `p` records exactly the cells of one walk back from `goal` to the root of `d`, each with its
/// distance in `d`; every step of the walk follows a link to a cell strictly closer to the root.
pub open spec fn is_path_back(m: &GridMaze, d: &Distances, p: &Distances, goal: int) -> bool {
    let root = d.root_spec().pos_spec() as int;
    &&& p.root_spec() == d.root_spec()
    &&& p.dist_of(root) == Some(0i32)
    &&& p.dist_of(goal) == d.dist_of(goal)
    &&& p.dist_of(goal) is Some
    &&& forall|i: int| #[trigger] p.dist_of(i) is Some ==> p.dist_of(i) == d.dist_of(i)
    &&& exists|q: Seq<usize>| #[trigger] descent_chain(m, d, q, goal, root)
        && forall|i: int| #[trigger] p.dist_of(i) is Some <==> (0 <= i < m.n() && q.contains(i as usize))
}

/// `q` walks from `goal` to `root` along links, each step to a cell strictly closer to the root
/// in `d`.
pub open spec fn descent_chain(m: &GridMaze, d: &Distances, q: Seq<usize>, goal: int, root: int) -> bool {
    &&& q.len() >= 1
    &&& q[0] == goal
    &&& q.last() == root
    &&& forall|k: int| 0 <= k < q.len() ==> #[trigger] q[k] < m.n() && d.dist_of(q[k] as int) is Some
    &&& forall|k: int|
        0 <= k < q.len() - 1 ==> m.adj()[#[trigger] q[k] as int].contains(q[k + 1]) && d.dist_of(q[k + 1] as int)->0
            < d.dist_of(q[k] as int)->0
}

/// `p` records exactly the cells of `chain` and `s`.
pub open spec fn records(p: &Distances, chain: Seq<usize>, s: int, n: int) -> bool {
    forall|i: int| #[trigger] p.dist_of(i) is Some <==> ((0 <= i < n && chain.contains(i as usize)) || i == s)
}

/// Extending a descent by one closer linked cell.
proof fn lemma_extend_chain(m: &GridMaze, d: &Distances, chain: Seq<usize>, g: int, cur: int, a: usize)
    requires
        descent_chain(m, d, chain, g, cur),
        m.adj()[cur].contains(a),
        a < m.n(),
        d.dist_of(a as int) is Some,
        d.dist_of(a as int)->0 < d.dist_of(cur)->0,
    ensures
        descent_chain(m, d, chain.push(a), g, a as int),
{
    let c2 = chain.push(a);
    assert forall|k: int| 0 <= k < c2.len() implies #[trigger] c2[k] < m.n() && d.dist_of(c2[k] as int) is Some by {
        if k < chain.len() {
            assert(c2[k] == chain[k]);
        }
    }
    assert forall|k: int| 0 <= k < c2.len() - 1 implies m.adj()[#[trigger] c2[k] as int].contains(c2[k + 1])
        && d.dist_of(c2[k + 1] as int)->0 < d.dist_of(c2[k] as int)->0 by {
        assert(c2[k] == chain[k]);
        if k < chain.len() - 1 {
            assert(c2[k + 1] == chain[k + 1]);
        }
    }
    assert(c2[0] == chain[0]);
}

/// Recording one more cell of the descent.
proof fn lemma_record_step(prev: &Distances, path: &Distances, chain: Seq<usize>, s: int, n: int, a: usize)
    requires
        records(prev, chain, s, n),
        n <= usize::MAX,
        a < n,
        path.dist_of(a as int) is Some,
        forall|i: int| i != a ==> path.dist_of(i) == prev.dist_of(i),
    ensures
        records(path, chain.push(a), s, n),
{
    crate::links::lemma_push_contains(chain, a);
    assert forall|i: int| #[trigger] path.dist_of(i) is Some <==> ((0 <= i < n && chain.push(a).contains(i as usize)) || i == s) by {
        if i != a {
            assert(prev.dist_of(i) is Some <==> ((0 <= i < n && chain.contains(i as usize)) || i == s));
            if 0 <= i < n {
                assert(i as usize != a);
            }
        } else {
            assert(chain.push(a).contains(a));
        }
    }
}

/// Every weight is at least 1.
pub open spec fn weights_positive(m: &GridMaze) -> bool {
    forall|i: int| 0 <= i < m.n() ==> 1 <= #[trigger] m.weight_of(i)
}

#[verifier::rlimit(80)]
/// Finds a shortest path from `start` to `goal`: computes the distances from `start`, then
/// walks back from `goal`, each time to a linked neighbour strictly closer to `start`, and
/// records each cell it passes with its distance. `Unreachable` where `goal` has no distance
/// or the walk finds no closer neighbour; over symmetric links and positive weights the latter
/// never happens.
pub fn find_shortest_path(maze: &GridMaze, start: GridNode, goal: GridNode) -> (r: Result<Distances, MazeError>)
    requires
        maze.wf(),
        start.pos_spec() < maze.n(),
        goal.pos_spec() < maze.n(),
        weights_bounded(maze),
    ensures
        !reachable(maze.adj(), start.pos_spec() as int, goal.pos_spec() as int) ==> r == Err::<Distances, MazeError>(MazeError::Unreachable),
        r matches Err(e) ==> e == MazeError::Unreachable,
        r matches Ok(p) ==> exists|d: Distances| d.root_spec() == start && is_distance_map(maze, &d, start.pos_spec() as int)
            && is_path_back(maze, &d, &p, goal.pos_spec() as int),
        reachable(maze.adj(), start.pos_spec() as int, goal.pos_spec() as int) && symmetric(maze.adj())
            && weights_positive(maze) ==> r is Ok,
{
    proof {
        maze.lemma_wf();
    }
    let full = maze.distances(&start);
    let goal_d = match full.get(&goal) {
        None => {
            return Err(MazeError::Unreachable);
        },
        Some(d) => *d,
    };
    let s = start.pos();
    let mut path = Distances::new(start);
    path.insert(goal, goal_d);
    let mut cur = goal.pos();
    let mut cur_d = goal_d;
    let ghost g = goal.pos_spec() as int;
    let ghost mut chain: Seq<usize> = seq![cur];
    proof {
        assert(chain[0] == cur);
        assert(descent_chain(maze, &full, chain, g, cur as int));
        assert forall|i: int| #[trigger] path.dist_of(i) is Some <==> ((0 <= i < maze.n() && chain.contains(i as usize)) || i == s) by {
            if 0 <= i < maze.n() && chain.contains(i as usize) {
                assert(chain[0] == i as usize);
            }
            if i == g {
                assert(chain[0] == i as usize);
            }
        }
    }
    loop
        invariant
            maze.wf(),
            maze.n() <= usize::MAX,
            s == start.pos_spec(),
            s < maze.n(),
            cur < maze.n(),
            full.root_spec() == start,
            is_distance_map(maze, &full, s as int),
            path.root_spec() == start,
            path.dist_of(s as int) == Some(0i32),
            path.dist_of(g) == full.dist_of(g),
            path.dist_of(g) is Some,
            path.dist_of(cur as int) == Some(cur_d),
            full.dist_of(cur as int) == Some(cur_d),
            forall|i: int| #[trigger] path.dist_of(i) is Some ==> path.dist_of(i) == full.dist_of(i),
            descent_chain(maze, &full, chain, g, cur as int),
            records(&path, chain, s as int, maze.n()),
        ensures
            is_path_back(maze, &full, &path, g),
        decreases cur_d,
    {
        if cur == s {
            proof {
                assert(chain[chain.len() - 1] == s);
                assert forall|i: int| #[trigger] path.dist_of(i) is Some <==> (0 <= i < maze.n() && chain.contains(i as usize)) by {
                    assert(records(&path, chain, s as int, maze.n()));
                    if i == s {
                        assert(chain[chain.len() - 1] == s);
                    }
                }
            }
            break;
        }
        let ghost cur0 = cur;
        let ls = maze.get_links(&GridNode::new(cur, 0));
        let mut k: usize = 0;
        let mut next: Option<usize> = None;
        while k < ls.len()
            invariant
                maze.wf(),
                cur < maze.n(),
                k <= ls@.len(),
                ls@.len() == maze.adj()[cur as int].len(),
                forall|j: int| 0 <= j < ls@.len() ==> (#[trigger] ls@[j]).pos_spec() == maze.adj()[cur as int][j],
                next is None ==> forall|j: int| 0 <= j < k ==> !(full.dist_of(#[trigger] maze.adj()[cur as int][j] as int) is Some
                    && full.dist_of(maze.adj()[cur as int][j] as int)->0 < cur_d),
                next matches Some(a) ==> maze.adj()[cur as int].contains(a) && full.dist_of(a as int) is Some
                    && full.dist_of(a as int)->0 < cur_d,
            ensures
                next is None ==> forall|j: int| 0 <= j < ls@.len() ==> !(full.dist_of(#[trigger] maze.adj()[cur as int][j] as int) is Some
                    && full.dist_of(maze.adj()[cur as int][j] as int)->0 < cur_d),
                next matches Some(a) ==> maze.adj()[cur as int].contains(a) && full.dist_of(a as int) is Some
                    && full.dist_of(a as int)->0 < cur_d,
            decreases ls@.len() - k,
        {
            let a = ls[k].pos();
            if let Some(da) = full.get(&ls[k]) {
                if *da < cur_d {
                    next = Some(a);
                    assert(maze.adj()[cur as int][k as int] == a);
                    break;
                }
            }
            k = k + 1;
        }
        match next {
            None => {
                proof {
                    if symmetric(maze.adj()) && weights_positive(maze) {
                        lemma_descent_exists(maze, &full, s as int, cur as int);
                        let a = choose|a: int| 0 <= a < maze.n() && maze.adj()[cur as int].contains(a as usize) && full.dist_of(a) is Some
                            && full.dist_of(a)->0 < full.dist_of(cur as int)->0;
                        let j = choose|j: int| 0 <= j < maze.adj()[cur as int].len() && maze.adj()[cur as int][j] == a as usize;
                        assert(!(full.dist_of(maze.adj()[cur as int][j] as int) is Some
                            && full.dist_of(maze.adj()[cur as int][j] as int)->0 < cur_d));
                        assert(false);
                    }
                }
                return Err(MazeError::Unreachable);
            },
            Some(a) => {
                proof {
                    maze.lemma_wf();
                    let j = choose|j: int| 0 <= j < maze.adj()[cur as int].len() && maze.adj()[cur as int][j] == a;
                    assert(a < maze.n());
                }
                let da = *full.get(&GridNode::new(a, 0)).unwrap();
                let ghost prev = path;
                path.insert(GridNode::new(a, 0), da);
                proof {
                    lemma_extend_chain(maze, &full, chain, g, cur as int, a);
                    lemma_record_step(&prev, &path, chain, s as int, maze.n(), a);
                    chain = chain.push(a);
                    assert(full.dist_of(a as int)->0 >= 0);
                }
                cur = a;
                cur_d = da;
            },
        }
    }
    Ok(path)
}

/// Over symmetric links and positive weights, every reached cell but the root has a linked
/// neighbour strictly closer to the root.
proof fn lemma_descent_exists(m: &GridMaze, d: &Distances, root: int, c: int)
    requires
        m.wf(),
        is_distance_map(m, d, root),
        symmetric(m.adj()),
        weights_positive(m),
        0 <= c < m.n(),
        c != root,
        d.dist_of(c) is Some,
    ensures
        exists|a: int| 0 <= a < m.n() && m.adj()[c].contains(a as usize) && d.dist_of(a) is Some
            && d.dist_of(a)->0 < d.dist_of(c)->0,
{
    m.lemma_wf();
    let a = choose|a: int| 0 <= a < m.n() && d.dist_of(a) is Some && m.adj()[a].contains(c as usize) && d.dist_of(c)->0
        == d.dist_of(a)->0 + step_cost(m, c);
    let j = choose|j: int| 0 <= j < m.adj()[a].len() && m.adj()[a][j] == c as usize;
    assert(m.adj()[m.adj()[a][j] as int].contains(a as usize));
    assert(1 <= m.weight_of(c));
}

/// Settling `u` and relaxing its neighbours keeps the invariant of the settling loop.
#[verifier::rlimit(60)]
proof fn lemma_settle_step(
    m: &GridMaze,
    d0: Seq<Option<i32>>,
    s0: Seq<bool>,
    d1: Seq<Option<i32>>,
    s1: Seq<bool>,
    r: int,
    u: int,
    c: int,
    bound: int,
)
    requires
        m.wf(),
        weights_bounded(m),
        bound >= 0,
        m.n() * bound <= i32::MAX,
        forall|i: int| 0 <= i < m.n() ==> #[trigger] m.weight_of(i) <= bound,
        settle_inv(m, d0, s0, r, c, bound),
        0 <= u < m.n(),
        0 <= r < m.n(),
        !s0[u],
        d0[u] is Some,
        forall|j: int| 0 <= j < m.n() && !s0[j] && #[trigger] d0[j] is Some ==> d0[u]->0 <= d0[j]->0,
        s1 == s0.update(u, true),
        count_where(m.n(), |i: int| s1[i]) == c + 1,
        c + 1 <= m.n(),
        d1.len() == m.n(),
        forall|i: int| 0 <= i < m.n() && #[trigger] s1[i] ==> d1[i] == d0[i],
        forall|i: int| 0 <= i < m.n() && #[trigger] d0[i] is Some ==> d1[i] is Some && d1[i]->0 <= d0[i]->0,
        forall|i: int| 0 <= i < m.n() && #[trigger] d1[i] != d0[i] ==> !s1[i] && m.adj()[u].contains(i as usize)
            && d1[i] == Some((d0[u]->0 + m.weight_of(i)) as i32),
        forall|k: int| 0 <= k < m.adj()[u].len() ==> d1[#[trigger] m.adj()[u][k] as int] is Some
            && d1[m.adj()[u][k] as int]->0 <= d0[u]->0 + step_cost(m, m.adj()[u][k] as int),
    ensures
        settle_inv(m, d1, s1, r, c + 1, bound),
{
    let n = m.n();
    let adj = m.adj();
    let du = d0[u]->0;
    m.lemma_wf();
    assert(du <= c * bound);
    assert((c + 1) * bound <= n * bound && (c + 1) * bound == c * bound + bound) by (nonlinear_arith)
        requires
            c + 1 <= n,
            bound >= 0,
    ;
    assert forall|i: int| 0 <= i < n && #[trigger] d1[i] != d0[i] implies d1[i]->0 == du + m.weight_of(i) by {
        assert(m.weight_of(i) <= bound);
    }
    assert(c * bound <= (c + 1) * bound) by (nonlinear_arith)
        requires
            bound >= 0,
    ;
    assert forall|i: int| 0 <= i < n && #[trigger] d1[i] is Some implies 0 <= d1[i]->0 <= (c + 1) * bound by {
        if d1[i] != d0[i] {
            assert(du <= c * bound);
            assert(m.weight_of(i) <= bound);
            assert((c + 1) * bound == c * bound + bound) by (nonlinear_arith);
        }
    }
    assert(u != r ==> c > 0) by {
        if c == 0 && u != r {
            assert(d0[u] is None);
        }
    }
    assert forall|i: int, j: int|
        0 <= i < n && 0 <= j < n && #[trigger] s1[i] && !#[trigger] s1[j] && d1[j] is Some implies d1[i]->0 <= d1[j]->0 by {
        assert(d1[i] == d0[i]);
        if i != u {
            assert(s0[i]);
            assert(d0[i]->0 <= du);
        }
        if d1[j] != d0[j] {
            assert(0 <= m.weight_of(j));
        } else {
            assert(du <= d0[j]->0);
        }
    }
    assert forall|a: int, k: int|
        0 <= a < n && s1[a] && 0 <= k < adj[a].len() implies d1[#[trigger] adj[a][k] as int] is Some
            && d1[adj[a][k] as int]->0 <= d1[a]->0 + step_cost(m, adj[a][k] as int) by {
        if a != u {
            assert(s0[a]);
            assert(d0[adj[a][k] as int] is Some);
        }
    }
    assert forall|x: int|
        0 <= x < n && x != r && #[trigger] d1[x] is Some implies exists|a: int|
            0 <= a < n && s1[a] && adj[a].contains(x as usize) && d1[x]->0 == d1[a]->0 + step_cost(m, x) by {
        if d1[x] != d0[x] {
            assert(s1[u] && adj[u].contains(x as usize) && d1[u] == d0[u]);
        } else {
            let a = choose|a: int| 0 <= a < n && s0[a] && adj[a].contains(x as usize) && d0[x]->0 == d0[a]->0 + step_cost(m, x);
            assert(s1[a] && d1[a] == d0[a]);
        }
    }
    assert forall|x: int| 0 <= x < n && #[trigger] d1[x] is Some implies reachable(adj, r, x) by {
        if d1[x] != d0[x] {
            assert(d0[u] is Some);
            lemma_reach_step(adj, r, u, x as usize);
        } else {
            assert(d0[x] is Some);
        }
    }
    assert(s1[r]) by {
        if c == 0 {
            assert(u == r) by {
                if u != r {
                    assert(d0[u] is None);
                }
            }
        } else {
            assert(s0[r]);
        }
    }
    assert(d1[r] == Some(0i32)) by {
        assert(s1[r]);
    }
}

/// Every weight of a bounded maze is at most `i32::MAX / n`.
proof fn lemma_weight_fits_all(m: &GridMaze, n: int, bound: int)
    requires
        weights_bounded(m),
        n == m.n(),
        n >= 1,
        bound == i32::MAX as int / n,
    ensures
        forall|i: int| 0 <= i < n ==> #[trigger] m.weight_of(i) <= bound,
        bound >= 0,
{
    assert forall|i: int| 0 <= i < n implies #[trigger] m.weight_of(i) <= bound by {
        lemma_weight_fits(m.weight_of(i) as int, n, bound);
    }
}

/// A vector of `false` has no `true` to count.
proof fn lemma_count_none(s: Seq<bool>, n: int)
    requires
        s.len() == n,
        forall|k: int| 0 <= k < n ==> !#[trigger] s[k],
    ensures
        count_where(n, |i: int| s[i]) == 0,
    decreases n,
{
    if n > 0 {
        lemma_count_none(s.drop_last(), n - 1);
        crate::counting::lemma_count_eq(n - 1, |i: int| s.drop_last()[i], |i: int| s[i]);
    }
}

/// A weight `w` with `w * n <= i32::MAX` is at most `i32::MAX / n`.
proof fn lemma_weight_fits(w: int, n: int, bound: int)
    requires
        n >= 1,
        0 <= w,
        w * n <= i32::MAX,
        bound == i32::MAX as int / n,
    ensures
        w <= bound,
{
    assert(w <= bound) by (nonlinear_arith)
        requires
            n >= 1,
            0 <= w,
            w * n <= i32::MAX,
            bound == i32::MAX as int / n,
    ;
}

} // verus!
