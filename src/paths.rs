//! Paths along recorded links, reachability and connectivity.
use vstd::prelude::*;
use crate::links::{links_grow, symmetric};

verus! {

/// `p` is a walk through the grid that follows recorded links.
pub open spec fn is_path(adj: Seq<Seq<usize>>, p: Seq<usize>) -> bool {
    &&& p.len() >= 1
    &&& forall|i: int| 0 <= i < p.len() ==> #[trigger] p[i] < adj.len()
    &&& forall|i: int| 0 <= i < p.len() - 1 ==> adj[#[trigger] p[i] as int].contains(p[i + 1])
}

/// Cell `b` can be reached from cell `a` by following links.
pub open spec fn reachable(adj: Seq<Seq<usize>>, a: int, b: int) -> bool {
    exists|p: Seq<usize>| #[trigger] is_path(adj, p) && p[0] == a && p.last() == b
}

/// Every cell can be reached from every other cell.
pub open spec fn connected(adj: Seq<Seq<usize>>) -> bool {
    forall|a: int, b: int| 0 <= a < adj.len() && 0 <= b < adj.len() ==> #[trigger] reachable(adj, a, b)
}

/// Every cell reaches itself.
pub proof fn lemma_reach_self(adj: Seq<Seq<usize>>, a: int)
    requires
        0 <= a < adj.len(),
        adj.len() <= usize::MAX + 1,
    ensures
        reachable(adj, a, a),
{
    let p = seq![a as usize];
    assert(is_path(adj, p));
}

/// A reachable cell's link leads to a reachable cell.
pub proof fn lemma_reach_step(adj: Seq<Seq<usize>>, a: int, b: int, c: usize)
    requires
        reachable(adj, a, b),
        0 <= b < adj.len(),
        adj[b].contains(c),
        c < adj.len(),
    ensures
        reachable(adj, a, c as int),
{
    let p = choose|p: Seq<usize>| #[trigger] is_path(adj, p) && p[0] == a && p.last() == b;
    let q = p.push(c);
    assert forall|i: int| 0 <= i < q.len() - 1 implies adj[#[trigger] q[i] as int].contains(q[i + 1]) by {
        if i < p.len() - 1 {
            assert(q[i] == p[i] && q[i + 1] == p[i + 1]);
        } else {
            assert(q[i] == p.last());
        }
    }
    assert forall|i: int| 0 <= i < q.len() implies #[trigger] q[i] < adj.len() by {
        if i < p.len() {
            assert(q[i] == p[i]);
        }
    }
    assert(is_path(adj, q));
}

/// Paths survive the addition of links.
pub proof fn lemma_reach_grow(adj: Seq<Seq<usize>>, adj2: Seq<Seq<usize>>, a: int, b: int)
    requires
        reachable(adj, a, b),
        links_grow(adj, adj2),
    ensures
        reachable(adj2, a, b),
{
    let p = choose|p: Seq<usize>| #[trigger] is_path(adj, p) && p[0] == a && p.last() == b;
    assert forall|i: int| 0 <= i < p.len() - 1 implies adj2[#[trigger] p[i] as int].contains(p[i + 1]) by {
        assert(adj[p[i] as int].contains(p[i + 1]));
    }
    assert(is_path(adj2, p));
}

/// Reachability is transitive.
pub proof fn lemma_reach_trans(adj: Seq<Seq<usize>>, a: int, b: int, c: int)
    requires
        reachable(adj, a, b),
        reachable(adj, b, c),
    ensures
        reachable(adj, a, c),
{
    let p = choose|p: Seq<usize>| #[trigger] is_path(adj, p) && p[0] == a && p.last() == b;
    let q = choose|q: Seq<usize>| #[trigger] is_path(adj, q) && q[0] == b && q.last() == c;
    let r = p + q.drop_first();
    assert forall|i: int| 0 <= i < r.len() implies #[trigger] r[i] < adj.len() by {
        if i >= p.len() {
            assert(r[i] == q[i - p.len() + 1]);
        }
    }
    assert forall|i: int| 0 <= i < r.len() - 1 implies adj[#[trigger] r[i] as int].contains(r[i + 1]) by {
        if i < p.len() - 1 {
            assert(r[i] == p[i] && r[i + 1] == p[i + 1]);
        } else if i == p.len() - 1 {
            assert(r[i] == q[0]);
            assert(r[i + 1] == q[1]);
        } else {
            assert(r[i] == q[i - p.len() + 1]);
            assert(r[i + 1] == q[i - p.len() + 2]);
        }
    }
    assert(is_path(adj, r));
    if q.len() == 1 {
        assert(r =~= p);
    } else {
        assert(r.last() == q.last());
    }
}

/// Over symmetric links, reachability is symmetric.
pub proof fn lemma_reach_symmetric(adj: Seq<Seq<usize>>, a: int, b: int)
    requires
        symmetric(adj),
        reachable(adj, a, b),
    ensures
        reachable(adj, b, a),
{
    let p = choose|p: Seq<usize>| #[trigger] is_path(adj, p) && p[0] == a && p.last() == b;
    let r = p.reverse();
    assert forall|i: int| 0 <= i < r.len() implies #[trigger] r[i] < adj.len() by {
        assert(r[i] == p[p.len() - 1 - i]);
    }
    assert forall|i: int| 0 <= i < r.len() - 1 implies adj[#[trigger] r[i] as int].contains(r[i + 1]) by {
        let j = p.len() - 2 - i;
        assert(r[i] == p[j + 1]);
        assert(r[i + 1] == p[j]);
        assert(adj[p[j] as int].contains(p[j + 1]));
        let k = choose|k: int| 0 <= k < adj[p[j] as int].len() && adj[p[j] as int][k] == p[j + 1];
        assert(adj[adj[p[j] as int][k] as int].contains(p[j]));
    }
    assert(is_path(adj, r));
}

/// Over symmetric links, a cell that reaches every cell makes the grid connected.
pub proof fn lemma_connected_from(adj: Seq<Seq<usize>>, root: int)
    requires
        symmetric(adj),
        0 <= root < adj.len(),
        forall|c: int| 0 <= c < adj.len() ==> #[trigger] reachable(adj, root, c),
    ensures
        connected(adj),
{
    assert forall|a: int, b: int| 0 <= a < adj.len() && 0 <= b < adj.len() implies #[trigger] reachable(adj, a, b) by {
        assert(reachable(adj, root, a));
        assert(reachable(adj, root, b));
        lemma_reach_symmetric(adj, root, a);
        lemma_reach_trans(adj, a, root, b);
    }
}

/// Adding links never disconnects.
pub proof fn lemma_connected_grow(adj: Seq<Seq<usize>>, adj2: Seq<Seq<usize>>)
    requires
        connected(adj),
        links_grow(adj, adj2),
    ensures
        connected(adj2),
{
    assert forall|a: int, b: int| 0 <= a < adj2.len() && 0 <= b < adj2.len() implies #[trigger] reachable(adj2, a, b) by {
        assert(reachable(adj, a, b));
        lemma_reach_grow(adj, adj2, a, b);
    }
}

/// A set of cells that holds `a` and is closed under links holds every cell `a` reaches.
pub proof fn lemma_closed_reach(adj: Seq<Seq<usize>>, s: spec_fn(int) -> bool, a: int, b: int)
    requires
        s(a),
        forall|x: int, k: int| 0 <= x < adj.len() && s(x) && 0 <= k < adj[x].len() ==> #[trigger] s(adj[x][k] as int),
        reachable(adj, a, b),
    ensures
        s(b),
{
    let p = choose|p: Seq<usize>| #[trigger] is_path(adj, p) && p[0] == a && p.last() == b;
    lemma_closed_path(adj, s, p, p.len() - 1);
}

proof fn lemma_closed_path(adj: Seq<Seq<usize>>, s: spec_fn(int) -> bool, p: Seq<usize>, i: int)
    requires
        is_path(adj, p),
        s(p[0] as int),
        forall|x: int, k: int| 0 <= x < adj.len() && s(x) && 0 <= k < adj[x].len() ==> #[trigger] s(adj[x][k] as int),
        0 <= i < p.len(),
    ensures
        s(p[i] as int),
    decreases i,
{
    if i > 0 {
        lemma_closed_path(adj, s, p, i - 1);
        let x = p[i - 1] as int;
        assert(adj[x].contains(p[i]));
        let k = choose|k: int| 0 <= k < adj[x].len() && adj[x][k] == p[i];
        assert(s(adj[x][k] as int));
    }
}

/// A cell that reaches another cell has a link.
pub proof fn lemma_reach_leaves(adj: Seq<Seq<usize>>, a: int, b: int)
    requires
        reachable(adj, a, b),
        a != b,
    ensures
        adj[a].len() > 0,
{
    let p = choose|p: Seq<usize>| #[trigger] is_path(adj, p) && p[0] == a && p.last() == b;
    assert(p.len() > 1);
    assert(adj[p[0] as int].contains(p[1]));
}

} // verus!
