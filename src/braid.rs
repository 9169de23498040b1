//! Braiding: turning dead ends into loops by carving extra passages.
use vstd::prelude::*;
use crate::counting::lemma_count_strict;
use crate::links::{linked, add_link, 
    LinkTable, adjacent, links_adjacent, links_grow, symmetric, simple, is_dead_end,
    dead_end_count, north_of, south_of, east_of, west_of, lemma_adjacent_symmetric,
};
use crate::random::{random_ratio, pick, shuffle};
use crate::paths::{connected, lemma_connected_grow};

verus! {

/// Every cell has at least one link.
pub open spec fn all_linked(adj: Seq<Seq<usize>>) -> bool {
    forall|i: int| 0 <= i < adj.len() ==> (#[trigger] adj[i]).len() >= 1
}

/// In a grid of at least two rows and two columns every cell has a vertical and a horizontal
/// neighbour.
pub proof fn lemma_two_neighbors(rows: int, cols: int, i: int)
    requires
        rows >= 2,
        cols >= 2,
        0 <= i < rows * cols,
    ensures
        north_of(cols, i) is Some || south_of(rows * cols, cols, i) is Some,
        east_of(rows * cols, cols, i) is Some || west_of(cols, i) is Some,
{
    let n = rows * cols;
    if i < cols {
        assert(n >= 2 * cols) by (nonlinear_arith)
            requires
                rows >= 2,
                cols >= 0,
                n == rows * cols,
        ;
    }
    if i % cols == 0 {
        let q = i / cols;
        assert(i + 1 < n) by (nonlinear_arith)
            requires
                cols >= 2,
                0 <= i < n,
                n == rows * cols,
                q == i / cols,
                i % cols == 0,
        {
            assert(i == q * cols + i % cols);
            assert(q < rows) by {
                if q >= rows {
                    assert(q * cols >= rows * cols);
                }
            }
            assert(q * cols <= (rows - 1) * cols);
        }
    }
}

/// Linking a dead end to a cell that already had a link removes at least that dead end and
/// adds none.
proof fn lemma_link_dead_end(adj: Seq<Seq<usize>>, adj2: Seq<Seq<usize>>, p: int, q: int)
    requires
        0 <= p < adj.len(),
        0 <= q < adj.len(),
        p != q,
        is_dead_end(adj, p),
        all_linked(adj),
        !adj[p].contains(q as usize),
        adj2 == linked(adj, p, q, true),
    ensures
        all_linked(adj2),
        dead_end_count(adj2) < dead_end_count(adj),
{
    let f = |i: int| is_dead_end(adj, i);
    let g = |i: int| is_dead_end(adj2, i);
    assert(adj2[p] == adj[p].push(q as usize));
    assert(adj2[q] == add_link(adj[q], p as usize));
    assert forall|i: int| 0 <= i < adj.len() && #[trigger] g(i) implies f(i) by {
        if i == q {
            if !adj[q].contains(p as usize) {
                assert(adj2[q].len() == adj[q].len() + 1);
            }
        }
    }
    assert(!g(p));
    lemma_count_strict(adj.len() as int, f, g, p);
    assert forall|i: int| 0 <= i < adj2.len() implies (#[trigger] adj2[i]).len() >= 1 by {
        assert(adj[i].len() >= 1);
    }
}

impl LinkTable {
    /// Braids the maze: visits the dead ends in random order and, with probability
    /// `numerator / denominator`, links each one that is still a dead end to a structural
    /// neighbour it is not linked to, preferring a neighbour that is itself a dead end.
    pub fn braid(&mut self, numerator: u32, denominator: u32)
        requires
            old(self).wf(),
            0 < denominator,
            numerator <= denominator,
        ensures
            final(self).wf(),
            final(self).rows() == old(self).rows(),
            final(self).cols() == old(self).cols(),
            links_grow(old(self)@, final(self)@),
            connected(old(self)@) ==> connected(final(self)@),
            links_adjacent(old(self)@, old(self).cols() as int) ==> links_adjacent(
                final(self)@,
                final(self).cols() as int,
            ),
            symmetric(old(self)@) ==> symmetric(final(self)@),
            simple(final(self)@),
            all_linked(old(self)@) ==> all_linked(final(self)@) && dead_end_count(final(self)@)
                <= dead_end_count(old(self)@),
            all_linked(old(self)@) && numerator == denominator && old(self).rows() >= 2
                && old(self).cols() >= 2 && dead_end_count(old(self)@) > 0 ==> dead_end_count(
                final(self)@,
            ) < dead_end_count(old(self)@),
            all_linked(old(self)@) && numerator == denominator && old(self).rows() >= 2
                && old(self).cols() >= 2 ==> dead_end_count(final(self)@) == 0,
            forall|a: int, b: usize|
                0 <= a < old(self)@.len() && #[trigger] final(self)@[a].contains(b) && !old(self)@[a].contains(b)
                    ==> is_dead_end(old(self)@, a) || is_dead_end(old(self)@, b as int),
    {
        let ghost start = self@;
        let ghost cols = self.cols() as int;
        let ghost n = self.n();
        proof {
            self.lemma_wf();
        }
        let mut dead = self.dead_ends();
        let ghost dead0 = dead@;
        shuffle(&mut dead);
        assert forall|k: int| 0 <= k < dead@.len() implies #[trigger] dead@[k] < n && is_dead_end(
            start,
            dead@[k] as int,
        ) by {
            dead@.to_multiset_ensures();
            dead0.to_multiset_ensures();
            assert(dead@.contains(dead@[k]));
            assert(dead@.to_multiset().count(dead@[k]) > 0);
            assert(dead0.to_multiset().count(dead@[k]) > 0);
            assert(dead0.contains(dead@[k]));
        }
        let mut k: usize = 0;
        let ghost mut linked_any = false;
        while k < dead.len()
            invariant
                self.wf(),
                self.rows() == old(self).rows(),
                self.cols() == old(self).cols(),
                start == old(self)@,
                0 < denominator,
                numerator <= denominator,
                n == self.n(),
                cols == self.cols(),
                k <= dead@.len(),
                dead@.len() == dead_end_count(start),
                forall|j: int| 0 <= j < dead@.len() ==> #[trigger] dead@[j] < n && is_dead_end(
                    start,
                    dead@[j] as int,
                ),
                links_grow(start, self@),
                links_adjacent(start, cols) ==> links_adjacent(self@, cols),
                symmetric(start) ==> symmetric(self@),
                !linked_any ==> self@ == start,
                all_linked(start) ==> all_linked(self@) && dead_end_count(self@) + (if linked_any {
                    1int
                } else {
                    0int
                }) <= dead_end_count(start),
                all_linked(start) && numerator == denominator && self.rows() >= 2 && self.cols()
                    >= 2 && k > 0 ==> linked_any,
                self@.len() == start.len(),
                forall|i: int| 0 <= i < n ==> #[trigger] self@[i].len() >= start[i].len(),
                all_linked(start) && numerator == denominator && self.rows() >= 2 && self.cols() >= 2
                    ==> forall|j: int| 0 <= j < k ==> #[trigger] self@[dead@[j] as int].len() >= 2,
                forall|a: int, b: usize|
                    0 <= a < n && #[trigger] self@[a].contains(b) && !start[a].contains(b)
                        ==> is_dead_end(start, a) || is_dead_end(start, b as int),
            decreases dead@.len() - k,
        {
            let p = dead[k];
            if self.degree(p) == 1 && random_ratio(numerator, denominator) {
                let nbrs = self.neighbors(p);
                let mut unlinked: Vec<usize> = Vec::new();
                let mut j: usize = 0;
                while j < nbrs.len()
                    invariant
                        self.wf(),
                        p < self.n(),
                        j <= nbrs@.len(),
                        forall|m: int| 0 <= m < nbrs@.len() ==> #[trigger] nbrs@[m] < self.n(),
                        forall|q: usize| #[trigger] unlinked@.contains(q) ==> adjacent(self.n(), self.cols() as int, p as int, q as int) && !self@[p as int].contains(q),
                        forall|m: int| 0 <= m < j && !self@[p as int].contains(#[trigger] nbrs@[m]) ==> unlinked@.contains(nbrs@[m]),
                        forall|q: usize| #[trigger] nbrs@.contains(q) <==> adjacent(self.n(), self.cols() as int, p as int, q as int),
                    decreases nbrs@.len() - j,
                {
                    let q = nbrs[j];
                    let ghost u0 = unlinked@;
                    if !self.contains(p, q) {
                        unlinked.push(q);
                        assert(unlinked@[unlinked@.len() - 1] == q);
                    }
                    assert(nbrs@[j as int] == q);
                    assert(nbrs@.contains(q));
                    assert forall|q2: usize| #[trigger] unlinked@.contains(q2) implies adjacent(self.n(), self.cols() as int, p as int, q2 as int) && !self@[p as int].contains(q2) by {
                        if !u0.contains(q2) {
                            let m = choose|m: int| 0 <= m < unlinked@.len() && unlinked@[m] == q2;
                            if m < u0.len() {
                                assert(u0[m] == q2);
                            }
                        }
                    }
                    assert forall|m: int| 0 <= m < j + 1 && !self@[p as int].contains(#[trigger] nbrs@[m]) implies unlinked@.contains(nbrs@[m]) by {
                        if m < j {
                            let x = choose|x: int| 0 <= x < u0.len() && u0[x] == nbrs@[m];
                            assert(unlinked@[x] == nbrs@[m]);
                        }
                    }
                    j = j + 1;
                }
                let mut best: Vec<usize> = Vec::new();
                let mut j: usize = 0;
                while j < unlinked.len()
                    invariant
                        self.wf(),
                        p < self.n(),
                        j <= unlinked@.len(),
                        forall|q: usize| #[trigger] unlinked@.contains(q) ==> adjacent(self.n(), self.cols() as int, p as int, q as int) && !self@[p as int].contains(q),
                        forall|q: usize| #[trigger] best@.contains(q) ==> unlinked@.contains(q),
                    decreases unlinked@.len() - j,
                {
                    let q = unlinked[j];
                    assert(unlinked@.contains(q));
                    let ghost b0 = best@;
                    if self.degree(q) == 1 {
                        best.push(q);
                    }
                    assert forall|q2: usize| #[trigger] best@.contains(q2) implies unlinked@.contains(q2) by {
                        if !b0.contains(q2) {
                            let m = choose|m: int| 0 <= m < best@.len() && best@[m] == q2;
                            if m < b0.len() {
                                assert(b0[m] == q2);
                            }
                        }
                    }
                    j = j + 1;
                }
                if best.len() == 0 {
                    best = unlinked;
                }
                if let Some(q) = pick(&best) {
                    assert(unlinked@.contains(q));
                    let ghost before = self@;
                    proof {
                        self.lemma_wf();
                        lemma_adjacent_symmetric(n, cols, p as int, q as int);
                        assert(p != q);
                    }
                    self.link(p, q, true);
                    assert(self@ == linked(before, p as int, q as int, true));
                    assert(self@[p as int] == before[p as int].push(q));
                    assert(self@[q as int] == add_link(before[q as int], p));
                    proof {
                        lemma_link_preserves(before, self@, n, cols, p as int, q as int);
                        assert forall|a: int, b: usize| 0 <= a < start.len() && #[trigger] start[a].contains(b) implies #[trigger] self@[a].contains(b) by {
                            assert(before[a].contains(b));
                        }
                        if all_linked(start) {
                            lemma_link_dead_end(before, self@, p as int, q as int);
                        }
                        linked_any = true;
                        assert(self@[p as int].len() == 2);
                        assert forall|a: int, b: usize|
                            0 <= a < n && #[trigger] self@[a].contains(b) && !start[a].contains(b)
                                implies is_dead_end(start, a) || is_dead_end(start, b as int) by {
                            if !before[a].contains(b) {
                                if a != p as int && a != q as int {
                                    assert(self@[a] == before[a]);
                                } else if a == q as int && before[a].contains(p) {
                                    assert(self@[a] == before[a]);
                                } else {
                                    let s0 = before[a];
                                    let x: usize = if a == p as int { q } else { p };
                                    assert(self@[a] == s0.push(x));
                                    crate::links::lemma_push_contains(s0, x);
                                    assert(b == x);
                                }
                            }
                        }
                    }
                } else {
                    proof {
                        if all_linked(start) && numerator == denominator && self.rows() >= 2
                            && self.cols() >= 2 {
                            self.lemma_wf();
                            lemma_two_neighbors(self.rows() as int, cols, p as int);
                            lemma_not_all_linked(self@, n, cols, p as int);
                            let q = choose|q: usize| adjacent(n, cols, p as int, q as int) && !self@[p as int].contains(q);
                            assert(nbrs@.contains(q));
                            let m = choose|m: int| 0 <= m < nbrs@.len() && nbrs@[m] == q;
                            assert(unlinked@.contains(nbrs@[m]));
                        }
                    }
                }
            }
            proof {
                if all_linked(start) && numerator == denominator && self.rows() >= 2 && self.cols() >= 2 {
                    assert(self@[p as int].len() >= 2);
                }
            }
            k = k + 1;
        }
        proof {
            self.lemma_wf();
            if all_linked(start) && numerator == denominator && self.rows() >= 2 && self.cols() >= 2
                && dead_end_count(start) > 0 {
                assert(linked_any);
            }
            if all_linked(start) && numerator == denominator && self.rows() >= 2 && self.cols() >= 2 {
                let f = |i: int| is_dead_end(self@, i);
                assert forall|i: int| 0 <= i < n && #[trigger] f(i) implies false by {
                    assert(start[i].len() >= 1);
                    assert(is_dead_end(start, i));
                    assert(dead0.contains(i as usize));
                    dead@.to_multiset_ensures();
                    dead0.to_multiset_ensures();
                    assert(dead0.to_multiset().count(i as usize) > 0);
                    assert(dead@.contains(i as usize));
                    let j = choose|j: int| 0 <= j < dead@.len() && dead@[j] == i as usize;
                    assert(self@[dead@[j] as int].len() >= 2);
                }
                crate::counting::lemma_count_mono(n, |i: int| false, f);
                crate::perfect::lemma_count_zero(n);
            }
            if connected(start) {
                lemma_connected_grow(start, self@);
            }
        }
    }
}

/// A dead end with a vertical and a horizontal neighbour has a neighbour it does not link to.
proof fn lemma_not_all_linked(adj: Seq<Seq<usize>>, n: int, cols: int, p: int)
    requires
        n == adj.len(),
        n <= usize::MAX,
        0 <= p < n,
        cols >= 2,
        is_dead_end(adj, p),
        north_of(cols, p) is Some || south_of(n, cols, p) is Some,
        east_of(n, cols, p) is Some || west_of(cols, p) is Some,
    ensures
        exists|q: usize| adjacent(n, cols, p, q as int) && !adj[p].contains(q),
{
    let v: int = if north_of(cols, p) is Some { p - cols } else { p + cols };
    let h: int = if east_of(n, cols, p) is Some { p + 1 } else { p - 1 };
    if east_of(n, cols, p) is None {
        assert(p > 0) by {
            if p == 0 {
                assert(0int % cols == 0);
            }
        }
    }
    assert(adjacent(n, cols, p, v));
    assert(adjacent(n, cols, p, h));
    assert(v != h);
    assert(adj[p].contains(v as usize) ==> adj[p][0] == v as usize);
    assert(adj[p].contains(h as usize) ==> adj[p][0] == h as usize);
    if !adj[p].contains(v as usize) {
        assert(adjacent(n, cols, p, (v as usize) as int));
    } else {
        assert(!adj[p].contains(h as usize));
        assert(adjacent(n, cols, p, (h as usize) as int));
    }
}

/// Adding the link pair p <-> q between neighbours with no link yet keeps the table's
/// shape properties.
proof fn lemma_link_preserves(
    adj: Seq<Seq<usize>>,
    adj2: Seq<Seq<usize>>,
    n: int,
    cols: int,
    p: int,
    q: int,
)
    requires
        n == adj.len(),
        n <= usize::MAX,
        cols > 0,
        adjacent(n, cols, p, q),
        adjacent(n, cols, q, p),
        !adj[p].contains(q as usize),
        adj2 == linked(adj, p, q, true),
    ensures
        links_grow(adj, adj2),
        links_adjacent(adj, cols) ==> links_adjacent(adj2, cols),
        symmetric(adj) ==> symmetric(adj2),
{
    assert(p != q) by {
        if p == q {
            assert(false);
        }
    }
    assert(adj2[p] == adj[p].push(q as usize));
    assert(adj2[q] == add_link(adj[q], p as usize));
    assert forall|a: int, b: usize| 0 <= a < adj.len() && #[trigger] adj[a].contains(b) implies #[trigger] adj2[a].contains(b) by {
        let m = choose|m: int| 0 <= m < adj[a].len() && adj[a][m] == b;
        assert(adj2[a][m] == b);
    }
    if links_adjacent(adj, cols) {
        assert forall|a: int, j: int| 0 <= a < adj2.len() && 0 <= j < adj2[a].len() implies adjacent(
            adj2.len() as int,
            cols,
            a,
            #[trigger] adj2[a][j] as int,
        ) by {
            if a == p && j == adj[p].len() {
                assert(adj2[a][j] == q);
            } else if a == q && j == adj[q].len() {
                assert(adj2[q] == adj[q].push(p as usize));
                assert(adj2[a][j] == p);
            } else {
                assert(adj2[a][j] == adj[a][j]);
            }
        }
    }
    if symmetric(adj) {
        assert(!adj[q].contains(p as usize)) by {
            if adj[q].contains(p as usize) {
                let m = choose|m: int| 0 <= m < adj[q].len() && adj[q][m] == p as usize;
                assert(adj[adj[q][m] as int].contains(q as usize));
            }
        }
        assert forall|a: int, j: int| 0 <= a < adj2.len() && 0 <= j < adj2[a].len() implies #[trigger] adj2[a][j] < adj2.len()
            && adj2[adj2[a][j] as int].contains(a as usize) by {
            if a == p && j == adj[p].len() {
                assert(adj2[q][adj[q].len() as int] == p as usize);
            } else if a == q && j == adj[q].len() {
                assert(adj2[p][adj[p].len() as int] == q as usize);
            } else {
                assert(adj2[a][j] == adj[a][j]);
                assert(adj[adj[a][j] as int].contains(a as usize));
            }
        }
    }
}

} // verus!
