//! The link table: which structurally adjacent cells of a rectangular grid have had a
//! passage carved between them. Cells are addressed by their row-major index.
use vstd::prelude::*;
use vstd::arithmetic::div_mod::lemma_fundamental_div_mod_converse;
use crate::counting::count_where;

verus! {

/// The cell north of cell `i`, in a grid of `cols` columns.
pub open spec fn north_of(cols: int, i: int) -> Option<int> {
    if i >= cols {
        Some(i - cols)
    } else {
        None
    }
}

/// The cell south of cell `i`, in a grid of `n` cells and `cols` columns.
pub open spec fn south_of(n: int, cols: int, i: int) -> Option<int> {
    if i + cols < n {
        Some(i + cols)
    } else {
        None
    }
}

/// The cell east of cell `i`, in a grid of `n` cells and `cols` columns.
pub open spec fn east_of(n: int, cols: int, i: int) -> Option<int> {
    if i % cols != cols - 1 && i + 1 < n {
        Some(i + 1)
    } else {
        None
    }
}

/// The cell west of cell `i`, in a grid of `cols` columns.
pub open spec fn west_of(cols: int, i: int) -> Option<int> {
    if i % cols != 0 {
        Some(i - 1)
    } else {
        None
    }
}

/// The exec answer `r` names the cell `o` of the spec, or no cell where `o` names none.
pub open spec fn same_cell(r: Option<usize>, o: Option<int>) -> bool {
    match r {
        Some(j) => o == Some(j as int),
        None => o is None,
    }
}

/// Cells `a` and `b` are structural neighbours in a grid of `n` cells and `cols` columns.
pub open spec fn adjacent(n: int, cols: int, a: int, b: int) -> bool {
    &&& 0 <= a < n
    &&& {
        ||| north_of(cols, a) == Some(b)
        ||| south_of(n, cols, a) == Some(b)
        ||| east_of(n, cols, a) == Some(b)
        ||| west_of(cols, a) == Some(b)
    }
}

/// Structural adjacency is symmetric.
pub proof fn lemma_adjacent_symmetric(n: int, cols: int, a: int, b: int)
    requires
        cols > 0,
        adjacent(n, cols, a, b),
    ensures
        adjacent(n, cols, b, a),
{
    if east_of(n, cols, a) == Some(b) {
        let q = a / cols;
        let k = a % cols;
        assert(a == q * cols + k) by (nonlinear_arith)
            requires
                cols > 0,
                q == a / cols,
                k == a % cols,
        ;
        lemma_fundamental_div_mod_converse(b, cols, q, k + 1);
    } else if west_of(cols, a) == Some(b) {
        let q = a / cols;
        let k = a % cols;
        assert(a == q * cols + k && 0 <= k < cols) by (nonlinear_arith)
            requires
                cols > 0,
                q == a / cols,
                k == a % cols,
        ;
        lemma_fundamental_div_mod_converse(b, cols, q, k - 1);
    }
}

/// A structural neighbour lies in the grid.
pub proof fn lemma_adjacent_in_range(n: int, cols: int, a: int, b: int)
    requires
        cols > 0,
        adjacent(n, cols, a, b),
    ensures
        0 <= b < n,
        a != b,
{
    if west_of(cols, a) == Some(b) {
        if a == 0 {
            assert(0int % cols == 0);
        }
    }
}

/// The cell that `o` names, as a sequence of zero or one cells.
pub open spec fn idx_seq(o: Option<int>) -> Seq<usize> {
    match o {
        Some(j) => seq![j as usize],
        None => Seq::empty(),
    }
}

/// The structural neighbours of cell `i` in the order north, east, south, west.
pub open spec fn compass(n: int, cols: int, i: int) -> Seq<usize> {
    idx_seq(north_of(cols, i)) + idx_seq(east_of(n, cols, i)) + idx_seq(south_of(n, cols, i)) + idx_seq(west_of(cols, i))
}

/// The number of structural neighbours of cell `i`.
pub open spec fn degree_of(n: int, cols: int, i: int) -> int {
    (if north_of(cols, i) is Some { 1int } else { 0int }) + (if south_of(n, cols, i) is Some { 1int } else { 0int })
        + (if east_of(n, cols, i) is Some { 1int } else { 0int }) + (if west_of(cols, i) is Some { 1int } else { 0int })
}

/// Every link recorded in `adj` joins structural neighbours.
pub open spec fn links_adjacent(adj: Seq<Seq<usize>>, cols: int) -> bool {
    forall|a: int, j: int|
        0 <= a < adj.len() && 0 <= j < adj[a].len() ==> adjacent(
            adj.len() as int,
            cols,
            a,
            #[trigger] adj[a][j] as int,
        )
}

/// Every link a -> b is matched by a link b -> a.
pub open spec fn symmetric(adj: Seq<Seq<usize>>) -> bool {
    forall|a: int, j: int|
        0 <= a < adj.len() && 0 <= j < adj[a].len() ==> #[trigger] adj[a][j] < adj.len()
            && adj[adj[a][j] as int].contains(a as usize)
}

/// No link is recorded twice.
pub open spec fn simple(adj: Seq<Seq<usize>>) -> bool {
    forall|a: int| 0 <= a < adj.len() ==> (#[trigger] adj[a]).no_duplicates()
}

/// Every recorded link points at a cell of the grid.
pub open spec fn in_bounds(adj: Seq<Seq<usize>>) -> bool {
    forall|a: int, j: int|
        0 <= a < adj.len() && 0 <= j < adj[a].len() ==> #[trigger] adj[a][j] < adj.len()
}

/// Every link of `adj` is also a link of `adj2`.
pub open spec fn links_grow(adj: Seq<Seq<usize>>, adj2: Seq<Seq<usize>>) -> bool {
    &&& adj2.len() == adj.len()
    &&& forall|a: int, b: usize| 0 <= a < adj.len() && #[trigger] adj[a].contains(b) ==> #[trigger] adj2[a].contains(b)
}

/// Cell `i` is a dead end: exactly one link leaves it.
pub open spec fn is_dead_end(adj: Seq<Seq<usize>>, i: int) -> bool {
    adj[i].len() == 1
}

/// The number of dead ends.
pub open spec fn dead_end_count(adj: Seq<Seq<usize>>) -> nat {
    count_where(adj.len() as int, |i: int| is_dead_end(adj, i))
}

/// Recording the link pair `f -> t`, `t -> f` between neighbours keeps the links between
/// neighbours and in matching pairs.
pub proof fn lemma_pair_keeps(a0: Seq<Seq<usize>>, a1: Seq<Seq<usize>>, cols: int, f: int, t: int)
    requires
        cols > 0,
        a0.len() <= usize::MAX,
        adjacent(a0.len() as int, cols, f, t),
        links_adjacent(a0, cols),
        symmetric(a0),
        a1 == a0.update(f, a0[f].push(t as usize)).update(t, a0.update(f, a0[f].push(t as usize))[t].push(f as usize)),
    ensures
        links_adjacent(a1, cols),
        symmetric(a1),
        links_grow(a0, a1),
{
    let n = a0.len() as int;
    lemma_adjacent_in_range(n, cols, f, t);
    lemma_adjacent_symmetric(n, cols, f, t);
    assert(a1[f] == a0[f].push(t as usize));
    assert(a1[t] == a0[t].push(f as usize));
    assert forall|x: int, k: int| 0 <= x < a1.len() && 0 <= k < a1[x].len() implies adjacent(a1.len() as int, cols, x, #[trigger] a1[x][k] as int) by {
        if x == f && k == a0[f].len() {
        } else if x == t && k == a0[t].len() {
        } else {
            assert(a1[x][k] == a0[x][k]);
        }
    }
    assert forall|a: int, b: usize| 0 <= a < a0.len() && #[trigger] a0[a].contains(b) implies #[trigger] a1[a].contains(b) by {
        let m = choose|m: int| 0 <= m < a0[a].len() && a0[a][m] == b;
        assert(a1[a][m] == b);
    }
    assert forall|x: int, k: int| 0 <= x < a1.len() && 0 <= k < a1[x].len() implies #[trigger] a1[x][k] < a1.len()
        && a1[a1[x][k] as int].contains(x as usize) by {
        if x == f && k == a0[f].len() {
            assert(a1[t][a0[t].len() as int] == f as usize);
        } else if x == t && k == a0[t].len() {
            assert(a1[f][a0[f].len() as int] == t as usize);
        } else {
            assert(a1[x][k] == a0[x][k]);
            assert(a0[a0[x][k] as int].contains(x as usize));
        }
    }
}

/// `s` with every occurrence of `x` left out.
pub open spec fn without(s: Seq<usize>, x: usize) -> Seq<usize>
    decreases s.len(),
{
    if s.len() == 0 {
        s
    } else if s.last() != x {
        without(s.drop_last(), x).push(s.last())
    } else {
        without(s.drop_last(), x)
    }
}

/// What `without` keeps: exactly the elements other than `x`.
pub proof fn lemma_without(s: Seq<usize>, x: usize)
    ensures
        forall|y: usize| #[trigger] without(s, x).contains(y) <==> (s.contains(y) && y != x),
        without(s, x).len() <= s.len(),
        !s.contains(x) ==> without(s, x) == s,
    decreases s.len(),
{
    if s.len() > 0 {
        let d = s.drop_last();
        let l = s.last();
        let w = without(d, x);
        lemma_without(d, x);
        assert(s == d.push(l));
        lemma_push_contains(d, l);
        lemma_push_contains(w, l);
        if !s.contains(x) {
            assert(!d.contains(x));
        }
    }
}

/// Leaving out an element that occurs once shortens a sequence by one.
pub proof fn lemma_without_len(s: Seq<usize>, x: usize)
    requires
        s.no_duplicates(),
        s.contains(x),
    ensures
        without(s, x).len() == s.len() - 1,
    decreases s.len(),
{
    let d = s.drop_last();
    let l = s.last();
    assert(s == d.push(l));
    assert(d.no_duplicates()) by {
        assert forall|i: int, j: int| 0 <= i < j < d.len() implies d[i] != d[j] by {
            assert(d[i] == s[i] && d[j] == s[j]);
        }
    }
    if l == x {
        assert(!d.contains(x)) by {
            if d.contains(x) {
                let k = choose|k: int| 0 <= k < d.len() && d[k] == x;
                assert(s[k] == s[s.len() - 1]);
            }
        }
        lemma_without(d, x);
    } else {
        lemma_push_contains(d, l);
        lemma_without_len(d, x);
    }
}

/// Leaving out an element keeps a sequence free of duplicates.
pub proof fn lemma_without_no_dup(s: Seq<usize>, x: usize)
    requires
        s.no_duplicates(),
    ensures
        without(s, x).no_duplicates(),
    decreases s.len(),
{
    if s.len() > 0 {
        let d = s.drop_last();
        let l = s.last();
        assert(d.no_duplicates()) by {
            assert forall|i: int, j: int| 0 <= i < j < d.len() implies d[i] != d[j] by {
                assert(d[i] == s[i] && d[j] == s[j]);
            }
        }
        lemma_without_no_dup(d, x);
        lemma_without(d, x);
        if l != x {
            let w = without(d, x);
            assert(!d.contains(l)) by {
                if d.contains(l) {
                    let k = choose|k: int| 0 <= k < d.len() && d[k] == l;
                    assert(s[k] == s[s.len() - 1]);
                }
            }
            assert(!w.contains(l));
            let t = w.push(l);
            assert forall|i: int, j: int| 0 <= i < j < t.len() implies #[trigger] t[i] != #[trigger] t[j] by {
                if j == w.len() {
                    assert(t[i] == w[i]);
                    assert(w.contains(w[i]));
                }
            }
        }
    }
}

/// What a sequence holds after a push.
pub proof fn lemma_push_contains(s: Seq<usize>, v: usize)
    ensures
        forall|y: usize| #[trigger] s.push(v).contains(y) <==> (s.contains(y) || y == v),
{
    assert forall|y: usize| #[trigger] s.push(v).contains(y) <==> (s.contains(y) || y == v) by {
        if s.contains(y) {
            let k = choose|k: int| 0 <= k < s.len() && s[k] == y;
            assert(s.push(v)[k] == y);
        }
        if y == v {
            assert(s.push(v)[s.len() as int] == y);
        }
        if s.push(v).contains(y) {
            let k = choose|k: int| 0 <= k < s.len() + 1 && s.push(v)[k] == y;
            if k < s.len() {
                assert(s[k] == y);
            }
        }
    }
}

/// `s2` is `s` with its first occurrence of `x` removed, or `s` itself where `x` does not occur.
pub open spec fn removed_first(s: Seq<usize>, x: usize, s2: Seq<usize>) -> bool {
    if s.contains(x) {
        exists|k: int|
            0 <= k < s.len() && s[k] == x && (forall|j: int| 0 <= j < k ==> s[j] != x) && s2
                == s.remove(k)
    } else {
        s2 == s
    }
}

/// `s` with `x` appended, unless `x` is in it already.
pub open spec fn add_link(s: Seq<usize>, x: usize) -> Seq<usize> {
    if s.contains(x) {
        s
    } else {
        s.push(x)
    }
}

/// The table `adj` after recording `f -> t`, and `t -> f` when `bidi` holds, each only where
/// it is not recorded already.
pub open spec fn linked(adj: Seq<Seq<usize>>, f: int, t: int, bidi: bool) -> Seq<Seq<usize>> {
    let a1 = adj.update(f, add_link(adj[f], t as usize));
    if bidi {
        a1.update(t, add_link(a1[t], f as usize))
    } else {
        a1
    }
}

/// Neither link of the pair is recorded yet, and the pair joins two cells.
pub open spec fn fresh_link(adj: Seq<Seq<usize>>, f: int, t: int, bidi: bool) -> bool {
    &&& !adj[f].contains(t as usize)
    &&& bidi ==> f != t && !adj[t].contains(f as usize)
}

/// Removing the one occurrence of `x` from a sequence without duplicates leaves no `x`.
pub proof fn lemma_removed_first_gone(s: Seq<usize>, x: usize, s2: Seq<usize>)
    requires
        s.no_duplicates(),
        removed_first(s, x, s2),
    ensures
        !s2.contains(x),
{
    if s.contains(x) {
        let k = choose|k: int|
            0 <= k < s.len() && s[k] == x && (forall|j: int| 0 <= j < k ==> s[j] != x) && s2 == s.remove(k);
        if s2.contains(x) {
            let m = choose|m: int| 0 <= m < s2.len() && s2[m] == x;
            if m < k {
                assert(s[m] == x);
            } else {
                assert(s[m + 1] == x);
            }
        }
    }
}

/// The link table of a `rows` by `cols` grid: for each cell, in order, the cells it links to.
#[derive(Debug)]
pub struct LinkTable {
    rows: usize,
    cols: usize,
    adj: Vec<Vec<usize>>,
}

impl View for LinkTable {
    type V = Seq<Seq<usize>>;

    closed spec fn view(&self) -> Seq<Seq<usize>> {
        Seq::new(self.adj@.len(), |i: int| self.adj@[i]@)
    }
}

impl LinkTable {
    pub closed spec fn rows(&self) -> nat {
        self.rows as nat
    }

    pub closed spec fn cols(&self) -> nat {
        self.cols as nat
    }

    /// The number of cells.
    pub open spec fn n(&self) -> int {
        self@.len() as int
    }

    pub closed spec fn wf(&self) -> bool {
        &&& self.rows >= 1
        &&& self.cols >= 1
        &&& self.rows * self.cols <= usize::MAX
        &&& self.adj@.len() == self.rows * self.cols
        &&& in_bounds(self@)
        &&& simple(self@)
    }

    /// What well-formedness says of the dimensions and of the recorded links.
    pub proof fn lemma_wf(&self)
        requires
            self.wf(),
        ensures
            self.rows() >= 1,
            self.cols() >= 1,
            self.n() == self.rows() * self.cols(),
            self.n() <= usize::MAX,
            self.rows() <= usize::MAX,
            self.cols() <= usize::MAX,
            in_bounds(self@),
            simple(self@),
    {
    }

    /// An unlinked table for a `rows` by `cols` grid.
    pub fn new(rows: usize, cols: usize) -> (t: Self)
        requires
            rows >= 1,
            cols >= 1,
            rows * cols <= usize::MAX,
        ensures
            t.wf(),
            t.rows() == rows,
            t.cols() == cols,
            t.n() == rows * cols,
            forall|i: int| 0 <= i < t.n() ==> (#[trigger] t@[i]).len() == 0,
    {
        let n = rows * cols;
        let mut adj: Vec<Vec<usize>> = Vec::with_capacity(n);
        let mut i: usize = 0;
        while i < n
            invariant
                i <= n,
                adj@.len() == i,
                forall|k: int| 0 <= k < i ==> (#[trigger] adj@[k])@.len() == 0,
            decreases n - i,
        {
            adj.push(Vec::new());
            i = i + 1;
        }
        let t = LinkTable { rows, cols, adj };
        assert forall|i: int| 0 <= i < t.n() implies (#[trigger] t@[i]).len() == 0 by {
            assert(t@[i] == t.adj@[i]@);
        }
        t
    }

    /// The number of cells.
    pub fn size(&self) -> (n: usize)
        requires
            self.wf(),
        ensures
            n == self.n(),
            n == self.rows() * self.cols(),
    {
        self.rows * self.cols
    }

    /// The number of rows.
    pub fn row_count(&self) -> (r: usize)
        ensures
            r == self.rows(),
    {
        self.rows
    }

    /// The number of columns.
    pub fn col_count(&self) -> (c: usize)
        ensures
            c == self.cols(),
    {
        self.cols
    }

    /// Records the single link `from -> to`, unless it is recorded already.
    pub fn push_link(&mut self, from: usize, to: usize)
        requires
            old(self).wf(),
            from < old(self).n(),
            to < old(self).n(),
        ensures
            final(self).wf(),
            final(self).rows() == old(self).rows(),
            final(self).cols() == old(self).cols(),
            final(self)@ == old(self)@.update(from as int, add_link(old(self)@[from as int], to)),
    {
        if self.contains(from, to) {
            assert(self@ =~= old(self)@.update(from as int, add_link(old(self)@[from as int], to)));
        } else {
            self.adj[from].push(to);
            assert(self@ =~= old(self)@.update(from as int, add_link(old(self)@[from as int], to)));
            proof {
                let s = old(self)@[from as int];
                assert(s.no_duplicates());
                let u = s.push(to);
                assert forall|i: int, j: int| 0 <= i < j < u.len() implies #[trigger] u[i] != #[trigger] u[j] by {
                    if j == s.len() {
                        assert(u[i] == s[i]);
                        assert(s.contains(s[i]));
                    }
                }
                assert(self@[from as int] == u);
            }
        }
    }

    /// Records `from -> to`, and `to -> from` as well when `bidi` holds; a link that is recorded
    /// already is not recorded again.
    pub fn link(&mut self, from: usize, to: usize, bidi: bool)
        requires
            old(self).wf(),
            from < old(self).n(),
            to < old(self).n(),
        ensures
            final(self).wf(),
            final(self).rows() == old(self).rows(),
            final(self).cols() == old(self).cols(),
            final(self)@ == linked(old(self)@, from as int, to as int, bidi),
            fresh_link(old(self)@, from as int, to as int, bidi) ==> (!bidi ==> final(self)@ == old(self)@.update(
                from as int,
                old(self)@[from as int].push(to),
            )),
            fresh_link(old(self)@, from as int, to as int, bidi) ==> (bidi ==> final(self)@ == old(self)@.update(
                from as int,
                old(self)@[from as int].push(to),
            ).update(
                to as int,
                old(self)@.update(from as int, old(self)@[from as int].push(to))[to as int].push(from),
            )),
    {
        self.push_link(from, to);
        if bidi {
            self.push_link(to, from);
        }
    }

    /// Whether the link `from -> to` is recorded.
    pub fn contains(&self, from: usize, to: usize) -> (b: bool)
        requires
            self.wf(),
            from < self.n(),
        ensures
            b == self@[from as int].contains(to),
    {
        let row = &self.adj[from];
        let mut j: usize = 0;
        while j < row.len()
            invariant
                j <= row@.len(),
                row@ == self@[from as int],
                forall|k: int| 0 <= k < j ==> row@[k] != to,
            decreases row@.len() - j,
        {
            if row[j] == to {
                return true;
            }
            j = j + 1;
        }
        false
    }

    /// The number of links recorded out of cell `i`.
    pub fn degree(&self, i: usize) -> (d: usize)
        requires
            self.wf(),
            i < self.n(),
        ensures
            d == self@[i as int].len(),
    {
        self.adj[i].len()
    }

    /// The cells that cell `i` links to, in the order the links were made.
    pub fn links_of(&self, i: usize) -> (v: Vec<usize>)
        requires
            self.wf(),
            i < self.n(),
        ensures
            v@ == self@[i as int],
    {
        let row = &self.adj[i];
        let mut v: Vec<usize> = Vec::with_capacity(row.len());
        let mut j: usize = 0;
        while j < row.len()
            invariant
                j <= row@.len(),
                row@ == self@[i as int],
                v@ == row@.subrange(0, j as int),
            decreases row@.len() - j,
        {
            v.push(row[j]);
            j = j + 1;
            assert(v@ =~= row@.subrange(0, j as int));
        }
        assert(v@ =~= row@);
        v
    }

    /// Removes the first recorded link `from -> to`, if there is one.
    pub fn remove_first(&mut self, from: usize, to: usize)
        requires
            old(self).wf(),
            from < old(self).n(),
        ensures
            final(self).wf(),
            final(self).rows() == old(self).rows(),
            final(self).cols() == old(self).cols(),
            final(self)@.len() == old(self)@.len(),
            removed_first(old(self)@[from as int], to, final(self)@[from as int]),
            forall|i: int| 0 <= i < old(self).n() && i != from ==> final(self)@[i] == old(self)@[i],
    {
        let ghost s = self@[from as int];
        let len = self.adj[from].len();
        let mut j: usize = 0;
        while j < len
            invariant
                self.wf(),
                self@ == old(self)@,
                self.rows == old(self).rows,
                self.cols == old(self).cols,
                len == s.len(),
                j <= len,
                s == self@[from as int],
                from < self.n(),
                forall|k: int| 0 <= k < j ==> s[k] != to,
            decreases len - j,
        {
            if self.adj[from][j] == to {
                let ghost before = self@;
                self.adj[from].remove(j);
                assert(self@ =~= before.update(from as int, s.remove(j as int)));
                assert(in_bounds(self@)) by {
                    assert forall|a: int, i: int|
                        0 <= a < self@.len() && 0 <= i < self@[a].len() implies #[trigger] self@[a][i]
                        < self@.len() by {
                        if a == from {
                            if i < j {
                                assert(self@[a][i] == before[a][i]);
                            } else {
                                assert(self@[a][i] == before[a][i + 1]);
                            }
                        }
                    }
                }
                assert(s.contains(to) && s[j as int] == to);
                return;
            }
            j = j + 1;
        }
        assert(!s.contains(to));
    }

    /// Removes every recorded link `from -> to`.
    pub fn remove_all(&mut self, from: usize, to: usize)
        requires
            old(self).wf(),
            from < old(self).n(),
        ensures
            final(self).wf(),
            final(self).rows() == old(self).rows(),
            final(self).cols() == old(self).cols(),
            final(self)@ == old(self)@.update(from as int, without(old(self)@[from as int], to)),
    {
        let ghost s = self@[from as int];
        let mut kept: Vec<usize> = Vec::new();
        let len = self.adj[from].len();
        let mut j: usize = 0;
        while j < len
            invariant
                self.wf(),
                self@ == old(self)@,
                self.rows == old(self).rows,
                self.cols == old(self).cols,
                len == s.len(),
                j <= len,
                s == self@[from as int],
                from < self.n(),
                kept@ == without(s.subrange(0, j as int), to),
            decreases len - j,
        {
            let x = self.adj[from][j];
            assert(s.subrange(0, j as int + 1).drop_last() =~= s.subrange(0, j as int));
            if x != to {
                kept.push(x);
            }
            j = j + 1;
        }
        assert(s.subrange(0, len as int) =~= s);
        let ghost before = self@;
        self.adj.set(from, kept);
        assert(self@ =~= before.update(from as int, without(s, to)));
        assert(in_bounds(self@)) by {
            lemma_without(s, to);
            assert forall|a: int, i: int|
                0 <= a < self@.len() && 0 <= i < self@[a].len() implies #[trigger] self@[a][i]
                < self@.len() by {
                if a == from {
                    assert(without(s, to).contains(self@[a][i]));
                }
            }
        }
        assert(simple(self@)) by {
            lemma_without_no_dup(s, to);
        }
    }

    /// The cell north of cell `i`, if there is one.
    pub fn north(&self, i: usize) -> (r: Option<usize>)
        requires
            self.wf(),
            i < self.n(),
        ensures
            r matches Some(j) ==> j < self.n(),
            same_cell(r, north_of(self.cols() as int, i as int)),
    {
        if i >= self.cols {
            Some(i - self.cols)
        } else {
            None
        }
    }

    /// The cell south of cell `i`, if there is one.
    pub fn south(&self, i: usize) -> (r: Option<usize>)
        requires
            self.wf(),
            i < self.n(),
        ensures
            r matches Some(j) ==> j < self.n(),
            same_cell(r, south_of(self.n(), self.cols() as int, i as int)),
    {
        let n = self.rows * self.cols;
        assert(n >= self.cols) by (nonlinear_arith)
            requires
                n == self.rows * self.cols,
                self.rows >= 1,
        ;
        if i < n - self.cols {
            Some(i + self.cols)
        } else {
            None
        }
    }

    /// The cell east of cell `i`, if there is one.
    pub fn east(&self, i: usize) -> (r: Option<usize>)
        requires
            self.wf(),
            i < self.n(),
        ensures
            r matches Some(j) ==> j < self.n(),
            same_cell(r, east_of(self.n(), self.cols() as int, i as int)),
    {
        let n = self.rows * self.cols;
        if i % self.cols != self.cols - 1 && i + 1 < n {
            Some(i + 1)
        } else {
            None
        }
    }

    /// The cell west of cell `i`, if there is one.
    pub fn west(&self, i: usize) -> (r: Option<usize>)
        requires
            self.wf(),
            i < self.n(),
        ensures
            r matches Some(j) ==> j < self.n(),
            same_cell(r, west_of(self.cols() as int, i as int)),
    {
        if i % self.cols != 0 {
            assert(i > 0) by {
                if i == 0 {
                    assert(0usize % self.cols == 0);
                }
            }
            Some(i - 1)
        } else {
            None
        }
    }

    /// The structural neighbours of cell `i`, in the order north, east, south, west.
    pub fn neighbors(&self, i: usize) -> (v: Vec<usize>)
        requires
            self.wf(),
            i < self.n(),
        ensures
            v@.no_duplicates(),
            forall|j: usize| #[trigger] v@.contains(j) <==> adjacent(self.n(), self.cols() as int, i as int, j as int),
            forall|k: int| 0 <= k < v@.len() ==> #[trigger] v@[k] < self.n(),
            v@.len() == degree_of(self.n(), self.cols() as int, i as int),
            v@ == compass(self.n(), self.cols() as int, i as int),
    {
        let mut v: Vec<usize> = Vec::new();
        let ghost n = self.n();
        let ghost c = self.cols() as int;
        let ghost ii = i as int;
        if let Some(j) = self.north(i) {
            v.push(j);
        }
        assert(v@ =~= idx_seq(north_of(c, ii)));
        if let Some(j) = self.east(i) {
            v.push(j);
        }
        assert(v@ =~= idx_seq(north_of(c, ii)) + idx_seq(east_of(n, c, ii)));
        if let Some(j) = self.south(i) {
            v.push(j);
        }
        assert(v@ =~= idx_seq(north_of(c, ii)) + idx_seq(east_of(n, c, ii)) + idx_seq(south_of(n, c, ii)));
        if let Some(j) = self.west(i) {
            v.push(j);
        }
        assert(v@ =~= compass(n, c, ii));
        assert forall|j: usize| #[trigger] v@.contains(j) <==> adjacent(n, c, i as int, j as int) by {
            if adjacent(n, c, i as int, j as int) {
                if north_of(c, i as int) == Some(j as int) {
                    assert(v@[0] == j);
                } else if east_of(n, c, i as int) == Some(j as int) {
                    let k = if north_of(c, i as int) is Some { 1int } else { 0int };
                    assert(v@[k] == j);
                } else if south_of(n, c, i as int) == Some(j as int) {
                    let k = (if north_of(c, i as int) is Some { 1int } else { 0int }) + (if east_of(n, c, i as int) is Some { 1int } else { 0int });
                    assert(v@[k] == j);
                } else {
                    assert(v@[v@.len() - 1] == j);
                }
            }
        }
        v
    }

    /// The dead ends, in increasing order.
    pub fn dead_ends(&self) -> (v: Vec<usize>)
        requires
            self.wf(),
        ensures
            v@.len() == dead_end_count(self@),
            forall|k: int, l: int| 0 <= k < l < v@.len() ==> v@[k] < v@[l],
            forall|k: int| 0 <= k < v@.len() ==> #[trigger] v@[k] < self.n() && is_dead_end(self@, v@[k] as int),
            forall|i: usize| i < self.n() && is_dead_end(self@, i as int) ==> #[trigger] v@.contains(i),
    {
        let n = self.size();
        let mut v: Vec<usize> = Vec::new();
        let mut i: usize = 0;
        while i < n
            invariant
                self.wf(),
                n == self.n(),
                i <= n,
                v@.len() == count_where(i as int, |k: int| is_dead_end(self@, k)),
                forall|k: int, l: int| 0 <= k < l < v@.len() ==> v@[k] < v@[l],
                forall|k: int| 0 <= k < v@.len() ==> #[trigger] v@[k] < i && is_dead_end(self@, v@[k] as int),
                forall|j: usize| j < i && is_dead_end(self@, j as int) ==> #[trigger] v@.contains(j),
            decreases n - i,
        {
            let ghost f = |k: int| is_dead_end(self@, k);
            let ghost v0 = v@;
            assert(count_where(i as int + 1, f) == count_where(i as int, f) + if f(i as int) {
                1nat
            } else {
                0nat
            });
            if self.degree(i) == 1 {
                v.push(i);
                assert(v@[v@.len() - 1] == i);
            }
            assert forall|j: usize| j < i + 1 && is_dead_end(self@, j as int) implies #[trigger] v@.contains(j) by {
                if j < i {
                    assert(v0.contains(j));
                    let k = choose|k: int| 0 <= k < v0.len() && v0[k] == j;
                    assert(v@[k] == j);
                } else {
                    assert(v@[v@.len() - 1] == j);
                }
            }
            i = i + 1;
        }
        v
    }
}

} // verus!
