//! Counting the cells of a grid that satisfy a predicate.
use vstd::prelude::*;

verus! {

/// The number of indices `i` in `0..n` with `f(i)`.
pub open spec fn count_where(n: int, f: spec_fn(int) -> bool) -> nat
    decreases n,
{
    if n <= 0 {
        0
    } else {
        count_where(n - 1, f) + if f(n - 1) {
            1nat
        } else {
            0nat
        }
    }
}

/// A weaker predicate counts no more.
pub proof fn lemma_count_mono(n: int, f: spec_fn(int) -> bool, g: spec_fn(int) -> bool)
    requires
        forall|i: int| 0 <= i < n && #[trigger] g(i) ==> f(i),
    ensures
        count_where(n, g) <= count_where(n, f),
    decreases n,
{
    if n > 0 {
        lemma_count_mono(n - 1, f, g);
    }
}

/// A predicate that drops an index counts strictly less.
pub proof fn lemma_count_strict(n: int, f: spec_fn(int) -> bool, g: spec_fn(int) -> bool, k: int)
    requires
        forall|i: int| 0 <= i < n && #[trigger] g(i) ==> f(i),
        0 <= k < n,
        f(k),
        !g(k),
    ensures
        count_where(n, g) < count_where(n, f),
    decreases n,
{
    if k == n - 1 {
        lemma_count_mono(n - 1, f, g);
    } else {
        lemma_count_strict(n - 1, f, g, k);
    }
}

/// Predicates that agree below `n` count the same.
pub proof fn lemma_count_eq(n: int, f: spec_fn(int) -> bool, g: spec_fn(int) -> bool)
    requires
        forall|i: int| 0 <= i < n ==> #[trigger] g(i) == f(i),
    ensures
        count_where(n, g) == count_where(n, f),
    decreases n,
{
    if n > 0 {
        lemma_count_eq(n - 1, f, g);
    }
}

/// Predicates that agree below `n` but at `k`, where only `g` holds, differ by one.
pub proof fn lemma_count_plus_one(n: int, f: spec_fn(int) -> bool, g: spec_fn(int) -> bool, k: int)
    requires
        forall|i: int| 0 <= i < n && i != k ==> #[trigger] g(i) == f(i),
        0 <= k < n,
        g(k),
        !f(k),
    ensures
        count_where(n, g) == count_where(n, f) + 1,
    decreases n,
{
    if k == n - 1 {
        lemma_count_eq(n - 1, f, g);
    } else {
        lemma_count_plus_one(n - 1, f, g, k);
    }
}

/// The count never exceeds the range.
pub proof fn lemma_count_bound(n: int, f: spec_fn(int) -> bool)
    requires
        n >= 0,
    ensures
        count_where(n, f) <= n,
        (forall|i: int| 0 <= i < n ==> #[trigger] f(i)) ==> count_where(n, f) == n,
    decreases n,
{
    if n > 0 {
        lemma_count_bound(n - 1, f);
    }
}

} // verus!
