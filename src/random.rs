//! The pseudo-random draws that generation and braiding make, taken from rand's thread-local
//! generator. Nothing is claimed of a draw beyond the range it falls in.
use vstd::prelude::*;
use rand::Rng;
use rand::seq::SliceRandom;

verus! {

/// Relies on rand's `Rng::gen_range(low, high)`: a value in `low..high`; it panics unless
/// `low < high`.
#[verifier::external_body]
pub(crate) fn random_below(n: usize) -> (r: usize)
    requires
        n > 0,
    ensures
        r < n,
{
    rand::thread_rng().gen_range(0, n)
}

/// Relies on rand's `Rng::gen::<bool>`: a fair coin.
#[verifier::external_body]
pub(crate) fn random_bool() -> (r: bool) {
    rand::thread_rng().gen::<bool>()
}

/// Relies on rand's `Rng::gen_ratio(numerator, denominator)`: `true` with probability
/// `numerator / denominator`, always `true` when the two are equal; it panics when
/// `denominator == 0` or `numerator > denominator`.
#[verifier::external_body]
pub(crate) fn random_ratio(numerator: u32, denominator: u32) -> (r: bool)
    requires
        0 < denominator,
        numerator <= denominator,
    ensures
        numerator == denominator ==> r,
        numerator == 0 ==> !r,
{
    rand::thread_rng().gen_ratio(numerator, denominator)
}

/// Relies on rand's `SliceRandom::choose`: one element of the slice, `None` only when the
/// slice is empty.
#[verifier::external_body]
pub(crate) fn pick<T: Copy>(v: &Vec<T>) -> (r: Option<T>)
    ensures
        r is None <==> v@.len() == 0,
        r matches Some(x) ==> v@.contains(x),
{
    v.choose(&mut rand::thread_rng()).copied()
}

/// Relies on rand's `SliceRandom::shuffle`: the elements are permuted in place.
#[verifier::external_body]
pub(crate) fn shuffle(v: &mut Vec<usize>)
    ensures
        final(v)@.to_multiset() == old(v)@.to_multiset(),
        final(v)@.len() == old(v)@.len(),
{
    v.shuffle(&mut rand::thread_rng());
}

} // verus!
