//! Random positions in the pool.

use rand::Rng;
use vstd::prelude::*;

verus! {

/// A position below `bound`, drawn from the thread's random generator.
///
/// Calls `rand::thread_rng` and `rand::Rng::gen_range` on the range
/// `0..bound`. Taken on trust: the position drawn lies in that range. The
/// range must not be empty, as `gen_range` panics on an empty one.
#[verifier::external_body]
fn random_index(bound: usize) -> (index: usize)
    requires
        bound > 0,
    ensures
        index < bound,
{
    rand::thread_rng().gen_range(0..bound)
}

/// Makes two positions of a pool distinct: `first` stays, and `other`, drawn
/// from a pool one shorter, steps over it. Where `first` and `other` are
/// uniform in their ranges, the pair is uniform among the ordered pairs of
/// distinct positions.
pub fn step_over(first: usize, other: usize) -> (pair: (usize, usize))
    requires
        other < usize::MAX,
    ensures
        pair.0 == first,
        pair.1 == if other >= first {
            other + 1
        } else {
            other as int
        },
        pair.0 != pair.1,
{
    if other >= first {
        (first, other + 1)
    } else {
        (first, other)
    }
}

/// Two distinct random positions in a pool of `size` players.
pub fn draw_pair(size: usize) -> (pair: (usize, usize))
    requires
        size >= 2,
    ensures
        pair.0 < size,
        pair.1 < size,
        pair.0 != pair.1,
{
    let first: usize = random_index(size);
    let other: usize = random_index(size - 1);
    step_over(first, other)
}

} // verus!
