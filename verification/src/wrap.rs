//! Indices that wrap around a sequence of a given size.

use vstd::prelude::*;
use vstd::arithmetic::div_mod::{
    lemma_fundamental_div_mod, lemma_fundamental_div_mod_converse_mod, lemma_mod_bound,
};

verus! {

/// The position in `0..size` that `index` falls on when positions are counted
/// round and round, forwards for a positive `index` and backwards for a
/// negative one.
pub open spec fn wrapped(index: int, size: int) -> int {
    index % size
}

/// Counting backwards from the end: `-(k + 1)` wraps to the position that is
/// `k` wrapped, seen from the last position.
pub proof fn lemma_wrapped_from_end(k: int, size: int)
    requires
        size > 0,
    ensures
        wrapped(-(k + 1), size) == size - 1 - wrapped(k, size),
{
    let q: int = k / size;
    let r: int = k % size;
    lemma_fundamental_div_mod(k, size);
    lemma_mod_bound(k, size);
    assert(-(k + 1) == (-(q + 1)) * size + (size - 1 - r)) by (nonlinear_arith)
        requires
            k == size * q + r,
    ;
    lemma_fundamental_div_mod_converse_mod(-(k + 1), size, -(q + 1), size - 1 - r);
}

/// One step forwards from a wrapped position: the next position, or the first
/// after the last.
pub proof fn lemma_wrapped_next(k: int, size: int)
    requires
        size > 0,
    ensures
        wrapped(k + 1, size) == if wrapped(k, size) + 1 == size {
            0
        } else {
            wrapped(k, size) + 1
        },
{
    let q: int = k / size;
    let r: int = k % size;
    lemma_fundamental_div_mod(k, size);
    lemma_mod_bound(k, size);
    if r + 1 == size {
        assert(k + 1 == (q + 1) * size + 0) by (nonlinear_arith)
            requires
                k == size * q + r,
                r + 1 == size,
        ;
        lemma_fundamental_div_mod_converse_mod(k + 1, size, q + 1, 0);
    } else {
        assert(k + 1 == q * size + (r + 1)) by (nonlinear_arith)
            requires
                k == size * q + r,
        ;
        lemma_fundamental_div_mod_converse_mod(k + 1, size, q, r + 1);
    }
}

/// Wraps a non-negative `index` into `0..size`.
pub fn uWrap(index: usize, size: usize) -> (position: usize)
    requires
        size > 0,
    ensures
        position == wrapped(index as int, size as int),
{
    index % size
}

/// Wraps a signed `index` into `0..size`: `-1` is the last position, `-2` the
/// one before it, and so on.
pub fn iWrap(index: isize, size: usize) -> (position: usize)
    requires
        size > 0,
    ensures
        position == wrapped(index as int, size as int),
{
    if index >= 0 {
        (index as usize) % size
    } else {
        let back: usize = (-(index + 1)) as usize;
        proof {
            lemma_wrapped_from_end(back as int, size as int);
            lemma_mod_bound(back as int, size as int);
        }
        size - 1 - back % size
    }
}

/// The position `steps + 1` places before the first, counted backwards round
/// the sequence: the last position for no steps, the one before it for one.
pub fn wrap_before(steps: usize, size: usize) -> (position: usize)
    requires
        size > 0,
    ensures
        position == wrapped(-(steps as int + 1), size as int),
{
    proof {
        lemma_wrapped_from_end(steps as int, size as int);
        lemma_mod_bound(steps as int, size as int);
    }
    size - 1 - steps % size
}

/// The position `steps` places before the first, counted backwards round the
/// sequence: the first position itself for no steps.
pub fn wrap_back(steps: usize, size: usize) -> (position: usize)
    requires
        size > 0,
    ensures
        position == wrapped(-(steps as int), size as int),
{
    if steps == 0 {
        proof {
            lemma_fundamental_div_mod_converse_mod(0, size as int, 0, 0);
        }
        0
    } else {
        wrap_before(steps - 1, size)
    }
}

/// The position after `index` wrapped into `0..size`.
pub fn wrap_next(index: usize, size: usize) -> (position: usize)
    requires
        size > 0,
    ensures
        position == wrapped(index as int + 1, size as int),
{
    proof {
        lemma_wrapped_next(index as int, size as int);
        lemma_mod_bound(index as int, size as int);
    }
    let here: usize = index % size;
    if here + 1 == size {
        0
    } else {
        here + 1
    }
}

} // verus!
