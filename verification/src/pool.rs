//! The working pool of a round: the players not yet placed, in order, and the
//! rotation that decides who sits the round out.

use vstd::prelude::*;
use vstd::arithmetic::div_mod::{lemma_fundamental_div_mod_converse_mod, lemma_mod_bound};
use vstd::multiset::Multiset;
use vstd::seq_lib::{lemma_multiset_commutative, to_multiset_remove};

use crate::seating::{everyone, Team};
use crate::wrap::{uWrap, wrap_back, wrap_before, wrap_next, wrapped};

verus! {

/// The positions at which round `round` takes its sit-outs from a pool of
/// `size` players, one after the other; each position counts in the pool as
/// the removals before it have left it.
///
/// The first sit-out is at the round's number wrapped into the pool. With two
/// sit-outs the second is counted from the back of the pool: `round + 1`
/// places from the end as long as, in the full pool, the front has not passed
/// that place, and `round` places from the end once it has. With three
/// sit-outs the second is taken at the front again, and the third from the
/// back in the same way, with the front counted one place further on.
pub open spec fn bye_positions(round: int, size: int, byes: int) -> Seq<int> {
    if byes == 1 {
        seq![wrapped(round, size)]
    } else if byes == 2 {
        seq![
            wrapped(round, size),
            if wrapped(round, size) <= wrapped(-(round + 1), size) {
                wrapped(-(round + 1), size - 1)
            } else {
                wrapped(-round, size - 1)
            },
        ]
    } else if byes == 3 {
        seq![
            wrapped(round, size),
            wrapped(round, size - 1),
            if wrapped(round + 1, size) <= wrapped(-(round + 1), size) {
                wrapped(-(round + 1), size - 2)
            } else {
                wrapped(-round, size - 2)
            },
        ]
    } else {
        Seq::empty()
    }
}

/// The players found when `positions` are removed from `pool` in turn.
pub open spec fn taken(pool: Seq<usize>, positions: Seq<int>) -> Seq<usize>
    decreases positions.len(),
{
    if positions.len() == 0 {
        Seq::empty()
    } else {
        seq![pool[positions[0]]] + taken(pool.remove(positions[0]), positions.drop_first())
    }
}

/// What is left of `pool` when `positions` have been removed from it in turn.
pub open spec fn remaining(pool: Seq<usize>, positions: Seq<int>) -> Seq<usize>
    decreases positions.len(),
{
    if positions.len() == 0 {
        pool
    } else {
        remaining(pool.remove(positions[0]), positions.drop_first())
    }
}

/// The players who sit out round `round` of a party of `player_count`, in the
/// order in which they leave the pool.
pub open spec fn bye_players(player_count: nat, bye_count: nat, round: nat) -> Seq<usize> {
    taken(
        everyone(player_count),
        bye_positions(round as int, player_count as int, bye_count as int),
    )
}

/// `pool` without the players at the two distinct positions `i` and `j`.
pub open spec fn without_pair(pool: Seq<usize>, i: int, j: int) -> Seq<usize> {
    pool.remove(i).remove(
        if j > i {
            j - 1
        } else {
            j
        },
    )
}

/// The pool at the start of a round: every player, in order.
pub fn full_pool(player_count: usize) -> (pool: Vec<usize>)
    ensures
        pool@ == everyone(player_count as nat),
{
    let mut pool: Vec<usize> = Vec::new();
    let mut i: usize = 0;
    while i < player_count
        invariant
            i <= player_count,
            pool@ == everyone(i as nat),
        decreases player_count - i,
    {
        pool.push(i + 1);
        i += 1;
        assert(pool@ =~= everyone(i as nat));
    }
    pool
}

/// Takes the sit-outs of round `round_index` out of `pool`.
pub fn select_byes(pool: &mut Vec<usize>, round_index: usize, bye_count: usize) -> (byes: Vec<
    usize,
>)
    requires
        bye_count <= 3,
        bye_count <= old(pool).len(),
    ensures
        byes@ == taken(
            old(pool)@,
            bye_positions(round_index as int, old(pool).len() as int, bye_count as int),
        ),
        final(pool)@ == remaining(
            old(pool)@,
            bye_positions(round_index as int, old(pool).len() as int, bye_count as int),
        ),
        byes.len() == bye_count,
        final(pool).len() == old(pool).len() - bye_count,
{
    let size: usize = pool.len();
    let mut byes: Vec<usize> = Vec::new();
    let ghost positions = bye_positions(round_index as int, size as int, bye_count as int);
    proof {
        reveal_with_fuel(taken, 4);
        reveal_with_fuel(remaining, 4);
    }
    if bye_count == 1 {
        let front: usize = uWrap(round_index, size);
        proof {
            lemma_mod_bound(round_index as int, size as int);
            assert(positions.drop_first() =~= Seq::<int>::empty());
        }
        let player = pool.remove(front);
        byes.push(player);
        assert(byes@ =~= taken(old(pool)@, positions));
    } else if bye_count == 2 {
        let front: usize = uWrap(round_index, size);
        let back: usize = if front <= wrap_before(round_index, size) {
            wrap_before(round_index, size - 1)
        } else {
            wrap_back(round_index, size - 1)
        };
        proof {
            lemma_mod_bound(round_index as int, size as int);
            lemma_mod_bound(-(round_index as int + 1), size as int - 1);
            lemma_mod_bound(-(round_index as int), size as int - 1);
            assert(positions.drop_first() =~= seq![back as int]);
            assert(positions.drop_first().drop_first() =~= Seq::<int>::empty());
        }
        let first = pool.remove(front);
        let second = pool.remove(back);
        byes.push(first);
        byes.push(second);
        assert(byes@ =~= taken(old(pool)@, positions));
    } else if bye_count == 3 {
        let front: usize = uWrap(round_index, size);
        let again: usize = uWrap(round_index, size - 1);
        let back: usize = if wrap_next(round_index, size) <= wrap_before(round_index, size) {
            wrap_before(round_index, size - 2)
        } else {
            wrap_back(round_index, size - 2)
        };
        proof {
            lemma_mod_bound(round_index as int, size as int);
            lemma_mod_bound(round_index as int, size as int - 1);
            lemma_mod_bound(-(round_index as int + 1), size as int - 2);
            lemma_mod_bound(-(round_index as int), size as int - 2);
            assert(positions.drop_first() =~= seq![again as int, back as int]);
            assert(positions.drop_first().drop_first() =~= seq![back as int]);
            assert(positions.drop_first().drop_first().drop_first() =~= Seq::<int>::empty());
        }
        let first = pool.remove(front);
        let second = pool.remove(again);
        let third = pool.remove(back);
        byes.push(first);
        byes.push(second);
        byes.push(third);
        assert(byes@ =~= taken(old(pool)@, positions));
    } else {
        assert(byes@ =~= taken(old(pool)@, positions));
    }
    byes
}

/// Takes the players at the distinct positions `i` and `j` out of `pool` and
/// makes them a team, the player at `i` first. The rest of the pool keeps its
/// order.
pub fn take_pair(pool: &mut Vec<usize>, i: usize, j: usize) -> (team: Team)
    requires
        i < old(pool).len(),
        j < old(pool).len(),
        i != j,
    ensures
        team.first == old(pool)[i as int],
        team.second == old(pool)[j as int],
        final(pool)@ == without_pair(old(pool)@, i as int, j as int),
        final(pool).len() == old(pool).len() - 2,
{
    let first = pool.remove(i);
    let shifted: usize = if j > i {
        j - 1
    } else {
        j
    };
    let second = pool.remove(shifted);
    Team { first, second }
}

/// Taking players out of a pool one by one loses nobody: those taken and
/// those remaining are together the players of the pool.
pub proof fn lemma_taken_and_remaining(pool: Seq<usize>, positions: Seq<int>)
    requires
        positions.len() <= pool.len(),
        forall|k: int| 0 <= k < positions.len() ==> 0 <= #[trigger] positions[k] < pool.len() - k,
    ensures
        taken(pool, positions).len() == positions.len(),
        remaining(pool, positions).len() == pool.len() - positions.len(),
        (taken(pool, positions) + remaining(pool, positions)).to_multiset()
            == pool.to_multiset(),
        pool.no_duplicates() ==> remaining(pool, positions).no_duplicates(),
    decreases positions.len(),
{
    if positions.len() == 0 {
        assert(taken(pool, positions) + remaining(pool, positions) =~= pool);
    } else {
        let p = positions[0];
        let rest = positions.drop_first();
        let smaller = pool.remove(p);
        assert forall|k: int| 0 <= k < rest.len() implies 0 <= #[trigger] rest[k] < smaller.len()
            - k by {
            assert(rest[k] == positions[k + 1]);
        }
        lemma_taken_and_remaining(smaller, rest);
        let head = seq![pool[p]];
        let t = taken(smaller, rest);
        let r = remaining(smaller, rest);
        assert(taken(pool, positions) + remaining(pool, positions) =~= head + (t + r));
        lemma_multiset_commutative(head, t + r);
        to_multiset_remove(pool, p);
        assert(head.to_multiset() =~= Multiset::<usize>::empty().insert(pool[p])) by {
            head.to_multiset_ensures();
            assert(head =~= Seq::<usize>::empty().push(pool[p]));
            Seq::<usize>::empty().to_multiset_ensures();
        }
        pool.to_multiset_ensures();
        assert(pool.to_multiset().count(pool[p]) > 0);
        assert((head + (t + r)).to_multiset() =~= pool.to_multiset());
        if pool.no_duplicates() {
            lemma_remove_keeps_distinct(pool, p);
        }
    }
}

/// Removing one element of a sequence without duplicates leaves none.
pub proof fn lemma_remove_keeps_distinct(pool: Seq<usize>, i: int)
    requires
        0 <= i < pool.len(),
        pool.no_duplicates(),
    ensures
        pool.remove(i).no_duplicates(),
{
    let smaller = pool.remove(i);
    assert forall|a: int, b: int| 0 <= a < smaller.len() && 0 <= b < smaller.len() && a
        != b implies smaller[a] != smaller[b] by {
        let a0 = if a < i { a } else { a + 1 };
        let b0 = if b < i { b } else { b + 1 };
        assert(smaller[a] == pool[a0]);
        assert(smaller[b] == pool[b0]);
    }
}

/// Taking a pair out of a pool loses nobody, and a pool without duplicates
/// yields a proper team and stays without duplicates.
pub proof fn lemma_without_pair(pool: Seq<usize>, i: int, j: int)
    requires
        0 <= i < pool.len(),
        0 <= j < pool.len(),
        i != j,
    ensures
        without_pair(pool, i, j).len() == pool.len() - 2,
        (seq![pool[i], pool[j]] + without_pair(pool, i, j)).to_multiset() == pool.to_multiset(),
        pool.no_duplicates() ==> pool[i] != pool[j] && without_pair(pool, i, j).no_duplicates(),
{
    let shifted = if j > i { j - 1 } else { j };
    assert(pool.remove(i)[shifted] == pool[j]);
    let positions = seq![i, shifted];
    reveal_with_fuel(taken, 3);
    reveal_with_fuel(remaining, 3);
    assert(positions.drop_first() =~= seq![shifted]);
    assert(positions.drop_first().drop_first() =~= Seq::<int>::empty());
    assert(taken(pool, positions) =~= seq![pool[i], pool[j]]);
    assert(remaining(pool, positions) == without_pair(pool, i, j));
    lemma_taken_and_remaining(pool, positions);
}

/// The positions of a round's sit-outs lie in the pool as it shrinks.
pub proof fn lemma_bye_positions_fit(round: int, size: int, byes: int)
    requires
        0 <= byes <= 3,
        byes <= size,
    ensures
        bye_positions(round, size, byes).len() == byes,
        forall|k: int|
            0 <= k < byes ==> 0 <= #[trigger] bye_positions(round, size, byes)[k] < size - k,
{
    if byes >= 1 {
        lemma_mod_bound(round, size);
    }
    if byes == 2 {
        lemma_mod_bound(-(round + 1), size - 1);
        lemma_mod_bound(-round, size - 1);
    }
    if byes == 3 {
        lemma_mod_bound(round, size - 1);
        lemma_mod_bound(-(round + 1), size - 2);
        lemma_mod_bound(-round, size - 2);
    }
}

/// The sit-outs rotate through the whole party: among any `player_count`
/// rounds in a row, each player sits out at least one.
pub proof fn lemma_byes_reach_everyone(
    player_count: nat,
    bye_count: nat,
    start: nat,
    player: usize,
)
    requires
        1 <= bye_count <= 3,
        bye_count <= player_count <= usize::MAX,
        1 <= player <= player_count,
    ensures
        exists|round: nat|
            start <= round < start + player_count && (#[trigger] bye_players(
                player_count,
                bye_count,
                round,
            )).contains(player),
{
    let n = player_count as int;
    let target = player as int - 1;
    let offset = wrapped(target - start as int, n);
    lemma_mod_bound(target - start as int, n);
    let round = (start + offset) as nat;
    // start + offset is target plus a multiple of the party's size
    let q = (target - start as int) / n;
    vstd::arithmetic::div_mod::lemma_fundamental_div_mod(target - start as int, n);
    assert(start + offset == (-q) * n + target) by (nonlinear_arith)
        requires
            target - start as int == n * q + offset,
    ;
    lemma_fundamental_div_mod_converse_mod(round as int, n, -q, target);
    assert(wrapped(round as int, n) == target);
    let positions = bye_positions(round as int, n, bye_count as int);
    assert(positions[0] == target);
    let byes = bye_players(player_count, bye_count, round);
    assert(byes[0] == everyone(player_count)[target]);
    assert(byes[0] == player);
    assert(byes.contains(player));
}

} // verus!
