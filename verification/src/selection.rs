//! Which members of a ranked population breed, and with whom.

use vstd::prelude::*;

verus! {

/// Size of the breeding pool for a population of `n`: a fifth of the
/// population, rounded down, but never fewer than one member.
pub open spec fn elite_size(n: nat) -> nat {
    if n / 5 == 0 {
        1
    } else {
        n / 5
    }
}

/// Computes [`elite_size`].
pub fn elite_count(num_individuals: usize) -> (elite: usize)
    ensures
        elite == elite_size(num_individuals as nat),
        num_individuals > 0 ==> 1 <= elite <= num_individuals,
{
    let fifth: usize = num_individuals / 5;
    if fifth == 0 {
        1
    } else {
        fifth
    }
}

/// The breeding pool is never empty and never larger than the population.
/// In particular a population too small for a fifth of it to be a whole
/// member still has a pool of one.
pub proof fn lemma_elite_size_bounds(n: nat)
    requires
        n > 0,
    ensures
        1 <= elite_size(n) <= n,
        n < 10 ==> elite_size(n) == 1,
        n >= 5 ==> elite_size(n) == n / 5,
{
}

/// The two positions in a breeding pool of `elite` members whose occupants
/// parent the offspring that fills `slot`.
///
/// Pairing is deterministic and round-robin: counting offspring slots from
/// the first one behind the pool, the `k`-th offspring descends from pool
/// member `k mod elite` and from the next pool member, wrapping around. A
/// pool of one pairs its only member with itself.
pub open spec fn parents_of(slot: nat, elite: nat) -> (nat, nat)
    recommends
        0 < elite <= slot,
{
    let first = ((slot - elite) % (elite as int)) as nat;
    let second = if first + 1 == elite {
        0
    } else {
        first + 1
    };
    (first, second)
}

/// Both parents come from the breeding pool.
pub proof fn lemma_parents_in_pool(slot: nat, elite: nat)
    requires
        0 < elite <= slot,
    ensures
        parents_of(slot, elite).0 < elite,
        parents_of(slot, elite).1 < elite,
{
}

/// Computes [`parents_of`].
pub fn breeding_pair(slot: usize, elite: usize) -> (pair: (usize, usize))
    requires
        0 < elite <= slot,
    ensures
        pair.0 == parents_of(slot as nat, elite as nat).0,
        pair.1 == parents_of(slot as nat, elite as nat).1,
        pair.0 < elite,
        pair.1 < elite,
{
    let first: usize = (slot - elite) % elite;
    let second: usize = if first + 1 == elite {
        0
    } else {
        first + 1
    };
    (first, second)
}

} // verus!
