//! Potion costs for a line of creatures fought one at a time.

use vstd::prelude::*;
use vstd::string::StrSliceExecFns;

verus! {

/// The creature kinds that appear in a single-combat line.
pub open spec fn valid_creature(c: char) -> bool {
    c == 'A' || c == 'B' || c == 'C'
}

pub open spec fn all_valid_creatures(s: Seq<char>) -> bool {
    forall|i: int| 0 <= i < s.len() ==> valid_creature(#[trigger] s[i])
}

/// Potions needed for one creature.
pub open spec fn creature_cost(c: char) -> nat {
    if c == 'A' {
        0
    } else if c == 'B' {
        1
    } else {
        3
    }
}

/// Potions needed for a whole line of creatures.
pub open spec fn total_cost(s: Seq<char>) -> nat
    decreases s.len(),
{
    if s.len() == 0 {
        0
    } else {
        total_cost(s.drop_last()) + creature_cost(s.last())
    }
}

/// A prefix of the line never costs more than the whole line.
proof fn lemma_prefix_cost_le(s: Seq<char>, i: int)
    requires
        0 <= i <= s.len(),
    ensures
        total_cost(s.take(i)) <= total_cost(s),
    decreases s.len(),
{
    if i < s.len() {
        assert(s.drop_last().take(i) =~= s.take(i));
        lemma_prefix_cost_le(s.drop_last(), i);
    } else {
        assert(s.take(i) =~= s);
    }
}

pub fn potions_for_creature(creature: char) -> (cost: u32)
    requires
        valid_creature(creature),
    ensures
        cost == creature_cost(creature),
{
    match creature {
        'A' => 0,
        'B' => 1,
        _ => 3,
    }
}

pub fn num_potions(creatures: &str) -> (total: u32)
    requires
        all_valid_creatures(creatures@),
        total_cost(creatures@) <= u32::MAX,
    ensures
        total == total_cost(creatures@),
{
    let n = creatures.unicode_len();
    let mut total: u32 = 0;
    let mut i: usize = 0;
    while i < n
        invariant
            n == creatures@.len(),
            0 <= i <= n,
            all_valid_creatures(creatures@),
            total_cost(creatures@) <= u32::MAX,
            total == total_cost(creatures@.take(i as int)),
        decreases n - i,
    {
        let c = creatures.get_char(i);
        proof {
            assert(creatures@.take(i + 1).drop_last() =~= creatures@.take(i as int));
            assert(creatures@.take(i + 1).last() == c);
            lemma_prefix_cost_le(creatures@, i + 1);
        }
        total = total + potions_for_creature(c);
        i = i + 1;
    }
    proof {
        assert(creatures@.take(n as int) =~= creatures@);
    }
    total
}

} // verus!
