//! Potion costs for a line of creatures fought two at a time.
//!
//! An `x` marks an empty slot in a pair.  When both slots of a pair hold a
//! creature, two extra potions are needed.

use vstd::prelude::*;
use vstd::string::StrSliceExecFns;

verus! {

/// The symbols that may appear in a paired line: a creature or an empty slot.
pub open spec fn valid_slot(c: char) -> bool {
    c == 'A' || c == 'B' || c == 'C' || c == 'D' || c == 'x'
}

pub open spec fn all_valid_slots(s: Seq<char>) -> bool {
    forall|i: int| 0 <= i < s.len() ==> valid_slot(#[trigger] s[i])
}

/// Potions needed for one creature (an empty slot is not a creature).
pub open spec fn creature_cost(c: char) -> nat {
    if c == 'A' {
        0
    } else if c == 'B' {
        1
    } else if c == 'C' {
        3
    } else {
        5
    }
}

/// How many of the slots hold a creature.
pub open spec fn creatures_in(chunk: Seq<char>) -> nat
    decreases chunk.len(),
{
    if chunk.len() == 0 {
        0
    } else {
        creatures_in(chunk.drop_last()) + if chunk.last() == 'x' { 0nat } else { 1nat }
    }
}

/// Summed creature costs of a chunk, empty slots contributing nothing.
pub open spec fn slots_cost(chunk: Seq<char>) -> nat
    decreases chunk.len(),
{
    if chunk.len() == 0 {
        0
    } else {
        slots_cost(chunk.drop_last()) + if chunk.last() == 'x' {
            0nat
        } else {
            creature_cost(chunk.last())
        }
    }
}

/// Potions needed for one pair: the creatures' own costs, plus two more
/// when the pair is full.
pub open spec fn pair_cost(chunk: Seq<char>) -> nat {
    slots_cost(chunk) + if creatures_in(chunk) == 2 {
        2nat
    } else {
        0nat
    }
}

/// Potions needed for a whole line, taken as pairs from the left.
pub open spec fn line_cost(s: Seq<char>) -> nat
    decreases s.len(),
{
    if s.len() == 0 {
        0
    } else if s.len() == 1 {
        pair_cost(s)
    } else {
        pair_cost(s.take(2)) + line_cost(s.skip(2))
    }
}

pub fn potions_for_creature(creature: char) -> (cost: u32)
    requires
        valid_slot(creature),
        creature != 'x',
    ensures
        cost == creature_cost(creature),
{
    match creature {
        'A' => 0,
        'B' => 1,
        'C' => 3,
        _ => 5,
    }
}

/// A prefix of a chunk never has more creatures, nor a higher cost.
proof fn lemma_chunk_prefix_le(s: Seq<char>, i: int)
    requires
        0 <= i <= s.len(),
    ensures
        slots_cost(s.take(i)) <= slots_cost(s),
        creatures_in(s.take(i)) <= creatures_in(s),
    decreases s.len(),
{
    if i < s.len() {
        assert(s.drop_last().take(i) =~= s.take(i));
        lemma_chunk_prefix_le(s.drop_last(), i);
    } else {
        assert(s.take(i) =~= s);
    }
}

/// Potions needed for the slots of one pair: chunks hold at most two, but
/// the tally works for any number of slots, with the bonus exactly when
/// two creatures stand in it.
pub fn potions_for_pair(pair: &[char]) -> (cost: u32)
    requires
        all_valid_slots(pair@),
        pair_cost(pair@) <= u32::MAX,
    ensures
        cost == pair_cost(pair@),
{
    let mut num_creatures: usize = 0;
    let mut num_potions: u32 = 0;
    let n = pair.len();
    let mut i: usize = 0;
    while i < n
        invariant
            n == pair@.len(),
            0 <= i <= n,
            all_valid_slots(pair@),
            pair_cost(pair@) <= u32::MAX,
            num_creatures == creatures_in(pair@.take(i as int)),
            num_potions == slots_cost(pair@.take(i as int)),
            num_creatures <= i,
        decreases n - i,
    {
        let c = pair[i];
        proof {
            assert(pair@.take(i + 1).drop_last() =~= pair@.take(i as int));
            assert(pair@.take(i + 1).last() == pair@[i as int]);
            lemma_chunk_prefix_le(pair@, i + 1);
        }
        if c != 'x' {
            num_creatures = num_creatures + 1;
            num_potions = num_potions + potions_for_creature(c);
        }
        i = i + 1;
    }
    proof {
        assert(pair@.take(n as int) =~= pair@);
    }
    if num_creatures == 2 {
        num_potions = num_potions + 2;
    }
    num_potions
}

/// A proper prefix of the line, cut at a pair boundary, never costs more
/// than the whole line.
proof fn lemma_line_cost_skip_le(s: Seq<char>, i: int)
    requires
        0 <= i <= s.len(),
        i % 2 == 0 || i == s.len(),
    ensures
        line_cost(s) >= line_cost(s.skip(i)),
    decreases i,
{
    if i == 0 {
        assert(s.skip(0) =~= s);
    } else if i == s.len() && i % 2 != 0 {
        lemma_line_cost_skip_le(s, i - 1);
        assert(s.skip(i - 1).len() == 1);
        assert(line_cost(s.skip(i)) == 0);
    } else {
        lemma_line_cost_skip_le(s, i - 2);
        assert(s.skip(i - 2).skip(2) =~= s.skip(i));
        assert(s.skip(i - 2).len() >= 2);
    }
}

pub fn num_potions(creatures: &str) -> (total: u32)
    requires
        all_valid_slots(creatures@),
        line_cost(creatures@) <= u32::MAX,
    ensures
        total == line_cost(creatures@),
{
    let n = creatures.unicode_len();
    let mut total: u32 = 0;
    let mut i: usize = 0;
    proof {
        assert(creatures@.skip(0) =~= creatures@);
    }
    while i < n
        invariant
            n == creatures@.len(),
            0 <= i <= n,
            i % 2 == 0 || i == n,
            all_valid_slots(creatures@),
            line_cost(creatures@) <= u32::MAX,
            total + line_cost(creatures@.skip(i as int)) == line_cost(creatures@),
        decreases n - i,
    {
        let mut chunk: Vec<char> = Vec::new();
        chunk.push(creatures.get_char(i));
        let j = if i + 1 < n {
            chunk.push(creatures.get_char(i + 1));
            i + 2
        } else {
            i + 1
        };
        proof {
            let rest = creatures@.skip(i as int);
            if i + 1 < n {
                assert(chunk@ =~= rest.take(2));
                assert(rest.skip(2) =~= creatures@.skip(j as int));
            } else {
                assert(chunk@ =~= rest);
                assert(rest.len() == 1);
                assert(creatures@.skip(j as int).len() == 0);
            }
            lemma_line_cost_skip_le(creatures@, i as int);
        }
        let cost = potions_for_pair(chunk.as_slice());
        total = total + cost;
        i = j;
    }
    proof {
        assert(creatures@.skip(n as int).len() == 0);
    }
    total
}

} // verus!
