//! Potion costs for a line of creatures fought three at a time.
//!
//! An `x` marks an empty slot in a trio.  Each creature in a trio needs one
//! extra potion per other creature standing beside it.

use vstd::prelude::*;
use vstd::string::StrSliceExecFns;

verus! {

/// The symbols that may appear in a grouped line: a creature or an empty slot.
pub open spec fn valid_slot(c: char) -> bool {
    c == 'A' || c == 'B' || c == 'C' || c == 'D' || c == 'x'
}

pub open spec fn all_valid_slots(s: Seq<char>) -> bool {
    forall|i: int| 0 <= i < s.len() ==> valid_slot(#[trigger] s[i])
}

/// Potions needed for one creature (an empty slot is not a creature).
pub open spec fn creature_cost(c: char) -> nat {
    if c == 'A' {
        0
    } else if c == 'B' {
        1
    } else if c == 'C' {
        3
    } else {
        5
    }
}

/// How many of the slots hold a creature.
pub open spec fn creatures_in(chunk: Seq<char>) -> nat
    decreases chunk.len(),
{
    if chunk.len() == 0 {
        0
    } else {
        creatures_in(chunk.drop_last()) + if chunk.last() == 'x' { 0nat } else { 1nat }
    }
}

/// Summed creature costs of a chunk, empty slots contributing nothing.
pub open spec fn slots_cost(chunk: Seq<char>) -> nat
    decreases chunk.len(),
{
    if chunk.len() == 0 {
        0
    } else {
        slots_cost(chunk.drop_last()) + if chunk.last() == 'x' {
            0nat
        } else {
            creature_cost(chunk.last())
        }
    }
}

/// Potions needed for one trio: the creatures' own costs, plus one potion
/// per ordered pair of distinct creatures in the trio.
pub open spec fn group_cost(chunk: Seq<char>) -> nat {
    slots_cost(chunk) + creatures_in(chunk) * (
    if creatures_in(chunk) == 0 {
        0nat
    } else {
        (creatures_in(chunk) - 1) as nat
    })
}

/// Potions needed for a whole line, taken as trios from the left.
pub open spec fn line_cost(s: Seq<char>) -> nat
    decreases s.len(),
{
    if s.len() == 0 {
        0
    } else if s.len() <= 3 {
        group_cost(s)
    } else {
        group_cost(s.take(3)) + line_cost(s.skip(3))
    }
}

pub fn potions_for_creature(creature: char) -> (cost: u32)
    requires
        valid_slot(creature),
        creature != 'x',
    ensures
        cost == creature_cost(creature),
{
    match creature {
        'A' => 0,
        'B' => 1,
        'C' => 3,
        _ => 5,
    }
}

/// A prefix of a chunk never has more creatures, nor a higher cost.
proof fn lemma_chunk_prefix_le(s: Seq<char>, i: int)
    requires
        0 <= i <= s.len(),
    ensures
        slots_cost(s.take(i)) <= slots_cost(s),
        creatures_in(s.take(i)) <= creatures_in(s),
    decreases s.len(),
{
    if i < s.len() {
        assert(s.drop_last().take(i) =~= s.take(i));
        lemma_chunk_prefix_le(s.drop_last(), i);
    } else {
        assert(s.take(i) =~= s);
    }
}

/// Potions needed for the slots of one trio: chunks hold at most three,
/// but the tally works for any number of slots, each creature paying one
/// potion per other creature beside it.
pub fn potions_for_group(group: &[char]) -> (cost: u32)
    requires
        all_valid_slots(group@),
        group_cost(group@) <= u32::MAX,
    ensures
        cost == group_cost(group@),
{
    let mut num_creatures: usize = 0;
    let mut num_potions: u32 = 0;
    let n = group.len();
    let mut i: usize = 0;
    while i < n
        invariant
            n == group@.len(),
            0 <= i <= n,
            all_valid_slots(group@),
            group_cost(group@) <= u32::MAX,
            num_creatures == creatures_in(group@.take(i as int)),
            num_potions == slots_cost(group@.take(i as int)),
            num_creatures <= i,
        decreases n - i,
    {
        let c = *vstd::slice::slice_index_get(group, i);
        proof {
            assert(group@.take(i + 1).drop_last() =~= group@.take(i as int));
            assert(group@.take(i + 1).last() == group@[i as int]);
            lemma_chunk_prefix_le(group@, i + 1);
        }
        if c != 'x' {
            num_creatures = num_creatures + 1;
            num_potions = num_potions + potions_for_creature(c);
        }
        i = i + 1;
    }
    proof {
        assert(group@.take(n as int) =~= group@);
        let k = creatures_in(group@);
        if k > 0 {
            assert(group_cost(group@) == slots_cost(group@) + k * ((k - 1) as nat));
            assert(k * ((k - 1) as nat) <= u32::MAX);
            assert(k <= 65536) by (nonlinear_arith)
                requires
                    k * ((k - 1) as nat) <= u32::MAX,
                    k > 0,
            ;
        }
    }
    if num_creatures > 0 {
        let bonus = num_creatures * (num_creatures - 1);
        num_potions = num_potions + bonus as u32;
    }
    num_potions
}

/// A proper prefix of the line, cut at a trio boundary, never costs more
/// than the whole line.
proof fn lemma_line_cost_skip_le(s: Seq<char>, i: int)
    requires
        0 <= i <= s.len(),
        i % 3 == 0 || i == s.len(),
    ensures
        line_cost(s) >= line_cost(s.skip(i)),
    decreases i,
{
    if i == 0 {
        assert(s.skip(0) =~= s);
    } else if i == s.len() && i % 3 != 0 {
        let b = i - i % 3;
        lemma_line_cost_skip_le(s, b);
        assert(s.skip(b).len() == i - b <= 3);
        assert(line_cost(s.skip(i)) == 0);
    } else {
        lemma_line_cost_skip_le(s, i - 3);
        assert(s.skip(i - 3).skip(3) =~= s.skip(i));
        assert(s.skip(i - 3).len() >= 3);
    }
}

pub fn num_potions(creatures: &str) -> (total: u32)
    requires
        all_valid_slots(creatures@),
        line_cost(creatures@) <= u32::MAX,
    ensures
        total == line_cost(creatures@),
{
    let n = creatures.unicode_len();
    let mut total: u32 = 0;
    let mut i: usize = 0;
    proof {
        assert(creatures@.skip(0) =~= creatures@);
    }
    while i < n
        invariant
            n == creatures@.len(),
            0 <= i <= n,
            i % 3 == 0 || i == n,
            all_valid_slots(creatures@),
            line_cost(creatures@) <= u32::MAX,
            total + line_cost(creatures@.skip(i as int)) == line_cost(creatures@),
        decreases n - i,
    {
        let mut chunk: Vec<char> = Vec::new();
        let mut j = i;
        while j < n && j - i < 3
            invariant
                n == creatures@.len(),
                i <= j <= n,
                j <= i + 3,
                chunk@ =~= creatures@.subrange(i as int, j as int),
            decreases n - j,
        {
            chunk.push(creatures.get_char(j));
            j = j + 1;
        }
        proof {
            let rest = creatures@.skip(i as int);
            if i + 3 <= n {
                assert(chunk@ =~= rest.take(3));
                assert(rest.skip(3) =~= creatures@.skip(j as int));
            } else {
                assert(chunk@ =~= rest);
                assert(rest.len() <= 3);
                assert(creatures@.skip(j as int).len() == 0);
            }
            lemma_line_cost_skip_le(creatures@, i as int);
        }
        let cost = potions_for_group(chunk.as_slice());
        total = total + cost;
        i = j;
    }
    proof {
        assert(creatures@.skip(n as int).len() == 0);
    }
    total
}

} // verus!
