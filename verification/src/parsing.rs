//! Helpers for the puzzle input format: a `WORDS:` line, a blank
//! separator line, then the text to scan.

use vstd::prelude::*;
use vstd::string::StrSliceExecFns;

verus! {

/// Index of the first occurrence of `c` in `s` at or after `from`, or
/// `s.len()` if there is none.
pub open spec fn find_from(s: Seq<char>, c: char, from: int) -> int
    decreases s.len() - from,
{
    if from < 0 || from >= s.len() {
        s.len() as int
    } else if s[from] == c {
        from
    } else {
        find_from(s, c, from + 1)
    }
}

pub proof fn lemma_find_from_props(s: Seq<char>, c: char, from: int)
    requires
        0 <= from <= s.len(),
    ensures
        from <= find_from(s, c, from) <= s.len(),
        find_from(s, c, from) < s.len() ==> s[find_from(s, c, from)] == c,
        forall|j: int| from <= j < find_from(s, c, from) ==> s[j] != c,
    decreases s.len() - from,
{
    if from < s.len() && s[from] != c {
        lemma_find_from_props(s, c, from + 1);
    }
}

/// `find_from` returns the one position with these properties.
pub proof fn lemma_find_from_unique(s: Seq<char>, c: char, from: int, x: int)
    requires
        0 <= from <= x <= s.len(),
        x < s.len() ==> s[x] == c,
        forall|j: int| from <= j < x ==> s[j] != c,
    ensures
        find_from(s, c, from) == x,
    decreases x - from,
{
    if from < x {
        lemma_find_from_unique(s, c, from + 1, x);
    }
}

pub fn find_char(s: &str, c: char, from: usize) -> (r: usize)
    requires
        from <= s@.len(),
    ensures
        r == find_from(s@, c, from as int),
{
    let n = s.unicode_len();
    let mut i = from;
    while i < n
        invariant
            from <= i <= n,
            n == s@.len(),
            find_from(s@, c, from as int) == find_from(s@, c, i as int),
        decreases n - i,
    {
        let ch = s.get_char(i);
        if ch == c {
            return i;
        }
        i = i + 1;
    }
    i
}

/// The segments of `s` between occurrences of `c`: one more segment than
/// there are occurrences, empty segments included.
pub open spec fn split_on(s: Seq<char>, c: char) -> Seq<Seq<char>>
    decreases s.len(),
{
    let i = find_from(s, c, 0);
    if 0 <= i < s.len() {
        seq![s.take(i)] + split_on(s.skip(i + 1), c)
    } else {
        seq![s]
    }
}

/// The character sequences held by a list of words.
pub open spec fn word_views(ws: Seq<String>) -> Seq<Seq<char>> {
    ws.map_values(|w: String| w@)
}

/// A line with its trailing carriage return, if any, removed.
pub open spec fn strip_cr(t: Seq<char>) -> Seq<char> {
    if t.len() > 0 && t.last() == '\r' {
        t.drop_last()
    } else {
        t
    }
}

pub fn split_commas(s: &str) -> (r: Vec<String>)
    ensures
        word_views(r@) == split_on(s@, ','),
{
    let n = s.unicode_len();
    let mut r: Vec<String> = Vec::new();
    let mut pos: usize = 0;
    proof {
        assert(s@.skip(0) =~= s@);
        assert(word_views(r@) =~= Seq::<Seq<char>>::empty());
        assert(word_views(r@) + split_on(s@, ',') =~= split_on(s@, ','));
    }
    loop
        invariant_except_break
            word_views(r@) + split_on(s@.skip(pos as int), ',') == split_on(s@, ','),
        invariant
            pos <= n,
            n == s@.len(),
        ensures
            word_views(r@) == split_on(s@, ','),
        decreases n - pos,
    {
        let j = find_char(s, ',', pos);
        proof {
            lemma_find_from_props(s@, ',', pos as int);
        }
        let seg = s.substring_char(pos, j).to_owned();
        let ghost oldr = r@;
        r.push(seg);
        proof {
            let rest = s@.skip(pos as int);
            lemma_find_from_unique(rest, ',', 0, j - pos);
            assert(word_views(r@) =~= word_views(oldr).push(seg@));
            if j == n {
                assert(seg@ =~= rest);
                assert(split_on(rest, ',') == seq![rest]);
                assert(word_views(oldr) + split_on(rest, ',') =~= word_views(r@));
                assert(word_views(r@) == split_on(s@, ','));
            } else {
                assert(seg@ =~= rest.take(j - pos));
                assert(rest.skip(j - pos + 1) =~= s@.skip(j + 1));
                assert(split_on(rest, ',') == seq![rest.take(j - pos)] + split_on(
                    s@.skip(j + 1),
                    ',',
                ));
                assert(word_views(oldr) + split_on(rest, ',') =~= word_views(r@) + split_on(
                    s@.skip(j + 1),
                    ',',
                ));
            }
        }
        if j == n {
            break;
        }
        pos = j + 1;
    }
    r
}

/// Does the line start with the literal `WORDS:` prefix?
pub open spec fn has_words_prefix(s: Seq<char>) -> bool {
    s.len() >= 6 && s[0] == 'W' && s[1] == 'O' && s[2] == 'R' && s[3] == 'D' && s[4] == 'S'
        && s[5] == ':'
}

pub fn check_words_prefix(s: &str) -> (r: bool)
    ensures
        r == has_words_prefix(s@),
{
    let n = s.unicode_len();
    if n < 6 {
        return false;
    }
    s.get_char(0) == 'W' && s.get_char(1) == 'O' && s.get_char(2) == 'R' && s.get_char(3) == 'D'
        && s.get_char(4) == 'S' && s.get_char(5) == ':'
}

} // verus!
