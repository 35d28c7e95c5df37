//! The overlap-aware rune count: how many distinct text positions are
//! covered by an occurrence of any word, or of any word's reversal.
//!
//! The input holds a `WORDS:` line, a blank line, and then the text,
//! which runs to the end of the input, newlines included.

use vstd::prelude::*;
use vstd::string::StrSliceExecFns;
use crate::matcher::Automaton;
use crate::matcher::covered_by;
use crate::matcher::covered_set;
use crate::matcher::ends_at;
use crate::matcher::lemma_covered_position_has_occurrence;
use crate::matcher::views_of;
use crate::matcher::pattern_set;
use crate::parsing::find_char;
use crate::parsing::find_from;
use crate::parsing::lemma_find_from_props;
use crate::parsing::split_on;
use crate::parsing::split_commas;
use crate::parsing::word_views;
use crate::parsing::has_words_prefix;
use crate::parsing::check_words_prefix;

verus! {

#[derive(Debug, PartialEq, Eq, Structural)]
pub enum ChallengeParseError {
    MissingWordLine,
    MissingPrefixInWords,
    MissingMiddleLine,
    MiddleLineNotBlank,
    MissingTextLine,
}

#[derive(Debug)]
pub struct Challenge {
    pub words: Vec<String>,
    pub text: String,
}

/// What parsing an input yields: the word list and the text, or the
/// first structural fault found.  The word line is taken up to the first
/// newline and must carry the `WORDS:` prefix; the second line must be
/// blank; the text is everything after it.  The first segment always
/// exists, so a missing word line is never reported here.
pub open spec fn parse_outcome(s: Seq<char>) -> Result<
    (Seq<Seq<char>>, Seq<char>),
    ChallengeParseError,
> {
    let nl1 = find_from(s, '\n', 0);
    let head = s.take(nl1);
    if !has_words_prefix(head) {
        Err(ChallengeParseError::MissingPrefixInWords)
    } else {
        let words = split_on(head.skip(6), ',');
        if nl1 >= s.len() {
            Err(ChallengeParseError::MissingMiddleLine)
        } else {
            let rest = s.skip(nl1 + 1);
            let nl2 = find_from(rest, '\n', 0);
            if nl2 >= rest.len() {
                if rest.len() > 0 {
                    Err(ChallengeParseError::MiddleLineNotBlank)
                } else {
                    Err(ChallengeParseError::MissingTextLine)
                }
            } else if nl2 != 0 {
                Err(ChallengeParseError::MiddleLineNotBlank)
            } else {
                Ok((words, rest.skip(1)))
            }
        }
    }
}

/// For each word, its reversal and then the word itself.
pub open spec fn augmented_patterns(ws: Seq<Seq<char>>) -> Seq<Seq<char>> {
    Seq::new(
        2 * ws.len(),
        |j: int|
            if j % 2 == 0 {
                ws[j / 2].reverse()
            } else {
                ws[j / 2]
            },
    )
}

impl Challenge {
    pub fn parse_input(s: &str) -> (r: Result<Challenge, ChallengeParseError>)
        ensures
            match (r, parse_outcome(s@)) {
                (Ok(c), Ok(pair)) => word_views(c.words@) == pair.0 && c.text@ == pair.1,
                (Err(e1), Err(e2)) => e1 == e2,
                _ => false,
            },
    {
        let n = s.unicode_len();
        let nl1 = find_char(s, '\n', 0);
        proof {
            lemma_find_from_props(s@, '\n', 0);
        }
        let head = s.substring_char(0, nl1);
        proof {
            assert(head@ =~= s@.take(nl1 as int));
        }
        if !check_words_prefix(head) {
            return Err(ChallengeParseError::MissingPrefixInWords);
        }
        let hn = head.unicode_len();
        let words_part = head.substring_char(6, hn);
        proof {
            assert(words_part@ =~= head@.skip(6));
        }
        let words = split_commas(words_part);
        if nl1 == n {
            return Err(ChallengeParseError::MissingMiddleLine);
        }
        let rest = s.substring_char(nl1 + 1, n);
        proof {
            assert(rest@ =~= s@.skip(nl1 + 1));
        }
        let rn = rest.unicode_len();
        let nl2 = find_char(rest, '\n', 0);
        proof {
            lemma_find_from_props(rest@, '\n', 0);
        }
        if nl2 == rn {
            if rn > 0 {
                return Err(ChallengeParseError::MiddleLineNotBlank);
            } else {
                return Err(ChallengeParseError::MissingTextLine);
            }
        }
        if nl2 != 0 {
            return Err(ChallengeParseError::MiddleLineNotBlank);
        }
        let text = rest.substring_char(1, rn).to_owned();
        proof {
            assert(text@ =~= rest@.skip(1));
        }
        Ok(Challenge { words, text })
    }

    /// The puzzle's answer: how many distinct text positions lie under at
    /// least one occurrence of at least one pattern of the word list's
    /// reversal-augmented pattern set.  Overlapping occurrences, and
    /// several occurrences ending at one position, all count once per
    /// position.
    pub fn count_runic_symbols(self) -> (num: usize)
        requires
            forall|k: int| 0 <= k < self.words@.len() ==> (#[trigger] self.words@[k])@.len() >= 1,
            self.words@.len() <= usize::MAX / 2,
        ensures
            num == covered_set(
                augmented_patterns(word_views(self.words@)),
                self.text@,
            ).len(),
    {
        let pats = pattern_set(&self.words);
        proof {
            let ws = word_views(self.words@);
            assert(views_of(pats@) =~= augmented_patterns(ws)) by {
                assert forall|j: int|
                    0 <= j < 2 * ws.len() implies views_of(pats@)[j] == augmented_patterns(ws)[
                    j
                ] by {
                    let k = j / 2;
                    assert(ws[k] == self.words@[k]@);
                    assert(pats@[2 * k]@ == (self.words@[k])@.reverse());
                    if j % 2 == 0 {
                        assert(j == 2 * k);
                    } else {
                        assert(j == 2 * k + 1);
                        assert(pats@[2 * k + 1]@ == self.words@[k]@);
                    }
                }
            }
            assert forall|k: int|
                0 <= k < pats@.len() implies (#[trigger] pats@[k])@.len() >= 1 by {
                assert(views_of(pats@)[k] == pats@[k]@);
                assert(augmented_patterns(word_views(self.words@))[k].len() >= 1) by {
                    let kk = k / 2;
                    assert(word_views(self.words@)[kk] == self.words@[kk]@);
                    assert(self.words@[kk]@.len() >= 1);
                }
            }
        }
        let automaton = Automaton::build(&pats);
        automaton.count(self.text.as_str())
    }
}

impl core::str::FromStr for Challenge {
    type Err = ChallengeParseError;

    fn from_str(s: &str) -> Result<Self, Self::Err> {
        Challenge::parse_input(s)
    }
}

/// Reversing every word swaps each pattern pair's entries but leaves the
/// reversal-augmented pattern set, taken as a set of patterns, unchanged:
/// the covered-position set, and with it the count, stays the same.
pub proof fn lemma_reversed_words_cover_alike(ws: Seq<Seq<char>>, text: Seq<char>)
    ensures
        covered_set(augmented_patterns(ws.map_values(|w: Seq<char>| w.reverse())), text)
            == covered_set(augmented_patterns(ws), text),
{
    let rws = ws.map_values(|w: Seq<char>| w.reverse());
    let p1 = augmented_patterns(rws);
    let p2 = augmented_patterns(ws);
    assert forall|k: int| 0 <= k < ws.len() implies (#[trigger] ws[k]).reverse().reverse() == ws[
        k
    ] by {
        let w = ws[k];
        assert(w.reverse().reverse() =~= w) by {
            assert forall|i: int| 0 <= i < w.len() implies w.reverse().reverse()[i] == w[i] by {
                assert(w.reverse()[w.len() - 1 - i] == w[i]);
            }
        }
    }
    assert forall|j: int| 0 <= j < p1.len() implies #[trigger] p1[j] == p2[
        if j % 2 == 0 {
            j + 1
        } else {
            j - 1
        }
    ] by {
        let k = j / 2;
        assert(rws[k] == ws[k].reverse());
        if j % 2 == 0 {
            assert(j == 2 * k);
            assert(p1[j] == rws[k].reverse());
            assert(p2[j + 1] == ws[k]);
        } else {
            assert(j == 2 * k + 1);
            assert(p1[j] == rws[k]);
            assert(p2[j - 1] == ws[k].reverse());
        }
    }
    assert forall|p: int| covered_by(p1, text, p) implies covered_by(p2, text, p) by {
        let (k, i) = choose|k: int, i: int|
            ends_at(p1, text, k, i) && i + 1 - p1[k].len() <= p <= i;
        let k2 = if k % 2 == 0 {
            k + 1
        } else {
            k - 1
        };
        assert(p1[k] == p2[k2]);
        assert(ends_at(p2, text, k2, i) && i + 1 - p2[k2].len() <= p <= i);
    }
    assert forall|p: int| covered_by(p2, text, p) implies covered_by(p1, text, p) by {
        let (k, i) = choose|k: int, i: int|
            ends_at(p2, text, k, i) && i + 1 - p2[k].len() <= p <= i;
        let k2 = if k % 2 == 0 {
            k + 1
        } else {
            k - 1
        };
        assert(p1[k2] == p2[k]);
        assert(ends_at(p1, text, k2, i) && i + 1 - p1[k2].len() <= p <= i);
    }
    assert(covered_set(p1, text) =~= covered_set(p2, text));
}

/// A position is counted exactly when some word, or some word's reversal,
/// occurs literally at an offset whose span holds the position.
pub proof fn lemma_count_is_word_occurrence_cover(ws: Seq<Seq<char>>, text: Seq<char>, p: int)
    ensures
        covered_set(augmented_patterns(ws), text).contains(p) <==> exists|k: int, start: int|
            {
                &&& 0 <= k < ws.len()
                &&& 0 <= start
                &&& start + ws[k].len() <= text.len()
                &&& start <= p < start + ws[k].len()
                &&& (#[trigger] text.subrange(start, start + ws[k].len()) == ws[k]
                    || text.subrange(start, start + ws[k].len()) == ws[k].reverse())
            },
{
    let pats = augmented_patterns(ws);
    if covered_set(pats, text).contains(p) {
        lemma_covered_position_has_occurrence(pats, text, p);
        let (k0, start) = choose|k0: int, start: int|
            {
                &&& 0 <= k0 < pats.len()
                &&& 0 <= start
                &&& start + pats[k0].len() <= text.len()
                &&& #[trigger] text.subrange(start, start + pats[k0].len()) == pats[k0]
                &&& start <= p < start + pats[k0].len()
            };
        let k = k0 / 2;
        assert(ws[k].reverse().len() == ws[k].len());
        if k0 % 2 == 0 {
            assert(k0 == 2 * k);
            assert(pats[k0] == ws[k].reverse());
        } else {
            assert(k0 == 2 * k + 1);
            assert(pats[k0] == ws[k]);
        }
        assert(0 <= k < ws.len() && 0 <= start && start + ws[k].len() <= text.len() && start <= p
            < start + ws[k].len() && (text.subrange(start, start + ws[k].len()) == ws[k]
            || text.subrange(start, start + ws[k].len()) == ws[k].reverse()));
    }
    if exists|k: int, start: int|
        {
            &&& 0 <= k < ws.len()
            &&& 0 <= start
            &&& start + ws[k].len() <= text.len()
            &&& start <= p < start + ws[k].len()
            &&& (#[trigger] text.subrange(start, start + ws[k].len()) == ws[k]
                || text.subrange(start, start + ws[k].len()) == ws[k].reverse())
        } {
        let (k, start) = choose|k: int, start: int|
            {
                &&& 0 <= k < ws.len()
                &&& 0 <= start
                &&& start + ws[k].len() <= text.len()
                &&& start <= p < start + ws[k].len()
                &&& (#[trigger] text.subrange(start, start + ws[k].len()) == ws[k]
                    || text.subrange(start, start + ws[k].len()) == ws[k].reverse())
            };
        let wlen = ws[k].len() as int;
        let i = start + wlen - 1;
        let k0 = if text.subrange(start, start + wlen) == ws[k] {
            2 * k + 1
        } else {
            2 * k
        };
        assert(ws[k].reverse().len() == ws[k].len());
        assert(pats[k0] == text.subrange(start, start + wlen));
        assert(pats[k0].is_suffix_of(text.take(i + 1))) by {
            assert(pats[k0] =~= text.take(i + 1).subrange(i + 1 - wlen, i + 1)) by {
                assert forall|q: int| 0 <= q < wlen implies text.take(i + 1).subrange(
                    i + 1 - wlen,
                    i + 1,
                )[q] == pats[k0][q] by {
                    assert(text.take(i + 1)[start + q] == text[start + q]);
                    assert(pats[k0][q] == text.subrange(start, start + wlen)[q]);
                }
            }
        }
        assert(ends_at(pats, text, k0, i) && i + 1 - pats[k0].len() <= p <= i);
        assert(covered_by(pats, text, p));
    }
}

} // verus!
