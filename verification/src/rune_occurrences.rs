//! The first, naive rune count: the words joined into one alternation
//! pattern, and the text scanned for successive non-overlapping matches.
//! Occurrences that overlap an earlier match are missed, so this count
//! falls short of the overlap-aware one wherever occurrences overlap.
//!
//! The input holds a `WORDS:` line, a blank line, and then a single text
//! line; later lines are ignored.

use vstd::prelude::*;
use vstd::string::StrSliceExecFns;
use vstd::string::StringExecFns;
use crate::parsing::find_char;
use crate::parsing::find_from;
use crate::parsing::lemma_find_from_props;
use crate::parsing::split_on;
use crate::parsing::split_commas;
use crate::parsing::strip_cr;
use crate::parsing::word_views;
use crate::parsing::has_words_prefix;
use crate::parsing::check_words_prefix;

verus! {

#[derive(Debug, PartialEq, Eq, Structural)]
pub enum ChallengeParseError {
    MissingWordLine,
    MissingPrefixInWords,
    MissingMiddleLine,
    MiddleLineNotBlank,
    MissingTextLine,
}

#[derive(Debug)]
pub struct Challenge {
    pub words: Vec<String>,
    pub text: String,
}

/// Whether the alternation pattern is one the regex engine accepts;
/// it depends on the pattern alone.
pub uninterp spec fn regex_accepts(pattern: Seq<char>) -> bool;

/// The number of successive non-overlapping leftmost matches of the
/// pattern in the text; it depends on the pattern and the text alone.
pub uninterp spec fn regex_match_count(pattern: Seq<char>, text: Seq<char>) -> nat;

/// Relies on regex::Regex::new: whether a pattern compiles is a function
/// of the pattern alone.
#[verifier::external_body]
fn regex_pattern_valid(pattern: &str) -> (r: bool)
    ensures
        r == regex_accepts(pattern@),
{
    regex::Regex::new(pattern).is_ok()
}

/// Relies on regex::Regex::new and regex::Regex::find_iter: `new` accepts
/// exactly the syntactically valid patterns, and `find_iter` walks the
/// successive non-overlapping leftmost matches, a function of the pattern
/// and the text alone.
#[verifier::external_body]
fn regex_count_matches(pattern: &str, text: &str) -> (r: Option<usize>)
    ensures
        r is Some <==> regex_accepts(pattern@),
        r matches Some(n) ==> n == regex_match_count(pattern@, text@),
{
    regex::Regex::new(pattern).ok().map(|re| re.find_iter(text).count())
}

/// The words joined into one alternation pattern, `|` between them.
pub open spec fn joined(ws: Seq<Seq<char>>) -> Seq<char>
    decreases ws.len(),
{
    if ws.len() == 0 {
        Seq::empty()
    } else if ws.len() == 1 {
        ws[0]
    } else {
        joined(ws.drop_last()) + seq!['|'] + ws.last()
    }
}

fn join_words(words: &Vec<String>) -> (r: String)
    ensures
        r@ == joined(word_views(words@)),
{
    let nw = words.len();
    let mut r = String::new();
    let mut i: usize = 0;
    proof {
        reveal_strlit("|");
        assert(word_views(words@).take(0) =~= Seq::<Seq<char>>::empty());
    }
    while i < nw
        invariant
            nw == words@.len(),
            0 <= i <= nw,
            r@ == joined(word_views(words@).take(i as int)),
        decreases nw - i,
    {
        let w = vstd::slice::slice_index_get(words.as_slice(), i);
        proof {
            reveal_strlit("|");
            let ws = word_views(words@);
            assert(ws.take(i + 1).drop_last() =~= ws.take(i as int));
            assert(ws.take(i + 1).last() == words@[i as int]@);
            if i > 0 {
                assert(joined(ws.take(i + 1)) == joined(ws.take(i as int)) + seq!['|']
                    + words@[i as int]@);
            }
        }
        if i > 0 {
            r.append("|");
            proof {
                assert("|"@ =~= seq!['|']);
            }
        }
        r.append(w.as_str());
        i = i + 1;
    }
    proof {
        assert(word_views(words@).take(nw as int) =~= word_views(words@));
    }
    r
}

/// The line that ends before position `nl` of `s`: a line terminated by a
/// newline there sheds a trailing carriage return, while a final line that
/// runs to the end of the input keeps one.
pub open spec fn line_segment(s: Seq<char>, nl: int) -> Seq<char> {
    if nl < s.len() {
        strip_cr(s.take(nl))
    } else {
        s.take(nl)
    }
}

impl Challenge {
    /// What parsing an input yields, line-oriented: the first line must
    /// carry the `WORDS:` prefix, the second must be blank, and the third
    /// is the text; an empty input has no word line at all, and only a
    /// newline-terminated line sheds a trailing carriage return.
    pub open spec fn parse_outcome(s: Seq<char>) -> Result<
        (Seq<Seq<char>>, Seq<char>),
        ChallengeParseError,
    > {
        if s.len() == 0 {
            Err(ChallengeParseError::MissingWordLine)
        } else {
            let nl1 = find_from(s, '\n', 0);
            let line1 = line_segment(s, nl1);
            if !has_words_prefix(line1) {
                Err(ChallengeParseError::MissingPrefixInWords)
            } else {
                let words = split_on(line1.skip(6), ',');
                if nl1 >= s.len() || s.skip(nl1 + 1).len() == 0 {
                    Err(ChallengeParseError::MissingMiddleLine)
                } else {
                    let r1 = s.skip(nl1 + 1);
                    let nl2 = find_from(r1, '\n', 0);
                    if line_segment(r1, nl2).len() != 0 {
                        Err(ChallengeParseError::MiddleLineNotBlank)
                    } else if nl2 >= r1.len() || r1.skip(nl2 + 1).len() == 0 {
                        Err(ChallengeParseError::MissingTextLine)
                    } else {
                        let r2 = r1.skip(nl2 + 1);
                        Ok((words, line_segment(r2, find_from(r2, '\n', 0))))
                    }
                }
            }
        }
    }

    pub fn parse_input(s: &str) -> (r: Result<Challenge, ChallengeParseError>)
        ensures
            match (r, Self::parse_outcome(s@)) {
                (Ok(c), Ok(pair)) => word_views(c.words@) == pair.0 && c.text@ == pair.1,
                (Err(e1), Err(e2)) => e1 == e2,
                _ => false,
            },
    {
        let n = s.unicode_len();
        if n == 0 {
            return Err(ChallengeParseError::MissingWordLine);
        }
        let nl1 = find_char(s, '\n', 0);
        proof {
            lemma_find_from_props(s@, '\n', 0);
        }
        let raw1 = s.substring_char(0, nl1);
        proof {
            assert(raw1@ =~= s@.take(nl1 as int));
        }
        let line1 = if nl1 < n {
            strip_cr_exec(raw1)
        } else {
            raw1
        };
        proof {
            assert(line1@ == line_segment(s@, nl1 as int));
        }
        if !check_words_prefix(line1) {
            return Err(ChallengeParseError::MissingPrefixInWords);
        }
        let ln1 = line1.unicode_len();
        let words_part = line1.substring_char(6, ln1);
        proof {
            assert(words_part@ =~= line_segment(s@, nl1 as int).skip(6));
        }
        let words = split_commas(words_part);
        if nl1 == n || nl1 + 1 == n {
            proof {
                if nl1 < n {
                    assert(s@.skip(nl1 + 1).len() == 0);
                }
            }
            return Err(ChallengeParseError::MissingMiddleLine);
        }
        let r1 = s.substring_char(nl1 + 1, n);
        proof {
            assert(r1@ =~= s@.skip(nl1 + 1));
        }
        let rn1 = r1.unicode_len();
        let nl2 = find_char(r1, '\n', 0);
        proof {
            lemma_find_from_props(r1@, '\n', 0);
        }
        let raw2 = r1.substring_char(0, nl2);
        proof {
            assert(raw2@ =~= r1@.take(nl2 as int));
        }
        let line2 = if nl2 < rn1 {
            strip_cr_exec(raw2)
        } else {
            raw2
        };
        proof {
            assert(line2@ == line_segment(r1@, nl2 as int));
        }
        if line2.unicode_len() != 0 {
            return Err(ChallengeParseError::MiddleLineNotBlank);
        }
        if nl2 == rn1 || nl2 + 1 == rn1 {
            proof {
                if nl2 < rn1 {
                    assert(r1@.skip(nl2 + 1).len() == 0);
                }
            }
            return Err(ChallengeParseError::MissingTextLine);
        }
        let r2 = r1.substring_char(nl2 + 1, rn1);
        proof {
            assert(r2@ =~= r1@.skip(nl2 + 1));
        }
        let rn2 = r2.unicode_len();
        let nl3 = find_char(r2, '\n', 0);
        proof {
            lemma_find_from_props(r2@, '\n', 0);
        }
        let raw3 = r2.substring_char(0, nl3);
        proof {
            assert(raw3@ =~= r2@.take(nl3 as int));
        }
        let line3 = if nl3 < rn2 {
            strip_cr_exec(raw3)
        } else {
            raw3
        };
        proof {
            assert(line3@ == line_segment(r2@, nl3 as int));
        }
        let text = line3.to_owned();
        Ok(Challenge { words, text })
    }

    /// Counts the successive non-overlapping leftmost occurrences of the
    /// words' alternation pattern in the text.  Wherever occurrences
    /// overlap this undercounts; the overlap-aware count has no such gap.
    pub fn count_runes(&self) -> (num: usize)
        requires
            regex_accepts(joined(word_views(self.words@))),
        ensures
            num == regex_match_count(joined(word_views(self.words@)), self.text@),
    {
        let pattern = join_words(&self.words);
        match regex_count_matches(pattern.as_str(), self.text.as_str()) {
            Some(num) => num,
            None => {
                proof {
                    assert(false);
                }
                0
            },
        }
    }

    /// As `count_runes`, but reports an invalid alternation pattern
    /// instead of demanding a valid one.
    pub fn count_runes_checked(&self) -> (num: Option<usize>)
        ensures
            num is Some <==> regex_accepts(joined(word_views(self.words@))),
            num matches Some(n) ==> n == regex_match_count(
                joined(word_views(self.words@)),
                self.text@,
            ),
    {
        let pattern = join_words(&self.words);
        if regex_pattern_valid(pattern.as_str()) {
            Some(self.count_runes())
        } else {
            None
        }
    }
}

/// The line without its trailing carriage return, if it has one.
fn strip_cr_exec<'a>(line: &'a str) -> (r: &'a str)
    ensures
        r@ == strip_cr(line@),
{
    let n = line.unicode_len();
    if n > 0 && line.get_char(n - 1) == '\r' {
        let r = line.substring_char(0, n - 1);
        proof {
            assert(r@ =~= line@.drop_last());
        }
        r
    } else {
        line
    }
}

impl core::str::FromStr for Challenge {
    type Err = ChallengeParseError;

    fn from_str(s: &str) -> Result<Self, Self::Err> {
        Challenge::parse_input(s)
    }
}

} // verus!
