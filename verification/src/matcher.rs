//! An overlap-aware multi-pattern matcher.
//!
//! The patterns are laid out in a trie whose states carry failure links to
//! the state of the longest proper suffix of their prefix that is again a
//! prefix of some pattern.  A single left-to-right pass over the text then
//! finds every occurrence of every pattern, including occurrences that end
//! at the same position or overlap, and the distinct text positions lying
//! under at least one occurrence form the covered-position set.

use vstd::prelude::*;
use vstd::seq_lib::*;
use vstd::string::StrSliceExecFns;
use vstd::pervasive::VecAdditionalExecFns;

verus! {

/// Pattern `k` occurs in `text` ending at (and including) position `i`.
pub open spec fn ends_at(pats: Seq<Seq<char>>, text: Seq<char>, k: int, i: int) -> bool {
    &&& 0 <= k < pats.len()
    &&& 0 <= i < text.len()
    &&& pats[k].len() >= 1
    &&& pats[k].is_suffix_of(text.take(i + 1))
}

/// Position `p` of the text lies inside at least one occurrence of at
/// least one pattern.
pub open spec fn covered_by(pats: Seq<Seq<char>>, text: Seq<char>, p: int) -> bool {
    exists|k: int, i: int| ends_at(pats, text, k, i) && i + 1 - pats[k].len() <= p <= i
}

/// The set of distinct covered positions; its cardinality is the answer.
pub open spec fn covered_set(pats: Seq<Seq<char>>, text: Seq<char>) -> Set<int> {
    Set::new(|p: int| covered_by(pats, text, p))
}

/// The character sequences held by a list of character vectors.
pub open spec fn views_of(ps: Seq<Vec<char>>) -> Seq<Seq<char>> {
    ps.map_values(|p: Vec<char>| p@)
}

proof fn lemma_suffix_trans(a: Seq<char>, b: Seq<char>, c: Seq<char>)
    requires
        a.is_suffix_of(b),
        b.is_suffix_of(c),
    ensures
        a.is_suffix_of(c),
{
    assert forall|i: int| 0 <= i < a.len() implies a[i] == c[c.len() - a.len() + i] by {
        assert(a[i] == b[b.len() - a.len() + i]);
    }
    assert(a =~= c.subrange((c.len() - a.len()) as int, c.len() as int));
}

/// Two suffixes of the same sequence: the shorter is a suffix of the longer.
proof fn lemma_suffix_of_suffix(a: Seq<char>, b: Seq<char>, t: Seq<char>)
    requires
        a.is_suffix_of(t),
        b.is_suffix_of(t),
        a.len() <= b.len(),
    ensures
        a.is_suffix_of(b),
{
    assert forall|i: int| 0 <= i < a.len() implies a[i] == b[b.len() - a.len() + i] by {
        assert(a[i] == t[t.len() - a.len() + i]);
        assert(b[b.len() - a.len() + i] == t[t.len() - b.len() + (b.len() - a.len() + i)]);
    }
    assert(a =~= b.subrange((b.len() - a.len()) as int, b.len() as int));
}

/// A nonempty suffix of `b.push(c)` ends in `c` and its front is a suffix of `b`.
proof fn lemma_suffix_pop(a: Seq<char>, b: Seq<char>, c: char)
    requires
        a.is_suffix_of(b.push(c)),
        a.len() >= 1,
    ensures
        a.last() == c,
        a.drop_last().is_suffix_of(b),
        a == a.drop_last().push(c),
{
    let e = b.push(c);
    assert(a.last() == e[e.len() - 1]);
    assert forall|i: int| 0 <= i < a.len() - 1 implies a[i] == b[b.len() - (a.len() - 1) + i] by {
        assert(a[i] == e[e.len() - a.len() + i]);
    }
    assert(a.drop_last() =~= b.subrange(b.len() - (a.len() - 1), b.len() as int));
    assert(a =~= a.drop_last().push(c));
}

/// Extending a suffix with the same symbol keeps it a suffix.
proof fn lemma_suffix_push(v: Seq<char>, b: Seq<char>, c: char)
    requires
        v.is_suffix_of(b),
    ensures
        v.push(c).is_suffix_of(b.push(c)),
{
    let a = v.push(c);
    let e = b.push(c);
    assert forall|i: int| 0 <= i < a.len() implies a[i] == e[e.len() - a.len() + i] by {
        if i < a.len() - 1 {
            assert(a[i] == v[i]);
            assert(v[i] == b[b.len() - v.len() + i]);
            assert(e[e.len() - a.len() + i] == b[b.len() - v.len() + i]);
        }
    }
    assert(a =~= e.subrange(e.len() - a.len(), e.len() as int));
}

proof fn lemma_push_injective(a: Seq<char>, b: Seq<char>, c1: char, c2: char)
    requires
        a.push(c1) == b.push(c2),
    ensures
        a == b,
        c1 == c2,
{
    broadcast use vstd::seq::group_seq_axioms;

    assert(a.push(c1).len() == a.len() + 1);
    assert(b.push(c2).len() == b.len() + 1);
    assert(a.push(c1).len() == b.push(c2).len());
    assert(a.len() == b.len());
    assert(c1 == a.push(c1)[a.len() as int]);
    assert(c2 == b.push(c2)[b.len() as int]);
    assert forall|i: int| 0 <= i < a.len() implies a[i] == b[i] by {
        assert(a.len() == b.len());
        assert(a.push(c1)[i] == a[i]);
        assert(b.push(c2)[i] == b[i]);
    }
    assert(a =~= b);
}

/// The state machine: a trie over all patterns, with failure links and,
/// per pattern, the state where it ends.  State 0 is the root.  The edge
/// list, parents and depths describe the trie; `words` holds, per state,
/// the (ghost) prefix the state stands for.
pub struct Automaton {
    edges: Vec<(usize, char, usize)>,
    fail: Vec<usize>,
    parent: Vec<usize>,
    pch: Vec<char>,
    depth: Vec<usize>,
    out: Vec<usize>,
    words: Ghost<Seq<Seq<char>>>,
    pats: Ghost<Seq<Seq<char>>>,
}

impl Automaton {
    /// The patterns this automaton was built from.
    pub closed spec fn patterns(&self) -> Seq<Seq<char>> {
        self.pats@
    }

    closed spec fn n(&self) -> int {
        self.words@.len() as int
    }

    closed spec fn word(&self, s: int) -> Seq<char> {
        self.words@[s]
    }

    closed spec fn lens_ok(&self) -> bool {
        &&& self.words@.len() >= 1
        &&& self.fail@.len() == self.words@.len()
        &&& self.parent@.len() == self.words@.len()
        &&& self.pch@.len() == self.words@.len()
        &&& self.depth@.len() == self.words@.len()
    }

    closed spec fn edge_ok(&self, e: (usize, char, usize)) -> bool {
        &&& e.0 < self.n()
        &&& 0 < e.2 < self.n()
        &&& self.word(e.2 as int) == self.word(e.0 as int).push(e.1)
    }

    closed spec fn edges_ok(&self) -> bool {
        forall|i: int| 0 <= i < self.edges@.len() ==> self.edge_ok(#[trigger] self.edges@[i])
    }

    closed spec fn has_edge(&self, u: usize, c: char, t: usize) -> bool {
        exists|i: int| 0 <= i < self.edges@.len() && #[trigger] self.edges@[i] == (u, c, t)
    }

    closed spec fn has_word(&self, w: Seq<char>) -> bool {
        exists|t: int| 0 <= t < self.n() && #[trigger] self.word(t) == w
    }

    closed spec fn words_distinct(&self) -> bool {
        forall|s1: int, s2: int|
            0 <= s1 < self.n() && 0 <= s2 < self.n() && s1 != s2 ==> #[trigger] self.word(s1)
                != #[trigger] self.word(s2)
    }

    closed spec fn parent_ok(&self) -> bool {
        forall|s: int|
            1 <= s < self.n() ==> {
                &&& #[trigger] self.parent@[s] < s
                &&& self.word(s) == self.word(self.parent@[s] as int).push(self.pch@[s])
                &&& self.has_edge(self.parent@[s], self.pch@[s], s as usize)
            }
    }

    closed spec fn depth_ok(&self) -> bool {
        forall|s: int|
            0 <= s < self.n() ==> #[trigger] self.depth@[s] == self.word(s).len() && self.word(
                s,
            ).len() <= s
    }

    closed spec fn prefixes_closed(&self) -> bool {
        forall|s: int, j: int|
            0 <= s < self.n() && 0 <= j <= self.word(s).len() ==> self.has_word(
                #[trigger] self.word(s).take(j),
            )
    }

    closed spec fn wf_trie(&self) -> bool {
        &&& self.lens_ok()
        &&& self.word(0) == Seq::<char>::empty()
        &&& self.edges_ok()
        &&& self.words_distinct()
        &&& self.parent_ok()
        &&& self.depth_ok()
        &&& self.prefixes_closed()
    }

    /// Per pattern, the state where it ends, up to pattern index `upto`.
    closed spec fn out_ok(&self, upto: int) -> bool {
        &&& self.out@.len() == upto
        &&& forall|k: int|
            0 <= k < upto ==> #[trigger] self.out@[k] < self.n() && self.word(
                self.out@[k] as int,
            ) == self.pats@[k]
    }

    closed spec fn pats_nonempty(&self) -> bool {
        forall|k: int| 0 <= k < self.pats@.len() ==> (#[trigger] self.pats@[k]).len() >= 1
    }

    /// The failure link of `s` leads to the longest proper suffix of the
    /// prefix of `s` that is again a prefix of some pattern.
    closed spec fn fail_ok(&self, s: int) -> bool {
        let f = self.fail@[s] as int;
        &&& 0 <= f < self.n()
        &&& self.word(f).len() < self.word(s).len()
        &&& self.word(f).is_suffix_of(self.word(s))
        &&& forall|t: int|
            0 <= t < self.n() && self.word(t).len() < self.word(s).len() && (#[trigger] self.word(
                t,
            )).is_suffix_of(self.word(s)) ==> self.word(t).len() <= self.word(f).len()
    }

    closed spec fn fails_ok_below(&self, d: int) -> bool {
        forall|s: int| 1 <= s < self.n() && (#[trigger] self.word(s)).len() < d ==> self.fail_ok(s)
    }

    /// A fully built automaton: a well-formed trie over exactly the
    /// patterns, all of them nonempty, with correct failure links.
    pub closed spec fn wf(&self) -> bool {
        &&& self.wf_trie()
        &&& self.out_ok(self.pats@.len() as int)
        &&& self.pats_nonempty()
        &&& self.fail@[0] == 0
        &&& self.fails_ok_below(self.n())
    }

    /// Looks up the transition from state `s` on symbol `c` in the edge list.
    fn next_state(&self, s: usize, c: char) -> (r: Option<usize>)
        ensures
            match r {
                Some(t) => self.has_edge(s, c, t),
                None => forall|i: int|
                    0 <= i < self.edges@.len() ==> !((#[trigger] self.edges@[i]).0 == s
                        && self.edges@[i].1 == c),
            },
    {
        let m = self.edges.len();
        let mut i: usize = 0;
        while i < m
            invariant
                m == self.edges@.len(),
                0 <= i <= m,
                forall|j: int|
                    0 <= j < i ==> !((#[trigger] self.edges@[j]).0 == s && self.edges@[j].1 == c),
            decreases m - i,
        {
            let e = self.edges[i];
            if e.0 == s && e.1 == c {
                return Some(e.2);
            }
            i = i + 1;
        }
        None
    }

    proof fn lemma_edge_target(&self, s: usize, c: char, t: usize)
        requires
            self.wf_trie(),
            self.has_edge(s, c, t),
        ensures
            0 < t < self.n(),
            self.word(t as int) == self.word(s as int).push(c),
    {
        let i = choose|i: int| 0 <= i < self.edges@.len() && #[trigger] self.edges@[i] == (s, c, t);
        assert(self.edge_ok(self.edges@[i]));
    }

    /// If no edge leaves `s` on `c`, then no state's prefix extends `s`'s by `c`.
    proof fn lemma_no_edge_no_word(&self, s: int, c: char)
        requires
            self.wf_trie(),
            0 <= s < self.n(),
            forall|i: int|
                0 <= i < self.edges@.len() ==> !((#[trigger] self.edges@[i]).0 == s as usize
                    && self.edges@[i].1 == c),
        ensures
            !self.has_word(self.word(s).push(c)),
    {
        if self.has_word(self.word(s).push(c)) {
            let t = choose|t: int|
                0 <= t < self.n() && #[trigger] self.word(t) == self.word(s).push(c);
            assert(self.word(t).len() >= 1);
            assert(self.word(0).len() == 0);
            assert(t != 0);
            let p = self.parent@[t] as int;
            lemma_push_injective(self.word(p), self.word(s), self.pch@[t], c);
            assert(p == s);
            let i = choose|i: int|
                0 <= i < self.edges@.len() && #[trigger] self.edges@[i] == (
                    self.parent@[t],
                    self.pch@[t],
                    t as usize,
                );
            assert(false);
        }
    }

    /// From the deepest state whose prefix is a suffix of `base`, find the
    /// deepest state whose prefix is a suffix of `base` extended by `c`,
    /// by walking failure links until a transition on `c` exists.
    fn suffix_extension(&self, start: usize, c: char, base: Ghost<Seq<char>>) -> (r: usize)
        requires
            self.wf_trie(),
            start < self.n(),
            self.word(start as int).is_suffix_of(base@),
            forall|u: int|
                0 <= u < self.n() && (#[trigger] self.word(u)).is_suffix_of(base@) ==> self.word(
                    u,
                ).len() <= self.word(start as int).len(),
            self.fails_ok_below(self.word(start as int).len() + 1 as int),
        ensures
            r < self.n(),
            self.word(r as int).is_suffix_of(base@.push(c)),
            forall|u: int|
                0 <= u < self.n() && (#[trigger] self.word(u)).is_suffix_of(base@.push(c))
                    ==> self.word(u).len() <= self.word(r as int).len(),
    {
        let mut t = start;
        loop
            invariant
                self.wf_trie(),
                t < self.n(),
                self.word(t as int).is_suffix_of(base@),
                self.word(t as int).len() <= self.word(start as int).len(),
                self.fails_ok_below(self.word(start as int).len() + 1 as int),
                forall|u: int|
                    0 <= u < self.n() && (#[trigger] self.word(u)).is_suffix_of(base@) && self.word(
                        u,
                    ).len() > self.word(t as int).len() ==> !self.has_word(self.word(u).push(c)),
            decreases self.word(t as int).len(),
        {
            match self.next_state(t, c) {
                Some(u) => {
                    proof {
                        self.lemma_edge_target(t, c, u);
                        lemma_suffix_push(self.word(t as int), base@, c);
                        assert forall|u2: int|
                            0 <= u2 < self.n() && (#[trigger] self.word(u2)).is_suffix_of(
                                base@.push(c),
                            ) implies self.word(u2).len() <= self.word(u as int).len() by {
                            if self.word(u2).len() >= 1 {
                                lemma_suffix_pop(self.word(u2), base@, c);
                                let v = self.word(u2).drop_last();
                                assert(self.word(u2).take(self.word(u2).len() - 1) =~= v);
                                assert(self.has_word(v));
                                let tv = choose|tv: int|
                                    0 <= tv < self.n() && #[trigger] self.word(tv) == v;
                                if self.word(tv).len() > self.word(t as int).len() {
                                    assert(!self.has_word(v.push(c)));
                                    assert(self.word(u2) == v.push(c));
                                    assert(false);
                                }
                            }
                        }
                    }
                    return u;
                },
                None => {
                    proof {
                        self.lemma_no_edge_no_word(t as int, c);
                    }
                    if t == 0 {
                        proof {
                            assert(Seq::<char>::empty() =~= base@.push(c).subrange(
                                base@.push(c).len() as int,
                                base@.push(c).len() as int,
                            ));
                            assert(self.word(0).is_suffix_of(base@.push(c)));
                            assert forall|u2: int|
                                0 <= u2 < self.n() && (#[trigger] self.word(u2)).is_suffix_of(
                                    base@.push(c),
                                ) implies self.word(u2).len() <= self.word(0).len() by {
                                if self.word(u2).len() >= 1 {
                                    lemma_suffix_pop(self.word(u2), base@, c);
                                    let v = self.word(u2).drop_last();
                                    assert(self.word(u2).take(self.word(u2).len() - 1) =~= v);
                                    assert(self.has_word(v));
                                    let tv = choose|tv: int|
                                        0 <= tv < self.n() && #[trigger] self.word(tv) == v;
                                    assert(self.word(u2) == v.push(c));
                                    if self.word(tv).len() > 0 {
                                        assert(!self.has_word(v.push(c)));
                                        assert(false);
                                    } else {
                                        assert(v =~= Seq::<char>::empty());
                                        assert(v == self.word(0));
                                        assert(!self.has_word(self.word(0).push(c)));
                                        assert(false);
                                    }
                                }
                            }
                        }
                        return 0;
                    }
                    let f = self.fail[t];
                    proof {
                        assert(self.fail_ok(t as int));
                        let wt = self.word(t as int);
                        let wf_ = self.word(f as int);
                        lemma_suffix_trans(wf_, wt, base@);
                        assert forall|u2: int|
                            0 <= u2 < self.n() && (#[trigger] self.word(u2)).is_suffix_of(base@)
                                && self.word(u2).len() > wf_.len() implies !self.has_word(
                            self.word(u2).push(c),
                        ) by {
                            if self.word(u2).len() > wt.len() {
                                // already ruled out
                            } else if self.word(u2).len() == wt.len() {
                                lemma_suffix_of_suffix(self.word(u2), wt, base@);
                                assert(self.word(u2) =~= wt);
                            } else {
                                lemma_suffix_of_suffix(self.word(u2), wt, base@);
                                assert(self.word(u2).len() <= wf_.len());
                            }
                        }
                    }
                    t = f;
                },
            }
        }
    }

    /// Builds the matcher for the given (nonempty) patterns: every pattern
    /// is inserted into the trie, then failure links are computed level by
    /// level, each from the parent's failure chain.
    #[verifier::rlimit(100)]
    pub fn build(patterns: &Vec<Vec<char>>) -> (a: Automaton)
        requires
            forall|k: int| 0 <= k < patterns@.len() ==> (#[trigger] patterns@[k])@.len() >= 1,
        ensures
            a.wf(),
            a.patterns() == views_of(patterns@),
    {
        let ghost pviews = views_of(patterns@);
        proof {
            assert forall|k: int| 0 <= k < pviews.len() implies (#[trigger] pviews[k]).len()
                >= 1 by {
                assert(pviews[k] == patterns@[k]@);
            }
        }
        let mut a = Automaton {
            edges: Vec::new(),
            fail: Vec::new(),
            parent: Vec::new(),
            pch: Vec::new(),
            depth: Vec::new(),
            out: Vec::new(),
            words: Ghost(Seq::<Seq<char>>::empty().push(Seq::<char>::empty())),
            pats: Ghost(pviews),
        };
        a.fail.push(0);
        a.parent.push(0);
        a.pch.push(' ');
        a.depth.push(0);
        proof {
            assert(a.word(0).take(0) =~= a.word(0));
            assert(a.has_word(a.word(0).take(0)));
            assert(a.wf_trie());
        }
        let np = patterns.len();
        let mut k: usize = 0;
        while k < np
            invariant
                np == patterns@.len(),
                0 <= k <= np,
                a.wf_trie(),
                a.pats@ == pviews,
                pviews == views_of(patterns@),
                forall|k2: int| 0 <= k2 < pviews.len() ==> (#[trigger] pviews[k2]).len() >= 1,
                a.out_ok(k as int),
                a.fail@[0] == 0,
            decreases np - k,
        {
            let pat = vstd::slice::slice_index_get(patterns.as_slice(), k);
            let m = pat.len();
            proof {
                assert(pviews[k as int] == patterns@[k as int]@);
                assert(a.word(0) =~= pviews[k as int].take(0));
            }
            proof {
                assert(pat@ == patterns@[k as int]@);
            }
            let mut cur: usize = 0;
            let mut j: usize = 0;
            while j < m
                invariant
                    np == patterns@.len(),
                    0 <= k < np,
                    pat@ == patterns@[k as int]@,
                    m == patterns@[k as int]@.len(),
                    0 <= j <= m,
                    a.wf_trie(),
                    a.pats@ == pviews,
                    pviews == views_of(patterns@),
                    forall|k2: int| 0 <= k2 < pviews.len() ==> (#[trigger] pviews[k2]).len() >= 1,
                    a.out_ok(k as int),
                    a.fail@[0] == 0,
                    cur < a.n(),
                    a.word(cur as int) == pviews[k as int].take(j as int),
                decreases m - j,
            {
                let c = *vstd::slice::slice_index_get(pat.as_slice(), j);
                proof {
                    assert(pviews[k as int] == patterns@[k as int]@);
                    assert(c == pviews[k as int][j as int]);
                    assert(pviews[k as int].take(j as int).push(c) =~= pviews[k as int].take(
                        j + 1 as int,
                    ));
                }
                match a.next_state(cur, c) {
                    Some(t) => {
                        proof {
                            a.lemma_edge_target(cur, c, t);
                        }
                        cur = t;
                    },
                    None => {
                        proof {
                            a.lemma_no_edge_no_word(cur as int, c);
                        }
                        let ghost olda = a;
                        let nn = a.fail.len();
                        let dc = a.depth[cur];
                        a.edges.push((cur, c, nn));
                        a.fail.push(0);
                        a.parent.push(cur);
                        a.pch.push(c);
                        a.depth.push(dc + 1);
                        proof {
                            a.words@ = a.words@.push(olda.word(cur as int).push(c));
                            let nw = olda.word(cur as int).push(c);
                            assert(a.n() == olda.n() + 1);
                            assert(a.word(nn as int) == nw);
                            assert forall|s: int| 0 <= s < olda.n() implies a.word(s) == olda.word(
                                s,
                            ) by {}
                            assert forall|i: int|
                                0 <= i < a.edges@.len() implies a.edge_ok(
                                #[trigger] a.edges@[i],
                            ) by {
                                if i < olda.edges@.len() {
                                    assert(a.edges@[i] == olda.edges@[i]);
                                    assert(olda.edge_ok(olda.edges@[i]));
                                } else {
                                    assert(a.edges@[i] == (cur, c, nn));
                                }
                            }
                            assert forall|s1: int, s2: int|
                                0 <= s1 < a.n() && 0 <= s2 < a.n() && s1 != s2 implies a.word(s1)
                                != a.word(s2) by {
                                if s1 < olda.n() && s2 < olda.n() {
                                    assert(olda.word(s1) != olda.word(s2));
                                } else if s1 == nn as int && s2 < olda.n() {
                                    if a.word(s2) == nw {
                                        assert(olda.word(s2) == nw);
                                        assert(olda.has_word(nw));
                                        assert(false);
                                    }
                                } else if s2 == nn as int && s1 < olda.n() {
                                    if a.word(s1) == nw {
                                        assert(olda.word(s1) == nw);
                                        assert(olda.has_word(nw));
                                        assert(false);
                                    }
                                }
                            }
                            assert forall|s: int|
                                1 <= s < a.n() implies #[trigger] a.parent@[s] < s && a.word(s)
                                == a.word(a.parent@[s] as int).push(a.pch@[s]) && a.has_edge(
                                a.parent@[s],
                                a.pch@[s],
                                s as usize,
                            ) by {
                                if s < olda.n() {
                                    assert(olda.parent@[s] < s);
                                    let i = choose|i: int|
                                        0 <= i < olda.edges@.len() && #[trigger] olda.edges@[i] == (
                                            olda.parent@[s],
                                            olda.pch@[s],
                                            s as usize,
                                        );
                                    assert(a.edges@[i] == (a.parent@[s], a.pch@[s], s as usize));
                                } else {
                                    assert(s == nn as int);
                                    assert(a.edges@[olda.edges@.len() as int] == (
                                        a.parent@[s],
                                        a.pch@[s],
                                        s as usize,
                                    ));
                                }
                            }
                            assert forall|s: int|
                                0 <= s < a.n() implies #[trigger] a.depth@[s] == a.word(s).len()
                                && a.word(s).len() <= s by {
                                if s < olda.n() {
                                    assert(olda.depth@[s] == olda.word(s).len());
                                } else {
                                    assert(a.depth@[s] == dc + 1);
                                    assert(olda.word(cur as int).len() <= cur);
                                }
                            }
                            assert forall|s: int, j2: int|
                                0 <= s < a.n() && 0 <= j2 <= a.word(s).len() implies a.has_word(
                                #[trigger] a.word(s).take(j2),
                            ) by {
                                if s < olda.n() {
                                    assert(olda.has_word(olda.word(s).take(j2)));
                                    let t = choose|t: int|
                                        0 <= t < olda.n() && #[trigger] olda.word(t) == olda.word(
                                            s,
                                        ).take(j2);
                                    assert(a.word(t) == a.word(s).take(j2));
                                } else {
                                    if j2 == nw.len() {
                                        assert(nw.take(j2) =~= nw);
                                        assert(a.word(nn as int) == a.word(s).take(j2));
                                    } else {
                                        assert(nw.take(j2) =~= olda.word(cur as int).take(j2));
                                        assert(olda.has_word(olda.word(cur as int).take(j2)));
                                        let t = choose|t: int|
                                            0 <= t < olda.n() && #[trigger] olda.word(t)
                                                == olda.word(cur as int).take(j2);
                                        assert(a.word(t) == a.word(s).take(j2));
                                    }
                                }
                            }
                            assert(a.wf_trie());
                            assert forall|k2: int|
                                0 <= k2 < k implies #[trigger] a.out@[k2] < a.n() && a.word(
                                a.out@[k2] as int,
                            ) == a.pats@[k2] by {
                                assert(olda.out@[k2] < olda.n());
                                assert(olda.word(olda.out@[k2] as int) == olda.pats@[k2]);
                            }
                        }
                        cur = nn;
                    },
                }
                j = j + 1;
            }
            proof {
                assert(pviews[k as int].take(m as int) =~= pviews[k as int]);
            }
            let ghost oldb = a;
            a.out.push(cur);
            proof {
                Self::lemma_out_push(oldb, a);
            }
            k = k + 1;
        }
        let n = a.fail.len();
        let mut d: usize = 1;
        proof {
            assert forall|s: int| 1 <= s < a.n() && (#[trigger] a.word(s)).len() < 1 implies a.fail_ok(
                s,
            ) by {
                assert(a.word(s) != a.word(0));
                if a.word(s).len() < 1 {
                    assert(a.word(s) =~= a.word(0));
                    assert(false);
                }
            }
        }
        while d < n
            invariant
                a.wf_trie(),
                a.pats@ == pviews,
                pviews == views_of(patterns@),
                forall|k2: int| 0 <= k2 < pviews.len() ==> (#[trigger] pviews[k2]).len() >= 1,
                a.out_ok(pviews.len() as int),
                n == a.n(),
                1 <= d <= n,
                a.fail@[0] == 0,
                a.fails_ok_below(d as int),
            decreases n - d,
        {
            let mut s: usize = 1;
            while s < n
                invariant
                    a.wf_trie(),
                    a.pats@ == pviews,
                    pviews == views_of(patterns@),
                    forall|k2: int| 0 <= k2 < pviews.len() ==> (#[trigger] pviews[k2]).len() >= 1,
                    a.out_ok(pviews.len() as int),
                    n == a.n(),
                    1 <= d < n,
                    1 <= s <= n,
                    a.fail@[0] == 0,
                    a.fails_ok_below(d as int),
                    forall|s2: int|
                        1 <= s2 < s && (#[trigger] a.word(s2)).len() == d ==> a.fail_ok(s2),
                decreases n - s,
            {
                if a.depth[s] == d {
                    if d == 1 {
                        let ghost olda = a;
                        a.fail.set(s, 0);
                        proof {
                            Self::lemma_fail_update(olda, a, s as int);
                            let ws = a.word(s as int);
                            assert(a.word(0) =~= ws.subrange(ws.len() as int, ws.len() as int));
                            assert(a.word(0).is_suffix_of(ws));
                            assert(a.fail_ok(s as int));
                            assert forall|s2: int|
                                1 <= s2 < a.n() && (#[trigger] a.word(s2)).len() < d implies a.fail_ok(
                                s2,
                            ) by {
                                assert(olda.word(s2) == a.word(s2));
                                assert(olda.fail_ok(s2));
                                assert(s2 != s);
                            }
                            assert forall|s2: int|
                                1 <= s2 < s + 1 && (#[trigger] a.word(s2)).len() == d implies a.fail_ok(
                                s2,
                            ) by {
                                if s2 != s {
                                    assert(olda.word(s2) == a.word(s2));
                                    assert(olda.fail_ok(s2));
                                }
                            }
                        }
                    } else {
                        let p = a.parent[s];
                        let c = a.pch[s];
                        proof {
                            assert(a.word(p as int).len() == d - 1);
                            assert(a.fail_ok(p as int));
                        }
                        let fp = a.fail[p];
                        proof {
                            let wfp = a.word(fp as int);
                            assert(wfp.is_suffix_of(wfp)) by {
                                assert(wfp =~= wfp.subrange(0, wfp.len() as int));
                            }
                            assert forall|u: int|
                                0 <= u < a.n() && (#[trigger] a.word(u)).is_suffix_of(wfp) implies a.word(
                                u,
                            ).len() <= wfp.len() by {}
                        }
                        let f = a.suffix_extension(fp, c, Ghost(a.word(fp as int)));
                        proof {
                            let wp = a.word(p as int);
                            let wfp = a.word(fp as int);
                            let ws = a.word(s as int);
                            let wf_ = a.word(f as int);
                            assert(ws == wp.push(c));
                            // the new link is a proper suffix
                            lemma_suffix_push(wfp, wp, c);
                            lemma_suffix_trans(wf_, wfp.push(c), ws);
                            assert(wf_.len() <= wfp.len() + 1);
                            assert(wfp.len() < wp.len());
                            // and the longest one
                            assert forall|t: int|
                                0 <= t < a.n() && a.word(t).len() < ws.len() && (
                                #[trigger] a.word(t)).is_suffix_of(ws) implies a.word(t).len()
                                <= wf_.len() by {
                                let wt = a.word(t);
                                if wt.len() >= 1 {
                                    lemma_suffix_pop(wt, wp, c);
                                    let v = wt.drop_last();
                                    assert(wt.take(wt.len() - 1) =~= v);
                                    assert(a.has_word(v));
                                    let tv = choose|tv: int|
                                        0 <= tv < a.n() && #[trigger] a.word(tv) == v;
                                    assert(v.len() < wp.len());
                                    assert(a.fail_ok(p as int));
                                    assert(v.len() <= wfp.len());
                                    lemma_suffix_of_suffix(v, wfp, wp);
                                    lemma_suffix_push(v, wfp, c);
                                    assert(wt == v.push(c));
                                    assert(wt.is_suffix_of(wfp.push(c)));
                                }
                            }
                        }
                        let ghost olda = a;
                        a.fail.set(s, f);
                        proof {
                            Self::lemma_fail_update(olda, a, s as int);
                            assert(a.fail@[s as int] == f);
                            assert forall|s2: int| 0 <= s2 < a.n() implies a.word(s2) == olda.word(
                                s2,
                            ) by {}
                            assert(a.fail_ok(s as int));
                            assert forall|s2: int|
                                1 <= s2 < a.n() && (#[trigger] a.word(s2)).len() < d implies a.fail_ok(
                                s2,
                            ) by {
                                assert(olda.word(s2) == a.word(s2));
                                assert(olda.fail_ok(s2));
                                assert(s2 != s);
                            }
                            assert forall|s2: int|
                                1 <= s2 < s + 1 && (#[trigger] a.word(s2)).len() == d implies a.fail_ok(
                                s2,
                            ) by {
                                if s2 != s {
                                    assert(olda.word(s2) == a.word(s2));
                                    assert(olda.fail_ok(s2));
                                }
                            }
                        }
                    }
                }
                s = s + 1;
            }
            d = d + 1;
            proof {
                assert forall|s2: int|
                    1 <= s2 < a.n() && (#[trigger] a.word(s2)).len() < d implies a.fail_ok(s2) by {}
            }
        }
        proof {
            assert forall|s2: int|
                1 <= s2 < a.n() && (#[trigger] a.word(s2)).len() < a.n() implies a.fail_ok(s2) by {}
            assert(a.fails_ok_below(a.n()));
            assert forall|k2: int|
                0 <= k2 < a.pats@.len() implies (#[trigger] a.pats@[k2]).len() >= 1 by {}
        }
        a
    }

    /// Scans the text once, left to right, and reports every occurrence of
    /// every pattern: the chain of failure links from the state reached at
    /// each position yields all patterns ending there, so occurrences that
    /// overlap, or end at the same position, are all found.  Each entry is
    /// the pattern's index with the first and last text position (both
    /// inclusive) of the span it covers; no occurrence is reported twice.
    pub fn find_matches(&self, text: &str) -> (ms: Vec<(usize, usize, usize)>)
        requires
            self.wf(),
        ensures
            forall|m: int|
                0 <= m < ms@.len() ==> {
                    let e = #[trigger] ms@[m];
                    &&& ends_at(self.patterns(), text@, e.0 as int, e.2 as int)
                    &&& e.1 == e.2 + 1 - self.patterns()[e.0 as int].len()
                },
            forall|k: int, i: int|
                ends_at(self.patterns(), text@, k, i) ==> exists|m: int|
                    0 <= m < ms@.len() && (#[trigger] ms@[m]).0 == k && ms@[m].2 == i,
            forall|m1: int, m2: int| 0 <= m1 < m2 < ms@.len() ==> ms@[m1] != ms@[m2],
    {
        let tn = text.unicode_len();
        let mut ms: Vec<(usize, usize, usize)> = Vec::new();
        let mut cur: usize = 0;
        let mut i: usize = 0;
        proof {
            assert(self.word(0) =~= text@.take(0).subrange(0, 0));
            assert(self.word(0).is_suffix_of(text@.take(0)));
        }
        while i < tn
            invariant
                self.wf(),
                tn == text@.len(),
                0 <= i <= tn,
                cur < self.n(),
                self.word(cur as int).is_suffix_of(text@.take(i as int)),
                forall|u: int|
                    0 <= u < self.n() && (#[trigger] self.word(u)).is_suffix_of(
                        text@.take(i as int),
                    ) ==> self.word(u).len() <= self.word(cur as int).len(),
                forall|m: int|
                    0 <= m < ms@.len() ==> {
                        let e = #[trigger] ms@[m];
                        &&& ends_at(self.patterns(), text@, e.0 as int, e.2 as int)
                        &&& e.2 < i
                        &&& e.1 == e.2 + 1 - self.patterns()[e.0 as int].len()
                    },
                forall|k: int, j: int|
                    ends_at(self.patterns(), text@, k, j) && j < i ==> exists|m: int|
                        0 <= m < ms@.len() && (#[trigger] ms@[m]).0 == k && ms@[m].2 == j,
                forall|m1: int, m2: int| 0 <= m1 < m2 < ms@.len() ==> ms@[m1] != ms@[m2],
            decreases tn - i,
        {
            let c = text.get_char(i);
            proof {
                assert forall|u: int|
                    1 <= u < self.n() && (#[trigger] self.word(u)).len() < self.word(
                        cur as int,
                    ).len() + 1 implies self.fail_ok(u) by {
                    assert(self.depth@[u] == self.word(u).len());
                    assert(self.word(u).len() < self.n());
                }
            }
            let nxt = self.suffix_extension(cur, c, Ghost(text@.take(i as int)));
            proof {
                assert(text@.take(i as int).push(c) =~= text@.take(i + 1));
            }
            cur = nxt;
            let ghost m0 = ms@.len() as int;
            let mut s = cur;
            proof {
                assert forall|k: int|
                    0 <= k < self.patterns().len() && ends_at(
                        self.patterns(),
                        text@,
                        k,
                        i as int,
                    ) implies (#[trigger] self.patterns()[k]).len() <= self.word(
                    s as int,
                ).len() by {
                    assert(self.out@[k] < self.n());
                    assert(self.word(self.out@[k] as int) == self.patterns()[k]);
                }
            }
            while s != 0
                invariant
                    self.wf(),
                    tn == text@.len(),
                    0 <= i < tn,
                    s < self.n(),
                    cur < self.n(),
                    self.word(s as int).is_suffix_of(text@.take(i + 1)),
                    self.word(cur as int).is_suffix_of(text@.take(i + 1)),
                    forall|u: int|
                        0 <= u < self.n() && (#[trigger] self.word(u)).is_suffix_of(
                            text@.take(i + 1),
                        ) ==> self.word(u).len() <= self.word(cur as int).len(),
                    0 <= m0 <= ms@.len(),
                    forall|m: int|
                        0 <= m < m0 ==> {
                            let e = #[trigger] ms@[m];
                            &&& ends_at(self.patterns(), text@, e.0 as int, e.2 as int)
                            &&& e.2 < i
                            &&& e.1 == e.2 + 1 - self.patterns()[e.0 as int].len()
                        },
                    forall|k: int, j: int|
                        ends_at(self.patterns(), text@, k, j) && j < i ==> exists|m: int|
                            0 <= m < m0 && (#[trigger] ms@[m]).0 == k && ms@[m].2 == j,
                    forall|m: int|
                        m0 <= m < ms@.len() ==> {
                            let e = #[trigger] ms@[m];
                            &&& ends_at(self.patterns(), text@, e.0 as int, e.2 as int)
                            &&& e.2 == i
                            &&& e.1 == e.2 + 1 - self.patterns()[e.0 as int].len()
                            &&& self.patterns()[e.0 as int].len() > self.word(s as int).len()
                        },
                    forall|k: int|
                        0 <= k < self.patterns().len() && ends_at(
                            self.patterns(),
                            text@,
                            k,
                            i as int,
                        ) && (#[trigger] self.patterns()[k]).len() > self.word(s as int).len()
                            ==> exists|m: int| m0 <= m < ms@.len() && (#[trigger] ms@[m]).0 == k,
                    forall|m1: int, m2: int| 0 <= m1 < m2 < ms@.len() ==> ms@[m1] != ms@[m2],
                decreases self.word(s as int).len(),
            {
                let on = self.out.len();
                let ds = self.depth[s];
                proof {
                    assert(ds == self.word(s as int).len());
                    assert(ds <= i + 1);
                }
                let mut kk: usize = 0;
                while kk < on
                    invariant
                        self.wf(),
                        tn == text@.len(),
                        0 <= i < tn,
                        0 < s < self.n(),
                        on == self.patterns().len(),
                        ds == self.word(s as int).len(),
                        ds <= i + 1,
                        self.word(s as int).is_suffix_of(text@.take(i + 1)),
                        0 <= kk <= on,
                        0 <= m0 <= ms@.len(),
                        forall|m: int|
                            0 <= m < m0 ==> {
                                let e = #[trigger] ms@[m];
                                &&& ends_at(self.patterns(), text@, e.0 as int, e.2 as int)
                                &&& e.2 < i
                                &&& e.1 == e.2 + 1 - self.patterns()[e.0 as int].len()
                            },
                        forall|k: int, j: int|
                            ends_at(self.patterns(), text@, k, j) && j < i ==> exists|m: int|
                                0 <= m < m0 && (#[trigger] ms@[m]).0 == k && ms@[m].2 == j,
                        forall|m: int|
                            m0 <= m < ms@.len() ==> {
                                let e = #[trigger] ms@[m];
                                &&& ends_at(self.patterns(), text@, e.0 as int, e.2 as int)
                                &&& e.2 == i
                                &&& e.1 == e.2 + 1 - self.patterns()[e.0 as int].len()
                                &&& (self.patterns()[e.0 as int].len() > ds || (e.0 < kk
                                    && self.out@[e.0 as int] == s))
                            },
                        forall|k: int|
                            0 <= k < self.patterns().len() && ends_at(
                                self.patterns(),
                                text@,
                                k,
                                i as int,
                            ) && ((#[trigger] self.patterns()[k]).len() > ds || (k < kk
                                && self.out@[k] == s)) ==> exists|m: int|
                                m0 <= m < ms@.len() && (#[trigger] ms@[m]).0 == k,
                        forall|m1: int, m2: int| 0 <= m1 < m2 < ms@.len() ==> ms@[m1] != ms@[m2],
                    decreases on - kk,
                {
                    if self.out[kk] == s {
                        proof {
                            assert(self.out@[kk as int] < self.n());
                            assert(self.word(self.out@[kk as int] as int) == self.patterns()[
                                kk as int
                            ]);
                            assert(self.patterns()[kk as int] == self.word(s as int));
                            assert(self.patterns()[kk as int].len() >= 1);
                            assert(ends_at(self.patterns(), text@, kk as int, i as int));
                            // a pattern of this very length is not yet recorded
                            assert forall|m: int| m0 <= m < ms@.len() implies (
                            #[trigger] ms@[m]).0 != kk by {
                                if ms@[m].0 == kk {
                                    assert(self.patterns()[ms@[m].0 as int].len() > ds || (
                                    ms@[m].0 < kk && self.out@[ms@[m].0 as int] == s));
                                }
                            }
                        }
                        let ghost oldms = ms@;
                        ms.push((kk, i + 1 - ds, i));
                        proof {
                            assert forall|m: int| 0 <= m < oldms.len() implies ms@[m] == oldms[m] by {}
                            assert(ms@[ms@.len() - 1] == (kk, (i + 1 - ds) as usize, i));
                            assert forall|k2: int, j2: int|
                                ends_at(self.patterns(), text@, k2, j2) && j2 < i implies exists|
                                m: int,
                            |
                                0 <= m < m0 && (#[trigger] ms@[m]).0 == k2 && ms@[m].2 == j2 by {
                                let m = choose|m: int|
                                    0 <= m < m0 && (#[trigger] oldms[m]).0 == k2 && oldms[m].2
                                        == j2;
                                assert(ms@[m] == oldms[m]);
                            }
                            assert forall|k2: int|
                                0 <= k2 < self.patterns().len() && ends_at(
                                    self.patterns(),
                                    text@,
                                    k2,
                                    i as int,
                                ) && ((#[trigger] self.patterns()[k2]).len() > ds || (k2 < kk + 1
                                    && self.out@[k2] == s)) implies exists|m: int|
                                    m0 <= m < ms@.len() && (#[trigger] ms@[m]).0 == k2 by {
                                if k2 == kk {
                                    assert(ms@[ms@.len() - 1].0 == kk);
                                } else {
                                    let m = choose|m: int|
                                        m0 <= m < oldms.len() && (#[trigger] oldms[m]).0 == k2;
                                    assert(ms@[m] == oldms[m]);
                                }
                            }
                        }
                    }
                    kk = kk + 1;
                }
                // all patterns as long as this state's prefix are recorded;
                // between this prefix and its failure link no pattern ends here
                let ghost olds = s;
                s = self.fail[s];
                proof {
                    assert(self.fail_ok(olds as int));
                    assert forall|k: int|
                        0 <= k < self.patterns().len() && ends_at(
                            self.patterns(),
                            text@,
                            k,
                            i as int,
                        ) && (#[trigger] self.patterns()[k]).len() > self.word(s as int).len()
                            implies exists|m: int|
                            m0 <= m < ms@.len() && (#[trigger] ms@[m]).0 == k by {
                        let pk = self.patterns()[k];
                        if pk.len() > self.word(olds as int).len() {
                        } else if pk.len() == self.word(olds as int).len() {
                            lemma_suffix_of_suffix(
                                pk,
                                self.word(olds as int),
                                text@.take(i + 1),
                            );
                            assert(pk =~= self.word(olds as int));
                            assert(self.word(self.out@[k] as int) == pk);
                            assert(self.out@[k] == olds);
                        } else {
                            assert(self.word(self.out@[k] as int) == pk);
                            lemma_suffix_of_suffix(
                                pk,
                                self.word(olds as int),
                                text@.take(i + 1),
                            );
                            assert(pk.len() <= self.word(s as int).len());
                            assert(false);
                        }
                    }
                    assert forall|m: int|
                        m0 <= m < ms@.len() implies self.patterns()[(
                        #[trigger] ms@[m]).0 as int].len() > self.word(s as int).len() by {
                        assert(self.patterns()[ms@[m].0 as int].len() >= self.word(
                            olds as int,
                        ).len());
                    }
                }
            }
            proof {
                assert forall|k: int, j: int|
                    ends_at(self.patterns(), text@, k, j) && j < i + 1 implies exists|m: int|
                        0 <= m < ms@.len() && (#[trigger] ms@[m]).0 == k && ms@[m].2 == j by {
                    if j == i {
                        assert(self.patterns()[k].len() > self.word(0).len());
                        let m = choose|m: int|
                            m0 <= m < ms@.len() && (#[trigger] ms@[m]).0 == k;
                        assert(ms@[m].2 == i);
                    }
                }
            }
            i = i + 1;
        }
        proof {
            assert(text@.take(tn as int) =~= text@);
        }
        ms
    }

    /// The distinct covered positions, in increasing order.
    pub fn scan(&self, text: &str) -> (pos: Vec<usize>)
        requires
            self.wf(),
        ensures
            forall|m: int|
                0 <= m < pos@.len() ==> covered_by(
                    self.patterns(),
                    text@,
                    #[trigger] pos@[m] as int,
                ),
            forall|p: int|
                covered_by(self.patterns(), text@, p) ==> exists|m: int|
                    0 <= m < pos@.len() && #[trigger] pos@[m] as int == p,
            forall|m1: int, m2: int| 0 <= m1 < m2 < pos@.len() ==> pos@[m1] < pos@[m2],
    {
        let ms = self.find_matches(text);
        let tn = text.unicode_len();
        let mut mask: Vec<bool> = Vec::new();
        while mask.len() < tn
            invariant
                mask@.len() <= tn,
                forall|q: int| 0 <= q < mask@.len() ==> !(#[trigger] mask@[q]),
            decreases tn - mask@.len(),
        {
            mask.push(false);
        }
        let mn = ms.len();
        let mut t: usize = 0;
        while t < mn
            invariant
                self.wf(),
                tn == text@.len(),
                mask@.len() == tn,
                mn == ms@.len(),
                0 <= t <= mn,
                forall|m: int|
                    0 <= m < ms@.len() ==> {
                        let e = #[trigger] ms@[m];
                        &&& ends_at(self.patterns(), text@, e.0 as int, e.2 as int)
                        &&& e.1 == e.2 + 1 - self.patterns()[e.0 as int].len()
                    },
                forall|k: int, j: int|
                    ends_at(self.patterns(), text@, k, j) ==> exists|m: int|
                        0 <= m < ms@.len() && (#[trigger] ms@[m]).0 == k && ms@[m].2 == j,
                forall|q: int|
                    0 <= q < tn ==> (#[trigger] mask@[q] <==> exists|m: int|
                        0 <= m < t && (#[trigger] ms@[m]).1 <= q <= ms@[m].2),
            decreases mn - t,
        {
            let e = ms[t];
            let mut q = e.1;
            proof {
                assert(ends_at(self.patterns(), text@, e.0 as int, e.2 as int));
            }
            while q <= e.2
                invariant
                    tn == text@.len(),
                    mask@.len() == tn,
                    mn == ms@.len(),
                    0 <= t < mn,
                    e == ms@[t as int],
                    ends_at(self.patterns(), text@, e.0 as int, e.2 as int),
                    e.1 == e.2 + 1 - self.patterns()[e.0 as int].len(),
                    e.1 <= q <= e.2 + 1,
                    e.2 < tn,
                    forall|qq: int|
                        0 <= qq < tn ==> (#[trigger] mask@[qq] <==> (exists|m: int|
                            0 <= m < t && (#[trigger] ms@[m]).1 <= qq <= ms@[m].2) || (e.1 <= qq
                            < q)),
                decreases e.2 + 1 - q,
            {
                mask.set(q, true);
                q = q + 1;
            }
            proof {
                assert forall|qq: int|
                    0 <= qq < tn implies (#[trigger] mask@[qq] <==> exists|m: int|
                        0 <= m < t + 1 && (#[trigger] ms@[m]).1 <= qq <= ms@[m].2) by {
                    if mask@[qq] {
                        if exists|m: int| 0 <= m < t && (#[trigger] ms@[m]).1 <= qq <= ms@[m].2 {
                            let m = choose|m: int|
                                0 <= m < t && (#[trigger] ms@[m]).1 <= qq <= ms@[m].2;
                            assert(0 <= m < t + 1 && ms@[m].1 <= qq <= ms@[m].2);
                        } else {
                            assert(ms@[t as int].1 <= qq <= ms@[t as int].2);
                        }
                    }
                }
            }
            t = t + 1;
        }
        let mut pos: Vec<usize> = Vec::new();
        let mut p: usize = 0;
        while p < tn
            invariant
                tn == text@.len(),
                mask@.len() == tn,
                0 <= p <= tn,
                forall|q: int| 0 <= q < tn ==> (#[trigger] mask@[q] <==> covered_by(self.patterns(), text@, q)),
                forall|m: int| 0 <= m < pos@.len() ==> 0 <= #[trigger] pos@[m] < p && mask@[pos@[m] as int],
                forall|q: int| 0 <= q < p && mask@[q] ==> exists|m: int| 0 <= m < pos@.len() && #[trigger] pos@[m] as int == q,
                forall|m1: int, m2: int| 0 <= m1 < m2 < pos@.len() ==> pos@[m1] < pos@[m2],
            decreases tn - p,
        {
            if *vstd::slice::slice_index_get(mask.as_slice(), p) {
                let ghost oldpos = pos@;
                pos.push(p);
                proof {
                    assert forall|q: int|
                        0 <= q < p + 1 && mask@[q] implies exists|m: int|
                            0 <= m < pos@.len() && #[trigger] pos@[m] as int == q by {
                        if q < p {
                            let m = choose|m: int|
                                0 <= m < oldpos.len() && #[trigger] oldpos[m] as int == q;
                            assert(pos@[m] == oldpos[m]);
                        } else {
                            assert(pos@[pos@.len() - 1] as int == q);
                        }
                    }
                }
            }
            p = p + 1;
        }
        proof {
            assert forall|pp: int|
                covered_by(self.patterns(), text@, pp) implies exists|m: int|
                    0 <= m < pos@.len() && #[trigger] pos@[m] as int == pp by {
                let (k, j) = choose|k: int, j: int|
                    ends_at(self.patterns(), text@, k, j) && j + 1 - self.patterns()[k].len()
                        <= pp <= j;
                assert(0 <= pp < tn);
                assert(mask@[pp]);
            }
        }
        pos
    }

    /// How many distinct text positions are covered by some occurrence.
    pub fn count(&self, text: &str) -> (num: usize)
        requires
            self.wf(),
        ensures
            num == covered_set(self.patterns(), text@).len(),
    {
        let pos = self.scan(text);
        proof {
            let si = pos@.map_values(|x: usize| x as int);
            assert(si.no_duplicates()) by {
                assert forall|m1: int, m2: int|
                    0 <= m1 < si.len() && 0 <= m2 < si.len() && m1 != m2 implies si[m1]
                    != si[m2] by {
                    assert(si[m1] == pos@[m1] as int && si[m2] == pos@[m2] as int);
                }
            }
            si.unique_seq_to_set();
            assert(si.to_set() =~= covered_set(self.patterns(), text@)) by {
                assert forall|p: int| #[trigger]
                    si.to_set().contains(p) implies covered_set(
                    self.patterns(),
                    text@,
                ).contains(p) by {
                    let m = choose|m: int| 0 <= m < si.len() && si[m] == p;
                    assert(covered_by(self.patterns(), text@, pos@[m] as int));
                }
                assert forall|p: int| #[trigger]
                    covered_set(self.patterns(), text@).contains(p) implies si.to_set().contains(
                    p,
                ) by {
                    let m = choose|m: int| 0 <= m < pos@.len() && pos@[m] as int == p;
                    assert(si[m] == p);
                    assert(si.contains(p));
                }
            }
        }
        pos.len()
    }

    /// Recording one more pattern end state leaves the trie as it was.
    proof fn lemma_out_push(olda: Automaton, a: Automaton)
        requires
            olda.wf_trie(),
            a.edges@ == olda.edges@,
            a.fail@ == olda.fail@,
            a.parent@ == olda.parent@,
            a.pch@ == olda.pch@,
            a.depth@ == olda.depth@,
            a.words@ == olda.words@,
        ensures
            a.wf_trie(),
    {
        assert forall|s2: int| 0 <= s2 < a.n() implies a.word(s2) == olda.word(s2) by {}
        assert forall|i: int|
            0 <= i < a.edges@.len() implies a.edge_ok(#[trigger] a.edges@[i]) == olda.edge_ok(
            olda.edges@[i],
        ) by {}
        assert(a.wf_trie());
    }

    /// Updating one failure link leaves every other state's link, and all
    /// trie structure, as it was.
    proof fn lemma_fail_update(olda: Automaton, a: Automaton, s: int)
        requires
            olda.wf_trie(),
            1 <= s < olda.n(),
            a.fail@ == olda.fail@.update(s, a.fail@[s]),
            a.edges@ == olda.edges@,
            a.parent@ == olda.parent@,
            a.pch@ == olda.pch@,
            a.depth@ == olda.depth@,
            a.words@ == olda.words@,
            a.pats@ == olda.pats@,
            a.out@ == olda.out@,
        ensures
            a.wf_trie(),
            a.n() == olda.n(),
            forall|s2: int| 0 <= s2 < a.n() && s2 != s ==> a.fail@[s2] == olda.fail@[s2],
            forall|s2: int|
                1 <= s2 < a.n() && s2 != s && olda.fail_ok(s2) ==> a.fail_ok(s2),
            a.out_ok(olda.out@.len() as int) == olda.out_ok(olda.out@.len() as int),
    {
        assert(a.fail@.len() == olda.fail@.len());
        assert forall|s2: int| 0 <= s2 < a.n() implies a.word(s2) == olda.word(s2) by {}
        assert forall|i: int|
            0 <= i < a.edges@.len() implies a.edge_ok(#[trigger] a.edges@[i]) == olda.edge_ok(
            olda.edges@[i],
        ) by {}
        assert(a.wf_trie());
        assert forall|s2: int|
            1 <= s2 < a.n() && s2 != s && olda.fail_ok(s2) implies a.fail_ok(s2) by {
            assert(a.fail@[s2] == olda.fail@[s2]);
        }
    }
}

/// The pattern set for a word list: for each word, its character
/// reversal followed by the word itself, so every word contributes
/// exactly two patterns, duplicates and palindromes included.
pub fn pattern_set(words: &Vec<String>) -> (pats: Vec<Vec<char>>)
    requires
        words@.len() <= usize::MAX / 2,
    ensures
        pats@.len() == 2 * words@.len(),
        forall|k: int|
            0 <= k < words@.len() ==> (#[trigger] pats@[2 * k])@ == (
            #[trigger] words@[k])@.reverse() && pats@[2 * k + 1]@ == words@[k]@,
{
    let nw = words.len();
    let mut pats: Vec<Vec<char>> = Vec::new();
    let mut idx: usize = 0;
    while idx < nw
        invariant
            nw == words@.len() <= usize::MAX / 2,
            0 <= idx <= nw,
            pats@.len() == 2 * idx,
            forall|k: int|
                0 <= k < idx ==> (#[trigger] pats@[2 * k])@ == (
                #[trigger] words@[k])@.reverse() && pats@[2 * k + 1]@ == words@[k]@,
        decreases nw - idx,
    {
        let w = vstd::slice::slice_index_get(words.as_slice(), idx);
        let ws = w.as_str();
        let wn = ws.unicode_len();
        let mut fwd: Vec<char> = Vec::new();
        let mut t: usize = 0;
        while t < wn
            invariant
                wn == ws@.len(),
                ws@ == words@[idx as int]@,
                idx < words@.len(),
                0 <= t <= wn,
                fwd@.len() == t,
                forall|q: int| 0 <= q < t ==> #[trigger] fwd@[q] == ws@[q],
            decreases wn - t,
        {
            fwd.push(ws.get_char(t));
            t = t + 1;
        }
        let mut rev: Vec<char> = Vec::new();
        let mut t2: usize = 0;
        while t2 < wn
            invariant
                wn == ws@.len(),
                ws@ == words@[idx as int]@,
                idx < words@.len(),
                0 <= t2 <= wn,
                rev@.len() == t2,
                forall|q: int| 0 <= q < t2 ==> #[trigger] rev@[q] == ws@[wn - 1 - q],
            decreases wn - t2,
        {
            rev.push(ws.get_char(wn - 1 - t2));
            t2 = t2 + 1;
        }
        proof {
            assert(fwd@ =~= words@[idx as int]@);
            assert(rev@ =~= words@[idx as int]@.reverse());
        }
        let ghost oldp = pats@;
        pats.push(rev);
        pats.push(fwd);
        proof {
            assert forall|k: int|
                0 <= k < idx + 1 implies (#[trigger] pats@[2 * k])@ == (
            #[trigger] words@[k])@.reverse() && pats@[2 * k + 1]@ == words@[k]@ by {
                if k < idx {
                    assert(pats@[2 * k] == oldp[2 * k]);
                    assert(pats@[2 * k + 1] == oldp[2 * k + 1]);
                } else {
                    assert(pats@[2 * k] == rev);
                    assert(pats@[2 * k + 1] == fwd);
                }
            }
        }
        idx = idx + 1;
    }
    pats
}



/// Every position in the covered set lies under a literal occurrence of
/// some pattern, checkable by direct substring comparison at that offset.
pub proof fn lemma_covered_position_has_occurrence(
    pats: Seq<Seq<char>>,
    text: Seq<char>,
    p: int,
)
    requires
        covered_by(pats, text, p),
    ensures
        exists|k: int, start: int|
            {
                &&& 0 <= k < pats.len()
                &&& 0 <= start
                &&& start + pats[k].len() <= text.len()
                &&& #[trigger] text.subrange(start, start + pats[k].len()) == pats[k]
                &&& start <= p < start + pats[k].len()
            },
{
    let (k, i) = choose|k: int, i: int|
        ends_at(pats, text, k, i) && i + 1 - pats[k].len() <= p <= i;
    let start = i + 1 - pats[k].len();
    let tp = text.take(i + 1);
    assert(text.subrange(start, start + pats[k].len()) =~= pats[k]) by {
        assert forall|q: int| 0 <= q < pats[k].len() implies text.subrange(
            start,
            start + pats[k].len(),
        )[q] == pats[k][q] by {
            assert(pats[k][q] == tp.subrange(tp.len() - pats[k].len(), tp.len() as int)[q]);
            assert(tp[start + q] == text[start + q]);
        }
    }
    assert(0 <= k < pats.len() && 0 <= start && start + pats[k].len() <= text.len()
        && text.subrange(start, start + pats[k].len()) == pats[k] && start <= p < start
        + pats[k].len());
}

/// Two sorted duplicate-free listings with the same members are the same
/// listing.
proof fn lemma_sorted_same_members_equal(r1: Seq<usize>, r2: Seq<usize>)
    requires
        forall|m1: int, m2: int| 0 <= m1 < m2 < r1.len() ==> r1[m1] < r1[m2],
        forall|m1: int, m2: int| 0 <= m1 < m2 < r2.len() ==> r2[m1] < r2[m2],
        forall|q: usize| r1.contains(q) <==> r2.contains(q),
    ensures
        r1 == r2,
    decreases r1.len(),
{
    if r1.len() == 0 {
        if r2.len() > 0 {
            assert(r2.contains(r2[0]));
            assert(r1.contains(r2[0]));
            assert(false);
        }
        assert(r1 =~= r2);
    } else {
        assert(r1.contains(r1[0]));
        assert(r2.contains(r1[0]));
        assert(r2.len() > 0);
        let m2 = choose|m2: int| 0 <= m2 < r2.len() && r2[m2] == r1[0];
        assert(r2[0] <= r2[m2]);
        assert(r2.contains(r2[0]));
        assert(r1.contains(r2[0]));
        let m1 = choose|m1: int| 0 <= m1 < r1.len() && r1[m1] == r2[0];
        assert(r1[0] <= r1[m1]);
        assert(r1[0] == r2[0]);
        let t1 = r1.drop_first();
        let t2 = r2.drop_first();
        assert forall|q: usize| t1.contains(q) <==> t2.contains(q) by {
            if t1.contains(q) {
                let m = choose|m: int| 0 <= m < t1.len() && t1[m] == q;
                assert(r1[m + 1] == q);
                assert(r1.contains(q));
                assert(r1[0] < q);
                assert(r2.contains(q));
                let mm = choose|mm: int| 0 <= mm < r2.len() && r2[mm] == q;
                assert(mm != 0);
                assert(t2[mm - 1] == q);
                assert(t2.contains(q));
            }
            if t2.contains(q) {
                let m = choose|m: int| 0 <= m < t2.len() && t2[m] == q;
                assert(r2[m + 1] == q);
                assert(r2.contains(q));
                assert(r2[0] < q);
                assert(r1.contains(q));
                let mm = choose|mm: int| 0 <= mm < r1.len() && r1[mm] == q;
                assert(mm != 0);
                assert(t1[mm - 1] == q);
                assert(t1.contains(q));
            }
        }
        assert forall|m1x: int, m2x: int| 0 <= m1x < m2x < t1.len() implies t1[m1x] < t1[m2x] by {
            assert(r1[m1x + 1] < r1[m2x + 1]);
        }
        assert forall|m1x: int, m2x: int| 0 <= m1x < m2x < t2.len() implies t2[m1x] < t2[m2x] by {
            assert(r2[m1x + 1] < r2[m2x + 1]);
        }
        lemma_sorted_same_members_equal(t1, t2);
        assert(r1 =~= r2) by {
            assert(r1.len() == t1.len() + 1 && r2.len() == t2.len() + 1);
            assert forall|m: int| 0 <= m < r1.len() implies r1[m] == r2[m] by {
                if m > 0 {
                    assert(t1[m - 1] == t2[m - 1]);
                }
            }
        }
    }
}

/// Scanning is a pure function of the pattern set and the text: any two
/// sorted listings of the covered positions, as `scan` returns them for
/// the same automaton and text, are identical.
pub proof fn lemma_scan_deterministic(
    pats: Seq<Seq<char>>,
    text: Seq<char>,
    r1: Seq<usize>,
    r2: Seq<usize>,
)
    requires
        forall|m1: int, m2: int| 0 <= m1 < m2 < r1.len() ==> r1[m1] < r1[m2],
        forall|m1: int, m2: int| 0 <= m1 < m2 < r2.len() ==> r2[m1] < r2[m2],
        forall|m: int| 0 <= m < r1.len() ==> covered_by(pats, text, #[trigger] r1[m] as int),
        forall|p: int|
            covered_by(pats, text, p) ==> exists|m: int|
                0 <= m < r1.len() && #[trigger] r1[m] as int == p,
        forall|m: int| 0 <= m < r2.len() ==> covered_by(pats, text, #[trigger] r2[m] as int),
        forall|p: int|
            covered_by(pats, text, p) ==> exists|m: int|
                0 <= m < r2.len() && #[trigger] r2[m] as int == p,
    ensures
        r1 == r2,
{
    assert forall|q: usize| r1.contains(q) <==> r2.contains(q) by {
        if r1.contains(q) {
            let m = choose|m: int| 0 <= m < r1.len() && r1[m] == q;
            assert(covered_by(pats, text, r1[m] as int));
            let m2 = choose|m2: int| 0 <= m2 < r2.len() && #[trigger] r2[m2] as int == q as int;
            assert(r2[m2] == q);
            assert(r2.contains(q));
        }
        if r2.contains(q) {
            let m = choose|m: int| 0 <= m < r2.len() && r2[m] == q;
            assert(covered_by(pats, text, r2[m] as int));
            let m1 = choose|m1: int| 0 <= m1 < r1.len() && #[trigger] r1[m1] as int == q as int;
            assert(r1[m1] == q);
            assert(r1.contains(q));
        }
    }
    lemma_sorted_same_members_equal(r1, r2);
}

/// An empty text has no covered positions, whatever the pattern set.
pub proof fn lemma_empty_text_covers_nothing(pats: Seq<Seq<char>>)
    ensures
        covered_set(pats, Seq::<char>::empty()).len() == 0,
{
    assert(covered_set(pats, Seq::<char>::empty()) =~= Set::<int>::empty());
}

/// An empty pattern set covers nothing, whatever the text.
pub proof fn lemma_no_patterns_covers_nothing(text: Seq<char>)
    ensures
        covered_set(Seq::<Seq<char>>::empty(), text).len() == 0,
{
    assert(covered_set(Seq::<Seq<char>>::empty(), text) =~= Set::<int>::empty());
}

} // verus!
