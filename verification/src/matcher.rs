//! The matcher: which lines contain the needle, and how well.

use vstd::prelude::*;
use vstd::slice::slice_to_vec;
use vstd::utf8::encode_utf8;

use crate::bytes::{
    all_ascii, find_byte, find_either, has_upper, is_alphanumeric, is_upper, lower_copy, lowered,
    to_lower, to_upper, uppered,
};
use crate::scoring::{
    alignment_score, all_alphanumeric, ascending, boundary_at, boundary_hits, gap_in_word,
    is_boundary, is_boundary_literal, is_literal, lemma_gap_appended, lemma_literal_spread, lemma_same_hits,
    preferred, rivals_literal, score_alignment, score_is_at_most, short_needles_do_not_rival,
    within_one_word, LITERAL_BASE, TOP_SCORE,
};

verus! {

/// The bytes of `s` in the order of their first occurrence, each of them once.
pub open spec fn first_occurrences(s: Seq<u8>) -> Seq<u8>
    decreases s.len(),
{
    if s.len() == 0 {
        Seq::empty()
    } else if first_occurrences(s.drop_last()).contains(s.last()) {
        first_occurrences(s.drop_last())
    } else {
        first_occurrences(s.drop_last()).push(s.last())
    }
}

/// The byte that stands for the needle byte `b` besides `b` itself.
pub open spec fn partner_of(case_sensitive: bool, b: u8) -> u8 {
    if case_sensitive {
        b
    } else {
        to_upper(b)
    }
}

/// The first occurrences of the bytes of `s` are the bytes of `s`.
proof fn lemma_first_occurrences(s: Seq<u8>)
    ensures
        first_occurrences(s).to_set() == s.to_set(),
    decreases s.len(),
{
    if s.len() == 0 {
        assert(first_occurrences(s).to_set() =~= s.to_set());
    } else {
        let head = s.drop_last();
        let once = first_occurrences(head);
        lemma_first_occurrences(head);
        assert forall|b: u8| s.to_set().contains(b) implies first_occurrences(s).to_set().contains(
            b,
        ) by {
            let i = choose|i: int| 0 <= i < s.len() && s[i] == b;
            if i < head.len() {
                assert(head[i] == b);
                assert(head.to_set().contains(b));
                assert(once.to_set().contains(b));
                let j = choose|j: int| 0 <= j < once.len() && once[j] == b;
                assert(first_occurrences(s)[j] == b);
            } else if once.contains(b) {
            } else {
                assert(first_occurrences(s)[once.len() as int] == b);
            }
        }
        assert forall|b: u8| first_occurrences(s).to_set().contains(b) implies s.to_set().contains(
            b,
        ) by {
            let j = choose|j: int|
                0 <= j < first_occurrences(s).len() && first_occurrences(s)[j] == b;
            if j < once.len() {
                assert(once[j] == b);
                assert(once.to_set().contains(b));
                assert(head.to_set().contains(b));
                let i = choose|i: int| 0 <= i < head.len() && head[i] == b;
                assert(s[i] == b);
            } else {
                assert(s[s.len() - 1] == b);
            }
        }
        assert(first_occurrences(s).to_set() =~= s.to_set());
    }
}

/// No byte is among the first occurrences twice.
proof fn lemma_occurs_once(s: Seq<u8>)
    ensures
        first_occurrences(s).no_duplicates(),
    decreases s.len(),
{
    if s.len() > 0 {
        lemma_occurs_once(s.drop_last());
    }
}

/// The first occurrences are the bytes of `s`, each of them once, and a byte
/// that is new at the end of `s` comes last.
pub proof fn first_occurrences_are_once(s: Seq<u8>, b: u8)
    ensures
        first_occurrences(s).no_duplicates(),
        first_occurrences(s).contains(b) <==> s.contains(b),
        first_occurrences(s.push(b)) == if s.contains(b) {
            first_occurrences(s)
        } else {
            first_occurrences(s).push(b)
        },
{
    lemma_occurs_once(s);
    lemma_first_occurrences(s);
    assert(first_occurrences(s).contains(b) == first_occurrences(s).to_set().contains(b));
    assert(s.contains(b) == s.to_set().contains(b));
    assert(s.push(b).drop_last() =~= s);
}

/// Whether `b` is in `v`.
fn contains_byte(v: &Vec<u8>, b: u8) -> (r: bool)
    ensures
        r == v@.contains(b),
{
    let mut i: usize = 0;
    while i < v.len()
        invariant
            i <= v@.len(),
            forall|j: int| 0 <= j < i ==> #[trigger] v@[j] != b,
        decreases v@.len() - i,
    {
        if v[i] == b {
            return true;
        }
        i += 1;
    }
    false
}

/// A needle, prepared for searching.
pub struct Matcher {
    /// The needle: in lower case unless the search is case-sensitive.
    pub lo: Vec<u8>,
    /// For each byte of `lo`, the other byte that it stands for.
    pub hi: Vec<u8>,
    /// The bytes of `lo`, each of them once.
    pub unique_lo: Vec<u8>,
    /// For each byte of `unique_lo`, the other byte that it stands for.
    pub unique_hi: Vec<u8>,
    /// The needle is ASCII throughout.
    pub ascii_only: bool,
    /// The needle holds an upper-case letter, so case matters.
    pub case_sensitive: bool,
}

impl Matcher {
    /// The other byte that the needle byte `b` stands for.
    pub open spec fn partner(self, b: u8) -> u8 {
        partner_of(self.case_sensitive, b)
    }

    /// The fields agree with each other.
    pub open spec fn wf(self) -> bool {
        &&& self.case_sensitive == has_upper(self.lo@)
        &&& self.ascii_only == all_ascii(self.lo@)
        &&& self.hi@ == self.lo@.map_values(|b: u8| self.partner(b))
        &&& self.unique_lo@ == first_occurrences(self.lo@)
        &&& self.unique_hi@ == self.unique_lo@.map_values(|b: u8| self.partner(b))
    }

    /// The haystack byte `b` can stand for byte `i` of the needle.
    pub open spec fn accepts(self, i: int, b: u8) -> bool {
        b == self.lo@[i] || b == self.hi@[i]
    }

    /// The needle bytes land, in their order, at the positions `ps` of `hay`.
    pub open spec fn is_alignment(self, hay: Seq<u8>, ps: Seq<int>) -> bool {
        &&& ps.len() == self.lo@.len()
        &&& forall|k: int|
            0 <= k < ps.len() ==> 0 <= #[trigger] ps[k] < hay.len() && self.accepts(k, hay[ps[k]])
        &&& ascending(ps)
    }

    /// Byte `k` of the needle could land at no position of `hay` strictly
    /// between position `k` of `ps` and the one before it.
    pub open spec fn lands_first(self, hay: Seq<u8>, ps: Seq<int>, k: int) -> bool {
        forall|p: int| ps[k - 1] < p < ps[k] ==> !self.accepts(k, #[trigger] hay[p])
    }

    /// An alignment in which each needle byte but the first lands at the first
    /// position that it can, after the needle byte before it.
    pub open spec fn is_greedy(self, hay: Seq<u8>, ps: Seq<int>) -> bool {
        &&& self.is_alignment(hay, ps)
        &&& forall|k: int| 0 < k < ps.len() ==> #[trigger] self.lands_first(hay, ps, k)
    }

    /// The needle is a subsequence of `hay`.
    pub open spec fn is_match(self, hay: Seq<u8>) -> bool {
        exists|ps: Seq<int>| #[trigger] self.is_alignment(hay, ps)
    }

    /// A greedy alignment that starts before `upto`, to which no other such one
    /// is preferred.
    pub open spec fn leads(self, hay: Seq<u8>, upto: int, ps: Seq<int>) -> bool {
        &&& self.is_greedy(hay, ps)
        &&& ps[0] < upto
        &&& forall|qs: Seq<int>| #[trigger]
            self.is_greedy(hay, qs) && qs[0] < upto ==> !preferred(hay, qs, ps)
    }

    /// The greedy alignment at `start` has this score, and no greedy alignment
    /// is preferred to it.
    pub open spec fn is_best(self, hay: Seq<u8>, score: i32, start: int) -> bool {
        exists|ps: Seq<int>| #[trigger]
            self.leads(hay, hay.len() as int, ps) && ps[0] == start && alignment_score(hay, ps)
                == score
    }

    /// What a search for the needle in `hay` finds: the score and the start of
    /// the best alignment, if there is one.
    pub open spec fn best_match(self, hay: Seq<u8>) -> Option<(i32, int)> {
        if self.lo@.len() == 0 {
            Some((0i32, 0int))
        } else if self.is_match(hay) {
            Some(choose|r: (i32, int)| #[trigger] self.is_best(hay, r.0, r.1))
        } else {
            None
        }
    }

    /// `text` is what is searched in place of `hay`: for both bytes that a
    /// needle byte stands for, or, unless `both`, for the byte of `lo` alone.
    spec fn searched_as(self, hay: Seq<u8>, text: Seq<u8>, both: bool) -> bool {
        text == if both || self.case_sensitive {
            hay
        } else {
            lowered(hay)
        }
    }

    /// The first needle bytes land greedily at `ps`.
    spec fn is_greedy_prefix(self, hay: Seq<u8>, ps: Seq<int>) -> bool {
        &&& 0 < ps.len() <= self.lo@.len()
        &&& forall|k: int|
            0 <= k < ps.len() ==> 0 <= #[trigger] ps[k] < hay.len() && self.accepts(k, hay[ps[k]])
        &&& ascending(ps)
        &&& forall|k: int| 0 < k < ps.len() ==> #[trigger] self.lands_first(hay, ps, k)
    }

    /// An alignment that starts no earlier than a greedy one stays no earlier.
    proof fn lemma_greedy_is_earliest(self, hay: Seq<u8>, ps: Seq<int>, qs: Seq<int>, k: int)
        requires
            self.is_greedy_prefix(hay, ps),
            self.is_alignment(hay, qs),
            ps[0] <= qs[0],
            0 <= k < ps.len(),
        ensures
            ps[k] <= qs[k],
        decreases k,
    {
        if k > 0 {
            self.lemma_greedy_is_earliest(hay, ps, qs, k - 1);
            assert(qs[k - 1] < qs[k]);
            assert(self.lands_first(hay, ps, k));
            if qs[k] < ps[k] {
                assert(ps[k - 1] < qs[k] < ps[k]);
                assert(!self.accepts(k, hay[qs[k]]));
            }
        }
    }

    /// Two greedy alignments that start together are the same.
    proof fn lemma_greedy_unique(self, hay: Seq<u8>, ps: Seq<int>, qs: Seq<int>)
        requires
            self.lo@.len() > 0,
            self.is_greedy(hay, ps),
            self.is_greedy(hay, qs),
            ps[0] == qs[0],
        ensures
            ps == qs,
    {
        assert forall|k: int| 0 <= k < ps.len() implies ps[k] == qs[k] by {
            self.lemma_greedy_is_earliest(hay, ps, qs, k);
            self.lemma_greedy_is_earliest(hay, qs, ps, k);
        }
        assert(ps =~= qs);
    }

    /// There is at most one best result.
    proof fn lemma_best_unique(self, hay: Seq<u8>, a: (i32, int), b: (i32, int))
        requires
            self.is_best(hay, a.0, a.1),
            self.is_best(hay, b.0, b.1),
            self.lo@.len() > 0,
        ensures
            a == b,
    {
        let ps = choose|ps: Seq<int>| #[trigger]
            self.leads(hay, hay.len() as int, ps) && ps[0] == a.1 && alignment_score(hay, ps)
                == a.0;
        let qs = choose|qs: Seq<int>| #[trigger]
            self.leads(hay, hay.len() as int, qs) && qs[0] == b.1 && alignment_score(hay, qs)
                == b.0;
        assert(!preferred(hay, ps, qs));
        assert(!preferred(hay, qs, ps));
        if a.1 == b.1 {
            self.lemma_greedy_unique(hay, ps, qs);
        }
    }

    /// Looking for one byte in the searched text finds what the needle accepts
    /// in the haystack.
    proof fn lemma_searched_as(self, hay: Seq<u8>, text: Seq<u8>, i: int, p: int)
        requires
            self.wf(),
            self.searched_as(hay, text, false),
            0 <= i < self.lo@.len(),
            0 <= p < hay.len(),
        ensures
            self.accepts(i, hay[p]) <==> text[p] == self.lo@[i],
    {
        assert(self.hi@[i] == self.partner(self.lo@[i]));
        if !self.case_sensitive {
            assert(!is_upper(self.lo@[i]));
        }
    }

    /// The first position from `from` on at which byte `i` of the needle can
    /// land.
    #[inline]
    fn find_from(
        &self,
        Ghost(hay): Ghost<Seq<u8>>,
        text: &[u8],
        both: bool,
        i: usize,
        from: usize,
    ) -> (r: Option<usize>)
        requires
            self.wf(),
            self.searched_as(hay, text@, both),
            i < self.lo@.len(),
            from <= hay.len(),
        ensures
            match r {
                Some(p) => {
                    &&& from <= p < hay.len()
                    &&& self.accepts(i as int, hay[p as int])
                    &&& forall|q: int|
                        from <= q < p ==> !self.accepts(i as int, #[trigger] hay[q])
                },
                None => forall|q: int|
                    from <= q < hay.len() ==> !self.accepts(i as int, #[trigger] hay[q]),
            },
    {
        assert(text@.len() == hay.len());
        let rest: &[u8] = &text[from..text.len()];
        proof {
            assert forall|q: int| from <= q < hay.len() implies rest@[q - from] == text@[q] by {}
            if !both {
                assert forall|q: int| from <= q < hay.len() implies (self.accepts(
                    i as int,
                    #[trigger] hay[q],
                ) <==> text@[q] == self.lo@[i as int]) by {
                    self.lemma_searched_as(hay, text@, i as int, q);
                }
            }
        }
        let found: Option<usize> = if both {
            find_either(self.lo[i], self.hi[i], rest)
        } else {
            find_byte(self.lo[i], rest)
        };
        match found {
            Some(off) => {
                assert forall|q: int| from <= q < from + off implies !self.accepts(
                    i as int,
                    #[trigger] hay[q],
                ) by {
                    assert(rest@[q - from] == text@[q]);
                }
                assert(rest@[off as int] == text@[from + off]);
                Some(from + off)
            },
            None => {
                assert forall|q: int| from <= q < hay.len() implies !self.accepts(
                    i as int,
                    #[trigger] hay[q],
                ) by {
                    assert(rest@[q - from] == text@[q]);
                }
                None
            },
        }
    }

    /// One more needle byte at the first position that it can extends a greedy
    /// prefix.
    proof fn lemma_greedy_extends(self, hay: Seq<u8>, ps: Seq<int>, abs: int)
        requires
            self.is_greedy_prefix(hay, ps),
            ps.len() < self.lo@.len(),
            ps.last() < abs < hay.len(),
            self.accepts(ps.len() as int, hay[abs]),
            forall|q: int|
                ps.last() < q < abs ==> !self.accepts(ps.len() as int, #[trigger] hay[q]),
        ensures
            self.is_greedy_prefix(hay, ps.push(abs)),
    {
        let longer = ps.push(abs);
        assert forall|k: int| 0 < k < longer.len() implies #[trigger] self.lands_first(
            hay,
            longer,
            k,
        ) by {
            if k < ps.len() {
                assert(self.lands_first(hay, ps, k));
            }
        }
    }

    /// Where a needle byte is missing after a greedy prefix, no alignment
    /// starts where the prefix does, or later.
    proof fn lemma_greedy_stuck(self, hay: Seq<u8>, ps: Seq<int>, qs: Seq<int>)
        requires
            self.is_greedy_prefix(hay, ps),
            ps.len() < self.lo@.len(),
            forall|q: int|
                ps.last() < q < hay.len() ==> !self.accepts(ps.len() as int, #[trigger] hay[q]),
            self.is_alignment(hay, qs),
        ensures
            qs[0] < ps[0],
    {
        if qs[0] >= ps[0] {
            let i = ps.len() as int;
            self.lemma_greedy_is_earliest(hay, ps, qs, i - 1);
            assert(qs[i - 1] < qs[i]);
            assert(self.accepts(i, hay[qs[i]]));
        }
    }

    /// The score of the greedy alignment at `start`, and whether it is a literal
    /// match at a word boundary; or `None` where a needle byte is missing, and
    /// then every alignment starts before `start`.
    #[inline]
    fn score_from(&self, hay: &[u8], text: &[u8], both: bool, start: usize) -> (r: Option<
        (i32, bool),
    >)
        requires
            self.wf(),
            self.searched_as(hay@, text@, both),
            self.lo@.len() > 0,
            start < hay@.len(),
            self.accepts(0, hay@[start as int]),
        ensures
            match r {
                Some((score, top)) => exists|ps: Seq<int>| #[trigger]
                    self.is_greedy(hay@, ps) && ps[0] == start && alignment_score(hay@, ps) == score
                        && is_boundary_literal(hay@, ps) == top,
                None => forall|qs: Seq<int>| #[trigger]
                    self.is_alignment(hay@, qs) ==> qs[0] < start,
            },
    {
        let n: usize = self.lo.len();
        let start_boundary: bool = boundary_at(hay, start);
        let mut last_pos: usize = start;
        let mut hits: usize = if start_boundary {
            1
        } else {
            0
        };
        let mut in_word: bool = true;
        let ghost mut ps: Seq<int> = seq![start as int];
        proof {
            reveal_with_fuel(boundary_hits, 2);
            assert(ps.drop_last() =~= Seq::<int>::empty());
        }
        let mut i: usize = 1;
        while i < n
            invariant
                1 <= i <= n,
                n == self.lo@.len(),
                self.wf(),
                self.searched_as(hay@, text@, both),
                ps.len() == i,
                ps[0] == start,
                ps.last() == last_pos,
                self.is_greedy_prefix(hay@, ps),
                hits <= i,
                hits == boundary_hits(hay@, ps),
                in_word == within_one_word(hay@, ps),
            decreases n - i,
        {
            assert(last_pos < hay.len());
            let pos: usize = last_pos + 1;
            let found: Option<usize> = self.find_from(Ghost(hay@), text, both, i, pos);
            let abs: usize = match found {
                Some(p) => p,
                None => {
                    proof {
                        assert forall|qs: Seq<int>| #[trigger]
                            self.is_alignment(hay@, qs) implies qs[0] < start by {
                            self.lemma_greedy_stuck(hay@, ps, qs);
                        }
                    }
                    return None;
                },
            };
            proof {
                self.lemma_greedy_extends(hay@, ps, abs as int);
                lemma_gap_appended(hay@, ps, abs as int);
                assert(ps.push(abs as int).drop_last() =~= ps);
            }
            if in_word {
                in_word = all_alphanumeric(hay, pos, abs);
            }
            last_pos = abs;
            if boundary_at(hay, abs) {
                hits += 1;
            }
            proof {
                ps = ps.push(abs as int);
            }
            i += 1;
        }
        proof {
            assert(self.is_greedy(hay@, ps));
            lemma_literal_spread(ps);
        }
        let top: bool = start_boundary && last_pos - start == n - 1;
        Some((score_alignment(n, start, last_pos, hits, start_boundary, in_word), top))
    }

    /// `best` is the result of a greedy alignment that starts before `upto` and
    /// leads there, and that does not end the search.
    spec fn leads_so_far(self, hay: Seq<u8>, upto: int, best: (i32, usize)) -> bool {
        exists|ps: Seq<int>| #[trigger]
            self.leads(hay, upto, ps) && ps[0] == best.1 && alignment_score(hay, ps) == best.0
                && !is_boundary_literal(hay, ps)
    }

    /// Where no alignment starts at `to` or later, and the first needle byte
    /// cannot land from `from` up to `to`, the search is over.
    proof fn lemma_search_ends(self, hay: Seq<u8>, from: int, to: int, best: Option<(i32, usize)>)
        requires
            self.lo@.len() > 0,
            0 <= from <= to <= hay.len(),
            forall|q: int| from <= q < to ==> !self.accepts(0, #[trigger] hay[q]),
            to == hay.len() || forall|qs: Seq<int>| #[trigger]
                self.is_alignment(hay, qs) ==> qs[0] < to,
            best is None ==> forall|p: int|
                0 <= p < from ==> !self.accepts(0, #[trigger] hay[p]),
            best matches Some(b) ==> self.leads_so_far(hay, from, b),
        ensures
            best is Some <==> self.is_match(hay),
            best matches Some((score, start)) ==> self.is_best(hay, score, start as int),
    {
        assert forall|qs: Seq<int>| #[trigger] self.is_alignment(hay, qs) implies qs[0] < from by {
            assert(0 <= qs[0] < hay.len() && self.accepts(0, hay[qs[0]]));
        }
        match best {
            Some((score, start)) => {
                let ps = choose|ps: Seq<int>| #[trigger]
                    self.leads(hay, from, ps) && ps[0] == start && alignment_score(hay, ps) == score
                        && !is_boundary_literal(hay, ps);
                assert(self.is_alignment(hay, ps));
                assert(self.leads(hay, hay.len() as int, ps)) by {
                    assert forall|qs: Seq<int>| #[trigger]
                        self.is_greedy(hay, qs) implies !preferred(hay, qs, ps) by {
                        assert(self.is_alignment(hay, qs));
                    }
                }
            },
            None => {
                assert forall|qs: Seq<int>| !#[trigger] self.is_alignment(hay, qs) by {
                    if self.is_alignment(hay, qs) {
                        assert(0 <= qs[0] < hay.len() && self.accepts(0, hay[qs[0]]));
                    }
                }
            },
        }
    }

    /// What trying the greedy alignment at `start` adds to what was found.
    proof fn lemma_start_tried(
        self,
        hay: Seq<u8>,
        from: int,
        start: usize,
        score: i32,
        top: bool,
        best: Option<(i32, usize)>,
    )
        requires
            self.lo@.len() > 0,
            0 <= from <= start < hay.len(),
            forall|q: int| from <= q < start ==> !self.accepts(0, #[trigger] hay[q]),
            exists|ps: Seq<int>| #[trigger]
                self.is_greedy(hay, ps) && ps[0] == start && alignment_score(hay, ps) == score
                    && is_boundary_literal(hay, ps) == top,
            best is None ==> forall|p: int|
                0 <= p < from ==> !self.accepts(0, #[trigger] hay[p]),
            best matches Some(b) ==> self.leads_so_far(hay, from, b),
        ensures
            self.is_match(hay),
            top ==> self.is_best(hay, score, start as int),
            !top ==> self.leads_so_far(
                hay,
                start + 1,
                match best {
                    Some(b) if score <= b.0 => b,
                    _ => (score, start),
                },
            ),
    {
        let ps = choose|ps: Seq<int>| #[trigger]
            self.is_greedy(hay, ps) && ps[0] == start && alignment_score(hay, ps) == score
                && is_boundary_literal(hay, ps) == top;
        assert(self.is_alignment(hay, ps));
        assert forall|qs: Seq<int>| #[trigger]
            self.is_greedy(hay, qs) && qs[0] < start + 1 implies {
            ||| qs == ps
            ||| qs[0] < from && best is Some
        } by {
            assert(0 <= qs[0] < hay.len() && self.accepts(0, hay[qs[0]]));
            if qs[0] == start {
                self.lemma_greedy_unique(hay, ps, qs);
            }
        }
        match best {
            None => {
                assert(self.leads(hay, start + 1, ps));
                if top {
                    assert(self.leads(hay, hay.len() as int, ps));
                }
            },
            Some(b) => {
                let bs = choose|bs: Seq<int>| #[trigger]
                    self.leads(hay, from, bs) && bs[0] == b.1 && alignment_score(hay, bs) == b.0
                        && !is_boundary_literal(hay, bs);
                assert forall|qs: Seq<int>| #[trigger]
                    self.is_greedy(hay, qs) && qs[0] < start + 1 implies qs == ps || !preferred(
                    hay,
                    qs,
                    bs,
                ) by {}
                if top {
                    assert(self.leads(hay, hay.len() as int, ps));
                } else if score > b.0 {
                    assert(self.leads(hay, start + 1, ps));
                } else {
                    assert(self.leads(hay, start + 1, bs));
                }
            },
        }
    }

    /// The best alignment of the needle in `hay`, trying every position of the
    /// first needle byte, up to a literal match at a word boundary.
    #[inline]
    fn best_alignment(&self, hay: &[u8], text: &[u8], both: bool) -> (r: Option<(i32, usize)>)
        requires
            self.wf(),
            self.searched_as(hay@, text@, both),
            self.lo@.len() > 0,
        ensures
            r is Some <==> self.is_match(hay@),
            r matches Some((score, start)) ==> self.is_best(hay@, score, start as int),
    {
        let mut best: Option<(i32, usize)> = None;
        let mut search_from: usize = 0;
        loop
            invariant
                self.wf(),
                self.searched_as(hay@, text@, both),
                self.lo@.len() > 0,
                search_from <= hay@.len(),
                best is None ==> forall|p: int|
                    0 <= p < search_from ==> !self.accepts(0, #[trigger] hay@[p]),
                best matches Some(b) ==> self.leads_so_far(hay@, search_from as int, b),
            decreases hay@.len() - search_from,
        {
            let start: usize = match self.find_from(Ghost(hay@), text, both, 0, search_from) {
                Some(p) => p,
                None => {
                    proof {
                        self.lemma_search_ends(hay@, search_from as int, hay@.len() as int, best);
                    }
                    return best;
                },
            };
            let (score, top): (i32, bool) = match self.score_from(hay, text, both, start) {
                Some(s) => s,
                None => {
                    proof {
                        self.lemma_search_ends(hay@, search_from as int, start as int, best);
                    }
                    return best;
                },
            };
            proof {
                self.lemma_start_tried(hay@, search_from as int, start, score, top, best);
            }
            if top {
                return Some((score, start));
            }
            best = match best {
                None => Some((score, start)),
                Some((b, bs)) => if score > b {
                    Some((score, start))
                } else {
                    Some((b, bs))
                },
            };
            assert(start < hay.len());
            search_from = start + 1;
        }
    }

    /// `r` is what a search for the needle in `hay` finds.
    pub open spec fn is_result(self, hay: Seq<u8>, r: Option<(i32, usize)>) -> bool {
        match r {
            Some((score, start)) => self.best_match(hay) == Some((score, start as int)),
            None => self.best_match(hay) is None,
        }
    }

    /// What is best is what `best_match` gives.
    proof fn lemma_result(self, hay: Seq<u8>, r: Option<(i32, usize)>)
        requires
            self.lo@.len() > 0,
            r is Some <==> self.is_match(hay),
            r matches Some((score, start)) ==> self.is_best(hay, score, start as int),
        ensures
            self.is_result(hay, r),
    {
        if let Some((score, start)) = r {
            let pair: (i32, int) = (score, start as int);
            assert(self.is_best(hay, pair.0, pair.1));
            let chosen = choose|c: (i32, int)| #[trigger] self.is_best(hay, c.0, c.1);
            self.lemma_best_unique(hay, pair, chosen);
        }
    }

    /// The best match in `hay`, looking for both bytes that a needle byte stands
    /// for. It is the one that `match_score_slow` gives.
    #[inline]
    pub fn match_score_ascii(&self, hay: &[u8]) -> (r: Option<(i32, usize)>)
        requires
            self.wf(),
            self.lo@.len() > 0,
        ensures
            r is Some <==> self.is_match(hay@),
            r matches Some((score, start)) ==> self.is_best(hay@, score, start as int),
            self.is_result(hay@, r),
    {
        let r: Option<(i32, usize)> = self.best_alignment(hay, hay, true);
        proof {
            self.lemma_result(hay@, r);
        }
        r
    }

    /// The best match in `hay`, looking for one byte at a time in a copy in
    /// lower case where case does not matter. It is the one that
    /// `match_score_ascii` gives.
    pub fn match_score_slow(&self, hay: &[u8]) -> (r: Option<(i32, usize)>)
        requires
            self.wf(),
            self.lo@.len() > 0,
        ensures
            r is Some <==> self.is_match(hay@),
            r matches Some((score, start)) ==> self.is_best(hay@, score, start as int),
            self.is_result(hay@, r),
    {
        let r: Option<(i32, usize)> = if self.case_sensitive {
            self.best_alignment(hay, hay, false)
        } else {
            let folded: Vec<u8> = lower_copy(hay);
            self.best_alignment(hay, folded.as_slice(), false)
        };
        proof {
            self.lemma_result(hay@, r);
        }
        r
    }

    /// The score of the best match of the needle in `hay`, and the offset in
    /// `hay` at which it starts; `None` where the needle is not a subsequence
    /// of `hay`. The empty needle matches with score 0 at offset 0.
    ///
    /// The candidates are the greedy alignments from every position of the
    /// first needle byte; the leftmost of those with the highest score is the
    /// best, but a literal match at a word boundary ends the search. A literal
    /// match scores `LITERAL_BASE`, and the bonus where it is at a word
    /// boundary. A match whose gaps are alphanumeric scores `SINGLE_WORD_BASE`
    /// and the bonus for each boundary it hits, less the penalty for its excess
    /// spread; any other match scores the same without `SINGLE_WORD_BASE`. A
    /// score that no `i32` holds saturates.
    #[inline]
    pub fn match_score(&self, hay: &[u8]) -> (r: Option<(i32, usize)>)
        requires
            self.wf(),
        ensures
            self.lo@.len() == 0 ==> r == Some((0i32, 0usize)),
            self.lo@.len() > 0 ==> {
                &&& r is Some <==> self.is_match(hay@)
                &&& r matches Some((score, start)) ==> self.is_best(hay@, score, start as int)
            },
            self.is_result(hay@, r),
            match r {
                Some((score, start)) => {
                    &&& self.best_match(hay@) == Some((score, start as int))
                    &&& self.lo@.len() > 0 ==> start < hay@.len()
                },
                None => self.best_match(hay@) is None && self.lo@.len() > 0,
            },
    {
        proof {
            if self.lo@.len() > 0 {
                self.match_starts_in_haystack(hay@);
            }
        }
        if self.lo.is_empty() {
            return Some((0, 0));
        }
        if self.lo.len() > hay.len() {
            proof {
                assert forall|ps: Seq<int>| !#[trigger] self.is_alignment(hay@, ps) by {
                    if self.is_alignment(hay@, ps) {
                        self.lemma_alignment_advances(hay@, ps, ps.len() - 1);
                    }
                }
            }
            return None;
        }
        if self.ascii_only {
            self.match_score_ascii(hay)
        } else {
            self.match_score_slow(hay)
        }
    }

    /// Byte `k` of the needle lands at position `k` or later.
    proof fn lemma_alignment_advances(self, hay: Seq<u8>, ps: Seq<int>, k: int)
        requires
            self.is_alignment(hay, ps),
            0 <= k < ps.len(),
        ensures
            k <= ps[k] < hay.len(),
        decreases k,
    {
        if k > 0 {
            self.lemma_alignment_advances(hay, ps, k - 1);
            assert(ps[k - 1] < ps[k]);
        }
    }

    /// Byte `i` of the needle can land somewhere in `buf`.
    pub open spec fn occurs(self, i: int, buf: Seq<u8>) -> bool {
        exists|p: int| 0 <= p < buf.len() && self.accepts(i, #[trigger] buf[p])
    }

    /// Every byte of the needle can land somewhere in `buf`.
    pub open spec fn all_occur(self, buf: Seq<u8>) -> bool {
        forall|i: int| 0 <= i < self.lo@.len() ==> #[trigger] self.occurs(i, buf)
    }

    /// A matcher for `needle`. The search is case-sensitive exactly if the
    /// needle holds an ASCII upper-case letter.
    pub fn new(needle: &str) -> (r: Self)
        ensures
            r.wf(),
            r.case_sensitive == has_upper(encode_utf8(needle@)),
            r.ascii_only == all_ascii(encode_utf8(needle@)),
            r.lo@ == if r.case_sensitive {
                encode_utf8(needle@)
            } else {
                lowered(encode_utf8(needle@))
            },
            r.case_sensitive <==> exists|i: int|
                0 <= i < encode_utf8(needle@).len() && 0x41 <= #[trigger] encode_utf8(needle@)[i]
                    <= 0x5a,
            r.ascii_only <==> forall|i: int|
                0 <= i < encode_utf8(needle@).len() ==> #[trigger] encode_utf8(needle@)[i] < 0x80,
            r.lo@ == encode_utf8(needle@),
            r.hi@.len() == r.lo@.len(),
            forall|i: int|
                0 <= i < r.lo@.len() ==> #[trigger] r.hi@[i] == if !r.case_sensitive && 0x61
                    <= r.lo@[i] <= 0x7a {
                    r.lo@[i] - 0x20
                } else {
                    r.lo@[i] as int
                },
            r.unique_lo@.no_duplicates(),
            r.unique_lo@.to_set() == r.lo@.to_set(),
            r.unique_hi@.len() == r.unique_lo@.len(),
            forall|i: int|
                0 <= i < r.unique_lo@.len() ==> #[trigger] r.unique_hi@[i] == if !r.case_sensitive
                    && 0x61 <= r.unique_lo@[i] <= 0x7a {
                    r.unique_lo@[i] - 0x20
                } else {
                    r.unique_lo@[i] as int
                },
    {
        let bytes: &[u8] = needle.as_bytes();
        let mut ascii_only: bool = true;
        let mut case_sensitive: bool = false;
        let mut i: usize = 0;
        while i < bytes.len()
            invariant
                i <= bytes@.len(),
                ascii_only == all_ascii(bytes@.subrange(0, i as int)),
                case_sensitive == has_upper(bytes@.subrange(0, i as int)),
            decreases bytes@.len() - i,
        {
            let b: u8 = bytes[i];
            proof {
                let before = bytes@.subrange(0, i as int);
                let after = bytes@.subrange(0, i + 1);
                assert(after =~= before.push(b));
                assert(all_ascii(after) == (all_ascii(before) && b < 0x80)) by {
                    assert(after[i as int] == b);
                    assert(forall|j: int| 0 <= j < i ==> #[trigger] after[j] == before[j]);
                    assert(forall|j: int| 0 <= j < i ==> #[trigger] before[j] == after[j]);
                }
                assert(has_upper(after) == (has_upper(before) || is_upper(b))) by {
                    assert(after[i as int] == b);
                    assert(forall|j: int| 0 <= j < i ==> #[trigger] after[j] == before[j]);
                    assert(forall|j: int| 0 <= j < i ==> #[trigger] before[j] == after[j]);
                }
            }
            if b >= 0x80 {
                ascii_only = false;
            }
            if is_upper(b) {
                case_sensitive = true;
            }
            i += 1;
        }
        assert(bytes@.subrange(0, bytes@.len() as int) =~= bytes@);
        let lo: Vec<u8> = if case_sensitive {
            slice_to_vec(bytes)
        } else {
            lower_copy(bytes)
        };
        let mut hi: Vec<u8> = Vec::with_capacity(lo.len());
        let mut unique_lo: Vec<u8> = Vec::new();
        let mut unique_hi: Vec<u8> = Vec::new();
        assert(lo@.subrange(0, 0) =~= Seq::<u8>::empty());
        let mut k: usize = 0;
        while k < lo.len()
            invariant
                k <= lo@.len(),
                hi@.len() == k,
                forall|j: int|
                    0 <= j < k ==> #[trigger] hi@[j] == partner_of(case_sensitive, lo@[j]),
                unique_lo@ == first_occurrences(lo@.subrange(0, k as int)),
                unique_hi@.len() == unique_lo@.len(),
                forall|j: int|
                    0 <= j < unique_lo@.len() ==> #[trigger] unique_hi@[j] == partner_of(
                        case_sensitive,
                        unique_lo@[j],
                    ),
            decreases lo@.len() - k,
        {
            let l: u8 = lo[k];
            let h: u8 = if case_sensitive {
                l
            } else {
                to_upper(l)
            };
            hi.push(h);
            assert(lo@.subrange(0, k + 1).drop_last() =~= lo@.subrange(0, k as int));
            if !contains_byte(&unique_lo, l) {
                unique_lo.push(l);
                unique_hi.push(h);
            }
            k += 1;
        }
        assert(lo@.subrange(0, lo@.len() as int) =~= lo@);
        let r = Matcher { lo, hi, unique_lo, unique_hi, ascii_only, case_sensitive };
        proof {
            let bs = bytes@;
            if !case_sensitive {
                assert(forall|j: int| 0 <= j < bs.len() ==> #[trigger] r.lo@[j] == to_lower(bs[j]));
                assert(forall|j: int| 0 <= j < bs.len() ==> to_lower(#[trigger] bs[j]) == r.lo@[j]);
                assert(has_upper(r.lo@) == has_upper(bs));
                assert(all_ascii(r.lo@) == all_ascii(bs));
            }
            assert(r.hi@ =~= r.lo@.map_values(|b: u8| r.partner(b)));
            assert(r.unique_hi@ =~= r.unique_lo@.map_values(|b: u8| r.partner(b)));
            if !case_sensitive {
                assert forall|j: int| 0 <= j < bs.len() implies #[trigger] r.lo@[j] == bs[j] by {
                    assert(!is_upper(bs[j]));
                }
            }
            assert(r.lo@ =~= bs);
            lemma_first_occurrences(r.lo@);
            lemma_occurs_once(r.lo@);
        }
        r
    }

    /// A needle byte can land in a buffer that holds one of its two bytes.
    proof fn lemma_occurs_contains(self, i: int, buf: Seq<u8>)
        ensures
            self.occurs(i, buf) == (buf.contains(self.lo@[i]) || buf.contains(self.hi@[i])),
    {
        if buf.contains(self.lo@[i]) {
            let p = choose|p: int| 0 <= p < buf.len() && buf[p] == self.lo@[i];
            assert(self.accepts(i, buf[p]));
        }
        if buf.contains(self.hi@[i]) {
            let p = choose|p: int| 0 <= p < buf.len() && buf[p] == self.hi@[i];
            assert(self.accepts(i, buf[p]));
        }
    }

    /// Whether every byte of the needle occurs in `buf`, in any order. A buffer
    /// that fails this holds no line that matches.
    #[inline]
    pub fn prefilter_passes(&self, buf: &[u8]) -> (r: bool)
        requires
            self.wf(),
        ensures
            r == self.all_occur(buf@),
            r == forall|i: int|
                0 <= i < self.lo@.len() ==> buf@.contains(#[trigger] self.lo@[i]) || buf@.contains(
                    self.hi@[i],
                ),
    {
        proof {
            lemma_first_occurrences(self.lo@);
            assert forall|i: int| 0 <= i < self.lo@.len() implies #[trigger] self.occurs(i, buf@)
                == (buf@.contains(self.lo@[i]) || buf@.contains(self.hi@[i])) by {
                self.lemma_occurs_contains(i, buf@);
            }
            assert(self.all_occur(buf@) == forall|i: int|
                0 <= i < self.lo@.len() ==> buf@.contains(#[trigger] self.lo@[i]) || buf@.contains(
                    self.hi@[i],
                )) by {
                if self.all_occur(buf@) {
                    assert forall|i: int| 0 <= i < self.lo@.len() implies buf@.contains(
                        #[trigger] self.lo@[i],
                    ) || buf@.contains(self.hi@[i]) by {
                        assert(self.occurs(i, buf@));
                    }
                }
            }
        }
        let mut k: usize = 0;
        while k < self.unique_lo.len()
            invariant
                k <= self.unique_lo@.len(),
                self.wf(),
                self.unique_lo@.to_set() == self.lo@.to_set(),
                forall|i: int|
                    0 <= i < self.lo@.len() && self.unique_lo@.subrange(0, k as int).contains(
                        self.lo@[i],
                    ) ==> #[trigger] self.occurs(i, buf@),
            decreases self.unique_lo@.len() - k,
        {
            let ghost b = self.unique_lo@[k as int];
            assert(self.unique_hi@[k as int] == self.partner(b));
            if find_either(self.unique_lo[k], self.unique_hi[k], buf).is_none() {
                proof {
                    assert(self.unique_lo@.to_set().contains(b));
                    assert(self.lo@.to_set().contains(b));
                    let i = choose|i: int| 0 <= i < self.lo@.len() && self.lo@[i] == b;
                    assert(self.hi@[i] == self.partner(b));
                    assert(!self.occurs(i, buf@));
                }
                return false;
            }
            proof {
                assert forall|i: int|
                    0 <= i < self.lo@.len() && self.unique_lo@.subrange(0, k + 1).contains(
                        self.lo@[i],
                    ) implies #[trigger] self.occurs(i, buf@) by {
                    if self.lo@[i] == b {
                        assert(self.hi@[i] == self.partner(b));
                        let p = choose|p: int|
                            0 <= p < buf@.len() && (buf@[p] == b || buf@[p] == self.partner(b));
                        assert(self.accepts(i, buf@[p]));
                    } else {
                        let longer = self.unique_lo@.subrange(0, k + 1);
                        let j = choose|j: int| 0 <= j < longer.len() && longer[j] == self.lo@[i];
                        assert(self.unique_lo@.subrange(0, k as int)[j] == self.lo@[i]);
                    }
                }
            }
            k += 1;
        }
        proof {
            assert(self.unique_lo@.subrange(0, self.unique_lo@.len() as int) =~= self.unique_lo@);
            assert forall|i: int| 0 <= i < self.lo@.len() implies #[trigger] self.occurs(
                i,
                buf@,
            ) by {
                assert(self.lo@.to_set().contains(self.lo@[i]));
                assert(self.unique_lo@.to_set().contains(self.lo@[i]));
            }
        }
        true
    }
}

/// `s` is a subsequence of `t`: its bytes occur in `t` in their order.
pub open spec fn is_subsequence(s: Seq<u8>, t: Seq<u8>) -> bool {
    exists|ps: Seq<int>| #[trigger] embeds(s, t, ps)
}

/// The bytes of `s` are those of `t` at the ascending positions `ps`.
pub open spec fn embeds(s: Seq<u8>, t: Seq<u8>, ps: Seq<int>) -> bool {
    &&& ps.len() == s.len()
    &&& forall|k: int| 0 <= k < ps.len() ==> 0 <= #[trigger] ps[k] < t.len() && t[ps[k]] == s[k]
    &&& ascending(ps)
}

/// Laws of matching.
impl Matcher {
    /// From a position where the first needle byte can land, the greedy
    /// alignment exists, or else no alignment starts there or later.
    pub proof fn greedy_or_stuck(self, hay: Seq<u8>, start: int)
        requires
            self.lo@.len() > 0,
            0 <= start < hay.len(),
            self.accepts(0, hay[start]),
        ensures
            (exists|ps: Seq<int>| #[trigger] self.is_greedy(hay, ps) && ps[0] == start) || (forall|
                qs: Seq<int>,
            | #[trigger] self.is_alignment(hay, qs) ==> qs[0] < start),
    {
        let ps = seq![start];
        assert(self.is_greedy_prefix(hay, ps));
        self.lemma_greedy_or_stuck_from(hay, ps);
    }

    /// A greedy prefix can be completed, or gets stuck.
    proof fn lemma_greedy_or_stuck_from(self, hay: Seq<u8>, ps: Seq<int>)
        requires
            self.is_greedy_prefix(hay, ps),
        ensures
            (exists|qs: Seq<int>| #[trigger] self.is_greedy(hay, qs) && qs[0] == ps[0]) || (forall|
                qs: Seq<int>,
            | #[trigger] self.is_alignment(hay, qs) ==> qs[0] < ps[0]),
        decreases self.lo@.len() - ps.len(),
    {
        let i = ps.len() as int;
        if ps.len() == self.lo@.len() {
            assert(self.is_greedy(hay, ps));
        } else if exists|q: int| ps.last() < q < hay.len() && self.accepts(i, #[trigger] hay[q]) {
            let q = choose|q: int| ps.last() < q < hay.len() && self.accepts(i, #[trigger] hay[q]);
            let first = self.lemma_first_accepted(hay, i, ps.last() + 1, q);
            self.lemma_greedy_extends(hay, ps, first);
            let longer = ps.push(first);
            assert(longer[0] == ps[0]);
            self.lemma_greedy_or_stuck_from(hay, longer);
        } else {
            assert forall|qs: Seq<int>| #[trigger] self.is_alignment(hay, qs) implies qs[0]
                < ps[0] by {
                self.lemma_greedy_stuck(hay, ps, qs);
            }
        }
    }

    /// Where a needle byte can land at `q`, it can land first somewhere from
    /// `from` on.
    proof fn lemma_first_accepted(self, hay: Seq<u8>, i: int, from: int, q: int) -> (r: int)
        requires
            0 <= from <= q < hay.len(),
            self.accepts(i, hay[q]),
        ensures
            from <= r <= q,
            self.accepts(i, hay[r]),
            forall|p: int| from <= p < r ==> !self.accepts(i, #[trigger] hay[p]),
        decreases q - from,
    {
        if self.accepts(i, hay[from]) {
            from
        } else {
            self.lemma_first_accepted(hay, i, from + 1, q)
        }
    }

    /// Where the needle matches, `best_match` is the best result.
    pub proof fn best_match_is_best(self, hay: Seq<u8>)
        requires
            self.lo@.len() > 0,
            self.is_match(hay),
        ensures
            self.best_match(hay) matches Some((score, start)) && self.is_best(hay, score, start),
    {
        let qs = choose|qs: Seq<int>| #[trigger] self.is_alignment(hay, qs);
        assert(0 <= qs[0] < hay.len() && self.accepts(0, hay[qs[0]]));
        self.greedy_or_stuck(hay, qs[0]);
        let ps = choose|ps: Seq<int>| #[trigger] self.is_greedy(hay, ps) && ps[0] == qs[0];
        assert(self.is_alignment(hay, ps));
        let ls = self.lemma_leader_exists(hay, hay.len() as int, ps);
        let r = (alignment_score(hay, ls), ls[0]);
        assert(self.is_best(hay, r.0, r.1));
    }

    /// Among the greedy alignments that start before `upto`, one leads.
    proof fn lemma_leader_exists(self, hay: Seq<u8>, upto: int, ps: Seq<int>) -> (r: Seq<int>)
        requires
            self.lo@.len() > 0,
            upto <= hay.len(),
            self.is_greedy(hay, ps),
            ps[0] < upto,
        ensures
            self.leads(hay, upto, r),
        decreases upto,
    {
        assert(self.is_alignment(hay, ps));
        assert(0 <= ps[0]);
        let at = upto - 1;
        if ps[0] < at {
            let r = self.lemma_leader_exists(hay, at, ps);
            if exists|qs: Seq<int>| #[trigger] self.is_greedy(hay, qs) && qs[0] == at {
                let qs = choose|qs: Seq<int>| #[trigger] self.is_greedy(hay, qs) && qs[0] == at;
                self.lemma_leader_of_two(hay, at, r, qs)
            } else {
                assert(self.leads(hay, upto, r));
                r
            }
        } else if exists|qs: Seq<int>| #[trigger] self.is_greedy(hay, qs) && qs[0] < at {
            let qs = choose|qs: Seq<int>| #[trigger] self.is_greedy(hay, qs) && qs[0] < at;
            let r = self.lemma_leader_exists(hay, at, qs);
            self.lemma_leader_of_two(hay, at, r, ps)
        } else {
            assert forall|qs: Seq<int>| #[trigger]
                self.is_greedy(hay, qs) && qs[0] < upto implies !preferred(hay, qs, ps) by {
                self.lemma_greedy_unique(hay, ps, qs);
            }
            ps
        }
    }

    /// Of a leader and the greedy alignment that starts next, one leads.
    proof fn lemma_leader_of_two(self, hay: Seq<u8>, at: int, r: Seq<int>, ps: Seq<int>) -> (l: Seq<
        int,
    >)
        requires
            self.lo@.len() > 0,
            self.leads(hay, at, r),
            self.is_greedy(hay, ps),
            ps[0] == at,
        ensures
            self.leads(hay, at + 1, l),
    {
        assert forall|qs: Seq<int>| #[trigger]
            self.is_greedy(hay, qs) && qs[0] < at + 1 implies qs[0] < at || qs == ps by {
            if qs[0] == at {
                self.lemma_greedy_unique(hay, ps, qs);
            }
        }
        if preferred(hay, ps, r) {
            ps
        } else {
            r
        }
    }

    /// A greedy alignment that gives the result.
    proof fn lemma_result_leads(self, hay: Seq<u8>) -> (ps: Seq<int>)
        requires
            self.lo@.len() > 0,
            self.is_match(hay),
        ensures
            self.leads(hay, hay.len() as int, ps),
            self.is_greedy(hay, ps),
            self.is_alignment(hay, ps),
            self.best_match(hay) == Some((alignment_score(hay, ps), ps[0])),
            forall|qs: Seq<int>| #[trigger] self.is_greedy(hay, qs) ==> !preferred(hay, qs, ps),
    {
        self.best_match_is_best(hay);
        let (score, start) = self.best_match(hay).unwrap();
        let ps = choose|ps: Seq<int>| #[trigger]
            self.leads(hay, hay.len() as int, ps) && ps[0] == start && alignment_score(hay, ps)
                == score;
        assert forall|qs: Seq<int>| #[trigger] self.is_greedy(hay, qs) implies !preferred(
            hay,
            qs,
            ps,
        ) by {
            assert(self.is_alignment(hay, qs));
            assert(qs[0] < hay.len());
        }
        ps
    }

    /// A match starts at a position of the haystack where the first needle byte
    /// can land.
    pub proof fn match_starts_in_haystack(self, hay: Seq<u8>)
        requires
            self.lo@.len() > 0,
        ensures
            self.best_match(hay) matches Some((score, start)) ==> 0 <= start < hay.len()
                && self.accepts(0, hay[start]),
    {
        if self.is_match(hay) {
            let ps = self.lemma_result_leads(hay);
            assert(0 <= ps[0] < hay.len());
        }
    }

    /// A needle matches no haystack that is shorter.
    pub proof fn match_is_long_enough(self, hay: Seq<u8>)
        requires
            self.is_match(hay),
        ensures
            self.lo@.len() <= hay.len(),
    {
        let ps = choose|ps: Seq<int>| #[trigger] self.is_alignment(hay, ps);
        if ps.len() > 0 {
            self.lemma_alignment_advances(hay, ps, ps.len() - 1);
        }
    }

    /// Smart case: with an upper-case letter the needle matches where its bytes
    /// are a subsequence; without one, where they are with case left aside.
    pub proof fn smart_case(self, hay: Seq<u8>)
        requires
            self.wf(),
        ensures
            self.is_match(hay) <==> is_subsequence(
                self.lo@,
                if self.case_sensitive {
                    hay
                } else {
                    lowered(hay)
                },
            ),
    {
        let text = if self.case_sensitive {
            hay
        } else {
            lowered(hay)
        };
        assert forall|ps: Seq<int>| #[trigger] self.is_alignment(hay, ps) implies embeds(
            self.lo@,
            text,
            ps,
        ) by {
            assert forall|k: int| 0 <= k < ps.len() implies 0 <= #[trigger] ps[k] < text.len()
                && text[ps[k]] == self.lo@[k] by {
                self.lemma_accepts_folded(k, hay[ps[k]]);
            }
        }
        assert forall|ps: Seq<int>| #[trigger] embeds(
            self.lo@,
            text,
            ps,
        ) implies self.is_alignment(hay, ps) by {
            assert forall|k: int| 0 <= k < ps.len() implies 0 <= #[trigger] ps[k] < hay.len()
                && self.accepts(k, hay[ps[k]]) by {
                self.lemma_accepts_folded(k, hay[ps[k]]);
            }
        }
        if self.is_match(hay) {
            let ps = choose|ps: Seq<int>| #[trigger] self.is_alignment(hay, ps);
            assert(embeds(self.lo@, text, ps));
        }
    }

    /// A byte is accepted exactly if it is the needle byte, with case left
    /// aside where case does not matter.
    proof fn lemma_accepts_folded(self, i: int, b: u8)
        requires
            self.wf(),
            0 <= i < self.lo@.len(),
        ensures
            self.accepts(i, b) <==> self.lo@[i] == if self.case_sensitive {
                b
            } else {
                to_lower(b)
            },
    {
        assert(self.hi@[i] == self.partner(self.lo@[i]));
        if !self.case_sensitive {
            assert(!is_upper(self.lo@[i]));
        }
    }

    /// Where case does not matter, haystacks that differ only in case match
    /// alike.
    pub proof fn case_does_not_decide(self, hay: Seq<u8>, other: Seq<u8>)
        requires
            self.wf(),
            !self.case_sensitive,
            lowered(hay) == lowered(other),
        ensures
            self.is_match(hay) == self.is_match(other),
    {
        self.smart_case(hay);
        self.smart_case(other);
    }

    /// Where case does not matter, a haystack in lower case throughout and the
    /// same one in upper case throughout have the same result.
    pub proof fn uniform_case_scores_alike(self, hay: Seq<u8>)
        requires
            self.wf(),
            !self.case_sensitive,
        ensures
            self.best_match(lowered(hay)) == self.best_match(uppered(hay)),
    {
        let lower = lowered(hay);
        let upper = uppered(hay);
        assert(lowered(lower) =~= lowered(upper));
        self.case_does_not_decide(lower, upper);
        if self.lo@.len() > 0 && self.is_match(lower) {
            self.lemma_same_results(lower, upper);
            self.best_match_is_best(lower);
            self.best_match_is_best(upper);
            let a = self.best_match(lower).unwrap();
            let b = self.best_match(upper).unwrap();
            assert(self.is_best(upper, a.0, a.1));
            self.lemma_best_unique(upper, a, b);
        }
    }

    /// The best results of a haystack in lower case are those of the same one
    /// in upper case.
    proof fn lemma_same_results(self, lower: Seq<u8>, upper: Seq<u8>)
        requires
            self.wf(),
            !self.case_sensitive,
            lower.len() == upper.len(),
            forall|p: int| 0 <= p < lower.len() ==> !is_upper(#[trigger] lower[p]),
            forall|p: int| 0 <= p < lower.len() ==> #[trigger] upper[p] == to_upper(lower[p]),
            self.lo@.len() > 0,
        ensures
            forall|score: i32, start: int|
                self.is_best(lower, score, start) ==> self.is_best(upper, score, start),
    {
        assert forall|i: int, p: int|
            0 <= i < self.lo@.len() && 0 <= p < lower.len() implies self.accepts(i, lower[p])
            == #[trigger] self.accepts(i, upper[p]) by {
            self.lemma_accepts_folded(i, lower[p]);
            self.lemma_accepts_folded(i, upper[p]);
        }
        assert forall|ps: Seq<int>| self.is_greedy(lower, ps) == #[trigger] self.is_greedy(
            upper,
            ps,
        ) && (self.is_greedy(lower, ps) ==> alignment_score(lower, ps) == alignment_score(
            upper,
            ps,
        ) && is_boundary_literal(lower, ps) == is_boundary_literal(upper, ps)) by {
            self.lemma_same_greedy(lower, upper, ps);
        }
        assert forall|score: i32, start: int|
            self.is_best(lower, score, start) implies self.is_best(upper, score, start) by {
            let ps = choose|ps: Seq<int>| #[trigger]
                self.leads(lower, lower.len() as int, ps) && ps[0] == start && alignment_score(
                    lower,
                    ps,
                ) == score;
            assert(self.is_greedy(upper, ps));
            assert forall|qs: Seq<int>| #[trigger]
                self.is_greedy(upper, qs) && qs[0] < upper.len() implies !preferred(
                upper,
                qs,
                ps,
            ) by {
                assert(self.is_greedy(lower, qs));
            }
            assert(self.leads(upper, upper.len() as int, ps));
        }
    }

    /// The greedy alignments in a haystack in lower case, and their scores, are
    /// those in the same one in upper case.
    proof fn lemma_same_greedy(self, lower: Seq<u8>, upper: Seq<u8>, ps: Seq<int>)
        requires
            lower.len() == upper.len(),
            forall|p: int| 0 <= p < lower.len() ==> !is_upper(#[trigger] lower[p]),
            forall|p: int| 0 <= p < lower.len() ==> #[trigger] upper[p] == to_upper(lower[p]),
            forall|i: int, p: int|
                0 <= i < self.lo@.len() && 0 <= p < lower.len() ==> self.accepts(i, lower[p])
                    == #[trigger] self.accepts(i, upper[p]),
            self.lo@.len() > 0,
        ensures
            self.is_greedy(lower, ps) == self.is_greedy(upper, ps),
            self.is_greedy(lower, ps) ==> alignment_score(lower, ps) == alignment_score(upper, ps)
                && is_boundary_literal(lower, ps) == is_boundary_literal(upper, ps),
    {
        if ps.len() == self.lo@.len() && forall|k: int|
            0 <= k < ps.len() ==> 0 <= #[trigger] ps[k] < lower.len() {
            assert forall|k: int| 0 < k < ps.len() implies #[trigger] self.lands_first(lower, ps, k)
                == self.lands_first(upper, ps, k) && gap_in_word(lower, ps, k) == gap_in_word(
                upper,
                ps,
                k,
            ) by {
                assert(0 <= ps[k - 1] && ps[k] < lower.len());
                assert forall|p: int| ps[k - 1] < p < ps[k] implies self.accepts(k, lower[p])
                    == self.accepts(k, upper[p]) by {}
                if self.lands_first(upper, ps, k) {
                    assert forall|p: int| ps[k - 1] < p < ps[k] implies !self.accepts(
                        k,
                        #[trigger] lower[p],
                    ) by {
                        assert(!self.accepts(k, upper[p]));
                    }
                }
                if gap_in_word(lower, ps, k) {
                    assert forall|p: int| ps[k - 1] < p < ps[k] implies is_alphanumeric(
                        #[trigger] upper[p],
                    ) by {
                        assert(is_alphanumeric(lower[p]));
                    }
                }
                if gap_in_word(upper, ps, k) {
                    assert forall|p: int| ps[k - 1] < p < ps[k] implies is_alphanumeric(
                        #[trigger] lower[p],
                    ) by {
                        assert(is_alphanumeric(upper[p]));
                    }
                }
            }
            assert(within_one_word(lower, ps) == within_one_word(upper, ps)) by {
                if within_one_word(upper, ps) {
                    assert forall|k: int| 0 < k < ps.len() implies #[trigger] gap_in_word(
                        lower,
                        ps,
                        k,
                    ) by {
                        assert(gap_in_word(upper, ps, k));
                        assert(self.lands_first(lower, ps, k) == self.lands_first(upper, ps, k));
                    }
                }
                if within_one_word(lower, ps) {
                    assert forall|k: int| 0 < k < ps.len() implies #[trigger] gap_in_word(
                        upper,
                        ps,
                        k,
                    ) by {
                        assert(gap_in_word(lower, ps, k));
                        assert(self.lands_first(lower, ps, k) == self.lands_first(upper, ps, k));
                    }
                }
            }
            assert(self.is_greedy(lower, ps) == self.is_greedy(upper, ps)) by {
                if self.is_greedy(upper, ps) {
                    assert forall|k: int| 0 < k < ps.len() implies #[trigger] self.lands_first(
                        lower,
                        ps,
                        k,
                    ) by {
                        assert(self.lands_first(upper, ps, k));
                    }
                }
                if self.is_greedy(lower, ps) {
                    assert forall|k: int| 0 < k < ps.len() implies #[trigger] self.lands_first(
                        upper,
                        ps,
                        k,
                    ) by {
                        assert(self.lands_first(lower, ps, k));
                    }
                }
            }
            lemma_same_hits(lower, upper, ps);
            assert(0 <= ps[0] < lower.len());
        }
    }

    /// Where the needle occurs literally, the result scores no less than what
    /// occurs.
    pub proof fn literal_is_found(self, hay: Seq<u8>, ps: Seq<int>)
        requires
            self.lo@.len() > 0,
            self.is_alignment(hay, ps),
            is_literal(ps),
        ensures
            alignment_score(hay, ps) >= LITERAL_BASE,
            self.best_match(hay) matches Some((score, start)) && score >= alignment_score(hay, ps),
    {
        assert forall|k: int| 0 < k < ps.len() implies #[trigger] self.lands_first(hay, ps, k) by {
            assert(ps[k] == ps[0] + k);
            assert(ps[k - 1] == ps[0] + (k - 1));
        }
        assert(self.is_greedy(hay, ps));
        lemma_literal_spread(ps);
        let best = self.lemma_result_leads(hay);
        lemma_literal_spread(best);
        assert(!preferred(hay, ps, best));
    }

    /// No greedy alignment that is not literal hits so many word boundaries that
    /// it rivals a literal one.
    pub open spec fn nothing_rivals(self, hay: Seq<u8>) -> bool {
        forall|qs: Seq<int>| #[trigger]
            self.is_greedy(hay, qs) && !is_literal(qs) ==> !rivals_literal(hay, qs)
    }

    /// A needle of up to 192 bytes has no match that rivals a literal one.
    pub proof fn short_needle_has_no_rivals(self, hay: Seq<u8>)
        requires
            0 < self.lo@.len() <= 192,
        ensures
            self.nothing_rivals(hay),
    {
        assert forall|qs: Seq<int>| #[trigger]
            self.is_greedy(hay, qs) && !is_literal(qs) implies !rivals_literal(hay, qs) by {
            assert(self.is_alignment(hay, qs));
            short_needles_do_not_rival(hay, qs);
        }
    }

    /// Where no match that is not literal rivals a literal one, the result has
    /// the score of a literal match exactly if the needle occurs literally, and
    /// it starts there.
    pub proof fn literal_score_is_literal(self, hay: Seq<u8>)
        requires
            self.lo@.len() > 0,
            self.nothing_rivals(hay),
        ensures
            self.best_match(hay) matches Some((score, start)) ==> (score >= LITERAL_BASE <==> exists|
                ps: Seq<int>,
            | #[trigger] self.is_alignment(hay, ps) && is_literal(ps)),
            self.best_match(hay) matches Some((score, start)) ==> (score >= LITERAL_BASE
                ==> exists|ps: Seq<int>| #[trigger]
                self.is_alignment(hay, ps) && is_literal(ps) && ps[0] == start),
    {
        if self.is_match(hay) {
            let ps = self.lemma_result_leads(hay);
            lemma_literal_spread(ps);
            if exists|qs: Seq<int>| #[trigger] self.is_alignment(hay, qs) && is_literal(qs) {
                let qs = choose|qs: Seq<int>| #[trigger]
                    self.is_alignment(hay, qs) && is_literal(qs);
                self.literal_is_found(hay, qs);
            }
        }
    }

    /// A haystack where the needle occurs literally scores higher than one where
    /// it does not, but for one with a match that rivals a literal one.
    pub proof fn literal_haystack_beats_the_rest(self, hay: Seq<u8>, ps: Seq<int>, other: Seq<u8>)
        requires
            self.lo@.len() > 0,
            self.is_alignment(hay, ps),
            is_literal(ps),
            forall|qs: Seq<int>| #[trigger] self.is_alignment(other, qs) ==> !is_literal(qs),
            self.nothing_rivals(other),
        ensures
            self.best_match(hay) is Some,
            self.best_match(other) matches Some((score, start)) ==> self.best_match(hay).unwrap().0
                > score,
    {
        self.literal_is_found(hay, ps);
        self.literal_score_is_literal(other);
    }

    /// A haystack where the needle occurs literally scores higher than one where
    /// every greedy alignment scores less than what occurs: a literal match at a
    /// word boundary also beats a rival that does not reach its score.
    pub proof fn literal_haystack_beats_lower_scores(
        self,
        hay: Seq<u8>,
        ps: Seq<int>,
        other: Seq<u8>,
    )
        requires
            self.lo@.len() > 0,
            self.is_alignment(hay, ps),
            is_literal(ps),
            forall|qs: Seq<int>| #[trigger]
                self.is_greedy(other, qs) ==> alignment_score(other, qs) < alignment_score(hay, ps),
        ensures
            self.best_match(hay) is Some,
            self.best_match(other) matches Some((score, start)) ==> self.best_match(hay).unwrap().0
                > score,
    {
        self.literal_is_found(hay, ps);
        if self.is_match(other) {
            let qs = self.lemma_result_leads(other);
            assert(self.is_greedy(other, qs));
        }
    }

    /// The result is the leftmost literal match at a word boundary, where there
    /// is one.
    pub proof fn boundary_literal_ends_the_search(self, hay: Seq<u8>, qs: Seq<int>)
        requires
            self.lo@.len() > 0,
            self.is_alignment(hay, qs),
            is_boundary_literal(hay, qs),
        ensures
            self.best_match(hay) matches Some((score, start)) && score == TOP_SCORE && start
                <= qs[0] && exists|ps: Seq<int>| #[trigger]
                self.is_alignment(hay, ps) && is_boundary_literal(hay, ps) && ps[0] == start,
    {
        assert forall|k: int| 0 < k < qs.len() implies #[trigger] self.lands_first(hay, qs, k) by {
            assert(qs[k] == qs[0] + k);
            assert(qs[k - 1] == qs[0] + (k - 1));
        }
        assert(self.is_greedy(hay, qs));
        let ps = self.lemma_result_leads(hay);
        assert(!preferred(hay, qs, ps));
        lemma_literal_spread(ps);
    }

    /// No greedy alignment scores higher than the result, and none with the same
    /// score starts further left, unless the search ends at a literal match at a
    /// word boundary while another alignment scores more, or as much further
    /// left.
    pub proof fn result_is_leftmost_best(self, hay: Seq<u8>, qs: Seq<int>)
        requires
            self.lo@.len() > 0,
            self.is_greedy(hay, qs),
            forall|ts: Seq<int>| #[trigger]
                self.is_greedy(hay, ts) && is_boundary_literal(hay, ts) ==> alignment_score(hay, qs)
                    < TOP_SCORE || alignment_score(hay, qs) == TOP_SCORE && ts[0] <= qs[0]
                    || is_boundary_literal(hay, qs),
        ensures
            self.best_match(hay) matches Some((score, start)) && (alignment_score(hay, qs) < score
                || alignment_score(hay, qs) == score && start <= qs[0]),
    {
        assert(self.is_alignment(hay, qs));
        let ps = self.lemma_result_leads(hay);
        assert(!preferred(hay, qs, ps));
        lemma_literal_spread(ps);
        lemma_literal_spread(qs);
    }

    /// For a needle of up to 193 bytes, no greedy alignment scores higher than
    /// the result, and none with the same score starts further left.
    pub proof fn short_needle_result_is_leftmost_best(self, hay: Seq<u8>, qs: Seq<int>)
        requires
            0 < self.lo@.len() <= 193,
            self.is_greedy(hay, qs),
        ensures
            self.best_match(hay) matches Some((score, start)) && score <= TOP_SCORE && (
            alignment_score(hay, qs) < score || alignment_score(hay, qs) == score && start
                <= qs[0]),
    {
        assert(self.is_alignment(hay, qs));
        let ps = self.lemma_result_leads(hay);
        self.lemma_short_score(hay, ps);
        self.lemma_short_score(hay, qs);
        self.result_is_leftmost_best(hay, qs);
    }

    /// An alignment of a needle of up to 193 bytes scores `TOP_SCORE` only as a
    /// literal match at a word boundary, and never more.
    proof fn lemma_short_score(self, hay: Seq<u8>, qs: Seq<int>)
        requires
            0 < self.lo@.len() <= 193,
            self.is_alignment(hay, qs),
        ensures
            alignment_score(hay, qs) <= TOP_SCORE,
            alignment_score(hay, qs) == TOP_SCORE ==> is_boundary_literal(hay, qs),
    {
        lemma_literal_spread(qs);
        if !is_literal(qs) {
            score_is_at_most(hay, qs);
        }
    }

    /// Which bytes stand for a needle byte: the byte itself, and for a lower-case
    /// letter its upper-case letter too, if no needle byte is an upper-case
    /// letter.
    pub proof fn accepts_by_bytes(self, i: int, b: u8, folds: bool)
        requires
            self.wf(),
            0 <= i < self.lo@.len(),
            folds == forall|j: int|
                0 <= j < self.lo@.len() ==> !(0x41 <= #[trigger] self.lo@[j] <= 0x5a),
        ensures
            self.accepts(i, b) <==> b == self.lo@[i] || folds && 0x61 <= self.lo@[i] <= 0x7a && b
                == self.lo@[i] - 0x20,
            self.case_sensitive == !folds,
    {
        assert(self.hi@[i] == self.partner(self.lo@[i]));
        if self.case_sensitive {
            let j = choose|j: int| 0 <= j < self.lo@.len() && is_upper(#[trigger] self.lo@[j]);
            assert(0x41 <= self.lo@[j] <= 0x5a);
        } else {
            assert forall|j: int| 0 <= j < self.lo@.len() implies !(0x41 <= #[trigger] self.lo@[j]
                <= 0x5a) by {
                assert(!is_upper(self.lo@[j]));
            }
        }
    }

    /// Haystack bytes that read as the needle, at ascending positions, make a
    /// match: with an upper-case letter in the needle they are its bytes, without
    /// one they are its bytes once upper-case letters are taken as lower-case
    /// ones.
    pub proof fn reading_is_a_match(self, hay: Seq<u8>, ps: Seq<int>, folds: bool)
        requires
            self.wf(),
            folds == forall|j: int|
                0 <= j < self.lo@.len() ==> !(0x41 <= #[trigger] self.lo@[j] <= 0x5a),
            ps.len() == self.lo@.len(),
            forall|j: int, k: int| 0 <= j < k < ps.len() ==> ps[j] < ps[k],
            forall|k: int|
                0 <= k < ps.len() ==> 0 <= #[trigger] ps[k] < hay.len() && self.lo@[k] == if folds
                    && 0x41 <= hay[ps[k]] <= 0x5a {
                    hay[ps[k]] + 0x20
                } else {
                    hay[ps[k]] as int
                },
        ensures
            self.is_alignment(hay, ps),
            self.is_match(hay),
            self.best_match(hay) is Some,
    {
        assert forall|k: int| 0 <= k < ps.len() implies 0 <= #[trigger] ps[k] < hay.len()
            && self.accepts(k, hay[ps[k]]) by {
            self.accepts_by_bytes(k, hay[ps[k]], folds);
        }
        assert(self.is_alignment(hay, ps));
    }

    /// A match reads as the needle: an alignment is a choice of ascending
    /// positions whose bytes are those of the needle, upper-case letters taken as
    /// lower-case ones if the needle has none.
    pub proof fn alignment_reads_as_needle(self, hay: Seq<u8>, ps: Seq<int>, folds: bool)
        requires
            self.wf(),
            folds == forall|j: int|
                0 <= j < self.lo@.len() ==> !(0x41 <= #[trigger] self.lo@[j] <= 0x5a),
            self.is_alignment(hay, ps),
        ensures
            ps.len() == self.lo@.len(),
            forall|j: int, k: int| 0 <= j < k < ps.len() ==> ps[j] < ps[k],
            forall|k: int|
                0 <= k < ps.len() ==> 0 <= #[trigger] ps[k] < hay.len() && self.lo@[k] == if folds
                    && 0x41 <= hay[ps[k]] <= 0x5a {
                    hay[ps[k]] + 0x20
                } else {
                    hay[ps[k]] as int
                },
    {
        assert forall|k: int| 0 <= k < ps.len() implies 0 <= #[trigger] ps[k] < hay.len()
            && self.lo@[k] == if folds && 0x41 <= hay[ps[k]] <= 0x5a {
            hay[ps[k]] + 0x20
        } else {
            hay[ps[k]] as int
        } by {
            assert(self.accepts(k, hay[ps[k]]));
            self.accepts_by_bytes(k, hay[ps[k]], folds);
            if folds {
                assert(!(0x41 <= self.lo@[k] <= 0x5a));
            }
        }
    }

    /// An alignment is greedy exactly if no needle byte but the first could have
    /// landed further left, after the needle byte before it.
    pub proof fn greedy_by_bytes(self, hay: Seq<u8>, ps: Seq<int>, folds: bool)
        requires
            self.wf(),
            folds == forall|j: int|
                0 <= j < self.lo@.len() ==> !(0x41 <= #[trigger] self.lo@[j] <= 0x5a),
        ensures
            self.is_greedy(hay, ps) <==> self.is_alignment(hay, ps) && forall|k: int, p: int|
                #![trigger ps[k], hay[p]]
                0 < k < ps.len() && ps[k - 1] < p < ps[k] ==> hay[p] != self.lo@[k] && !(folds
                    && 0x61 <= self.lo@[k] <= 0x7a && hay[p] == self.lo@[k] - 0x20),
    {
        if self.is_greedy(hay, ps) {
            assert forall|k: int, p: int|
                #![trigger ps[k], hay[p]]
                0 < k < ps.len() && ps[k - 1] < p < ps[k] implies hay[p] != self.lo@[k] && !(folds
                && 0x61 <= self.lo@[k] <= 0x7a && hay[p] == self.lo@[k] - 0x20) by {
                assert(self.lands_first(hay, ps, k));
                self.accepts_by_bytes(k, hay[p], folds);
            }
        }
        if self.is_alignment(hay, ps) && forall|k: int, p: int|
            #![trigger ps[k], hay[p]]
            0 < k < ps.len() && ps[k - 1] < p < ps[k] ==> hay[p] != self.lo@[k] && !(folds && 0x61
                <= self.lo@[k] <= 0x7a && hay[p] == self.lo@[k] - 0x20) {
            assert forall|k: int| 0 < k < ps.len() implies #[trigger] self.lands_first(
                hay,
                ps,
                k,
            ) by {
                assert forall|p: int| ps[k - 1] < p < ps[k] implies !self.accepts(
                    k,
                    #[trigger] hay[p],
                ) by {
                    assert(ps[k] == ps[k]);
                    self.accepts_by_bytes(k, hay[p], folds);
                }
            }
        }
    }

    /// What is found is there: the result is the score and the start of a greedy
    /// alignment. There is none exactly if there is no alignment, and the empty
    /// needle is found at the start with score 0.
    pub proof fn result_is_an_alignment(self, hay: Seq<u8>) -> (ps: Seq<int>)
        ensures
            self.lo@.len() == 0 ==> self.best_match(hay) == Some((0i32, 0int)),
            self.lo@.len() > 0 && self.best_match(hay) is Some ==> {
                &&& self.is_alignment(hay, ps)
                &&& self.is_greedy(hay, ps)
                &&& self.best_match(hay) == Some((alignment_score(hay, ps), ps[0]))
            },
            self.best_match(hay) is None ==> forall|qs: Seq<int>|
                !#[trigger] self.is_alignment(hay, qs),
    {
        if self.lo@.len() > 0 && self.is_match(hay) {
            self.lemma_result_leads(hay)
        } else {
            Seq::empty()
        }
    }

    /// Where no greedy alignment is a literal match at a word boundary, the
    /// result is the leftmost of those with the highest score.
    pub proof fn highest_score_wins(self, hay: Seq<u8>, qs: Seq<int>)
        requires
            self.lo@.len() > 0,
            self.is_greedy(hay, qs),
            forall|ts: Seq<int>| #[trigger]
                self.is_greedy(hay, ts) ==> !(is_boundary(hay, ts[0]) && ts.last() - ts[0] + 1
                    == ts.len()),
        ensures
            self.best_match(hay) matches Some((score, start)) && (alignment_score(hay, qs) < score
                || alignment_score(hay, qs) == score && start <= qs[0]),
    {
        assert forall|ts: Seq<int>| #[trigger]
            self.is_greedy(hay, ts) implies !is_boundary_literal(hay, ts) by {
            assert(self.is_alignment(hay, ts));
            lemma_literal_spread(ts);
        }
        self.result_is_leftmost_best(hay, qs);
    }

    /// A needle that stands in a line as it is, at the start of the line or after
    /// a byte that is neither a letter nor a digit, is found with score 1029, there
    /// or further left.
    pub proof fn needle_at_a_boundary_scores_most(self, hay: Seq<u8>, p: int)
        requires
            self.lo@.len() > 0,
            0 <= p,
            p + self.lo@.len() <= hay.len(),
            hay.subrange(p, p + self.lo@.len()) == self.lo@,
            p == 0 || !(0x30 <= hay[p - 1] <= 0x39 || 0x41 <= hay[p - 1] <= 0x5a || 0x61 <= hay[p
                - 1] <= 0x7a),
        ensures
            self.best_match(hay) matches Some((score, start)) && score == 1029 && 0 <= start <= p,
    {
        let qs = Seq::new(self.lo@.len(), |k: int| p + k);
        assert forall|k: int| 0 <= k < qs.len() implies 0 <= #[trigger] qs[k] < hay.len()
            && self.accepts(k, hay[qs[k]]) by {
            assert(hay.subrange(p, p + self.lo@.len())[k] == hay[p + k]);
        }
        assert(self.is_alignment(hay, qs));
        self.boundary_literal_ends_the_search(hay, qs);
        self.match_starts_in_haystack(hay);
    }

    /// A line that holds the bytes of a matching line in their order, and others
    /// between them, matches too.
    pub proof fn more_bytes_still_match(self, a: Seq<u8>, x: Seq<u8>, b: Seq<u8>)
        requires
            self.is_match(a + b),
        ensures
            self.is_match(a + x + b),
    {
        let ps = choose|ps: Seq<int>| #[trigger] self.is_alignment(a + b, ps);
        let n = a.len() as int;
        let moved = |p: int| if p < n { p } else { p + x.len() };
        let qs = Seq::new(ps.len(), |k: int| moved(ps[k]));
        let hay = a + x + b;
        assert forall|k: int| 0 <= k < qs.len() implies 0 <= #[trigger] qs[k] < hay.len()
            && self.accepts(k, hay[qs[k]]) by {
            assert(0 <= ps[k] < (a + b).len() && self.accepts(k, (a + b)[ps[k]]));
            assert(hay[qs[k]] == (a + b)[ps[k]]);
        }
        assert(self.is_alignment(hay, qs));
    }

    /// Which needle bytes occur in a buffer, by value.
    pub proof fn occurs_by_bytes(self, i: int, buf: Seq<u8>, folds: bool)
        requires
            self.wf(),
            0 <= i < self.lo@.len(),
            folds == forall|j: int|
                0 <= j < self.lo@.len() ==> !(0x41 <= #[trigger] self.lo@[j] <= 0x5a),
        ensures
            self.occurs(i, buf) <==> buf.contains(self.lo@[i]) || folds && 0x61 <= self.lo@[i]
                <= 0x7a && buf.contains((self.lo@[i] - 0x20) as u8),
            self.all_occur(buf) ==> self.occurs(i, buf),
            (forall|j: int| 0 <= j < self.lo@.len() ==> #[trigger] self.occurs(j, buf))
                ==> self.all_occur(buf),
    {
        self.accepts_by_bytes(i, self.lo@[i], folds);
        if self.occurs(i, buf) {
            let p = choose|p: int| 0 <= p < buf.len() && self.accepts(i, #[trigger] buf[p]);
            self.accepts_by_bytes(i, buf[p], folds);
            assert(buf.contains(buf[p]));
        }
        if buf.contains(self.lo@[i]) {
            let p = choose|p: int| 0 <= p < buf.len() && buf[p] == self.lo@[i];
            assert(self.accepts(i, buf[p]));
        }
        if folds && 0x61 <= self.lo@[i] <= 0x7a && buf.contains((self.lo@[i] - 0x20) as u8) {
            let p = choose|p: int| 0 <= p < buf.len() && buf[p] == (self.lo@[i] - 0x20) as u8;
            self.accepts_by_bytes(i, buf[p], folds);
            assert(self.accepts(i, buf[p]));
        }
    }
}

} // verus!
