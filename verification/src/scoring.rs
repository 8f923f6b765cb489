//! The score of a match.

use vstd::prelude::*;

use crate::bytes::{is_alphanumeric, is_lower, is_upper, to_upper};

verus! {

/// Bonus for each needle byte that lands at a word boundary.
pub const BOUNDARY_BONUS: i32 = 5;

/// Penalty for each byte by which a match is wider than a literal one.
pub const SPREAD_PENALTY: i32 = 1;

/// Floor of the score of a match that stays within one word.
pub const SINGLE_WORD_BASE: i32 = 64;

/// Floor of the score of a literal match.
pub const LITERAL_BASE: i32 = 1024;

/// The score of a literal match at a word boundary.
pub const TOP_SCORE: i32 = 1029;

/// `pos` is at a word boundary of `hay`: it is the first position, or the byte
/// before it is not alphanumeric, or a lower-case letter is followed there by
/// an upper-case one.
pub open spec fn is_boundary(hay: Seq<u8>, pos: int) -> bool {
    ||| pos == 0
    ||| !is_alphanumeric(hay[pos - 1])
    ||| is_lower(hay[pos - 1]) && is_upper(hay[pos])
}

/// How many of the positions `ps` are at a word boundary of `hay`.
pub open spec fn boundary_hits(hay: Seq<u8>, ps: Seq<int>) -> nat
    decreases ps.len(),
{
    if ps.len() == 0 {
        0
    } else {
        boundary_hits(hay, ps.drop_last()) + (if is_boundary(hay, ps.last()) {
            1nat
        } else {
            0nat
        })
    }
}

/// Every byte of `hay` strictly between position `k` of `ps` and the one before
/// it is alphanumeric.
pub open spec fn gap_in_word(hay: Seq<u8>, ps: Seq<int>, k: int) -> bool {
    forall|p: int| ps[k - 1] < p < ps[k] ==> is_alphanumeric(#[trigger] hay[p])
}

/// Every byte of `hay` strictly between two consecutive positions of `ps` is
/// alphanumeric.
pub open spec fn within_one_word(hay: Seq<u8>, ps: Seq<int>) -> bool {
    forall|k: int| 0 < k < ps.len() ==> #[trigger] gap_in_word(hay, ps, k)
}

/// By how many bytes the positions `ps` reach further than adjacent ones
/// would.
pub open spec fn excess_spread(ps: Seq<int>) -> int {
    ps.last() - ps[0] - (ps.len() - 1)
}

/// The three-tier score: a literal match, a match within one word, and a match
/// across words.
pub open spec fn tier_score(excess: int, hits: int, at_boundary: bool, in_word: bool) -> int {
    if excess <= 0 {
        LITERAL_BASE + if at_boundary {
            BOUNDARY_BONUS as int
        } else {
            0
        }
    } else if in_word {
        SINGLE_WORD_BASE + BOUNDARY_BONUS * hits - SPREAD_PENALTY * excess
    } else {
        BOUNDARY_BONUS * hits - SPREAD_PENALTY * excess
    }
}

/// `x`, or the end of the range of `i32` that is nearest to it.
pub open spec fn saturated(x: int) -> i32 {
    if x < i32::MIN {
        i32::MIN
    } else if x > i32::MAX {
        i32::MAX
    } else {
        x as i32
    }
}

/// The score of the needle bytes landing in `hay` at the positions `ps`.
pub open spec fn alignment_score(hay: Seq<u8>, ps: Seq<int>) -> i32 {
    saturated(
        tier_score(
            excess_spread(ps),
            boundary_hits(hay, ps) as int,
            is_boundary(hay, ps[0]),
            within_one_word(hay, ps),
        ),
    )
}

/// The positions `ps` are adjacent: what lands there is a literal match.
pub open spec fn is_literal(ps: Seq<int>) -> bool {
    forall|k: int| 0 <= k < ps.len() ==> #[trigger] ps[k] == ps[0] + k
}

/// The positions `ps` are a literal match at a word boundary of `hay`: the
/// search for a better one ends there.
pub open spec fn is_boundary_literal(hay: Seq<u8>, ps: Seq<int>) -> bool {
    is_literal(ps) && is_boundary(hay, ps[0])
}

/// The alignment `qs` is preferred to `ps`: the leftmost literal match at a word
/// boundary wins, and where there is none the leftmost of the highest scores.
pub open spec fn preferred(hay: Seq<u8>, qs: Seq<int>, ps: Seq<int>) -> bool {
    if is_boundary_literal(hay, ps) {
        is_boundary_literal(hay, qs) && qs[0] < ps[0]
    } else {
        ||| is_boundary_literal(hay, qs)
        ||| alignment_score(hay, qs) > alignment_score(hay, ps)
        ||| alignment_score(hay, qs) == alignment_score(hay, ps) && qs[0] < ps[0]
    }
}

/// Whether `pos` is at a word boundary of `hay`.
pub fn boundary_at(hay: &[u8], pos: usize) -> (r: bool)
    requires
        pos < hay@.len(),
    ensures
        r == is_boundary(hay@, pos as int),
        pos == 0 ==> r,
        pos > 0 && !(0x30 <= hay@[pos - 1] <= 0x39 || 0x41 <= hay@[pos - 1] <= 0x5a || 0x61
            <= hay@[pos - 1] <= 0x7a) ==> r,
        pos > 0 && (0x30 <= hay@[pos - 1] <= 0x39 || 0x41 <= hay@[pos - 1] <= 0x5a || 0x61
            <= hay@[pos - 1] <= 0x7a) ==> r == (0x61 <= hay@[pos - 1] <= 0x7a && 0x41
            <= hay@[pos as int] <= 0x5a),
{
    if pos == 0 {
        return true;
    }
    let prev: u8 = hay[pos - 1];
    if !is_alphanumeric(prev) {
        return true;
    }
    let cur: u8 = hay[pos];
    is_lower(prev) && is_upper(cur)
}

/// Whether every byte of `hay` from `from` up to but not including `to` is
/// alphanumeric.
pub fn all_alphanumeric(hay: &[u8], from: usize, to: usize) -> (r: bool)
    requires
        from <= to <= hay@.len(),
    ensures
        r == forall|q: int| from <= q < to ==> is_alphanumeric(#[trigger] hay@[q]),
        r == forall|q: int|
            from <= q < to ==> 0x30 <= #[trigger] hay@[q] <= 0x39 || 0x41 <= hay@[q] <= 0x5a || 0x61
                <= hay@[q] <= 0x7a,
{
    let mut j: usize = from;
    while j < to
        invariant
            from <= j <= to <= hay@.len(),
            forall|q: int| from <= q < j ==> is_alphanumeric(#[trigger] hay@[q]),
        decreases to - j,
    {
        if !is_alphanumeric(hay[j]) {
            return false;
        }
        j += 1;
    }
    true
}

/// One more position keeps a match within one word exactly if the new gap does.
pub proof fn lemma_gap_appended(hay: Seq<u8>, ps: Seq<int>, abs: int)
    requires
        ps.len() > 0,
        ps.last() < abs,
    ensures
        within_one_word(hay, ps.push(abs)) == (within_one_word(hay, ps) && forall|q: int|
            ps.last() + 1 <= q < abs ==> is_alphanumeric(#[trigger] hay[q])),
{
    let longer = ps.push(abs);
    if within_one_word(hay, longer) {
        assert forall|k: int| 0 < k < ps.len() implies #[trigger] gap_in_word(hay, ps, k) by {
            assert(gap_in_word(hay, longer, k));
        }
        assert(gap_in_word(hay, longer, ps.len() as int));
    }
    if within_one_word(hay, ps) && forall|q: int|
        ps.last() + 1 <= q < abs ==> is_alphanumeric(#[trigger] hay[q]) {
        assert forall|k: int| 0 < k < longer.len() implies #[trigger] gap_in_word(
            hay,
            longer,
            k,
        ) by {
            if k < ps.len() {
                assert(gap_in_word(hay, ps, k));
            }
        }
    }
}

/// The score of an alignment of `needle_len` bytes from `first_pos` to
/// `last_pos`.
pub fn score_alignment(
    needle_len: usize,
    first_pos: usize,
    last_pos: usize,
    boundary_hits: usize,
    start_boundary: bool,
    in_word: bool,
) -> (r: i32)
    requires
        first_pos <= last_pos,
    ensures
        r == saturated(
            tier_score(
                last_pos - first_pos - (needle_len - 1),
                boundary_hits as int,
                start_boundary,
                in_word,
            ),
        ),
        ({
            let excess = last_pos - first_pos - (needle_len - 1);
            let exact = 5 * boundary_hits - excess + (if in_word {
                64int
            } else {
                0
            });
            if excess <= 0 {
                r == if start_boundary {
                    1029
                } else {
                    1024int
                }
            } else {
                &&& -0x8000_0000 <= exact <= 0x7fff_ffff ==> r == exact
                &&& exact < -0x8000_0000 ==> r == -0x8000_0000
                &&& exact > 0x7fff_ffff ==> r == 0x7fff_ffff
            }
        }),
{
    let spread: i128 = (last_pos - first_pos) as i128;
    let min_spread: i128 = needle_len as i128 - 1;
    let excess: i128 = spread - min_spread;
    if excess <= 0 {
        if start_boundary {
            LITERAL_BASE + BOUNDARY_BONUS
        } else {
            LITERAL_BASE
        }
    } else {
        let base: i128 = if in_word {
            SINGLE_WORD_BASE as i128
        } else {
            0
        };
        assert(SPREAD_PENALTY * excess == excess);
        let exact: i128 = base + BOUNDARY_BONUS as i128 * boundary_hits as i128
            - SPREAD_PENALTY as i128 * excess;
        if exact < i32::MIN as i128 {
            i32::MIN
        } else if exact > i32::MAX as i128 {
            i32::MAX
        } else {
            exact as i32
        }
    }
}

/// Letters in lower case throughout and in upper case throughout have the same
/// word boundaries.
pub proof fn lemma_same_hits(lower: Seq<u8>, upper: Seq<u8>, ps: Seq<int>)
    requires
        lower.len() == upper.len(),
        forall|p: int| 0 <= p < lower.len() ==> !is_upper(#[trigger] lower[p]),
        forall|p: int| 0 <= p < lower.len() ==> #[trigger] upper[p] == to_upper(lower[p]),
        forall|k: int| 0 <= k < ps.len() ==> 0 <= #[trigger] ps[k] < lower.len(),
    ensures
        boundary_hits(lower, ps) == boundary_hits(upper, ps),
        forall|p: int| 0 <= p < lower.len() ==> is_boundary(lower, p) == is_boundary(upper, p),
    decreases ps.len(),
{
    assert forall|p: int| 0 <= p < lower.len() implies is_boundary(lower, p) == is_boundary(
        upper,
        p,
    ) by {
        assert(!is_upper(lower[p]));
        if p > 0 {
            assert(upper[p - 1] == to_upper(lower[p - 1]));
        }
    }
    if ps.len() > 0 {
        assert forall|k: int| 0 <= k < ps.drop_last().len() implies 0
            <= #[trigger] ps.drop_last()[k] < lower.len() by {
            assert(ps[k] == ps.drop_last()[k]);
        }
        lemma_same_hits(lower, upper, ps.drop_last());
        assert(0 <= ps[ps.len() - 1] < lower.len());
        assert(is_boundary(lower, ps.last()) == is_boundary(upper, ps.last()));
    }
}

/// Each position of `ps` is greater than those in front of it.
pub open spec fn ascending(ps: Seq<int>) -> bool {
    forall|j: int, k: int| 0 <= j < k < ps.len() ==> ps[j] < ps[k]
}

/// A position is at a word boundary if it is the first; if the byte before it is
/// neither a letter nor a digit; or if a lower-case letter is followed there by
/// an upper-case one.
pub proof fn boundaries_by_bytes(hay: Seq<u8>, pos: int)
    requires
        0 <= pos < hay.len(),
    ensures
        pos == 0 ==> is_boundary(hay, pos),
        pos > 0 && !(0x30 <= hay[pos - 1] <= 0x39 || 0x41 <= hay[pos - 1] <= 0x5a || 0x61 <= hay[pos
            - 1] <= 0x7a) ==> is_boundary(hay, pos),
        pos > 0 && (0x30 <= hay[pos - 1] <= 0x39 || 0x41 <= hay[pos - 1] <= 0x5a || 0x61 <= hay[pos
            - 1] <= 0x7a) ==> (is_boundary(hay, pos) <==> 0x61 <= hay[pos - 1] <= 0x7a && 0x41
            <= hay[pos] <= 0x5a),
{
}

/// Each position at a word boundary counts as one hit, and no other does: the
/// hits of two parts add up.
pub proof fn hits_add_up(hay: Seq<u8>, ps: Seq<int>, qs: Seq<int>, p: int)
    ensures
        boundary_hits(hay, ps + qs) == boundary_hits(hay, ps) + boundary_hits(hay, qs),
        boundary_hits(hay, Seq::empty()) == 0,
        boundary_hits(hay, seq![p]) == if is_boundary(hay, p) {
            1nat
        } else {
            0nat
        },
    decreases qs.len(),
{
    reveal_with_fuel(boundary_hits, 2);
    assert(seq![p].drop_last() =~= Seq::<int>::empty());
    if qs.len() == 0 {
        assert(ps + qs =~= ps);
    } else {
        assert((ps + qs).drop_last() =~= ps + qs.drop_last());
        hits_add_up(hay, ps, qs.drop_last(), p);
    }
}

/// A match stays within one word exactly if every byte that it passes over, from
/// its first position to its last, is a letter or a digit.
pub proof fn one_word_by_bytes(hay: Seq<u8>, ps: Seq<int>)
    requires
        ps.len() > 0,
        forall|j: int, k: int| 0 <= j < k < ps.len() ==> ps[j] < ps[k],
    ensures
        within_one_word(hay, ps) <==> forall|p: int|
            ps[0] < p < ps.last() && !ps.contains(p) ==> 0x30 <= #[trigger] hay[p] <= 0x39 || 0x41
                <= hay[p] <= 0x5a || 0x61 <= hay[p] <= 0x7a,
{
    if within_one_word(hay, ps) {
        assert forall|p: int| ps[0] < p < ps.last() && !ps.contains(p) implies 0x30
            <= #[trigger] hay[p] <= 0x39 || 0x41 <= hay[p] <= 0x5a || 0x61 <= hay[p] <= 0x7a by {
            let k = lemma_gap_around(ps, p, ps.len() - 1);
            assert(gap_in_word(hay, ps, k));
        }
    }
    if forall|p: int|
        ps[0] < p < ps.last() && !ps.contains(p) ==> 0x30 <= #[trigger] hay[p] <= 0x39 || 0x41
            <= hay[p] <= 0x5a || 0x61 <= hay[p] <= 0x7a {
        assert forall|k: int| 0 < k < ps.len() implies #[trigger] gap_in_word(hay, ps, k) by {
            assert forall|p: int| ps[k - 1] < p < ps[k] implies is_alphanumeric(
                #[trigger] hay[p],
            ) by {
                if ps.contains(p) {
                    let j = choose|j: int| 0 <= j < ps.len() && ps[j] == p;
                    assert(j < k ==> j == k - 1 || ps[j] < ps[k - 1]);
                    assert(j > k ==> ps[k] < ps[j]);
                }
                assert(k - 1 > 0 ==> ps[0] < ps[k - 1]);
                assert(k < ps.len() - 1 ==> ps[k] < ps[ps.len() - 1]);
            }
        }
    }
}

/// The gap of `ps`, up to its position `last`, in which `p` lies.
proof fn lemma_gap_around(ps: Seq<int>, p: int, last: int) -> (k: int)
    requires
        0 <= last < ps.len(),
        ps[0] < p < ps[last],
        !ps.contains(p),
    ensures
        0 < k <= last,
        ps[k - 1] < p < ps[k],
    decreases last,
{
    assert(ps.contains(ps[last - 1]));
    if p > ps[last - 1] {
        last
    } else {
        lemma_gap_around(ps, p, last - 1)
    }
}

/// The score of a match, in numbers: 1029 for a literal one at a word boundary
/// and 1024 for any other literal one; else 5 for each hit, less 1 for each byte
/// that is passed over, and 64 more within one word.
pub proof fn score_in_numbers(hay: Seq<u8>, ps: Seq<int>)
    requires
        ps.len() > 0,
        forall|j: int, k: int| 0 <= j < k < ps.len() ==> ps[j] < ps[k],
    ensures
        ({
            let passed_over = ps.last() - ps[0] + 1 - ps.len();
            let exact = 5 * boundary_hits(hay, ps) - passed_over + (if within_one_word(hay, ps) {
                64int
            } else {
                0
            });
            if passed_over == 0 {
                alignment_score(hay, ps) == if is_boundary(hay, ps[0]) {
                    1029
                } else {
                    1024int
                }
            } else {
                &&& passed_over > 0
                &&& -0x8000_0000 <= exact <= 0x7fff_ffff ==> alignment_score(hay, ps) == exact
                &&& exact < -0x8000_0000 ==> alignment_score(hay, ps) == -0x8000_0000
                &&& exact > 0x7fff_ffff ==> alignment_score(hay, ps) == 0x7fff_ffff
            }
        }),
{
    lemma_literal_spread(ps);
}

/// A match is literal exactly if it passes over no byte, and one that starts at
/// a word boundary besides ends the search.
pub proof fn literal_passes_over_nothing(hay: Seq<u8>, ps: Seq<int>)
    requires
        ps.len() > 0,
        forall|j: int, k: int| 0 <= j < k < ps.len() ==> ps[j] < ps[k],
    ensures
        ascending(ps),
        is_literal(ps) <==> ps.last() - ps[0] + 1 == ps.len(),
        is_boundary_literal(hay, ps) <==> ps.last() - ps[0] + 1 == ps.len() && is_boundary(
            hay,
            ps[0],
        ),
{
    lemma_literal_spread(ps);
}

/// Positions ascend exactly if each is less than the next.
pub proof fn ascending_step_by_step(ps: Seq<int>)
    ensures
        ascending(ps) <==> forall|k: int| 0 < k < ps.len() ==> ps[k - 1] < #[trigger] ps[k],
{
    if forall|k: int| 0 < k < ps.len() ==> ps[k - 1] < #[trigger] ps[k] {
        assert forall|j: int, k: int| 0 <= j < k < ps.len() implies ps[j] < ps[k] by {
            lemma_steps_ascend(ps, j, k);
        }
    }
}

/// Steps upwards lead upwards.
proof fn lemma_steps_ascend(ps: Seq<int>, j: int, k: int)
    requires
        forall|k: int| 0 < k < ps.len() ==> ps[k - 1] < #[trigger] ps[k],
        0 <= j < k < ps.len(),
    ensures
        ps[j] < ps[k],
    decreases k - j,
{
    if j < k - 1 {
        lemma_steps_ascend(ps, j, k - 1);
    }
}

/// No more positions are at a word boundary than there are.
pub proof fn hits_are_bounded(hay: Seq<u8>, ps: Seq<int>)
    ensures
        boundary_hits(hay, ps) <= ps.len(),
    decreases ps.len(),
{
    if ps.len() > 0 {
        hits_are_bounded(hay, ps.drop_last());
    }
}

/// Ascending positions lie apart at least as far as they do in the sequence.
proof fn lemma_ascending_apart(ps: Seq<int>, j: int, k: int)
    requires
        ascending(ps),
        0 <= j <= k < ps.len(),
    ensures
        k - j <= ps[k] - ps[j],
    decreases k - j,
{
    if j < k {
        lemma_ascending_apart(ps, j, k - 1);
        assert(ps[k - 1] < ps[k]);
    }
}

/// A match is literal exactly if it has no excess spread, and never has a
/// negative one.
pub proof fn lemma_literal_spread(ps: Seq<int>)
    requires
        ascending(ps),
        ps.len() > 0,
    ensures
        0 <= excess_spread(ps),
        is_literal(ps) <==> excess_spread(ps) == 0,
{
    let last = ps.len() - 1;
    lemma_ascending_apart(ps, 0, last);
    if is_literal(ps) {
        assert(ps[last] == ps[0] + last);
    }
    if excess_spread(ps) == 0 {
        assert forall|k: int| 0 <= k < ps.len() implies #[trigger] ps[k] == ps[0] + k by {
            lemma_ascending_apart(ps, 0, k);
            lemma_ascending_apart(ps, k, last);
        }
    }
}

/// The score of a match that is not literal is less than the floor of a match
/// within one word with a hit for each of its bytes.
pub proof fn score_is_at_most(hay: Seq<u8>, ps: Seq<int>)
    requires
        ascending(ps),
        ps.len() > 0,
        !is_literal(ps),
    ensures
        alignment_score(hay, ps) < SINGLE_WORD_BASE + BOUNDARY_BONUS * ps.len(),
{
    lemma_literal_spread(ps);
    hits_are_bounded(hay, ps);
}

/// The bonus for word boundaries makes up for the spread of a match and for
/// what is missing to the floor of a literal one.
pub open spec fn rivals_literal(hay: Seq<u8>, ps: Seq<int>) -> bool {
    BOUNDARY_BONUS * boundary_hits(hay, ps) + (if within_one_word(hay, ps) {
        SINGLE_WORD_BASE as int
    } else {
        0
    }) >= LITERAL_BASE + excess_spread(ps)
}

/// A match of up to 192 bytes hits too few word boundaries to rival a literal
/// one.
pub proof fn short_needles_do_not_rival(hay: Seq<u8>, ps: Seq<int>)
    requires
        ascending(ps),
        0 < ps.len() <= 192,
        !is_literal(ps),
    ensures
        !rivals_literal(hay, ps),
{
    lemma_literal_spread(ps);
    hits_are_bounded(hay, ps);
}

/// A literal match scores higher than any that is not literal, but for one that
/// hits so many word boundaries that it rivals a literal match.
pub proof fn literal_beats_the_rest(hay: Seq<u8>, ps: Seq<int>, other: Seq<u8>, qs: Seq<int>)
    requires
        ascending(ps),
        ascending(qs),
        ps.len() > 0,
        qs.len() > 0,
        is_literal(ps),
        !is_literal(qs),
        !rivals_literal(other, qs),
    ensures
        alignment_score(hay, ps) >= LITERAL_BASE > alignment_score(other, qs),
{
    lemma_literal_spread(ps);
    lemma_literal_spread(qs);
}

/// A literal match at a word boundary scores higher than one that is not.
pub proof fn boundary_literal_beats_buried(
    hay: Seq<u8>,
    ps: Seq<int>,
    other: Seq<u8>,
    qs: Seq<int>,
)
    requires
        ascending(ps),
        ascending(qs),
        ps.len() > 0,
        qs.len() > 0,
        is_literal(ps),
        is_literal(qs),
        is_boundary(hay, ps[0]),
        !is_boundary(other, qs[0]),
    ensures
        alignment_score(hay, ps) == TOP_SCORE,
        alignment_score(other, qs) == LITERAL_BASE,
        TOP_SCORE > LITERAL_BASE,
{
    lemma_literal_spread(ps);
    lemma_literal_spread(qs);
}

/// Of two matches of the same tier, neither of them literal, that hit as many
/// word boundaries, the tighter one scores higher, but where an end of the
/// range of scores is reached.
pub proof fn tighter_scores_higher(hay: Seq<u8>, ps: Seq<int>, other: Seq<u8>, qs: Seq<int>)
    requires
        0 < excess_spread(ps) < excess_spread(qs),
        boundary_hits(hay, ps) == boundary_hits(other, qs),
        within_one_word(hay, ps) == within_one_word(other, qs),
    ensures
        alignment_score(hay, ps) >= alignment_score(other, qs),
        alignment_score(hay, ps) > i32::MIN && alignment_score(other, qs) < i32::MAX
            ==> alignment_score(hay, ps) > alignment_score(other, qs),
{
}

/// Of two matches of the same tier, neither of them literal, with the same
/// spread, the one that hits more word boundaries scores higher, but where an
/// end of the range of scores is reached.
pub proof fn boundaries_score_higher(hay: Seq<u8>, ps: Seq<int>, other: Seq<u8>, qs: Seq<int>)
    requires
        0 < excess_spread(ps) == excess_spread(qs),
        boundary_hits(hay, ps) > boundary_hits(other, qs),
        within_one_word(hay, ps) == within_one_word(other, qs),
    ensures
        alignment_score(hay, ps) >= alignment_score(other, qs),
        alignment_score(hay, ps) > i32::MIN && alignment_score(other, qs) < i32::MAX
            ==> alignment_score(hay, ps) > alignment_score(other, qs),
{
}

/// Of two matches with the same spread, neither of them literal, that hit as
/// many word boundaries, the one within one word scores higher than the one
/// across words, but where an end of the range of scores is reached.
pub proof fn one_word_scores_higher(hay: Seq<u8>, ps: Seq<int>, other: Seq<u8>, qs: Seq<int>)
    requires
        0 < excess_spread(ps) == excess_spread(qs),
        boundary_hits(hay, ps) == boundary_hits(other, qs),
        within_one_word(hay, ps),
        !within_one_word(other, qs),
    ensures
        alignment_score(hay, ps) >= alignment_score(other, qs),
        alignment_score(hay, ps) > i32::MIN && alignment_score(other, qs) < i32::MAX
            ==> alignment_score(hay, ps) > alignment_score(other, qs),
        i32::MIN < alignment_score(other, qs) && alignment_score(hay, ps) < i32::MAX
            ==> alignment_score(hay, ps) == alignment_score(other, qs) + SINGLE_WORD_BASE,
{
}

/// A match within one word has a positive score exactly if it is literal, or
/// its excess spread is less than the floor and the bonus that it earns.
pub proof fn one_word_scores_positive(hay: Seq<u8>, ps: Seq<int>)
    requires
        ascending(ps),
        ps.len() > 0,
        within_one_word(hay, ps),
    ensures
        alignment_score(hay, ps) > 0 <==> is_literal(ps) || excess_spread(ps) < SINGLE_WORD_BASE
            + BOUNDARY_BONUS * boundary_hits(hay, ps),
{
    lemma_literal_spread(ps);
}

/// A match across words has a positive score exactly if the bonus that it earns
/// is more than its excess spread.
pub proof fn across_words_scores_positive(hay: Seq<u8>, ps: Seq<int>)
    requires
        ascending(ps),
        ps.len() > 0,
        !within_one_word(hay, ps),
    ensures
        alignment_score(hay, ps) > 0 <==> excess_spread(ps) < BOUNDARY_BONUS * boundary_hits(
            hay,
            ps,
        ),
{
    lemma_literal_spread(ps);
    if is_literal(ps) {
        assert forall|k: int| 0 < k < ps.len() implies #[trigger] gap_in_word(hay, ps, k) by {
            assert(ps[k] == ps[0] + k);
            assert(ps[k - 1] == ps[0] + (k - 1));
        }
    }
}

} // verus!
