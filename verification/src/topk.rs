//! The best matches: a bounded collection that keeps those with the highest
//! scores.

use std::cmp::Ordering;

use vstd::multiset::Multiset;
use vstd::prelude::*;

use crate::bytes::{
    boxed_copy, bytes_lt, comes_before, first_difference_decides, lemma_bytes_lt_total,
    lemma_bytes_lt_transitive, prefix_comes_first, same_bytes,
};
use crate::heap::{is_heap, lemma_first_is_lowest, pop, push, reverse};

verus! {

/// A match, as a value.
pub struct Entry {
    pub score: i32,
    pub line_no: u64,
    pub col: u32,
    pub prefix: Seq<u8>,
    pub line: Seq<u8>,
}

/// A match that may be shown.
#[derive(Eq, PartialEq)]
pub struct Scored {
    pub score: i32,
    pub line_no: u64,
    /// The column of the match in its line, counted in bytes from 1; 0 where
    /// none was given.
    pub col: u32,
    /// The path and a colon.
    pub prefix: Box<[u8]>,
    pub line: Box<[u8]>,
}

impl View for Scored {
    type V = Entry;

    open spec fn view(&self) -> Entry {
        Entry {
            score: self.score,
            line_no: self.line_no,
            col: self.col,
            prefix: self.prefix@,
            line: self.line@,
        }
    }
}

/// The matches of `v`, as values.
pub open spec fn entries(v: Seq<Scored>) -> Seq<Entry> {
    v.map_values(|s: Scored| s@)
}

/// `a` ranks below `b`: by score, then by path, then by line number.
pub open spec fn ranks_below(a: Entry, b: Entry) -> bool {
    ||| a.score < b.score
    ||| a.score == b.score && bytes_lt(a.prefix, b.prefix)
    ||| a.score == b.score && a.prefix == b.prefix && a.line_no < b.line_no
}

/// How `a` ranks against `b`.
pub open spec fn rank_order(a: Entry, b: Entry) -> Ordering {
    if ranks_below(a, b) {
        Ordering::Less
    } else if ranks_below(b, a) {
        Ordering::Greater
    } else {
        Ordering::Equal
    }
}

impl Scored {
    /// Whether `self` ranks below `other`.
    pub fn is_below(&self, other: &Self) -> (r: bool)
        ensures
            r == ranks_below(self@, other@),
            r == (self.score < other.score || self.score == other.score && (bytes_lt(
                self.prefix@,
                other.prefix@,
            ) || self.prefix@ == other.prefix@ && self.line_no < other.line_no)),
    {
        if self.score != other.score {
            return self.score < other.score;
        }
        proof {
            lemma_bytes_lt_total(self.prefix@, other.prefix@);
        }
        if comes_before(&self.prefix, &other.prefix) {
            return true;
        }
        same_bytes(&self.prefix, &other.prefix) && self.line_no < other.line_no
    }

    /// How `self` ranks against `other`: by score, then by path, then by line
    /// number.
    pub fn cmp(&self, other: &Self) -> (r: Ordering)
        ensures
            r == rank_order(self@, other@),
            r is Less <==> ranks_below(self@, other@),
            r is Greater <==> ranks_below(other@, self@),
    {
        proof {
            order_says_who_ranks_below(self@, other@);
        }
        if self.is_below(other) {
            Ordering::Less
        } else if other.is_below(self) {
            Ordering::Greater
        } else {
            Ordering::Equal
        }
    }
}

impl PartialOrd for Scored {
    fn partial_cmp(&self, other: &Self) -> (r: Option<Ordering>) {
        Some(self.cmp(other))
    }
}

impl vstd::std_specs::cmp::PartialOrdSpecImpl for Scored {
    open spec fn obeys_partial_cmp_spec() -> bool {
        true
    }

    open spec fn partial_cmp_spec(&self, other: &Self) -> Option<Ordering> {
        Some(rank_order(self@, other@))
    }
}

/// What the best matches are kept in, as a value: how many matches it keeps at
/// most, and those that it holds.
#[verifier::ext_equal]
pub struct Kept {
    pub limit: nat,
    pub entries: Multiset<Entry>,
}

impl Kept {
    /// Nothing kept yet.
    pub open spec fn nothing(limit: nat) -> Kept {
        Kept { limit, entries: Multiset::empty() }
    }

    /// A match with this score is taken in: there is room, or it beats the
    /// score of a match that is kept. The least `i32` is never taken in.
    pub open spec fn admits(self, score: i32) -> bool {
        &&& score > i32::MIN
        &&& self.entries.len() < self.limit || exists|e: Entry| #[trigger]
            self.entries.contains(e) && e.score < score
    }

    /// `e` is kept, and no kept match ranks below it.
    pub open spec fn is_lowest(self, e: Entry) -> bool {
        &&& self.entries.contains(e)
        &&& forall|x: Entry| #[trigger] self.entries.contains(x) ==> !ranks_below(x, e)
    }

    /// What is kept once `e` was offered: the same if `e` is not admitted; else
    /// `e` as well, in place of a lowest-ranking match if there was no room.
    pub open spec fn offered(self, e: Entry, after: Kept) -> bool {
        if !self.admits(e.score) {
            after == self
        } else if self.entries.len() < self.limit {
            after == (Kept { limit: self.limit, entries: self.entries.insert(e) })
        } else {
            exists|low: Entry| #[trigger]
                self.is_lowest(low) && after == (Kept {
                    limit: self.limit,
                    entries: self.entries.remove(low).insert(e),
                })
        }
    }

    /// What is kept once the matches of `es` were offered, one after the other.
    pub open spec fn absorbed(self, es: Seq<Entry>, after: Kept) -> bool
        decreases es.len(),
    {
        if es.len() == 0 {
            after == self
        } else {
            exists|between: Kept|
                self.absorbed(es.drop_last(), between) && #[trigger] between.offered(
                    es.last(),
                    after,
                )
        }
    }

    /// Offering the matches of `es` keeps within what can be done: some match
    /// can be kept, or none of them has a score that could be taken in.
    pub open spec fn can_absorb(self, es: Seq<Entry>) -> bool {
        self.limit > 0 || forall|i: int| 0 <= i < es.len() ==> (#[trigger] es[i]).score == i32::MIN
    }

    /// The score that a match has to beat to be admitted: the lowest kept
    /// score, or the least `i32` while there is room.
    pub open spec fn is_cutoff(self, score: i32) -> bool {
        if self.entries.len() < self.limit || self.limit == 0 {
            score == i32::MIN
        } else {
            &&& exists|e: Entry| #[trigger] self.entries.contains(e) && e.score == score
            &&& forall|e: Entry| #[trigger] self.entries.contains(e) ==> score <= e.score
        }
    }
}

/// What offering a match does, by the scores that are kept: the least score
/// changes nothing; where there is room the match is kept as well; where there
/// is none it takes the place of a kept match with a lower score, one with the
/// lowest score, of those one whose path comes first, of those one with the
/// lowest line number; and where no kept score is lower nothing changes.
pub proof fn offer_goes_by_score(before: Kept, e: Entry, after: Kept)
    requires
        before.offered(e, after),
    ensures
        after.limit == before.limit,
        e.score == i32::MIN ==> after.entries == before.entries,
        e.score > i32::MIN && before.entries.len() < before.limit ==> after.entries
            == before.entries.insert(e),
        before.entries.len() >= before.limit && (forall|x: Entry| #[trigger]
            before.entries.contains(x) ==> e.score <= x.score) ==> after.entries == before.entries,
        e.score > i32::MIN && before.entries.len() >= before.limit && !(forall|x: Entry| #[trigger]
            before.entries.contains(x) ==> e.score <= x.score) ==> exists|low: Entry| #[trigger]
            before.entries.contains(low) && after.entries == before.entries.remove(low).insert(e)
                && forall|x: Entry| #[trigger]
                before.entries.contains(x) ==> low.score < x.score || low.score == x.score
                    && !bytes_lt(x.prefix, low.prefix) && (x.prefix == low.prefix ==> low.line_no
                    <= x.line_no),
{
    if e.score > i32::MIN && before.entries.len() >= before.limit && !(forall|x: Entry| #[trigger]
        before.entries.contains(x) ==> e.score <= x.score) {
        let beaten = choose|x: Entry| #[trigger]
            before.entries.contains(x) && !(e.score <= x.score);
        assert(before.entries.contains(beaten) && beaten.score < e.score);
        assert(before.admits(e.score));
        let low = choose|low: Entry| #[trigger]
            before.is_lowest(low) && after == (Kept {
                limit: before.limit,
                entries: before.entries.remove(low).insert(e),
            });
        assert(before.entries.contains(low));
        assert forall|x: Entry| #[trigger] before.entries.contains(x) implies low.score < x.score
            || low.score == x.score && !bytes_lt(x.prefix, low.prefix) && (x.prefix == low.prefix
            ==> low.line_no <= x.line_no) by {
            assert(!ranks_below(x, low));
        }
    }
}

/// A match as a value has what the match has, and matches as values stand in the
/// same order.
pub proof fn values_are_the_matches(v: Seq<Scored>, i: int)
    requires
        0 <= i < v.len(),
    ensures
        entries(v).len() == v.len(),
        entries(v)[i].score == v[i].score,
        entries(v)[i].line_no == v[i].line_no,
        entries(v)[i].col == v[i].col,
        entries(v)[i].prefix == v[i].prefix@,
        entries(v)[i].line == v[i].line@,
        v[i]@ == entries(v)[i],
{
}

/// How matches rank: by score; for the same score by the first byte in which the
/// paths differ, or by length where there is none; for the same path by line
/// number.
pub proof fn rank_goes_by_score_path_line(a: Entry, b: Entry, i: int)
    ensures
        a.score < b.score ==> ranks_below(a, b) && !ranks_below(b, a),
        a.score == b.score && 0 <= i < a.prefix.len() && i < b.prefix.len() && a.prefix.take(i)
            == b.prefix.take(i) && a.prefix[i] < b.prefix[i] ==> ranks_below(a, b) && !ranks_below(
            b,
            a,
        ),
        a.score == b.score && a.prefix.len() < b.prefix.len() && a.prefix == b.prefix.take(
            a.prefix.len() as int,
        ) ==> ranks_below(a, b) && !ranks_below(b, a),
        a.score == b.score && a.prefix == b.prefix ==> (ranks_below(a, b) <==> a.line_no
            < b.line_no),
{
    lemma_bytes_lt_total(a.prefix, a.prefix);
    if a.score == b.score {
        if 0 <= i < a.prefix.len() && i < b.prefix.len() && a.prefix.take(i) == b.prefix.take(i)
            && a.prefix[i] < b.prefix[i] {
            first_difference_decides(a.prefix, b.prefix, i);
        }
        if a.prefix.len() < b.prefix.len() && a.prefix == b.prefix.take(a.prefix.len() as int) {
            prefix_comes_first(a.prefix, b.prefix);
        }
    }
}

/// The order of two matches says which ranks below the other.
pub proof fn order_says_who_ranks_below(a: Entry, b: Entry)
    ensures
        rank_order(a, b) is Less <==> ranks_below(a, b),
        rank_order(a, b) is Greater <==> ranks_below(b, a),
        rank_order(a, b) is Equal <==> !ranks_below(a, b) && !ranks_below(b, a),
{
    if ranks_below(a, b) {
        rank_is_asymmetric(a, b);
    }
}

/// What is kept of the matches that were offered, by counting: no more than there
/// is room for, none more often than it was offered; and a match that could be
/// kept and was not found no room, with every kept score as high as its own.
pub proof fn kept_by_counting(limit: nat, es: Seq<Entry>, after: Kept, e: Entry)
    requires
        Kept::nothing(limit).absorbed(es, after),
    ensures
        after.limit == limit,
        after.entries.len() <= limit,
        after.entries.count(e) <= es.to_multiset().count(e),
        after.entries.count(e) < es.to_multiset().count(e) && e.score > i32::MIN
            ==> after.entries.len() == limit && forall|x: Entry| #[trigger]
            after.entries.contains(x) ==> e.score <= x.score,
        e.score == i32::MIN ==> after.entries.count(e) == 0,
{
    let dropped = lemma_kept_and_dropped(limit, es, after);
    assert(after.entries.add(dropped).count(e) == es.to_multiset().count(e));
    if after.entries.count(e) < es.to_multiset().count(e) && e.score > i32::MIN {
        assert(dropped.contains(e));
        assert forall|x: Entry| #[trigger] after.entries.contains(x) implies e.score <= x.score by {
            assert(after.entries.contains(x) && dropped.contains(e));
        }
    }
    if after.entries.contains(e) {
        assert(e.score > i32::MIN);
    }
}

/// Offering more matches goes on from what is kept.
pub proof fn offers_go_on(before: Kept, es: Seq<Entry>, fs: Seq<Entry>, after: Kept)
    ensures
        before.absorbed(es + fs, after) <==> exists|between: Kept| #[trigger]
            before.absorbed(es, between) && between.absorbed(fs, after),
        before.absorbed(Seq::empty(), after) <==> after == before,
    decreases fs.len(),
{
    if fs.len() == 0 {
        assert(es + fs =~= es);
        if before.absorbed(es, after) {
            assert(after.absorbed(fs, after));
        }
    } else {
        let all = es + fs;
        let head = fs.drop_last();
        assert(all.drop_last() =~= es + head);
        assert(all.last() == fs.last());
        if before.absorbed(all, after) {
            let m = choose|m: Kept|
                before.absorbed(all.drop_last(), m) && #[trigger] m.offered(all.last(), after);
            offers_go_on(before, es, head, m);
            let between = choose|between: Kept| #[trigger]
                before.absorbed(es, between) && between.absorbed(head, m);
            assert(m.offered(fs.last(), after));
            assert(between.absorbed(fs, after));
        }
        if exists|between: Kept| #[trigger]
            before.absorbed(es, between) && between.absorbed(fs, after) {
            let between = choose|between: Kept| #[trigger]
                before.absorbed(es, between) && between.absorbed(fs, after);
            let m = choose|m: Kept|
                between.absorbed(head, m) && #[trigger] m.offered(fs.last(), after);
            offers_go_on(before, es, head, m);
            assert(before.absorbed(all.drop_last(), m));
            assert(m.offered(all.last(), after));
        }
    }
}

/// A match that is turned away stays turned away, whatever was offered in
/// between: a score that is not admitted is admitted at no later time. So a
/// cutoff that was read earlier can be relied on.
pub proof fn turned_away_for_good(before: Kept, es: Seq<Entry>, after: Kept, score: i32)
    requires
        before.absorbed(es, after),
        !before.admits(score),
    ensures
        !after.admits(score),
    decreases es.len(),
{
    if es.len() > 0 {
        let between = choose|between: Kept|
            before.absorbed(es.drop_last(), between) && #[trigger] between.offered(
                es.last(),
                after,
            );
        turned_away_for_good(before, es.drop_last(), between, score);
        let e = es.last();
        if between.admits(e.score) && score > i32::MIN {
            assert(between.entries.len() >= between.limit);
            let low = choose|low: Entry| #[trigger]
                between.is_lowest(low) && after == (Kept {
                    limit: between.limit,
                    entries: between.entries.remove(low).insert(e),
                });
            let beaten = choose|x: Entry| #[trigger]
                between.entries.contains(x) && x.score < e.score;
            assert(between.entries.contains(beaten));
            assert forall|x: Entry| #[trigger] after.entries.contains(x) implies score
                <= x.score by {
                if x != e {
                    assert(between.entries.contains(x));
                }
            }
            assert(after.entries.len() == between.entries.len());
        }
    }
}

/// How many of `es` have a score that can be taken in.
pub open spec fn admissible(es: Seq<Entry>) -> nat
    decreases es.len(),
{
    if es.len() == 0 {
        0
    } else {
        admissible(es.drop_last()) + (if es.last().score > i32::MIN {
            1nat
        } else {
            0nat
        })
    }
}

/// `dropped` are the matches of `es` that are not kept, and none of them has a
/// higher score than one that is. A match is dropped only for want of room, but
/// for one with the least score.
pub open spec fn split_by_score(es: Seq<Entry>, after: Kept, dropped: Multiset<Entry>) -> bool {
    &&& after.entries.add(dropped) == es.to_multiset()
    &&& forall|e: Entry, d: Entry| #[trigger]
        after.entries.contains(e) && #[trigger] dropped.contains(d) ==> d.score <= e.score
    &&& forall|d: Entry| #[trigger]
        dropped.contains(d) && d.score > i32::MIN ==> after.entries.len() == after.limit
}

/// What is kept of the matches that were offered is as many as there is room
/// for, and those with the highest scores: no match that was dropped has a
/// higher score than one that is kept.
pub proof fn highest_scores_are_kept(limit: nat, es: Seq<Entry>, after: Kept)
    requires
        Kept::nothing(limit).absorbed(es, after),
    ensures
        after.limit == limit,
        after.entries.len() == if admissible(es) < limit {
            admissible(es)
        } else {
            limit
        },
        exists|dropped: Multiset<Entry>| #[trigger] split_by_score(es, after, dropped),
{
    let dropped = lemma_kept_and_dropped(limit, es, after);
    assert(split_by_score(es, after, dropped));
}

/// The matches that were offered and are not kept.
proof fn lemma_kept_and_dropped(limit: nat, es: Seq<Entry>, after: Kept) -> (dropped: Multiset<
    Entry,
>)
    requires
        Kept::nothing(limit).absorbed(es, after),
    ensures
        after.limit == limit,
        after.entries.len() == if admissible(es) < limit {
            admissible(es)
        } else {
            limit
        },
        forall|e: Entry| #[trigger] after.entries.contains(e) ==> e.score > i32::MIN,
        split_by_score(es, after, dropped),
    decreases es.len(),
{
    broadcast use vstd::seq_lib::group_to_multiset_ensures;

    if es.len() == 0 {
        let dropped = Multiset::<Entry>::empty();
        assert(after.entries.add(dropped) =~= es.to_multiset());
        dropped
    } else {
        let head = es.drop_last();
        let e = es.last();
        let between = choose|between: Kept|
            Kept::nothing(limit).absorbed(head, between) && #[trigger] between.offered(e, after);
        let before = lemma_kept_and_dropped(limit, head, between);
        assert(es =~= head.push(e));
        assert(es.to_multiset() =~= head.to_multiset().insert(e));
        if !between.admits(e.score) {
            let dropped = before.insert(e);
            assert(after.entries.add(dropped) =~= es.to_multiset());
            assert forall|x: Entry, d: Entry| #[trigger]
                after.entries.contains(x) && #[trigger] dropped.contains(d) implies d.score
                <= x.score by {
                assert(d == e || before.contains(d));
            }
            assert forall|d: Entry| #[trigger]
                dropped.contains(d) && d.score > i32::MIN implies after.entries.len()
                == after.limit by {
                assert(d == e || before.contains(d));
            }
            dropped
        } else if between.entries.len() < limit {
            assert(after.entries.add(before) =~= es.to_multiset());
            assert forall|d: Entry| #[trigger] before.contains(d) implies d.score <= i32::MIN by {}
            assert forall|x: Entry| #[trigger] after.entries.contains(x) implies x.score
                > i32::MIN by {
                assert(x == e || between.entries.contains(x));
            }
            before
        } else {
            let low = choose|low: Entry| #[trigger]
                between.is_lowest(low) && after == (Kept {
                    limit: between.limit,
                    entries: between.entries.remove(low).insert(e),
                });
            let dropped = before.insert(low);
            assert forall|x: Entry| after.entries.add(dropped).count(x) == es.to_multiset().count(
                x,
            ) by {
                assert(between.entries.add(before).count(x) == head.to_multiset().count(x));
            }
            assert(after.entries.add(dropped) =~= es.to_multiset());
            let beaten = choose|x: Entry| #[trigger]
                between.entries.contains(x) && x.score < e.score;
            assert(!ranks_below(beaten, low));
            assert forall|x: Entry| #[trigger] after.entries.contains(x) implies x.score
                > i32::MIN by {
                assert(x == e || between.entries.contains(x));
            }
            assert forall|x: Entry, d: Entry| #[trigger]
                after.entries.contains(x) && #[trigger] dropped.contains(d) implies d.score
                <= x.score by {
                assert(d == low || before.contains(d));
                assert(x == e || between.entries.contains(x));
                if x == e {
                    if d != low {
                        assert(between.entries.contains(beaten) && before.contains(d));
                    }
                } else {
                    assert(!ranks_below(x, low));
                }
            }
            dropped
        }
    }
}

/// Not to rank below is transitive.
pub proof fn rank_is_transitive(a: Entry, b: Entry, c: Entry)
    requires
        !ranks_below(b, a),
        !ranks_below(c, b),
    ensures
        !ranks_below(c, a),
{
    lemma_bytes_lt_total(a.prefix, b.prefix);
    lemma_bytes_lt_total(b.prefix, c.prefix);
    lemma_bytes_lt_total(a.prefix, c.prefix);
    if bytes_lt(a.prefix, b.prefix) && bytes_lt(b.prefix, c.prefix) {
        lemma_bytes_lt_transitive(a.prefix, b.prefix, c.prefix);
    }
}

/// What ranks below does not rank above.
pub proof fn rank_is_asymmetric(a: Entry, b: Entry)
    requires
        ranks_below(a, b),
    ensures
        !ranks_below(b, a),
{
    lemma_bytes_lt_total(a.prefix, b.prefix);
}

/// Ties are settled: two matches of which neither ranks below the other have
/// the same score, the same path and the same line number.
pub proof fn ties_are_settled(a: Entry, b: Entry)
    requires
        !ranks_below(a, b),
        !ranks_below(b, a),
    ensures
        a.score == b.score,
        a.prefix == b.prefix,
        a.line_no == b.line_no,
{
    lemma_bytes_lt_total(a.prefix, b.prefix);
}

/// How many of `m` score `score` or more.
pub open spec fn scoring_at_least(m: Multiset<Entry>, score: i32) -> nat {
    m.filter(|e: Entry| e.score >= score).len()
}

/// The scores that are kept do not depend on the order in which the matches
/// were offered: of those that reach a score as many are kept as there are, or
/// as there is room for.
pub proof fn kept_scores_are_fixed(limit: nat, es: Seq<Entry>, after: Kept, score: i32)
    requires
        Kept::nothing(limit).absorbed(es, after),
        score > i32::MIN,
    ensures
        scoring_at_least(after.entries, score) == if scoring_at_least(es.to_multiset(), score)
            < limit {
            scoring_at_least(es.to_multiset(), score)
        } else {
            limit
        },
{
    let dropped = lemma_kept_and_dropped(limit, es, after);
    let reaches = |e: Entry| e.score >= score;
    let kept_up = after.entries.filter(reaches);
    let dropped_up = dropped.filter(reaches);
    assert(es.to_multiset().filter(reaches) =~= kept_up.add(dropped_up)) by {
        assert forall|e: Entry|
            es.to_multiset().filter(reaches).count(e) == kept_up.add(dropped_up).count(e) by {
            assert(after.entries.add(dropped).count(e) == es.to_multiset().count(e));
        }
    }
    if dropped_up.len() == 0 {
        assert(after.entries =~= kept_up.add(after.entries.filter(|e: Entry| e.score < score)));
    } else {
        let d = dropped_up.choose();
        assert(dropped_up.contains(d));
        assert(dropped.contains(d));
        assert forall|e: Entry| after.entries.count(e) == kept_up.count(e) by {
            if after.entries.contains(e) {
                assert(after.entries.contains(e) && dropped.contains(d));
            }
        }
        assert(after.entries =~= kept_up);
    }
}

/// One of `a` and `b` ranks below the other, or they are the same.
pub open spec fn distinguished(a: Entry, b: Entry) -> bool {
    a == b || ranks_below(a, b) || ranks_below(b, a)
}

/// What is kept does not depend on how ties are broken inside the collection:
/// where no two of the matches that were offered tie in score, path and line
/// number, it is fixed by them.
pub proof fn kept_is_fixed(limit: nat, es: Seq<Entry>, a: Kept, b: Kept)
    requires
        Kept::nothing(limit).absorbed(es, a),
        Kept::nothing(limit).absorbed(es, b),
        forall|i: int, j: int|
            0 <= i < es.len() && 0 <= j < es.len() ==> distinguished(
                #[trigger] es[i],
                #[trigger] es[j],
            ),
    ensures
        a == b,
    decreases es.len(),
{
    if es.len() > 0 {
        let head = es.drop_last();
        let e = es.last();
        let a0 = choose|m: Kept|
            Kept::nothing(limit).absorbed(head, m) && #[trigger] m.offered(e, a);
        let b0 = choose|m: Kept|
            Kept::nothing(limit).absorbed(head, m) && #[trigger] m.offered(e, b);
        assert forall|i: int, j: int|
            0 <= i < head.len() && 0 <= j < head.len() implies distinguished(
            #[trigger] head[i],
            #[trigger] head[j],
        ) by {
            assert(distinguished(es[i], es[j]));
        }
        kept_is_fixed(limit, head, a0, b0);
        if a0.admits(e.score) && a0.entries.len() >= a0.limit {
            let low_a = choose|low: Entry| #[trigger]
                a0.is_lowest(low) && a == (Kept {
                    limit: a0.limit,
                    entries: a0.entries.remove(low).insert(e),
                });
            let low_b = choose|low: Entry| #[trigger]
                a0.is_lowest(low) && b == (Kept {
                    limit: a0.limit,
                    entries: a0.entries.remove(low).insert(e),
                });
            let dropped = lemma_kept_and_dropped(limit, head, a0);
            let i = lemma_kept_was_offered(head, a0, dropped, low_a);
            let j = lemma_kept_was_offered(head, a0, dropped, low_b);
            assert(distinguished(head[i], head[j]));
        }
    }
}

/// What is kept was offered.
proof fn lemma_kept_was_offered(
    es: Seq<Entry>,
    after: Kept,
    dropped: Multiset<Entry>,
    e: Entry,
) -> (i: int)
    requires
        split_by_score(es, after, dropped),
        after.entries.contains(e),
    ensures
        0 <= i < es.len(),
        es[i] == e,
{
    broadcast use vstd::seq_lib::group_to_multiset_ensures;

    assert(after.entries.add(dropped).count(e) > 0);
    assert(es.to_multiset().contains(e));
    assert(es.contains(e));
    choose|i: int| 0 <= i < es.len() && es[i] == e
}

/// The matches of `es` whose scores beat `floor`.
pub open spec fn beating(es: Seq<Entry>, floor: i32) -> Seq<Entry> {
    es.filter(|e: Entry| e.score > floor)
}

/// Leaving out the matches that do not beat a score that is not admitted
/// changes nothing.
pub proof fn leaving_out_is_safe(before: Kept, es: Seq<Entry>, after: Kept, floor: i32)
    requires
        !before.admits(floor),
        before.absorbed(beating(es, floor), after),
    ensures
        before.absorbed(es, after),
    decreases es.len(),
{
    reveal(Seq::filter);
    if es.len() > 0 {
        let head = es.drop_last();
        let last = es.last();
        if last.score > floor {
            let kept = beating(es, floor);
            assert(kept == beating(head, floor).push(last));
            assert(kept.drop_last() =~= beating(head, floor));
            let between = choose|between: Kept|
                before.absorbed(kept.drop_last(), between) && #[trigger] between.offered(
                    kept.last(),
                    after,
                );
            leaving_out_is_safe(before, head, between, floor);
            assert(between.offered(last, after));
        } else {
            assert(beating(es, floor) == beating(head, floor));
            leaving_out_is_safe(before, head, after, floor);
            turned_away_for_good(before, head, after, floor);
            assert(!after.admits(last.score));
            assert(after.offered(last, after));
        }
    }
}

/// The best matches so far.
pub struct TopK {
    k: usize,
    heap: Vec<Scored>,
    /// The score that a match has to beat, so that most of them are turned away
    /// by one comparison.
    cutoff: i32,
}

impl View for TopK {
    type V = Kept;

    closed spec fn view(&self) -> Kept {
        Kept { limit: self.k as nat, entries: entries(self.heap@).to_multiset() }
    }
}

/// A match is among the values of a heap exactly if it is one of its items.
proof fn lemma_among_values(v: Seq<Scored>, e: Entry)
    ensures
        entries(v).to_multiset().contains(e) <==> exists|i: int|
            0 <= i < v.len() && (#[trigger] v[i])@ == e,
        entries(v).to_multiset().len() == v.len(),
{
    broadcast use vstd::seq_lib::group_to_multiset_ensures;
    if entries(v).to_multiset().contains(e) {
        assert(entries(v).contains(e));
        let i = choose|i: int| 0 <= i < entries(v).len() && entries(v)[i] == e;
        assert(v[i]@ == e);
    }
    if exists|i: int| 0 <= i < v.len() && (#[trigger] v[i])@ == e {
        let i = choose|i: int| 0 <= i < v.len() && (#[trigger] v[i])@ == e;
        assert(entries(v)[i] == e);
        assert(entries(v).contains(e));
    }
}

impl TopK {
    /// The heap is one, it is not too full, and the cutoff is that of its
    /// items.
    pub closed spec fn wf(self) -> bool {
        &&& is_heap(self.heap@)
        &&& self.heap@.len() <= self.k
        &&& forall|i: int| 0 <= i < self.heap@.len() ==> (#[trigger] self.heap@[i]).score > i32::MIN
        &&& self.cutoff == if self.heap@.len() < self.k || self.k == 0 {
            i32::MIN
        } else {
            self.heap@[0].score
        }
    }

    /// What `wf` says of the contents.
    pub proof fn lemma_wf(self)
        requires
            self.wf(),
        ensures
            self@.entries.len() <= self@.limit,
            forall|e: Entry| #[trigger] self@.entries.contains(e) ==> e.score > i32::MIN,
    {
        assert forall|e: Entry| #[trigger] self@.entries.contains(e) implies e.score > i32::MIN by {
            lemma_among_values(self.heap@, e);
        }
        lemma_among_values(self.heap@, arbitrary());
    }

    /// The cutoff of the heap is the cutoff of the contents.
    proof fn lemma_cutoff(self)
        requires
            self.wf(),
        ensures
            self@.is_cutoff(self.cutoff),
    {
        lemma_among_values(self.heap@, arbitrary());
        if self.heap@.len() == self.k && self.k > 0 {
            let first = self.heap@[0]@;
            lemma_among_values(self.heap@, first);
            assert(self@.entries.contains(first) && first.score == self.cutoff);
            assert forall|e: Entry| #[trigger] self@.entries.contains(e) implies self.cutoff
                <= e.score by {
                lemma_among_values(self.heap@, e);
                let i = choose|i: int| 0 <= i < self.heap@.len() && (#[trigger] self.heap@[i])@ == e;
                lemma_first_is_lowest(self.heap@, i);
            }
        }
    }

    /// A collection that keeps at most `k` matches, and holds none yet.
    pub fn new(k: usize) -> (r: Self)
        ensures
            r.wf(),
            r@ == Kept::nothing(k as nat),
            r@.limit == k,
            r@.entries.len() == 0,
    {
        let capacity: usize = if k < 1024 {
            k
        } else {
            1024
        };
        let heap: Vec<Scored> = Vec::with_capacity(capacity);
        proof {
            lemma_among_values(heap@, arbitrary());
            assert(entries(heap@).to_multiset() =~= Multiset::empty());
        }
        TopK { k, heap, cutoff: i32::MIN }
    }

    /// The score that a match has to beat to be taken in.
    pub fn cutoff(&self) -> (r: i32)
        requires
            self.wf(),
        ensures
            self@.is_cutoff(r),
            self@.entries.len() < self@.limit ==> r == i32::MIN,
            self@.entries.len() >= self@.limit > 0 ==> {
                &&& exists|e: Entry| #[trigger] self@.entries.contains(e) && e.score == r
                &&& forall|e: Entry| #[trigger] self@.entries.contains(e) ==> r <= e.score
            },
    {
        proof {
            self.lemma_cutoff();
        }
        self.cutoff
    }

    /// A score that does not beat the cutoff is not admitted, and any other is.
    proof fn lemma_cutoff_decides(self, score: i32)
        requires
            self.wf(),
            self@.limit > 0 || score == i32::MIN,
        ensures
            score <= self.cutoff <==> !self@.admits(score),
    {
        self.lemma_wf();
        self.lemma_cutoff();
        lemma_among_values(self.heap@, arbitrary());
    }

    /// Offers a match whose column is not known.
    #[inline]
    pub fn try_insert(&mut self, score: i32, prefix: &[u8], line_no: u64, line: &[u8])
        requires
            old(self).wf(),
            old(self)@.limit > 0 || score == i32::MIN,
        ensures
            final(self).wf(),
            old(self)@.offered(
                (Entry { score, line_no, col: 0, prefix: prefix@, line: line@ }),
                final(self)@,
            ),
            final(self)@.limit == old(self)@.limit,
            score == i32::MIN ==> final(self)@.entries == old(self)@.entries,
            score > i32::MIN && old(self)@.entries.len() < old(self)@.limit
                ==> final(self)@.entries == old(self)@.entries.insert(
                (Entry { score, line_no, col: 0, prefix: prefix@, line: line@ }),
            ),
            old(self)@.entries.len() >= old(self)@.limit && (forall|x: Entry| #[trigger]
                old(self)@.entries.contains(x) ==> score <= x.score) ==> final(self)@.entries
                == old(self)@.entries,
            score > i32::MIN && old(self)@.entries.len() >= old(self)@.limit && !(forall|x: Entry|
             #[trigger]
                old(self)@.entries.contains(x) ==> score <= x.score) ==> exists|low: Entry|
             #[trigger]
                old(self)@.entries.contains(low) && final(self)@.entries
                    == old(self)@.entries.remove(low).insert(
                    (Entry { score, line_no, col: 0, prefix: prefix@, line: line@ }),
                ) && forall|x: Entry| #[trigger]
                    old(self)@.entries.contains(x) ==> low.score < x.score || low.score == x.score
                        && !bytes_lt(x.prefix, low.prefix) && (x.prefix == low.prefix
                        ==> low.line_no <= x.line_no),
    {
        self.try_insert_at(score, prefix, line_no, 0, line);
    }

    /// Offers a match. It is turned away at once unless its score beats the
    /// cutoff; only then are its bytes copied.
    pub fn try_insert_at(
        &mut self,
        score: i32,
        prefix: &[u8],
        line_no: u64,
        col: u32,
        line: &[u8],
    )
        requires
            old(self).wf(),
            old(self)@.limit > 0 || score == i32::MIN,
        ensures
            final(self).wf(),
            old(self)@.offered(
                (Entry { score, line_no, col, prefix: prefix@, line: line@ }),
                final(self)@,
            ),
            final(self)@.limit == old(self)@.limit,
            score == i32::MIN ==> final(self)@.entries == old(self)@.entries,
            score > i32::MIN && old(self)@.entries.len() < old(self)@.limit
                ==> final(self)@.entries == old(self)@.entries.insert(
                (Entry { score, line_no, col, prefix: prefix@, line: line@ }),
            ),
            old(self)@.entries.len() >= old(self)@.limit && (forall|x: Entry| #[trigger]
                old(self)@.entries.contains(x) ==> score <= x.score) ==> final(self)@.entries
                == old(self)@.entries,
            score > i32::MIN && old(self)@.entries.len() >= old(self)@.limit && !(forall|x: Entry|
             #[trigger]
                old(self)@.entries.contains(x) ==> score <= x.score) ==> exists|low: Entry|
             #[trigger]
                old(self)@.entries.contains(low) && final(self)@.entries
                    == old(self)@.entries.remove(low).insert(
                    (Entry { score, line_no, col, prefix: prefix@, line: line@ }),
                ) && forall|x: Entry| #[trigger]
                    old(self)@.entries.contains(x) ==> low.score < x.score || low.score == x.score
                        && !bytes_lt(x.prefix, low.prefix) && (x.prefix == low.prefix
                        ==> low.line_no <= x.line_no),
    {
        proof {
            self.lemma_wf();
            self.lemma_cutoff_decides(score);
            lemma_among_values(self.heap@, arbitrary());
        }
        if score <= self.cutoff {
            proof {
                offer_goes_by_score(
                    old(self)@,
                    Entry { score, line_no, col, prefix: prefix@, line: line@ },
                    self@,
                );
            }
            return;
        }
        let item: Scored = Scored {
            score,
            line_no,
            col,
            prefix: boxed_copy(prefix),
            line: boxed_copy(line),
        };
        let ghost e = item@;
        assert(e == Entry { score, line_no, col, prefix: prefix@, line: line@ });
        if self.heap.len() == self.k {
            let ghost before = self.heap@;
            let low: Scored = pop(&mut self.heap);
            proof {
                assert(old(self)@.is_lowest(low@)) by {
                    assert forall|x: Entry| #[trigger]
                        old(self)@.entries.contains(x) implies !ranks_below(x, low@) by {
                        lemma_among_values(before, x);
                        let i = choose|i: int|
                            0 <= i < before.len() && (#[trigger] before[i])@ == x;
                        lemma_first_is_lowest(before, i);
                    }
                }
            }
        }
        let ghost middle = self.heap@;
        push(&mut self.heap, item);
        proof {
            assert forall|i: int| 0 <= i < self.heap@.len() implies (#[trigger] self.heap@[i]).score
                > i32::MIN by {
                let x = self.heap@[i]@;
                lemma_among_values(self.heap@, x);
                if x != e {
                    assert(entries(middle).to_multiset().contains(x));
                    assert(old(self)@.entries.contains(x));
                }
            }
        }
        if self.heap.len() == self.k {
            self.cutoff = self.heap[0].score;
        }
        proof {
            offer_goes_by_score(old(self)@, e, self@);
        }
    }

    /// The kept matches, highest-ranking first.
    pub fn into_sorted_best_first(self) -> (r: Vec<Scored>)
        requires
            self.wf(),
        ensures
            entries(r@).to_multiset() == self@.entries,
            r@.len() == self@.entries.len() <= self@.limit,
            forall|i: int, j: int|
                0 <= i < j < r@.len() ==> !ranks_below((#[trigger] r@[i])@, (#[trigger] r@[j])@),
            forall|i: int, j: int|
                0 <= i < j < r@.len() ==> (#[trigger] r@[i]).score > (#[trigger] r@[j]).score
                    || r@[i].score == r@[j].score && !bytes_lt(r@[i].prefix@, r@[j].prefix@) && (
                r@[i].prefix@ == r@[j].prefix@ ==> r@[i].line_no >= r@[j].line_no),
    {
        let mut heap: Vec<Scored> = self.heap;
        let mut out: Vec<Scored> = Vec::with_capacity(heap.len());
        let ghost all = entries(heap@).to_multiset();
        proof {
            lemma_among_values(out@, arbitrary());
            assert(entries(out@).to_multiset() =~= Multiset::empty());
            assert(entries(out@).to_multiset().add(entries(heap@).to_multiset()) =~= all);
        }
        while heap.len() > 0
            invariant
                is_heap(heap@),
                entries(out@).to_multiset().add(entries(heap@).to_multiset()) == all,
                forall|i: int, j: int|
                    0 <= i < j < out@.len() ==> !ranks_below(
                        (#[trigger] out@[j])@,
                        (#[trigger] out@[i])@,
                    ),
                forall|i: int, j: int|
                    0 <= i < out@.len() && 0 <= j < heap@.len() ==> !ranks_below(
                        (#[trigger] heap@[j])@,
                        (#[trigger] out@[i])@,
                    ),
            decreases heap@.len(),
        {
            let ghost before = heap@;
            let ghost sorted = out@;
            let low: Scored = pop(&mut heap);
            out.push(low);
            proof {
                broadcast use vstd::seq_lib::group_to_multiset_ensures;
                assert(entries(out@) =~= entries(sorted).push(low@));
                assert(entries(out@).to_multiset().add(entries(heap@).to_multiset()) =~= all);
                assert forall|i: int, j: int|
                    0 <= i < out@.len() && 0 <= j < heap@.len() implies !ranks_below(
                    (#[trigger] heap@[j])@,
                    (#[trigger] out@[i])@,
                ) by {
                    let x = heap@[j]@;
                    lemma_among_values(heap@, x);
                    lemma_among_values(before, x);
                    let b = choose|b: int| 0 <= b < before.len() && (#[trigger] before[b])@ == x;
                    lemma_first_is_lowest(before, b);
                }
            }
        }
        proof {
            lemma_among_values(heap@, arbitrary());
            assert(entries(heap@).to_multiset() =~= Multiset::empty());
            assert(entries(out@).to_multiset() =~= all);
        }
        let ghost ascending = out@;
        reverse(&mut out);
        assert forall|i: int, j: int| 0 <= i < j < out@.len() implies !ranks_below(
            (#[trigger] out@[i])@,
            (#[trigger] out@[j])@,
        ) by {
            assert(out@[i] == ascending[ascending.len() - 1 - i]);
            assert(out@[j] == ascending[ascending.len() - 1 - j]);
        }
        proof {
            lemma_among_values(out@, arbitrary());
            self.lemma_wf();
        }
        out
    }
}

} // verus!
