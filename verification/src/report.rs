//! The order in which the results of a search are shown.

use vstd::prelude::*;

use crate::bytes::{
    bytes_lt, comes_before, first_difference_decides, lemma_bytes_lt_total,
    lemma_bytes_lt_transitive, prefix_comes_first, same_bytes,
};
use crate::heap::reverse;
use crate::topk::{Entry, Scored};

verus! {

/// `a` is shown before `b`: the higher score first, then the path that comes
/// first, then the lower line number.
pub open spec fn shown_before(a: Entry, b: Entry) -> bool {
    ||| a.score > b.score
    ||| a.score == b.score && bytes_lt(a.prefix, b.prefix)
    ||| a.score == b.score && a.prefix == b.prefix && a.line_no < b.line_no
}

/// The order of results does not tell `a` and `b` apart.
pub open spec fn same_place(a: Entry, b: Entry) -> bool {
    a.score == b.score && a.prefix == b.prefix && a.line_no == b.line_no
}

/// No result is shown before one that stands in front of it.
pub open spec fn in_order(s: Seq<Scored>) -> bool {
    forall|i: int, j: int|
        0 <= i < j < s.len() ==> !shown_before((#[trigger] s[j])@, (#[trigger] s[i])@)
}

/// The results of `s` in the same place as `at`, in the order of `s`.
pub open spec fn placed_as(s: Seq<Scored>, at: Entry) -> Seq<Scored> {
    s.filter(|x: Scored| same_place(x@, at))
}

/// Not to be shown before is transitive.
proof fn lemma_order_transitive(a: Entry, b: Entry, c: Entry)
    requires
        !shown_before(b, a),
        !shown_before(c, b),
    ensures
        !shown_before(c, a),
{
    lemma_bytes_lt_total(a.prefix, b.prefix);
    lemma_bytes_lt_total(b.prefix, c.prefix);
    lemma_bytes_lt_total(a.prefix, c.prefix);
    if bytes_lt(a.prefix, b.prefix) && bytes_lt(b.prefix, c.prefix) {
        lemma_bytes_lt_transitive(a.prefix, b.prefix, c.prefix);
    }
}

/// What is shown before is not shown after.
proof fn lemma_order_asymmetric(a: Entry, b: Entry)
    requires
        shown_before(a, b),
    ensures
        !shown_before(b, a),
{
    lemma_bytes_lt_total(a.prefix, b.prefix);
}

/// Whether `a` is shown before `b`.
fn is_before(a: &Scored, b: &Scored) -> (r: bool)
    ensures
        r == shown_before(a@, b@),
{
    if a.score != b.score {
        return a.score > b.score;
    }
    proof {
        lemma_bytes_lt_total(a.prefix@, b.prefix@);
    }
    if comes_before(&a.prefix, &b.prefix) {
        return true;
    }
    same_bytes(&a.prefix, &b.prefix) && a.line_no < b.line_no
}

/// A filter, one item at a time from either end.
proof fn lemma_filter_ends(s: Seq<Scored>, x: Scored, p: spec_fn(Scored) -> bool)
    ensures
        s.push(x).filter(p) == s.filter(p) + (if p(x) {
            seq![x]
        } else {
            Seq::empty()
        }),
        (seq![x] + s).filter(p) == (if p(x) {
            seq![x]
        } else {
            Seq::empty()
        }) + s.filter(p),
    decreases s.len(),
{
    reveal(Seq::filter);
    assert(s.push(x).drop_last() =~= s);
    assert(s.push(x).filter(p) =~= s.filter(p) + (if p(x) {
        seq![x]
    } else {
        Seq::empty()
    }));
    let front = seq![x] + s;
    if s.len() == 0 {
        assert(front.drop_last() =~= s);
        assert(front.filter(p) =~= (if p(x) {
            seq![x]
        } else {
            Seq::empty()
        }) + s.filter(p));
    } else {
        lemma_filter_ends(s.drop_last(), x, p);
        assert(front.drop_last() =~= seq![x] + s.drop_last());
        assert(front.filter(p) =~= (if p(x) {
            seq![x]
        } else {
            Seq::empty()
        }) + s.filter(p));
    }
}

/// Where `p` holds of no item, a filter leaves nothing.
proof fn lemma_filter_none(s: Seq<Scored>, p: spec_fn(Scored) -> bool)
    requires
        forall|i: int| 0 <= i < s.len() ==> !p(#[trigger] s[i]),
    ensures
        s.filter(p) == Seq::<Scored>::empty(),
    decreases s.len(),
{
    reveal(Seq::filter);
    if s.len() > 0 {
        assert(!p(s[s.len() - 1]));
        assert forall|i: int| 0 <= i < s.drop_last().len() implies !p(
            #[trigger] s.drop_last()[i],
        ) by {
            assert(!p(s[i]));
        }
        lemma_filter_none(s.drop_last(), p);
    }
}

/// Moving the last item of `a` or of `b` in front of `tail` keeps the results
/// of each place in order. The last item of `a` may move only if no item of `b`
/// is in its place.
proof fn lemma_item_moved(a: Seq<Scored>, b: Seq<Scored>, tail: Seq<Scored>, x: Scored, at: Entry)
    ensures
        placed_as(a, at) + placed_as(b.push(x), at) + placed_as(tail, at) == placed_as(a, at)
            + placed_as(b, at) + placed_as(seq![x] + tail, at),
        (forall|i: int| 0 <= i < b.len() ==> !same_place((#[trigger] b[i])@, x@)) ==> placed_as(
            a.push(x),
            at,
        ) + placed_as(b, at) + placed_as(tail, at) == placed_as(a, at) + placed_as(b, at)
            + placed_as(seq![x] + tail, at),
{
    let p = |y: Scored| same_place(y@, at);
    lemma_filter_ends(a, x, p);
    lemma_filter_ends(b, x, p);
    lemma_filter_ends(tail, x, p);
    assert(placed_as(a, at) + placed_as(b.push(x), at) + placed_as(tail, at) =~= placed_as(a, at)
        + placed_as(b, at) + placed_as(seq![x] + tail, at));
    if forall|i: int| 0 <= i < b.len() ==> !same_place((#[trigger] b[i])@, x@) {
        if p(x) {
            assert forall|i: int| 0 <= i < b.len() implies !p(#[trigger] b[i]) by {}
            lemma_filter_none(b, p);
        }
        assert(placed_as(a.push(x), at) + placed_as(b, at) + placed_as(tail, at) =~= placed_as(
            a,
            at,
        ) + placed_as(b, at) + placed_as(seq![x] + tail, at));
    }
}

/// Merges two ordered lists; of results in the same place those of `left` come
/// first.
fn merge(left: Vec<Scored>, right: Vec<Scored>) -> (r: Vec<Scored>)
    requires
        in_order(left@),
        in_order(right@),
    ensures
        in_order(r@),
        forall|at: Entry| #[trigger]
            placed_as(r@, at) == placed_as(left@, at) + placed_as(right@, at),
{
    let mut a: Vec<Scored> = left;
    let mut b: Vec<Scored> = right;
    let mut out: Vec<Scored> = Vec::new();
    proof {
        reveal(Seq::filter);
        assert(out@.reverse() =~= Seq::empty());
        assert forall|at: Entry| #[trigger] placed_as(left@, at) + placed_as(right@, at)
            == placed_as(a@, at) + placed_as(b@, at) + placed_as(out@.reverse(), at) by {
            assert(placed_as(out@.reverse(), at) =~= Seq::empty());
            assert(placed_as(left@, at) + placed_as(right@, at) =~= placed_as(a@, at) + placed_as(
                b@,
                at,
            ) + placed_as(out@.reverse(), at));
        }
    }
    while a.len() > 0 || b.len() > 0
        invariant
            in_order(a@),
            in_order(b@),
            in_order(out@.reverse()),
            forall|i: int, j: int|
                0 <= i < a@.len() && 0 <= j < out@.len() ==> !shown_before(
                    (#[trigger] out@[j])@,
                    (#[trigger] a@[i])@,
                ),
            forall|i: int, j: int|
                0 <= i < b@.len() && 0 <= j < out@.len() ==> !shown_before(
                    (#[trigger] out@[j])@,
                    (#[trigger] b@[i])@,
                ),
            forall|at: Entry| #[trigger]
                placed_as(left@, at) + placed_as(right@, at) == placed_as(a@, at) + placed_as(
                    b@,
                    at,
                ) + placed_as(out@.reverse(), at),
        decreases a@.len() + b@.len(),
    {
        let from_left: bool = if b.len() == 0 {
            true
        } else if a.len() == 0 {
            false
        } else {
            is_before(&b[b.len() - 1], &a[a.len() - 1])
        };
        let ghost a0 = a@;
        let ghost b0 = b@;
        let ghost out0 = out@;
        let popped: Option<Scored> = if from_left {
            a.pop()
        } else {
            b.pop()
        };
        if let Some(x) = popped {
            out.push(x);
            proof {
                assert(out@.reverse() =~= seq![x] + out0.reverse());
                if from_left {
                    assert(a0 =~= a@.push(x));
                    assert forall|i: int| 0 <= i < b0.len() implies shown_before(
                        (#[trigger] b0[i])@,
                        x@,
                    ) by {
                        let last = b0[b0.len() - 1];
                        if i < b0.len() - 1 {
                            assert(!shown_before(last@, b0[i]@));
                        }
                        if !shown_before(b0[i]@, x@) {
                            lemma_bytes_lt_total(x@.prefix, x@.prefix);
                            lemma_order_asymmetric(last@, x@);
                            if i < b0.len() - 1 {
                                lemma_order_transitive(x@, b0[i]@, last@);
                            }
                        }
                    }
                    assert forall|i: int| 0 <= i < b0.len() implies !same_place(
                        (#[trigger] b0[i])@,
                        x@,
                    ) && !shown_before(x@, b0[i]@) by {
                        assert(shown_before(b0[i]@, x@));
                        lemma_order_asymmetric(b0[i]@, x@);
                        lemma_bytes_lt_total(x@.prefix, x@.prefix);
                    }
                    assert forall|i: int| 0 <= i < a@.len() implies !shown_before(
                        x@,
                        (#[trigger] a@[i])@,
                    ) by {
                        assert(a0[i] == a@[i] && a0[a0.len() - 1] == x);
                    }
                } else {
                    assert(b0 =~= b@.push(x));
                    assert forall|i: int| 0 <= i < a0.len() implies !shown_before(
                        x@,
                        (#[trigger] a0[i])@,
                    ) by {
                        let last = a0[a0.len() - 1];
                        assert(!shown_before(x@, last@));
                        if i < a0.len() - 1 {
                            assert(!shown_before(last@, a0[i]@));
                            lemma_order_transitive(a0[i]@, last@, x@);
                        }
                    }
                    assert forall|i: int| 0 <= i < b@.len() implies !shown_before(
                        x@,
                        (#[trigger] b@[i])@,
                    ) by {
                        assert(b0[i] == b@[i] && b0[b0.len() - 1] == x);
                    }
                }
                assert(in_order(out@.reverse())) by {
                    let rev = out@.reverse();
                    let rev0 = out0.reverse();
                    assert forall|i: int, j: int| 0 <= i < j < rev.len() implies !shown_before(
                        (#[trigger] rev[j])@,
                        (#[trigger] rev[i])@,
                    ) by {
                        assert(rev[j] == rev0[j - 1]);
                        if i == 0 {
                            assert(rev0[j - 1] == out0[out0.len() - j]);
                        } else {
                            assert(rev[i] == rev0[i - 1]);
                        }
                    }
                }
                assert forall|at: Entry| #[trigger] placed_as(left@, at) + placed_as(right@, at)
                    == placed_as(a@, at) + placed_as(b@, at) + placed_as(out@.reverse(), at) by {
                    lemma_item_moved(a@, b@, out0.reverse(), x, at);
                }
            }
        }
    }
    reverse(&mut out);
    proof {
        assert forall|at: Entry| #[trigger] placed_as(out@, at) == placed_as(left@, at) + placed_as(
            right@,
            at,
        ) by {
            reveal(Seq::filter);
            assert(placed_as(left@, at) + placed_as(right@, at) == placed_as(a@, at) + placed_as(
                b@,
                at,
            ) + placed_as(out@, at));
            assert(placed_as(a@, at) + placed_as(b@, at) + placed_as(out@, at) =~= placed_as(
                out@,
                at,
            ));
        }
    }
    out
}

/// Puts the results in order; results in the same place stay in theirs.
fn sort(v: Vec<Scored>) -> (r: Vec<Scored>)
    ensures
        in_order(r@),
        forall|at: Entry| #[trigger] placed_as(r@, at) == placed_as(v@, at),
    decreases v@.len(),
{
    if v.len() <= 1 {
        return v;
    }
    let mid: usize = v.len() / 2;
    let ghost all = v@;
    let mut left: Vec<Scored> = v;
    let right: Vec<Scored> = left.split_off(mid);
    proof {
        assert(all =~= left@ + right@);
        assert forall|at: Entry| #[trigger] placed_as(all, at) == placed_as(left@, at) + placed_as(
            right@,
            at,
        ) by {
            Seq::filter_distributes_over_add(
                left@,
                right@,
                |x: Scored| same_place(x@, at),
            );
        }
    }
    merge(sort(left), sort(right))
}

/// The results with a positive score.
pub open spec fn positive(s: Seq<Scored>) -> Seq<Scored> {
    s.filter(|x: Scored| x.score > 0)
}

/// Drops the results without a positive score.
fn keep_positive(v: Vec<Scored>) -> (r: Vec<Scored>)
    ensures
        r@ == positive(v@),
{
    let mut rest: Vec<Scored> = v;
    let mut out: Vec<Scored> = Vec::new();
    proof {
        assert(positive(rest@) + out@.reverse() =~= positive(v@));
    }
    while rest.len() > 0
        invariant
            positive(rest@) + out@.reverse() == positive(v@),
        decreases rest@.len(),
    {
        let ghost rest0 = rest@;
        let ghost out0 = out@;
        if let Some(x) = rest.pop() {
            proof {
                assert(rest0 =~= rest@.push(x));
                lemma_filter_ends(rest@, x, |y: Scored| y.score > 0);
            }
            if x.score > 0 {
                out.push(x);
                assert(out@.reverse() =~= seq![x] + out0.reverse());
                assert(positive(rest@) + out@.reverse() =~= positive(rest0) + out0.reverse());
            } else {
                assert(positive(rest@) =~= positive(rest0));
            }
        }
    }
    reverse(&mut out);
    proof {
        reveal(Seq::filter);
        assert(positive(rest@) + out@ =~= out@);
    }
    out
}

/// The results as they are shown: those with a positive score, in order. Results
/// in the same place stay in the order that they have in `results`.
pub fn shown(results: Vec<Scored>) -> (r: Vec<Scored>)
    ensures
        in_order(r@),
        forall|at: Entry| #[trigger] placed_as(r@, at) == placed_as(positive(results@), at),
        r@.to_multiset() == positive(results@).to_multiset(),
        r@.len() == positive(results@).len() <= results@.len(),
        forall|i: int| 0 <= i < r@.len() ==> (#[trigger] r@[i]).score > 0,
        forall|x: Scored| #[trigger]
            r@.to_multiset().count(x) == if x.score > 0 {
                results@.to_multiset().count(x)
            } else {
                0
            },
        forall|i: int, j: int|
            0 <= i < j < r@.len() ==> (#[trigger] r@[i]).score > (#[trigger] r@[j]).score
                || r@[i].score == r@[j].score && (bytes_lt(r@[i].prefix@, r@[j].prefix@)
                || r@[i].prefix@ == r@[j].prefix@ && r@[i].line_no <= r@[j].line_no),
        forall|at: Entry| #[trigger]
            placed_as(r@, at) == results@.filter(
                |x: Scored|
                    x.score > 0 && x.score == at.score && x.prefix@ == at.prefix && x.line_no
                        == at.line_no,
            ),
{
    let r: Vec<Scored> = sort(keep_positive(results));
    proof {
        let kept = positive(results@);
        assert forall|x: Scored| r@.to_multiset().count(x) == kept.to_multiset().count(x) by {
            let p = |y: Scored| same_place(y@, x@);
            lemma_count_filtered(r@, x, p);
            lemma_count_filtered(kept, x, p);
            assert(placed_as(r@, x@) == placed_as(kept, x@));
        }
        assert(r@.to_multiset() =~= kept.to_multiset());
        broadcast use vstd::seq_lib::group_to_multiset_ensures;

        assert forall|x: Scored| #[trigger]
            r@.to_multiset().count(x) == if x.score > 0 {
            results@.to_multiset().count(x)
        } else {
            0
        } by {
            let p = |y: Scored| y.score > 0;
            if p(x) {
                lemma_count_filtered(results@, x, p);
            } else if kept.contains(x) {
                results@.lemma_filter_contains_rev(p, x);
            }
        }
        assert forall|at: Entry| #[trigger]
            placed_as(r@, at) == results@.filter(
            |x: Scored|
                x.score > 0 && x.score == at.score && x.prefix@ == at.prefix && x.line_no
                    == at.line_no,
        ) by {
            lemma_filter_twice(
                results@,
                |x: Scored| x.score > 0,
                |x: Scored| same_place(x@, at),
                |x: Scored|
                    x.score > 0 && x.score == at.score && x.prefix@ == at.prefix && x.line_no
                        == at.line_no,
            );
        }
        assert forall|i: int, j: int| 0 <= i < j < r@.len() implies (#[trigger] r@[i]).score > (
        #[trigger] r@[j]).score || r@[i].score == r@[j].score && (bytes_lt(
            r@[i].prefix@,
            r@[j].prefix@,
        ) || r@[i].prefix@ == r@[j].prefix@ && r@[i].line_no <= r@[j].line_no) by {
            assert(!shown_before(r@[j]@, r@[i]@));
            lemma_bytes_lt_total(r@[i].prefix@, r@[j].prefix@);
        }
        results@.lemma_filter_len(|x: Scored| x.score > 0);
        assert(r@.to_multiset().len() == r@.len() && kept.to_multiset().len() == kept.len());
        assert forall|i: int| 0 <= i < r@.len() implies (#[trigger] r@[i]).score > 0 by {
            assert(r@.contains(r@[i]));
            assert(kept.to_multiset().contains(r@[i]));
            assert(kept.contains(r@[i]));
            results@.lemma_filter_contains_rev(|x: Scored| x.score > 0, r@[i]);
        }
    }
    r
}

/// Two filters, one after the other, are one.
proof fn lemma_filter_twice(
    s: Seq<Scored>,
    p: spec_fn(Scored) -> bool,
    q: spec_fn(Scored) -> bool,
    both: spec_fn(Scored) -> bool,
)
    requires
        forall|x: Scored| #[trigger] both(x) == (p(x) && q(x)),
    ensures
        s.filter(p).filter(q) == s.filter(both),
    decreases s.len(),
{
    reveal(Seq::filter);
    if s.len() > 0 {
        let head = s.drop_last();
        lemma_filter_twice(head, p, q, both);
        lemma_filter_ends(head.filter(p), s.last(), q);
        assert(both(s.last()) == (p(s.last()) && q(s.last())));
        assert(s.filter(p).filter(q) =~= s.filter(both));
    }
}

/// How two results are ordered: the higher score first; for the same score by
/// the first byte in which the paths differ, or the shorter path where there is
/// none; for the same path by line number.
pub proof fn order_goes_by_score_path_line(a: Entry, b: Entry, i: int)
    ensures
        a.score > b.score ==> shown_before(a, b) && !shown_before(b, a),
        a.score == b.score && 0 <= i < a.prefix.len() && i < b.prefix.len() && a.prefix.take(i)
            == b.prefix.take(i) && a.prefix[i] < b.prefix[i] ==> shown_before(a, b)
            && !shown_before(b, a),
        a.score == b.score && a.prefix.len() < b.prefix.len() && a.prefix == b.prefix.take(
            a.prefix.len() as int,
        ) ==> shown_before(a, b) && !shown_before(b, a),
        a.score == b.score && a.prefix == b.prefix ==> (shown_before(a, b) <==> a.line_no
            < b.line_no),
        same_place(a, b) <==> a.score == b.score && a.prefix == b.prefix && a.line_no == b.line_no,
        same_place(a, b) <==> !shown_before(a, b) && !shown_before(b, a),
{
    lemma_bytes_lt_total(a.prefix, a.prefix);
    lemma_bytes_lt_total(a.prefix, b.prefix);
    if a.score == b.score {
        if 0 <= i < a.prefix.len() && i < b.prefix.len() && a.prefix.take(i) == b.prefix.take(i)
            && a.prefix[i] < b.prefix[i] {
            first_difference_decides(a.prefix, b.prefix, i);
        }
        if a.prefix.len() < b.prefix.len() && a.prefix == b.prefix.take(a.prefix.len() as int) {
            prefix_comes_first(a.prefix, b.prefix);
        }
    }
}

/// Results are in order exactly if each may stand before the next; and exactly
/// those with a score above zero are positive, in the order that they have.
pub proof fn order_and_sign_by_parts(s: Seq<Scored>, t: Seq<Scored>, x: Scored)
    ensures
        in_order(s.push(x)) <==> in_order(s) && (s.len() > 0 ==> !shown_before(x@, s.last()@)),
        in_order(Seq::empty()),
        positive(s + t) == positive(s) + positive(t),
        positive(seq![x]) == if x.score > 0 {
            seq![x]
        } else {
            Seq::empty()
        },
{
    let p = |y: Scored| y.score > 0;
    Seq::filter_distributes_over_add(s, t, p);
    lemma_filter_ends(Seq::empty(), x, p);
    reveal(Seq::filter);
    assert(Seq::<Scored>::empty().push(x) =~= seq![x]);
    assert(Seq::<Scored>::empty().filter(p) =~= Seq::empty());
    assert(positive(seq![x]) =~= if x.score > 0 {
        seq![x]
    } else {
        Seq::empty()
    });
    let longer = s.push(x);
    if in_order(longer) {
        assert forall|i: int, j: int| 0 <= i < j < s.len() implies !shown_before(
            (#[trigger] s[j])@,
            (#[trigger] s[i])@,
        ) by {
            assert(longer[i] == s[i] && longer[j] == s[j]);
        }
        if s.len() > 0 {
            assert(longer[s.len() - 1] == s.last() && longer[s.len() as int] == x);
        }
    }
    if in_order(s) && (s.len() > 0 ==> !shown_before(x@, s.last()@)) {
        assert forall|i: int, j: int| 0 <= i < j < longer.len() implies !shown_before(
            (#[trigger] longer[j])@,
            (#[trigger] longer[i])@,
        ) by {
            assert(longer[i] == s[i]);
            if j < s.len() {
                assert(longer[j] == s[j]);
            } else if i < s.len() - 1 {
                assert(!shown_before(s[s.len() - 1]@, s[i]@));
                lemma_order_transitive(s[i]@, s.last()@, x@);
            }
        }
    }
}

/// A filter keeps every occurrence of what passes it.
proof fn lemma_count_filtered(s: Seq<Scored>, x: Scored, p: spec_fn(Scored) -> bool)
    requires
        p(x),
    ensures
        s.filter(p).to_multiset().count(x) == s.to_multiset().count(x),
    decreases s.len(),
{
    broadcast use vstd::seq_lib::group_to_multiset_ensures;

    reveal(Seq::filter);
    if s.len() > 0 {
        let head = s.drop_last();
        lemma_count_filtered(head, x, p);
        assert(s =~= head.push(s.last()));
    }
}

/// The contract of `shown` fixes the order: two ordered lists with the same
/// results in each place are the same.
pub proof fn order_is_fixed(a: Seq<Scored>, b: Seq<Scored>)
    requires
        in_order(a),
        in_order(b),
        forall|at: Entry| #[trigger] placed_as(a, at) == placed_as(b, at),
    ensures
        a == b,
    decreases a.len(),
{
    if a.len() == 0 {
        if b.len() > 0 {
            let x = b.last();
            lemma_last_is_placed(b);
            reveal(Seq::filter);
            assert(placed_as(a, x@).len() == 0);
        }
        assert(a =~= b);
    } else {
        let x = a.last();
        lemma_last_is_placed(a);
        if b.len() == 0 {
            reveal(Seq::filter);
            assert(placed_as(b, x@).len() == 0);
        }
        let y = b.last();
        lemma_last_is_placed(b);
        assert(placed_as(b, x@).last() == x);
        assert(placed_as(a, y@).last() == y);
        let i = lemma_placed_is_there(b, x@);
        let j = lemma_placed_is_there(a, y@);
        lemma_bytes_lt_total(x@.prefix, y@.prefix);
        lemma_bytes_lt_total(x@.prefix, x@.prefix);
        assert(!shown_before(y@, x@)) by {
            if i < b.len() - 1 {
                assert(!shown_before(b[b.len() - 1]@, b[i]@));
            }
        }
        assert(!shown_before(x@, y@)) by {
            if j < a.len() - 1 {
                assert(!shown_before(a[a.len() - 1]@, a[j]@));
            }
        }
        assert(same_place(x@, y@));
        assert(placed_as(b, y@).last() == y);
        assert(placed_as(b, x@) =~= placed_as(b, y@)) by {
            lemma_filter_alike(b, x@, y@);
        }
        assert(x == y);
        let a1 = a.drop_last();
        let b1 = b.drop_last();
        assert(a =~= a1.push(x) && b =~= b1.push(x));
        assert forall|at: Entry| #[trigger] placed_as(a1, at) == placed_as(b1, at) by {
            let p = |z: Scored| same_place(z@, at);
            lemma_filter_ends(a1, x, p);
            lemma_filter_ends(b1, x, p);
            assert(placed_as(a, at) == placed_as(b, at));
            if p(x) {
                assert(placed_as(a1, at) =~= placed_as(a, at).drop_last());
                assert(placed_as(b1, at) =~= placed_as(b, at).drop_last());
            } else {
                assert(placed_as(a1, at) =~= placed_as(a, at));
                assert(placed_as(b1, at) =~= placed_as(b, at));
            }
        }
        order_is_fixed(a1, b1);
    }
}

/// The last result of a list is the last in its place.
proof fn lemma_last_is_placed(s: Seq<Scored>)
    ensures
        s.len() > 0 ==> placed_as(s, s.last()@).len() > 0 && placed_as(s, s.last()@).last()
            == s.last(),
{
    reveal(Seq::filter);
}

/// Where a place is taken in a list, some result of the list is in it.
proof fn lemma_placed_is_there(s: Seq<Scored>, at: Entry) -> (i: int)
    requires
        placed_as(s, at).len() > 0,
    ensures
        0 <= i < s.len(),
        same_place(s[i]@, at),
{
    if forall|i: int| 0 <= i < s.len() ==> !same_place((#[trigger] s[i])@, at) {
        let p = |x: Scored| same_place(x@, at);
        assert forall|i: int| 0 <= i < s.len() implies !p(#[trigger] s[i]) by {}
        lemma_filter_none(s, p);
    }
    choose|i: int| 0 <= i < s.len() && same_place((#[trigger] s[i])@, at)
}

/// Entries in the same place stand for the same place.
proof fn lemma_filter_alike(s: Seq<Scored>, a: Entry, b: Entry)
    requires
        same_place(a, b),
    ensures
        placed_as(s, a) == placed_as(s, b),
    decreases s.len(),
{
    reveal(Seq::filter);
    if s.len() > 0 {
        lemma_filter_alike(s.drop_last(), a, b);
    }
}

} // verus!
