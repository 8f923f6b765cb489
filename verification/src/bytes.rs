//! Byte classes, byte searches, and the lexicographic order on byte strings.

use vstd::prelude::*;

verus! {

/// The line feed.
pub const NEWLINE: u8 = 0x0a;

/// The carriage return.
pub const CARRIAGE_RETURN: u8 = 0x0d;

/// The digit zero.
pub const DIGIT_ZERO: u8 = 0x30;

/// The colon.
pub const COLON: u8 = 0x3a;

/// `b` is an ASCII upper-case letter.
#[verifier::allow_in_spec]
pub fn is_upper(b: u8) -> bool
    returns
        0x41 <= b <= 0x5a,
{
    0x41 <= b && b <= 0x5a
}

/// `b` is an ASCII lower-case letter.
#[verifier::allow_in_spec]
pub fn is_lower(b: u8) -> bool
    returns
        0x61 <= b <= 0x7a,
{
    0x61 <= b && b <= 0x7a
}

/// `b` is an ASCII letter or digit.
#[verifier::allow_in_spec]
pub fn is_alphanumeric(b: u8) -> bool
    returns
        is_upper(b) || is_lower(b) || 0x30 <= b <= 0x39,
{
    is_upper(b) || is_lower(b) || (0x30 <= b && b <= 0x39)
}

/// `b` with an ASCII upper-case letter turned into its lower-case letter.
#[verifier::allow_in_spec]
pub fn to_lower(b: u8) -> u8
    returns
        (if is_upper(b) {
            (b + 0x20) as u8
        } else {
            b
        }),
{
    if is_upper(b) {
        b + 0x20
    } else {
        b
    }
}

/// `b` with an ASCII lower-case letter turned into its upper-case letter.
#[verifier::allow_in_spec]
pub fn to_upper(b: u8) -> u8
    returns
        (if is_lower(b) {
            (b - 0x20) as u8
        } else {
            b
        }),
{
    if is_lower(b) {
        b - 0x20
    } else {
        b
    }
}

/// Every byte of `s` in lower case.
pub open spec fn lowered(s: Seq<u8>) -> Seq<u8> {
    s.map_values(|b: u8| to_lower(b))
}

/// Every byte of `s` in upper case.
pub open spec fn uppered(s: Seq<u8>) -> Seq<u8> {
    s.map_values(|b: u8| to_upper(b))
}

/// Some byte of `s` is an ASCII upper-case letter.
pub open spec fn has_upper(s: Seq<u8>) -> bool {
    exists|i: int| 0 <= i < s.len() && is_upper(#[trigger] s[i])
}

/// Every byte of `s` is ASCII.
pub open spec fn all_ascii(s: Seq<u8>) -> bool {
    forall|i: int| 0 <= i < s.len() ==> #[trigger] s[i] < 0x80
}

/// `s` starts with `head`.
pub open spec fn has_prefix(s: Seq<u8>, head: Seq<u8>) -> bool {
    head.len() <= s.len() && s.subrange(0, head.len() as int) == head
}

/// The lower-case copy of `s`.
pub fn lower_copy(s: &[u8]) -> (r: Vec<u8>)
    ensures
        r@ == lowered(s@),
        r@.len() == s@.len(),
        forall|i: int|
            0 <= i < s@.len() ==> #[trigger] r@[i] == if 0x41 <= s@[i] <= 0x5a {
                s@[i] + 0x20
            } else {
                s@[i] as int
            },
{
    let mut out: Vec<u8> = Vec::with_capacity(s.len());
    let mut i: usize = 0;
    while i < s.len()
        invariant
            i <= s@.len(),
            out@.len() == i,
            forall|j: int| 0 <= j < i ==> #[trigger] out@[j] == to_lower(s@[j]),
        decreases s@.len() - i,
    {
        out.push(to_lower(s[i]));
        i += 1;
    }
    assert(out@ =~= lowered(s@));
    out
}

/// Whether `s` starts with `head`.
pub fn starts_with(s: &[u8], head: &[u8]) -> (r: bool)
    ensures
        r == has_prefix(s@, head@),
        r == (head@.len() <= s@.len() && forall|i: int|
            0 <= i < head@.len() ==> #[trigger] s@[i] == head@[i]),
{
    if head.len() > s.len() {
        return false;
    }
    let mut i: usize = 0;
    while i < head.len()
        invariant
            i <= head@.len() <= s@.len(),
            forall|j: int| 0 <= j < i ==> #[trigger] s@[j] == head@[j],
        decreases head@.len() - i,
    {
        if s[i] != head[i] {
            assert(s@.subrange(0, head@.len() as int)[i as int] != head@[i as int]);
            assert(s@[i as int] != head@[i as int]);
            return false;
        }
        i += 1;
    }
    assert(s@.subrange(0, head@.len() as int) =~= head@);
    true
}

/// Appends the bytes of `tail` to `out`.
pub fn append(out: &mut Vec<u8>, tail: &[u8])
    ensures
        final(out)@ == old(out)@ + tail@,
{
    out.extend_from_slice(tail);
    assert(out@ =~= old(out)@ + tail@);
}

/// `a` comes before `b` in the lexicographic order.
pub open spec fn bytes_lt(a: Seq<u8>, b: Seq<u8>) -> bool
    decreases a.len(),
{
    if b.len() == 0 {
        false
    } else if a.len() == 0 {
        true
    } else if a[0] != b[0] {
        a[0] < b[0]
    } else {
        bytes_lt(a.drop_first(), b.drop_first())
    }
}

/// Of two byte strings, one comes first, unless they are the same.
pub proof fn lemma_bytes_lt_total(a: Seq<u8>, b: Seq<u8>)
    ensures
        bytes_lt(a, b) ==> !bytes_lt(b, a) && a != b,
        bytes_lt(a, b) || bytes_lt(b, a) || a == b,
    decreases a.len(),
{
    if a.len() > 0 && b.len() > 0 && a[0] == b[0] {
        lemma_bytes_lt_total(a.drop_first(), b.drop_first());
        if a.drop_first() == b.drop_first() {
            assert(a =~= seq![a[0]] + a.drop_first());
            assert(b =~= seq![b[0]] + b.drop_first());
        }
    } else if a.len() == 0 && b.len() == 0 {
        assert(a =~= b);
    }
}

/// The lexicographic order is transitive.
pub proof fn lemma_bytes_lt_transitive(a: Seq<u8>, b: Seq<u8>, c: Seq<u8>)
    requires
        bytes_lt(a, b),
        bytes_lt(b, c),
    ensures
        bytes_lt(a, c),
    decreases a.len(),
{
    if a.len() > 0 && a[0] == b[0] && b[0] == c[0] {
        lemma_bytes_lt_transitive(a.drop_first(), b.drop_first(), c.drop_first());
    }
}

/// The first byte in which two byte strings differ decides which comes first,
/// whatever their lengths.
pub proof fn first_difference_decides(a: Seq<u8>, b: Seq<u8>, i: int)
    requires
        0 <= i < a.len(),
        i < b.len(),
        a.take(i) == b.take(i),
        a[i] != b[i],
    ensures
        bytes_lt(a, b) <==> a[i] < b[i],
        bytes_lt(b, a) <==> b[i] < a[i],
    decreases i,
{
    if i > 0 {
        assert(a.take(i)[0] == a[0] && b.take(i)[0] == b[0]);
        assert(a.drop_first().take(i - 1) =~= a.take(i).drop_first());
        assert(b.drop_first().take(i - 1) =~= b.take(i).drop_first());
        first_difference_decides(a.drop_first(), b.drop_first(), i - 1);
    }
}

/// A byte string comes before those that it is a proper prefix of, and not
/// before itself.
pub proof fn prefix_comes_first(a: Seq<u8>, b: Seq<u8>)
    requires
        a.len() <= b.len(),
        a == b.take(a.len() as int),
    ensures
        bytes_lt(a, b) <==> a.len() < b.len(),
        !bytes_lt(b, a),
    decreases a.len(),
{
    if a.len() > 0 {
        assert(a.drop_first() =~= b.drop_first().take(a.len() - 1));
        prefix_comes_first(a.drop_first(), b.drop_first());
    }
}

/// The classes of bytes, and the two cases of a letter, by value.
pub proof fn classes_by_value(b: u8)
    ensures
        is_upper(b) <==> 0x41 <= b <= 0x5a,
        is_lower(b) <==> 0x61 <= b <= 0x7a,
        is_alphanumeric(b) <==> 0x30 <= b <= 0x39 || 0x41 <= b <= 0x5a || 0x61 <= b <= 0x7a,
        to_lower(b) == if 0x41 <= b <= 0x5a {
            b + 0x20
        } else {
            b as int
        },
        to_upper(b) == if 0x61 <= b <= 0x7a {
            b - 0x20
        } else {
            b as int
        },
{
}

/// Exactly the letters have two cases, and each case leads back to the other.
pub proof fn cases_are_paired(b: u8)
    ensures
        is_upper(b) <==> to_lower(b) != b,
        is_lower(b) <==> to_upper(b) != b,
        is_upper(b) ==> to_upper(to_lower(b)) == b,
        is_lower(b) ==> to_lower(to_upper(b)) == b,
        to_lower(to_lower(b)) == to_lower(b),
        to_upper(to_upper(b)) == to_upper(b),
        is_alphanumeric(to_lower(b)) == is_alphanumeric(b),
        is_alphanumeric(to_upper(b)) == is_alphanumeric(b),
{
}

/// Byte strings in one case are made byte by byte.
pub proof fn case_goes_byte_by_byte(s: Seq<u8>, i: int)
    requires
        0 <= i < s.len(),
    ensures
        lowered(s).len() == s.len(),
        uppered(s).len() == s.len(),
        lowered(s)[i] == if 0x41 <= s[i] <= 0x5a {
            s[i] + 0x20
        } else {
            s[i] as int
        },
        uppered(s)[i] == if 0x61 <= s[i] <= 0x7a {
            s[i] - 0x20
        } else {
            s[i] as int
        },
{
}

/// A byte string holds an upper-case letter, or is ASCII, exactly if one of two
/// parts does, or both are; single bytes decide by their value.
pub proof fn bytes_decide_alone(s: Seq<u8>, t: Seq<u8>, b: u8)
    ensures
        has_upper(seq![b]) <==> 0x41 <= b <= 0x5a,
        all_ascii(seq![b]) <==> b < 0x80,
        !has_upper(Seq::empty()),
        all_ascii(Seq::empty()),
        has_upper(s + t) <==> has_upper(s) || has_upper(t),
        all_ascii(s + t) <==> all_ascii(s) && all_ascii(t),
        has_prefix(s + t, s),
        has_prefix(t, s) ==> t == s + t.skip(s.len() as int),
{
    assert(seq![b][0] == b);
    let st = s + t;
    assert forall|i: int| 0 <= i < s.len() implies #[trigger] s[i] == st[i] by {}
    assert forall|i: int| 0 <= i < t.len() implies #[trigger] t[i] == st[s.len() + i] by {}
    if has_upper(s) {
        let i = choose|i: int| 0 <= i < s.len() && is_upper(#[trigger] s[i]);
        assert(is_upper(st[i]));
    }
    if has_upper(t) {
        let i = choose|i: int| 0 <= i < t.len() && is_upper(#[trigger] t[i]);
        assert(is_upper(st[s.len() + i]));
    }
    if has_upper(st) {
        let i = choose|i: int| 0 <= i < st.len() && is_upper(#[trigger] st[i]);
        if i < s.len() {
            assert(is_upper(s[i]));
        } else {
            assert(is_upper(t[i - s.len()]));
        }
    }
    if all_ascii(s) && all_ascii(t) {
        assert forall|i: int| 0 <= i < st.len() implies #[trigger] st[i] < 0x80 by {
            if i < s.len() {
                assert(s[i] < 0x80);
            } else {
                assert(t[i - s.len()] < 0x80);
            }
        }
    }
    if all_ascii(st) {
        assert forall|i: int| 0 <= i < s.len() implies #[trigger] s[i] < 0x80 by {
            assert(st[i] < 0x80);
        }
        assert forall|i: int| 0 <= i < t.len() implies #[trigger] t[i] < 0x80 by {
            assert(st[s.len() + i] < 0x80);
        }
    }
    assert(st.subrange(0, s.len() as int) =~= s);
    if has_prefix(t, s) {
        assert(t =~= t.subrange(0, s.len() as int) + t.skip(s.len() as int));
    }
}

/// Whether `a` comes before `b` in the lexicographic order.
#[verifier::loop_isolation(false)]
pub fn comes_before(a: &[u8], b: &[u8]) -> (r: bool)
    ensures
        r == bytes_lt(a@, b@),
        forall|i: int|
            0 <= i < a@.len() && i < b@.len() && #[trigger] a@.take(i) == b@.take(i) && a@[i]
                != b@[i] ==> r == (a@[i] < b@[i]),
        a@.len() < b@.len() && a@ == b@.take(a@.len() as int) ==> r,
        b@.len() <= a@.len() && b@ == a@.take(b@.len() as int) ==> !r,
{
    proof {
        assert forall|i: int|
            0 <= i < a@.len() && i < b@.len() && #[trigger] a@.take(i) == b@.take(i) && a@[i]
                != b@[i] implies bytes_lt(a@, b@) == (a@[i] < b@[i]) by {
            first_difference_decides(a@, b@, i);
        }
        if a@.len() < b@.len() && a@ == b@.take(a@.len() as int) {
            prefix_comes_first(a@, b@);
        }
        if b@.len() <= a@.len() && b@ == a@.take(b@.len() as int) {
            prefix_comes_first(b@, a@);
        }
    }
    let mut i: usize = 0;
    assert(a@.skip(0) =~= a@ && b@.skip(0) =~= b@);
    while i < a.len() && i < b.len()
        invariant
            i <= a@.len(),
            i <= b@.len(),
            bytes_lt(a@, b@) == bytes_lt(a@.skip(i as int), b@.skip(i as int)),
        decreases a@.len() - i,
    {
        if a[i] != b[i] {
            return a[i] < b[i];
        }
        assert(a@.skip(i as int).drop_first() =~= a@.skip(i + 1));
        assert(b@.skip(i as int).drop_first() =~= b@.skip(i + 1));
        i += 1;
    }
    i < b.len()
}

/// Whether `a` and `b` hold the same bytes.
pub fn same_bytes(a: &[u8], b: &[u8]) -> (r: bool)
    ensures
        r == (a@ == b@),
{
    if a.len() != b.len() {
        return false;
    }
    let mut i: usize = 0;
    while i < a.len()
        invariant
            i <= a@.len() == b@.len(),
            forall|j: int| 0 <= j < i ==> #[trigger] a@[j] == b@[j],
        decreases a@.len() - i,
    {
        if a[i] != b[i] {
            return false;
        }
        i += 1;
    }
    assert(a@ =~= b@);
    true
}

/// Calls `<Box<[u8]> as From<&[u8]>>::from` of std: a copy of `bytes` on the
/// heap.
#[verifier::external_body]
pub(crate) fn boxed_copy(bytes: &[u8]) -> (r: Box<[u8]>)
    ensures
        r@ == bytes@,
{
    bytes.into()
}

/// Calls `memchr::memchr`: the first position of `needle` in `haystack`, or
/// `None` where the byte does not occur.
#[verifier::external_body]
pub(crate) fn find_byte(needle: u8, haystack: &[u8]) -> (r: Option<usize>)
    ensures
        match r {
            Some(p) => {
                &&& p < haystack@.len()
                &&& haystack@[p as int] == needle
                &&& forall|j: int| 0 <= j < p ==> #[trigger] haystack@[j] != needle
            },
            None => forall|j: int| 0 <= j < haystack@.len() ==> #[trigger] haystack@[j] != needle,
        },
{
    memchr::memchr(needle, haystack)
}

/// Calls `memchr::memchr2`: the first position in `haystack` that holds
/// `needle1` or `needle2`, or `None` where neither byte occurs.
#[verifier::external_body]
pub(crate) fn find_either(needle1: u8, needle2: u8, haystack: &[u8]) -> (r: Option<usize>)
    ensures
        match r {
            Some(p) => {
                &&& p < haystack@.len()
                &&& haystack@[p as int] == needle1 || haystack@[p as int] == needle2
                &&& forall|j: int|
                    0 <= j < p ==> #[trigger] haystack@[j] != needle1 && haystack@[j] != needle2
            },
            None => forall|j: int|
                0 <= j < haystack@.len() ==> #[trigger] haystack@[j] != needle1 && haystack@[j]
                    != needle2,
        },
{
    memchr::memchr2(needle1, needle2, haystack)
}

/// Calls `memchr::memchr_iter` and collects it: the positions of `needle` in
/// `haystack`, each of them once, in ascending order.
#[verifier::external_body]
pub(crate) fn find_all(needle: u8, haystack: &[u8]) -> (r: Vec<usize>)
    ensures
        forall|i: int, j: int| 0 <= i < j < r@.len() ==> r@[i] < r@[j],
        forall|i: int|
            0 <= i < r@.len() ==> #[trigger] r@[i] < haystack@.len() && haystack@[r@[i] as int]
                == needle,
        forall|p: int|
            0 <= p < haystack@.len() && #[trigger] haystack@[p] == needle ==> r@.contains(
                p as usize,
            ),
{
    memchr::memchr_iter(needle, haystack).collect()
}

} // verus!
