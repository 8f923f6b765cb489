use fuz::matcher::Matcher;
use fuz::scoring::{boundary_at, score_alignment, LITERAL_BASE, TOP_SCORE};

fn best(needle: &str, hay: &[u8]) -> Option<(i32, usize)> {
    Matcher::new(needle).match_score(hay)
}

#[test]
fn literal_scores_are_exact() {
    assert_eq!(best("foo", b"foo"), Some((1029, 0)));
    assert_eq!(best("foo", b"xfoo"), Some((1024, 1)));
    assert_eq!(best("foo", b"xfoo foo"), Some((1029, 5)));
    assert_eq!((LITERAL_BASE, TOP_SCORE), (1024, 1029));
}

#[test]
fn subsequence_scores_are_exact() {
    // One boundary, two bytes of excess spread, within one word.
    assert_eq!(best("pttrn", b"pattern"), Some((64 + 5 - 2, 0)));
    // No boundary, three bytes of excess spread, within one word.
    assert_eq!(best("medtl", b"immediately"), Some((64 - 3, 2)));
    // Three boundaries, two bytes of excess spread, across words.
    assert_eq!(best("abc", b"a-b-c"), Some((15 - 2, 0)));
    // Three boundaries, five bytes of excess spread, within one word.
    assert_eq!(best("gun", b"getUserName"), Some((64 + 15 - 5, 0)));
}

#[test]
fn equal_scores_go_to_the_left() {
    assert_eq!(best("foo", b"xfooxfoo"), Some((1024, 1)));
    assert_eq!(best("ab", b"axb axb"), Some((64 + 5 - 1, 0)));
}

#[test]
fn single_byte_needle_is_literal() {
    assert_eq!(best("b", b"abc b"), Some((1029, 4)));
    assert_eq!(best("b", b"abc"), Some((1024, 1)));
}

#[test]
fn needle_longer_than_haystack_does_not_match() {
    assert_eq!(best("abc", b"ab"), None);
    assert_eq!(best("a", b""), None);
}

#[test]
fn lower_and_upper_case_throughout_score_alike() {
    for hay in ["some_long name.txt", "x-medtl immediately", "rqrs requires"] {
        let m = Matcher::new("med");
        let lower = hay.to_ascii_lowercase();
        let upper = hay.to_ascii_uppercase();
        assert_eq!(m.match_score(lower.as_bytes()), m.match_score(upper.as_bytes()));
    }
}

#[test]
fn case_decides_only_for_a_needle_with_upper_case() {
    assert!(best("éx", "ÉX".as_bytes()).is_none());
    assert!(best("éx", "éX".as_bytes()).is_some());
    assert!(best("éX", "éx".as_bytes()).is_none());
    assert!(best("éX", "éX".as_bytes()).is_some());
    assert_eq!(best("é", "aé".as_bytes()), Some((1024, 1)));
    assert_eq!(best("é", " é".as_bytes()), Some((1029, 1)));
}

#[test]
fn non_letters_have_no_other_case() {
    assert!(best("@", b"`").is_none());
    assert!(best("[", b"{").is_none());
    assert!(best("{", b"[").is_none());
}

#[test]
fn matcher_fields_follow_the_needle() {
    let m = Matcher::new("aBca");
    assert!(m.case_sensitive && m.ascii_only);
    assert_eq!((m.lo.as_slice(), m.hi.as_slice()), (&b"aBca"[..], &b"aBca"[..]));
    assert_eq!((m.unique_lo.as_slice(), m.unique_hi.as_slice()), (&b"aBc"[..], &b"aBc"[..]));
    let m = Matcher::new("a.ba");
    assert!(!m.case_sensitive && m.ascii_only);
    assert_eq!((m.lo.as_slice(), m.hi.as_slice()), (&b"a.ba"[..], &b"A.BA"[..]));
    assert_eq!((m.unique_lo.as_slice(), m.unique_hi.as_slice()), (&b"a.b"[..], &b"A.B"[..]));
}

#[test]
fn prefilter_of_empty_needle_passes() {
    assert!(Matcher::new("").prefilter_passes(b""));
    assert!(!Matcher::new("a").prefilter_passes(b""));
    assert!(Matcher::new("é").prefilter_passes("xé".as_bytes()));
}

#[test]
fn boundaries_are_told_apart() {
    let hay = b"aB c_dE1F2g";
    let at: Vec<usize> = (0..hay.len()).filter(|&p| boundary_at(hay, p)).collect();
    assert_eq!(at, vec![0, 1, 3, 5, 6]);
}

#[test]
fn alignment_scores_are_exact() {
    assert_eq!(score_alignment(3, 4, 6, 1, true, true), 1029);
    assert_eq!(score_alignment(3, 4, 6, 1, false, false), 1024);
    assert_eq!(score_alignment(3, 4, 9, 2, true, true), 64 + 10 - 3);
    assert_eq!(score_alignment(3, 4, 9, 2, true, false), 10 - 3);
    assert_eq!(score_alignment(2, 0, 200, 0, false, false), -199);
}

#[test]
fn scores_out_of_range_saturate() {
    assert_eq!(score_alignment(1, 0, usize::MAX, 0, false, true), i32::MIN);
    assert_eq!(score_alignment(1, 0, 1, usize::MAX, false, true), i32::MAX);
}

#[test]
fn a_long_needle_can_outscore_a_buried_literal() {
    let mut needle = ".".repeat(192);
    needle.push('A');
    let mut loose = ".".repeat(192).into_bytes();
    loose.extend_from_slice(b"bA");
    let mut buried = b"b".to_vec();
    buried.extend_from_slice(needle.as_bytes());
    assert_eq!(best(&needle, &loose), Some((64 + 5 * 193 - 1, 0)));
    assert_eq!(best(&needle, &buried), Some((1024, 1)));
    let short = needle[1..].to_string();
    assert_eq!(best(&short, &loose[1..]).map(|r| r.0), Some(1023));
}

#[test]
fn a_literal_beats_the_rest_in_one_line() {
    assert_eq!(best("abc", b"a-b-c a-bc xabcx").map(|r| r.1), Some(12));
}

#[test]
fn a_literal_at_a_boundary_ends_the_search() {
    let mut needle = ".".repeat(193);
    needle.push('A');
    let mut hay = ".".repeat(193).into_bytes();
    hay.extend_from_slice(b"bA");
    assert_eq!(best(&needle, &hay), Some((64 + 5 * 194 - 1, 0)));
    hay.extend_from_slice(b" ");
    hay.extend_from_slice(needle.as_bytes());
    assert_eq!(best(&needle, &hay), Some((1029, 196)));
}

#[test]
fn a_match_across_words_needs_boundaries_to_be_positive() {
    assert_eq!(best("ab", b"xa-xxxb"), Some((-4, 1)));
    assert_eq!(best("ab", b"xa-xx b"), Some((1, 1)));
    assert_eq!(best("ab", b"xaxxxxb"), Some((60, 1)));
}

#[test]
fn only_a_literal_ends_the_search() {
    let mut needle = ".".repeat(193);
    needle.push('A');
    let mut hay = ".".repeat(193).into_bytes();
    hay.extend_from_slice(b"bbbbbA");
    assert_eq!(best(&needle, &hay), Some((64 + 5 * 194 - 5, 0)));
    assert_eq!(64 + 5 * 194 - 5, TOP_SCORE);
    hay.extend_from_slice(b" ");
    hay.extend_from_slice(".".repeat(193).as_bytes());
    hay.extend_from_slice(b"bA");
    assert_eq!(best(&needle, &hay), Some((64 + 5 * 194 - 1, 200)));
}

#[test]
fn a_literal_at_a_boundary_beats_a_rival_below_its_score() {
    let mut needle = ".".repeat(192);
    needle.push('A');
    let mut rival = ".".repeat(192).into_bytes();
    rival.extend_from_slice(b"bA");
    assert_eq!(best(&needle, &rival), Some((1028, 0)));
    assert_eq!(best(&needle, needle.as_bytes()), Some((1029, 0)));
}

#[test]
fn both_ways_to_search_agree() {
    let hays: [&[u8]; 6] =
        [b"", b"FooBar", b"f-o-o f.oo", b"xFOO fOo", b"of", "föO fOÖ".as_bytes()];
    for needle in ["f", "fo", "foo", "oO", "fO", "-o", "ö", "föo"] {
        let m = Matcher::new(needle);
        for hay in hays {
            let found = m.match_score(hay);
            assert_eq!(m.match_score_ascii(hay), found);
            assert_eq!(m.match_score_slow(hay), found);
        }
    }
    let m = Matcher::new("foo");
    assert_eq!(m.match_score_ascii(b"xfOO fOo"), Some((1029, 5)));
    assert_eq!(m.match_score_slow(b"xfOO fOo"), Some((1029, 5)));
}
