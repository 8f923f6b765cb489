use fuz::matcher::Matcher;
use fuz::scoring::LITERAL_BASE;

#[test]
fn subsequence_basic() {
    let m = Matcher::new("pttrn");
    assert!(m.match_score(b"pattern").is_some());
    assert!(m.match_score(b"PaTTern").is_some());
    assert!(m.match_score(b"a pttrn b").is_some());
    assert!(m.match_score(b"p_t_t_r_n").is_some());
    assert!(!m.match_score(b"random").is_some());
    assert!(!m.match_score(b"ptrn").is_some());
    assert!(!m.match_score(b"parturition").is_some());
}

#[test]
fn order_matters() {
    let m = Matcher::new("abc");
    assert!(m.match_score(b"a-b-c").is_some());
    assert!(!m.match_score(b"c-b-a").is_some());
}

#[test]
fn empty_needle() {
    let m = Matcher::new("");
    assert!(m.match_score(b"").is_some());
    assert!(m.match_score(b"anything").is_some());
}

#[test]
fn non_letters() {
    let m = Matcher::new("a.b");
    assert!(m.match_score(b"a.b").is_some());
    assert!(m.match_score(b"aXX.YYb").is_some());
    assert!(!m.match_score(b"a-b").is_some());
}

#[test]
fn prefilter() {
    let m = Matcher::new("xyz");
    assert!(m.prefilter_passes(b"x y z all here"));
    assert!(!m.prefilter_passes(b"only x and y"));
}

#[test]
fn match_score_returns_some_iff_subseq() {
    let m = Matcher::new("pttrn");
    for hay in [b"pattern".as_ref(), b"PaTTern", b"a pttrn b", b"p_t_t_r_n"] {
        assert!(m.match_score(hay).is_some(), "should match: {:?}", hay);
    }
    for hay in [b"random".as_ref(), b"ptrn", b"parturition"] {
        assert!(m.match_score(hay).is_none(), "should NOT match: {:?}", hay);
    }
}

#[test]
fn tighter_alignment_scores_higher() {
    let m = Matcher::new("pttrn");
    // Both have a single boundary-hit (the leading 'p' at position 0); the
    // tighter alignment wins on spread alone. Filler chars are alphanumeric
    // so no extra boundary bonuses fire.
    let tight = m.match_score(b"pattern").unwrap().0;
    let loose = m.match_score(b"pAAAAAAtAAAAAAtAAAAArAAAAAn").unwrap().0;
    assert!(tight > loose, "tight={} loose={}", tight, loose);
}

#[test]
fn word_boundary_bonus() {
    let m = Matcher::new("foo");
    let underscore = m.match_score(b"my_foo").unwrap().0; // foo after _: word boundary
    let inline = m.match_score(b"barfoo").unwrap().0;      // foo buried: no boundary on f
    assert!(underscore > inline, "underscore={} inline={}", underscore, inline);
}

#[test]
fn case_insensitive_same_score() {
    // Matching is case-insensitive, so uniformly lower- and uniformly
    // upper-case haystacks score identically. (A CamelCase haystack
    // would score higher — CamelCase transitions are real boundaries;
    // see camelcase_transition_counts_as_boundary.)
    let m = Matcher::new("pttrn");
    assert_eq!(m.match_score(b"pattern"), m.match_score(b"PATTERN"));
}

#[test]
fn subseq_within_one_word_scores_positive() {
    // `rqrs` clustering inside `requires` is a real match. Score must be
    // clearly positive so it ranks above cross-word junk.
    let m = Matcher::new("rqrs");
    let s = m.match_score(b"            ... requires ...").unwrap().0;
    assert!(s > 0, "score was {s}");
}

#[test]
fn within_word_subseq_without_boundary_hit_scores_positive() {
    // `medtl` against `immediately` lands the first needle char at byte 1
    // (no leading word boundary), so boundary_hits=0. The raw boundary/
    // spread formula gives a negative score, but the entire match span is
    // inside one alphanumeric run — the within-word floor must keep it
    // positive so it ranks above cross-word matches.
    let m = Matcher::new("medtl");
    let s = m.match_score(b"  immediately follows").unwrap().0;
    assert!(s > 0, "score was {s}");
}

#[test]
fn within_word_no_boundary_scores_below_within_word_with_boundary() {
    // Both lines match within a single word, but `rqrs` in `requires`
    // hits the leading word boundary while `medtl` in `immediately`
    // doesn't. The boundary-hit alignment must rank higher.
    let with_boundary = Matcher::new("rqrs")
        .match_score(b"    requires foo")
        .unwrap()
        .0;
    let without_boundary = Matcher::new("medtl")
        .match_score(b"  immediately follows")
        .unwrap()
        .0;
    assert!(
        with_boundary > without_boundary,
        "with_boundary={with_boundary} without_boundary={without_boundary}"
    );
}

#[test]
fn camelcase_transition_counts_as_boundary() {
    // A lowercase byte immediately followed by an uppercase byte starts
    // a new "word". Without this, `gun` aligning over `getUserName`
    // would hit only one boundary (the leading 'g'); with it, the U
    // after 't' and the N after 'r' each add a BOUNDARY_BONUS.
    let m = Matcher::new("gun");
    let camel = m.match_score(b"getUserName").unwrap().0;
    let flat = m.match_score(b"getusername").unwrap().0;
    assert!(camel > flat, "camel={camel} flat={flat}");
}

#[test]
fn camelcase_lifts_cross_word_match() {
    // `clscntrdiv` matching `class CountryDivision`: c@start, C after
    // space, and D after y (CamelCase) — three boundary hits. Without
    // CamelCase support, the D would not count and the score would be
    // 5 lower. Either way the score must be clearly positive.
    let m = Matcher::new("clscntrdiv");
    let s = m.match_score(b"class CountryDivision:").unwrap().0;
    assert!(s > 5, "score was {s}");
}

#[test]
fn needle_with_punctuation_inside_one_word_scores_positive() {
    // `CountryDiv(` matched against `class CountryDivision():` aligns
    // `CountryDiv` contiguously inside the identifier, then jumps to the
    // `(` after `…ision`. The `(` is a non-alphanumeric byte in the span,
    // but it's the matched position for needle's own `(` — not an unwanted
    // cross-word jump. Must score > 0 to rank above cross-word matches.
    let m = Matcher::new("CountryDiv(");
    let s = m.match_score(b"class CountryDivision():").unwrap().0;
    assert!(s > 0, "score was {s}");
}

#[test]
fn subseq_spread_across_words_scores_nonpositive() {
    // `requires` matching via chars from `current` + `acquires` is junk
    // and must rank below within-word matches — scoring it non-positive
    // ensures it sits below the within-word floor.
    let m = Matcher::new("requires");
    let s = m.match_score(b"beat the current cutoff. Slow-path acquires").unwrap().0;
    assert!(s <= 0, "score was {s}");
}

#[test]
fn multi_start_finds_tight_cluster() {
    // Greedy from position 0 would pick 'r' in "n_str", giving a huge spread
    // jumping forward to "requires". Multi-start finds the tight cluster
    // inside "requires" itself. The line with a tight rqrs cluster must beat
    // a line whose only rqrs alignment is spread out.
    let m = Matcher::new("rqrs");
    let tight = m
        .match_score(b"    let n_str = args.next() requires a value")
        .unwrap().0;
    let spread = m.match_score(b"        .require_git(false)").unwrap().0;
    assert!(
        tight > spread,
        "tight_cluster={} spread_match={}",
        tight,
        spread
    );
}

#[test]
fn literal_beats_subseq() {
    // The greedy-leftmost subseq match in "extern int *errno_location"
    // grabs the 'e' in "extern", producing a loose spread. But the literal
    // "errno" is also in the line, so the literal-path must fire and dominate.
    let m = Matcher::new("errno");
    let lit_score = m.match_score(b"extern int *errno_location").unwrap().0;
    // "err is not yet": e,r,r... n in "not"... o in "not". subseq matches, no literal.
    let subseq_score = m.match_score(b"err is not yet").unwrap().0;
    assert!(
        lit_score > subseq_score,
        "literal={} subseq={}",
        lit_score,
        subseq_score
    );
    assert!(lit_score >= LITERAL_BASE);
}

#[test]
fn literal_at_word_boundary_beats_buried_literal() {
    let m = Matcher::new("foo");
    let at_boundary = m.match_score(b"my_foo_bar").unwrap().0;
    let buried = m.match_score(b"myfoobar").unwrap().0;
    assert!(at_boundary > buried);
    assert!(buried >= LITERAL_BASE); // still a literal match
}

#[test]
fn empty_needle_scores_zero() {
    let m = Matcher::new("");
    assert_eq!(m.match_score(b"anything"), Some((0, 0)));
    assert_eq!(m.match_score(b""), Some((0, 0)));
}

#[test]
fn returns_column_of_best_alignment() {
    // Literal "foo" appears at byte offset 3 in "my_foo_bar"; that's the
    // best alignment, so the returned start must be 3.
    let m = Matcher::new("foo");
    let (_, start) = m.match_score(b"my_foo_bar").unwrap();
    assert_eq!(start, 3);
}

#[test]
fn multi_start_returns_winning_start() {
    // Multi-start picks the tight cluster inside "requires" (offset 28),
    // not the leftmost 'r' in "n_str" (offset 8). The start returned must
    // point at the alignment that actually won.
    let m = Matcher::new("rqrs");
    let (_, start) = m
        .match_score(b"    let n_str = args.next() requires a value")
        .unwrap();
    assert_eq!(start, 28);
}

#[test]
fn smart_case_lowercase_needle_is_case_insensitive() {
    let m = Matcher::new("foo");
    assert!(!m.case_sensitive);
    assert!(m.match_score(b"foo").is_some());
    assert!(m.match_score(b"FOO").is_some());
    assert!(m.match_score(b"Foo").is_some());
    assert!(m.match_score(b"fOo").is_some());
}

#[test]
fn smart_case_uppercase_needle_is_case_sensitive_literal() {
    let m = Matcher::new("Foo");
    assert!(m.case_sensitive);
    assert!(m.match_score(b"Foo").is_some());
    assert!(m.match_score(b"my_Foo_bar").is_some());
    assert!(m.match_score(b"foo").is_none());
    assert!(m.match_score(b"FOO").is_none());
    assert!(m.match_score(b"fOo").is_none());
}

#[test]
fn smart_case_mixed_case_needle_is_case_sensitive() {
    let m = Matcher::new("fOo");
    assert!(m.case_sensitive);
    assert!(m.match_score(b"fOo").is_some());
    assert!(m.match_score(b"a fOo b").is_some());
    assert!(m.match_score(b"foo").is_none());
    assert!(m.match_score(b"Foo").is_none());
}

#[test]
fn smart_case_case_sensitive_subsequence() {
    // Uppercase in needle -> case-sensitive. "FB" subseq matches "FooBar"
    // (F, then B) but not "foobar".
    let m = Matcher::new("FB");
    assert!(m.case_sensitive);
    assert!(m.match_score(b"FooBar").is_some());
    assert!(m.match_score(b"foobar").is_none());
    assert!(m.match_score(b"fooBar").is_none()); // missing capital F
    assert!(m.match_score(b"Foobar").is_none()); // missing capital B
}

#[test]
fn smart_case_lowercase_subsequence_still_case_insensitive() {
    let m = Matcher::new("fb");
    assert!(!m.case_sensitive);
    assert!(m.match_score(b"FooBar").is_some());
    assert!(m.match_score(b"foobar").is_some());
    assert!(m.match_score(b"FOOBAR").is_some());
}

#[test]
fn smart_case_prefilter_respects_case() {
    let m = Matcher::new("Xyz");
    assert!(m.case_sensitive);
    assert!(m.prefilter_passes(b"X y z all here"));
    // Lowercase x must NOT satisfy the prefilter when needle has uppercase X.
    assert!(!m.prefilter_passes(b"x y z all here"));
}

#[test]
fn smart_case_prefilter_lowercase_needle_unchanged() {
    let m = Matcher::new("xyz");
    assert!(!m.case_sensitive);
    assert!(m.prefilter_passes(b"X Y Z here"));
    assert!(m.prefilter_passes(b"x y z here"));
    assert!(!m.prefilter_passes(b"only x and y"));
}

#[test]
fn smart_case_non_ascii_needle_with_uppercase_is_case_sensitive() {
    // Non-ASCII needle (Café) hits the slow path; the ASCII 'C' makes it
    // case-sensitive, so haystack folding must be skipped.
    let m = Matcher::new("Café");
    assert!(m.case_sensitive);
    assert!(!m.ascii_only);
    assert!(m.match_score("a Café b".as_bytes()).is_some());
    assert!(m.match_score("a café b".as_bytes()).is_none());
}

#[test]
fn smart_case_non_ascii_needle_all_lowercase_is_case_insensitive() {
    let m = Matcher::new("café");
    assert!(!m.case_sensitive);
    assert!(!m.ascii_only);
    // Folding still kicks in on the ASCII part of the haystack.
    assert!(m.match_score("a Café b".as_bytes()).is_some());
    assert!(m.match_score("a café b".as_bytes()).is_some());
}
