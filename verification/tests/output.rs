use fuz::args::{parse_args, ArgError, Args, DEFAULT_TOP_N};
use fuz::printer::emit_match;
use fuz::report::shown;
use fuz::topk::{Scored, TopK};

fn emitted(prefix: &[u8], line_no: u64, col: u32, line: &[u8]) -> Vec<u8> {
    let mut out = Vec::new();
    emit_match(&mut out, prefix, line_no, col, line);
    out
}

#[test]
fn a_match_is_shown_as_path_line_column_content() {
    assert_eq!(
        emitted(b"kernel/bpf/core.c:", 35, 15, b"static struct x *"),
        b"kernel/bpf/core.c:35:15:static struct x *\n"
    );
}

#[test]
fn numbers_are_written_in_full() {
    assert_eq!(emitted(b"p:", 0, 0, b""), b"p:0:0:\n");
    assert_eq!(emitted(b"", 10, 7, b"x"), b"10:7:x\n");
    assert_eq!(
        emitted(b"p:", u64::MAX, u32::MAX, b"x"),
        b"p:18446744073709551615:4294967295:x\n"
    );
}

#[test]
fn output_is_appended() {
    let mut out = b"before\n".to_vec();
    emit_match(&mut out, b"p:", 1, 2, b"x");
    emit_match(&mut out, b"q:", 3, 4, b"y");
    assert_eq!(out, b"before\np:1:2:x\nq:3:4:y\n");
}

fn scored(score: i32, prefix: &[u8], line_no: u64, line: &[u8]) -> Scored {
    Scored { score, line_no, col: 1, prefix: Box::from(prefix), line: Box::from(line) }
}

fn summary(v: &[Scored]) -> Vec<(i32, String, u64)> {
    v.iter()
        .map(|s| (s.score, String::from_utf8(s.prefix.to_vec()).unwrap(), s.line_no))
        .collect()
}

#[test]
fn results_are_shown_by_score_then_path_then_line() {
    let v = vec![
        scored(5, b"b:", 1, b""),
        scored(9, b"z:", 1, b""),
        scored(5, b"a:", 10, b""),
        scored(5, b"a:", 9, b""),
        scored(5, b"a", 99, b""),
        scored(7, b"c:", 4, b""),
    ];
    let expected = vec![
        (9, "z:".to_string(), 1),
        (7, "c:".to_string(), 4),
        (5, "a".to_string(), 99),
        (5, "a:".to_string(), 9),
        (5, "a:".to_string(), 10),
        (5, "b:".to_string(), 1),
    ];
    assert_eq!(summary(&shown(v)), expected);
}

#[test]
fn results_without_a_positive_score_are_not_shown() {
    let v = vec![scored(0, b"a:", 1, b""), scored(1, b"b:", 1, b""), scored(-3, b"c:", 1, b"")];
    assert_eq!(summary(&shown(v)), vec![(1, "b:".to_string(), 1)]);
    assert!(shown(Vec::new()).is_empty());
}

#[test]
fn results_in_the_same_place_keep_their_order() {
    let v = vec![
        scored(5, b"a:", 1, b"first"),
        scored(9, b"a:", 1, b"top"),
        scored(5, b"a:", 1, b"second"),
        scored(5, b"a:", 1, b"third"),
    ];
    let lines: Vec<Vec<u8>> = shown(v).iter().map(|s| s.line.to_vec()).collect();
    assert_eq!(
        lines,
        vec![b"top".to_vec(), b"first".to_vec(), b"second".to_vec(), b"third".to_vec()]
    );
}

#[test]
fn many_results_come_out_in_order() {
    let mut v = Vec::new();
    for i in 0..1000u64 {
        v.push(scored(((i * 7919) % 501) as i32 + 1, b"p:", (i * 31) % 977, b""));
    }
    let r = shown(v);
    assert_eq!(r.len(), 1000);
    for w in r.windows(2) {
        assert!((w[1].score, w[0].line_no) <= (w[0].score, w[1].line_no) || w[0].score > w[1].score);
    }
}

#[test]
fn kept_matches_come_out_highest_first() {
    let mut t = TopK::new(50);
    for i in 0..500u64 {
        t.try_insert_at(((i * 7919) % 503) as i32, b"p:", i, 3, b"line");
    }
    let v: Vec<i32> = t.into_sorted_best_first().iter().map(|s| s.score).collect();
    let mut all: Vec<i32> = (0..500u64).map(|i| ((i * 7919) % 503) as i32).collect();
    all.sort();
    all.reverse();
    assert_eq!(v, all[..50].to_vec());
}

#[test]
fn a_tie_for_the_last_place_does_not_displace() {
    let mut t = TopK::new(1);
    t.try_insert_at(5, b"a:", 1, 2, b"first");
    t.try_insert_at(5, b"z:", 9, 2, b"second");
    let v = t.into_sorted_best_first();
    assert_eq!((v.len(), &v[0].line[..], v[0].col), (1, &b"first"[..], 2));
}

#[test]
fn the_lowest_path_and_line_leave_first() {
    let mut t = TopK::new(3);
    t.try_insert(5, b"b:", 1, b"");
    t.try_insert(5, b"a:", 2, b"");
    t.try_insert(5, b"a:", 1, b"");
    t.try_insert(6, b"c:", 1, b"");
    let kept = t.into_sorted_best_first();
    let expected = vec![(6, "c:".to_string(), 1), (5, "b:".to_string(), 1), (5, "a:".to_string(), 2)];
    assert_eq!(summary(&kept), expected);
}

#[test]
fn the_least_score_is_never_kept() {
    let mut t = TopK::new(2);
    assert_eq!(t.cutoff(), i32::MIN);
    t.try_insert(i32::MIN, b"p:", 1, b"x");
    t.try_insert(i32::MIN + 1, b"p:", 2, b"x");
    let v: Vec<u64> = t.into_sorted_best_first().iter().map(|s| s.line_no).collect();
    assert_eq!(v, vec![2]);
}

#[test]
fn the_cutoff_only_rises() {
    let mut t = TopK::new(2);
    let mut last = t.cutoff();
    for s in [3, 9, 4, 1, 7, 8, 8] {
        t.try_insert(s, b"p:", 0, b"x");
        assert!(t.cutoff() >= last);
        last = t.cutoff();
    }
    assert_eq!(last, 8);
}

#[test]
fn scores_are_compared_before_paths() {
    assert!(scored(6, b"a:", 1, b"") > scored(5, b"z:", 9, b""));
    assert!(scored(5, b"b:", 1, b"") > scored(5, b"a:", 9, b""));
    assert!(scored(5, b"ab:", 1, b"") > scored(5, b"a", 9, b""));
    let (a, b) = (scored(5, b"a:", 1, b"x"), scored(5, b"a:", 1, b"y"));
    assert!(a.cmp(&b) == std::cmp::Ordering::Equal);
    assert!(a != b);
}

fn parsed(args: &[&str]) -> Result<Args, ArgError> {
    let owned: Vec<String> = args.iter().map(|a| a.to_string()).collect();
    parse_args(&owned)
}

fn message(args: &[&str]) -> String {
    match parsed(args) {
        Ok(_) => panic!("accepted"),
        Err(e) => e.message(),
    }
}

fn accepted(args: &[&str]) -> Args {
    match parsed(args) {
        Ok(a) => a,
        Err(e) => panic!("{}", e.message()),
    }
}

#[test]
fn a_needle_alone_gets_the_defaults() {
    let a = accepted(&["foo"]);
    assert_eq!(a.needle, "foo");
    assert_eq!(a.top_n, DEFAULT_TOP_N);
    assert_eq!(a.top_n, 20);
    assert_eq!(a.limits.max_file_size, Some(10 * 1024 * 1024));
    assert_eq!(a.limits.max_line_len, Some(64 * 1024));
}

#[test]
fn flags_are_read_in_any_order() {
    let a = accepted(&["--no-line-limit", "foo", "-n", "7", "--no-file-limit"]);
    assert_eq!((a.needle.as_str(), a.top_n), ("foo", 7));
    assert_eq!((a.limits.max_file_size, a.limits.max_line_len), (None, None));
    assert_eq!(accepted(&["-n", "7", "-n", "+008", "x"]).top_n, 8);
    assert_eq!(accepted(&["--no-file-limit", "x"]).limits.max_line_len, Some(65536));
}

#[test]
fn a_needle_that_looks_like_a_flag_follows_two_dashes() {
    assert_eq!(accepted(&["--", "-n"]).needle, "-n");
    assert_eq!(accepted(&["--", "--"]).needle, "--");
    assert_eq!(accepted(&["a", "--", "b"]).needle, "b");
    assert_eq!(accepted(&["-"]).needle, "-");
    assert_eq!(accepted(&[""]).needle, "");
    assert_eq!(message(&["--"]), "missing PATTERN");
    assert_eq!(message(&["a", "--"]), "missing PATTERN");
    assert_eq!(message(&["--", "a", "b"]), "too many positional arguments");
}

#[test]
fn faults_are_reported() {
    assert_eq!(message(&[]), "missing PATTERN");
    assert_eq!(message(&["--no-file-limit"]), "missing PATTERN");
    assert_eq!(message(&["a", "b"]), "too many positional arguments");
    assert_eq!(message(&["-n"]), "-n requires a value");
    assert_eq!(message(&["-n", "0", "a"]), "-n must be >= 1");
    assert_eq!(message(&["-n", "x1", "a"]), "-n: invalid number: x1");
    assert_eq!(message(&["-n", "", "a"]), "-n: invalid number: ");
    assert_eq!(message(&["-n", "+", "a"]), "-n: invalid number: +");
    assert_eq!(message(&["-n", "-5", "a"]), "-n: invalid number: -5");
    assert_eq!(message(&["-n", "1é", "a"]), "-n: invalid number: 1é");
    assert_eq!(
        message(&["-n", "18446744073709551616", "a"]),
        "-n: invalid number: 18446744073709551616"
    );
    assert_eq!(message(&["-é", "a"]), "unknown flag: -é");
    assert_eq!(message(&["--help"]), "unknown flag: --help");
}

#[test]
fn counts_read_like_the_standard_parser() {
    for s in ["1", "+1", "007", "18446744073709551615", "99999999999999999999", "1_0", " 1", "++1", "1+"] {
        let expected: Result<usize, _> = s.parse();
        match parsed(&["-n", s, "x"]) {
            Ok(a) => assert_eq!(Ok(a.top_n), expected),
            Err(_) => assert!(expected.is_err()),
        }
    }
}

#[test]
fn written_numbers_read_back() {
    for n in [1usize, 9, 10, 65536, 4294967295, usize::MAX] {
        let record = emitted(b"", n as u64, 0, b"");
        let digits = String::from_utf8(record[..record.len() - 4].to_vec()).unwrap();
        assert_eq!(accepted(&["-n", &digits, "x"]).top_n, n);
    }
}
