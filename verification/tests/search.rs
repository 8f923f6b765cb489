use fuz::matcher::Matcher;
use fuz::stats::Stats;
use fuz::topk::{Scored, TopK};
use fuz::walker::{
    advance, is_binary, offer_hits, scan_buffer, search_buffer, strip_dot_prefix, visit,
    write_prefix, FileAction, FileEvent, Limits, Visit, BINARY_PROBE, DEFAULT_MAX_FILE_SIZE,
    DEFAULT_MAX_LINE_LEN, PREFILTER_THRESHOLD,
};
use fuz::watch::{watch_step, Watch};

const NO_LIMITS: Limits = Limits { max_file_size: None, max_line_len: None };

fn search(needle: &str, text: &[u8], cap: Option<usize>) -> (Vec<Scored>, u64, u64) {
    let m = Matcher::new(needle);
    let mut topk = TopK::new(100);
    let mut prefix = Vec::new();
    let (matches, skipped) = search_buffer(b"./a.txt", text, &m, &mut topk, &mut prefix, cap);
    assert_eq!(prefix, b"a.txt:");
    let mut found = topk.into_sorted_best_first();
    found.sort_by_key(|s| s.line_no);
    (found, matches, skipped)
}

#[test]
fn finds_lines_with_numbers_and_columns() {
    let (found, matches, skipped) = search("foo", b"bar\nmy_foo\r\n\nfoo", None);
    assert_eq!((matches, skipped), (2, 0));
    assert_eq!(found[0].line_no, 2);
    assert_eq!(found[0].col, 4);
    assert_eq!(found[0].score, 1029);
    assert_eq!(&found[0].line[..], b"my_foo");
    assert_eq!(&found[0].prefix[..], b"a.txt:");
    assert_eq!(found[1].line_no, 4);
    assert_eq!(found[1].col, 1);
    assert_eq!(&found[1].line[..], b"foo");
}

#[test]
fn carriage_return_at_end_of_file_is_dropped() {
    let (found, _, _) = search("foo", b"foo\r", None);
    assert_eq!(&found[0].line[..], b"foo");
    let (found, _, _) = search("foo", b"foo\r\r\n", None);
    assert_eq!(&found[0].line[..], b"foo\r");
}

#[test]
fn byte_order_mark_is_dropped_from_first_line_only() {
    let (found, _, _) = search("foo", b"\xEF\xBB\xBFfoo\n\xEF\xBB\xBFfoo", None);
    assert_eq!(&found[0].line[..], b"foo");
    assert_eq!(found[0].col, 1);
    assert_eq!(&found[1].line[..], b"\xEF\xBB\xBFfoo");
    assert_eq!(found[1].col, 4);
    let (found, _, _) = search("foo", b"\xEF\xBB\xBFfoo", None);
    assert_eq!(&found[0].line[..], b"foo");
}

#[test]
fn long_lines_are_skipped() {
    let (found, matches, skipped) = search("a", b"a\naaaaaa\naa\naaaaaaa", Some(2));
    assert_eq!((matches, skipped), (2, 2));
    assert_eq!(found.iter().map(|s| s.line_no).collect::<Vec<_>>(), vec![1, 3]);
    let (_, matches, skipped) = search("a", b"aaa\r\n", Some(3));
    assert_eq!((matches, skipped), (1, 0));
}

#[test]
fn empty_needle_finds_every_line() {
    let (found, matches, _) = search("", b"x\n\ny\n", None);
    assert_eq!(matches, 3);
    assert_eq!(found.iter().map(|s| s.score).collect::<Vec<_>>(), vec![0, 0, 0]);
    assert_eq!(found.iter().map(|s| s.col).collect::<Vec<_>>(), vec![1, 1, 1]);
}

#[test]
fn empty_buffer_has_no_lines() {
    assert_eq!(search("", b"", None).1, 0);
}

#[test]
fn counts_do_not_depend_on_room() {
    let m = Matcher::new("foo");
    let mut topk = TopK::new(1);
    let mut prefix = Vec::new();
    let text = b"foo\nxfoo\nf.o.o\n";
    assert_eq!(search_buffer(b"p", text, &m, &mut topk, &mut prefix, None), (3, 0));
    let kept = topk.into_sorted_best_first();
    assert_eq!(kept.len(), 1);
    assert_eq!(kept[0].line_no, 1);
}

#[test]
fn leaving_out_what_an_earlier_cutoff_turns_away_changes_nothing() {
    let m = Matcher::new("foo");
    let first = b"xfoo\nxfoox\n";
    let second = b"f--oo\nfoo\nxxfoo\nmy_foo\n";
    let mut whole = TopK::new(2);
    let mut parts = TopK::new(2);
    let mut prefix = Vec::new();
    search_buffer(b"1", first, &m, &mut whole, &mut prefix, None);
    search_buffer(b"1", first, &m, &mut parts, &mut prefix, None);
    assert_eq!(whole.cutoff(), 1024);
    search_buffer(b"2", second, &m, &mut whole, &mut prefix, None);
    let scan = scan_buffer(second, &m, None, parts.cutoff());
    assert_eq!((scan.matches, scan.skipped, scan.hits.len()), (4, 0, 2));
    offer_hits(&mut parts, &prefix, second, &scan.hits);
    let key = |s: &Scored| (s.score, s.line_no, s.col, s.line.to_vec());
    let a: Vec<_> = whole.into_sorted_best_first().iter().map(key).collect();
    let b: Vec<_> = parts.into_sorted_best_first().iter().map(key).collect();
    assert_eq!(a, b);
    assert_eq!(a[0], (1029, 4, 4, b"my_foo".to_vec()));
}

#[test]
fn each_line_of_a_buffer_is_scanned_once() {
    let m = Matcher::new("o");
    let scan = scan_buffer(b"one\ntwo\nthree\nfour", &m, None, i32::MIN);
    let lines: Vec<u64> = scan.hits.iter().map(|h| h.line_no).collect();
    assert_eq!(lines, vec![1, 2, 4]);
    assert_eq!((scan.hits[1].start, scan.hits[1].end, scan.hits[1].col), (4, 7, 3));
}

#[test]
fn prefilter_turns_away_only_buffers_without_matches() {
    let m = Matcher::new("xyz");
    let text = b"x y\nno last letter\n";
    assert!(!m.prefilter_passes(text));
    assert_eq!(scan_buffer(text, &m, None, i32::MIN).matches, 0);
    assert!(m.prefilter_passes(b"z\ny\nx"));
    assert_eq!(scan_buffer(b"z\ny\nx", &m, None, i32::MIN).matches, 0);
}

#[test]
fn leading_dot_is_stripped_once() {
    assert_eq!(strip_dot_prefix(b"./a/b"), b"a/b");
    assert_eq!(strip_dot_prefix(b"././a"), b"./a");
    assert_eq!(strip_dot_prefix(b"a/./b"), b"a/./b");
    assert_eq!(strip_dot_prefix(b"."), b".");
    assert_eq!(strip_dot_prefix(b""), b"");
    let mut prefix = b"old".to_vec();
    write_prefix(b"./src/lib.rs", &mut prefix);
    assert_eq!(prefix, b"src/lib.rs:");
}

#[test]
fn zero_byte_near_the_start_means_binary() {
    assert!(is_binary(b"ab\0c"));
    assert!(!is_binary(b"abc"));
    assert!(!is_binary(b""));
    let mut text = vec![b'a'; BINARY_PROBE];
    text.push(0);
    assert!(!is_binary(&text));
    text[BINARY_PROBE - 1] = 0;
    assert!(is_binary(&text));
}

#[test]
fn limits_have_their_defaults() {
    assert_eq!(DEFAULT_MAX_FILE_SIZE, 10 * 1024 * 1024);
    assert_eq!(DEFAULT_MAX_LINE_LEN, 64 * 1024);
}

#[test]
fn entries_are_visited_unless_cancelled() {
    let mut stats = Stats::new();
    assert!(visit(&mut stats, true, Some(true)) == Visit::Quit);
    assert!(visit(&mut stats, false, None) == Visit::Skip);
    assert!(visit(&mut stats, false, Some(false)) == Visit::Skip);
    assert_eq!(stats.files_seen, 0);
    assert!(visit(&mut stats, false, Some(true)) == Visit::Search);
    assert_eq!(stats.files_seen, 1);
}

#[test]
fn a_text_file_runs_through_all_phases() {
    let mut s = Stats::new();
    let limits = Limits { max_file_size: Some(100), max_line_len: None };
    assert!(advance(&mut s, FileEvent::Opened { size: 100 }, 7, limits) == FileAction::Load);
    assert_eq!(s.ns_io, 0);
    assert!(advance(&mut s, FileEvent::Loaded { len: 90 }, 8, limits) == FileAction::Probe);
    assert_eq!((s.ns_io, s.bytes_read), (8, 90));
    let probed = FileEvent::Probed { len: 90, binary: false };
    assert!(advance(&mut s, probed, 9, limits) == FileAction::Search);
    assert_eq!((s.ns_binary_check, s.files_searched), (9, 1));
    let searched = FileEvent::Searched { matches: 3, skipped: 2 };
    assert!(advance(&mut s, searched, 10, limits) == FileAction::Stop);
    assert_eq!((s.ns_search, s.matches, s.lines_oversize_skip), (10, 3, 2));
    assert_eq!((s.files_binary_skip, s.files_prefilter_skip, s.files_oversize_skip), (0, 0, 0));
}

#[test]
fn a_large_file_is_filtered_first() {
    let mut s = Stats::new();
    let probed = FileEvent::Probed { len: PREFILTER_THRESHOLD, binary: false };
    assert!(advance(&mut s, probed, 1, NO_LIMITS) == FileAction::Search);
    let probed = FileEvent::Probed { len: PREFILTER_THRESHOLD + 1, binary: false };
    assert!(advance(&mut s, probed, 1, NO_LIMITS) == FileAction::Filter);
    assert_eq!(s.files_searched, 1);
    assert!(advance(&mut s, FileEvent::Filtered { passes: true }, 5, NO_LIMITS) == FileAction::Search);
    assert_eq!((s.files_searched, s.files_prefilter_skip, s.ns_prefilter), (2, 0, 5));
    assert!(advance(&mut s, FileEvent::Filtered { passes: false }, 5, NO_LIMITS) == FileAction::Stop);
    assert_eq!((s.files_searched, s.files_prefilter_skip, s.ns_prefilter), (2, 1, 10));
}

#[test]
fn skipped_files_are_counted_by_reason() {
    let mut s = Stats::new();
    let limits = Limits { max_file_size: Some(100), max_line_len: None };
    assert!(advance(&mut s, FileEvent::Opened { size: 101 }, 2, limits) == FileAction::Stop);
    assert_eq!((s.files_oversize_skip, s.ns_io), (1, 2));
    assert!(advance(&mut s, FileEvent::Opened { size: u64::MAX }, 2, NO_LIMITS) == FileAction::Load);
    assert!(advance(&mut s, FileEvent::OpenFailed, 3, limits) == FileAction::Stop);
    assert!(advance(&mut s, FileEvent::ReadFailed, 4, limits) == FileAction::Stop);
    assert_eq!(s.ns_io, 9);
    let probed = FileEvent::Probed { len: 5, binary: true };
    assert!(advance(&mut s, probed, 6, limits) == FileAction::Stop);
    assert_eq!((s.files_binary_skip, s.files_searched, s.ns_binary_check), (1, 0, 6));
}

#[test]
fn counters_wrap_around() {
    let mut field = u64::MAX;
    Stats::add_ns(&mut field, 3);
    assert_eq!(field, 2);
    let mut field = 1;
    Stats::add_ns(&mut field, (1u128 << 64) + 5);
    assert_eq!(field, 6);
}

#[test]
fn new_counters_stand_at_zero() {
    let s = Stats::new();
    assert_eq!(s.files_seen + s.files_searched + s.files_binary_skip + s.files_prefilter_skip, 0);
    assert_eq!(s.files_oversize_skip + s.lines_oversize_skip + s.bytes_read + s.matches, 0);
    assert_eq!(s.ns_io + s.ns_binary_check + s.ns_prefilter + s.ns_search, 0);
    assert_eq!(s.ns_write + s.ns_total, 0);
}

fn results(text: &[u8], cap: Option<usize>) -> (Vec<(i32, u64, u32, Vec<u8>)>, u64, u64) {
    let (found, matches, skipped) = search("ab", text, cap);
    let found = found.iter().map(|s| (s.score, s.line_no, s.col, s.line.to_vec())).collect();
    (found, matches, skipped)
}

#[test]
fn line_ends_do_not_matter() {
    for cap in [None, Some(2)] {
        let expected = results(b"\xEF\xBB\xBFab\n\nx\naxb\nab", cap);
        assert_eq!(results(b"\xEF\xBB\xBFab\r\n\r\nx\r\naxb\r\nab", cap), expected);
        assert_eq!(results(b"\xEF\xBB\xBFab\n\nx\naxb\nab\n", cap), expected);
    }
    let (found, matches, skipped) = results(b"ab\r\n\r\nx\r\naxb\r\nab\r\n", Some(2));
    assert_eq!((matches, skipped), (2, 1));
    assert_eq!(found[1], (1029, 5, 1, b"ab".to_vec()));
}

/// Handles a file with these contents, and gives the numbers of the lines that
/// were offered.
fn handled(contents: &[u8], limits: Limits) -> Vec<u64> {
    let m = Matcher::new("ab");
    let mut stats = Stats::new();
    let mut topk = TopK::new(100);
    let mut event = FileEvent::Opened { size: contents.len() as u64 };
    loop {
        event = match advance(&mut stats, event, 0, limits) {
            FileAction::Load => FileEvent::Loaded { len: contents.len() },
            FileAction::Probe => {
                FileEvent::Probed { len: contents.len(), binary: is_binary(contents) }
            }
            FileAction::Filter => FileEvent::Filtered { passes: m.prefilter_passes(contents) },
            FileAction::Search => {
                let mut prefix = Vec::new();
                let cap = limits.max_line_len;
                let (matches, skipped) =
                    search_buffer(b"f", contents, &m, &mut topk, &mut prefix, cap);
                FileEvent::Searched { matches, skipped }
            }
            FileAction::Stop => break,
        };
    }
    let mut lines: Vec<u64> = topk.into_sorted_best_first().iter().map(|s| s.line_no).collect();
    lines.sort();
    lines
}

#[test]
fn a_file_offers_its_matches() {
    assert_eq!(handled(b"ab\nx\naxb", NO_LIMITS), vec![1, 3]);
    assert_eq!(handled(b"ab\nx\0\naxb", NO_LIMITS), Vec::<u64>::new());
    let small = Limits { max_file_size: Some(3), max_line_len: None };
    assert_eq!(handled(b"ab\nx\naxb", small), Vec::<u64>::new());
    let mut large = vec![b'x'; PREFILTER_THRESHOLD];
    large.extend_from_slice(b"\nab");
    assert_eq!(handled(&large, NO_LIMITS), vec![2]);
    large.pop();
    assert_eq!(handled(&large, NO_LIMITS), Vec::<u64>::new());
}

#[test]
fn the_watch_goes_on_until_it_is_over() {
    assert!(watch_step(Err(true)) == Watch::Again);
    assert!(watch_step(Err(false)) == Watch::End);
    assert!(watch_step(Ok((false, false))) == Watch::Again);
    assert!(watch_step(Ok((false, true))) == Watch::Exit);
    assert!(watch_step(Ok((true, false))) == Watch::End);
    assert!(watch_step(Ok((true, true))) == Watch::End);
}
