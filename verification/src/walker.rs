//! Searching files: which of them, and line by line.

use vstd::arithmetic::div_mod::lemma_add_mod_noop;
use vstd::prelude::*;

use crate::bytes::{
    append, find_all, find_byte, has_prefix, starts_with, CARRIAGE_RETURN, COLON, NEWLINE,
};
use crate::matcher::Matcher;
use crate::stats::{count, counted, Stats};
use crate::topk::{beating, leaving_out_is_safe, Entry, TopK};

verus! {

/// Files larger than this are skipped by default.
pub const DEFAULT_MAX_FILE_SIZE: u64 = 10 * 1024 * 1024;

/// Lines longer than this are skipped by default.
pub const DEFAULT_MAX_LINE_LEN: usize = 64 * 1024;

/// How many bytes at the start of a file are looked at to tell a binary one.
pub const BINARY_PROBE: usize = 8192;

/// A file that is larger than this is searched only if every needle byte
/// occurs in it.
pub const PREFILTER_THRESHOLD: usize = 64 * 1024;

/// What to skip.
#[derive(Clone, Copy)]
pub struct Limits {
    /// Skip files larger than this many bytes; `None` skips none.
    pub max_file_size: Option<u64>,
    /// Skip lines longer than this many bytes; `None` skips none.
    pub max_line_len: Option<usize>,
}

/// The bytes that mark a file as UTF-8 at its start.
pub open spec fn byte_order_mark() -> Seq<u8> {
    seq![0xefu8, 0xbbu8, 0xbfu8]
}

/// The position of the first line feed of `buf` from `from` on, or the length
/// of `buf` where there is none.
pub open spec fn line_end(buf: Seq<u8>, from: int) -> int
    decreases buf.len() - from,
{
    if from >= buf.len() {
        buf.len() as int
    } else if buf[from] == NEWLINE {
        from
    } else {
        line_end(buf, from + 1)
    }
}

/// `raw` without a carriage return at its end.
pub open spec fn chomped(raw: Seq<u8>) -> Seq<u8> {
    if raw.len() > 0 && raw.last() == CARRIAGE_RETURN {
        raw.drop_last()
    } else {
        raw
    }
}

/// `text` without a byte order mark at its start.
pub open spec fn unmarked(text: Seq<u8>) -> Seq<u8> {
    if has_prefix(text, byte_order_mark()) {
        text.skip(3)
    } else {
        text
    }
}

/// The text of a line that takes up `buf` from `from` to `to`: without the
/// carriage return of its end, and, at the start of the file, without the byte
/// order mark.
pub open spec fn line_text(buf: Seq<u8>, from: int, to: int) -> Seq<u8> {
    let text = chomped(buf.subrange(from, to));
    if from == 0 {
        unmarked(text)
    } else {
        text
    }
}

/// The texts of the lines of `buf` from `from` on.
pub open spec fn lines_from(buf: Seq<u8>, from: int) -> Seq<Seq<u8>>
    decreases buf.len() + 1 - from,
    when 0 <= from
    via line_end_advances
{
    if from >= buf.len() {
        Seq::empty()
    } else {
        seq![line_text(buf, from, line_end(buf, from))] + lines_from(buf, line_end(buf, from) + 1)
    }
}

#[via_fn]
proof fn line_end_advances(buf: Seq<u8>, from: int) {
    lemma_line_end(buf, from);
}

/// A line ends no earlier than it begins, at the first line feed.
proof fn lemma_line_end(buf: Seq<u8>, from: int)
    requires
        0 <= from,
    ensures
        from <= buf.len() ==> from <= line_end(buf, from) <= buf.len(),
        line_end(buf, from) < buf.len() ==> buf[line_end(buf, from)] == NEWLINE,
        forall|q: int| from <= q < line_end(buf, from) ==> #[trigger] buf[q] != NEWLINE,
    decreases buf.len() - from,
{
    if from < buf.len() && buf[from] != NEWLINE {
        lemma_line_end(buf, from + 1);
    }
}

/// What is known of a line end fixes it.
proof fn lemma_line_end_is(buf: Seq<u8>, from: int, to: int)
    requires
        0 <= from <= to <= buf.len(),
        forall|q: int| from <= q < to ==> #[trigger] buf[q] != NEWLINE,
        to == buf.len() || buf[to] == NEWLINE,
    ensures
        line_end(buf, from) == to,
    decreases to - from,
{
    if from < to {
        assert(buf[from] != NEWLINE);
        lemma_line_end_is(buf, from + 1, to);
    }
}

/// The texts of the lines of `buf`.
pub open spec fn lines(buf: Seq<u8>) -> Seq<Seq<u8>> {
    lines_from(buf, 0)
}

/// A match in a buffer.
pub struct Found {
    pub score: i32,
    pub line_no: u64,
    pub col: u32,
    pub line: Seq<u8>,
}

/// The match `f`, in the file whose path and a colon are `prefix`.
pub open spec fn entry_of(prefix: Seq<u8>, f: Found) -> Entry {
    Entry { score: f.score, line_no: f.line_no, col: f.col, prefix, line: f.line }
}

/// The line is within the cap.
pub open spec fn fits(cap: Option<usize>, line: Seq<u8>) -> bool {
    cap matches Some(most) ==> line.len() <= most
}

/// The column that is shown for a match at the offset `start`: counted from 1,
/// in 32 bits.
pub open spec fn column(start: int) -> u32 {
    let low = start % 0x1_0000_0000;
    if low == u32::MAX {
        u32::MAX
    } else {
        (low + 1) as u32
    }
}

/// The matches in `lines`, which are the first ones of a file: at most one for
/// each line, and none for a line that is too long.
pub open spec fn found_in(m: Matcher, lines: Seq<Seq<u8>>, cap: Option<usize>) -> Seq<Found>
    decreases lines.len(),
{
    if lines.len() == 0 {
        Seq::empty()
    } else {
        let before = found_in(m, lines.drop_last(), cap);
        let line = lines.last();
        match m.best_match(line) {
            Some((score, start)) if fits(cap, line) => before.push(
                Found { score, line_no: lines.len() as u64, col: column(start), line },
            ),
            _ => before,
        }
    }
}

/// How many of `lines` are too long.
pub open spec fn oversize_lines(lines: Seq<Seq<u8>>, cap: Option<usize>) -> nat
    decreases lines.len(),
{
    if lines.len() == 0 {
        0
    } else {
        oversize_lines(lines.drop_last(), cap) + (if fits(cap, lines.last()) {
            0nat
        } else {
            1nat
        })
    }
}

/// A match in a buffer, with the bounds of its line there.
#[derive(Clone, Copy)]
pub struct Hit {
    pub score: i32,
    pub line_no: u64,
    pub col: u32,
    pub start: usize,
    pub end: usize,
}

impl Hit {
    /// The bounds are within the buffer.
    pub open spec fn within(self, buf: Seq<u8>) -> bool {
        self.start <= self.end <= buf.len()
    }

    /// The match that this is in `buf`.
    pub open spec fn found(self, buf: Seq<u8>) -> Found {
        Found {
            score: self.score,
            line_no: self.line_no,
            col: self.col,
            line: buf.subrange(self.start as int, self.end as int),
        }
    }
}

/// What a scan of a buffer found.
pub struct Scan {
    /// The matches whose scores beat the floor of the scan.
    pub hits: Vec<Hit>,
    /// How many lines match.
    pub matches: u64,
    /// How many lines were skipped because they are too long.
    pub skipped: u64,
}

/// The matches that `hits` are in `buf`.
pub open spec fn found_by(hits: Seq<Hit>, buf: Seq<u8>) -> Seq<Found> {
    hits.map_values(|h: Hit| h.found(buf))
}

/// The matches whose scores beat `floor`.
pub open spec fn above(found: Seq<Found>, floor: i32) -> Seq<Found> {
    found.filter(|f: Found| f.score > floor)
}

impl Scan {
    /// This is the result of scanning `buf` as far as `done`, its first lines.
    pub open spec fn covers(
        self,
        m: Matcher,
        buf: Seq<u8>,
        done: Seq<Seq<u8>>,
        cap: Option<usize>,
        floor: i32,
    ) -> bool {
        &&& forall|i: int| 0 <= i < self.hits@.len() ==> (#[trigger] self.hits@[i]).within(buf)
        &&& found_by(self.hits@, buf) == above(found_in(m, done, cap), floor)
        &&& self.matches == found_in(m, done, cap).len()
        &&& self.skipped == oversize_lines(done, cap)
    }
}

/// The bounds in `buf` of the text of the line from `from` to `to`.
fn text_bounds(buf: &[u8], from: usize, to: usize) -> (r: (usize, usize))
    requires
        from <= to <= buf@.len(),
    ensures
        from <= r.0 <= r.1 <= to,
        buf@.subrange(r.0 as int, r.1 as int) == line_text(buf@, from as int, to as int),
{
    let mut end: usize = to;
    if end > from && buf[end - 1] == CARRIAGE_RETURN {
        end -= 1;
    }
    assert(buf@.subrange(from as int, end as int) =~= chomped(
        buf@.subrange(from as int, to as int),
    ));
    let mut start: usize = from;
    let mark: [u8; 3] = [0xef, 0xbb, 0xbf];
    assert(mark@ =~= byte_order_mark());
    if from == 0 && starts_with(&buf[from..end], &mark) {
        start += 3;
        assert(buf@.subrange(start as int, end as int) =~= buf@.subrange(
            from as int,
            end as int,
        ).skip(3));
    }
    (start, end)
}

/// The column that is shown for a match at the offset `start`.
fn column_of(start: usize) -> (r: u32)
    ensures
        r == column(start as int),
        start < 0xffff_ffff ==> r == start + 1,
{
    let wide: u64 = start as u64;
    let low: u32 = #[verifier::truncate] (wide as u32);
    assert(low == wide % 0x1_0000_0000) by (bit_vector)
        requires
            low == wide as u32,
    ;
    low.saturating_add(1)
}

impl Scan {
    /// Takes in one more line, which takes up `buf` from `from` to `to`.
    fn take_line(
        &mut self,
        buf: &[u8],
        matcher: &Matcher,
        max_line_len: Option<usize>,
        floor: i32,
        line_no: u64,
        from: usize,
        to: usize,
        Ghost(done): Ghost<Seq<Seq<u8>>>,
    )
        requires
            matcher.wf(),
            from <= to <= buf@.len(),
            old(self).covers(*matcher, buf@, done, max_line_len, floor),
            done.len() + 1 == line_no,
            old(self).matches + old(self).skipped <= done.len(),
        ensures
            final(self).covers(
                *matcher,
                buf@,
                done.push(line_text(buf@, from as int, to as int)),
                max_line_len,
                floor,
            ),
            final(self).matches + final(self).skipped <= done.len() + 1,
    {
        let (start, end) = text_bounds(buf, from, to);
        let ghost text = line_text(buf@, from as int, to as int);
        let ghost longer = done.push(text);
        assert(longer.drop_last() =~= done);
        let line: &[u8] = &buf[start..end];
        if let Some(cap) = max_line_len {
            if line.len() > cap {
                self.skipped = self.skipped + 1;
                return;
            }
        }
        if let Some((score, offset)) = matcher.match_score(line) {
            self.matches = self.matches + 1;
            let hit: Hit = Hit { score, line_no, col: column_of(offset), start, end };
            proof {
                let before = found_in(*matcher, done, max_line_len);
                let all = found_in(*matcher, longer, max_line_len);
                assert(all == before.push(hit.found(buf@)));
                assert(all.drop_last() =~= before);
                reveal(Seq::filter);
            }
            if score > floor {
                let ghost hits = self.hits@;
                self.hits.push(hit);
                assert(found_by(self.hits@, buf@) =~= found_by(hits, buf@).push(hit.found(buf@)));
            }
        }
    }
}

/// Scans the lines of `buf` for matches. The hits are those that beat `floor`;
/// the counts are of all lines.
pub fn scan_buffer(
    buf: &[u8],
    matcher: &Matcher,
    max_line_len: Option<usize>,
    floor: i32,
) -> (r: Scan)
    requires
        matcher.wf(),
    ensures
        r.covers(*matcher, buf@, lines(buf@), max_line_len, floor),
{
    let newlines: Vec<usize> = find_all(NEWLINE, buf);
    let mut scan: Scan = Scan { hits: Vec::new(), matches: 0, skipped: 0 };
    let ghost mut done: Seq<Seq<u8>> = Seq::empty();
    let mut line_start: usize = 0;
    let mut i: usize = 0;
    proof {
        reveal(Seq::filter);
        assert(found_by(scan.hits@, buf@) =~= above(found_in(*matcher, done, max_line_len), floor));
        assert(done + lines_from(buf@, 0) =~= lines(buf@));
    }
    while i < newlines.len()
        invariant
            matcher.wf(),
            i <= newlines@.len(),
            i <= line_start <= buf@.len(),
            line_start == if i == 0 {
                0
            } else {
                newlines@[i - 1] + 1
            },
            forall|a: int, b: int| 0 <= a < b < newlines@.len() ==> newlines@[a] < newlines@[b],
            forall|a: int|
                0 <= a < newlines@.len() ==> #[trigger] newlines@[a] < buf@.len()
                    && buf@[newlines@[a] as int] == NEWLINE,
            forall|p: int|
                0 <= p < buf@.len() && #[trigger] buf@[p] == NEWLINE ==> newlines@.contains(
                    p as usize,
                ),
            done.len() == i,
            lines(buf@) == done + lines_from(buf@, line_start as int),
            scan.matches + scan.skipped <= i,
            scan.covers(*matcher, buf@, done, max_line_len, floor),
        decreases newlines@.len() - i,
    {
        let newline: usize = newlines[i];
        let ghost text = line_text(buf@, line_start as int, newline as int);
        proof {
            if i > 0 {
                assert(newlines@[i - 1] < newlines@[i as int]);
            }
            assert forall|q: int| line_start <= q < newline implies #[trigger] buf@[q]
                != NEWLINE by {
                if buf@[q] == NEWLINE {
                    let j = choose|j: int| 0 <= j < newlines@.len() && newlines@[j] == q as usize;
                    if j < i - 1 {
                        assert(newlines@[j] < newlines@[i - 1]);
                    } else if j > i {
                        assert(newlines@[i as int] < newlines@[j]);
                    }
                }
            }
            lemma_line_end_is(buf@, line_start as int, newline as int);
            assert(done + lines_from(buf@, line_start as int) =~= done.push(text) + lines_from(
                buf@,
                newline + 1,
            ));
        }
        assert(newline < buf.len());
        scan.take_line(
            buf,
            matcher,
            max_line_len,
            floor,
            i as u64 + 1,
            line_start,
            newline,
            Ghost(done),
        );
        proof {
            done = done.push(text);
        }
        line_start = newline + 1;
        i += 1;
    }
    if line_start < buf.len() {
        let ghost text = line_text(buf@, line_start as int, buf@.len() as int);
        proof {
            assert forall|q: int| line_start <= q < buf@.len() implies #[trigger] buf@[q]
                != NEWLINE by {
                if buf@[q] == NEWLINE {
                    let j = choose|j: int| 0 <= j < newlines@.len() && newlines@[j] == q as usize;
                    if j < i - 1 {
                        assert(newlines@[j] < newlines@[i - 1]);
                    }
                }
            }
            lemma_line_end_is(buf@, line_start as int, buf@.len() as int);
            assert(lines_from(buf@, buf@.len() as int + 1) =~= Seq::empty());
            assert(done + lines_from(buf@, line_start as int) =~= done.push(text));
        }
        scan.take_line(
            buf,
            matcher,
            max_line_len,
            floor,
            i as u64 + 1,
            line_start,
            buf.len(),
            Ghost(done),
        );
    } else {
        assert(lines_from(buf@, line_start as int) =~= Seq::empty());
        assert(done + lines_from(buf@, line_start as int) =~= done);
    }
    scan
}

/// The matches `found`, in the file whose path and a colon are `prefix`.
pub open spec fn entries_of(prefix: Seq<u8>, found: Seq<Found>) -> Seq<Entry> {
    found.map_values(|f: Found| entry_of(prefix, f))
}

/// Offers the hits of a scan of `buf` to `topk`, in their order.
pub fn offer_hits(topk: &mut TopK, prefix: &[u8], buf: &[u8], hits: &Vec<Hit>)
    requires
        old(topk).wf(),
        forall|i: int| 0 <= i < hits@.len() ==> (#[trigger] hits@[i]).within(buf@),
        old(topk)@.can_absorb(entries_of(prefix@, found_by(hits@, buf@))),
    ensures
        final(topk).wf(),
        old(topk)@.absorbed(entries_of(prefix@, found_by(hits@, buf@)), final(topk)@),
{
    let ghost es = entries_of(prefix@, found_by(hits@, buf@));
    let mut i: usize = 0;
    assert(es.take(0) =~= Seq::empty());
    while i < hits.len()
        invariant
            i <= hits@.len(),
            es == entries_of(prefix@, found_by(hits@, buf@)),
            forall|j: int| 0 <= j < hits@.len() ==> (#[trigger] hits@[j]).within(buf@),
            topk.wf(),
            topk@.limit == old(topk)@.limit,
            old(topk)@.can_absorb(es),
            old(topk)@.absorbed(es.take(i as int), topk@),
        decreases hits@.len() - i,
    {
        let hit: Hit = hits[i];
        let ghost between = topk@;
        assert(es[i as int] == entry_of(prefix@, hit.found(buf@)));
        assert(hits@[i as int].within(buf@));
        topk.try_insert_at(hit.score, prefix, hit.line_no, hit.col, &buf[hit.start..hit.end]);
        proof {
            let taken = es.take(i + 1);
            assert(taken.drop_last() =~= es.take(i as int));
            assert(taken.last() == es[i as int]);
            assert(between.offered(taken.last(), topk@));
            assert(old(topk)@.absorbed(taken.drop_last(), between));
        }
        i += 1;
    }
    assert(es.take(es.len() as int) =~= es);
}

/// The path without a leading `./`.
pub open spec fn stripped(path: Seq<u8>) -> Seq<u8> {
    if has_prefix(path, seq![0x2eu8, 0x2fu8]) {
        path.skip(2)
    } else {
        path
    }
}

/// The path without a leading `./`.
pub fn strip_dot_prefix(p: &[u8]) -> (r: &[u8])
    ensures
        r@ == stripped(p@),
        r@ == if p@.len() >= 2 && p@[0] == 0x2e && p@[1] == 0x2f {
            p@.skip(2)
        } else {
            p@
        },
{
    proof {
        leading_dot_is_stripped(p@);
    }
    let dot: [u8; 2] = [0x2e, 0x2f];
    assert(dot@ =~= seq![0x2eu8, 0x2fu8]);
    if starts_with(p, &dot) {
        &p[2..p.len()]
    } else {
        p
    }
}

/// What stands before the line number of each match in the file `path`.
pub open spec fn prefix_of(path: Seq<u8>) -> Seq<u8> {
    stripped(path).push(COLON)
}

/// Sets `prefix` to what stands before the line number of each match in the
/// file `path`.
pub fn write_prefix(path: &[u8], prefix: &mut Vec<u8>)
    ensures
        final(prefix)@ == prefix_of(path@),
        final(prefix)@ == if path@.len() >= 2 && path@[0] == 0x2e && path@[1] == 0x2f {
            path@.skip(2).push(0x3au8)
        } else {
            path@.push(0x3au8)
        },
{
    proof {
        leading_dot_is_stripped(path@);
    }
    prefix.clear();
    append(prefix, strip_dot_prefix(path));
    prefix.push(COLON);
    assert(prefix@ =~= prefix_of(path@));
}

/// The matches in a file, in the order of its lines.
pub open spec fn candidates(
    m: Matcher,
    path: Seq<u8>,
    buf: Seq<u8>,
    cap: Option<usize>,
) -> Seq<Entry> {
    entries_of(prefix_of(path), found_in(m, lines(buf), cap))
}

/// Searches the lines of `buf`, the contents of the file `path`, and offers the
/// matches to `topk` in the order of the lines. Returns how many lines match,
/// and how many were skipped because they are too long.
pub fn search_buffer(
    path: &[u8],
    buf: &[u8],
    matcher: &Matcher,
    topk: &mut TopK,
    prefix: &mut Vec<u8>,
    max_line_len: Option<usize>,
) -> (r: (u64, u64))
    requires
        matcher.wf(),
        old(topk).wf(),
        old(topk)@.can_absorb(candidates(*matcher, path@, buf@, max_line_len)),
    ensures
        final(topk).wf(),
        old(topk)@.absorbed(candidates(*matcher, path@, buf@, max_line_len), final(topk)@),
        final(prefix)@ == prefix_of(path@),
        r.0 == candidates(*matcher, path@, buf@, max_line_len).len(),
        r.1 == oversize_lines(lines(buf@), max_line_len),
{
    write_prefix(path, prefix);
    let floor: i32 = topk.cutoff();
    let scan: Scan = scan_buffer(buf, matcher, max_line_len, floor);
    let ghost found = found_in(*matcher, lines(buf@), max_line_len);
    let ghost all = entries_of(prefix@, found);
    let ghost kept = entries_of(prefix@, found_by(scan.hits@, buf@));
    proof {
        lemma_filter_commutes(prefix@, found, floor);
        assert(kept == beating(all, floor));
        assert(old(topk)@.can_absorb(kept)) by {
            broadcast use vstd::seq_lib::group_filter_ensures;

            assert forall|i: int| 0 <= i < kept.len() && old(topk)@.limit == 0 implies (
            #[trigger] kept[i]).score == i32::MIN by {
                all.lemma_filter_contains_rev(|e: Entry| e.score > floor, kept[i]);
                assert(all.contains(kept[i]));
            }
        }
    }
    offer_hits(topk, prefix.as_slice(), buf, &scan.hits);
    proof {
        old(topk).lemma_wf();
        leaving_out_is_safe(old(topk)@, all, topk@, floor);
    }
    (scan.matches, scan.skipped)
}

/// Keeping the matches that beat `floor` is the same before and after naming
/// the file.
proof fn lemma_filter_commutes(prefix: Seq<u8>, found: Seq<Found>, floor: i32)
    ensures
        entries_of(prefix, above(found, floor)) == beating(entries_of(prefix, found), floor),
    decreases found.len(),
{
    reveal(Seq::filter);
    let es = entries_of(prefix, found);
    if found.len() > 0 {
        lemma_filter_commutes(prefix, found.drop_last(), floor);
        assert(es.drop_last() =~= entries_of(prefix, found.drop_last()));
    }
    assert(entries_of(prefix, above(found, floor)) =~= beating(es, floor));
}

/// A zero byte is among the first bytes of `buf`.
pub open spec fn looks_binary(buf: Seq<u8>) -> bool {
    exists|p: int| 0 <= p < buf.len() && p < BINARY_PROBE && #[trigger] buf[p] == 0
}

/// Whether `buf` is the contents of a binary file.
pub fn is_binary(buf: &[u8]) -> (r: bool)
    ensures
        r == looks_binary(buf@),
        r <==> exists|p: int| 0 <= p < buf@.len() && p < 8192 && #[trigger] buf@[p] == 0,
{
    let probe_end: usize = if buf.len() < BINARY_PROBE {
        buf.len()
    } else {
        BINARY_PROBE
    };
    let probe: &[u8] = &buf[0..probe_end];
    assert(forall|p: int| 0 <= p < probe_end ==> #[trigger] probe@[p] == buf@[p]);
    assert(forall|p: int| 0 <= p < probe_end ==> #[trigger] buf@[p] == probe@[p]);
    find_byte(0, probe).is_some()
}

/// What to do with an entry of the directory tree.
#[derive(Clone, Copy, PartialEq, Eq, Structural)]
pub enum Visit {
    /// Leave the tree.
    Quit,
    /// Go on to the next entry.
    Skip,
    /// Search the file, then go on.
    Search,
}

/// Decides what to do with an entry of the directory tree. `is_file` is `None`
/// where the entry could not be read, or its type is not known.
pub fn visit(stats: &mut Stats, cancelled: bool, is_file: Option<bool>) -> (r: Visit)
    ensures
        r == if cancelled {
            Visit::Quit
        } else if is_file == Some(true) {
            Visit::Search
        } else {
            Visit::Skip
        },
        *final(stats) == if r == Visit::Search {
            Stats { files_seen: counted(old(stats).files_seen, 1), ..*old(stats) }
        } else {
            *old(stats)
        },
{
    if cancelled {
        return Visit::Quit;
    }
    match is_file {
        Some(true) => {
            count(&mut stats.files_seen, 1);
            Visit::Search
        },
        _ => Visit::Skip,
    }
}

/// What happened to the file that is being searched.
pub enum FileEvent {
    /// The file could not be opened.
    OpenFailed,
    /// The file was opened, and is this long.
    Opened { size: u64 },
    /// The file could not be read to its end.
    ReadFailed,
    /// The file was read; this many bytes came.
    Loaded { len: usize },
    /// The contents, of this length, were looked at for a zero byte.
    Probed { len: usize, binary: bool },
    /// The contents were looked at for the needle bytes.
    Filtered { passes: bool },
    /// The lines were searched.
    Searched { matches: u64, skipped: u64 },
}

/// What to do next with the file that is being searched.
#[derive(Clone, Copy, PartialEq, Eq, Structural)]
pub enum FileAction {
    /// Read the file.
    Load,
    /// Look for a zero byte.
    Probe,
    /// Look for the needle bytes.
    Filter,
    /// Search the lines.
    Search,
    /// The file is done.
    Stop,
}

/// The file is larger than the limits allow.
pub open spec fn oversize(size: u64, limits: Limits) -> bool {
    limits.max_file_size matches Some(cap) && size > cap
}

/// What follows upon an event.
pub open spec fn next_action(event: FileEvent, limits: Limits) -> FileAction {
    match event {
        FileEvent::Opened { size } if !oversize(size, limits) => FileAction::Load,
        FileEvent::Loaded { .. } => FileAction::Probe,
        FileEvent::Probed { len, binary } if !binary => if len > PREFILTER_THRESHOLD {
            FileAction::Filter
        } else {
            FileAction::Search
        },
        FileEvent::Filtered { passes } if passes => FileAction::Search,
        _ => FileAction::Stop,
    }
}

/// The counters after an event, in a phase that took `elapsed_ns` nanoseconds.
pub open spec fn next_stats(
    stats: Stats,
    event: FileEvent,
    elapsed_ns: nat,
    limits: Limits,
) -> Stats {
    let timed_io = Stats { ns_io: counted(stats.ns_io, elapsed_ns), ..stats };
    let searching = next_action(event, limits) == FileAction::Search;
    match event {
        FileEvent::OpenFailed => timed_io,
        FileEvent::Opened { size } => if oversize(size, limits) {
            Stats { files_oversize_skip: counted(stats.files_oversize_skip, 1), ..timed_io }
        } else {
            stats
        },
        FileEvent::ReadFailed => timed_io,
        FileEvent::Loaded { len } => Stats {
            bytes_read: counted(stats.bytes_read, len as nat),
            ..timed_io
        },
        FileEvent::Probed { binary, .. } => Stats {
            ns_binary_check: counted(stats.ns_binary_check, elapsed_ns),
            files_binary_skip: counted(
                stats.files_binary_skip,
                if binary {
                    1
                } else {
                    0
                },
            ),
            files_searched: counted(
                stats.files_searched,
                if searching {
                    1
                } else {
                    0
                },
            ),
            ..stats
        },
        FileEvent::Filtered { passes } => Stats {
            ns_prefilter: counted(stats.ns_prefilter, elapsed_ns),
            files_prefilter_skip: counted(
                stats.files_prefilter_skip,
                if passes {
                    0
                } else {
                    1
                },
            ),
            files_searched: counted(
                stats.files_searched,
                if searching {
                    1
                } else {
                    0
                },
            ),
            ..stats
        },
        FileEvent::Searched { matches, skipped } => Stats {
            ns_search: counted(stats.ns_search, elapsed_ns),
            matches: counted(stats.matches, matches as nat),
            lines_oversize_skip: counted(stats.lines_oversize_skip, skipped as nat),
            ..stats
        },
    }
}

/// Decides what to do next with the file that is being searched, and counts the
/// event. `elapsed_ns` is the time of the phase that ended with it; opening
/// and reading are one phase.
pub fn advance(stats: &mut Stats, event: FileEvent, elapsed_ns: u128, limits: Limits) -> (r:
    FileAction)
    ensures
        r == next_action(event, limits),
        *final(stats) == next_stats(*old(stats), event, elapsed_ns as nat, limits),
        match event {
            FileEvent::Opened { size } => r == if limits.max_file_size is None || size
                <= limits.max_file_size.unwrap() {
                FileAction::Load
            } else {
                FileAction::Stop
            },
            FileEvent::Loaded { .. } => r == FileAction::Probe,
            FileEvent::Probed { len, binary } => r == if binary {
                FileAction::Stop
            } else if len > 65536 {
                FileAction::Filter
            } else {
                FileAction::Search
            },
            FileEvent::Filtered { passes } => r == if passes {
                FileAction::Search
            } else {
                FileAction::Stop
            },
            _ => r == FileAction::Stop,
        },
{
    match event {
        FileEvent::OpenFailed => {
            Stats::add_ns(&mut stats.ns_io, elapsed_ns);
            FileAction::Stop
        },
        FileEvent::Opened { size } => {
            if let Some(cap) = limits.max_file_size {
                if size > cap {
                    count(&mut stats.files_oversize_skip, 1);
                    Stats::add_ns(&mut stats.ns_io, elapsed_ns);
                    return FileAction::Stop;
                }
            }
            FileAction::Load
        },
        FileEvent::ReadFailed => {
            Stats::add_ns(&mut stats.ns_io, elapsed_ns);
            FileAction::Stop
        },
        FileEvent::Loaded { len } => {
            Stats::add_ns(&mut stats.ns_io, elapsed_ns);
            count(&mut stats.bytes_read, len as u64);
            FileAction::Probe
        },
        FileEvent::Probed { len, binary } => {
            Stats::add_ns(&mut stats.ns_binary_check, elapsed_ns);
            if binary {
                count(&mut stats.files_binary_skip, 1);
                return FileAction::Stop;
            }
            if len > PREFILTER_THRESHOLD {
                return FileAction::Filter;
            }
            count(&mut stats.files_searched, 1);
            FileAction::Search
        },
        FileEvent::Filtered { passes } => {
            Stats::add_ns(&mut stats.ns_prefilter, elapsed_ns);
            if !passes {
                count(&mut stats.files_prefilter_skip, 1);
                return FileAction::Stop;
            }
            count(&mut stats.files_searched, 1);
            FileAction::Search
        },
        FileEvent::Searched { matches, skipped } => {
            Stats::add_ns(&mut stats.ns_search, elapsed_ns);
            count(&mut stats.matches, matches);
            if skipped > 0 {
                count(&mut stats.lines_oversize_skip, skipped);
            }
            FileAction::Stop
        },
    }
}

/// Every line of a buffer is a part of the buffer, without a line feed.
pub proof fn lines_are_parts(buf: Seq<u8>, i: int)
    requires
        0 <= i < lines(buf).len(),
    ensures
        !lines(buf)[i].contains(NEWLINE),
        exists|a: int, b: int|
            0 <= a <= b <= buf.len() && lines(buf)[i] == #[trigger] buf.subrange(a, b),
{
    lemma_lines_are_parts(buf, 0, i);
}

/// Every line from `from` on is a part of the buffer, without a line feed.
proof fn lemma_lines_are_parts(buf: Seq<u8>, from: int, i: int)
    requires
        0 <= from,
        0 <= i < lines_from(buf, from).len(),
    ensures
        !lines_from(buf, from)[i].contains(NEWLINE),
        exists|a: int, b: int|
            0 <= a <= b <= buf.len() && lines_from(buf, from)[i] == #[trigger] buf.subrange(a, b),
    decreases buf.len() + 1 - from,
{
    lemma_line_end(buf, from);
    let to = line_end(buf, from);
    if i > 0 {
        assert(lines_from(buf, from)[i] == lines_from(buf, to + 1)[i - 1]);
        lemma_lines_are_parts(buf, to + 1, i - 1);
    } else {
        let text = line_text(buf, from, to);
        let raw = buf.subrange(from, to);
        let end = if raw.len() > 0 && raw.last() == CARRIAGE_RETURN {
            to - 1
        } else {
            to
        };
        assert(chomped(raw) =~= buf.subrange(from, end));
        let start = if from == 0 && has_prefix(chomped(raw), byte_order_mark()) {
            from + 3
        } else {
            from
        };
        assert(text =~= buf.subrange(start, end));
        assert forall|k: int| 0 <= k < text.len() implies text[k] != NEWLINE by {
            assert(text[k] == buf[start + k]);
        }
    }
}

/// A path loses a leading dot and slash, once, and nothing else; what stands
/// before a line number is that and a colon.
pub proof fn leading_dot_is_stripped(path: Seq<u8>)
    ensures
        stripped(seq![0x2eu8, 0x2fu8] + path) == path,
        path.len() >= 2 && path[0] == 0x2e && path[1] == 0x2f ==> stripped(path) == path.skip(2),
        !(path.len() >= 2 && path[0] == 0x2e && path[1] == 0x2f) ==> stripped(path) == path,
        prefix_of(path) == stripped(path).push(0x3au8),
{
    let dot = seq![0x2eu8, 0x2fu8];
    assert((dot + path).subrange(0, 2) =~= dot);
    assert((dot + path).skip(2) =~= path);
    if path.len() >= 2 && path[0] == 0x2e && path[1] == 0x2f {
        assert(path.subrange(0, 2) =~= dot);
    } else if path.len() >= 2 {
        assert(path.subrange(0, 2)[0] == path[0] && path.subrange(0, 2)[1] == path[1]);
    }
}

/// A file looks binary exactly if one of its first 8192 bytes is zero: bytes of
/// other values do not matter, nor does what comes later.
pub proof fn only_a_zero_byte_looks_binary(buf: Seq<u8>, tail: Seq<u8>)
    ensures
        looks_binary(buf) <==> exists|p: int|
            0 <= p < buf.len() && p < 8192 && #[trigger] buf[p] == 0,
        !buf.contains(0u8) ==> !looks_binary(buf),
        buf.len() <= 8192 && buf.contains(0u8) ==> looks_binary(buf),
        buf.len() >= 8192 ==> looks_binary(buf + tail) == looks_binary(buf),
        looks_binary(buf) ==> looks_binary(buf + tail),
{
    let all = buf + tail;
    if looks_binary(buf) {
        let p = choose|p: int| 0 <= p < buf.len() && p < BINARY_PROBE && #[trigger] buf[p] == 0;
        assert(buf.contains(buf[p]));
        assert(all[p] == 0);
    }
    if buf.len() <= 8192 && buf.contains(0u8) {
        let p = choose|p: int| 0 <= p < buf.len() && buf[p] == 0u8;
        assert(buf[p] == 0);
    }
    if buf.len() >= 8192 && looks_binary(all) {
        let p = choose|p: int| 0 <= p < all.len() && p < BINARY_PROBE && #[trigger] all[p] == 0;
        assert(buf[p] == 0);
    }
}

/// The limits, in numbers: files of up to 10 MiB and lines of up to 64 KiB are
/// searched by default, 8 KiB are looked at for a zero byte, and files of more
/// than 64 KiB go through the prefilter.
pub proof fn limits_in_numbers()
    ensures
        DEFAULT_MAX_FILE_SIZE == 10_485_760,
        DEFAULT_MAX_LINE_LEN == 65_536,
        BINARY_PROBE == 8_192,
        PREFILTER_THRESHOLD == 65_536,
{
}

/// Columns count from 1, up to the last one that 32 bits hold.
pub proof fn columns_count_from_one(start: int)
    requires
        0 <= start,
    ensures
        start < 0xffff_ffff ==> column(start) == start + 1,
        start == 0xffff_ffff ==> column(start) == 0xffff_ffff,
        column(start + 0x1_0000_0000) == column(start),
{
}

/// A line feed parts the lines in front of it from those behind it; only the
/// first line of a file can lose a byte order mark.
pub proof fn line_feed_parts_lines(a: Seq<u8>, b: Seq<u8>)
    requires
        !(b.len() >= 3 && b[0] == 0xef && b[1] == 0xbb && b[2] == 0xbf),
    ensures
        lines(a.push(0x0au8) + b) == lines(a.push(0x0au8)) + lines(b),
        lines(Seq::empty()) == Seq::<Seq<u8>>::empty(),
{
    lemma_lines_parted(a, b, 0);
    assert(lines(Seq::empty()) =~= Seq::<Seq<u8>>::empty());
    if b.len() > 0 {
        let end = line_end(b, 0);
        lemma_line_end(b, 0);
        lemma_first_line(b);
        let text = chomped(b.take(end));
        assert(unmarked(text) == text) by {
            if has_prefix(text, byte_order_mark()) {
                let mark = text.subrange(0, 3);
                assert(mark[0] == b[0] && mark[1] == b[1] && mark[2] == b[2]);
            }
        }
        if end >= b.len() {
            assert(b.take(end) =~= b);
            assert(lines(b) =~= later_lines(b));
        }
    } else {
        assert(lines(b) =~= later_lines(b));
    }
}

/// The lines from `from` on of a buffer that goes on after a line feed.
proof fn lemma_lines_parted(a: Seq<u8>, b: Seq<u8>, from: int)
    requires
        0 <= from <= a.len() + 1,
    ensures
        lines_from(a.push(NEWLINE) + b, from) == lines_from(a.push(NEWLINE), from) + later_lines(b),
    decreases a.len() + 1 - from,
{
    let head = a.push(NEWLINE);
    let all = head + b;
    if from == head.len() {
        lemma_later_lines(all, from);
        assert(all.skip(from) =~= b);
        assert(lines_from(head, from) =~= Seq::empty());
        assert(lines_from(head, from) + later_lines(b) =~= later_lines(b));
    } else {
        let end = line_end(head, from);
        lemma_line_end(head, from);
        assert(end < head.len()) by {
            assert(head[head.len() - 1] == NEWLINE);
        }
        assert forall|q: int| from <= q < end implies #[trigger] all[q] != NEWLINE by {
            assert(head[q] != NEWLINE);
        }
        assert(all[end] == head[end]);
        lemma_line_end_is(all, from, end);
        assert(all.subrange(from, end) =~= head.subrange(from, end));
        lemma_lines_parted(a, b, end + 1);
        assert(lines_from(all, from) =~= lines_from(head, from) + later_lines(b));
    }
}

/// A buffer without line feeds is one line, and stays that with a line feed at
/// its end: its text is all of it, but for a byte order mark at the start and one
/// carriage return at the end.
pub proof fn text_of_one_line(text: Seq<u8>, marked: bool, returned: bool)
    requires
        !text.contains(0x0au8),
        marked || !(text.len() >= 3 && text[0] == 0xef && text[1] == 0xbb && text[2] == 0xbf),
        returned || text.len() == 0 || text.last() != 0x0d,
    ensures
        ({
            let whole = (if marked {
                seq![0xefu8, 0xbbu8, 0xbfu8]
            } else {
                Seq::empty()
            }) + text + (if returned {
                seq![0x0du8]
            } else {
                Seq::empty()
            });
            &&& whole.len() > 0 ==> lines(whole) == seq![text]
            &&& lines(whole.push(0x0au8)) == seq![text]
        }),
{
    let mark = if marked {
        byte_order_mark()
    } else {
        Seq::empty()
    };
    let back = if returned {
        seq![CARRIAGE_RETURN]
    } else {
        Seq::empty()
    };
    let whole = mark + text + back;
    let fed = whole.push(NEWLINE);
    let n = whole.len() as int;
    assert forall|q: int| 0 <= q < n implies #[trigger] whole[q] != NEWLINE by {
        if mark.len() <= q < mark.len() + text.len() {
            assert(text.contains(text[q - mark.len()]));
        }
    }
    assert forall|q: int| 0 <= q < n implies #[trigger] fed[q] != NEWLINE by {
        assert(whole[q] != NEWLINE);
    }
    assert(chomped(whole) =~= mark + text);
    assert(unmarked(mark + text) =~= text) by {
        if marked {
            assert((mark + text).subrange(0, 3) =~= byte_order_mark());
        } else if text.len() >= 3 {
            let front = (mark + text).subrange(0, 3);
            assert(front[0] == text[0] && front[1] == text[1] && front[2] == text[2]);
        }
    }
    lemma_line_end_is(fed, 0, n);
    lemma_first_line(fed);
    assert(fed.take(n) =~= whole);
    assert(fed.skip(n + 1).len() == 0);
    assert(lines(fed) =~= seq![text]);
    if n > 0 {
        lemma_line_end_is(whole, 0, n);
        lemma_first_line(whole);
        assert(whole.take(n) =~= whole);
        assert(lines(whole) =~= seq![text]);
    }
}

/// A byte order mark at the start of a later line belongs to its text.
pub proof fn later_mark_is_text(a: Seq<u8>, text: Seq<u8>)
    requires
        !text.contains(0x0au8),
        text.len() == 0 || text.last() != 0x0d,
    ensures
        lines(a.push(0x0au8) + (seq![0xefu8, 0xbbu8, 0xbfu8] + text)) == lines(
            a.push(0x0au8),
        ).push(seq![0xefu8, 0xbbu8, 0xbfu8] + text),
{
    let b = byte_order_mark() + text;
    lemma_lines_parted(a, b, 0);
    assert forall|q: int| 0 <= q < b.len() implies #[trigger] b[q] != NEWLINE by {
        if q >= 3 {
            assert(text.contains(text[q - 3]));
        }
    }
    lemma_line_end_is(b, 0, b.len() as int);
    assert(chomped(b) =~= b);
    assert(later_lines(b) =~= seq![b]);
    assert(lines(a.push(NEWLINE)) + seq![b] =~= lines(a.push(NEWLINE)).push(b));
}

/// What is found is in its line: the line has the number that is given, it is not
/// longer than the cap, and its best match has the score, and the start before
/// the column, that are given.
pub proof fn found_is_in_its_line(m: Matcher, lines: Seq<Seq<u8>>, cap: Option<usize>, i: int)
    requires
        lines.len() <= u64::MAX,
        0 <= i < found_in(m, lines, cap).len(),
    ensures
        ({
            let f = found_in(m, lines, cap)[i];
            &&& 1 <= f.line_no <= lines.len()
            &&& f.line == lines[f.line_no - 1]
            &&& cap is Some ==> f.line.len() <= cap.unwrap()
            &&& m.best_match(f.line) is Some
            &&& f.score == m.best_match(f.line).unwrap().0
            &&& 0 <= m.best_match(f.line).unwrap().1 < 0xffff_ffff ==> f.col == m.best_match(
                f.line,
            ).unwrap().1 + 1
        }),
{
    let f = found_in(m, lines, cap)[i];
    assert(found_in(m, lines, cap).contains(f));
    each_matching_line_is_found(m, lines, cap, f);
}

/// Every line that matches and is not longer than the cap is found, under its
/// number.
pub proof fn matching_line_is_found(
    m: Matcher,
    lines: Seq<Seq<u8>>,
    cap: Option<usize>,
    k: int,
) -> (i: int)
    requires
        lines.len() <= u64::MAX,
        0 <= k < lines.len(),
        m.best_match(lines[k]) is Some,
        cap is None || lines[k].len() <= cap.unwrap(),
    ensures
        0 <= i < found_in(m, lines, cap).len(),
        found_in(m, lines, cap)[i].line_no == k + 1,
{
    let (score, start) = m.best_match(lines[k]).unwrap();
    let f = Found { score, line_no: (k + 1) as u64, col: column(start), line: lines[k] };
    each_matching_line_is_found(m, lines, cap, f);
    choose|i: int| 0 <= i < found_in(m, lines, cap).len() && found_in(m, lines, cap)[i] == f
}

/// Each line that is longer than the cap counts as one, and no other does.
pub proof fn long_lines_add_up(
    a: Seq<Seq<u8>>,
    b: Seq<Seq<u8>>,
    line: Seq<u8>,
    cap: Option<usize>,
)
    ensures
        oversize_lines(a + b, cap) == oversize_lines(a, cap) + oversize_lines(b, cap),
        oversize_lines(Seq::empty(), cap) == 0,
        oversize_lines(seq![line], cap) == if cap is Some && line.len() > cap.unwrap() {
            1nat
        } else {
            0nat
        },
    decreases b.len(),
{
    reveal_with_fuel(oversize_lines, 2);
    assert(seq![line].drop_last() =~= Seq::<Seq<u8>>::empty());
    if b.len() == 0 {
        assert(a + b =~= a);
    } else {
        assert((a + b).drop_last() =~= a + b.drop_last());
        long_lines_add_up(a, b.drop_last(), line, cap);
    }
}

/// A file offers what is found in its lines, in their order, with its path in
/// front.
pub proof fn candidates_are_what_is_found(
    m: Matcher,
    path: Seq<u8>,
    buf: Seq<u8>,
    cap: Option<usize>,
    i: int,
)
    ensures
        candidates(m, path, buf, cap).len() == found_in(m, lines(buf), cap).len(),
        0 <= i < found_in(m, lines(buf), cap).len() ==> {
            let e = candidates(m, path, buf, cap)[i];
            let f = found_in(m, lines(buf), cap)[i];
            &&& e.score == f.score
            &&& e.line_no == f.line_no
            &&& e.col == f.col
            &&& e.line == f.line
            &&& e.prefix == if path.len() >= 2 && path[0] == 0x2e && path[1] == 0x2f {
                path.skip(2).push(0x3au8)
            } else {
                path.push(0x3au8)
            }
        },
{
    leading_dot_is_stripped(path);
}

/// The hits of a scan are the matches that beat its floor: each is one, with the
/// text of its line between its bounds, and each such match is one.
pub proof fn hits_beat_the_floor(
    scan: Scan,
    m: Matcher,
    buf: Seq<u8>,
    cap: Option<usize>,
    floor: i32,
    f: Found,
)
    requires
        scan.covers(m, buf, lines(buf), cap, floor),
    ensures
        scan.matches == found_in(m, lines(buf), cap).len(),
        scan.skipped == oversize_lines(lines(buf), cap),
        (exists|i: int|
            0 <= i < scan.hits@.len() && {
                let h = #[trigger] scan.hits@[i];
                &&& h.start <= h.end <= buf.len()
                &&& f.score == h.score
                &&& f.line_no == h.line_no
                &&& f.col == h.col
                &&& f.line == buf.subrange(h.start as int, h.end as int)
            }) <==> found_in(m, lines(buf), cap).contains(f) && f.score > floor,
{
    let found = found_in(m, lines(buf), cap);
    let kept = above(found, floor);
    let p = |g: Found| g.score > floor;
    let by = found_by(scan.hits@, buf);
    if found.contains(f) && f.score > floor {
        let k = choose|k: int| 0 <= k < found.len() && found[k] == f;
        found.lemma_filter_contains(p, k);
        let i = choose|i: int| 0 <= i < by.len() && by[i] == f;
        assert(scan.hits@[i].found(buf) == f);
        assert(scan.hits@[i].within(buf));
    }
    if exists|i: int|
        0 <= i < scan.hits@.len() && {
            let h = #[trigger] scan.hits@[i];
            &&& h.start <= h.end <= buf.len()
            &&& f.score == h.score
            &&& f.line_no == h.line_no
            &&& f.col == h.col
            &&& f.line == buf.subrange(h.start as int, h.end as int)
        } {
        let i = choose|i: int|
            0 <= i < scan.hits@.len() && {
                let h = #[trigger] scan.hits@[i];
                &&& h.start <= h.end <= buf.len()
                &&& f.score == h.score
                &&& f.line_no == h.line_no
                &&& f.col == h.col
                &&& f.line == buf.subrange(h.start as int, h.end as int)
            };
        assert(by[i] == f);
        assert(kept.contains(f));
        found.lemma_filter_contains_rev(p, f);
        found.lemma_filter_pred(p, i);
    }
}

/// What follows upon what happened to a file: it is read unless it is larger than
/// the cap, then looked at for a zero byte; one that has none is searched, one of
/// more than 65536 bytes only if the prefilter lets it pass; in all other cases
/// it is done.
pub proof fn what_follows(event: FileEvent, limits: Limits)
    ensures
        match event {
            FileEvent::Opened { size } => next_action(event, limits)
                == if limits.max_file_size is None || size <= limits.max_file_size.unwrap() {
                FileAction::Load
            } else {
                FileAction::Stop
            },
            FileEvent::Loaded { .. } => next_action(event, limits) == FileAction::Probe,
            FileEvent::Probed { len, binary } => next_action(event, limits) == if binary {
                FileAction::Stop
            } else if len > 65536 {
                FileAction::Filter
            } else {
                FileAction::Search
            },
            FileEvent::Filtered { passes } => next_action(event, limits) == if passes {
                FileAction::Search
            } else {
                FileAction::Stop
            },
            _ => next_action(event, limits) == FileAction::Stop,
        },
        event matches FileEvent::Opened { size } ==> (oversize(size, limits)
            <==> limits.max_file_size is Some && size > limits.max_file_size.unwrap()),
{
}

/// What an event counts, counter by counter: its time for the phase that it ends,
/// one file for the way in which it was settled, and what was read, found or
/// skipped.
pub proof fn what_is_counted(stats: Stats, event: FileEvent, elapsed_ns: nat, limits: Limits)
    ensures
        ({
            let after = next_stats(stats, event, elapsed_ns, limits);
            let too_large = event is Opened && limits.max_file_size is Some && event->size
                > limits.max_file_size.unwrap();
            let searched = event is Probed && !event->binary && event->Probed_len <= 65536
                || event is Filtered && event->passes;
            let ends_io = event is OpenFailed || event is ReadFailed || event is Loaded
                || too_large;
            &&& after.files_seen == stats.files_seen
            &&& after.ns_write == stats.ns_write
            &&& after.ns_total == stats.ns_total
            &&& after.ns_io == if ends_io {
                counted(stats.ns_io, elapsed_ns)
            } else {
                stats.ns_io
            }
            &&& after.ns_binary_check == if event is Probed {
                counted(stats.ns_binary_check, elapsed_ns)
            } else {
                stats.ns_binary_check
            }
            &&& after.ns_prefilter == if event is Filtered {
                counted(stats.ns_prefilter, elapsed_ns)
            } else {
                stats.ns_prefilter
            }
            &&& after.ns_search == if event is Searched {
                counted(stats.ns_search, elapsed_ns)
            } else {
                stats.ns_search
            }
            &&& after.files_oversize_skip == if too_large {
                counted(stats.files_oversize_skip, 1)
            } else {
                stats.files_oversize_skip
            }
            &&& after.files_binary_skip == if event is Probed && event->binary {
                counted(stats.files_binary_skip, 1)
            } else {
                stats.files_binary_skip
            }
            &&& after.files_prefilter_skip == if event is Filtered && !event->passes {
                counted(stats.files_prefilter_skip, 1)
            } else {
                stats.files_prefilter_skip
            }
            &&& after.files_searched == if searched {
                counted(stats.files_searched, 1)
            } else {
                stats.files_searched
            }
            &&& after.bytes_read == if event is Loaded {
                counted(stats.bytes_read, event->Loaded_len as nat)
            } else {
                stats.bytes_read
            }
            &&& after.matches == if event is Searched {
                counted(stats.matches, event->matches as nat)
            } else {
                stats.matches
            }
            &&& after.lines_oversize_skip == if event is Searched {
                counted(stats.lines_oversize_skip, event->skipped as nat)
            } else {
                stats.lines_oversize_skip
            }
        }),
{
    lemma_none_more(stats.files_binary_skip);
    lemma_none_more(stats.files_prefilter_skip);
    lemma_none_more(stats.files_searched);
}

/// `buf` with a carriage return in front of each line feed.
pub open spec fn crlf(buf: Seq<u8>) -> Seq<u8>
    decreases buf.len(),
{
    if buf.len() == 0 {
        Seq::empty()
    } else if buf[0] == NEWLINE {
        seq![CARRIAGE_RETURN, NEWLINE] + crlf(buf.drop_first())
    } else {
        seq![buf[0]] + crlf(buf.drop_first())
    }
}

/// The texts of the lines of `rest`, the part of a buffer from the start of some
/// line on that is not the first.
spec fn later_lines(rest: Seq<u8>) -> Seq<Seq<u8>>
    decreases rest.len(),
    via line_leaves_less
{
    let end = line_end(rest, 0);
    if rest.len() == 0 {
        Seq::empty()
    } else if end >= rest.len() {
        seq![chomped(rest)]
    } else {
        seq![chomped(rest.take(end))] + later_lines(rest.skip(end + 1))
    }
}

#[via_fn]
proof fn line_leaves_less(rest: Seq<u8>) {
    lemma_line_end(rest, 0);
}

/// A line ends in a part of a buffer where it does in the buffer.
proof fn lemma_line_end_in_part(buf: Seq<u8>, from: int)
    requires
        0 <= from <= buf.len(),
    ensures
        line_end(buf, from) == from + line_end(buf.skip(from), 0),
{
    let rest = buf.skip(from);
    let end = line_end(rest, 0);
    lemma_line_end(rest, 0);
    assert forall|q: int| from <= q < from + end implies #[trigger] buf[q] != NEWLINE by {
        assert(rest[q - from] == buf[q]);
    }
    if end < rest.len() {
        assert(rest[end] == buf[from + end]);
    }
    lemma_line_end_is(buf, from, from + end);
}

/// The lines after the first depend only on the part of the buffer that they
/// take up.
proof fn lemma_later_lines(buf: Seq<u8>, from: int)
    requires
        0 < from <= buf.len(),
    ensures
        lines_from(buf, from) == later_lines(buf.skip(from)),
    decreases buf.len() - from,
{
    let rest = buf.skip(from);
    let end = line_end(rest, 0);
    lemma_line_end(rest, 0);
    lemma_line_end_in_part(buf, from);
    if rest.len() > 0 {
        assert(buf.subrange(from, from + end) =~= rest.take(end));
        if end < rest.len() {
            lemma_later_lines(buf, from + end + 1);
            assert(buf.skip(from + end + 1) =~= rest.skip(end + 1));
        } else {
            assert(rest.take(end) =~= rest);
            assert(lines_from(buf, from + end + 1) =~= Seq::empty());
        }
        assert(lines_from(buf, from) =~= later_lines(rest));
    } else {
        assert(lines_from(buf, from) =~= later_lines(rest));
    }
}

/// The lines of a buffer, the first one apart.
proof fn lemma_first_line(buf: Seq<u8>)
    requires
        buf.len() > 0,
    ensures
        lines(buf) == {
            let end = line_end(buf, 0);
            seq![unmarked(chomped(buf.take(end)))] + (if end < buf.len() {
                later_lines(buf.skip(end + 1))
            } else {
                Seq::empty()
            })
        },
{
    let end = line_end(buf, 0);
    lemma_line_end(buf, 0);
    assert(buf.subrange(0, end) =~= buf.take(end));
    if end < buf.len() {
        lemma_later_lines(buf, end + 1);
    } else {
        assert(lines_from(buf, end + 1) =~= Seq::empty());
    }
}

/// What stands before the first line feed stays as it is.
proof fn lemma_crlf_head(buf: Seq<u8>, n: int)
    requires
        0 <= n <= buf.len(),
        forall|q: int| 0 <= q < n ==> #[trigger] buf[q] != NEWLINE,
    ensures
        crlf(buf) == buf.take(n) + crlf(buf.skip(n)),
    decreases n,
{
    if n == 0 {
        assert(buf.skip(0) =~= buf);
        assert(crlf(buf) =~= buf.take(0) + crlf(buf.skip(0)));
    } else {
        let tail = buf.drop_first();
        assert forall|q: int| 0 <= q < n - 1 implies #[trigger] tail[q] != NEWLINE by {
            assert(buf[q + 1] != NEWLINE);
        }
        lemma_crlf_head(tail, n - 1);
        assert(buf[0] != NEWLINE);
        assert(tail.skip(n - 1) =~= buf.skip(n));
        assert(crlf(buf) =~= buf.take(n) + crlf(buf.skip(n)));
    }
}

/// How the first line of a buffer without carriage returns and the rest of the
/// buffer look once each line feed has one.
proof fn lemma_crlf_line(buf: Seq<u8>)
    requires
        buf.len() > 0,
        !buf.contains(CARRIAGE_RETURN),
    ensures
        ({
            let end = line_end(buf, 0);
            let end2 = line_end(crlf(buf), 0);
            &&& 0 <= end <= buf.len()
            &&& 0 <= end2 <= crlf(buf).len()
            &&& crlf(buf).len() > 0
            &&& chomped(crlf(buf).take(end2)) == chomped(buf.take(end))
            &&& end < buf.len() <==> end2 < crlf(buf).len()
            &&& end < buf.len() ==> {
                &&& crlf(buf).skip(end2 + 1) == crlf(buf.skip(end + 1))
                &&& !buf.skip(end + 1).contains(CARRIAGE_RETURN)
            }
        }),
{
    let end = line_end(buf, 0);
    let out = crlf(buf);
    lemma_line_end(buf, 0);
    lemma_crlf_head(buf, end);
    let head = buf.take(end);
    assert forall|q: int| 0 <= q < end implies head[q] != CARRIAGE_RETURN by {
        assert(buf.contains(buf[q]));
    }
    if end < buf.len() {
        let rest = buf.skip(end);
        let tail = buf.skip(end + 1);
        assert(rest[0] == NEWLINE);
        assert(rest.drop_first() =~= tail);
        assert(out =~= head + seq![CARRIAGE_RETURN, NEWLINE] + crlf(tail));
        assert forall|q: int| 0 <= q < end + 1 implies #[trigger] out[q] != NEWLINE by {
            if q < end {
                assert(out[q] == buf[q]);
            }
        }
        lemma_line_end_is(out, 0, end + 1);
        assert(out.take(end + 1).drop_last() =~= head);
        assert(out.skip(end + 2) =~= crlf(tail));
        assert forall|q: int| 0 <= q < tail.len() implies tail[q] != CARRIAGE_RETURN by {
            assert(buf.contains(buf[end + 1 + q]));
        }
    } else {
        assert(buf.skip(end).len() == 0);
        assert(out =~= buf);
    }
}

/// Lines after the first that end in a carriage return and a line feed are the
/// same as lines that end in a line feed.
proof fn lemma_later_lines_crlf(rest: Seq<u8>)
    requires
        !rest.contains(CARRIAGE_RETURN),
    ensures
        later_lines(crlf(rest)) == later_lines(rest),
    decreases rest.len(),
{
    if rest.len() > 0 {
        let end = line_end(rest, 0);
        let end2 = line_end(crlf(rest), 0);
        lemma_crlf_line(rest);
        if end < rest.len() {
            lemma_later_lines_crlf(rest.skip(end + 1));
        } else {
            assert(rest.take(end) =~= rest);
            assert(crlf(rest).take(end2) =~= crlf(rest));
        }
    }
}

/// It makes no difference to a search whether the lines of a file end in a line
/// feed or in a carriage return and a line feed: the lines are the same, and so
/// are the matches and the number of lines that are too long.
pub proof fn line_ends_make_no_difference(
    m: Matcher,
    path: Seq<u8>,
    buf: Seq<u8>,
    cap: Option<usize>,
)
    requires
        !buf.contains(CARRIAGE_RETURN),
    ensures
        lines(crlf(buf)) == lines(buf),
        candidates(m, path, crlf(buf), cap) == candidates(m, path, buf, cap),
        oversize_lines(lines(crlf(buf)), cap) == oversize_lines(lines(buf), cap),
{
    if buf.len() > 0 {
        let end = line_end(buf, 0);
        lemma_crlf_line(buf);
        lemma_first_line(buf);
        lemma_first_line(crlf(buf));
        if end < buf.len() {
            lemma_later_lines_crlf(buf.skip(end + 1));
        }
    } else {
        assert(crlf(buf) =~= buf);
    }
}

/// It makes no difference to a search whether the last line of a file ends in a
/// line feed.
pub proof fn last_line_feed_makes_no_difference(
    m: Matcher,
    path: Seq<u8>,
    buf: Seq<u8>,
    cap: Option<usize>,
)
    requires
        buf.len() > 0,
        buf.last() != NEWLINE,
    ensures
        lines(buf.push(NEWLINE)) == lines(buf),
        candidates(m, path, buf.push(NEWLINE), cap) == candidates(m, path, buf, cap),
        oversize_lines(lines(buf.push(NEWLINE)), cap) == oversize_lines(lines(buf), cap),
{
    lemma_last_line_feed(buf, 0);
}

/// A line feed at the end adds no line after `from`.
proof fn lemma_last_line_feed(buf: Seq<u8>, from: int)
    requires
        0 <= from < buf.len(),
        buf.last() != NEWLINE,
    ensures
        lines_from(buf.push(NEWLINE), from) == lines_from(buf, from),
    decreases buf.len() - from,
{
    let longer = buf.push(NEWLINE);
    let end = line_end(buf, from);
    lemma_line_end(buf, from);
    assert forall|q: int| from <= q < end implies #[trigger] longer[q] != NEWLINE by {
        assert(buf[q] != NEWLINE);
    }
    lemma_line_end_is(longer, from, end);
    assert(longer.subrange(from, end) =~= buf.subrange(from, end));
    if end < buf.len() {
        lemma_last_line_feed(buf, end + 1);
    } else {
        assert(lines_from(buf, end + 1) =~= Seq::empty());
        assert(lines_from(longer, end + 1) =~= Seq::empty());
    }
}

/// The prefilter loses no match: in a buffer where some needle byte does not
/// occur, no line matches.
pub proof fn prefilter_loses_no_match(m: Matcher, buf: Seq<u8>, cap: Option<usize>, i: int)
    requires
        0 <= i < m.lo@.len(),
        !m.occurs(i, buf),
    ensures
        found_in(m, lines(buf), cap).len() == 0,
{
    assert forall|k: int| 0 <= k < lines(buf).len() implies m.best_match(
        #[trigger] lines(buf)[k],
    ) is None by {
        let line = lines(buf)[k];
        lines_are_parts(buf, k);
        let (a, b) = choose|a: int, b: int|
            0 <= a <= b <= buf.len() && line == #[trigger] buf.subrange(a, b);
        if m.is_match(line) {
            let ps = choose|ps: Seq<int>| #[trigger] m.is_alignment(line, ps);
            assert(0 <= ps[i] < line.len() && m.accepts(i, line[ps[i]]));
            assert(line[ps[i]] == buf[a + ps[i]]);
        }
    }
    lemma_nothing_found(m, lines(buf), cap);
}

/// Where no line matches, nothing is found.
proof fn lemma_nothing_found(m: Matcher, lines: Seq<Seq<u8>>, cap: Option<usize>)
    requires
        forall|k: int| 0 <= k < lines.len() ==> m.best_match(#[trigger] lines[k]) is None,
    ensures
        found_in(m, lines, cap).len() == 0,
    decreases lines.len(),
{
    if lines.len() > 0 {
        assert(m.best_match(lines[lines.len() - 1]) is None);
        assert forall|k: int| 0 <= k < lines.drop_last().len() implies m.best_match(
            #[trigger] lines.drop_last()[k],
        ) is None by {
            assert(m.best_match(lines[k]) is None);
        }
        lemma_nothing_found(m, lines.drop_last(), cap);
    }
}

/// What comes of doing `action` to a file with these contents.
pub open spec fn answer(
    m: Matcher,
    contents: Seq<u8>,
    limits: Limits,
    action: FileAction,
) -> FileEvent {
    let len = contents.len() as usize;
    match action {
        FileAction::Load => FileEvent::Loaded { len },
        FileAction::Probe => FileEvent::Probed { len, binary: looks_binary(contents) },
        FileAction::Filter => FileEvent::Filtered { passes: m.all_occur(contents) },
        _ => FileEvent::Searched {
            matches: found_in(m, lines(contents), limits.max_line_len).len() as u64,
            skipped: oversize_lines(lines(contents), limits.max_line_len) as u64,
        },
    }
}

/// How many actions on a file can still follow `action`.
pub open spec fn steps_left(action: FileAction) -> nat {
    match action {
        FileAction::Load => 4,
        FileAction::Probe => 3,
        FileAction::Filter => 2,
        FileAction::Search => 1,
        FileAction::Stop => 0,
    }
}

/// The matches that are offered if a file with these contents is handled from
/// `action` on, as `next_action` decides: all of the file where its lines are
/// searched.
pub open spec fn offered_from(
    m: Matcher,
    path: Seq<u8>,
    contents: Seq<u8>,
    limits: Limits,
    action: FileAction,
) -> Seq<Entry>
    decreases steps_left(action),
{
    match action {
        FileAction::Stop => Seq::empty(),
        FileAction::Search => candidates(m, path, contents, limits.max_line_len),
        _ => offered_from(
            m,
            path,
            contents,
            limits,
            next_action(answer(m, contents, limits, action), limits),
        ),
    }
}

/// A file that is opened and read offers exactly the matches in its lines,
/// whether or not the prefilter was asked; but one that is too large or looks
/// binary offers none.
pub proof fn file_offers_its_matches(
    m: Matcher,
    path: Seq<u8>,
    contents: Seq<u8>,
    limits: Limits,
    size: u64,
)
    requires
        contents.len() <= usize::MAX,
    ensures
        offered_from(m, path, contents, limits, next_action(FileEvent::Opened { size }, limits))
            == if oversize(size, limits) || looks_binary(contents) {
            Seq::empty()
        } else {
            candidates(m, path, contents, limits.max_line_len)
        },
{
    reveal_with_fuel(offered_from, 5);
    let all = candidates(m, path, contents, limits.max_line_len);
    if !m.all_occur(contents) {
        let i = choose|i: int| 0 <= i < m.lo@.len() && !#[trigger] m.occurs(i, contents);
        prefilter_loses_no_match(m, contents, limits.max_line_len, i);
        assert(all =~= Seq::empty());
    }
}

/// A file that cannot be opened, or not be read to its end, offers nothing.
pub proof fn unread_file_offers_nothing(
    m: Matcher,
    path: Seq<u8>,
    contents: Seq<u8>,
    limits: Limits,
)
    ensures
        offered_from(m, path, contents, limits, next_action(FileEvent::OpenFailed, limits))
            == Seq::<Entry>::empty(),
        offered_from(m, path, contents, limits, next_action(FileEvent::ReadFailed, limits))
            == Seq::<Entry>::empty(),
{
}

/// `f` is what is found in line `f.line_no` of `lines`.
pub open spec fn is_found(m: Matcher, lines: Seq<Seq<u8>>, cap: Option<usize>, f: Found) -> bool {
    &&& 1 <= f.line_no <= lines.len()
    &&& f.line == lines[f.line_no - 1]
    &&& fits(cap, f.line)
    &&& m.best_match(f.line) matches Some((score, start)) && f.score == score && f.col == column(
        start,
    )
}

/// What is found is what there is: the best match of each line that matches and
/// is not too long, under the number of the line, and nothing else.
pub proof fn each_matching_line_is_found(
    m: Matcher,
    lines: Seq<Seq<u8>>,
    cap: Option<usize>,
    f: Found,
)
    requires
        lines.len() <= u64::MAX,
    ensures
        found_in(m, lines, cap).contains(f) <==> is_found(m, lines, cap, f),
    decreases lines.len(),
{
    let found = found_in(m, lines, cap);
    if lines.len() > 0 {
        let head = lines.drop_last();
        let before = found_in(m, head, cap);
        each_matching_line_is_found(m, head, cap, f);
        if f.line_no < lines.len() && f.line_no >= 1 {
            assert(head[f.line_no - 1] == lines[f.line_no - 1]);
        }
        if before.contains(f) {
            let i = choose|i: int| 0 <= i < before.len() && before[i] == f;
            assert(found[i] == f);
        }
        if found.contains(f) {
            let i = choose|i: int| 0 <= i < found.len() && found[i] == f;
            if i < before.len() {
                assert(before[i] == f);
            }
        }
        if is_found(m, lines, cap, f) && f.line_no == lines.len() {
            assert(found == before.push(f));
            assert(found[before.len() as int] == f);
        }
    }
}

/// The lines that were found come in ascending order, each of them once.
pub proof fn found_in_line_order(
    m: Matcher,
    lines: Seq<Seq<u8>>,
    cap: Option<usize>,
    i: int,
    j: int,
)
    requires
        lines.len() <= u64::MAX,
        0 <= i < j < found_in(m, lines, cap).len(),
    ensures
        found_in(m, lines, cap)[i].line_no < found_in(m, lines, cap)[j].line_no,
    decreases lines.len(),
{
    let head = lines.drop_last();
    let before = found_in(m, head, cap);
    if j < before.len() {
        found_in_line_order(m, head, cap, i, j);
    } else {
        assert(before.contains(before[i]));
        each_matching_line_is_found(m, head, cap, before[i]);
    }
}

/// How many files were searched or skipped, for whatever reason.
pub open spec fn settled(stats: Stats) -> u64 {
    counted(
        0,
        stats.files_searched as nat + stats.files_binary_skip as nat
            + stats.files_prefilter_skip as nat + stats.files_oversize_skip as nat,
    )
}

/// The event settles whether the file is searched or skipped.
pub open spec fn settles(event: FileEvent, limits: Limits) -> bool {
    match event {
        FileEvent::Opened { size } => oversize(size, limits),
        FileEvent::Probed { len, binary } => binary || len <= PREFILTER_THRESHOLD,
        FileEvent::Filtered { .. } => true,
        _ => false,
    }
}

/// A file is counted once, as searched or as skipped for one reason: by the
/// event that settles it. From there on the file is searched, if at all, and no
/// later event counts it.
#[verifier::spinoff_prover]
#[verifier::rlimit(40)]
pub proof fn file_is_counted_once(
    stats: Stats,
    event: FileEvent,
    elapsed_ns: nat,
    limits: Limits,
)
    ensures
        settled(next_stats(stats, event, elapsed_ns, limits)) == counted(
            settled(stats),
            if settles(event, limits) {
                1
            } else {
                0
            },
        ),
        settles(event, limits) ==> next_action(event, limits) == FileAction::Search || next_action(
            event,
            limits,
        ) == FileAction::Stop,
        event is Searched ==> !settles(event, limits) && next_action(event, limits)
            == FileAction::Stop,
{
    let after = next_stats(stats, event, elapsed_ns, limits);
    let f = stats.files_searched;
    let b = stats.files_binary_skip;
    let p = stats.files_prefilter_skip;
    let o = stats.files_oversize_skip;
    lemma_none_more(f);
    lemma_none_more(b);
    lemma_none_more(p);
    lemma_none_more(settled(stats));
    match event {
        FileEvent::Opened { size } => {
            assert(after.files_searched == f && after.files_binary_skip == b
                && after.files_prefilter_skip == p);
            lemma_one_more(o, f as nat + b as nat + p as nat);
        },
        FileEvent::Probed { len, binary } => {
            assert(after.files_prefilter_skip == p && after.files_oversize_skip == o);
            lemma_one_more(b, f as nat + p as nat + o as nat);
            lemma_one_more(f, b as nat + p as nat + o as nat);
        },
        FileEvent::Filtered { passes } => {
            assert(after.files_binary_skip == b && after.files_oversize_skip == o);
            lemma_one_more(p, f as nat + b as nat + o as nat);
            lemma_one_more(f, b as nat + p as nat + o as nat);
        },
        _ => {
            assert(after.files_searched == f && after.files_binary_skip == b
                && after.files_prefilter_skip == p && after.files_oversize_skip == o);
        },
    }
}

/// Counting one more in one counter counts one more in the sum.
proof fn lemma_one_more(x: u64, rest: nat)
    ensures
        counted(0, counted(x, 1) as nat + rest) == counted(counted(0, x as nat + rest), 1),
{
    let m = 0x1_0000_0000_0000_0000int;
    lemma_add_mod_noop(x + 1, rest as int, m);
    lemma_add_mod_noop((x + 1) % m, rest as int, m);
    lemma_add_mod_noop(x + rest, 1, m);
    lemma_add_mod_noop((x + rest) % m, 1, m);
}

/// Counting none leaves a counter as it is.
proof fn lemma_none_more(x: u64)
    ensures
        counted(x, 0) == x,
{
}

} // verus!
