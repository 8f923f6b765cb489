//! Output: one line for each match, as `path:line:column:content`.

use vstd::arithmetic::power::{lemma_pow0, pow};
use vstd::prelude::*;

use crate::args::{all_digits, count_of, digits_value};
use crate::bytes::{append, COLON, DIGIT_ZERO, NEWLINE};

verus! {

/// The decimal digits of `n`, without leading zeros.
pub open spec fn decimal(n: nat) -> Seq<u8>
    decreases n,
{
    if n < 10 {
        seq![(DIGIT_ZERO + n) as u8]
    } else {
        decimal(n / 10).push((DIGIT_ZERO + n % 10) as u8)
    }
}

/// The line that shows a match: the prefix, which is the path and a colon; the
/// line number; the column; and the content.
pub open spec fn match_record(prefix: Seq<u8>, line_no: nat, col: nat, line: Seq<u8>) -> Seq<u8> {
    (prefix + decimal(line_no)).push(COLON) + decimal(col).push(COLON) + line.push(NEWLINE)
}

/// Appends to `out` the line that shows a match.
#[inline]
pub fn emit_match(out: &mut Vec<u8>, prefix: &[u8], line_no: u64, col: u32, line: &[u8])
    ensures
        final(out)@ == old(out)@ + match_record(prefix@, line_no as nat, col as nat, line@),
        final(out)@ == old(out)@ + prefix@ + decimal(line_no as nat) + seq![0x3au8] + decimal(
            col as nat,
        ) + seq![0x3au8] + line@ + seq![0x0au8],
        final(out)@.len() == old(out)@.len() + prefix@.len() + decimal(line_no as nat).len()
            + decimal(col as nat).len() + line@.len() + 3,
        final(out)@.take(old(out)@.len() as int) == old(out)@,
        final(out)@.skip(final(out)@.len() - line@.len() - 1) == line@.push(0x0au8),
{
    append(out, prefix);
    write_u64(out, line_no);
    out.push(COLON);
    write_u64(out, col as u64);
    out.push(COLON);
    append(out, line);
    out.push(NEWLINE);
    proof {
        let parts = old(out)@ + prefix@ + decimal(line_no as nat) + seq![0x3au8] + decimal(
            col as nat,
        ) + seq![0x3au8] + line@ + seq![0x0au8];
        assert(out@ =~= old(out)@ + match_record(prefix@, line_no as nat, col as nat, line@));
        assert(out@ =~= parts);
        assert(parts.take(old(out)@.len() as int) =~= old(out)@);
        assert(parts.skip(parts.len() - line@.len() - 1) =~= line@.push(0x0au8));
    }
}

/// Appends the decimal digits of `n` to `out`.
#[inline]
fn write_u64(out: &mut Vec<u8>, n: u64)
    ensures
        final(out)@ == old(out)@ + decimal(n as nat),
{
    if n == 0 {
        out.push(DIGIT_ZERO);
        assert(out@ =~= old(out)@ + decimal(0));
        return;
    }
    let mut tmp: [u8; 20] = [0u8; 20];
    let mut i: usize = 20;
    let mut rest: u64 = n;
    assert(pow(10, 20) == 100_000_000_000_000_000_000) by {
        reveal(pow);
        reveal_with_fuel(pow, 21);
    }
    while rest > 0
        invariant
            n > 0,
            i <= 20,
            rest < pow(10, i as nat),
            rest > 0 ==> decimal(n as nat) == decimal(rest as nat) + tmp@.subrange(i as int, 20),
            rest == 0 ==> decimal(n as nat) == tmp@.subrange(i as int, 20),
        decreases rest,
    {
        proof {
            if i == 0 {
                lemma_pow0(10);
            } else {
                reveal_with_fuel(pow, 2);
                assert(pow(10, i as nat) == 10 * pow(10, (i - 1) as nat));
            }
        }
        let ghost shown = tmp@.subrange(i as int, 20);
        i -= 1;
        let digit: u8 = DIGIT_ZERO + (rest % 10) as u8;
        tmp[i] = digit;
        proof {
            assert(tmp@.subrange(i as int, 20) =~= seq![digit] + shown);
            if rest < 10 {
                assert(decimal(rest as nat) =~= seq![digit]);
            } else {
                assert(decimal(rest as nat) =~= decimal((rest / 10) as nat).push(digit));
                assert(decimal((rest / 10) as nat).push(digit) + shown =~= decimal(
                    (rest / 10) as nat,
                ) + tmp@.subrange(i as int, 20));
            }
        }
        rest = rest / 10;
    }
    append(out, &tmp[i..20]);
}

/// The decimal digits of a number are digits.
proof fn lemma_decimal_digits(n: nat)
    ensures
        decimal(n).len() > 0,
        all_digits(decimal(n)),
        digits_value(decimal(n)) == n,
    decreases n,
{
    reveal_with_fuel(digits_value, 2);
    if n < 10 {
        assert(decimal(n).drop_last() =~= Seq::empty());
    } else {
        lemma_decimal_digits(n / 10);
        assert(decimal(n).drop_last() =~= decimal(n / 10));
        assert forall|i: int| 0 <= i < decimal(n).len() implies 0x30 <= #[trigger] decimal(n)[i]
            <= 0x39 by {
            if i < decimal(n / 10).len() {
                assert(decimal(n)[i] == decimal(n / 10)[i]);
            }
        }
    }
}

/// A number that is written out reads back as the same number.
pub proof fn decimal_reads_back(n: nat)
    requires
        n <= usize::MAX,
    ensures
        count_of(decimal(n)) == Some(n),
{
    lemma_decimal_digits(n);
    assert(0x30 <= decimal(n)[0] <= 0x39);
}

/// A number below ten is written as its digit, and any other as what stands
/// before its last digit, and its last digit.
pub proof fn last_digit_is_written_last(n: nat, d: nat)
    requires
        d < 10,
    ensures
        decimal(d) == seq![(0x30 + d) as u8],
        n > 0 ==> decimal(10 * n + d) == decimal(n) + decimal(d),
{
    if n > 0 {
        assert((10 * n + d) / 10 == n && (10 * n + d) % 10 == d);
        assert(decimal(10 * n + d) =~= decimal(n) + decimal(d));
    }
}

/// A record holds the prefix, the line number, the column and the whole line, in
/// this order, with a colon after each number and a line feed at the end.
pub proof fn record_holds_all_parts(prefix: Seq<u8>, line_no: nat, col: nat, line: Seq<u8>)
    ensures
        ({
            let record = match_record(prefix, line_no, col, line);
            let a: int = prefix.len() + decimal(line_no).len() as int;
            let b: int = a + 1 + decimal(col).len();
            &&& record.len() == b + 1 + line.len() + 1
            &&& record.take(prefix.len() as int) == prefix
            &&& record.subrange(prefix.len() as int, a) == decimal(line_no)
            &&& record[a] == 0x3a
            &&& record.subrange(a + 1, b) == decimal(col)
            &&& record[b] == 0x3a
            &&& record.subrange(b + 1, b + 1 + line.len()) == line
            &&& record.last() == 0x0a
            &&& record.skip(record.len() - line.len() - 1) == line.push(0x0au8)
        }),
{
    let record = match_record(prefix, line_no, col, line);
    let a: int = prefix.len() + decimal(line_no).len() as int;
    let b: int = a + 1 + decimal(col).len();
    assert(record.take(prefix.len() as int) =~= prefix);
    assert(record.subrange(prefix.len() as int, a) =~= decimal(line_no));
    assert(record.subrange(a + 1, b) =~= decimal(col));
    assert(record.subrange(b + 1, b + 1 + line.len()) =~= line);
    assert(record.skip(record.len() - line.len() - 1) =~= line.push(0x0au8));
}

/// What a record says can be read back: two records with the same prefix are the
/// same only for the same line number, the same column and the same line.
pub proof fn record_reads_back(
    prefix: Seq<u8>,
    line_no: nat,
    col: nat,
    line: Seq<u8>,
    other_no: nat,
    other_col: nat,
    other: Seq<u8>,
)
    requires
        match_record(prefix, line_no, col, line) == match_record(
            prefix,
            other_no,
            other_col,
            other,
        ),
    ensures
        line_no == other_no,
        col == other_col,
        line == other,
{
    let record = match_record(prefix, line_no, col, line);
    record_holds_all_parts(prefix, line_no, col, line);
    record_holds_all_parts(prefix, other_no, other_col, other);
    let p = prefix.len() as int;
    lemma_number_ends_at_colon(record, p, line_no, other_no);
    lemma_number_ends_at_colon(record, p + decimal(line_no).len() + 1, col, other_col);
}

/// A number that ends at a colon reads in one way.
proof fn lemma_number_ends_at_colon(record: Seq<u8>, from: int, m: nat, n: nat)
    requires
        0 <= from,
        from + decimal(m).len() < record.len(),
        from + decimal(n).len() < record.len(),
        record.subrange(from, from + decimal(m).len()) == decimal(m),
        record.subrange(from, from + decimal(n).len()) == decimal(n),
        record[from + decimal(m).len()] == COLON,
        record[from + decimal(n).len()] == COLON,
    ensures
        m == n,
{
    lemma_decimal_digits(m);
    lemma_decimal_digits(n);
    let a = decimal(m).len() as int;
    let b = decimal(n).len() as int;
    if a < b {
        assert(decimal(n)[a] == record[from + a]);
    } else if b < a {
        assert(decimal(m)[b] == record[from + b]);
    }
}

/// A match takes up one line of output, if its path and its line do not hold a
/// line feed: the record holds one, at its end.
pub proof fn record_is_one_line(prefix: Seq<u8>, line_no: nat, col: nat, line: Seq<u8>)
    requires
        !prefix.contains(NEWLINE),
        !line.contains(NEWLINE),
    ensures
        match_record(prefix, line_no, col, line).last() == NEWLINE,
        !match_record(prefix, line_no, col, line).drop_last().contains(NEWLINE),
{
    lemma_decimal_digits(line_no);
    lemma_decimal_digits(col);
    let a = decimal(line_no);
    let b = decimal(col);
    let record = match_record(prefix, line_no, col, line);
    let body = record.drop_last();
    assert forall|i: int| 0 <= i < body.len() implies body[i] != NEWLINE by {
        let p = prefix.len() as int;
        let q = p + a.len();
        let r = q + 1 + b.len();
        if i < p {
            assert(body[i] == prefix[i]);
            assert(prefix.contains(prefix[i]));
        } else if i < q {
            assert(body[i] == a[i - p]);
        } else if i == q {
        } else if i < r {
            assert(body[i] == b[i - q - 1]);
        } else if i == r {
        } else {
            assert(body[i] == line[i - r - 1]);
            assert(line.contains(line[i - r - 1]));
        }
    }
}

} // verus!
