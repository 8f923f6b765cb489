//! The command line.

use vstd::prelude::*;
use vstd::string::{StrSliceExecFns, StringExecFns};
use vstd::utf8::{encode_utf8, encode_utf8_decode_utf8};

use crate::bytes::{same_bytes, DIGIT_ZERO};
use crate::walker::{Limits, DEFAULT_MAX_FILE_SIZE, DEFAULT_MAX_LINE_LEN};

verus! {

/// How many results are shown by default.
pub const DEFAULT_TOP_N: usize = 20;

/// What the command line asks for.
pub struct Args {
    pub needle: String,
    pub top_n: usize,
    pub limits: Limits,
}

/// What the command line asks for, as a value.
pub struct Request {
    pub needle: Seq<char>,
    pub top_n: nat,
    pub limits: Limits,
}

impl View for Args {
    type V = Request;

    open spec fn view(&self) -> Request {
        Request { needle: self.needle@, top_n: self.top_n as nat, limits: self.limits }
    }
}

/// What is wrong with the command line.
pub enum ArgError {
    /// `-n` is the last argument.
    MissingCount,
    /// The argument after `-n` is not a number.
    BadCount(String),
    /// The number after `-n` is zero.
    ZeroCount,
    /// An argument starts with a dash, and is no flag.
    UnknownFlag(String),
    /// There is more than one needle.
    TooManyPositionals,
    /// There is no needle.
    MissingPattern,
}

/// What is wrong with the command line, as a value.
pub enum Fault {
    MissingCount,
    BadCount(Seq<char>),
    ZeroCount,
    UnknownFlag(Seq<char>),
    TooManyPositionals,
    MissingPattern,
}

impl View for ArgError {
    type V = Fault;

    open spec fn view(&self) -> Fault {
        match self {
            ArgError::MissingCount => Fault::MissingCount,
            ArgError::BadCount(s) => Fault::BadCount(s@),
            ArgError::ZeroCount => Fault::ZeroCount,
            ArgError::UnknownFlag(s) => Fault::UnknownFlag(s@),
            ArgError::TooManyPositionals => Fault::TooManyPositionals,
            ArgError::MissingPattern => Fault::MissingPattern,
        }
    }
}

impl Fault {
    /// How the fault is reported.
    pub open spec fn text(self) -> Seq<char> {
        match self {
            Fault::MissingCount => "-n requires a value"@,
            Fault::BadCount(s) => "-n: invalid number: "@ + s,
            Fault::ZeroCount => "-n must be >= 1"@,
            Fault::UnknownFlag(s) => "unknown flag: "@ + s,
            Fault::TooManyPositionals => "too many positional arguments"@,
            Fault::MissingPattern => "missing PATTERN"@,
        }
    }
}

impl ArgError {
    /// How the error is reported.
    pub fn message(&self) -> (r: String)
        ensures
            r@ == self@.text(),
            match self {
                ArgError::MissingCount => r@ == "-n requires a value"@,
                ArgError::BadCount(s) => r@ == "-n: invalid number: "@ + s@,
                ArgError::ZeroCount => r@ == "-n must be >= 1"@,
                ArgError::UnknownFlag(s) => r@ == "unknown flag: "@ + s@,
                ArgError::TooManyPositionals => r@ == "too many positional arguments"@,
                ArgError::MissingPattern => r@ == "missing PATTERN"@,
            },
    {
        match self {
            ArgError::MissingCount => "-n requires a value".to_owned(),
            ArgError::BadCount(s) => {
                let mut r: String = "-n: invalid number: ".to_owned();
                r.append(s.as_str());
                r
            },
            ArgError::ZeroCount => "-n must be >= 1".to_owned(),
            ArgError::UnknownFlag(s) => {
                let mut r: String = "unknown flag: ".to_owned();
                r.append(s.as_str());
                r
            },
            ArgError::TooManyPositionals => "too many positional arguments".to_owned(),
            ArgError::MissingPattern => "missing PATTERN".to_owned(),
        }
    }
}

/// Every byte of `s` is a decimal digit.
pub open spec fn all_digits(s: Seq<u8>) -> bool {
    forall|i: int| 0 <= i < s.len() ==> 0x30 <= #[trigger] s[i] <= 0x39
}

/// The number whose decimal digits are `digits`.
pub open spec fn digits_value(digits: Seq<u8>) -> nat
    decreases digits.len(),
{
    if digits.len() == 0 {
        0
    } else {
        digits_value(digits.drop_last()) * 10 + (digits.last() - DIGIT_ZERO) as nat
    }
}

/// The digits of a number that may start with a plus sign.
pub open spec fn unsigned_part(s: Seq<u8>) -> Seq<u8> {
    if s.len() > 0 && s[0] == 0x2b {
        s.skip(1)
    } else {
        s
    }
}

/// The number that `s` stands for: decimal digits, after a plus sign or none,
/// with a value that a `usize` holds.
pub open spec fn count_of(s: Seq<u8>) -> Option<nat> {
    let digits = unsigned_part(s);
    if digits.len() > 0 && all_digits(digits) && digits_value(digits) <= usize::MAX {
        Some(digits_value(digits))
    } else {
        None
    }
}

/// Fewer digits stand for no larger a number.
proof fn lemma_value_grows(digits: Seq<u8>, i: int)
    requires
        all_digits(digits),
        0 <= i <= digits.len(),
    ensures
        digits_value(digits.take(i)) <= digits_value(digits),
    decreases digits.len() - i,
{
    if i == digits.len() {
        assert(digits.take(i) =~= digits);
    } else {
        let longer = digits.take(i + 1);
        assert(longer.drop_last() =~= digits.take(i));
        assert(longer.last() == digits[i]);
        lemma_value_grows(digits, i + 1);
    }
}

/// The number that `s` stands for, if it does for one.
fn parse_count(s: &[u8]) -> (r: Option<usize>)
    ensures
        match r {
            Some(n) => count_of(s@) == Some(n as nat),
            None => count_of(s@) is None,
        },
{
    let digits: &[u8] = if s.len() > 0 && s[0] == 0x2b {
        &s[1..s.len()]
    } else {
        s
    };
    assert(digits@ =~= unsigned_part(s@));
    if digits.len() == 0 {
        return None;
    }
    let mut i: usize = 0;
    while i < digits.len()
        invariant
            i <= digits@.len(),
            forall|j: int| 0 <= j < i ==> 0x30 <= #[trigger] digits@[j] <= 0x39,
            digits@ == unsigned_part(s@),
        decreases digits@.len() - i,
    {
        if digits[i] < 0x30 || digits[i] > 0x39 {
            assert(!all_digits(digits@));
            return None;
        }
        i += 1;
    }
    assert(all_digits(digits@));
    let mut n: usize = 0;
    let mut k: usize = 0;
    assert(digits@.take(0) =~= Seq::empty());
    while k < digits.len()
        invariant
            k <= digits@.len(),
            all_digits(digits@),
            digits@ == unsigned_part(s@),
            n == digits_value(digits@.take(k as int)),
        decreases digits@.len() - k,
    {
        let digit: usize = (digits[k] - DIGIT_ZERO) as usize;
        proof {
            let longer = digits@.take(k + 1);
            assert(longer.drop_last() =~= digits@.take(k as int));
            assert(longer.last() == digits@[k as int]);
            assert(digits_value(longer) == n * 10 + digit);
            lemma_value_grows(digits@, k + 1);
        }
        if n > usize::MAX / 10 {
            return None;
        }
        match (n * 10).checked_add(digit) {
            Some(sum) => {
                n = sum;
            },
            None => {
                return None;
            },
        }
        k += 1;
    }
    assert(digits@.take(digits@.len() as int) =~= digits@);
    Some(n)
}

/// Whether two strings are the same.
fn same_str(a: &str, b: &str) -> (r: bool)
    ensures
        r == (a@ == b@),
{
    proof {
        encode_utf8_decode_utf8(a@);
        encode_utf8_decode_utf8(b@);
    }
    same_bytes(a.as_bytes(), b.as_bytes())
}

/// What the arguments so far have fixed.
pub struct Chosen {
    pub needle: Option<Seq<char>>,
    pub top_n: nat,
    pub limits: Limits,
}

/// What holds where no argument says otherwise.
pub open spec fn defaults() -> Chosen {
    Chosen {
        needle: None,
        top_n: DEFAULT_TOP_N as nat,
        limits: Limits {
            max_file_size: Some(DEFAULT_MAX_FILE_SIZE),
            max_line_len: Some(DEFAULT_MAX_LINE_LEN),
        },
    }
}

/// What the arguments from `at` on ask for, after what was chosen before them.
pub open spec fn requested(args: Seq<Seq<char>>, at: int, chosen: Chosen) -> Result<Request, Fault>
    decreases args.len() - at,
{
    if at >= args.len() {
        match chosen.needle {
            Some(needle) => Ok(
                Request { needle, top_n: chosen.top_n, limits: chosen.limits },
            ),
            None => Err(Fault::MissingPattern),
        }
    } else if args[at] == "-n"@ {
        if at + 1 >= args.len() {
            Err(Fault::MissingCount)
        } else {
            match count_of(encode_utf8(args[at + 1])) {
                None => Err(Fault::BadCount(args[at + 1])),
                Some(n) => if n == 0 {
                    Err(Fault::ZeroCount)
                } else {
                    requested(args, at + 2, Chosen { top_n: n, ..chosen })
                },
            }
        }
    } else if args[at] == "--no-file-limit"@ {
        let limits = Limits { max_file_size: None, ..chosen.limits };
        requested(args, at + 1, Chosen { limits, ..chosen })
    } else if args[at] == "--no-line-limit"@ {
        let limits = Limits { max_line_len: None, ..chosen.limits };
        requested(args, at + 1, Chosen { limits, ..chosen })
    } else if args[at] == "--"@ {
        if at + 1 >= args.len() {
            Err(Fault::MissingPattern)
        } else if at + 2 < args.len() {
            Err(Fault::TooManyPositionals)
        } else {
            Ok(Request { needle: args[at + 1], top_n: chosen.top_n, limits: chosen.limits })
        }
    } else if args[at].len() > 1 && args[at][0] == '-' {
        Err(Fault::UnknownFlag(args[at]))
    } else if chosen.needle is None {
        requested(args, at + 1, Chosen { needle: Some(args[at]), ..chosen })
    } else {
        Err(Fault::TooManyPositionals)
    }
}

/// The arguments, as values.
pub open spec fn texts(args: Seq<String>) -> Seq<Seq<char>> {
    args.map_values(|a: String| a@)
}

/// Reads the command line, without the name of the program: flags and one
/// needle, in any order. A needle that looks like a flag follows `--`, as the
/// last argument.
pub fn parse_args(args: &Vec<String>) -> (r: Result<Args, ArgError>)
    ensures
        match r {
            Ok(a) => requested(texts(args@), 0, defaults()) == Ok::<Request, Fault>(a@),
            Err(e) => requested(texts(args@), 0, defaults()) == Err::<Request, Fault>(e@),
        },
        r matches Ok(a) ==> a.top_n >= 1,
{
    let mut needle: Option<String> = None;
    let mut top_n: usize = DEFAULT_TOP_N;
    let mut limits: Limits = Limits {
        max_file_size: Some(DEFAULT_MAX_FILE_SIZE),
        max_line_len: Some(DEFAULT_MAX_LINE_LEN),
    };
    let mut i: usize = 0;
    while i < args.len()
        invariant
            i <= args@.len(),
            top_n >= 1,
            requested(texts(args@), 0, defaults()) == requested(
                texts(args@),
                i as int,
                Chosen {
                    needle: match needle {
                        Some(s) => Some(s@),
                        None => None,
                    },
                    top_n: top_n as nat,
                    limits,
                },
            ),
        decreases args@.len() - i,
    {
        let a: &str = args[i].as_str();
        assert(texts(args@)[i as int] == a@);
        if same_str(a, "-n") {
            if i + 1 >= args.len() {
                return Err(ArgError::MissingCount);
            }
            let value: &String = &args[i + 1];
            assert(texts(args@)[i + 1] == value@);
            match parse_count(value.as_str().as_bytes()) {
                None => {
                    return Err(ArgError::BadCount(value.clone()));
                },
                Some(n) => {
                    if n == 0 {
                        return Err(ArgError::ZeroCount);
                    }
                    top_n = n;
                },
            }
            i += 2;
        } else if same_str(a, "--no-file-limit") {
            limits = Limits { max_file_size: None, max_line_len: limits.max_line_len };
            i += 1;
        } else if same_str(a, "--no-line-limit") {
            limits = Limits { max_file_size: limits.max_file_size, max_line_len: None };
            i += 1;
        } else if same_str(a, "--") {
            if i + 1 >= args.len() {
                return Err(ArgError::MissingPattern);
            }
            if i + 2 < args.len() {
                return Err(ArgError::TooManyPositionals);
            }
            assert(texts(args@)[i + 1] == args@[i + 1]@);
            return Ok(Args { needle: args[i + 1].clone(), top_n, limits });
        } else if a.unicode_len() > 1 && a.get_char(0) == '-' {
            return Err(ArgError::UnknownFlag(args[i].clone()));
        } else {
            if needle.is_some() {
                return Err(ArgError::TooManyPositionals);
            }
            needle = Some(args[i].clone());
            i += 1;
        }
    }
    match needle {
        Some(needle) => Ok(Args { needle, top_n, limits }),
        None => Err(ArgError::MissingPattern),
    }
}

/// A needle alone, which does not look like a flag, is searched for with the
/// default limits.
pub proof fn lone_needle_gets_defaults(needle: Seq<char>)
    requires
        needle.len() <= 1 || needle[0] != '-',
    ensures
        requested(seq![needle], 0, defaults()) == Ok::<Request, Fault>(
            Request { needle, top_n: 20, limits: defaults().limits },
        ),
{
    reveal_strlit("-n");
    reveal_strlit("--no-file-limit");
    reveal_strlit("--no-line-limit");
    reveal_strlit("--");
    reveal_with_fuel(requested, 2);
}

/// After `--` any needle can be searched for.
pub proof fn double_dash_admits_any_needle(needle: Seq<char>)
    ensures
        requested(seq!["--"@, needle], 0, defaults()) == Ok::<Request, Fault>(
            Request { needle, top_n: 20, limits: defaults().limits },
        ),
{
    reveal_strlit("-n");
    reveal_strlit("--no-file-limit");
    reveal_strlit("--no-line-limit");
    reveal_strlit("--");
    let args = seq!["--"@, needle];
    assert(args[0] == "--"@ && args[1] == needle);
    assert("--"@[1] != "-n"@[1]);
    assert("--"@.len() != "--no-file-limit"@.len());
    assert("--"@.len() != "--no-line-limit"@.len());
}

/// A request that is granted shows at least one result.
pub proof fn request_shows_something(args: Seq<Seq<char>>, at: int, chosen: Chosen)
    requires
        chosen.top_n >= 1,
    ensures
        requested(args, at, chosen) matches Ok(r) ==> r.top_n >= 1,
    decreases args.len() - at,
{
    if at < args.len() {
        if args[at] == "-n"@ && at + 1 < args.len() {
            if let Some(n) = count_of(encode_utf8(args[at + 1])) {
                if n > 0 {
                    request_shows_something(args, at + 2, Chosen { top_n: n, ..chosen });
                }
            }
        }
        let no_file = Limits { max_file_size: None, ..chosen.limits };
        request_shows_something(args, at + 1, Chosen { limits: no_file, ..chosen });
        let no_line = Limits { max_line_len: None, ..chosen.limits };
        request_shows_something(args, at + 1, Chosen { limits: no_line, ..chosen });
        request_shows_something(args, at + 1, Chosen { needle: Some(args[at]), ..chosen });
    }
}

/// What the command line asks for has as a value what it has.
pub proof fn request_is_what_was_asked(args: Args, all: Seq<String>, i: int)
    requires
        0 <= i < all.len(),
    ensures
        args@.needle == args.needle@,
        args@.top_n == args.top_n,
        args@.limits == args.limits,
        texts(all).len() == all.len(),
        texts(all)[i] == all[i]@,
{
}

/// An error as a value is the error.
pub proof fn fault_is_what_is_wrong(e: ArgError)
    ensures
        e is MissingCount <==> e@ is MissingCount,
        e is BadCount <==> e@ is BadCount,
        e is ZeroCount <==> e@ is ZeroCount,
        e is UnknownFlag <==> e@ is UnknownFlag,
        e is TooManyPositionals <==> e@ is TooManyPositionals,
        e is MissingPattern <==> e@ is MissingPattern,
        e matches ArgError::BadCount(s) ==> e@ == Fault::BadCount(s@),
        e matches ArgError::UnknownFlag(s) ==> e@ == Fault::UnknownFlag(s@),
{
}

/// What counts as a number: digits are worth their place, zeros in front do not
/// matter, one plus sign may stand in front, and nothing else may stand anywhere.
pub proof fn number_by_bytes(s: Seq<u8>, d: u8, i: int)
    requires
        0x30 <= d <= 0x39,
    ensures
        count_of(Seq::empty()) is None,
        digits_value(Seq::empty()) == 0,
        digits_value(s.push(d)) == 10 * digits_value(s) + (d - 0x30),
        s.len() > 0 && (forall|j: int| 0 <= j < s.len() ==> 0x30 <= #[trigger] s[j] <= 0x39) ==> {
            &&& digits_value(s) <= usize::MAX ==> count_of(s) == Some(digits_value(s))
            &&& digits_value(s) > usize::MAX ==> count_of(s) is None
            &&& count_of(seq![0x30u8] + s) == count_of(s)
            &&& count_of(seq![0x2bu8] + s) == count_of(s)
        },
        count_of(seq![0x2bu8]) is None,
        0 <= i < s.len() && !(0x30 <= s[i] <= 0x39) && !(i == 0 && s[0] == 0x2b)
            ==> count_of(s) is None,
{
    let empty = Seq::<u8>::empty();
    assert(unsigned_part(empty) =~= empty);
    assert(s.push(d).drop_last() =~= s);
    if s.len() > 0 && (forall|j: int| 0 <= j < s.len() ==> 0x30 <= #[trigger] s[j] <= 0x39) {
        assert(all_digits(s));
        assert(0x30 <= s[0] <= 0x39);
        let zero = seq![0x30u8] + s;
        let plus = seq![0x2bu8] + s;
        assert(plus.skip(1) =~= s);
        lemma_zero_in_front(s);
        assert forall|j: int| 0 <= j < zero.len() implies 0x30 <= #[trigger] zero[j] <= 0x39 by {
            if j > 0 {
                assert(0x30 <= s[j - 1] <= 0x39);
            }
        }
    }
    assert(seq![0x2bu8].skip(1).len() == 0);
    if 0 <= i < s.len() && !(0x30 <= s[i] <= 0x39) && !(i == 0 && s[0] == 0x2b) {
        let digits = unsigned_part(s);
        if s[0] == 0x2b {
            assert(digits[i - 1] == s[i]);
        } else {
            assert(digits[i] == s[i]);
        }
        assert(!all_digits(digits));
    }
}

/// A zero in front adds nothing.
proof fn lemma_zero_in_front(s: Seq<u8>)
    ensures
        digits_value(seq![0x30u8] + s) == digits_value(s),
    decreases s.len(),
{
    let zero = seq![0x30u8] + s;
    if s.len() == 0 {
        reveal_with_fuel(digits_value, 2);
        assert(zero.drop_last() =~= Seq::<u8>::empty());
        assert(zero.last() == 0x30);
    } else {
        assert(zero.drop_last() =~= seq![0x30u8] + s.drop_last());
        assert(zero.last() == s.last());
        lemma_zero_in_front(s.drop_last());
    }
}

/// What stands before the arguments that are read does not matter.
proof fn lemma_read_from(before: Seq<Seq<char>>, rest: Seq<Seq<char>>, at: int, chosen: Chosen)
    requires
        0 <= at,
    ensures
        requested(before + rest, before.len() + at, chosen) == requested(rest, at, chosen),
    decreases rest.len() - at,
{
    let all = before + rest;
    let n = before.len() as int;
    if at < rest.len() {
        assert(all[n + at] == rest[at]);
        if at + 1 < rest.len() {
            assert(all[n + at + 1] == rest[at + 1]);
            if let Some(count) = count_of(encode_utf8(rest[at + 1])) {
                lemma_read_from(before, rest, at + 2, Chosen { top_n: count, ..chosen });
            }
        }
        let no_file = Limits { max_file_size: None, ..chosen.limits };
        lemma_read_from(before, rest, at + 1, Chosen { limits: no_file, ..chosen });
        let no_line = Limits { max_line_len: None, ..chosen.limits };
        lemma_read_from(before, rest, at + 1, Chosen { limits: no_line, ..chosen });
        lemma_read_from(before, rest, at + 1, Chosen { needle: Some(rest[at]), ..chosen });
    }
}

/// The four flags are not the same, and each starts with a dash.
proof fn lemma_flags_differ()
    ensures
        "-n"@ != "--no-file-limit"@,
        "-n"@ != "--no-line-limit"@,
        "-n"@ != "--"@,
        "--no-file-limit"@ != "--no-line-limit"@,
        "--no-file-limit"@ != "--"@,
        "--no-line-limit"@ != "--"@,
        "-n"@[0] == '-' && "-n"@.len() > 1,
        "--no-file-limit"@[0] == '-' && "--no-file-limit"@.len() > 1,
        "--no-line-limit"@[0] == '-' && "--no-line-limit"@.len() > 1,
        "--"@[0] == '-' && "--"@.len() > 1,
{
    reveal_strlit("-n");
    reveal_strlit("--no-file-limit");
    reveal_strlit("--no-line-limit");
    reveal_strlit("--");
    assert("-n"@[1] != "--"@[1]);
    assert("--no-file-limit"@[5] != "--no-line-limit"@[5]);
}

/// Where the needle, the count and the limits come from when the first argument
/// is taken off, whatever was chosen before and whatever follows: each flag sets
/// what it is for and nothing else, the later of two counts holds, a second
/// needle or an argument that looks like a flag and is none is refused, and after
/// two dashes comes the needle and the end.
pub proof fn first_argument_says(
    first: Seq<char>,
    second: Seq<char>,
    rest: Seq<Seq<char>>,
    chosen: Chosen,
)
    ensures
        requested(Seq::empty(), 0, chosen) == match chosen.needle {
            Some(needle) => Ok::<Request, Fault>(
                Request { needle, top_n: chosen.top_n, limits: chosen.limits },
            ),
            None => Err::<Request, Fault>(Fault::MissingPattern),
        },
        requested(seq!["--no-file-limit"@] + rest, 0, chosen) == requested(
            rest,
            0,
            Chosen {
                needle: chosen.needle,
                top_n: chosen.top_n,
                limits: Limits {
                    max_file_size: None,
                    max_line_len: chosen.limits.max_line_len,
                },
            },
        ),
        requested(seq!["--no-line-limit"@] + rest, 0, chosen) == requested(
            rest,
            0,
            Chosen {
                needle: chosen.needle,
                top_n: chosen.top_n,
                limits: Limits {
                    max_file_size: chosen.limits.max_file_size,
                    max_line_len: None,
                },
            },
        ),
        requested(seq!["-n"@], 0, chosen) == Err::<Request, Fault>(Fault::MissingCount),
        requested(seq!["-n"@, second] + rest, 0, chosen) == match count_of(encode_utf8(second)) {
            None => Err::<Request, Fault>(Fault::BadCount(second)),
            Some(n) => if n == 0 {
                Err::<Request, Fault>(Fault::ZeroCount)
            } else {
                requested(
                    rest,
                    0,
                    Chosen { needle: chosen.needle, top_n: n, limits: chosen.limits },
                )
            },
        },
        requested(seq!["--"@], 0, chosen) == Err::<Request, Fault>(Fault::MissingPattern),
        requested(seq!["--"@, second] + rest, 0, chosen) == if rest.len() > 0 {
            Err::<Request, Fault>(Fault::TooManyPositionals)
        } else {
            Ok::<Request, Fault>(
                Request { needle: second, top_n: chosen.top_n, limits: chosen.limits },
            )
        },
        first.len() > 1 && first[0] == '-' && first != "-n"@ && first != "--no-file-limit"@ && first
            != "--no-line-limit"@ && first != "--"@ ==> requested(seq![first] + rest, 0, chosen)
            == Err::<Request, Fault>(Fault::UnknownFlag(first)),
        first.len() <= 1 || first[0] != '-' ==> requested(seq![first] + rest, 0, chosen) == if (
        chosen.needle is None) {
            requested(
                rest,
                0,
                Chosen { needle: Some(first), top_n: chosen.top_n, limits: chosen.limits },
            )
        } else {
            Err::<Request, Fault>(Fault::TooManyPositionals)
        },
{
    lemma_flags_differ();
    let no_file = Limits { max_file_size: None, ..chosen.limits };
    let no_line = Limits { max_line_len: None, ..chosen.limits };
    lemma_read_from(seq!["--no-file-limit"@], rest, 0, Chosen { limits: no_file, ..chosen });
    lemma_read_from(seq!["--no-line-limit"@], rest, 0, Chosen { limits: no_line, ..chosen });
    lemma_read_from(seq![first], rest, 0, Chosen { needle: Some(first), ..chosen });
    if let Some(n) = count_of(encode_utf8(second)) {
        lemma_read_from(seq!["-n"@, second], rest, 0, Chosen { top_n: n, ..chosen });
    }
    assert((seq!["--no-file-limit"@] + rest)[0] == "--no-file-limit"@);
    assert((seq!["--no-line-limit"@] + rest)[0] == "--no-line-limit"@);
    assert((seq!["-n"@, second] + rest)[0] == "-n"@);
    assert((seq!["-n"@, second] + rest)[1] == second);
    assert((seq!["--"@, second] + rest)[0] == "--"@);
    assert((seq!["--"@, second] + rest)[1] == second);
    assert((seq![first] + rest)[0] == first);
    assert(seq!["-n"@][0] == "-n"@ && seq!["--"@][0] == "--"@);
}

/// Flags may stand before the needle or behind it.
pub proof fn flags_stand_anywhere(needle: Seq<char>, count: Seq<char>, rest: Seq<Seq<char>>)
    requires
        needle.len() <= 1 || needle[0] != '-',
        count_of(encode_utf8(count)) is Some,
    ensures
        requested(seq![needle, "--no-file-limit"@] + rest, 0, defaults()) == requested(
            seq!["--no-file-limit"@, needle] + rest,
            0,
            defaults(),
        ),
        requested(seq![needle, "--no-line-limit"@] + rest, 0, defaults()) == requested(
            seq!["--no-line-limit"@, needle] + rest,
            0,
            defaults(),
        ),
        requested(seq![needle, "-n"@, count] + rest, 0, defaults()) == requested(
            seq!["-n"@, count, needle] + rest,
            0,
            defaults(),
        ),
{
    let d = defaults();
    let with_needle = Chosen { needle: Some(needle), ..d };
    let no_file = Chosen { limits: Limits { max_file_size: None, ..d.limits }, ..d };
    let no_line = Chosen { limits: Limits { max_line_len: None, ..d.limits }, ..d };
    let n = count_of(encode_utf8(count)).unwrap();
    let file = "--no-file-limit"@;
    let line = "--no-line-limit"@;
    assert(seq![needle, file] + rest =~= seq![needle] + (seq![file] + rest));
    assert(seq![file, needle] + rest =~= seq![file] + (seq![needle] + rest));
    assert(seq![needle, line] + rest =~= seq![needle] + (seq![line] + rest));
    assert(seq![line, needle] + rest =~= seq![line] + (seq![needle] + rest));
    assert(seq![needle, "-n"@, count] + rest =~= seq![needle] + (seq!["-n"@, count] + rest));
    assert(seq!["-n"@, count, needle] + rest =~= seq!["-n"@, count] + (seq![needle] + rest));
    first_argument_says(needle, count, seq![file] + rest, d);
    first_argument_says(needle, count, seq![line] + rest, d);
    first_argument_says(needle, count, seq!["-n"@, count] + rest, d);
    first_argument_says(needle, count, rest, with_needle);
    first_argument_says(needle, count, seq![needle] + rest, d);
    first_argument_says(needle, count, rest, no_file);
    first_argument_says(needle, count, rest, no_line);
    first_argument_says(needle, count, rest, Chosen { top_n: n, ..d });
}

/// Of two counts the later one holds.
pub proof fn later_count_holds(a: Seq<char>, b: Seq<char>, rest: Seq<Seq<char>>)
    requires
        count_of(encode_utf8(a)) is Some,
        count_of(encode_utf8(a)).unwrap() >= 1,
    ensures
        requested(seq!["-n"@, a, "-n"@, b] + rest, 0, defaults()) == requested(
            seq!["-n"@, b] + rest,
            0,
            defaults(),
        ),
{
    let d = defaults();
    let n = count_of(encode_utf8(a)).unwrap();
    assert(seq!["-n"@, a, "-n"@, b] + rest =~= seq!["-n"@, a] + (seq!["-n"@, b] + rest));
    first_argument_says(a, a, seq!["-n"@, b] + rest, d);
    first_argument_says(a, b, rest, Chosen { top_n: n, ..d });
    first_argument_says(a, b, rest, d);
}

/// What holds where no argument says otherwise, in numbers: 20 results, files of
/// up to 10 MiB, lines of up to 64 KiB, and no needle.
pub proof fn defaults_in_numbers()
    ensures
        defaults().needle is None,
        defaults().top_n == 20,
        defaults().limits.max_file_size == Some(10_485_760u64),
        defaults().limits.max_line_len == Some(65_536usize),
{
}

} // verus!
