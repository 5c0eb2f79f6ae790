//! The command-line option scanner.
//!
//! [`scan_args`] walks the raw argument words and sorts them into the
//! converter's configuration: the target distance and curve accuracy are
//! kept as the text the caller wrote (their numeric reading is
//! double-precision work that belongs to the surrounding application), the
//! target point count is parsed here, and the first two free words become
//! the input and output names. Every rejected word is reported through
//! [`ArgError`], and the whole scan is pinned to the recursive model
//! [`scan_from`].

use vstd::prelude::*;
use vstd::string::StrSliceExecFns;

verus! {

/// True of an ASCII decimal digit.
pub open spec fn is_digit(c: char) -> bool {
    48 <= c as u32 <= 57
}

/// The value of one digit character.
pub open spec fn digit_of(c: char) -> nat {
    (c as u32 - 48) as nat
}

/// True when every character of `s` is a decimal digit.
pub open spec fn all_digits(s: Seq<char>) -> bool {
    forall|i: int| 0 <= i < s.len() ==> is_digit(#[trigger] s[i])
}

/// The number written by a digit sequence, most significant digit first.
pub open spec fn digits_value(s: Seq<char>) -> nat
    decreases s.len(),
{
    if s.len() == 0 {
        0
    } else {
        digits_value(s.drop_last()) * 10 + digit_of(s.last())
    }
}

/// What parsing an unsigned 64-bit number from text yields: after an
/// optional leading plus sign there must be at least one digit, nothing but
/// digits, and a value that fits in 64 bits.
pub open spec fn spec_parse_u64(s: Seq<char>) -> Option<u64> {
    let d = if s.len() > 0 && s[0] == '+' {
        s.skip(1)
    } else {
        s
    };
    if d.len() > 0 && all_digits(d) && digits_value(d) <= u64::MAX {
        Some(digits_value(d) as u64)
    } else {
        None
    }
}

/// Extending a digit string multiplies its value by ten and adds the new
/// digit.
proof fn lemma_digits_value_take_succ(s: Seq<char>, j: int)
    requires
        0 <= j < s.len(),
    ensures
        digits_value(s.take(j + 1)) == digits_value(s.take(j)) * 10 + digit_of(s[j]),
{
    assert(s.take(j + 1).drop_last() =~= s.take(j));
    assert(s.take(j + 1).last() == s[j]);
}

/// A digit string is worth at least any of its prefixes.
proof fn lemma_digits_value_prefix(s: Seq<char>, j: int)
    requires
        0 <= j <= s.len(),
    ensures
        digits_value(s.take(j)) <= digits_value(s),
    decreases s.len() - j,
{
    if j == s.len() {
        assert(s.take(j) =~= s);
    } else {
        lemma_digits_value_take_succ(s, j);
        lemma_digits_value_prefix(s, j + 1);
    }
}

/// Parses an unsigned 64-bit number: an optional plus sign, then decimal
/// digits. Returns nothing on an empty text, a lone sign, a stray
/// character, or a value over the 64-bit range.
pub fn parse_u64(s: &str) -> (r: Option<u64>)
    ensures
        r == spec_parse_u64(s@),
{
    let len = s.unicode_len();
    let mut start: usize = 0;
    if len > 0 && s.get_char(0) == '+' {
        start = 1;
    }
    let ghost d = if start == 1 { s@.skip(1) } else { s@ };
    proof {
        assert(d.len() == len - start);
    }
    if start == len {
        return None;
    }
    let mut val: u64 = 0;
    let mut i: usize = start;
    while i < len
        invariant
            start <= i <= len,
            len == s@.len(),
            start == 0 || start == 1,
            start == 1 ==> s@.len() > 0 && s@[0] == '+',
            start == 0 ==> !(s@.len() > 0 && s@[0] == '+'),
            d == (if start == 1 { s@.skip(1) } else { s@ }),
            d.len() == len - start,
            all_digits(d.take(i - start)),
            val == digits_value(d.take(i - start)),
        decreases len - i,
    {
        let c = s.get_char(i);
        proof {
            assert(d[i - start] == s@[i as int]);
        }
        let code = c as u32;
        if code < 48 || code > 57 {
            proof {
                assert(!is_digit(d[i - start]));
            }
            return None;
        }
        let digit = (code - 48) as u64;
        proof {
            lemma_digits_value_take_succ(d, i - start);
        }
        if val > 0x1999999999999999 || (val == 0x1999999999999999 && digit > 5) {
            proof {
                assert(digits_value(d.take(i - start + 1)) > u64::MAX);
                lemma_digits_value_prefix(d, i - start + 1);
            }
            return None;
        }
        val = val * 10 + digit;
        i = i + 1;
    }
    proof {
        assert(d.take(len - start) =~= d);
    }
    Some(val)
}

/// The configuration read from the command line, before any
/// double-precision value is resolved. `distance` and `accuracy` keep the
/// exact text of the last `-d`/`--distance` and `-a`/`--accuracy` value;
/// `points` holds the last `-p`/`--points` count; `input` and `output` are
/// the first and second free words. `help` is set when `-h` or `--help`
/// appeared, in which case everything after it was left unread.
#[derive(Debug)]
pub struct RawArgs {
    pub help: bool,
    pub distance: Option<String>,
    pub accuracy: Option<String>,
    pub points: u64,
    pub input: Option<String>,
    pub output: Option<String>,
}

/// A rejected command line, with the word that caused the rejection.
#[derive(Debug)]
pub enum ArgError {
    /// A value-taking flag stood last, with nothing after it.
    MissingValue { flag: String },
    /// The value after `-p`/`--points` is not an unsigned 64-bit number.
    BadPoints { flag: String, value: String },
    /// A word starting with `-` that is no known flag.
    UnknownFlag { flag: String },
    /// A third free word, after input and output names were already given.
    ExtraArgument { arg: String },
}

/// The mathematical shape of [`RawArgs`].
pub struct ArgsModel {
    pub help: bool,
    pub distance: Option<Seq<char>>,
    pub accuracy: Option<Seq<char>>,
    pub points: u64,
    pub input: Option<Seq<char>>,
    pub output: Option<Seq<char>>,
}

/// The mathematical shape of [`ArgError`].
pub enum ArgErrorModel {
    MissingValue { flag: Seq<char> },
    BadPoints { flag: Seq<char>, value: Seq<char> },
    UnknownFlag { flag: Seq<char> },
    ExtraArgument { arg: Seq<char> },
}

impl View for RawArgs {
    type V = ArgsModel;

    open spec fn view(&self) -> ArgsModel {
        ArgsModel {
            help: self.help,
            distance: self.distance.deep_view(),
            accuracy: self.accuracy.deep_view(),
            points: self.points,
            input: self.input.deep_view(),
            output: self.output.deep_view(),
        }
    }
}

impl View for ArgError {
    type V = ArgErrorModel;

    open spec fn view(&self) -> ArgErrorModel {
        match self {
            ArgError::MissingValue { flag } => ArgErrorModel::MissingValue { flag: flag@ },
            ArgError::BadPoints { flag, value } => (ArgErrorModel::BadPoints {
                flag: flag@,
                value: value@,
            }),
            ArgError::UnknownFlag { flag } => ArgErrorModel::UnknownFlag { flag: flag@ },
            ArgError::ExtraArgument { arg } => ArgErrorModel::ExtraArgument { arg: arg@ },
        }
    }
}

/// The configuration before any word is read: no help, passthrough
/// distance, no point target, default accuracy, standard input and output.
pub open spec fn initial_args() -> ArgsModel {
    ArgsModel {
        help: false,
        distance: None,
        accuracy: None,
        points: 0,
        input: None,
        output: None,
    }
}

/// A word is treated as a flag when it starts with `-`.
pub open spec fn spec_is_flag(a: Seq<char>) -> bool {
    a.len() > 0 && a[0] == '-'
}

/// What scanning the remaining words `args` does to the configuration
/// `acc`: flags overwrite their option (the last occurrence wins), free
/// words fill input and output in order, and the first offending word stops
/// the scan with an error. `-h`/`--help` stops the scan at once.
pub open spec fn scan_from(args: Seq<Seq<char>>, acc: ArgsModel) -> Result<ArgsModel, ArgErrorModel>
    decreases args.len(),
{
    if args.len() == 0 {
        Ok(acc)
    } else {
        let a = args[0];
        if spec_is_flag(a) {
            if a == "-h"@ || a == "--help"@ {
                Ok(ArgsModel { help: true, ..acc })
            } else if a == "-d"@ || a == "--distance"@ {
                if args.len() == 1 {
                    Err(ArgErrorModel::MissingValue { flag: a })
                } else {
                    scan_from(args.skip(2), ArgsModel { distance: Some(args[1]), ..acc })
                }
            } else if a == "-p"@ || a == "--points"@ {
                if args.len() == 1 {
                    Err(ArgErrorModel::MissingValue { flag: a })
                } else {
                    match spec_parse_u64(args[1]) {
                        Some(n) => scan_from(args.skip(2), ArgsModel { points: n, ..acc }),
                        None => Err(ArgErrorModel::BadPoints { flag: a, value: args[1] }),
                    }
                }
            } else if a == "-a"@ || a == "--accuracy"@ {
                if args.len() == 1 {
                    Err(ArgErrorModel::MissingValue { flag: a })
                } else {
                    scan_from(args.skip(2), ArgsModel { accuracy: Some(args[1]), ..acc })
                }
            } else {
                Err(ArgErrorModel::UnknownFlag { flag: a })
            }
        } else if acc.input is None {
            scan_from(args.skip(1), ArgsModel { input: Some(a), ..acc })
        } else if acc.output is None {
            scan_from(args.skip(1), ArgsModel { output: Some(a), ..acc })
        } else {
            Err(ArgErrorModel::ExtraArgument { arg: a })
        }
    }
}

/// True when the two texts are the same sequence of characters.
fn str_eq(a: &str, b: &str) -> (r: bool)
    ensures
        r <==> a@ == b@,
{
    let alen = a.unicode_len();
    let blen = b.unicode_len();
    if alen != blen {
        return false;
    }
    let mut i: usize = 0;
    while i < alen
        invariant
            i <= alen,
            alen == a@.len(),
            alen == b@.len(),
            forall|j: int| 0 <= j < i ==> a@[j] == b@[j],
        decreases alen - i,
    {
        if a.get_char(i) != b.get_char(i) {
            return false;
        }
        i = i + 1;
    }
    proof {
        assert(a@ =~= b@);
    }
    true
}

/// True when the word starts with `-`.
fn is_flag_word(a: &str) -> (r: bool)
    ensures
        r == spec_is_flag(a@),
{
    a.unicode_len() > 0 && a.get_char(0) == '-'
}

/// Scans the command-line words into a configuration, exactly as
/// [`scan_from`] describes: the words are read left to right, each flag
/// takes the word after it as its value, free words become input and
/// output names, and the first offending word is reported.
pub fn scan_args(args: &Vec<String>) -> (r: Result<RawArgs, ArgError>)
    ensures
        (match r {
            Ok(ra) => scan_from(args.deep_view(), initial_args()) == Ok::<
                ArgsModel,
                ArgErrorModel,
            >(ra@),
            Err(e) => scan_from(args.deep_view(), initial_args()) == Err::<
                ArgsModel,
                ArgErrorModel,
            >(e@),
        }),
{
    let ghost views = args.deep_view();
    let mut acc = RawArgs {
        help: false,
        distance: None,
        accuracy: None,
        points: 0,
        input: None,
        output: None,
    };
    let mut i: usize = 0;
    proof {
        assert(acc@ == initial_args());
        assert(views.skip(0) =~= views);
    }
    while i < args.len()
        invariant
            i <= args@.len(),
            views == args.deep_view(),
            views.len() == args@.len(),
            scan_from(views.skip(i as int), acc@) == scan_from(views, initial_args()),
        decreases args@.len() - i,
    {
        let ghost rest = views.skip(i as int);
        let ghost before = acc@;
        proof {
            assert(rest[0] == views[i as int]);
            assert(views[i as int] == args@[i as int]@);
        }
        if is_flag_word(args[i].as_str()) {
            if str_eq(args[i].as_str(), "-h") || str_eq(args[i].as_str(), "--help") {
                acc.help = true;
                proof {
                    assert(scan_from(rest, before) == Ok::<ArgsModel, ArgErrorModel>(acc@));
                }
                return Ok(acc);
            } else if str_eq(args[i].as_str(), "-d") || str_eq(args[i].as_str(), "--distance") {
                if i + 1 >= args.len() {
                    return Err(ArgError::MissingValue { flag: args[i].clone() });
                }
                acc.distance = Some(args[i + 1].clone());
                proof {
                    assert(rest[1] == views[i + 1]);
                    assert(views[i + 1] == args@[i + 1]@);
                    assert(rest.skip(2) =~= views.skip(i + 2));
                    assert(scan_from(rest, before) == scan_from(views.skip(i + 2), acc@));
                }
                i = i + 2;
            } else if str_eq(args[i].as_str(), "-p") || str_eq(args[i].as_str(), "--points") {
                if i + 1 >= args.len() {
                    return Err(ArgError::MissingValue { flag: args[i].clone() });
                }
                proof {
                    assert(rest[1] == views[i + 1]);
                    assert(views[i + 1] == args@[i + 1]@);
                }
                match parse_u64(args[i + 1].as_str()) {
                    Some(n) => {
                        acc.points = n;
                        proof {
                            assert(rest.skip(2) =~= views.skip(i + 2));
                            assert(scan_from(rest, before) == scan_from(views.skip(i + 2), acc@));
                        }
                        i = i + 2;
                    },
                    None => {
                        return Err(ArgError::BadPoints {
                            flag: args[i].clone(),
                            value: args[i + 1].clone(),
                        });
                    },
                }
            } else if str_eq(args[i].as_str(), "-a") || str_eq(args[i].as_str(), "--accuracy") {
                if i + 1 >= args.len() {
                    return Err(ArgError::MissingValue { flag: args[i].clone() });
                }
                acc.accuracy = Some(args[i + 1].clone());
                proof {
                    assert(rest[1] == views[i + 1]);
                    assert(views[i + 1] == args@[i + 1]@);
                    assert(rest.skip(2) =~= views.skip(i + 2));
                    assert(scan_from(rest, before) == scan_from(views.skip(i + 2), acc@));
                }
                i = i + 2;
            } else {
                return Err(ArgError::UnknownFlag { flag: args[i].clone() });
            }
        } else if acc.input.is_none() {
            acc.input = Some(args[i].clone());
            proof {
                assert(rest.skip(1) =~= views.skip(i + 1));
                assert(scan_from(rest, before) == scan_from(views.skip(i + 1), acc@));
            }
            i = i + 1;
        } else if acc.output.is_none() {
            acc.output = Some(args[i].clone());
            proof {
                assert(rest.skip(1) =~= views.skip(i + 1));
                assert(scan_from(rest, before) == scan_from(views.skip(i + 1), acc@));
            }
            i = i + 1;
        } else {
            return Err(ArgError::ExtraArgument { arg: args[i].clone() });
        }
    }
    proof {
        assert(views.skip(i as int) =~= Seq::<Seq<char>>::empty());
    }
    Ok(acc)
}

} // verus!
