//! What the benchmark decides before it runs and when it prints: its options,
//! its keys, and the units of its report.

use vstd::prelude::*;

use crate::text;
use crate::text_laws;

verus! {

/// The number of operations where none is given.
pub const DEFAULT_OPS: usize = 100_000;

/// The size of a value where none is given.
pub const DEFAULT_VALUE_SIZE: usize = 256;

/// The options of a run.
#[derive(Debug, Clone, PartialEq, Eq)]
pub struct Config {
    /// How often to put and get.
    pub ops: usize,
    /// The size of each value.
    pub value_size: usize,
    /// The directory of the store, where one is given.
    pub dir: Option<String>,
}

/// What the arguments ask for.
#[derive(Debug, Clone, PartialEq, Eq)]
pub enum Args {
    /// To run.
    Run(Config),
    /// To print the usage.
    Help,
    /// Nothing that is known: the argument.
    Unknown(String),
    /// An option without its value: the option.
    MissingValue(String),
    /// An option whose value is not a number: the option, and the value.
    InvalidNumber(String, String),
    /// No operation at all.
    ZeroOps,
    /// Values without a byte.
    ZeroValueSize,
}

/// The mathematical value of a [`Config`].
pub struct ConfigView {
    pub ops: nat,
    pub value_size: nat,
    pub dir: Option<Seq<char>>,
}

/// The mathematical value of [`Args`].
pub enum ArgsView {
    Run(ConfigView),
    Help,
    Unknown(Seq<char>),
    MissingValue(Seq<char>),
    InvalidNumber(Seq<char>, Seq<char>),
    ZeroOps,
    ZeroValueSize,
}

impl View for Config {
    type V = ConfigView;

    open spec fn view(&self) -> ConfigView {
        ConfigView {
            ops: self.ops as nat,
            value_size: self.value_size as nat,
            dir: match self.dir {
                Some(dir) => Some(dir@),
                None => None,
            },
        }
    }
}

impl View for Args {
    type V = ArgsView;

    open spec fn view(&self) -> ArgsView {
        match *self {
            Args::Run(config) => ArgsView::Run(config@),
            Args::Help => ArgsView::Help,
            Args::Unknown(arg) => ArgsView::Unknown(arg@),
            Args::MissingValue(flag) => ArgsView::MissingValue(flag@),
            Args::InvalidNumber(flag, raw) => ArgsView::InvalidNumber(flag@, raw@),
            Args::ZeroOps => ArgsView::ZeroOps,
            Args::ZeroValueSize => ArgsView::ZeroValueSize,
        }
    }
}

/// The arguments as text.
pub open spec fn arg_texts(args: Seq<String>) -> Seq<Seq<char>> {
    args.map_values(|arg: String| arg@)
}

/// What arguments ask for, given the options set so far. The first argument
/// that is wrong decides; of an option that is set twice the last value counts.
pub open spec fn args_meaning(args: Seq<Seq<char>>, config: ConfigView) -> ArgsView
    decreases args.len(),
{
    if args.len() == 0 {
        if config.ops == 0 {
            ArgsView::ZeroOps
        } else if config.value_size == 0 {
            ArgsView::ZeroValueSize
        } else {
            ArgsView::Run(config)
        }
    } else {
        let arg = args[0];
        if arg == "--ops"@ || arg == "--value-size"@ {
            if args.len() == 1 {
                ArgsView::MissingValue(arg)
            } else {
                match text::parse_at_most(args[1], usize::MAX as nat) {
                    None => ArgsView::InvalidNumber(arg, args[1]),
                    Some(n) => args_meaning(
                        args.skip(2),
                        if arg == "--ops"@ {
                            ConfigView { ops: n, ..config }
                        } else {
                            ConfigView { value_size: n, ..config }
                        },
                    ),
                }
            }
        } else if arg == "--dir"@ {
            if args.len() == 1 {
                ArgsView::MissingValue(arg)
            } else {
                args_meaning(args.skip(2), ConfigView { dir: Some(args[1]), ..config })
            }
        } else if arg == "-h"@ || arg == "--help"@ {
            ArgsView::Help
        } else {
            ArgsView::Unknown(arg)
        }
    }
}

/// The options where no argument sets them.
pub open spec fn default_config() -> ConfigView {
    ConfigView { ops: DEFAULT_OPS as nat, value_size: DEFAULT_VALUE_SIZE as nat, dir: None }
}

/// Whether an argument is the given text.
fn is_text(arg: &String, s: &str) -> (r: bool)
    ensures
        r == (arg@ == s@),
{
    *arg == s.to_owned()
}

/// Reads the value of an option as a number.
fn parse_next(raw: &String) -> (n: Option<usize>)
    ensures
        match n {
            Some(n) => text::parse_at_most(raw@, usize::MAX as nat) == Some(n as nat),
            None => text::parse_at_most(raw@, usize::MAX as nat) is None,
        },
{
    text::parse_number(&text::to_chars(raw.as_str()), usize::MAX)
}

/// What the arguments ask for.
pub fn parse_args(args: &Vec<String>) -> (r: Args)
    ensures
        r@ == args_meaning(arg_texts(args@), default_config()),
        r matches Args::Run(config) ==> config.ops >= 1 && config.value_size >= 1,
{
    let ghost all = arg_texts(args@);
    let mut config = Config { ops: DEFAULT_OPS, value_size: DEFAULT_VALUE_SIZE, dir: None };
    let mut i: usize = 0;
    assert(all.skip(0) == all);
    while i < args.len()
        invariant
            i <= args@.len(),
            all == arg_texts(args@),
            args_meaning(all, default_config()) == args_meaning(all.skip(i as int), config@),
        decreases args@.len() - i,
    {
        let arg = &args[i];
        let ghost here = all.skip(i as int);
        assert(here[0] == arg@);
        let ops = is_text(arg, "--ops");
        let dir = is_text(arg, "--dir");
        if ops || is_text(arg, "--value-size") {
            if args.len() - i == 1 {
                return Args::MissingValue(arg.clone());
            }
            let raw = &args[i + 1];
            proof {
                assert(here[1] == raw@);
                assert(here.skip(2) == all.skip(i + 2));
            }
            match parse_next(raw) {
                None => {
                    return Args::InvalidNumber(arg.clone(), raw.clone());
                },
                Some(n) => {
                    if ops {
                        config.ops = n;
                    } else {
                        config.value_size = n;
                    }
                },
            }
            i = i + 2;
        } else if dir {
            if args.len() - i == 1 {
                return Args::MissingValue(arg.clone());
            }
            let raw = &args[i + 1];
            proof {
                assert(here[1] == raw@);
                assert(here.skip(2) == all.skip(i + 2));
            }
            config.dir = Some(raw.clone());
            i = i + 2;
        } else if is_text(arg, "-h") || is_text(arg, "--help") {
            return Args::Help;
        } else {
            return Args::Unknown(arg.clone());
        }
    }
    if config.ops == 0 {
        return Args::ZeroOps;
    }
    if config.value_size == 0 {
        return Args::ZeroValueSize;
    }
    Args::Run(config)
}

// ---------------------------------------------------------------------------
// Keys
// ---------------------------------------------------------------------------

/// The digits of `n`, with zeros in front up to `width` characters.
pub open spec fn padded(n: nat, width: nat) -> Seq<char> {
    let digits = text::decimal(n);
    if digits.len() < width {
        Seq::new((width - digits.len()) as nat, |i: int| '0') + digits
    } else {
        digits
    }
}

/// The key of the `i`-th object.
pub open spec fn key_text(i: nat) -> Seq<char> {
    "key-"@ + padded(i, 12)
}

/// The key of the `i`-th object.
pub fn bench_key(i: usize) -> (key: String)
    ensures
        key@ == key_text(i as nat),
{
    let mut digits = String::new();
    text::push_decimal(&mut digits, i);
    assert(digits@ == text::decimal(i as nat));
    let len: usize = text::to_chars(digits.as_str()).len();
    let mut key = "key-".to_owned();
    let mut k: usize = len;
    assert(key@ == "key-"@ + Seq::new(0, |j: int| '0'));
    while k < 12
        invariant
            len <= k,
            k <= 12 || k == len,
            key@ == "key-"@ + Seq::new((k - len) as nat, |j: int| '0'),
        decreases 12 - k,
    {
        let ghost zeros = Seq::new((k - len) as nat, |j: int| '0');
        key.push('0');
        assert(zeros.push('0') == Seq::new((k + 1 - len) as nat, |j: int| '0'));
        k = k + 1;
    }
    key.append(digits.as_str());
    assert(key@ == key_text(i as nat));
    key
}

/// Different objects have different keys.
pub proof fn law_keys_are_distinct(i: nat, j: nat)
    requires
        key_text(i) == key_text(j),
    ensures
        i == j,
{
    let n = "key-"@.len() as int;
    assert(key_text(i).skip(n) == padded(i, 12));
    assert(key_text(j).skip(n) == padded(j, 12));
    lemma_padded_value(i, 12);
    lemma_padded_value(j, 12);
}

/// All keys have the same length, as long as their numbers have at most twelve
/// digits.
pub proof fn law_keys_have_one_length(i: nat)
    requires
        i < 1_000_000_000_000,
    ensures
        key_text(i).len() == 16,
{
    reveal_strlit("key-");
    reveal_with_fuel(text::decimal, 13);
    assert(text::decimal(i).len() <= 12);
}

proof fn lemma_padded_value(n: nat, width: nat)
    ensures
        text::digits_value(padded(n, width)) == n,
{
    text::lemma_decimal(n);
    let digits = text::decimal(n);
    if digits.len() < width {
        lemma_leading_zeros((width - digits.len()) as nat, digits);
    }
}

proof fn lemma_leading_zeros(count: nat, digits: Seq<char>)
    ensures
        text::digits_value(Seq::new(count, |i: int| '0') + digits) == text::digits_value(digits),
    decreases count + digits.len(),
{
    let zeros = Seq::new(count, |i: int| '0');
    let all = zeros + digits;
    if digits.len() > 0 {
        lemma_leading_zeros(count, digits.drop_last());
        assert(all.drop_last() == zeros + digits.drop_last());
    } else if count > 0 {
        let fewer = Seq::new((count - 1) as nat, |i: int| '0');
        lemma_leading_zeros((count - 1) as nat, digits);
        assert(all.drop_last() == fewer + digits);
    }
}

// ---------------------------------------------------------------------------
// Units
// ---------------------------------------------------------------------------

/// The unit in which a duration is printed.
#[derive(Debug, Clone, Copy, PartialEq, Eq, Structural)]
pub enum Unit {
    Nanos,
    Micros,
    Millis,
    Seconds,
}

impl Unit {
    /// How many nanoseconds the unit has.
    pub open spec fn nanos(self) -> nat {
        match self {
            Unit::Nanos => 1,
            Unit::Micros => 1_000,
            Unit::Millis => 1_000_000,
            Unit::Seconds => 1_000_000_000,
        }
    }
}

/// The unit for a number of nanoseconds: the largest that it reaches, or
/// nanoseconds where it reaches none.
pub fn unit_for(ns: u128) -> (unit: Unit)
    ensures
        unit.nanos() <= ns || unit == Unit::Nanos,
        forall|u: Unit| #[trigger] u.nanos() <= ns ==> u.nanos() <= unit.nanos(),
{
    if ns < 1_000 {
        Unit::Nanos
    } else if ns < 1_000_000 {
        Unit::Micros
    } else if ns < 1_000_000_000 {
        Unit::Millis
    } else {
        Unit::Seconds
    }
}

// ---------------------------------------------------------------------------
// What arguments mean
// ---------------------------------------------------------------------------

/// Without arguments the benchmark runs 100000 operations on values of 256
/// bytes, in no directory of its own choice.
pub proof fn law_defaults()
    ensures
        args_meaning(Seq::empty(), default_config()) == ArgsView::Run(
            ConfigView { ops: 100_000, value_size: 256, dir: None },
        ),
{
}

/// Where the arguments end, the options decide: no operation and no byte are
/// refused, in this order, and anything else is run.
pub proof fn law_end_of_args(config: ConfigView)
    ensures
        config.ops == 0 ==> args_meaning(Seq::empty(), config) == ArgsView::ZeroOps,
        config.ops > 0 && config.value_size == 0 ==> args_meaning(Seq::empty(), config)
            == ArgsView::ZeroValueSize,
        config.ops > 0 && config.value_size > 0 ==> args_meaning(Seq::empty(), config)
            == ArgsView::Run(config),
{
}

/// An option with its value sets that option alone, whatever follows it, and a
/// number that cannot be read is reported with its option.
pub proof fn law_options(raw: Seq<char>, rest: Seq<Seq<char>>, config: ConfigView)
    ensures
        match text::parse_at_most(raw, usize::MAX as nat) {
            Some(n) => {
                &&& args_meaning(seq!["--ops"@, raw] + rest, config) == args_meaning(
                    rest,
                    ConfigView { ops: n, ..config },
                )
                &&& args_meaning(seq!["--value-size"@, raw] + rest, config) == args_meaning(
                    rest,
                    ConfigView { value_size: n, ..config },
                )
            },
            None => {
                &&& args_meaning(seq!["--ops"@, raw] + rest, config) == ArgsView::InvalidNumber(
                    "--ops"@,
                    raw,
                )
                &&& args_meaning(seq!["--value-size"@, raw] + rest, config)
                    == ArgsView::InvalidNumber("--value-size"@, raw)
            },
        },
        args_meaning(seq!["--dir"@, raw] + rest, config) == args_meaning(
            rest,
            ConfigView { dir: Some(raw), ..config },
        ),
{
    lemma_option_names();
    assert((seq!["--ops"@, raw] + rest).skip(2) == rest);
    assert((seq!["--value-size"@, raw] + rest).skip(2) == rest);
    assert((seq!["--dir"@, raw] + rest).skip(2) == rest);
}

/// An option at the end lacks its value, a request for help is one wherever it
/// is read, and anything else is unknown.
pub proof fn law_other_args(arg: Seq<char>, rest: Seq<Seq<char>>, config: ConfigView)
    ensures
        arg == "--ops"@ || arg == "--value-size"@ || arg == "--dir"@ ==> args_meaning(
            seq![arg],
            config,
        ) == ArgsView::MissingValue(arg),
        arg == "-h"@ || arg == "--help"@ ==> args_meaning(seq![arg] + rest, config)
            == ArgsView::Help,
        arg != "--ops"@ && arg != "--value-size"@ && arg != "--dir"@ && arg != "-h"@ && arg
            != "--help"@ ==> args_meaning(seq![arg] + rest, config) == ArgsView::Unknown(arg),
{
    lemma_option_names();
    assert((seq![arg] + rest)[0] == arg);
}

proof fn lemma_option_names()
    ensures
        "--ops"@ != "--value-size"@,
        "--ops"@ != "--dir"@,
        "--value-size"@ != "--dir"@,
        "-h"@ != "--ops"@,
        "-h"@ != "--value-size"@,
        "-h"@ != "--dir"@,
        "--help"@ != "--ops"@,
        "--help"@ != "--value-size"@,
        "--help"@ != "--dir"@,
{
    reveal_strlit("--ops");
    reveal_strlit("--value-size");
    reveal_strlit("--dir");
    reveal_strlit("-h");
    reveal_strlit("--help");
    assert("--ops"@[2] != "--dir"@[2]);
    assert("--ops"@.len() != "--value-size"@.len());
    assert("--dir"@.len() != "--value-size"@.len());
    assert("--help"@.len() == 6 && "-h"@.len() == 2);
}

/// A key is `key-` and the number of its object in at least twelve digits, with
/// zeros in front only up to twelve.
pub proof fn law_key_text(i: nat)
    ensures
        key_text(i).len() >= 16,
        key_text(i).take(4) == seq!['k', 'e', 'y', '-'],
        forall|t: int| 4 <= t < key_text(i).len() ==> '0' <= #[trigger] key_text(i)[t] <= '9',
        text::digits_value(key_text(i).skip(4)) == i,
        key_text(i).len() > 16 ==> key_text(i)[4] != '0',
{
    reveal_strlit("key-");
    lemma_padded_value(i, 12);
    text::lemma_decimal(i);
    text_laws::law_decimal(i);
    let digits = text::decimal(i);
    let p = padded(i, 12);
    assert(key_text(i).take(4) == seq!['k', 'e', 'y', '-']);
    assert(key_text(i).skip(4) == p);
    assert forall|t: int| 4 <= t < key_text(i).len() implies '0' <= #[trigger] key_text(i)[t]
        <= '9' by {
        assert(key_text(i)[t] == p[t - 4]);
        if digits.len() < 12 {
            if t - 4 >= 12 - digits.len() {
                assert(p[t - 4] == digits[t - 4 - (12 - digits.len())]);
            }
        }
    }
}

/// The units and where they begin.
pub proof fn law_units()
    ensures
        Unit::Nanos.nanos() == 1,
        Unit::Micros.nanos() == 1_000,
        Unit::Millis.nanos() == 1_000_000,
        Unit::Seconds.nanos() == 1_000_000_000,
{
}

} // verus!
