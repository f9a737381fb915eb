//! The command line.

use crate::reading::{all_digits, lemma_worth_push, worth};
use crate::text::{decimal, law_decimal_is_read_back, lemma_decimal_digits, texts};
use vstd::prelude::*;

verus! {

/// `s` is made of decimal digits and is not empty.
pub open spec fn is_numeral(s: Seq<char>) -> bool {
    s.len() > 0 && forall|i: int| 0 <= i < s.len() ==> '0' <= #[trigger] s[i] <= '9'
}

/// The number that a string of decimal digits stands for.
pub open spec fn numeral_value(s: Seq<char>) -> nat
    decreases s.len(),
{
    if s.len() == 0 {
        0
    } else {
        10 * numeral_value(s.drop_last()) + (s.last() as nat - '0' as nat) as nat
    }
}

/// `s` without the plus sign that a number may start with.
pub open spec fn without_plus(s: Seq<char>) -> Seq<char> {
    if s.len() > 0 && s[0] == '+' {
        s.skip(1)
    } else {
        s
    }
}

/// The number up to `max` that `s` stands for: an optional plus sign and decimal digits.
pub open spec fn number_in(s: Seq<char>, max: u64) -> Option<u64> {
    let digits = without_plus(s);
    if is_numeral(digits) && numeral_value(digits) <= max {
        Some(numeral_value(digits) as u64)
    } else {
        None
    }
}

proof fn lemma_numeral_grows(s: Seq<char>, k: int)
    requires
        0 <= k <= s.len(),
        is_numeral(s),
    ensures
        numeral_value(s.take(k)) <= numeral_value(s),
    decreases s.len() - k,
{
    if k == s.len() {
        assert(s.take(k) =~= s);
    } else {
        lemma_numeral_grows(s, k + 1);
        assert(s.take(k + 1).drop_last() =~= s.take(k));
    }
}

/// Reads a number up to `max`.
#[verifier::spinoff_prover]
pub fn parse_number(s: &str, max: u64) -> (r: Option<u64>)
    ensures
        r == number_in(s@, max),
        r == told_up_to(s@, max),
{
    proof {
        law_numbers_are_what_their_digits_are_worth(s@, max);
    }
    let len: usize = s.unicode_len();
    let plus = len > 0 && s.get_char(0) == '+';
    let start: usize = if plus {
        1
    } else {
        0
    };
    let ghost digits = without_plus(s@);
    assert(digits =~= s@.skip(start as int));
    if len == start {
        return None;
    }
    let mut at: usize = 0;
    let mut good = true;
    let mut value: u64 = 0;
    assert(digits.take(0) =~= Seq::<char>::empty());
    for c in it: s.chars()
        invariant
            len == s@.len(),
            start <= 1,
            start < len,
            digits == s@.skip(start as int),
            at == it.index(),
            it.seq() == s@,
            at <= start ==> good && value == 0,
            good && at >= start ==> {
                &&& forall|i: int| 0 <= i < at - start ==> '0' <= #[trigger] digits[i] <= '9'
                &&& value == numeral_value(digits.take(at - start))
                &&& value <= max
            },
            !good ==> number_in(s@, max) is None,
            digits == without_plus(s@),
            digits.take(0).len() == 0,
    {
        let ghost k = at - start;
        if at >= start && good {
            assert(c == digits[k]);
            assert(digits.take(k + 1).drop_last() =~= digits.take(k));
            assert(digits.take(k + 1).last() == c);
            if '0' <= c && c <= '9' {
                let d: u64 = (c as u32 - '0' as u32) as u64;
                assert(numeral_value(digits.take(k + 1)) == 10 * value + d);
                if d > max || value > max / 10 || value * 10 > max - d {
                    good = false;
                    proof {
                        if is_numeral(digits) {
                            lemma_numeral_grows(digits, k + 1);
                        }
                    }
                } else {
                    value = value * 10 + d;
                }
            } else {
                good = false;
            }
        }
        at = at + 1;
    }
    assert(digits.take(digits.len() as int) =~= digits);
    if good {
        Some(value)
    } else {
        None
    }
}

/// What the command line asks for.
#[derive(Clone, Copy, Debug, PartialEq, Eq)]
pub struct Config {
    /// How many rows to show, zero for all.
    pub topn: usize,
    /// Whether to show the parents of the processes.
    pub show_parent: bool,
    /// The seconds between two samples, if growth is asked for.
    pub watch_secs: Option<u64>,
    /// Whether help is asked for.
    pub help: bool,
}

/// What an empty command line asks for.
pub open spec fn default_config() -> Config {
    Config { topn: 20, show_parent: false, watch_secs: None, help: false }
}

/// A flag that asks for help.
pub open spec fn is_help(arg: Seq<char>) -> bool {
    arg == "-h"@ || arg == "--help"@
}

/// A flag that asks for parents.
pub open spec fn is_parent(arg: Seq<char>) -> bool {
    arg == "-p"@ || arg == "--parent"@
}

/// A flag that asks for a comparison of two samples.
pub open spec fn is_interval(arg: Seq<char>) -> bool {
    arg == "-w"@ || arg == "--watch"@ || arg == "--delta"@
}

/// What arguments ask for, read from the first on, where those before them asked for `config`
/// and `timed` tells whether an interval flag was among those; or what is wrong with them.
pub open spec fn scan(args: Seq<Seq<char>>, config: Config, timed: bool) -> Result<
    Config,
    Seq<char>,
>
    decreases args.len(),
{
    let arg = args[0];
    let rest = args.skip(1);
    if args.len() == 0 {
        Ok(config)
    } else if is_help(arg) {
        Ok(Config { help: true, ..config })
    } else if is_parent(arg) {
        scan(rest, Config { show_parent: true, ..config }, timed)
    } else if is_interval(arg) {
        if timed {
            Err("duplicate interval flag"@)
        } else if rest.len() > 0 && number_in(rest[0], u64::MAX) is Some {
            let secs = number_in(rest[0], u64::MAX)->0;
            if secs == 0 {
                Err("watch interval must be positive"@)
            } else {
                scan(rest.skip(1), Config { watch_secs: Some(secs), ..config }, true)
            }
        } else {
            scan(rest, Config { watch_secs: Some(3), ..config }, true)
        }
    } else {
        match number_in(arg, usize::MAX as u64) {
            Some(n) => if timed {
                Err("N must appear before the interval flag"@)
            } else {
                scan(rest, Config { topn: n as usize, ..config }, timed)
            },
            None => Err("unknown arg: "@ + arg),
        }
    }
}

/// What a whole command line asks for.
pub open spec fn meaning(args: Seq<Seq<char>>) -> Result<Config, Seq<char>> {
    scan(args, default_config(), false)
}

/// An argument is the word `word`.
fn reads(arg: &String, word: &str) -> (r: bool)
    ensures
        r == (arg@ == word@),
{
    *arg == word.to_owned()
}

/// Reads the command line.
pub fn parse_args(args: &[String]) -> (r: Result<Config, String>)
    ensures
        r matches Ok(config) ==> meaning(texts(args@)) == Ok::<Config, Seq<char>>(config),
        r matches Err(message) ==> meaning(texts(args@)) == Err::<Config, Seq<char>>(message@),
{
    let mut config = Config { topn: 20, show_parent: false, watch_secs: None, help: false };
    let mut timed = false;
    let mut i: usize = 0;
    let ghost all = texts(args@);
    assert(all.skip(0) =~= all);
    while i < args.len()
        invariant
            i <= args.len(),
            all == texts(args@),
            meaning(all) == scan(all.skip(i as int), config, timed),
        decreases args.len() - i,
    {
        let arg = &args[i];
        let ghost left = all.skip(i as int);
        assert(left[0] == arg@);
        assert(left.skip(1) =~= all.skip(i + 1));
        if reads(arg, "-h") || reads(arg, "--help") {
            config.help = true;
            return Ok(config);
        } else if reads(arg, "-p") || reads(arg, "--parent") {
            config.show_parent = true;
        } else if reads(arg, "-w") || reads(arg, "--watch") || reads(arg, "--delta") {
            if timed {
                return Err("duplicate interval flag".to_owned());
            }
            timed = true;
            config.watch_secs = Some(3);
            if i + 1 < args.len() {
                assert(left.skip(1)[0] == args@[i + 1]@);
                assert(left.skip(1).skip(1) =~= all.skip(i + 2));
                match parse_number(args[i + 1].as_str(), u64::MAX) {
                    Some(secs) => {
                        if secs == 0 {
                            return Err("watch interval must be positive".to_owned());
                        }
                        config.watch_secs = Some(secs);
                        i = i + 1;
                    },
                    None => {},
                }
            }
        } else {
            match parse_number(arg.as_str(), usize::MAX as u64) {
                Some(n) => {
                    if timed {
                        return Err("N must appear before the interval flag".to_owned());
                    }
                    config.topn = n as usize;
                },
                None => {
                    let mut message = "unknown arg: ".to_owned();
                    message.append(arg.as_str());
                    return Err(message);
                },
            }
        }
        i = i + 1;
    }
    Ok(config)
}

/// The help text, line by line.
pub open spec fn usage_lines() -> Seq<Seq<char>> {
    seq![
        "macswapi [N] [-p|--parent] [-w|--watch|--delta [SECS]]"@,
        "  N            top N rows (default 20, 0=all)"@,
        "  -p --parent  add PPID + parent-name columns (works in watch mode too)"@,
        "  -w --watch   single-interval leak check; SECS must immediately follow the flag"@,
        "     --delta   clearer alias for --watch (default interval 3s)"@,
        "               SECS must be positive; N must appear before the interval flag"@,
        "               example: macswapi 50 --delta 5"@,
        "  -h --help    this help"@,
    ]
}

/// The help text.
pub fn usage() -> (r: Vec<String>)
    ensures
        texts(r@) == usage_lines(),
        r@.len() == 8,
        r@[0]@ == "macswapi [N] [-p|--parent] [-w|--watch|--delta [SECS]]"@,
        r@[1]@ == "  N            top N rows (default 20, 0=all)"@,
        r@[2]@ == "  -p --parent  add PPID + parent-name columns (works in watch mode too)"@,
        r@[3]@ == "  -w --watch   single-interval leak check; SECS must immediately follow the flag"@,
        r@[4]@ == "     --delta   clearer alias for --watch (default interval 3s)"@,
        r@[5]@ == "               SECS must be positive; N must appear before the interval flag"@,
        r@[6]@ == "               example: macswapi 50 --delta 5"@,
        r@[7]@ == "  -h --help    this help"@,
{
    let mut lines: Vec<String> = Vec::new();
    lines.push("macswapi [N] [-p|--parent] [-w|--watch|--delta [SECS]]".to_owned());
    lines.push("  N            top N rows (default 20, 0=all)".to_owned());
    lines.push(
        "  -p --parent  add PPID + parent-name columns (works in watch mode too)".to_owned(),
    );
    lines.push(
        "  -w --watch   single-interval leak check; SECS must immediately follow the flag".to_owned(),
    );
    lines.push("     --delta   clearer alias for --watch (default interval 3s)".to_owned());
    lines.push(
        "               SECS must be positive; N must appear before the interval flag".to_owned(),
    );
    lines.push("               example: macswapi 50 --delta 5".to_owned());
    lines.push("  -h --help    this help".to_owned());
    assert(texts(lines@) =~= usage_lines());
    lines
}

/// What to do.
#[derive(Debug, PartialEq, Eq)]
pub enum Command {
    /// Say what is wrong with the command line, print the help text and fail.
    Reject { message: String },
    /// Print the help text.
    Help,
    /// Compare two samples, so many seconds apart.
    Watch { interval: u64, topn: usize, show_parent: bool },
    /// List the processes as they are.
    Snapshot { topn: usize, show_parent: bool },
}

/// What a command line leads to. Help goes before all else.
pub fn command(args: &[String]) -> (r: Command)
    ensures
        match meaning(texts(args@)) {
            Err(message) => r matches Command::Reject { message: m } && m@ == message,
            Ok(config) => r == (if config.help {
                Command::Help
            } else if config.watch_secs is Some {
                Command::Watch {
                    interval: config.watch_secs->0,
                    topn: config.topn,
                    show_parent: config.show_parent,
                }
            } else {
                Command::Snapshot { topn: config.topn, show_parent: config.show_parent }
            }),
        },
{
    match parse_args(args) {
        Err(message) => Command::Reject { message },
        Ok(config) => {
            if config.help {
                Command::Help
            } else {
                match config.watch_secs {
                    Some(interval) => Command::Watch {
                        interval,
                        topn: config.topn,
                        show_parent: config.show_parent,
                    },
                    None => Command::Snapshot {
                        topn: config.topn,
                        show_parent: config.show_parent,
                    },
                }
            }
        },
    }
}

/// No flag reads as another flag or as a number.
proof fn lemma_flags(arg: Seq<char>)
    ensures
        is_help(arg) ==> !is_parent(arg) && !is_interval(arg),
        is_parent(arg) ==> !is_interval(arg),
        is_help(arg) || is_parent(arg) || is_interval(arg) ==> forall|max: u64|
            #[trigger] number_in(arg, max) is None,
{
    reveal_strlit("-h");
    reveal_strlit("--help");
    reveal_strlit("-p");
    reveal_strlit("--parent");
    reveal_strlit("-w");
    reveal_strlit("--watch");
    reveal_strlit("--delta");
    if is_help(arg) || is_parent(arg) || is_interval(arg) {
        assert(arg[0] == '-');
        assert(without_plus(arg) == arg);
    }
    if is_help(arg) {
        assert(arg.len() == 2 && arg[1] == 'h' || arg.len() == 6);
    }
    if is_parent(arg) {
        assert(arg.len() == 2 && arg[1] == 'p' || arg.len() == 8);
    }
    if is_interval(arg) {
        assert(arg.len() == 2 && arg[1] == 'w' || arg.len() == 7);
    }
}

/// Behind an interval flag and its seconds, a command line that is accepted and asks for no
/// help holds nothing but parent flags.
proof fn lemma_timed(args: Seq<Seq<char>>, config: Config)
    requires
        !config.help,
        scan(args, config, true) matches Ok(c) && !c.help,
    ensures
        forall|i: int| 0 <= i < args.len() ==> is_parent(#[trigger] args[i]),
        scan(args, config, true) == Ok::<Config, Seq<char>>(
            Config { show_parent: config.show_parent || args.len() > 0, ..config },
        ),
    decreases args.len(),
{
    if args.len() > 0 {
        let rest = args.skip(1);
        lemma_timed(rest, Config { show_parent: true, ..config });
        assert forall|i: int| 0 <= i < args.len() implies is_parent(#[trigger] args[i]) by {
            if i > 0 {
                assert(rest[i - 1] == args[i]);
            }
        }
    }
}

/// The argument asks for help.
pub open spec fn means_help(arg: Seq<char>) -> bool {
    arg == "-h"@ || arg == "--help"@
}

/// The argument asks for parents.
pub open spec fn means_parent(arg: Seq<char>) -> bool {
    arg == "-p"@ || arg == "--parent"@
}

/// The argument asks for a comparison.
pub open spec fn means_interval(arg: Seq<char>) -> bool {
    arg == "-w"@ || arg == "--watch"@ || arg == "--delta"@
}

/// What the digits of an argument are worth, if it is digits behind an optional plus sign.
pub open spec fn told_number(arg: Seq<char>) -> Option<int> {
    let digits = if arg.len() > 0 && arg[0] == '+' {
        arg.skip(1)
    } else {
        arg
    };
    if all_digits(digits) {
        Some(worth(digits))
    } else {
        None
    }
}

/// The number that an argument tells, if it is one up to `max`.
pub open spec fn told_up_to(arg: Seq<char>, max: u64) -> Option<u64> {
    match told_number(arg) {
        Some(n) => if n <= max {
            Some(n as u64)
        } else {
            None
        },
        None => None,
    }
}

proof fn lemma_numeral_is_its_worth(s: Seq<char>)
    requires
        forall|i: int| 0 <= i < s.len() ==> '0' <= #[trigger] s[i] <= '9',
    ensures
        numeral_value(s) == worth(s),
    decreases s.len(),
{
    if s.len() > 0 {
        lemma_numeral_is_its_worth(s.drop_last());
        lemma_worth_push(s.drop_last(), s.last());
        assert(s.drop_last().push(s.last()) =~= s);
    }
}

/// A number is read as what its digits are worth, each by its place.
pub proof fn law_numbers_are_what_their_digits_are_worth(arg: Seq<char>, max: u64)
    ensures
        number_in(arg, max) == told_up_to(arg, max),
{
    let digits = without_plus(arg);
    if is_numeral(digits) {
        lemma_numeral_is_its_worth(digits);
    }
}

proof fn lemma_numbers()
    ensures
        forall|arg: Seq<char>, max: u64| #[trigger] number_in(arg, max) == told_up_to(arg, max),
        forall|arg: Seq<char>| #[trigger] count_in(arg) == number_in(arg, usize::MAX as u64),
{
    assert forall|arg: Seq<char>, max: u64| #[trigger] number_in(arg, max) == told_up_to(
        arg,
        max,
    ) by {
        law_numbers_are_what_their_digits_are_worth(arg, max);
    }
    assert forall|arg: Seq<char>| #[trigger] count_in(arg) == number_in(
        arg,
        usize::MAX as u64,
    ) by {
        law_numbers_are_what_their_digits_are_worth(arg, usize::MAX as u64);
    }
}

/// Where the flag for an interval stands, if it is given.
pub open spec fn interval_at(args: Seq<Seq<char>>, i: int) -> bool {
    0 <= i < args.len() && means_interval(args[i])
}

/// The number of rows that an argument stands for.
pub open spec fn count_in(arg: Seq<char>) -> Option<u64> {
    told_up_to(arg, usize::MAX as u64)
}

/// The seconds behind the interval flag at `i`, three unless a number follows it.
pub open spec fn seconds_behind(args: Seq<Seq<char>>, i: int) -> u64 {
    if i + 1 < args.len() && told_up_to(args[i + 1], u64::MAX) is Some {
        told_up_to(args[i + 1], u64::MAX)->0
    } else {
        3
    }
}

/// What an accepted command line without a request for help looks like, and what it means.
spec fn reads_as(args: Seq<Seq<char>>, config: Config, c: Config) -> bool {
    &&& c.show_parent == (config.show_parent || exists|i: int|
        0 <= i < args.len() && is_parent(#[trigger] args[i]))
    &&& forall|i: int, j: int|
        #![trigger interval_at(args, i), interval_at(args, j)]
        interval_at(args, i) && interval_at(args, j) ==> i == j
    &&& forall|i: int| #[trigger]
        interval_at(args, i) ==> c.watch_secs == Some(seconds_behind(args, i)) && seconds_behind(
            args,
            i,
        ) > 0
    &&& (forall|i: int| !#[trigger] interval_at(args, i)) ==> c.watch_secs == config.watch_secs
    &&& forall|i: int, j: int|
        #![trigger interval_at(args, i), count_in(args[j])]
        interval_at(args, i) && i < j < args.len() && count_in(args[j]) is Some ==> j == i + 1
    &&& forall|i: int| 0 <= i < args.len() ==> is_known(#[trigger] args[i])
}

/// An argument that can be made sense of: a flag or a number.
pub open spec fn is_known(arg: Seq<char>) -> bool {
    means_help(arg) || means_parent(arg) || means_interval(arg) || told_up_to(arg, u64::MAX) is Some
}

proof fn lemma_reads_as(args: Seq<Seq<char>>, config: Config)
    requires
        !config.help,
        scan(args, config, false) matches Ok(c) && !c.help,
    ensures
        reads_as(args, config, scan(args, config, false)->Ok_0),
    decreases args.len(),
{
    lemma_numbers();
    let c = scan(args, config, false)->Ok_0;
    if args.len() > 0 {
        let arg = args[0];
        let rest = args.skip(1);
        lemma_flags(arg);
        if is_interval(arg) {
            assert(interval_at(args, 0));
            let timed = rest.len() > 0 && number_in(rest[0], u64::MAX) is Some;
            let behind = if timed {
                rest.skip(1)
            } else {
                rest
            };
            let skipped: int = if timed {
                2
            } else {
                1
            };
            let given = Config { watch_secs: Some(seconds_behind(args, 0)), ..config };
            assert(timed ==> rest[0] == args[1]);
            lemma_timed(behind, given);
            assert forall|i: int| skipped <= i < args.len() implies is_parent(#[trigger] args[i]) by {
                assert(behind[i - skipped] == args[i]);
            }
            if timed {
                if is_parent(args[1]) || is_interval(args[1]) {
                    lemma_flags(args[1]);
                }
            }
            assert forall|i: int| #[trigger] interval_at(args, i) implies i == 0 by {
                if i >= skipped {
                    lemma_flags(args[i]);
                }
            }
            assert forall|j: int| 0 < j < args.len() && #[trigger] count_in(args[j]) is Some implies j
                == 1 by {
                if j >= skipped {
                    lemma_flags(args[j]);
                }
            }
            assert forall|i: int| 0 <= i < args.len() implies is_known(#[trigger] args[i]) by {
                assert(i < skipped || is_parent(args[i]));
            }
            if behind.len() > 0 {
                assert(is_parent(args[skipped]));
            }
            if exists|i: int| 0 <= i < args.len() && is_parent(#[trigger] args[i]) {
                let i = choose|i: int| 0 <= i < args.len() && is_parent(#[trigger] args[i]);
                assert(i >= skipped);
            }
        } else {
            let next = if is_parent(arg) {
                Config { show_parent: true, ..config }
            } else {
                Config { topn: count_in(arg)->0 as usize, ..config }
            };
            lemma_reads_as(rest, next);
            assert forall|i: int| #[trigger] interval_at(args, i) implies i > 0 && interval_at(
                rest,
                i - 1,
            ) && seconds_behind(rest, i - 1) == seconds_behind(args, i) by {
                assert(i > 0);
                assert(rest[i - 1] == args[i]);
                if i + 1 < args.len() {
                    assert(rest[i] == args[i + 1]);
                }
            }
            assert forall|i: int| #[trigger] interval_at(rest, i) implies interval_at(args, i + 1) by {
                assert(rest[i] == args[i + 1]);
            }
            assert forall|i: int, j: int|
                #![trigger interval_at(args, i), count_in(args[j])]
                interval_at(args, i) && i < j < args.len() && count_in(args[j]) is Some implies j
                == i + 1 by {
                assert(rest[j - 1] == args[j]);
                assert(interval_at(rest, i - 1) && count_in(rest[j - 1]) is Some);
            }
            if exists|i: int| 0 <= i < args.len() && is_parent(#[trigger] args[i]) {
                let i = choose|i: int| 0 <= i < args.len() && is_parent(#[trigger] args[i]);
                if i > 0 {
                    assert(is_parent(rest[i - 1]));
                }
            }
            assert forall|i: int| 0 <= i < args.len() implies is_known(#[trigger] args[i]) by {
                if i > 0 {
                    assert(is_known(rest[i - 1]));
                }
            }
            if exists|i: int| 0 <= i < rest.len() && is_parent(#[trigger] rest[i]) {
                let i = choose|i: int| 0 <= i < rest.len() && is_parent(#[trigger] rest[i]);
                assert(is_parent(args[i + 1]));
            }
        }
    }
}

/// Help is asked for somewhere.
pub open spec fn asks_help(args: Seq<Seq<char>>) -> bool {
    exists|i: int| 0 <= i < args.len() && means_help(#[trigger] args[i])
}

proof fn lemma_help(args: Seq<Seq<char>>, config: Config, timed: bool)
    requires
        !config.help,
    ensures
        scan(args, config, timed) matches Ok(c) ==> c.help == asks_help(args),
    decreases args.len(),
{
    lemma_numbers();
    if args.len() > 0 {
        let arg = args[0];
        let rest = args.skip(1);
        lemma_flags(arg);
        lemma_skip_help(args);
        if is_parent(arg) {
            lemma_help(rest, Config { show_parent: true, ..config }, timed);
        } else if is_interval(arg) {
            if rest.len() > 0 {
                lemma_flags(rest[0]);
                lemma_skip_help(rest);
                lemma_help(
                    rest.skip(1),
                    Config { watch_secs: Some(number_in(rest[0], u64::MAX)->0), ..config },
                    true,
                );
            }
            lemma_help(rest, Config { watch_secs: Some(3), ..config }, true);
        } else if !is_help(arg) {
            lemma_help(rest, Config { topn: count_in(arg)->0 as usize, ..config }, timed);
        } else {
            assert(asks_help(args));
        }
    }
}

proof fn lemma_skip_help(args: Seq<Seq<char>>)
    requires
        args.len() > 0,
    ensures
        asks_help(args) == (is_help(args[0]) || asks_help(args.skip(1))),
{
    let rest = args.skip(1);
    if asks_help(args) && !is_help(args[0]) {
        let i = choose|i: int| 0 <= i < args.len() && is_help(#[trigger] args[i]);
        assert(is_help(rest[i - 1]));
    }
    if asks_help(rest) {
        let i = choose|i: int| 0 <= i < rest.len() && is_help(#[trigger] rest[i]);
        assert(is_help(args[i + 1]));
    }
}

/// A command line that is accepted asks for help exactly if a help flag is on it.
pub proof fn law_help_is_asked_by_its_flag(args: Seq<Seq<char>>)
    ensures
        meaning(args) matches Ok(c) ==> c.help == asks_help(args),
{
    lemma_help(args, default_config(), false);
}

/// What is asked for, or what is wrong, once help is asked for too.
pub open spec fn with_help(asked: Result<Config, Seq<char>>) -> Result<Config, Seq<char>> {
    match asked {
        Ok(c) => Ok(Config { help: true, ..c }),
        Err(message) => Err(message),
    }
}

/// A help flag ends the reading: a command line with one means what the arguments in front of it
/// mean, with help asked for, or has their fault. What follows the flag is not read.
pub proof fn law_help_ends_the_reading(args: Seq<Seq<char>>, i: int)
    requires
        0 <= i < args.len(),
        means_help(args[i]),
    ensures
        meaning(args) == with_help(meaning(args.take(i))),
{
    lemma_help_ends(args, i, default_config(), false);
}

proof fn lemma_help_ends(args: Seq<Seq<char>>, i: int, config: Config, timed: bool)
    requires
        0 <= i < args.len(),
        is_help(args[i]),
    ensures
        scan(args, config, timed) == with_help(scan(args.take(i), config, timed)),
    decreases args.len(),
{
    lemma_numbers();
    let arg = args[0];
    let rest = args.skip(1);
    lemma_flags(args[i]);
    if i > 0 {
        let front = args.take(i);
        assert(front[0] == arg);
        assert(front.skip(1) =~= rest.take(i - 1));
        assert(rest[i - 1] == args[i]);
        if is_parent(arg) {
            lemma_help_ends(rest, i - 1, Config { show_parent: true, ..config }, timed);
        } else if is_interval(arg) {
            if i > 1 {
                assert(rest.take(i - 1)[0] == rest[0]);
            }
            if number_in(rest[0], u64::MAX) is Some {
                assert(rest.take(i - 1).skip(1) =~= rest.skip(1).take(i - 2));
                assert(rest.skip(1)[i - 2] == args[i]);
                lemma_help_ends(
                    rest.skip(1),
                    i - 2,
                    Config { watch_secs: Some(number_in(rest[0], u64::MAX)->0), ..config },
                    true,
                );
            } else {
                lemma_help_ends(rest, i - 1, Config { watch_secs: Some(3), ..config }, true);
            }
        } else if !is_help(arg) {
            let named = Config { topn: count_in(arg)->0 as usize, ..config };
            lemma_help_ends(rest, i - 1, named, timed);
        }
    }
}

/// The seconds of an interval flag stand at `i`.
pub open spec fn seconds_at(args: Seq<Seq<char>>, i: int) -> bool {
    0 <= i < args.len() && interval_at(args, i - 1) && told_up_to(args[i], u64::MAX) is Some
}

/// A number of rows stands at `i`: a number that does not directly follow an interval flag.
pub open spec fn count_at(args: Seq<Seq<char>>, i: int) -> bool {
    0 <= i < args.len() && count_in(args[i]) is Some && !interval_at(args, i - 1)
}

/// An interval flag stands in front of `i`.
pub open spec fn timed_before(args: Seq<Seq<char>>, i: int) -> bool {
    exists|j: int| j < i && #[trigger] interval_at(args, j)
}

/// What is wrong with the argument at `i`, by itself and by what stands around it.
pub open spec fn fault_at(args: Seq<Seq<char>>, i: int) -> Option<Seq<char>> {
    let arg = args[i];
    if means_help(arg) || means_parent(arg) || seconds_at(args, i) {
        None
    } else if means_interval(arg) {
        if timed_before(args, i) {
            Some("duplicate interval flag"@)
        } else if seconds_behind(args, i) == 0 {
            Some("watch interval must be positive"@)
        } else {
            None
        }
    } else if count_in(arg) is None {
        Some("unknown arg: "@ + arg)
    } else if timed_before(args, i) {
        Some("N must appear before the interval flag"@)
    } else {
        None
    }
}

/// The reading has come to `k`, with or without an interval flag behind it.
spec fn comes_to(args: Seq<Seq<char>>, k: int, timed: bool) -> bool {
    0 <= k <= args.len() && !seconds_at(args, k) && timed == timed_before(args, k)
}

/// How the reading goes on from the argument at `k`.
proof fn lemma_goes_on(args: Seq<Seq<char>>, k: int, timed: bool)
    requires
        comes_to(args, k, timed),
        k < args.len(),
    ensures
        args.skip(k)[0] == args[k],
        args.skip(k).skip(1) == args.skip(k + 1),
        is_interval(args[k]) ==> timed_before(args, k + 1) && timed_before(args, k + 2),
        !is_interval(args[k]) ==> comes_to(args, k + 1, timed),
        is_interval(args[k]) && !seconds_at(args, k + 1) ==> comes_to(args, k + 1, true),
        seconds_at(args, k + 1) ==> {
            &&& !is_interval(args[k + 1])
            &&& args.skip(k + 1)[0] == args[k + 1]
            &&& args.skip(k + 1).skip(1) == args.skip(k + 2)
            &&& comes_to(args, k + 2, true)
        },
{
    lemma_numbers();
    assert(args.skip(k).skip(1) =~= args.skip(k + 1));
    if is_interval(args[k]) {
        assert(interval_at(args, k));
    } else {
        assert(!interval_at(args, k));
        if timed_before(args, k + 1) {
            let j = choose|j: int| j < k + 1 && #[trigger] interval_at(args, j);
            assert(j < k);
        }
        if timed_before(args, k) {
            let j = choose|j: int| j < k && #[trigger] interval_at(args, j);
            assert(j < k + 1);
        }
    }
    if seconds_at(args, k + 1) {
        lemma_flags(args[k + 1]);
        assert(number_in(args[k + 1], u64::MAX) is Some);
        assert(args.skip(k + 1).skip(1) =~= args.skip(k + 2));
    }
}

/// The fault that is come to first is the one that is reported.
proof fn lemma_first_fault(args: Seq<Seq<char>>, k: int, i: int, config: Config, timed: bool)
    requires
        comes_to(args, k, timed),
        k <= i < args.len(),
        fault_at(args, i) is Some,
        forall|j: int|
            k <= j < i ==> (#[trigger] fault_at(args, j)) is None && !is_help(args[j]),
    ensures
        scan(args.skip(k), config, timed) == Err::<Config, Seq<char>>(fault_at(args, i)->0),
    decreases args.len() - k,
{
    lemma_numbers();
    let arg = args[k];
    lemma_goes_on(args, k, timed);
    lemma_flags(arg);
    if k + 1 < args.len() {
        assert(args.skip(k + 1)[0] == args[k + 1]);
    }
    assert(interval_at(args, k) == is_interval(arg));
    if k < i {
        assert(fault_at(args, k) is None);
        if is_parent(arg) {
            lemma_first_fault(args, k + 1, i, Config { show_parent: true, ..config }, timed);
        } else if is_interval(arg) {
            let given = Config { watch_secs: Some(seconds_behind(args, k)), ..config };
            if seconds_at(args, k + 1) {
                assert(fault_at(args, k + 1) is None);
                lemma_first_fault(args, k + 2, i, given, true);
            } else {
                lemma_first_fault(args, k + 1, i, given, true);
            }
        } else {
            let named = Config { topn: count_in(arg)->0 as usize, ..config };
            lemma_first_fault(args, k + 1, i, named, timed);
        }
    }
}

/// The first fault on a command line, unless help is asked for in front of it, is the one that
/// is reported.
pub proof fn law_first_fault_is_reported(args: Seq<Seq<char>>, i: int)
    requires
        0 <= i < args.len(),
        fault_at(args, i) is Some,
        forall|j: int|
            0 <= j < i ==> (#[trigger] fault_at(args, j)) is None && !means_help(args[j]),
    ensures
        meaning(args) == Err::<Config, Seq<char>>(fault_at(args, i)->0),
{
    assert(args.skip(0) =~= args);
    lemma_first_fault(args, 0, i, default_config(), false);
}

proof fn lemma_faultless(args: Seq<Seq<char>>, k: int, config: Config, timed: bool)
    requires
        comes_to(args, k, timed),
        forall|j: int|
            k <= j < args.len() ==> (#[trigger] fault_at(args, j)) is None && !is_help(args[j]),
    ensures
        scan(args.skip(k), config, timed) is Ok,
    decreases args.len() - k,
{
    lemma_numbers();
    if k < args.len() {
        let arg = args[k];
        lemma_goes_on(args, k, timed);
        lemma_flags(arg);
        if k + 1 < args.len() {
            assert(args.skip(k + 1)[0] == args[k + 1]);
        }
        assert(interval_at(args, k) == is_interval(arg));
        assert(fault_at(args, k) is None);
        if is_parent(arg) {
            lemma_faultless(args, k + 1, Config { show_parent: true, ..config }, timed);
        } else if is_interval(arg) {
            let given = Config { watch_secs: Some(seconds_behind(args, k)), ..config };
            if seconds_at(args, k + 1) {
                lemma_faultless(args, k + 2, given, true);
            } else {
                lemma_faultless(args, k + 1, given, true);
            }
        } else {
            let named = Config { topn: count_in(arg)->0 as usize, ..config };
            lemma_faultless(args, k + 1, named, timed);
        }
    }
}

/// Of several faults one comes first.
proof fn lemma_least_fault(args: Seq<Seq<char>>, i: int) -> (least: int)
    requires
        0 <= i < args.len(),
        fault_at(args, i) is Some,
    ensures
        0 <= least <= i,
        fault_at(args, least) is Some,
        forall|j: int| 0 <= j < least ==> (#[trigger] fault_at(args, j)) is None,
    decreases i,
{
    if exists|j: int| 0 <= j < i && (#[trigger] fault_at(args, j)) is Some {
        let j = choose|j: int| 0 <= j < i && (#[trigger] fault_at(args, j)) is Some;
        lemma_least_fault(args, j)
    } else {
        i
    }
}

/// A command line that asks for no help is accepted exactly if no argument has a fault: each is
/// a parent flag, a number of rows in front of the interval flag, the only interval flag, or the
/// positive seconds directly behind it.
pub proof fn law_faultless_lines_are_accepted(args: Seq<Seq<char>>)
    requires
        !asks_help(args),
    ensures
        meaning(args) is Ok <==> forall|i: int|
            0 <= i < args.len() ==> (#[trigger] fault_at(args, i)) is None,
{
    if forall|i: int| 0 <= i < args.len() ==> (#[trigger] fault_at(args, i)) is None {
        assert(args.skip(0) =~= args);
        lemma_faultless(args, 0, default_config(), false);
    } else {
        let i = choose|i: int|
            0 <= i < args.len() && !((#[trigger] fault_at(args, i)) is None);
        let least = lemma_least_fault(args, i);
        law_first_fault_is_reported(args, least);
    }
}

/// Unless help is asked for, two interval flags on one command line are an error.
pub proof fn law_second_interval_is_rejected(args: Seq<Seq<char>>, i: int, j: int)
    requires
        !asks_help(args),
        interval_at(args, i),
        interval_at(args, j),
        i != j,
    ensures
        meaning(args) is Err,
{
    law_help_is_asked_by_its_flag(args);
    if meaning(args) is Ok {
        lemma_reads_as(args, default_config());
    }
}

/// Unless help is asked for, a number of rows behind the interval flag is an error: the
/// number that directly follows the flag is taken for seconds.
pub proof fn law_count_behind_interval_is_rejected(args: Seq<Seq<char>>, i: int, j: int)
    requires
        !asks_help(args),
        interval_at(args, i),
        i + 1 < j < args.len(),
        count_in(args[j]) is Some,
    ensures
        meaning(args) is Err,
{
    law_help_is_asked_by_its_flag(args);
    if meaning(args) is Ok {
        lemma_reads_as(args, default_config());
    }
}

/// Unless help is asked for, zero seconds behind an interval flag are an error.
pub proof fn law_zero_seconds_are_rejected(args: Seq<Seq<char>>, i: int)
    requires
        !asks_help(args),
        interval_at(args, i),
        seconds_behind(args, i) == 0,
    ensures
        meaning(args) is Err,
{
    law_help_is_asked_by_its_flag(args);
    if meaning(args) is Ok {
        lemma_reads_as(args, default_config());
    }
}

/// Unless help is asked for, an argument that is no flag and no number is an error.
pub proof fn law_unknown_argument_is_rejected(args: Seq<Seq<char>>, i: int)
    requires
        !asks_help(args),
        0 <= i < args.len(),
        !is_known(args[i]),
    ensures
        meaning(args) is Err,
{
    law_help_is_asked_by_its_flag(args);
    if meaning(args) is Ok {
        lemma_reads_as(args, default_config());
    }
}

/// An accepted command line sets an interval exactly if it holds an interval flag: the
/// seconds directly behind it, or three.
pub proof fn law_interval_is_what_follows_its_flag(args: Seq<Seq<char>>)
    requires
        !asks_help(args),
        meaning(args) is Ok,
    ensures
        forall|i: int| #[trigger]
            interval_at(args, i) ==> meaning(args)->Ok_0.watch_secs == Some(seconds_behind(args, i)),
        (forall|i: int| !#[trigger] interval_at(args, i)) ==> meaning(args)->Ok_0.watch_secs is None,
{
    law_help_is_asked_by_its_flag(args);
    lemma_reads_as(args, default_config());
}

/// An accepted command line asks for parents exactly if it holds a parent flag, wherever.
pub proof fn law_parents_are_asked_by_their_flag(args: Seq<Seq<char>>)
    requires
        !asks_help(args),
        meaning(args) is Ok,
    ensures
        meaning(args)->Ok_0.show_parent == exists|i: int|
            0 <= i < args.len() && means_parent(#[trigger] args[i]),
{
    law_help_is_asked_by_its_flag(args);
    lemma_reads_as(args, default_config());
}

/// The number of rows that the rest of a command line asks for.
spec fn asks_rows(args: Seq<Seq<char>>, k: int, before: usize, topn: usize) -> bool {
    &&& forall|i: int|
        k <= i && #[trigger] count_at(args, i) && (forall|j: int|
            i < j ==> !#[trigger] count_at(args, j)) ==> topn == count_in(args[i])->0
    &&& (forall|i: int| k <= i ==> !#[trigger] count_at(args, i)) ==> topn == before
}

proof fn lemma_rows(args: Seq<Seq<char>>, k: int, config: Config, timed: bool)
    requires
        comes_to(args, k, timed),
        !asks_help(args),
        scan(args.skip(k), config, timed) is Ok,
    ensures
        asks_rows(args, k, config.topn, scan(args.skip(k), config, timed)->Ok_0.topn),
    decreases args.len() - k,
{
    lemma_numbers();
    let topn = scan(args.skip(k), config, timed)->Ok_0.topn;
    if k < args.len() {
        let arg = args[k];
        lemma_goes_on(args, k, timed);
        lemma_flags(arg);
        assert(!is_help(arg));
        if k + 1 < args.len() {
            assert(args.skip(k + 1)[0] == args[k + 1]);
        }
        assert(interval_at(args, k) == is_interval(arg));
        if is_parent(arg) {
            lemma_rows(args, k + 1, Config { show_parent: true, ..config }, timed);
            assert(!count_at(args, k));
        } else if is_interval(arg) {
            let given = Config { watch_secs: Some(seconds_behind(args, k)), ..config };
            assert(!count_at(args, k) && !count_at(args, k + 1));
            if seconds_at(args, k + 1) {
                lemma_rows(args, k + 2, given, true);
            } else {
                lemma_rows(args, k + 1, given, true);
            }
        } else {
            let named = Config { topn: count_in(arg)->0 as usize, ..config };
            lemma_rows(args, k + 1, named, timed);
            if interval_at(args, k - 1) {
                assert(seconds_at(args, k));
            }
            assert(count_at(args, k));
            assert forall|i: int|
                k <= i && #[trigger] count_at(args, i) && (forall|j: int|
                    i < j ==> !#[trigger] count_at(args, j)) implies topn == count_in(
                args[i],
            )->0 by {
                if i == k {
                    assert(forall|j: int| k + 1 <= j ==> !#[trigger] count_at(args, j));
                }
            }
        }
    }
}

/// The rows that an accepted command line asks for are the last number on it that does not
/// directly follow an interval flag, or twenty if there is none.
pub proof fn law_rows_are_the_last_count(args: Seq<Seq<char>>)
    requires
        !asks_help(args),
        meaning(args) is Ok,
    ensures
        forall|i: int| #[trigger]
            count_at(args, i) && (forall|j: int| i < j ==> !#[trigger] count_at(args, j))
                ==> told_number(args[i]) == Some(meaning(args)->Ok_0.topn as int),
        (forall|i: int| !#[trigger] count_at(args, i)) ==> meaning(args)->Ok_0.topn == 20,
{
    assert(args.skip(0) =~= args);
    lemma_rows(args, 0, default_config(), false);
    assert forall|i: int| #[trigger] count_at(args, i) implies told_number(args[i]) is Some
        && told_number(args[i])->0 == count_in(args[i])->0 by {
        lemma_numeral_is_its_worth(without_plus(args[i]));
    }
}

proof fn lemma_positive(args: Seq<Seq<char>>, config: Config, timed: bool)
    requires
        config.watch_secs matches Some(secs) ==> secs > 0,
    ensures
        scan(args, config, timed) matches Ok(c) ==> (c.watch_secs matches Some(secs) ==> secs > 0),
    decreases args.len(),
{
    lemma_numbers();
    if args.len() > 0 {
        let arg = args[0];
        let rest = args.skip(1);
        lemma_positive(rest, Config { show_parent: true, ..config }, timed);
        lemma_positive(rest, Config { watch_secs: Some(3), ..config }, true);
        lemma_positive(rest, Config { topn: count_in(arg)->0 as usize, ..config }, timed);
        if rest.len() > 0 && number_in(rest[0], u64::MAX) is Some && number_in(rest[0], u64::MAX)->0
            > 0 {
            lemma_positive(
                rest.skip(1),
                Config { watch_secs: Some(number_in(rest[0], u64::MAX)->0), ..config },
                true,
            );
        }
    }
}

/// The interval of an accepted command line is positive.
pub proof fn law_interval_is_positive(args: Seq<Seq<char>>)
    ensures
        meaning(args) matches Ok(c) ==> (c.watch_secs matches Some(secs) ==> secs > 0),
{
    lemma_positive(args, default_config(), false);
}

/// A number alone on the command line is the number of rows: any that fits, and exactly that
/// many.
pub proof fn law_a_number_alone_is_the_rows(n: usize)
    ensures
        meaning(seq![decimal(n as nat)]) == Ok::<Config, Seq<char>>(
            Config { topn: n, show_parent: false, watch_secs: None, help: false },
        ),
{
    let arg = decimal(n as nat);
    let args = seq![arg];
    lemma_written_number(n as nat);
    lemma_numbers();
    assert(args.skip(1).len() == 0);
    let named = Config { topn: n, ..default_config() };
    assert(scan(args.skip(1), named, false) == Ok::<Config, Seq<char>>(named));
}

proof fn lemma_written_number(n: nat)
    ensures
        told_number(decimal(n)) == Some(n as int),
        !is_help(decimal(n)) && !is_parent(decimal(n)) && !is_interval(decimal(n)),
{
    let arg = decimal(n);
    law_decimal_is_read_back(n);
    lemma_decimal_digits(n);
    assert('0' <= arg[0] <= '9');
    lemma_flags_start_with_a_dash(arg);
}

proof fn lemma_flags_start_with_a_dash(arg: Seq<char>)
    ensures
        is_help(arg) || is_parent(arg) || is_interval(arg) ==> arg.len() > 0 && arg[0] == '-',
{
    reveal_strlit("-h");
    reveal_strlit("--help");
    reveal_strlit("-p");
    reveal_strlit("--parent");
    reveal_strlit("-w");
    reveal_strlit("--watch");
    reveal_strlit("--delta");
}

/// A number of seconds behind an interval flag is the interval: any that is positive and fits,
/// and exactly that many; the rows are twenty then.
pub proof fn law_a_number_behind_its_flag_is_the_interval(flag: Seq<char>, n: u64)
    requires
        flag == "-w"@ || flag == "--watch"@ || flag == "--delta"@,
        n > 0,
    ensures
        meaning(seq![flag, decimal(n as nat)]) == Ok::<Config, Seq<char>>(
            Config { topn: 20, show_parent: false, watch_secs: Some(n), help: false },
        ),
{
    let arg = decimal(n as nat);
    let args = seq![flag, arg];
    lemma_written_number(n as nat);
    lemma_numbers();
    lemma_flags(flag);
    let rest = args.skip(1);
    assert(rest[0] == arg);
    assert(rest.skip(1).len() == 0);
    let timed = Config { watch_secs: Some(n), ..default_config() };
    assert(scan(rest.skip(1), timed, true) == Ok::<Config, Seq<char>>(timed));
}

} // verus!
