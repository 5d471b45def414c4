use crate::decimal::{
    decimal_chars, lemma_decimal_chars_value, parse_unsigned, parse_unsigned_in, unsigned_digits,
};
use crate::range::{parse_outcome, RangeOrExact};
use crate::textutil::{chars_of, str_eq};
use vstd::prelude::*;

verus! {

/// The options of a run.
pub struct CliArgs {
    pub words: Option<RangeOrExact>,
    pub bytes: Option<RangeOrExact>,
    pub seed: Option<u64>,
}

/// What the command line asks for.
pub enum CliCommand {
    /// Generate text with these options.
    Run(CliArgs),
    /// Print the help text and stop successfully.
    Help,
    /// Print the message (and the help text when `show_help`) and stop with an error.
    Fail { message: String, show_help: bool },
}

/// The outcome of reading a command line, in terms of plain values.
pub enum CliOutcome {
    Run(Option<RangeOrExact>, Option<RangeOrExact>, Option<u64>),
    Help,
    Fail(Seq<char>, bool),
}

/// Whether `s` names the option with the given short and long spelling.
pub open spec fn is_flag(s: Seq<char>, short: Seq<char>, long: Seq<char>) -> bool {
    s == short || s == long
}

/// Reading the arguments from position `i` on, with the options seen so far.
/// Options are handled in order; the first problem ends the reading.
pub open spec fn read_args(
    args: Seq<Seq<char>>,
    i: int,
    words: Option<RangeOrExact>,
    bytes: Option<RangeOrExact>,
    seed: Option<u64>,
) -> CliOutcome
    decreases args.len() - i,
{
    if i < 0 || i >= args.len() {
        if words is Some && bytes is Some {
            CliOutcome::Fail("Error: --words and --bytes parameters are mutually exclusive."@, false)
        } else {
            CliOutcome::Run(words, bytes, seed)
        }
    } else {
        let a = args[i];
        if is_flag(a, "-h"@, "--help"@) {
            CliOutcome::Help
        } else if is_flag(a, "-w"@, "--words"@) || is_flag(a, "-b"@, "--bytes"@) {
            if i + 1 < args.len() {
                match parse_outcome(args[i + 1]) {
                    Ok(v) => if is_flag(a, "-w"@, "--words"@) {
                        read_args(args, i + 2, Some(v), bytes, seed)
                    } else {
                        read_args(args, i + 2, words, Some(v), seed)
                    },
                    Err(e) => CliOutcome::Fail("Error: "@ + e, false),
                }
            } else {
                CliOutcome::Fail("Error: Missing value for "@ + a, false)
            }
        } else if is_flag(a, "-s"@, "--seed"@) {
            if i + 1 < args.len() {
                match parse_unsigned(args[i + 1], u64::MAX as nat) {
                    Some(v) => read_args(args, i + 2, words, bytes, Some(v as u64)),
                    None => CliOutcome::Fail("Error: Invalid seed value: "@ + args[i + 1], false),
                }
            } else {
                CliOutcome::Fail("Error: Missing value for "@ + a, false)
            }
        } else {
            CliOutcome::Fail("Error: Unknown argument: "@ + a, true)
        }
    }
}

/// The outcome of a whole argument list (the program name already removed).
pub open spec fn cli_outcome(args: Seq<Seq<char>>) -> CliOutcome {
    read_args(args, 0, None, None, None)
}

/// The command carries exactly the outcome.
pub open spec fn command_is(c: CliCommand, o: CliOutcome) -> bool {
    match c {
        CliCommand::Run(a) => o == CliOutcome::Run(a.words, a.bytes, a.seed),
        CliCommand::Help => o == CliOutcome::Help,
        CliCommand::Fail { message, show_help } => o == CliOutcome::Fail(message@, show_help),
    }
}

/// The arguments as character sequences.
pub open spec fn arg_views(args: Seq<String>) -> Seq<Seq<char>> {
    args.map_values(|s: String| s@)
}

/// A message made of a literal prefix and a copy of `tail`.
fn error_message(prefix: &str, tail: &str) -> (m: String)
    ensures
        m@ == prefix@ + tail@,
{
    let mut m = String::from_str(prefix);
    m.append(tail);
    m
}

/// Reads the command-line options (the program name already removed).
pub fn parse_cli(args: &Vec<String>) -> (c: CliCommand)
    ensures
        command_is(c, cli_outcome(arg_views(args@))),
{
    let ghost av = arg_views(args@);
    let mut words: Option<RangeOrExact> = None;
    let mut bytes: Option<RangeOrExact> = None;
    let mut seed: Option<u64> = None;
    let mut i: usize = 0;
    while i < args.len()
        invariant
            i <= args@.len(),
            av == arg_views(args@),
            cli_outcome(av) == read_args(av, i as int, words, bytes, seed),
        decreases args.len() - i,
    {
        let a = args[i].as_str();
        assert(av[i as int] == a@);
        if str_eq(a, "-h") || str_eq(a, "--help") {
            return CliCommand::Help;
        }
        let is_words = str_eq(a, "-w") || str_eq(a, "--words");
        let is_bytes = str_eq(a, "-b") || str_eq(a, "--bytes");
        if is_words || is_bytes {
            if i + 1 >= args.len() {
                return CliCommand::Fail {
                    message: error_message("Error: Missing value for ", a),
                    show_help: false,
                };
            }
            let v = args[i + 1].as_str();
            assert(av[i + 1] == v@);
            match RangeOrExact::parse(v) {
                Ok(r) => {
                    if is_words {
                        words = Some(r);
                    } else {
                        bytes = Some(r);
                    }
                },
                Err(e) => {
                    return CliCommand::Fail {
                        message: error_message("Error: ", e.as_str()),
                        show_help: false,
                    };
                },
            }
            i = i + 2;
        } else if str_eq(a, "-s") || str_eq(a, "--seed") {
            if i + 1 >= args.len() {
                return CliCommand::Fail {
                    message: error_message("Error: Missing value for ", a),
                    show_help: false,
                };
            }
            let v = args[i + 1].as_str();
            assert(av[i + 1] == v@);
            let vs = chars_of(v);
            assert(vs@.subrange(0, vs@.len() as int) =~= v@);
            match parse_unsigned_in(&vs, 0, vs.len(), u64::MAX) {
                Some(x) => {
                    seed = Some(x);
                },
                None => {
                    return CliCommand::Fail {
                        message: error_message("Error: Invalid seed value: ", v),
                        show_help: false,
                    };
                },
            }
            i = i + 2;
        } else {
            return CliCommand::Fail {
                message: error_message("Error: Unknown argument: ", a),
                show_help: true,
            };
        }
    }
    if words.is_some() && bytes.is_some() {
        return CliCommand::Fail {
            message: String::from_str("Error: --words and --bytes parameters are mutually exclusive."),
            show_help: false,
        };
    }
    CliCommand::Run(CliArgs { words, bytes, seed })
}

proof fn lemma_read_args_from(
    a1: Seq<Seq<char>>,
    a2: Seq<Seq<char>>,
    i: int,
    words: Option<RangeOrExact>,
    bytes: Option<RangeOrExact>,
    seed: Option<u64>,
)
    requires
        a1.len() == a2.len(),
        0 <= i,
        forall|k: int| i <= k < a1.len() ==> a1[k] == a2[k],
    ensures
        read_args(a1, i, words, bytes, seed) == read_args(a2, i, words, bytes, seed),
    decreases a1.len() - i,
{
    if i < a1.len() {
        assert(a1[i] == a2[i]);
        if i + 1 < a1.len() {
            assert(a1[i + 1] == a2[i + 1]);
            match parse_outcome(a1[i + 1]) {
                Ok(v) => {
                    lemma_read_args_from(a1, a2, i + 2, Some(v), bytes, seed);
                    lemma_read_args_from(a1, a2, i + 2, words, Some(v), seed);
                },
                Err(_) => {},
            }
            match parse_unsigned(a1[i + 1], u64::MAX as nat) {
                Some(v) => lemma_read_args_from(a1, a2, i + 2, words, bytes, Some(v as u64)),
                None => {},
            }
        }
    }
}

/// The four options that a command line recognises.
pub open spec fn same_option(a: Seq<char>, b: Seq<char>) -> bool {
    &&& is_flag(a, "-h"@, "--help"@) == is_flag(b, "-h"@, "--help"@)
    &&& is_flag(a, "-w"@, "--words"@) == is_flag(b, "-w"@, "--words"@)
    &&& is_flag(a, "-b"@, "--bytes"@) == is_flag(b, "-b"@, "--bytes"@)
    &&& is_flag(a, "-s"@, "--seed"@) == is_flag(b, "-s"@, "--seed"@)
}

proof fn lemma_same_option_first(a: Seq<char>, b: Seq<char>, rest: Seq<Seq<char>>)
    requires
        same_option(a, b),
        is_flag(a, "-h"@, "--help"@) || is_flag(a, "-w"@, "--words"@) || is_flag(a, "-b"@, "--bytes"@)
            || is_flag(a, "-s"@, "--seed"@),
        is_flag(a, "-h"@, "--help"@) || rest.len() >= 1,
    ensures
        cli_outcome(seq![a] + rest) == cli_outcome(seq![b] + rest),
{
    let a1 = seq![a] + rest;
    let a2 = seq![b] + rest;
    assert(a1[0] == a && a2[0] == b);
    assert forall|j: int| 1 <= j < a1.len() implies a1[j] == a2[j] by {
        assert(a1[j] == rest[j - 1] && a2[j] == rest[j - 1]);
    }
    if rest.len() >= 1 {
        assert(a1[1] == a2[1]);
        match parse_outcome(a1[1]) {
            Ok(v) => {
                lemma_read_args_from(a1, a2, 2, Some(v), None, None);
                lemma_read_args_from(a1, a2, 2, None, Some(v), None);
            },
            Err(_) => {},
        }
        match parse_unsigned(a1[1], u64::MAX as nat) {
            Some(v) => lemma_read_args_from(a1, a2, 2, None, None, Some(v as u64)),
            None => {},
        }
    }
}

proof fn lemma_flags_distinct()
    ensures
        "-h"@ != "--help"@,
        "-h"@ != "-w"@,
        "-h"@ != "--words"@,
        "-h"@ != "-b"@,
        "-h"@ != "--bytes"@,
        "-h"@ != "-s"@,
        "-h"@ != "--seed"@,
        "--help"@ != "-w"@,
        "--help"@ != "--words"@,
        "--help"@ != "-b"@,
        "--help"@ != "--bytes"@,
        "--help"@ != "-s"@,
        "--help"@ != "--seed"@,
        "-w"@ != "--words"@,
        "-w"@ != "-b"@,
        "-w"@ != "--bytes"@,
        "-w"@ != "-s"@,
        "-w"@ != "--seed"@,
        "--words"@ != "-b"@,
        "--words"@ != "--bytes"@,
        "--words"@ != "-s"@,
        "--words"@ != "--seed"@,
        "-b"@ != "--bytes"@,
        "-b"@ != "-s"@,
        "-b"@ != "--seed"@,
        "--bytes"@ != "-s"@,
        "--bytes"@ != "--seed"@,
        "-s"@ != "--seed"@,
{
    reveal_strlit("-h");
    reveal_strlit("--help");
    reveal_strlit("-w");
    reveal_strlit("--words");
    reveal_strlit("-b");
    reveal_strlit("--bytes");
    reveal_strlit("-s");
    reveal_strlit("--seed");
    assert("-h"@[1] != "-w"@[1]);
    assert("-h"@[1] != "-s"@[1]);
    assert("--help"@[2] != "--seed"@[2]);
    assert("-b"@[1] != "-h"@[1]);
    assert("-b"@[1] != "-w"@[1]);
    assert("-b"@[1] != "-s"@[1]);
    assert("--bytes"@[2] != "--words"@[2]);
    assert("-s"@[1] != "-w"@[1]);
    assert("-h"@.len() == 2);
    assert("--help"@.len() == 6);
    assert("-w"@.len() == 2);
    assert("--words"@.len() == 7);
    assert("-b"@.len() == 2);
    assert("--bytes"@.len() == 7);
    assert("-s"@.len() == 2);
    assert("--seed"@.len() == 6);
}

/// The long spelling of an option means what its short spelling means:
/// a command line that starts with `--help`, or with `--words`, `--bytes` or
/// `--seed` and then more arguments, is read as the one that starts with `-h`,
/// `-w`, `-b` or `-s` (only the "missing value" message, which repeats the
/// option as typed, can tell them apart).
pub proof fn law_long_options_mean_short(rest: Seq<Seq<char>>)
    ensures
        cli_outcome(seq!["--help"@] + rest) == cli_outcome(seq!["-h"@] + rest),
        rest.len() >= 1 ==> cli_outcome(seq!["--words"@] + rest) == cli_outcome(seq!["-w"@] + rest),
        rest.len() >= 1 ==> cli_outcome(seq!["--bytes"@] + rest) == cli_outcome(seq!["-b"@] + rest),
        rest.len() >= 1 ==> cli_outcome(seq!["--seed"@] + rest) == cli_outcome(seq!["-s"@] + rest),
{
    reveal_strlit("--help");
    reveal_strlit("-h");
    reveal_strlit("--words");
    reveal_strlit("-w");
    reveal_strlit("--bytes");
    reveal_strlit("-b");
    reveal_strlit("--seed");
    reveal_strlit("-s");
    lemma_flags_distinct();
    lemma_same_option_first("--help"@, "-h"@, rest);
    if rest.len() >= 1 {
        lemma_same_option_first("--words"@, "-w"@, rest);
        lemma_same_option_first("--bytes"@, "-b"@, rest);
        lemma_same_option_first("--seed"@, "-s"@, rest);
    }
}

/// A seed given as `--seed` followed by its decimal value is taken as that seed,
/// with no count given.
pub proof fn law_seed_option_reads_value(n: u64)
    ensures
        cli_outcome(seq!["--seed"@, decimal_chars(n as nat)]) == CliOutcome::Run(None, None, Some(n)),
        cli_outcome(seq!["-s"@, decimal_chars(n as nat)]) == CliOutcome::Run(None, None, Some(n)),
{
    reveal_strlit("--seed");
    reveal_strlit("-s");
    reveal_strlit("-h");
    reveal_strlit("--help");
    reveal_strlit("-w");
    reveal_strlit("--words");
    reveal_strlit("-b");
    reveal_strlit("--bytes");
    lemma_flags_distinct();
    lemma_decimal_chars_value(n as nat);
    let d = decimal_chars(n as nat);
    assert(unsigned_digits(d) == d);
    assert(parse_unsigned(d, u64::MAX as nat) == Some(n as nat));
    let a1 = seq!["--seed"@, d];
    let a2 = seq!["-s"@, d];
    assert(a1[0] == "--seed"@ && a1[1] == d && a1.len() == 2);
    assert(a2[0] == "-s"@ && a2[1] == d && a2.len() == 2);
    assert(read_args(a1, 2, None, None, Some(n)) == CliOutcome::Run(None, None, Some(n)));
    assert(read_args(a2, 2, None, None, Some(n)) == CliOutcome::Run(None, None, Some(n)));
}

proof fn lemma_read_args_exclusive(
    args: Seq<Seq<char>>,
    i: int,
    words: Option<RangeOrExact>,
    bytes: Option<RangeOrExact>,
    seed: Option<u64>,
)
    ensures
        read_args(args, i, words, bytes, seed) matches CliOutcome::Run(w, b, _) ==> !(w is Some
            && b is Some),
    decreases args.len() - i,
{
    if 0 <= i < args.len() {
        if i + 1 < args.len() {
            match parse_outcome(args[i + 1]) {
                Ok(v) => {
                    lemma_read_args_exclusive(args, i + 2, Some(v), bytes, seed);
                    lemma_read_args_exclusive(args, i + 2, words, Some(v), seed);
                },
                Err(_) => {},
            }
            match parse_unsigned(args[i + 1], u64::MAX as nat) {
                Some(v) => lemma_read_args_exclusive(args, i + 2, words, bytes, Some(v as u64)),
                None => {},
            }
        }
    }
}

/// A command line never asks for both a word count and a byte budget: when
/// both options are given, reading it fails.
pub proof fn law_words_and_bytes_exclusive(args: Seq<Seq<char>>)
    ensures
        cli_outcome(args) matches CliOutcome::Run(w, b, _) ==> !(w is Some && b is Some),
{
    lemma_read_args_exclusive(args, 0, None, None, None);
}

} // verus!
