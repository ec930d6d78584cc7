//! Hand-written command-line argument parser.
//!
//! Syntax:
//!   wiredock [--log-level=trace|info|warn|error] [--help]
//!
//! Unknown flags are an error. `--help` (or `-h`) asks for the usage text
//! and an exit, through `CliArgs::help_requested`.

use vstd::prelude::*;

use crate::text::{push_str, str_eq, str_has_prefix, string_of};

verus! {

/// Parsed command-line arguments.
#[derive(Debug)]
pub struct CliArgs {
    /// Minimum log level: trace 0, info 1, warn 2, error 3.
    pub log_level: u8,
    pub help_requested: bool,
}

/// A refused argument.
#[derive(Debug)]
pub enum CliError {
    Unknown(String),
    BadValue(String),
}

pub enum CliErrorView {
    Unknown(Seq<char>),
    BadValue(Seq<char>),
}

impl View for CliError {
    type V = CliErrorView;

    open spec fn view(&self) -> CliErrorView {
        match self {
            CliError::Unknown(s) => CliErrorView::Unknown(s@),
            CliError::BadValue(s) => CliErrorView::BadValue(s@),
        }
    }
}

impl CliErrorView {
    /// The text the error displays as.
    pub open spec fn message(self) -> Seq<char> {
        match self {
            CliErrorView::Unknown(s) => "unknown argument: "@ + s,
            CliErrorView::BadValue(s) => "invalid value: "@ + s,
        }
    }
}

impl CliError {
    /// The error message, as it is shown to the user.
    pub fn to_string(&self) -> (r: String)
        ensures
            r@ == self@.message(),
    {
        match self {
            CliError::Unknown(s) => {
                let mut out = string_of("unknown argument: ");
                push_str(&mut out, s.as_str());
                out
            },
            CliError::BadValue(s) => {
                let mut out = string_of("invalid value: ");
                push_str(&mut out, s.as_str());
                out
            },
        }
    }
}

/// The level a `--log-level=` value names.
pub open spec fn level_of(v: Seq<char>) -> Option<u8> {
    if v == "trace"@ {
        Some(0)
    } else if v == "info"@ {
        Some(1)
    } else if v == "warn"@ {
        Some(2)
    } else if v == "error"@ {
        Some(3)
    } else {
        None
    }
}

/// The flag prefix of the log level option.
pub open spec fn level_flag() -> Seq<char> {
    "--log-level="@
}

/// The arguments read left to right: the log level (info by default, the
/// last one given wins) and whether help was asked for; the first
/// argument that is not understood is the error.
pub open spec fn cli_spec(argv: Seq<Seq<char>>) -> Result<(u8, bool), CliErrorView>
    decreases argv.len(),
{
    if argv.len() == 0 {
        Ok((1u8, false))
    } else {
        match cli_spec(argv.drop_last()) {
            Err(e) => Err(e),
            Ok((level, help)) => {
                let a = argv.last();
                if a == "--help"@ || a == "-h"@ {
                    Ok((level, true))
                } else if level_flag().len() <= a.len() && a.take(level_flag().len() as int)
                    == level_flag() {
                    match level_of(a.skip(level_flag().len() as int)) {
                        Some(l) => Ok((l, help)),
                        None => Err(CliErrorView::BadValue(a)),
                    }
                } else {
                    Err(CliErrorView::Unknown(a))
                }
            },
        }
    }
}

proof fn lemma_cli_error_sticks(argv: Seq<Seq<char>>, k: int)
    requires
        0 <= k <= argv.len(),
        cli_spec(argv.take(k)) is Err,
    ensures
        cli_spec(argv) == cli_spec(argv.take(k)),
    decreases argv.len() - k,
{
    if k < argv.len() {
        assert(argv.take(k + 1).drop_last() =~= argv.take(k));
        lemma_cli_error_sticks(argv, k + 1);
    } else {
        assert(argv.take(k) =~= argv);
    }
}

/// The views of a slice of strings.
pub open spec fn arg_views(argv: Seq<String>) -> Seq<Seq<char>> {
    argv.map_values(|s: String| s@)
}

fn level_value(v: &str) -> (r: Option<u8>)
    ensures
        r == level_of(v@),
{
    if str_eq(v, "trace") {
        Some(0)
    } else if str_eq(v, "info") {
        Some(1)
    } else if str_eq(v, "warn") {
        Some(2)
    } else if str_eq(v, "error") {
        Some(3)
    } else {
        None
    }
}

impl CliArgs {
    /// Parse the arguments after the program name.
    pub fn parse_slice(argv: &[String]) -> (r: Result<CliArgs, CliError>)
        ensures
            match r {
                Ok(a) => cli_spec(arg_views(argv@)) == Ok::<(u8, bool), CliErrorView>(
                    (a.log_level, a.help_requested),
                ),
                Err(e) => cli_spec(arg_views(argv@)) == Err::<(u8, bool), CliErrorView>(e@),
            },
    {
        let ghost av = arg_views(argv@);
        let mut log_level: u8 = 1;
        let mut help_requested = false;
        let mut i: usize = 0;
        proof {
            assert(av.take(0) =~= Seq::<Seq<char>>::empty());
        }
        while i < argv.len()
            invariant
                0 <= i <= argv@.len(),
                av == arg_views(argv@),
                cli_spec(av.take(i as int)) == Ok::<(u8, bool), CliErrorView>(
                    (log_level, help_requested),
                ),
            decreases argv@.len() - i,
        {
            let a = argv[i].as_str();
            proof {
                assert(av.take(i as int + 1).drop_last() =~= av.take(i as int));
                assert(av.take(i as int + 1).last() == a@);
                reveal_strlit("--log-level=");
            }
            if str_eq(a, "--help") || str_eq(a, "-h") {
                help_requested = true;
            } else if str_has_prefix(a, "--log-level=") {
                let n = a.unicode_len();
                let v = a.substring_char(12, n);
                proof {
                    assert(v@ =~= a@.skip(level_flag().len() as int));
                }
                match level_value(v) {
                    Some(l) => {
                        log_level = l;
                    },
                    None => {
                        proof {
                            lemma_cli_error_sticks(av, i as int + 1);
                        }
                        return Err(CliError::BadValue(string_of(a)));
                    },
                }
            } else {
                proof {
                    lemma_cli_error_sticks(av, i as int + 1);
                }
                return Err(CliError::Unknown(string_of(a)));
            }
            i = i + 1;
        }
        proof {
            assert(av.take(argv@.len() as int) =~= av);
        }
        Ok(CliArgs { log_level, help_requested })
    }

    /// The usage text.
    pub fn usage() -> (r: &'static str)
        ensures
            r@ == usage_text(),
    {
        "usage: wiredock [--log-level=trace|info|warn|error] [--help]\n\nInteractive CLI to test software over TCP and Unix-domain sockets.\nType commands at the prompt. See docs for the full command set.\n"
    }
}

/// The usage text.
pub open spec fn usage_text() -> Seq<char> {
    "usage: wiredock [--log-level=trace|info|warn|error] [--help]\n\nInteractive CLI to test software over TCP and Unix-domain sockets.\nType commands at the prompt. See docs for the full command set.\n"@
}

} // verus!
