//! The command line of the benchmark.

use vstd::prelude::*;
use vstd::string::*;

use crate::error::{SiftError, SiftErrorModel};
use crate::mode::Mode;

verus! {

/// What the command line asks for.
#[derive(Debug, Clone, PartialEq, Eq)]
pub struct Cli {
    pub mode: Mode,
    pub data_dir: String,
}

/// Whether an argument looks like an option and not like a directory.
pub open spec fn dashed(argument: Seq<char>) -> bool {
    argument.len() > 0 && argument[0] == '-'
}

/// The mode that a command line asks for, if it is one: a directory alone, or the smoke
/// flag and then a directory. The directory is the last argument.
pub open spec fn asked_mode(args: Seq<String>) -> Option<Mode> {
    if args.len() == 1 && !dashed(args[0]@) {
        Some(Mode::Full)
    } else if args.len() == 2 && args[0]@ == "--smoke"@ && !dashed(args[1]@) {
        Some(Mode::Smoke)
    } else {
        None
    }
}

fn is_dashed(argument: &str) -> (is: bool)
    ensures
        is == dashed(argument@),
{
    argument.unicode_len() > 0 && argument.get_char(0) == '-'
}

/// Reads the arguments after the program's name.
pub fn parse_cli(args: &[String]) -> (result: Result<Cli, SiftError>)
    ensures
        match result {
            Ok(cli) => {
                &&& asked_mode(args@) == Some(cli.mode)
                &&& cli.data_dir@ == args@.last()@
            },
            Err(error) => asked_mode(args@) is None && error@ == SiftErrorModel::Usage,
        },
{
    let smoke = "--smoke".to_owned();
    proof {
        reveal_strlit("--smoke");
    }
    if args.len() == 1 && args[0] != smoke && !is_dashed(args[0].as_str()) {
        Ok(Cli { mode: Mode::Full, data_dir: args[0].as_str().to_owned() })
    } else if args.len() == 2 && args[0] == smoke && !is_dashed(args[1].as_str()) {
        Ok(Cli { mode: Mode::Smoke, data_dir: args[1].as_str().to_owned() })
    } else {
        Err(SiftError::Usage)
    }
}

/// One argument is the directory of a full run, whatever it is, unless it starts with a
/// dash.
pub proof fn law_one_argument_is_the_directory(directory: String)
    ensures
        asked_mode(seq![directory]) == (if directory@.len() > 0 && directory@.first() == '-' {
            None
        } else {
            Some(Mode::Full)
        }),
{
}

/// After the smoke flag the next argument is the directory, whatever it is, unless it starts
/// with a dash. No other first of two arguments will do.
pub proof fn law_smoke_flag_comes_before_the_directory(flag: String, directory: String)
    ensures
        asked_mode(seq![flag, directory]) == (if flag@ != seq![
            '-',
            '-',
            's',
            'm',
            'o',
            'k',
            'e',
        ] || (directory@.len() > 0 && directory@.first() == '-') {
            None
        } else {
            Some(Mode::Smoke)
        }),
{
    reveal_strlit("--smoke");
    assert("--smoke"@ =~= seq!['-', '-', 's', 'm', 'o', 'k', 'e']);
}

/// No arguments at all, or more than two, are no command line.
pub proof fn law_no_other_number_of_arguments(args: Seq<String>)
    requires
        args.len() == 0 || args.len() > 2,
    ensures
        asked_mode(args) is None,
{
}

/// A run never starts from the smoke flag alone, nor from an option in the place of the
/// directory.
pub proof fn law_directory_is_explicit(args: Seq<String>)
    requires
        asked_mode(args) is Some,
    ensures
        !dashed(args.last()@),
        args.last()@ != "--smoke"@,
        asked_mode(args) == Some(Mode::Smoke) <==> args.len() == 2,
{
    reveal_strlit("--smoke");
}

} // verus!
