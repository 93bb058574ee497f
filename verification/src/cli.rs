//! The one decision the command line asks for: exactly one archive
//! path must be supplied, anything else earns the usage message and a
//! failure exit, before any filesystem work.

use vstd::prelude::*;

verus! {

/// What the process does for a given argument count (the program name
/// counted, as argument lists present it).
#[derive(PartialEq, Eq, Structural, Clone, Copy, Debug)]
pub enum CliDecision {
    /// Too few arguments: print the usage message, exit nonzero,
    /// touch nothing.
    UsageTooFew,
    /// One archive path: run the extraction on it.
    RunExtraction,
    /// Too many arguments: print the usage message, exit nonzero,
    /// touch nothing.
    UsageTooMany,
}

/// The decision owed to an argument count: only the count of two (the
/// program name and one archive path) runs an extraction.
pub open spec fn cli_decision_spec(arg_count: int) -> CliDecision {
    if arg_count == 1 {
        CliDecision::UsageTooFew
    } else if arg_count == 2 {
        CliDecision::RunExtraction
    } else {
        CliDecision::UsageTooMany
    }
}

/// Decides what to do with the process's argument count.
pub fn decide_cli(arg_count: usize) -> (r: CliDecision)
    ensures
        r == cli_decision_spec(arg_count as int),
{
    if arg_count == 1 {
        CliDecision::UsageTooFew
    } else if arg_count == 2 {
        CliDecision::RunExtraction
    } else {
        CliDecision::UsageTooMany
    }
}

} // verus!
