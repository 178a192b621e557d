//! How much the surrounding application should print.

use vstd::prelude::*;

verus! {

/// Output level, derived from how often a flag was given.
#[derive(Debug, PartialEq, Eq, Structural)]
pub enum Verbosity {
    Quiet,
    Verbose,
    VeryVerbose,
}

impl From<i64> for Verbosity {
    /// Levels below 1 stay quiet, level 1 is verbose, anything above is
    /// very verbose.
    fn from(value: i64) -> (r: Verbosity) {
        if value < 1 {
            Verbosity::Quiet
        } else if value < 2 {
            Verbosity::Verbose
        } else {
            Verbosity::VeryVerbose
        }
    }
}

impl vstd::std_specs::convert::FromSpecImpl<i64> for Verbosity {
    open spec fn obeys_from_spec() -> bool {
        true
    }

    open spec fn from_spec(value: i64) -> Verbosity {
        if value < 1 {
            Verbosity::Quiet
        } else if value < 2 {
            Verbosity::Verbose
        } else {
            Verbosity::VeryVerbose
        }
    }
}

} // verus!
