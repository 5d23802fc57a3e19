//! How much the program logs.

use vstd::prelude::*;

verus! {

/// The levels of logging, from the quietest to the most talkative.
#[derive(Debug, Clone, Copy, PartialEq, Eq, Structural)]
pub enum Level {
    Error,
    Warn,
    Info,
    Debug,
    Trace,
}

/// The level for a number of `-v` flags: each flag opens one more level,
/// and from four flags on everything is logged.
pub open spec fn level_for(verbose_level: u8) -> Level {
    if verbose_level == 0 {
        Level::Error
    } else if verbose_level == 1 {
        Level::Warn
    } else if verbose_level == 2 {
        Level::Info
    } else if verbose_level == 3 {
        Level::Debug
    } else {
        Level::Trace
    }
}

/// The logging level for the given number of `-v` flags.
pub fn get_logging_level(verbose_level: u8) -> (level: Level)
    ensures
        level == level_for(verbose_level),
{
    match verbose_level {
        0 => Level::Error,
        1 => Level::Warn,
        2 => Level::Info,
        3 => Level::Debug,
        _ => Level::Trace,
    }
}

} // verus!
