//! Log levels.

use vstd::prelude::*;

use crate::config::same_text;
use crate::text::{lowercase, to_lower};

verus! {

/// How much is logged.
#[derive(Debug, Clone, Copy, PartialEq, Eq)]
pub enum LevelFilter {
    Error,
    Warn,
    Info,
    Debug,
    Trace,
}

/// The level with a name in lower case; `Info` for every other text.
pub open spec fn level_named(l: Seq<char>) -> LevelFilter {
    if l == "trace"@ {
        LevelFilter::Trace
    } else if l == "debug"@ {
        LevelFilter::Debug
    } else if l == "warn"@ {
        LevelFilter::Warn
    } else if l == "error"@ {
        LevelFilter::Error
    } else {
        LevelFilter::Info
    }
}

pub fn level_from_lower(l: &str) -> (r: LevelFilter)
    ensures
        r == level_named(l@),
{
    if same_text(l, "trace") {
        LevelFilter::Trace
    } else if same_text(l, "debug") {
        LevelFilter::Debug
    } else if same_text(l, "warn") {
        LevelFilter::Warn
    } else if same_text(l, "error") {
        LevelFilter::Error
    } else {
        LevelFilter::Info
    }
}

/// The level with a name, in whatever case.
pub fn level_from_str(s: &str) -> (r: LevelFilter)
    ensures
        r == level_named(lowercase(s@)),
{
    let l = to_lower(s);
    level_from_lower(l.as_str())
}

} // verus!
