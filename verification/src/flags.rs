//! The command line surface the Ranker is selected with, and the
//! failure taxonomy of a run.

use vstd::prelude::*;
use vstd::string::StringExecFns;
use crate::order::Sort;

verus! {

/// A command line flag that names no metric.
#[derive(Clone, Copy, PartialEq, Eq, Structural, Debug)]
pub struct UsageError;

/// Why a fetch run failed. No failure is recovered: the run aborts
/// with no partial result.
#[derive(Clone, Copy, PartialEq, Eq, Structural, Debug)]
pub enum FetchError {
    /// The credential was missing or rejected.
    Auth,
    /// A page request failed: network, unsuccessful status, or a
    /// malformed body.
    Transport,
}

/// The flag selecting the time-decayed score.
pub open spec fn flag_score() -> Seq<char> {
    "--sort-by-score"@
}

/// The flag selecting the raw reaction count.
pub open spec fn flag_reactions() -> Seq<char> {
    "--sort-by-reactions"@
}

/// The flag selecting reactions per hour.
pub open spec fn flag_throughput() -> Seq<char> {
    "--sort-by-reactions-throughput"@
}

/// Which metric the command line selects: no argument defaults to the
/// raw reaction count, each flag names its metric, and anything else
/// is a usage error.
pub fn parse_sort_flag(arg: Option<&String>) -> (r: Result<Sort, UsageError>)
    ensures
        r == match arg {
            None => Ok::<Sort, UsageError>(Sort::ByReactions),
            Some(s) => if s@ == flag_score() {
                Ok::<Sort, UsageError>(Sort::ByScore)
            } else if s@ == flag_reactions() {
                Ok::<Sort, UsageError>(Sort::ByReactions)
            } else if s@ == flag_throughput() {
                Ok::<Sort, UsageError>(Sort::ByReactionsThroughput)
            } else {
                Err::<Sort, UsageError>(UsageError)
            },
        },
{
    match arg {
        None => Ok(Sort::ByReactions),
        Some(s) => {
            let by_score = String::from_str("--sort-by-score");
            let by_reactions = String::from_str("--sort-by-reactions");
            let by_throughput = String::from_str("--sort-by-reactions-throughput");
            if *s == by_score {
                Ok(Sort::ByScore)
            } else if *s == by_reactions {
                Ok(Sort::ByReactions)
            } else if *s == by_throughput {
                Ok(Sort::ByReactionsThroughput)
            } else {
                Err(UsageError)
            }
        },
    }
}

} // verus!
