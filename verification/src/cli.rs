//! The commands of the program, as plain values.

use std::path::PathBuf;
use vstd::prelude::*;
use crate::constants::DEFAULT_TOP_N_LIMIT;

verus! {

/// `std::path::PathBuf`, carried through as it is.
#[verifier::external_type_specification]
#[verifier::external_body]
pub struct ExPathBuf(PathBuf);

/// What the command line asks for.
#[derive(Debug)]
pub struct CLI {
    pub command: Commands,
}

#[derive(Debug)]
pub enum Commands {
    /// Train the store by giving it a text to analyze.
    Train {
        /// The text file to analyze.
        file: PathBuf,
    },
    /// Show word frequencies or sentence rankings.
    Show {
        /// What to show.
        what: ShowType,
        /// The number of rows to show, if one was given.
        limit: Option<u32>,
        /// Show every row there is. Not to be given together with `limit`.
        no_limit: bool,
    },
}

#[derive(Debug, Clone, Copy, PartialEq, Eq, Structural)]
pub enum ShowType {
    /// Show word frequencies.
    Frequencies,
    /// Show sentence rankings.
    Rankings,
}

/// The limit that a query runs with: none when no limit is wanted, the
/// limit given when there is one, and the default otherwise.
pub open spec fn effective_limit(limit: Option<u32>, no_limit: bool) -> Option<u32> {
    if no_limit {
        None
    } else {
        match limit {
            Some(n) => Some(n),
            None => Some(DEFAULT_TOP_N_LIMIT),
        }
    }
}

impl Commands {
    /// The limit that a `Show` command runs its query with; `None` for no
    /// limit, which is also the answer for a command that shows nothing.
    pub fn query_limit(&self) -> (limit: Option<u32>)
        ensures
            limit == match *self {
                Commands::Train { .. } => None,
                Commands::Show { limit, no_limit, .. } => effective_limit(limit, no_limit),
            },
    {
        match self {
            Commands::Train { .. } => None,
            Commands::Show { what: _, limit, no_limit } => {
                if *no_limit {
                    None
                } else {
                    match limit {
                        Some(n) => Some(*n),
                        None => Some(DEFAULT_TOP_N_LIMIT),
                    }
                }
            },
        }
    }
}

} // verus!
