//! The run-level error taxonomy.
//!
//! None of these is retried within a run: each aborts the run and preserves
//! the previously persisted state.

use vstd::prelude::*;

verus! {

/// Why a run was aborted.
#[derive(Debug)]
pub enum Error {
    /// The durable state exists but cannot be read as the expected schema,
    /// or a stored snapshot lacks the fields the retention policy reads.
    /// Fatal: state is never silently reset.
    State(String),
    /// A transport or status failure, or a malformed page, while fetching
    /// feeds or snapshot pages. The prior state is preserved for retry.
    Fetch(String),
    /// A feed entry whose identifier cannot be parsed. Fatal, since dropping
    /// the entry could lose a legitimate update.
    MalformedEntry(String),
    /// The notifier rejected a record; delivery stops so the record is
    /// retried on the next run.
    Delivery(String),
}

impl Error {
    /// The diagnostic text carried by the error.
    pub fn message(&self) -> (r: &String)
        ensures
            r@ == self.spec_message(),
    {
        match self {
            Error::State(m) => m,
            Error::Fetch(m) => m,
            Error::MalformedEntry(m) => m,
            Error::Delivery(m) => m,
        }
    }

    /// The diagnostic text, at the specification level.
    pub open spec fn spec_message(self) -> Seq<char> {
        match self {
            Error::State(m) => m@,
            Error::Fetch(m) => m@,
            Error::MalformedEntry(m) => m@,
            Error::Delivery(m) => m@,
        }
    }
}

} // verus!
