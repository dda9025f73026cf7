//! Log levels, modelled as an explicitly passed configuration value: the
//! filtering decision is the library's, the writing is the caller's.

use vstd::prelude::*;

verus! {

/// How severe a log line is.
pub enum Severity {
    Debug,
    Default,
    Info,
    Notice,
    Warning,
    Error,
    Critical,
    Alert,
    Emergency,
}

impl Severity {
    /// The rank used for level comparisons, lowest first.
    pub open spec fn spec_rank(self) -> int {
        match self {
            Severity::Debug => 0,
            Severity::Default => 1,
            Severity::Info => 2,
            Severity::Notice => 3,
            Severity::Warning => 4,
            Severity::Error => 5,
            Severity::Critical => 6,
            Severity::Alert => 7,
            Severity::Emergency => 8,
        }
    }

    /// Computes the rank.
    pub fn rank(&self) -> (r: u8)
        ensures
            r as int == self.spec_rank(),
    {
        match self {
            Severity::Debug => 0,
            Severity::Default => 1,
            Severity::Info => 2,
            Severity::Notice => 3,
            Severity::Warning => 4,
            Severity::Error => 5,
            Severity::Critical => 6,
            Severity::Alert => 7,
            Severity::Emergency => 8,
        }
    }
}

/// The logging configuration of one run.
pub struct LogConfig {
    /// Lines below this level are suppressed.
    pub level: Severity,
}

impl LogConfig {
    /// The default configuration: suppress only debug lines.
    pub fn new() -> (r: LogConfig)
        ensures
            r.level == Severity::Default,
    {
        LogConfig { level: Severity::Default }
    }
}

/// Sets the level below which lines are suppressed.
pub fn set_level(cfg: &mut LogConfig, level: Severity)
    ensures
        final(cfg).level == level,
{
    cfg.level = level;
}

/// Decides whether a line of the given severity is written: exactly when its
/// rank is at or above the configured level's.
pub fn should_log(cfg: &LogConfig, severity: &Severity) -> (r: bool)
    ensures
        r == (cfg.level.spec_rank() <= severity.spec_rank()),
{
    cfg.level.rank() <= severity.rank()
}

} // verus!
