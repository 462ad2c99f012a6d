//! The command-line settings and how the timeout flags resolve.
use vstd::prelude::*;
use crate::check::Timeouts;
use crate::config::or_else;

verus! {

pub const DEFAULT_CONNECT_SECS: u64 = 5;

pub const DEFAULT_SCRIPT_SECS: u64 = 10;

pub const DEFAULT_MAX_CONCURRENT: usize = 32;

/// A filesystem path (std's `PathBuf`), carried through unread.
#[verifier::external_type_specification]
#[verifier::external_body]
pub struct ExPathBuf(std::path::PathBuf);

/// The command-line settings of one run.
#[derive(Debug)]
pub struct Cli {
    /// Path to the config file; the default location when absent.
    pub config: Option<std::path::PathBuf>,
    /// Emit JSON instead of the table.
    pub json: bool,
    /// Per-host SSH connect timeout, in seconds.
    pub connect_timeout: Option<u64>,
    /// Per-host remote script timeout, in seconds.
    pub script_timeout: Option<u64>,
    /// Deprecated: sets both timeouts at once.
    pub timeout_secs: Option<u64>,
    /// Hosts checked at once; 0 means unbounded.
    pub max_concurrent: usize,
    /// Connect retries; 0 leaves it to each host's setting.
    pub retries: u32,
}

impl Cli {
    /// Resolves the (connect, script) timeouts in seconds: the legacy
    /// `--timeout-secs` sets both; otherwise each flag falls back to its
    /// default. Callers print the deprecation notice when `timeout_secs` is
    /// set.
    pub fn resolve_timeout_secs(&self) -> (r: (u64, u64))
        ensures
            r == match self.timeout_secs {
                Some(t) => (t, t),
                None => (
                    or_else(self.connect_timeout, DEFAULT_CONNECT_SECS),
                    or_else(self.script_timeout, DEFAULT_SCRIPT_SECS),
                ),
            },
    {
        if let Some(t) = self.timeout_secs {
            return (t, t);
        }
        (
            match self.connect_timeout {
                Some(c) => c,
                None => DEFAULT_CONNECT_SECS,
            },
            match self.script_timeout {
                Some(s) => s,
                None => DEFAULT_SCRIPT_SECS,
            },
        )
    }

    /// The per-host time budget these settings give.
    pub fn timeouts(&self) -> (t: Timeouts)
        ensures
            (t.connect_secs, t.script_secs) == match self.timeout_secs {
                Some(x) => (x, x),
                None => (
                    or_else(self.connect_timeout, DEFAULT_CONNECT_SECS),
                    or_else(self.script_timeout, DEFAULT_SCRIPT_SECS),
                ),
            },
    {
        let (connect_secs, script_secs) = self.resolve_timeout_secs();
        Timeouts { connect_secs, script_secs }
    }
}

} // verus!
