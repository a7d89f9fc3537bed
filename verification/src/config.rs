//! The data model of an invocation: the bounding `Filter`, the resolved
//! `Config`, the configuration errors, and the overall `Outcome` of
//! argument resolution, together with their ghost views.

use vstd::prelude::*;

verus! {

/// The bounding strategy applied to each source: copy at most `n` raw
/// bytes, or at most `n` newline-delimited lines.
#[derive(Clone, Copy, Debug, PartialEq, Eq, Structural)]
pub enum Filter {
    Bytes(u64),
    Lines(u64),
}

/// A configuration error: every variant is fatal and ends the run with a
/// diagnostic before any source is read.
#[derive(Clone, Copy, Debug, PartialEq, Eq, Structural)]
pub enum ArgError {
    /// The value following `-c`/`--bytes` is missing or is not an
    /// unsigned 64-bit decimal numeral.
    BadBytes,
    /// The value following `-n`/`--lines` is missing or is not an
    /// unsigned 64-bit decimal numeral.
    BadLines,
    /// Both a byte bound and a line bound were supplied.
    Conflict,
    /// No source was named.
    NoSources,
}

/// A resolved invocation: the filter, whether per-source headers are
/// suppressed, and the sources in the order they were given.
pub struct Config {
    pub filter: Filter,
    pub quiet: bool,
    pub sources: Vec<String>,
}

/// The ghost view of a `Config`: sources become sequences of characters.
pub struct ConfigV {
    pub filter: Filter,
    pub quiet: bool,
    pub sources: Seq<Seq<char>>,
}

impl View for Config {
    type V = ConfigV;

    open spec fn view(&self) -> ConfigV {
        ConfigV { filter: self.filter, quiet: self.quiet, sources: self.sources.deep_view() }
    }
}

/// What argument resolution decides: print usage and stop successfully,
/// run with a configuration, or fail with a configuration error.
pub enum Outcome {
    Help,
    Run(Config),
    Fail(ArgError),
}

/// The ghost view of an `Outcome`.
pub enum OutcomeV {
    Help,
    Run(ConfigV),
    Fail(ArgError),
}

impl View for Outcome {
    type V = OutcomeV;

    open spec fn view(&self) -> OutcomeV {
        match self {
            Outcome::Help => OutcomeV::Help,
            Outcome::Run(c) => OutcomeV::Run(c@),
            Outcome::Fail(e) => OutcomeV::Fail(*e),
        }
    }
}

} // verus!
