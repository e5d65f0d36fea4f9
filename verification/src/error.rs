//! Error taxonomy of the playback core.
//!
//! Recoverable state errors (driving a session that does not exist), data
//! errors (a malformed chart, rejected when a session is compiled and never
//! during a tick) and a defensive fallback that correct operation never
//! produces. Resource failures of outside collaborators (audio devices,
//! files) are the host's to report; they never originate here.

use vstd::prelude::*;

verus! {

/// Why a chart is not usable; produced when a session is compiled.
#[derive(Clone, Copy, PartialEq, Eq, Structural, Debug)]
pub enum ChartError {
    /// A file of the chart is missing (reported by the host's loader).
    FileMissing,
    /// The chart file's encoding is not supported (reported by the loader).
    UnsupportedEncoding,
    /// The chart document could not be parsed (reported by the loader).
    CantParseChart,
    /// Two notes, judge fields or effect templates share an id.
    DuplicateId,
    /// A note uses a judge type with no defined hand-off protocol yet.
    UnsupportedJudgeType,
    /// A time, coordinate or ratio lies outside the admissible range.
    ValueOutOfRange,
    /// A history-preserving re-compilation found that an already-judged
    /// note is gone from the edited chart.
    JudgedNoteMissing,
}

/// Errors of driving playback in the wrong state.
#[derive(Clone, Copy, PartialEq, Eq, Structural, Debug)]
pub enum PlayError {
    /// No chart is loaded.
    NoChartLoaded,
    /// Playback has not been started.
    HaventStart,
    /// The requested play mode has no defined behaviour yet.
    UnsupportedMode,
}

/// Errors of editing a chart.
#[derive(Clone, Copy, PartialEq, Eq, Structural, Debug)]
pub enum ChartEditError {
    /// Some required piece of information is missing.
    MissingInfo,
    /// The core is not in edit mode.
    NotInEditMode,
}

/// Every kind of error the core reports.
#[derive(Clone, Copy, PartialEq, Eq, Structural, Debug)]
pub enum Error {
    /// Defensive fallback; must not occur in correct operation.
    Unknown,
    /// A chart is malformed.
    ChartError(ChartError),
    /// Playback was driven in the wrong state.
    PlayError(PlayError),
    /// Editing was driven in the wrong state.
    ChartEditError(ChartEditError),
}

impl From<ChartError> for Error {
    fn from(e: ChartError) -> (r: Error)
        ensures
            r == Error::ChartError(e),
    {
        Error::ChartError(e)
    }
}

impl vstd::std_specs::convert::FromSpecImpl<ChartError> for Error {
    open spec fn obeys_from_spec() -> bool {
        true
    }

    open spec fn from_spec(e: ChartError) -> Error {
        Error::ChartError(e)
    }
}

impl From<PlayError> for Error {
    fn from(e: PlayError) -> (r: Error)
        ensures
            r == Error::PlayError(e),
    {
        Error::PlayError(e)
    }
}

impl vstd::std_specs::convert::FromSpecImpl<PlayError> for Error {
    open spec fn obeys_from_spec() -> bool {
        true
    }

    open spec fn from_spec(e: PlayError) -> Error {
        Error::PlayError(e)
    }
}

impl From<ChartEditError> for Error {
    fn from(e: ChartEditError) -> (r: Error)
        ensures
            r == Error::ChartEditError(e),
    {
        Error::ChartEditError(e)
    }
}

impl vstd::std_specs::convert::FromSpecImpl<ChartEditError> for Error {
    open spec fn obeys_from_spec() -> bool {
        true
    }

    open spec fn from_spec(e: ChartEditError) -> Error {
        Error::ChartEditError(e)
    }
}

} // verus!
