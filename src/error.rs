use vstd::prelude::*;

verus! {

/// What can go wrong while tracking time.
#[derive(Debug, Clone, Copy, PartialEq, Eq, Structural)]
pub enum TrackError {
    /// A stored month exists but does not hold a valid record.
    ParseError,
    /// The storage could not be read or written.
    IoError,
    /// An explicit time did not have the form `HHhMM`.
    InvalidTimeFormat,
    /// No editor is configured.
    MissingEnvironment,
}

} // verus!
