//! Errors of the framing pipeline.

use vstd::prelude::*;

verus! {

/// Why a color specification does not resolve.
#[derive(Clone, Copy, Debug, PartialEq, Eq, Structural)]
pub enum ColorError {
    /// It starts with `#` but is not three, six or eight hex digits.
    InvalidHex,
    /// It names no known color.
    UnknownName,
}

/// Failure of one stage of the pipeline; each aborts the whole run.
#[derive(Debug)]
pub enum FramerError {
    ImageLoadError(String),
    ImageSaveError(String),
    ResizeError(String),
    BackgroundError(String),
    ShadowError(String),
    RoundingError(String),
    InputFileNotFound(String),
    OutputDirectoryNotFound(String),
    InvalidParameter(String),
    IoError(String),
    Other(String),
    /// A background color or gradient stop that does not resolve.
    Color(ColorError),
}

} // verus!
