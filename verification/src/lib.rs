use vstd::prelude::*;

pub mod catalog;
pub mod chars;
pub mod dither;
pub mod scale;
pub mod output;
pub mod ramp;
pub mod raster;
pub mod render;
pub mod table;
pub mod utils;
mod text;

verus! {

/// Errors that the conversion pipeline can report to its caller.
#[derive(Clone, Copy, Debug, PartialEq, Eq, Structural)]
pub enum AsciiArtError {
    FontNotFound,
    EmptyCharset,
    DegenerateIntensityRange,
    CharMissingForIntensity,
    CatalogParseError,
}

} // verus!
