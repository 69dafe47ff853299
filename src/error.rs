use vstd::prelude::*;

verus! {

/// Every way a render can fail.
#[derive(Clone, Debug, PartialEq, Eq)]
pub enum RenderError {
    /// The layout was asked for zero lines.
    EmptyInput,
    /// No file contributed a line to render; holds the number of files kept.
    NoRenderableLines { num_files: usize },
    /// The target aspect ratio has a zero numerator or denominator.
    InvalidAspectRatio,
    /// A column is zero pixels wide or a line zero pixels tall.
    ZeroSizedColumn,
    /// No column count yields an image whose sides fit in 32 bits.
    DimensionsTooLarge,
    /// The requested theme is not loaded; holds every loaded theme name.
    ThemeNotFound { requested: String, available: Vec<String> },
    /// Resolving the syntax of a file failed.
    SyntaxLookup { message: String },
    /// The highlighter failed on a line.
    Highlight { message: String },
    /// The interrupt flag was raised.
    Cancelled,
}

} // verus!
