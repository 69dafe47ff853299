//! Renders an ordered set of source files into one raster image, one
//! glyph row per source line, in columns sized to approach a target
//! aspect ratio.

pub mod canvas;
pub mod chunk;
mod error;
pub mod highlight;
pub mod layout;
pub mod pipeline;
pub mod plan;
pub mod render;

pub use canvas::{Canvas, Rgb};
pub use chunk::{process, ChunkContext, Outcome, Span};
pub use error::RenderError;
pub use highlight::{highlight_file, new_highlighter, Highlighter};
pub use layout::{calc_offsets, compute, AspectRatio, Dimension};
pub use pipeline::{absorb, render, Options, Rendered};
pub use plan::{count_lines, plan_files, Plan};
pub use render::{
    effective_threads, fill_background, find_theme, render_column, render_files, stitch,
    worker_threads, Totals,
};
