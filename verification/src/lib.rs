//! Block-matching image diff: each block of a reference image is searched
//! for in a window of a target image, so that content which merely moved is
//! not reported as changed.

pub mod buffer;
pub mod sad;
pub mod search;
pub mod block_match;
pub mod smoothing;
pub mod clustering;
pub mod pyramid;
pub mod canvas;
pub mod render;
pub mod report;
pub mod laws;

pub use block_match::{
    diff, diff_bidirectional, BidirectionalDiff, BlockMatchOptions, BlockMatchResult, MotionVector, Region, SearchMode,
};
pub use buffer::RgbaBuffer;
pub use pyramid::diff_pyramid;
pub use render::{render_bidirectional, render_diff, render_heatmap, HighlightStyle, RenderOptions};
pub use report::{diff_png, PngDiffError, PngDiffOptions, PngDiffReport, Verdict};
