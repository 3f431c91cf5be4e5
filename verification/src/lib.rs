//! A verified core for a Mandelbrot-set renderer.
//!
//! The library covers the logic of the renderer that is independent of
//! floating-point arithmetic: splitting `"<left><sep><right>"` strings into
//! their parts, partitioning an image into horizontal bands for a pool of
//! workers, and turning per-pixel escape counts into grayscale bytes.
//! The double-precision orbit arithmetic itself, the thread pool and the PNG
//! encoding live in the surrounding application.

pub mod bands;
pub mod parse;
pub mod render;

pub use bands::band_layout;
pub use bands::lemma_band_count_within_workers;
pub use bands::lemma_bands_partition;
pub use bands::rows_per_band;
pub use parse::combine_parsed;
pub use parse::parse_pair;
pub use parse::split_at_separator;
pub use render::render;
pub use render::shade;
pub use render::ESCAPE_LIMIT;
