//! A text-mode page viewer core: a lenient markup parser, a tree minifier,
//! a renderer producing styled terminal lines, a focus-centered viewport,
//! an asset cache that deduplicates in-flight fetches, and an image
//! approximator that downsamples rasters into colored glyphs.

pub mod cacher;
pub mod entities;
pub mod img;
pub mod viewport;
pub mod parser;
pub mod render;
pub mod text;
pub mod types;
pub mod utils;
