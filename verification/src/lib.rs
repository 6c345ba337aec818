//! Aggregates Markdown documents into one styled, self-contained hypertext
//! page: documents are discovered and grouped by directory, heading depths
//! are rewritten so a whole tree reads as one nested document, fenced code
//! regions are stripped fence-aware, and the result is wrapped in a themeable
//! fixed layout ready for an external fixed-layout exporter.

pub mod assemble;
pub mod discover;
pub mod normalize;
pub mod pipeline;
pub mod render;
pub mod text;
