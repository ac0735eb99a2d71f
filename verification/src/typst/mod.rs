//! Export of a grid of terminal cells as a standalone Typst document.
pub mod color;
pub mod export;
