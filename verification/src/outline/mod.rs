//! Outlines of org-mode and Markdown documents: heading parsing, the heading
//! index, folding, TODO cycling and structural editing.
pub mod parse;
pub mod index;
pub mod todo;
pub mod fold;
pub mod structure;
pub mod action;
