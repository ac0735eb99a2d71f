//! Scrolling tiled layout: a strip of columns of stacked windows, with focus
//! navigation.
pub mod types;
pub mod strip;
pub mod nav;
pub mod layout;
