//! Spreadsheet cells, navigation and formula helpers.
pub mod cell;
pub mod edit_state;
pub mod nav;
pub mod render;
pub mod org_table;
pub mod event;
pub mod formula;
