use vstd::prelude::*;

pub mod text;
pub mod spinner;
pub mod table;
pub mod tree;
pub mod selection;
pub mod tags;
pub mod streaming;
pub mod outline;
pub mod search;
pub mod sheet;
pub mod tile;
pub mod typst;

verus! {
} // verus!
