//! Focus navigation in the strip: along a column, to the first or last
//! window, and across columns by cross-axis affinity.
pub use crate::tile::strip::{
    focus_cross, focus_down, focus_first, focus_last, focus_primary_with_spans, focus_up,
};
