//! The strip axis, size constraints and the strip configuration.
use vstd::prelude::*;
pub use crate::tile::strip::WindowId;

verus! {

/// Primary axis of the scrollable strip.
#[derive(Debug, Clone, Copy, PartialEq, Eq, Structural)]
pub enum Axis {
    /// Columns left to right, windows stacked top to bottom within columns.
    Horizontal,
    /// Columns top to bottom, windows stacked left to right within columns.
    Vertical,
}

/// Size constraint of a window or column along one axis.
#[derive(Debug, Clone, Copy, PartialEq, Eq, Structural)]
pub enum SizeConstraint {
    /// Exact cell count.
    Fixed(u16),
    /// Share of the space left after fixed items, normalized across siblings;
    /// the share is a 32-bit float held by its bit pattern (`f32::to_bits`).
    Proportion(u32),
    /// At least this many cells, growing to fill the remaining space.
    Min(u16),
    /// Clamped to the range `[min, max]` after proportional allocation.
    MinMax(u16, u16),
}

/// Bit pattern of the share `1.0`, the default proportion.
pub const UNIT_PROPORTION_BITS: u32 = 0x3F80_0000;

impl Default for SizeConstraint {
    fn default() -> (r: Self)
        ensures
            r == SizeConstraint::Proportion(UNIT_PROPORTION_BITS),
    {
        SizeConstraint::Proportion(UNIT_PROPORTION_BITS)
    }
}

/// Configuration of the strip layout.
#[derive(Debug, Clone)]
pub struct StripConfig {
    /// Primary axis along which columns are arranged.
    pub axis: Axis,
    /// Gap in cells between columns along the primary axis.
    pub column_gap: u16,
    /// Gap in cells between windows within a column along the cross axis.
    pub window_gap: u16,
}

impl Default for StripConfig {
    fn default() -> (r: Self)
        ensures
            r.axis == Axis::Horizontal,
            r.column_gap == 1,
            r.window_gap == 0,
    {
        StripConfig { axis: Axis::Horizontal, column_gap: 1, window_gap: 0 }
    }
}

} // verus!
