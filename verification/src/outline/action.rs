//! The actions of an outline editor and their results.
use vstd::prelude::*;

verus! {

/// Actions that can be performed on an outline.
#[non_exhaustive]
#[derive(Debug, Clone, PartialEq, Eq)]
pub enum Action {
    /// Cycle visibility of the heading at the cursor: folded, children, all.
    CycleVisibility,
    /// Fold all headings.
    FoldAll,
    /// Unfold all headings.
    UnfoldAll,
    /// Promote the heading (and subtree) at the cursor.
    Promote,
    /// Demote the heading (and subtree) at the cursor.
    Demote,
    /// Move the subtree at the cursor above its previous sibling.
    MoveSubtreeUp,
    /// Move the subtree at the cursor below its next sibling.
    MoveSubtreeDown,
    /// Cycle the TODO keyword of the heading at the cursor.
    CycleTodo,
    /// Insert a new heading at the same level after the current subtree.
    InsertHeading,
    /// Insert a new sub-heading after the current line.
    InsertSubheading,
    InsertChar(char),
    DeleteBack,
    DeleteForward,
    DeleteWordBack,
    MoveLeft,
    MoveRight,
    MoveUp,
    MoveDown,
    MoveHome,
    MoveEnd,
}

/// Result of handling an action.
#[derive(Debug, Clone, PartialEq, Eq)]
pub enum ActionResult {
    /// The action was handled and the state changed.
    Handled,
    /// The action did not apply (e.g. promote at level 1).
    Noop,
}

} // verus!
