//! The input actions of the spreadsheet and the step that performs one.
use vstd::prelude::*;
use vstd::utf8::encode_scalar;
use crate::text::{byte_offset, lemma_encode_concat, lemma_offset_end, str_eq};
use crate::sheet::cell::{CellAddr, CellRange};
use crate::sheet::edit_state::{EditState, is_boundary, boundary_index, scan_ge, scan_gt, byte_total,
    lemma_scan_ge_bounds, lemma_scan_gt_bounds};
use crate::sheet::nav::{CursorState, ScrollState, GridShape, Selection, spanned, scrolled_to, scroll_ok,
    max_row_len, shape_rows, tabbed, tabbed_back, end_all_pos, lemma_end_all_unique, clear_selection,
    start_selection, get_selection, move_up, move_down, move_left, move_right, move_home, move_end,
    move_home_all, move_end_all, move_page_up, move_page_down, move_tab, move_tab_back};

verus! {

/// Actions the spreadsheet performs in response to input.
#[derive(Debug, Clone, Copy, PartialEq, Eq, Structural)]
pub enum Action {
    MoveUp,
    MoveDown,
    MoveLeft,
    MoveRight,
    MoveHome,
    MoveEnd,
    MoveHomeAll,
    MoveEndAll,
    PageUp,
    PageDown,
    Tab,
    TabBack,
    /// Start or continue editing; with a character, begin typing it.
    EnterEdit(Option<char>),
    /// Commit the current edit.
    CommitEdit,
    /// Cancel the current edit.
    CancelEdit,
    /// Undo the last edit.
    Undo,
    /// Copy the selected range.
    Copy,
    /// Paste from the clipboard.
    Paste,
    /// Begin a selection (Shift held).
    StartSelection,
    /// Clear the selection.
    ClearSelection,
    /// Mouse click at a grid position.
    ClickCell(CellAddr),
    /// Delete the cell content.
    DeleteContent,
    /// Type a character in edit mode.
    TypeChar(char),
    /// Backspace in edit mode.
    Backspace,
    /// Delete forward in edit mode.
    Delete,
    /// Move the edit cursor left.
    EditCursorLeft,
    /// Move the edit cursor right.
    EditCursorRight,
}


// ── One step of the spreadsheet ─────────────────────────────────────────────

/// The interaction state of a spreadsheet: cursor and selection, viewport,
/// inline edit (with the value the edited cell had, of type `V`), and the
/// last undoable change (the cell and its earlier value).
pub struct SheetModel<V> {
    pub cursor: CursorState,
    pub scroll: ScrollState,
    pub edit: EditState<V>,
    pub undo: Option<(CellAddr, V)>,
}

/// The size of the copied region; empty when nothing was copied.
#[derive(Debug, Clone, Copy, PartialEq, Eq, Structural)]
pub struct ClipboardModel {
    pub width: usize,
    pub height: usize,
}

/// The work on cell values that a step leaves to its caller.
pub enum SheetEffect<V> {
    /// Nothing to do.
    NoEffect,
    /// Parse, validate and store the committed text at the cell, keep its
    /// earlier value for undo, and recalculate its dependents.
    Commit(CellAddr, String),
    /// Put the value back into the cell (a cancelled edit).
    Restore(CellAddr, V),
    /// Put the value back into the cell and recalculate its dependents (undo).
    UndoTo(CellAddr, V),
    /// Empty the cell and recalculate its dependents.
    ClearCell(CellAddr),
    /// Copy the values of the range from the first to the second cell.
    CopyRange(CellAddr, CellAddr),
    /// Paste the copied values with their top-left cell at the cell.
    PasteAt(CellAddr),
}

/// What a step did: whether the state changed, and the work left to do.
pub struct StepResult<V> {
    pub changed: bool,
    pub effect: SheetEffect<V>,
}

/// Actions that move the cursor and are ignored while editing.
pub open spec fn is_move(a: Action) -> bool {
    match a {
        Action::MoveUp | Action::MoveDown | Action::MoveLeft | Action::MoveRight | Action::MoveHome
        | Action::MoveEnd | Action::MoveHomeAll | Action::MoveEndAll | Action::PageUp
        | Action::PageDown => true,
        _ => false,
    }
}

/// Actions that commit a running edit, then move the cursor.
pub open spec fn commits_then_moves(a: Action) -> bool {
    match a {
        Action::Tab | Action::TabBack | Action::ClickCell(_) => true,
        _ => false,
    }
}

/// Number of rows of a grid shape, less one (0 for no rows).
pub open spec fn last_row(g: GridShape) -> int {
    if g.rows@.len() > 0 { g.rows@.len() - 1 } else { 0 }
}

/// Number of columns of a grid shape, less one (0 for no columns).
pub open spec fn last_col(g: GridShape) -> int {
    let cc = max_row_len(shape_rows(g));
    if cc > 0 { cc - 1 } else { 0 }
}

/// Where a moving action puts the cursor from `p`.
pub open spec fn target(p: CellAddr, a: Action, g: GridShape, page: int) -> CellAddr {
    let cc = max_row_len(shape_rows(g));
    let rc = g.rows@.len();
    match a {
        Action::MoveUp => CellAddr { row: if p.row > 0 { (p.row - 1) as usize } else { 0 }, ..p },
        Action::MoveDown => if rc > 0 {
            CellAddr { row: (if p.row + 1 < rc { p.row + 1 } else { rc - 1 }) as usize, ..p }
        } else {
            p
        },
        Action::MoveLeft => CellAddr { col: if p.col > 0 { (p.col - 1) as usize } else { 0 }, ..p },
        Action::MoveRight => if cc > 0 {
            CellAddr { col: (if p.col + 1 < cc { p.col + 1 } else { cc - 1 }) as usize, ..p }
        } else {
            p
        },
        Action::MoveHome => CellAddr { col: 0, ..p },
        Action::MoveEnd => if cc > 0 { CellAddr { col: (cc - 1) as usize, ..p } } else { p },
        Action::MoveHomeAll => CellAddr { col: 0, row: 0 },
        Action::MoveEndAll => end_all_pos(g),
        Action::PageUp => CellAddr { row: (if p.row >= page { p.row - page } else { 0 }) as usize, ..p },
        Action::PageDown => CellAddr {
            row: (if p.row + page < last_row(g) { p.row + page } else { last_row(g) }) as usize,
            ..p
        },
        Action::Tab => tabbed(p, last_col(g), last_row(g)),
        Action::TabBack => tabbed_back(p, last_col(g)),
        Action::ClickCell(addr) => addr,
        _ => p,
    }
}

/// The cursor moves on this step.
pub open spec fn moves_cursor(editing: bool, a: Action) -> bool {
    (is_move(a) && !editing) || commits_then_moves(a)
}

/// A text with a character inserted at a cursor on a boundary, and the
/// cursor after it.
pub open spec fn inserted(s: Seq<char>, cur: int, ch: char) -> (Seq<char>, int) {
    (s.insert(boundary_index(s, cur), ch), cur + encode_scalar(ch as u32).len())
}

/// A text and cursor after a backspace.
pub open spec fn backspaced(s: Seq<char>, cur: int) -> (Seq<char>, int) {
    if cur == 0 {
        (s, 0)
    } else {
        let j = scan_ge(s, cur, 0);
        (s.remove(j - 1), byte_offset(s, j - 1))
    }
}

/// A text and cursor after deleting forward.
pub open spec fn deleted(s: Seq<char>, cur: int) -> (Seq<char>, int) {
    if cur < byte_total(s) { (s.remove(boundary_index(s, cur)), cur) } else { (s, cur) }
}

/// The cursor after moving one character left.
pub open spec fn cursor_left(s: Seq<char>, cur: int) -> int {
    if cur == 0 { 0 } else if s.len() > 0 { byte_offset(s, scan_ge(s, cur, 0) - 1) } else { 0 }
}

/// The cursor after moving one character right.
pub open spec fn cursor_right(s: Seq<char>, cur: int) -> int {
    if cur < byte_total(s) { byte_offset(s, scan_gt(s, cur, 0)) } else { cur }
}

/// The edit, as (editing, text, cursor), after a step.
pub open spec fn edit_after<V>(e: EditState<V>, a: Action, text: Seq<char>) -> (bool, Seq<char>, int) {
    let s = e.buffer@;
    let cur = e.cursor_pos as int;
    if e.editing {
        match a {
            Action::Tab | Action::TabBack | Action::ClickCell(_) | Action::CommitEdit
            | Action::CancelEdit => (false, seq![], 0),
            Action::TypeChar(ch) => (true, inserted(s, cur, ch).0, inserted(s, cur, ch).1),
            Action::Backspace => (true, backspaced(s, cur).0, backspaced(s, cur).1),
            Action::Delete => (true, deleted(s, cur).0, deleted(s, cur).1),
            Action::EditCursorLeft => (true, s, cursor_left(s, cur)),
            Action::EditCursorRight => (true, s, cursor_right(s, cur)),
            _ => (true, s, cur),
        }
    } else {
        match a {
            Action::EnterEdit(Some(ch)) => (true, seq![ch], encode_scalar(ch as u32).len() as int),
            Action::EnterEdit(None) => (true, text, byte_total(text)),
            _ => (false, s, cur),
        }
    }
}

/// The edit cursor sits on a character boundary of the text.
pub open spec fn edit_wf<V>(e: EditState<V>) -> bool {
    is_boundary(e.buffer@, e.cursor_pos as int)
}

/// The machine limits a step stays within: the cursor's next row or column
/// and a page down fit in `usize`, the viewport's end fits when it must
/// scroll, and a copied region's size fits.
pub open spec fn step_ok<V>(m: SheetModel<V>, a: Action, g: GridShape) -> bool {
    let p = m.cursor.position;
    let t = target(p, a, g, m.scroll.visible_rows as int);
    &&& (a == Action::MoveDown && g.rows@.len() > 0 ==> p.row < usize::MAX)
    &&& (a == Action::MoveRight && max_row_len(shape_rows(g)) > 0 ==> p.col < usize::MAX)
    &&& (a == Action::PageDown ==> p.row + m.scroll.visible_rows <= usize::MAX)
    &&& (moves_cursor(m.edit.editing, a) ==> scroll_ok(m.scroll.offset_col as int, m.scroll.visible_cols as int, t.col as int)
        && scroll_ok(m.scroll.offset_row as int, m.scroll.visible_rows as int, t.row as int))
    &&& (a == Action::Copy ==> {
        let r = copied_range(m.cursor);
        r.end.col - r.start.col + 1 <= usize::MAX && r.end.row - r.start.row + 1 <= usize::MAX
    })
}

/// The range a copy takes: the selection, or the cursor's cell.
pub open spec fn copied_range(c: CursorState) -> CellRange {
    match c.anchor {
        Some(an) => spanned(an, c.position),
        None => CellRange { start: c.position, end: c.position },
    }
}

/// A step's effect with its text taken as characters.
pub enum EffectView<V> {
    NoEffect,
    Commit(CellAddr, Seq<char>),
    Restore(CellAddr, V),
    UndoTo(CellAddr, V),
    ClearCell(CellAddr),
    CopyRange(CellAddr, CellAddr),
    PasteAt(CellAddr),
}

pub open spec fn effect_view<V>(e: SheetEffect<V>) -> EffectView<V> {
    match e {
        SheetEffect::NoEffect => EffectView::NoEffect,
        SheetEffect::Commit(c, s) => EffectView::Commit(c, s@),
        SheetEffect::Restore(c, v) => EffectView::Restore(c, v),
        SheetEffect::UndoTo(c, v) => EffectView::UndoTo(c, v),
        SheetEffect::ClearCell(c) => EffectView::ClearCell(c),
        SheetEffect::CopyRange(a, b) => EffectView::CopyRange(a, b),
        SheetEffect::PasteAt(c) => EffectView::PasteAt(c),
    }
}

/// The effect of a step.
pub open spec fn effect_of<V>(m: SheetModel<V>, clip: ClipboardModel, a: Action) -> EffectView<V> {
    let p = m.cursor.position;
    match a {
        Action::Tab | Action::TabBack | Action::ClickCell(_) | Action::CommitEdit => if m.edit.editing {
            EffectView::Commit(p, m.edit.buffer@)
        } else {
            EffectView::NoEffect
        },
        Action::CancelEdit => if m.edit.editing {
            match m.edit.previous_value {
                Some(v) => EffectView::Restore(p, v),
                None => EffectView::NoEffect,
            }
        } else {
            EffectView::NoEffect
        },
        Action::Undo => if !m.edit.editing {
            match m.undo {
                Some((addr, v)) => EffectView::UndoTo(addr, v),
                None => EffectView::NoEffect,
            }
        } else {
            EffectView::NoEffect
        },
        Action::DeleteContent => if !m.edit.editing { EffectView::ClearCell(p) } else { EffectView::NoEffect },
        Action::Copy => EffectView::CopyRange(copied_range(m.cursor).start, copied_range(m.cursor).end),
        Action::Paste => if clip.width > 0 { EffectView::PasteAt(p) } else { EffectView::NoEffect },
        _ => EffectView::NoEffect,
    }
}

/// The cursor after a step.
pub open spec fn cursor_after<V>(m: SheetModel<V>, a: Action, g: GridShape) -> CursorState {
    let c = m.cursor;
    if moves_cursor(m.edit.editing, a) {
        CursorState { position: target(c.position, a, g, m.scroll.visible_rows as int), anchor: None }
    } else {
        match a {
            Action::StartSelection => CursorState {
                anchor: match c.anchor {
                    Some(x) => Some(x),
                    None => Some(c.position),
                },
                ..c
            },
            Action::ClearSelection => CursorState { anchor: None, ..c },
            _ => c,
        }
    }
}

/// The viewport after a step.
pub open spec fn scroll_after<V>(m: SheetModel<V>, a: Action, g: GridShape) -> ScrollState {
    let s = m.scroll;
    if moves_cursor(m.edit.editing, a) {
        let t = target(m.cursor.position, a, g, s.visible_rows as int);
        ScrollState {
            offset_col: scrolled_to(s.offset_col as int, s.visible_cols as int, t.col as int) as usize,
            offset_row: scrolled_to(s.offset_row as int, s.visible_rows as int, t.row as int) as usize,
            ..s
        }
    } else {
        s
    }
}

/// The value kept for cancelling an edit, after a step.
pub open spec fn previous_after<V>(m: SheetModel<V>, a: Action, cell: Option<(String, V)>) -> Option<V> {
    if m.edit.editing {
        match a {
            Action::Tab | Action::TabBack | Action::ClickCell(_) | Action::CommitEdit
            | Action::CancelEdit => None,
            _ => m.edit.previous_value,
        }
    } else {
        match a {
            Action::EnterEdit(_) => Some(cell.unwrap().1),
            _ => m.edit.previous_value,
        }
    }
}

/// The undo entry after a step.
pub open spec fn undo_after<V>(m: SheetModel<V>, a: Action, cell: Option<(String, V)>) -> Option<(CellAddr, V)> {
    match a {
        Action::Undo => if m.edit.editing { m.undo } else { None },
        Action::DeleteContent => if m.edit.editing { m.undo } else { Some((m.cursor.position, cell.unwrap().1)) },
        _ => m.undo,
    }
}

/// The clipboard after a step.
pub open spec fn clipboard_after<V>(m: SheetModel<V>, clip: ClipboardModel, a: Action) -> ClipboardModel {
    match a {
        Action::Copy => {
            let r = copied_range(m.cursor);
            ClipboardModel {
                width: (r.end.col - r.start.col + 1) as usize,
                height: (r.end.row - r.start.row + 1) as usize,
            }
        },
        _ => clip,
    }
}

/// The step needs the text and value of the cursor's cell.
pub open spec fn needs_cell<V>(m: SheetModel<V>, a: Action) -> bool {
    !m.edit.editing && (a is EnterEdit || a is DeleteContent)
}

proof fn lemma_boundary_at(s: Seq<char>, k: int)
    requires
        0 <= k <= s.len(),
    ensures
        is_boundary(s, byte_offset(s, k)),
{
}

proof fn lemma_offset_after_remove(s: Seq<char>, k: int)
    requires
        0 <= k < s.len(),
    ensures
        byte_offset(s.remove(k), k) == byte_offset(s, k),
        is_boundary(s.remove(k), byte_offset(s, k)),
{
    assert(s.remove(k).take(k) =~= s.take(k));
    lemma_boundary_at(s.remove(k), k);
}

proof fn lemma_boundary_index_of(s: Seq<char>, b: int)
    requires
        is_boundary(s, b),
    ensures
        0 <= boundary_index(s, b) <= s.len(),
        byte_offset(s, boundary_index(s, b)) == b,
{
}

proof fn lemma_boundary_total(s: Seq<char>)
    ensures
        is_boundary(s, byte_total(s)),
{
    lemma_offset_end(s);
    lemma_boundary_at(s, s.len() as int);
}

/// The state change of a step and the effect it leaves to the caller.
fn step_inner<V>(
    state: &mut SheetModel<V>,
    action: Action,
    clipboard: &mut ClipboardModel,
    shape: &GridShape,
    cell: Option<(String, V)>,
) -> (r: SheetEffect<V>)
    requires
        edit_wf(old(state).edit),
        step_ok(*old(state), action, *shape),
        needs_cell(*old(state), action) ==> cell is Some,
    ensures
        edit_wf(final(state).edit),
        effect_view(r) == effect_of(*old(state), *old(clipboard), action),
        final(state).cursor == cursor_after(*old(state), action, *shape),
        final(state).scroll == scroll_after(*old(state), action, *shape),
        ({
            let ed = edit_after(old(state).edit, action, match cell { Some(c) => c.0@, None => seq![] });
            &&& final(state).edit.editing == ed.0
            &&& final(state).edit.buffer@ == ed.1
            &&& final(state).edit.cursor_pos == ed.2
        }),
        final(state).edit.previous_value == previous_after(*old(state), action, cell),
        final(state).undo == undo_after(*old(state), action, cell),
        *final(clipboard) == clipboard_after(*old(state), *old(clipboard), action),
{
    let editing = state.edit.editing;
    let rows = state.scroll.visible_rows;
    let pos = state.cursor.position;
    let ghost m0 = *state;
    proof {
        if action is MoveEndAll {
            assert(target(pos, action, *shape, rows as int) == end_all_pos(*shape));
        }
    }
    match action {
        Action::MoveUp | Action::MoveDown | Action::MoveLeft | Action::MoveRight | Action::MoveHome
        | Action::MoveEnd | Action::MoveHomeAll | Action::MoveEndAll | Action::PageUp
        | Action::PageDown => {
            if editing {
                return SheetEffect::NoEffect;
            }
            clear_selection(&mut state.cursor);
            match action {
                Action::MoveUp => move_up(&mut state.cursor, shape),
                Action::MoveDown => move_down(&mut state.cursor, shape),
                Action::MoveLeft => move_left(&mut state.cursor, shape),
                Action::MoveRight => move_right(&mut state.cursor, shape),
                Action::MoveHome => move_home(&mut state.cursor, shape),
                Action::MoveEnd => move_end(&mut state.cursor, shape),
                Action::MoveHomeAll => move_home_all(&mut state.cursor, shape),
                Action::MoveEndAll => {
                    move_end_all(&mut state.cursor, shape);
                    proof { lemma_end_all_unique(*shape, state.cursor.position); }
                },
                Action::PageUp => move_page_up(&mut state.cursor, shape, rows),
                _ => move_page_down(&mut state.cursor, shape, rows),
            }
            let p = state.cursor.position;
            state.scroll.ensure_visible(p);
            SheetEffect::NoEffect
        },
        Action::Tab | Action::TabBack | Action::ClickCell(_) | Action::CommitEdit => {
            let effect = if editing {
                let input = state.edit.commit_buffer();
                proof { lemma_boundary_at(state.edit.buffer@, 0); }
                SheetEffect::Commit(pos, input)
            } else {
                SheetEffect::NoEffect
            };
            match action {
                Action::CommitEdit => {},
                _ => {
                    clear_selection(&mut state.cursor);
                    match action {
                        Action::Tab => move_tab(&mut state.cursor, shape),
                        Action::TabBack => move_tab_back(&mut state.cursor, shape),
                        Action::ClickCell(addr) => {
                            state.cursor.position = addr;
                        },
                        _ => {},
                    }
                    let p = state.cursor.position;
                    state.scroll.ensure_visible(p);
                },
            }
            effect
        },
        Action::EnterEdit(ch) => {
            if !editing {
                let (text, value) = match cell {
                    Some(c) => c,
                    None => {
                        assert(false);
                        return SheetEffect::NoEffect;
                    },
                };
                state.edit.previous_value = Some(value);
                match ch {
                    Some(c) => {
                        state.edit.start_edit(String::new());
                        proof {
                            lemma_boundary_at(state.edit.buffer@, 0);
                            lemma_boundary_index_of(state.edit.buffer@, 0);
                        }
                        state.edit.insert_char(c);
                        proof {
                            assert(state.edit.buffer@ =~= seq![c]);
                            lemma_offset_end(seq![c]);
                            lemma_boundary_at(seq![c], 1);
                            assert(seq![c].take(1) =~= seq![c]);
                            assert(seq![c].drop_first() =~= Seq::<char>::empty());
                        }
                    },
                    None => {
                        state.edit.start_edit(text);
                        proof { lemma_boundary_total(state.edit.buffer@); }
                    },
                }
            }
            SheetEffect::NoEffect
        },
        Action::CancelEdit => {
            let effect = if editing {
                let prev = state.edit.cancel();
                proof { lemma_boundary_at(state.edit.buffer@, 0); }
                match prev {
                    Some(v) => SheetEffect::Restore(pos, v),
                    None => SheetEffect::NoEffect,
                }
            } else {
                SheetEffect::NoEffect
            };
            effect
        },
        Action::Undo => {
            let effect = if !editing {
                match state.undo.take() {
                    Some((addr, v)) => SheetEffect::UndoTo(addr, v),
                    None => SheetEffect::NoEffect,
                }
            } else {
                SheetEffect::NoEffect
            };
            effect
        },
        Action::DeleteContent => {
            let effect = if !editing {
                match cell {
                    Some((_, v)) => {
                        state.undo = Some((pos, v));
                    },
                    None => {
                        assert(false);
                    },
                }
                SheetEffect::ClearCell(pos)
            } else {
                SheetEffect::NoEffect
            };
            effect
        },
        Action::Copy => {
            let (start, end) = match get_selection(&state.cursor) {
                Selection::Range(range) => (range.start, range.end),
                Selection::NoSelection => (pos, pos),
            };
            clipboard.width = end.col - start.col + 1;
            clipboard.height = end.row - start.row + 1;
            SheetEffect::CopyRange(start, end)
        },
        Action::Paste => {
            let effect = if clipboard.width > 0 { SheetEffect::PasteAt(pos) } else { SheetEffect::NoEffect };
            effect
        },
        Action::StartSelection => {
            start_selection(&mut state.cursor);
            SheetEffect::NoEffect
        },
        Action::ClearSelection => {
            clear_selection(&mut state.cursor);
            SheetEffect::NoEffect
        },
        Action::TypeChar(ch) => {
            if editing {
                let ghost s = state.edit.buffer@;
                let ghost k = boundary_index(s, state.edit.cursor_pos as int);
                proof { lemma_boundary_index_of(s, state.edit.cursor_pos as int); }
                state.edit.insert_char(ch);
                proof {
                    let s2 = s.insert(k, ch);
                    assert(s2.take(k + 1) =~= s.take(k) + seq![ch]);
                    lemma_encode_concat(s.take(k), seq![ch]);
                    assert(seq![ch].drop_first() =~= Seq::<char>::empty());
                    lemma_boundary_at(s2, k + 1);
                }
            }
            SheetEffect::NoEffect
        },
        Action::Backspace => {
            if editing {
                let ghost s = state.edit.buffer@;
                let ghost cur = state.edit.cursor_pos as int;
                proof {
                    lemma_boundary_index_of(s, cur);
                    lemma_scan_ge_bounds(s, cur, 0);
                    if cur > 0 && s.len() == 0 {
                        assert(byte_offset(s, 0) == 0);
                    }
                }
                state.edit.backspace();
                proof {
                    if cur > 0 {
                        let j = scan_ge(s, cur, 0);
                        if j == 0 {
                            assert(byte_offset(s, 0) == 0);
                        }
                        lemma_offset_after_remove(s, j - 1);
                    }
                }
            }
            SheetEffect::NoEffect
        },
        Action::Delete => {
            if editing {
                let ghost s = state.edit.buffer@;
                let ghost cur = state.edit.cursor_pos as int;
                proof {
                    lemma_boundary_index_of(s, cur);
                    lemma_offset_end(s);
                }
                state.edit.delete_char();
                proof {
                    if cur < byte_total(s) {
                        let k = boundary_index(s, cur);
                        if k == s.len() {
                            assert(byte_offset(s, k) == byte_total(s));
                        }
                        lemma_offset_after_remove(s, k);
                    }
                }
            }
            SheetEffect::NoEffect
        },
        Action::EditCursorLeft => {
            if editing {
                let ghost s = state.edit.buffer@;
                let ghost cur = state.edit.cursor_pos as int;
                proof { lemma_scan_ge_bounds(s, cur, 0); }
                state.edit.move_cursor_left();
                proof {
                    if cur > 0 && s.len() > 0 {
                        if scan_ge(s, cur, 0) == 0 {
                            assert(byte_offset(s, 0) == 0);
                        }
                        lemma_boundary_at(s, scan_ge(s, cur, 0) - 1);
                    } else {
                        lemma_boundary_at(s, 0);
                    }
                }
            }
            SheetEffect::NoEffect
        },
        Action::EditCursorRight => {
            if editing {
                let ghost s = state.edit.buffer@;
                let ghost cur = state.edit.cursor_pos as int;
                proof { lemma_scan_gt_bounds(s, cur, 0); }
                state.edit.move_cursor_right();
                proof {
                    if cur < byte_total(s) {
                        lemma_boundary_at(s, scan_gt(s, cur, 0));
                    }
                }
            }
            SheetEffect::NoEffect
        },
    }
}

/// A value change always shows in the plain parts of the state or in the
/// effect: the kept value changes only when an edit starts or ends, and the
/// undo entry only with an effect.
proof fn lemma_value_changes_show<V>(m: SheetModel<V>, clip: ClipboardModel, a: Action, cell: Option<(String, V)>)
    ensures
        previous_after(m, a, cell) != m.edit.previous_value ==> edit_after(
            m.edit,
            a,
            match cell { Some(c) => c.0@, None => seq![] },
        ).0 != m.edit.editing,
        undo_after(m, a, cell) != m.undo ==> effect_of(m, clip, a) != EffectView::<V>::NoEffect,
{
}

/// One step of the spreadsheet: moves with the selection cleared and the
/// viewport following, the edit lifecycle (start, type, commit, cancel),
/// selection, copy and paste of a range, and undo. What happens to cell
/// values is returned as an effect for the caller; `cell` is the text and
/// value of the cursor's cell, needed to start an edit or delete content.
/// The step reports a change exactly when the cursor, viewport, edit, undo
/// entry or clipboard differ afterwards, or an effect comes back.
pub fn sheet_step<V>(
    state: &mut SheetModel<V>,
    action: Action,
    clipboard: &mut ClipboardModel,
    shape: &GridShape,
    cell: Option<(String, V)>,
) -> (r: StepResult<V>)
    requires
        edit_wf(old(state).edit),
        step_ok(*old(state), action, *shape),
        needs_cell(*old(state), action) ==> cell is Some,
    ensures
        edit_wf(final(state).edit),
        effect_view(r.effect) == effect_of(*old(state), *old(clipboard), action),
        final(state).cursor == cursor_after(*old(state), action, *shape),
        final(state).scroll == scroll_after(*old(state), action, *shape),
        ({
            let ed = edit_after(old(state).edit, action, match cell { Some(c) => c.0@, None => seq![] });
            &&& final(state).edit.editing == ed.0
            &&& final(state).edit.buffer@ == ed.1
            &&& final(state).edit.cursor_pos == ed.2
        }),
        final(state).edit.previous_value == previous_after(*old(state), action, cell),
        final(state).undo == undo_after(*old(state), action, cell),
        *final(clipboard) == clipboard_after(*old(state), *old(clipboard), action),
        r.changed == (effect_view(r.effect) != EffectView::<V>::NoEffect || final(state).cursor != old(state).cursor
            || final(state).scroll != old(state).scroll || final(state).edit.editing != old(state).edit.editing
            || final(state).edit.buffer@ != old(state).edit.buffer@ || final(state).edit.cursor_pos
            != old(state).edit.cursor_pos || final(state).edit.previous_value != old(state).edit.previous_value
            || final(state).undo != old(state).undo || *final(clipboard) != *old(clipboard)),
{
    let ghost m0 = *state;
    let ghost c0 = *clipboard;
    let pos0 = state.cursor.position;
    let anchor0 = state.cursor.anchor;
    let (oc, or, vc, vr) = (state.scroll.offset_col, state.scroll.offset_row, state.scroll.visible_cols, state.scroll.visible_rows);
    let editing0 = state.edit.editing;
    let cur0 = state.edit.cursor_pos;
    let buf0 = state.edit.buffer.clone();
    let clip0 = *clipboard;
    proof { lemma_value_changes_show(m0, c0, action, cell); }
    let ghost cell_g = cell;
    let effect = step_inner(state, action, clipboard, shape, cell);
    let has_effect = match effect {
        SheetEffect::NoEffect => false,
        _ => true,
    };
    let anchor_same = match (anchor0, state.cursor.anchor) {
        (None, None) => true,
        (Some(x), Some(y)) => x == y,
        _ => false,
    };
    let cursor_same = pos0 == state.cursor.position && anchor_same;
    let scroll_same = oc == state.scroll.offset_col && or == state.scroll.offset_row
        && vc == state.scroll.visible_cols && vr == state.scroll.visible_rows;
    let edit_same = editing0 == state.edit.editing && cur0 == state.edit.cursor_pos
        && str_eq(buf0.as_str(), state.edit.buffer.as_str());
    let clip_same = clip0 == *clipboard;
    let changed = has_effect || !cursor_same || !scroll_same || !edit_same || !clip_same;
    proof {
        assert(cursor_same <==> state.cursor == m0.cursor);
        assert(scroll_same <==> state.scroll == m0.scroll);
        assert(has_effect <==> effect_view(effect) != EffectView::<V>::NoEffect);
    }
    StepResult { changed, effect }
}

} // verus!
