//! Grid navigation state: the cursor with its selection anchor, the scroll
//! viewport, and mouse hit testing.
use vstd::prelude::*;
use crate::sheet::cell::{CellAddr, CellRange};

verus! {

/// The cursor position and, while selecting, the anchor of the selection.
#[derive(Debug, Clone, PartialEq, Eq)]
pub struct CursorState {
    pub position: CellAddr,
    pub anchor: Option<CellAddr>,
}

impl CursorState {
    /// The cursor at A1 with no selection.
    pub fn new() -> (r: Self)
        ensures
            r.position == (CellAddr { col: 0, row: 0 }),
            r.anchor is None,
    {
        CursorState { position: CellAddr { col: 0, row: 0 }, anchor: None }
    }
}

impl Default for CursorState {
    fn default() -> (r: Self)
        ensures
            r.position == (CellAddr { col: 0, row: 0 }),
            r.anchor is None,
    {
        CursorState::new()
    }
}

/// The current selection: nothing, or a rectangular range.
#[derive(Debug, Clone, PartialEq, Eq)]
pub enum Selection {
    NoSelection,
    Range(CellRange),
}

/// The rectangle spanned by the anchor and the cursor position.
pub open spec fn spanned(anchor: CellAddr, pos: CellAddr) -> CellRange {
    CellRange {
        start: CellAddr {
            col: if anchor.col <= pos.col { anchor.col } else { pos.col },
            row: if anchor.row <= pos.row { anchor.row } else { pos.row },
        },
        end: CellAddr {
            col: if anchor.col >= pos.col { anchor.col } else { pos.col },
            row: if anchor.row >= pos.row { anchor.row } else { pos.row },
        },
    }
}

/// The selection a cursor makes.
pub open spec fn selection_of(cursor: CursorState) -> Selection {
    match cursor.anchor {
        Some(a) => Selection::Range(spanned(a, cursor.position)),
        None => Selection::NoSelection,
    }
}

impl Selection {
    /// The selection of a cursor: the rectangle between anchor and position,
    /// or none without an anchor.
    pub fn selected_range(cursor: &CursorState) -> (r: Selection)
        ensures
            r == selection_of(*cursor),
    {
        match cursor.anchor {
            Some(anchor) => {
                let p = cursor.position;
                let start = CellAddr {
                    col: if anchor.col <= p.col { anchor.col } else { p.col },
                    row: if anchor.row <= p.row { anchor.row } else { p.row },
                };
                let end = CellAddr {
                    col: if anchor.col >= p.col { anchor.col } else { p.col },
                    row: if anchor.row >= p.row { anchor.row } else { p.row },
                };
                Selection::Range(CellRange { start, end })
            },
            None => Selection::NoSelection,
        }
    }
}

/// Start selecting at the cursor, unless a selection is already under way.
pub fn start_selection(cursor: &mut CursorState)
    ensures
        final(cursor).position == old(cursor).position,
        final(cursor).anchor == (match old(cursor).anchor {
            Some(a) => Some(a),
            None => Some(old(cursor).position),
        }),
{
    if cursor.anchor.is_none() {
        cursor.anchor = Some(cursor.position);
    }
}

/// Drop the selection.
pub fn clear_selection(cursor: &mut CursorState)
    ensures
        final(cursor).position == old(cursor).position,
        final(cursor).anchor is None,
{
    cursor.anchor = None;
}

/// The current selection.
pub fn get_selection(cursor: &CursorState) -> (r: Selection)
    ensures
        r == selection_of(*cursor),
{
    Selection::selected_range(cursor)
}

/// The scroll viewport: its first column and row and how many of each show.
#[derive(Debug, Clone, PartialEq, Eq)]
pub struct ScrollState {
    pub offset_col: usize,
    pub offset_row: usize,
    pub visible_cols: usize,
    pub visible_rows: usize,
}

/// The offset after scrolling just enough that `pos` shows among `visible`
/// positions from `offset`.
pub open spec fn scrolled_to(offset: int, visible: int, pos: int) -> int {
    if pos < offset {
        pos
    } else if pos >= offset + visible {
        if pos >= visible - 1 { pos - (visible - 1) } else { 0 }
    } else {
        offset
    }
}

/// Scrolling to `pos` stays within `usize` (the end of the viewport fits, and
/// a viewport that must move shows at least one position).
pub open spec fn scroll_ok(offset: int, visible: int, pos: int) -> bool {
    pos >= offset ==> offset + visible <= usize::MAX && (pos >= offset + visible ==> visible >= 1)
}

impl ScrollState {
    /// The viewport at A1, 10 columns by 20 rows.
    pub fn new() -> (r: Self)
        ensures
            r == (ScrollState { offset_col: 0, offset_row: 0, visible_cols: 10, visible_rows: 20 }),
    {
        ScrollState { offset_col: 0, offset_row: 0, visible_cols: 10, visible_rows: 20 }
    }

    /// Scroll as little as needed for `addr` to show.
    pub fn ensure_visible(&mut self, addr: CellAddr)
        requires
            scroll_ok(old(self).offset_col as int, old(self).visible_cols as int, addr.col as int),
            scroll_ok(old(self).offset_row as int, old(self).visible_rows as int, addr.row as int),
        ensures
            final(self).offset_col == scrolled_to(
                old(self).offset_col as int,
                old(self).visible_cols as int,
                addr.col as int,
            ),
            final(self).offset_row == scrolled_to(
                old(self).offset_row as int,
                old(self).visible_rows as int,
                addr.row as int,
            ),
            final(self).visible_cols == old(self).visible_cols,
            final(self).visible_rows == old(self).visible_rows,
    {
        if addr.col < self.offset_col {
            self.offset_col = addr.col;
        } else if addr.col >= self.offset_col + self.visible_cols {
            self.offset_col = addr.col.saturating_sub(self.visible_cols - 1);
        }
        if addr.row < self.offset_row {
            self.offset_row = addr.row;
        } else if addr.row >= self.offset_row + self.visible_rows {
            self.offset_row = addr.row.saturating_sub(self.visible_rows - 1);
        }
    }
}

impl Default for ScrollState {
    fn default() -> (r: Self)
        ensures
            r == (ScrollState { offset_col: 0, offset_row: 0, visible_cols: 10, visible_rows: 20 }),
    {
        ScrollState::new()
    }
}

/// Scanning column widths from `col` with `acc` pixels passed: the column
/// that holds pixel `gx`, or `None` past the last column.
pub open spec fn column_at(widths: Seq<u16>, gx: int, col: int, acc: int) -> Option<int>
    decreases widths.len() - col,
{
    if acc >= gx {
        Some(col)
    } else if col < 0 || col >= widths.len() {
        None
    } else if acc + widths[col] > gx {
        Some(col)
    } else {
        column_at(widths, gx, col + 1, acc + widths[col])
    }
}

/// The sums that the scan adds up stay within `u16`.
pub open spec fn column_scan_fits(widths: Seq<u16>, gx: int, col: int, acc: int) -> bool
    decreases widths.len() - col,
{
    if acc >= gx || col < 0 || col >= widths.len() {
        true
    } else if acc + widths[col] > u16::MAX {
        false
    } else if acc + widths[col] > gx {
        true
    } else {
        column_scan_fits(widths, gx, col + 1, acc + widths[col])
    }
}

/// The cell under a click at pixel (`x`, `y`).
pub open spec fn cell_at(
    x: int,
    y: int,
    scroll: ScrollState,
    widths: Seq<u16>,
    row_height: int,
    header_width: int,
    header_height: int,
) -> Option<CellAddr> {
    if x < header_width || y < header_height {
        None
    } else {
        match column_at(widths, x - header_width, scroll.offset_col as int, 0) {
            Some(c) => Some(
                CellAddr { col: c as usize, row: (scroll.offset_row + (y - header_height) / row_height) as usize },
            ),
            None => None,
        }
    }
}

/// The cell under a click at pixel (`x`, `y`), or `None` on the headers or
/// past the last column.
pub fn cell_at_pixel(
    x: u16,
    y: u16,
    scroll: &ScrollState,
    col_widths: &[u16],
    row_height: u16,
    header_width: u16,
    header_height: u16,
) -> (r: Option<CellAddr>)
    requires
        x >= header_width && y >= header_height ==> row_height > 0 && scroll.offset_row + (y - header_height)
            / (row_height as int) <= usize::MAX && column_scan_fits(
            col_widths@,
            x - header_width,
            scroll.offset_col as int,
            0,
        ),
    ensures
        r == cell_at(
            x as int,
            y as int,
            *scroll,
            col_widths@,
            row_height as int,
            header_width as int,
            header_height as int,
        ),
{
    if x < header_width || y < header_height {
        return None;
    }
    let grid_x = x - header_width;
    let grid_y = y - header_height;
    let row = scroll.offset_row + (grid_y / row_height) as usize;
    let mut col_offset: u16 = 0;
    let mut col = scroll.offset_col;
    while col_offset < grid_x
        invariant
            column_at(col_widths@, grid_x as int, scroll.offset_col as int, 0) == column_at(
                col_widths@,
                grid_x as int,
                col as int,
                col_offset as int,
            ),
            column_scan_fits(col_widths@, grid_x as int, col as int, col_offset as int),
            grid_x == x - header_width,
            x >= header_width && y >= header_height,
            row == scroll.offset_row + (y - header_height) / (row_height as int),
        ensures
            column_at(col_widths@, grid_x as int, col as int, col_offset as int) == Some(col as int),
        decreases col_widths@.len() - col,
    {
        if col >= col_widths.len() {
            return None;
        }
        if col_offset + col_widths[col] > grid_x {
            break;
        }
        col_offset += col_widths[col];
        col += 1;
    }
    Some(CellAddr { col, row })
}


/// Which cells of the grid hold a value, row by row; a row may be shorter
/// than others, and a cell past its row's end is empty.
#[derive(Debug, Clone)]
pub struct GridShape {
    pub rows: Vec<Vec<bool>>,
}

/// The longest of the rows.
pub open spec fn max_row_len(rows: Seq<Seq<bool>>) -> nat
    decreases rows.len(),
{
    if rows.len() == 0 {
        0
    } else {
        let rest = max_row_len(rows.drop_last());
        if rows.last().len() > rest { rows.last().len() } else { rest }
    }
}

pub open spec fn shape_rows(g: GridShape) -> Seq<Seq<bool>> {
    g.rows@.map_values(|r: Vec<bool>| r@)
}

/// The cell holds a value.
pub open spec fn filled(g: GridShape, row: int, col: int) -> bool {
    0 <= row < g.rows@.len() && 0 <= col < g.rows@[row]@.len() && g.rows@[row]@[col]
}

impl GridShape {
    /// Number of rows.
    pub fn row_count(&self) -> (n: usize)
        ensures
            n == self.rows@.len(),
    {
        self.rows.len()
    }

    /// Number of columns: the length of the longest row.
    pub fn col_count(&self) -> (n: usize)
        ensures
            n == max_row_len(shape_rows(*self)),
    {
        let ghost rows = shape_rows(*self);
        let mut best: usize = 0;
        let mut i: usize = 0;
        while i < self.rows.len()
            invariant
                i <= self.rows@.len(),
                rows == shape_rows(*self),
                best == max_row_len(rows.take(i as int)),
            decreases self.rows@.len() - i,
        {
            assert(rows.take(i + 1).drop_last() =~= rows.take(i as int));
            assert(rows.take(i + 1).last() == self.rows@[i as int]@);
            let n = self.rows[i].len();
            if n > best {
                best = n;
            }
            i += 1;
        }
        assert(rows.take(i as int) =~= rows);
        best
    }

    /// Whether the cell holds a value.
    pub fn is_filled(&self, addr: CellAddr) -> (r: bool)
        ensures
            r == filled(*self, addr.row as int, addr.col as int),
    {
        addr.row < self.rows.len() && addr.col < self.rows[addr.row].len()
            && self.rows[addr.row][addr.col]
    }
}

/// Moves the cursor one row up, stopping at the first row.
pub fn move_up(cursor: &mut CursorState, _grid: &GridShape)
    ensures
        final(cursor).position.row == (if old(cursor).position.row > 0 {
            old(cursor).position.row - 1
        } else {
            0
        }),
        final(cursor).position.col == old(cursor).position.col,
        final(cursor).anchor == old(cursor).anchor,
{
    cursor.position.row = cursor.position.row.saturating_sub(1);
}

/// Moves the cursor one row down, stopping at the last row.
pub fn move_down(cursor: &mut CursorState, grid: &GridShape)
    requires
        grid.rows@.len() > 0 ==> old(cursor).position.row < usize::MAX,
    ensures
        grid.rows@.len() > 0 ==> final(cursor).position.row == (if old(cursor).position.row + 1
            < grid.rows@.len() {
            old(cursor).position.row + 1
        } else {
            grid.rows@.len() - 1
        }),
        grid.rows@.len() == 0 ==> final(cursor).position.row == old(cursor).position.row,
        final(cursor).position.col == old(cursor).position.col,
        final(cursor).anchor == old(cursor).anchor,
{
    let n = grid.row_count();
    if n > 0 {
        let next = cursor.position.row + 1;
        cursor.position.row = if next < n - 1 {
            next
        } else {
            n - 1
        };
    }
}

/// Moves the cursor one column left, stopping at the first column.
pub fn move_left(cursor: &mut CursorState, _grid: &GridShape)
    ensures
        final(cursor).position.col == (if old(cursor).position.col > 0 {
            old(cursor).position.col - 1
        } else {
            0
        }),
        final(cursor).position.row == old(cursor).position.row,
        final(cursor).anchor == old(cursor).anchor,
{
    cursor.position.col = cursor.position.col.saturating_sub(1);
}

/// Moves the cursor one column right, stopping at the last column.
pub fn move_right(cursor: &mut CursorState, grid: &GridShape)
    requires
        max_row_len(shape_rows(*grid)) > 0 ==> old(cursor).position.col < usize::MAX,
    ensures
        ({
            let cc = max_row_len(shape_rows(*grid));
            &&& cc > 0 ==> final(cursor).position.col == (if old(cursor).position.col + 1 < cc {
                old(cursor).position.col + 1
            } else {
                cc - 1
            })
            &&& cc == 0 ==> final(cursor).position.col == old(cursor).position.col
        }),
        final(cursor).position.row == old(cursor).position.row,
        final(cursor).anchor == old(cursor).anchor,
{
    let n = grid.col_count();
    if n > 0 {
        let next = cursor.position.col + 1;
        cursor.position.col = if next < n - 1 {
            next
        } else {
            n - 1
        };
    }
}

/// Moves the cursor to the first column.
pub fn move_home(cursor: &mut CursorState, _grid: &GridShape)
    ensures
        final(cursor).position.col == 0,
        final(cursor).position.row == old(cursor).position.row,
        final(cursor).anchor == old(cursor).anchor,
{
    cursor.position.col = 0;
}

/// Moves the cursor to the last column; nothing on a grid without columns.
pub fn move_end(cursor: &mut CursorState, grid: &GridShape)
    ensures
        ({
            let cc = max_row_len(shape_rows(*grid));
            final(cursor).position.col == (if cc > 0 {
                cc - 1
            } else {
                old(cursor).position.col as int
            })
        }),
        final(cursor).position.row == old(cursor).position.row,
        final(cursor).anchor == old(cursor).anchor,
{
    let n = grid.col_count();
    if n > 0 {
        cursor.position.col = n - 1;
    }
}

/// Moves the cursor to A1.
pub fn move_home_all(cursor: &mut CursorState, _grid: &GridShape)
    ensures
        final(cursor).position == (CellAddr { col: 0, row: 0 }),
        final(cursor).anchor == old(cursor).anchor,
{
    cursor.position = CellAddr { col: 0, row: 0 };
}

/// Moves the cursor to the last row and the last column that hold a value
/// (each taken on its own), or A1 when no cell does.
/// `p` is the last filled position: no filled cell lies below its row or
/// right of its column, and a non-zero row or column has a filled cell.
pub open spec fn end_all_ok(g: GridShape, p: CellAddr) -> bool {
    &&& forall|r: int, c: int| #[trigger] filled(g, r, c) ==> r <= p.row && c <= p.col
    &&& p.row > 0 ==> exists|c: int| #[trigger] filled(g, p.row as int, c)
    &&& p.col > 0 ==> exists|r: int| #[trigger] filled(g, r, p.col as int)
}

/// The last filled position of a grid.
pub open spec fn end_all_pos(g: GridShape) -> CellAddr {
    choose|p: CellAddr| end_all_ok(g, p)
}

/// Only one position is the last filled one.
pub proof fn lemma_end_all_unique(g: GridShape, p: CellAddr)
    requires
        end_all_ok(g, p),
    ensures
        end_all_pos(g) == p,
{
    let q = end_all_pos(g);
    assert(end_all_ok(g, q));
    if p.row > 0 {
        let c = choose|c: int| #[trigger] filled(g, p.row as int, c);
        assert(filled(g, p.row as int, c));
    }
    if q.row > 0 {
        let c = choose|c: int| #[trigger] filled(g, q.row as int, c);
        assert(filled(g, q.row as int, c));
    }
    if p.col > 0 {
        let r = choose|r: int| #[trigger] filled(g, r, p.col as int);
        assert(filled(g, r, p.col as int));
    }
    if q.col > 0 {
        let r = choose|r: int| #[trigger] filled(g, r, q.col as int);
        assert(filled(g, r, q.col as int));
    }
}

pub fn move_end_all(cursor: &mut CursorState, grid: &GridShape)
    ensures
        end_all_ok(*grid, final(cursor).position),
        forall|r: int, c: int| #[trigger] filled(*grid, r, c) ==> r <= final(cursor).position.row
            && c <= final(cursor).position.col,
        final(cursor).position.row > 0 ==> exists|c: int| #[trigger] filled(
            *grid,
            final(cursor).position.row as int,
            c,
        ),
        final(cursor).position.col > 0 ==> exists|r: int| #[trigger] filled(
            *grid,
            r,
            final(cursor).position.col as int,
        ),
        final(cursor).anchor == old(cursor).anchor,
{
    let mut last_col: usize = 0;
    let mut last_row: usize = 0;
    let mut r: usize = 0;
    while r < grid.rows.len()
        invariant
            r <= grid.rows@.len(),
            forall|q: int, c: int| 0 <= q < r && #[trigger] filled(*grid, q, c) ==> q <= last_row
                && c <= last_col,
            last_row > 0 ==> exists|c: int| #[trigger] filled(*grid, last_row as int, c),
            last_col > 0 ==> exists|q: int| #[trigger] filled(*grid, q, last_col as int),
        decreases grid.rows@.len() - r,
    {
        let row = &grid.rows[r];
        let mut c: usize = 0;
        while c < row.len()
            invariant
                r < grid.rows@.len(),
                *row == grid.rows@[r as int],
                c <= row@.len(),
                forall|q: int, k: int| 0 <= q < r && #[trigger] filled(*grid, q, k) ==> q
                    <= last_row && k <= last_col,
                forall|k: int| 0 <= k < c && #[trigger] filled(*grid, r as int, k) ==> r
                    <= last_row && k <= last_col,
                last_row > 0 ==> exists|k: int| #[trigger] filled(*grid, last_row as int, k),
                last_col > 0 ==> exists|q: int| #[trigger] filled(*grid, q, last_col as int),
            decreases row@.len() - c,
        {
            if row[c] {
                assert(filled(*grid, r as int, c as int));
                if r > last_row {
                    last_row = r;
                }
                if c > last_col {
                    last_col = c;
                }
            }
            c += 1;
        }
        assert forall|k: int| #[trigger] filled(*grid, r as int, k) implies r <= last_row && k
            <= last_col by {
            assert(0 <= k < row@.len());
        }
        r += 1;
    }
    cursor.position = CellAddr { col: last_col, row: last_row };
}

/// Moves the cursor a page of `visible_rows` up, stopping at the first row.
pub fn move_page_up(cursor: &mut CursorState, _grid: &GridShape, visible_rows: usize)
    ensures
        final(cursor).position.row == (if old(cursor).position.row >= visible_rows {
            old(cursor).position.row - visible_rows
        } else {
            0
        }),
        final(cursor).position.col == old(cursor).position.col,
        final(cursor).anchor == old(cursor).anchor,
{
    cursor.position.row = cursor.position.row.saturating_sub(visible_rows);
}

/// Moves the cursor a page of `visible_rows` down, stopping at the last row.
pub fn move_page_down(cursor: &mut CursorState, grid: &GridShape, visible_rows: usize)
    requires
        old(cursor).position.row + visible_rows <= usize::MAX,
    ensures
        ({
            let max_row = if grid.rows@.len() > 0 { grid.rows@.len() - 1 } else { 0 };
            final(cursor).position.row == (if old(cursor).position.row + visible_rows < max_row {
                old(cursor).position.row + visible_rows
            } else {
                max_row
            })
        }),
        final(cursor).position.col == old(cursor).position.col,
        final(cursor).anchor == old(cursor).anchor,
{
    let n = grid.row_count();
    let max_row = if n > 0 {
        n - 1
    } else {
        0
    };
    let next = cursor.position.row + visible_rows;
    cursor.position.row = if next < max_row {
        next
    } else {
        max_row
    };
}

/// The next cell in reading order within columns `0..=max_col` and rows
/// `0..=max_row`: right, else the start of the next row, else unchanged.
pub open spec fn tabbed(p: CellAddr, max_col: int, max_row: int) -> CellAddr {
    if p.col < max_col {
        CellAddr { col: (p.col + 1) as usize, row: p.row }
    } else if p.row < max_row {
        CellAddr { col: 0, row: (p.row + 1) as usize }
    } else {
        p
    }
}

/// The previous cell in reading order: left, else the last column of the
/// previous row, else unchanged.
pub open spec fn tabbed_back(p: CellAddr, max_col: int) -> CellAddr {
    if p.col > 0 {
        CellAddr { col: (p.col - 1) as usize, row: p.row }
    } else if p.row > 0 {
        CellAddr { col: max_col as usize, row: (p.row - 1) as usize }
    } else {
        p
    }
}

/// Tab back undoes Tab: from any cell of the grid but the last, moving to
/// the next cell and back returns to it.
pub proof fn lemma_tab_back_undoes_tab(p: CellAddr, max_col: usize, max_row: usize)
    requires
        p.col <= max_col,
        p.row <= max_row,
        !(p.col == max_col && p.row == max_row),
    ensures
        tabbed_back(tabbed(p, max_col as int, max_row as int), max_col as int) == p,
{
}

/// Moves the cursor to the next cell in reading order: right, or to the
/// start of the next row at the last column; nothing at the last cell.
pub fn move_tab(cursor: &mut CursorState, grid: &GridShape)
    ensures
        ({
            let cc = max_row_len(shape_rows(*grid));
            let max_col = if cc > 0 { cc - 1 } else { 0 };
            let max_row = if grid.rows@.len() > 0 { grid.rows@.len() - 1 } else { 0 };
            final(cursor).position == tabbed(old(cursor).position, max_col, max_row)
        }),
        final(cursor).anchor == old(cursor).anchor,
{
    let cc = grid.col_count();
    let rc = grid.row_count();
    let max_col = if cc > 0 {
        cc - 1
    } else {
        0
    };
    let max_row = if rc > 0 {
        rc - 1
    } else {
        0
    };
    if cursor.position.col < max_col {
        cursor.position.col = cursor.position.col + 1;
    } else if cursor.position.row < max_row {
        cursor.position.col = 0;
        cursor.position.row = cursor.position.row + 1;
    }
}

/// Moves the cursor to the previous cell in reading order: left, or to the
/// last column of the previous row at the first column; nothing at A1.
pub fn move_tab_back(cursor: &mut CursorState, grid: &GridShape)
    ensures
        ({
            let cc = max_row_len(shape_rows(*grid));
            let max_col = if cc > 0 { cc - 1 } else { 0 };
            final(cursor).position == tabbed_back(old(cursor).position, max_col)
        }),
        final(cursor).anchor == old(cursor).anchor,
{
    let cc = grid.col_count();
    let max_col = if cc > 0 {
        cc - 1
    } else {
        0
    };
    if cursor.position.col > 0 {
        cursor.position.col = cursor.position.col - 1;
    } else if cursor.position.row > 0 {
        cursor.position.col = max_col;
        cursor.position.row = cursor.position.row - 1;
    }
}
} // verus!
