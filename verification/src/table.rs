//! A scrollable data table with automatic column sizing.
use vstd::prelude::*;
use crate::text::{blen, string_byte_len, byte_len, push_str, chars_of, string_of, string_of_range, byte_offset,
    char_len_utf8, lemma_offset_step};

verus! {

/// `x` kept within `[lo, hi]`, as `Ord::clamp` computes it when `lo <= hi`.
pub open spec fn clamp16(x: u16, lo: u16, hi: u16) -> u16 {
    if x < lo { lo } else if x > hi { hi } else { x }
}

/// The width one text contributes to its column: its byte length, cut to
/// `u16` as `as u16` does, then clamped.
pub open spec fn text_width(s: Seq<char>, lo: u16, hi: u16) -> u16 {
    clamp16(blen(s) as u16, lo, hi)
}

/// Width of column `c` considering its header and the first `k` rows.
pub open spec fn column_width_upto(
    columns: Seq<Seq<char>>,
    rows: Seq<Seq<Seq<char>>>,
    c: int,
    k: int,
    lo: u16,
    hi: u16,
) -> u16
    decreases k,
{
    if k <= 0 {
        text_width(columns[c], lo, hi)
    } else {
        let prev = column_width_upto(columns, rows, c, k - 1, lo, hi);
        if c < rows[k - 1].len() {
            let w = text_width(rows[k - 1][c], lo, hi);
            if prev >= w { prev } else { w }
        } else {
            prev
        }
    }
}

/// The widths `calculate_column_widths` computes: one per header, the widest
/// clamped width among the header and the row cells of that column.
pub open spec fn column_widths_spec(
    columns: Seq<Seq<char>>,
    rows: Seq<Seq<Seq<char>>>,
    lo: u16,
    hi: u16,
) -> Seq<u16> {
    Seq::new(columns.len(), |c: int| column_width_upto(columns, rows, c, rows.len() as int, lo, hi))
}

proof fn lemma_column_width_upto(
    columns: Seq<Seq<char>>,
    rows: Seq<Seq<Seq<char>>>,
    c: int,
    k: int,
    lo: u16,
    hi: u16,
)
    requires
        0 <= k <= rows.len(),
    ensures
        column_width_upto(columns, rows, c, k, lo, hi) >= text_width(columns[c], lo, hi),
        forall|r: int| 0 <= r < k && c < rows[r].len() ==> column_width_upto(columns, rows, c, k, lo, hi)
            >= text_width(#[trigger] rows[r][c], lo, hi),
        column_width_upto(columns, rows, c, k, lo, hi) == text_width(columns[c], lo, hi) || exists|r: int|
            0 <= r < k && c < rows[r].len() && column_width_upto(columns, rows, c, k, lo, hi) == text_width(
                #[trigger] rows[r][c],
                lo,
                hi,
            ),
    decreases k,
{
    if k > 0 {
        lemma_column_width_upto(columns, rows, c, k - 1, lo, hi);
        let prev = column_width_upto(columns, rows, c, k - 1, lo, hi);
        if c < rows[k - 1].len() {
            let w = text_width(rows[k - 1][c], lo, hi);
            if prev < w {
                assert(0 <= k - 1 < k && c < rows[k - 1].len() && column_width_upto(columns, rows, c, k, lo, hi)
                    == text_width(rows[k - 1][c], lo, hi));
            }
        }
    }
}

/// Each computed width is at least the clamped byte length of the header
/// and of every row's cell in that column, and equals one of them.
pub proof fn lemma_column_widths_cover(columns: Seq<Seq<char>>, rows: Seq<Seq<Seq<char>>>, lo: u16, hi: u16, c: int)
    requires
        0 <= c < columns.len(),
    ensures
        ({
            let w = column_widths_spec(columns, rows, lo, hi)[c];
            &&& w >= text_width(columns[c], lo, hi)
            &&& forall|r: int| 0 <= r < rows.len() && c < rows[r].len() ==> w >= text_width(#[trigger] rows[r][c], lo, hi)
            &&& (w == text_width(columns[c], lo, hi) || exists|r: int|
                0 <= r < rows.len() && c < rows[r].len() && w == text_width(#[trigger] rows[r][c], lo, hi))
        }),
{
    lemma_column_width_upto(columns, rows, c, rows.len() as int, lo, hi);
}

/// Whether cell `c` of row `r` is wider (in bytes, cut to `u16`) than its column.
pub open spec fn cell_too_wide(rows: Seq<Seq<Seq<char>>>, widths: Seq<u16>, r: int, c: int) -> bool {
    0 <= r < rows.len() && 0 <= c < rows[r].len() && c < widths.len()
        && (blen(rows[r][c]) as u16) > widths[c]
}

/// Whether some cell is wider than its column.
pub open spec fn any_truncated(rows: Seq<Seq<Seq<char>>>, widths: Seq<u16>) -> bool {
    exists|r: int, c: int| #[trigger] cell_too_wide(rows, widths, r, c)
}

fn clamp_u16(x: u16, lo: u16, hi: u16) -> (r: u16)
    requires
        lo <= hi,
    ensures
        r == clamp16(x, lo, hi),
{
    if x < lo {
        lo
    } else if x > hi {
        hi
    } else {
        x
    }
}

/// Calculate column widths: for each header, the widest clamped byte length
/// among the header and the cells of that column.
pub fn calculate_column_widths(columns: &[String], rows: &[Vec<String>], min_width: u16, max_width: u16) -> (widths: Vec<u16>)
    requires
        min_width <= max_width || columns@.len() == 0,
    ensures
        widths@ == column_widths_spec(columns.deep_view(), rows.deep_view(), min_width, max_width),
{
    let ghost cols = columns.deep_view();
    let ghost rs = rows.deep_view();
    let mut widths: Vec<u16> = Vec::new();
    let mut c: usize = 0;
    while c < columns.len()
        invariant
            c <= columns@.len(),
            cols == columns.deep_view(),
            min_width <= max_width || columns@.len() == 0,
            widths@.len() == c,
            forall|j: int| 0 <= j < c ==> widths@[j] == column_width_upto(cols, rs, j, 0, min_width, max_width),
        decreases columns@.len() - c,
    {
        let w = clamp_u16(string_byte_len(&columns[c]) as u16, min_width, max_width);
        widths.push(w);
        c += 1;
    }
    let mut r: usize = 0;
    while r < rows.len()
        invariant
            r <= rows@.len(),
            cols == columns.deep_view(),
            rs == rows.deep_view(),
            min_width <= max_width || columns@.len() == 0,
            widths@.len() == columns@.len(),
            forall|j: int| 0 <= j < widths@.len() ==> widths@[j] == column_width_upto(cols, rs, j, r as int, min_width, max_width),
        decreases rows@.len() - r,
    {
        let row = &rows[r];
        let mut c: usize = 0;
        while c < row.len()
            invariant
                r < rows@.len(),
                row == rows@[r as int],
                c <= row@.len(),
                cols == columns.deep_view(),
                rs == rows.deep_view(),
                min_width <= max_width || columns@.len() == 0,
                widths@.len() == columns@.len(),
                forall|j: int| 0 <= j < widths@.len() ==> widths@[j] == (if j < c {
                    column_width_upto(cols, rs, j, r + 1, min_width, max_width)
                } else {
                    column_width_upto(cols, rs, j, r as int, min_width, max_width)
                }),
            decreases row@.len() - c,
        {
            if c < widths.len() {
                let cw = clamp_u16(string_byte_len(&row[c]) as u16, min_width, max_width);
                let old_w = widths[c];
                let nw = if old_w >= cw { old_w } else { cw };
                widths.set(c, nw);
            }
            c += 1;
        }
        r += 1;
    }
    proof {
        assert(widths@ =~= column_widths_spec(cols, rs, min_width, max_width));
    }
    widths
}

/// Number of leading characters of `s`, counted from character `k` on, whose
/// UTF-8 bytes fit in `w`: the longest prefix that fits.
pub open spec fn fit_from(s: Seq<char>, w: int, k: int) -> int
    decreases s.len() - k,
{
    if 0 <= k < s.len() && byte_offset(s, k + 1) <= w { fit_from(s, w, k + 1) } else { k }
}

/// The text `truncate_cell` produces: the content when it fits; else the
/// suffix alone, cut to `max_width` characters, when it takes the whole
/// width; else the longest run of whole leading characters that leaves room
/// for the suffix, then the suffix.
pub open spec fn truncated_text(content: Seq<char>, max_width: u16, suffix: Seq<char>) -> Seq<char> {
    if blen(content) <= max_width as usize {
        content
    } else if max_width <= blen(suffix) as u16 {
        if max_width as int <= suffix.len() { suffix.take(max_width as int) } else { suffix }
    } else {
        content.take(fit_from(content, max_width as usize - blen(suffix), 0)) + suffix
    }
}

/// The width left for content after the suffix does not underflow (it could
/// only for a suffix of 65536 bytes or more, whose length wraps as a `u16`).
pub open spec fn truncation_ok(content: Seq<char>, max_width: u16, suffix: Seq<char>) -> bool {
    blen(content) <= max_width as usize || max_width <= blen(suffix) as u16 || blen(suffix) <= max_width as usize
}

/// Truncate cell content to fit within the specified width (in bytes), ending
/// with `suffix` when something was cut; the cut falls between characters.
pub fn truncate_cell(content: &str, max_width: u16, suffix: &str) -> (r: String)
    requires
        truncation_ok(content@, max_width, suffix@),
    ensures
        r@ == truncated_text(content@, max_width, suffix@),
{
    if byte_len(content) <= max_width as usize {
        content.to_owned()
    } else if max_width <= byte_len(suffix) as u16 {
        let sv = chars_of(suffix);
        let n: usize = if (max_width as usize) <= sv.len() { max_width as usize } else { sv.len() };
        let mut out: Vec<char> = Vec::new();
        let mut i: usize = 0;
        while i < n
            invariant
                n <= sv@.len(),
                i <= n,
                out@ == sv@.take(i as int),
            decreases n - i,
        {
            out.push(sv[i]);
            assert(sv@.take(i as int).push(sv@[i as int]) =~= sv@.take(i + 1));
            i += 1;
        }
        proof {
            if max_width as int > sv@.len() {
                assert(sv@.take(n as int) =~= sv@);
            }
        }
        string_of(&out)
    } else {
        let w: usize = max_width as usize - byte_len(suffix);
        let v = chars_of(content);
        let mut k: usize = 0;
        let mut b: usize = 0;
        assert(content@.take(0) =~= Seq::<char>::empty());
        while k < v.len() && b + char_len_utf8(v[k]) <= w
            invariant
                v@ == content@,
                k <= v@.len(),
                b == byte_offset(v@, k as int),
                b <= w <= u16::MAX,
                fit_from(v@, w as int, 0) == fit_from(v@, w as int, k as int),
            decreases v@.len() - k,
        {
            proof { lemma_offset_step(v@, k as int); }
            b = b + char_len_utf8(v[k]);
            k += 1;
        }
        proof {
            if k < v@.len() {
                lemma_offset_step(v@, k as int);
            }
        }
        let mut s = string_of_range(v.as_slice(), 0, k);
        assert(v@.subrange(0, k as int) =~= content@.take(k as int));
        push_str(&mut s, suffix);
        s
    }
}

/// Summary of a table for info bars.
#[derive(Debug, Clone)]
pub struct DataTableInfo {
    pub row_count: usize,
    pub column_count: usize,
    pub is_truncated: bool,
    pub extra: Vec<(String, String)>,
}

/// The columns `get_visible_columns` lists, starting at column `i` with
/// `used` width already taken (`any`: whether a column was already listed).
pub open spec fn visible_from(names: Seq<Seq<char>>, widths: Seq<u16>, i: int, used: int, any: bool, avail: int) -> Seq<(Seq<char>, u16)>
    decreases names.len() - i,
{
    if i < 0 || i >= names.len() {
        seq![]
    } else {
        let needed = widths[i] + if any { 1int } else { 0int };
        if used + needed <= avail {
            seq![(names[i], widths[i])] + visible_from(names, widths, i + 1, used + needed, true, avail)
        } else {
            seq![]
        }
    }
}

/// Whether listing the visible columns stays within `u16` arithmetic.
pub open spec fn visible_fits_u16(names: Seq<Seq<char>>, widths: Seq<u16>, i: int, used: int, any: bool, avail: int) -> bool
    decreases names.len() - i,
{
    if i < 0 || i >= names.len() {
        true
    } else {
        let needed = widths[i] + if any { 1int } else { 0int };
        &&& needed <= u16::MAX
        &&& used + needed <= u16::MAX
        &&& (used + needed <= avail ==> visible_fits_u16(names, widths, i + 1, used + needed, true, avail))
    }
}

/// A scrollable data table with automatic column sizing.
#[derive(Debug, Clone)]
pub struct DataTable {
    columns: Vec<String>,
    rows: Vec<Vec<String>>,
    column_widths: Vec<u16>,
    selected_row: usize,
    scroll_col: usize,
    max_cell_width: u16,
    min_cell_width: u16,
}

impl DataTable {
    pub closed spec fn columns_view(&self) -> Seq<Seq<char>> {
        self.columns.deep_view()
    }

    pub closed spec fn rows_view(&self) -> Seq<Seq<Seq<char>>> {
        self.rows.deep_view()
    }

    pub closed spec fn widths_view(&self) -> Seq<u16> {
        self.column_widths@
    }

    pub closed spec fn selected(&self) -> usize {
        self.selected_row
    }

    pub closed spec fn scroll(&self) -> usize {
        self.scroll_col
    }

    pub closed spec fn max_width(&self) -> u16 {
        self.max_cell_width
    }

    pub closed spec fn min_width(&self) -> u16 {
        self.min_cell_width
    }

    /// Same data, widths and limits (selection and scroll may differ).
    pub open spec fn same_data(&self, other: &DataTable) -> bool {
        &&& self.columns_view() == other.columns_view()
        &&& self.rows_view() == other.rows_view()
        &&& self.widths_view() == other.widths_view()
        &&& self.max_width() == other.max_width()
        &&& self.min_width() == other.min_width()
    }

    /// The column widths always match the data and the width limits.
    pub open spec fn wf(&self) -> bool {
        self.widths_view() == column_widths_spec(self.columns_view(), self.rows_view(), self.min_width(), self.max_width())
    }

    /// Create a table; widths are computed with limits 5 and 40.
    pub fn new(columns: Vec<String>, rows: Vec<Vec<String>>) -> (t: Self)
        ensures
            t.wf(),
            t.columns_view() == columns.deep_view(),
            t.rows_view() == rows.deep_view(),
            t.selected() == 0,
            t.scroll() == 0,
            t.max_width() == 40,
            t.min_width() == 5,
    {
        let max_cell_width: u16 = 40;
        let min_cell_width: u16 = 5;
        let column_widths = calculate_column_widths(columns.as_slice(), rows.as_slice(), min_cell_width, max_cell_width);
        DataTable { columns, rows, column_widths, selected_row: 0, scroll_col: 0, max_cell_width, min_cell_width }
    }

    fn recalculate_widths(&mut self)
        requires
            old(self).min_width() <= old(self).max_width() || old(self).columns_view().len() == 0,
        ensures
            final(self).wf(),
            final(self).columns_view() == old(self).columns_view(),
            final(self).rows_view() == old(self).rows_view(),
            final(self).selected() == old(self).selected(),
            final(self).scroll() == old(self).scroll(),
            final(self).max_width() == old(self).max_width(),
            final(self).min_width() == old(self).min_width(),
    {
        self.column_widths = calculate_column_widths(self.columns.as_slice(), self.rows.as_slice(), self.min_cell_width, self.max_cell_width);
    }

    /// Set the maximum cell width and recompute the widths.
    pub fn with_max_cell_width(self, width: u16) -> (t: Self)
        requires
            self.min_width() <= width || self.columns_view().len() == 0,
        ensures
            t.wf(),
            t.max_width() == width,
            t.min_width() == self.min_width(),
            t.columns_view() == self.columns_view(),
            t.rows_view() == self.rows_view(),
            t.selected() == self.selected(),
            t.scroll() == self.scroll(),
    {
        let mut t = self;
        t.max_cell_width = width;
        t.recalculate_widths();
        t
    }

    /// Set the minimum cell width and recompute the widths.
    pub fn with_min_cell_width(self, width: u16) -> (t: Self)
        requires
            width <= self.max_width() || self.columns_view().len() == 0,
        ensures
            t.wf(),
            t.min_width() == width,
            t.max_width() == self.max_width(),
            t.columns_view() == self.columns_view(),
            t.rows_view() == self.rows_view(),
            t.selected() == self.selected(),
            t.scroll() == self.scroll(),
    {
        let mut t = self;
        t.min_cell_width = width;
        t.recalculate_widths();
        t
    }

    /// Replace the data, reset selection and scroll, recompute widths.
    pub fn set_data(&mut self, columns: Vec<String>, rows: Vec<Vec<String>>)
        requires
            old(self).min_width() <= old(self).max_width() || columns@.len() == 0,
        ensures
            final(self).wf(),
            final(self).columns_view() == columns.deep_view(),
            final(self).rows_view() == rows.deep_view(),
            final(self).selected() == 0,
            final(self).scroll() == 0,
            final(self).max_width() == old(self).max_width(),
            final(self).min_width() == old(self).min_width(),
    {
        self.columns = columns;
        self.rows = rows;
        self.selected_row = 0;
        self.scroll_col = 0;
        self.recalculate_widths();
    }

    pub fn select_next(&mut self)
        ensures
            final(self).same_data(old(self)),
            final(self).scroll() == old(self).scroll(),
            final(self).selected() == if old(self).rows_view().len() == 0 { old(self).selected() } else if old(self).selected() + 1 <= old(self).rows_view().len() - 1 { (old(self).selected() + 1) as usize } else { (old(self).rows_view().len() - 1) as usize },
    {
        if self.rows.len() > 0 {
            let last = self.rows.len() - 1;
            self.selected_row = if self.selected_row < last { self.selected_row + 1 } else { last };
        }
    }

    pub fn select_prev(&mut self)
        ensures
            final(self).same_data(old(self)),
            final(self).scroll() == old(self).scroll(),
            final(self).selected() == if old(self).selected() > 0 { (old(self).selected() - 1) as usize } else { 0 },
    {
        if self.selected_row > 0 {
            self.selected_row = self.selected_row - 1;
        }
    }

    pub fn select_first(&mut self)
        ensures
            final(self).same_data(old(self)),
            final(self).scroll() == old(self).scroll(),
            final(self).selected() == 0,
    {
        self.selected_row = 0;
    }

    pub fn select_last(&mut self)
        ensures
            final(self).same_data(old(self)),
            final(self).scroll() == old(self).scroll(),
            final(self).selected() == if old(self).rows_view().len() == 0 { old(self).selected() } else { (old(self).rows_view().len() - 1) as usize },
    {
        if self.rows.len() > 0 {
            self.selected_row = self.rows.len() - 1;
        }
    }

    pub fn scroll_right(&mut self)
        ensures
            final(self).same_data(old(self)),
            final(self).selected() == old(self).selected(),
            final(self).scroll() == if old(self).columns_view().len() > 0 && old(self).scroll() < old(self).columns_view().len() - 1 { (old(self).scroll() + 1) as usize } else { old(self).scroll() },
    {
        let last = if self.columns.len() > 0 { self.columns.len() - 1 } else { 0 };
        if self.scroll_col < last {
            self.scroll_col = self.scroll_col + 1;
        }
    }

    pub fn scroll_left(&mut self)
        ensures
            final(self).same_data(old(self)),
            final(self).selected() == old(self).selected(),
            final(self).scroll() == if old(self).scroll() > 0 { (old(self).scroll() - 1) as usize } else { 0 },
    {
        if self.scroll_col > 0 {
            self.scroll_col = self.scroll_col - 1;
        }
    }

    /// The selected row's cells, if the selection is inside the data.
    pub fn selected_row(&self) -> (r: Option<&[String]>)
        ensures
            match r {
                Some(row) => self.selected() < self.rows_view().len() && row.deep_view() == self.rows_view()[self.selected() as int],
                None => self.selected() >= self.rows_view().len(),
            },
    {
        if self.selected_row < self.rows.len() {
            Some(self.rows[self.selected_row].as_slice())
        } else {
            None
        }
    }

    pub fn selected_index(&self) -> (r: usize)
        ensures
            r == self.selected(),
    {
        self.selected_row
    }

    pub fn scroll_col(&self) -> (r: usize)
        ensures
            r == self.scroll(),
    {
        self.scroll_col
    }

    pub fn row_count(&self) -> (r: usize)
        ensures
            r == self.rows_view().len(),
    {
        self.rows.len()
    }

    pub fn column_count(&self) -> (r: usize)
        ensures
            r == self.columns_view().len(),
    {
        self.columns.len()
    }

    pub fn is_empty(&self) -> (r: bool)
        ensures
            r == (self.rows_view().len() == 0),
    {
        self.rows.len() == 0
    }

    /// The header texts.
    pub fn columns(&self) -> (r: &[String])
        ensures
            r.deep_view() == self.columns_view(),
    {
        self.columns.as_slice()
    }

    /// The data rows.
    pub fn rows(&self) -> (r: &[Vec<String>])
        ensures
            r.deep_view() == self.rows_view(),
    {
        self.rows.as_slice()
    }

    /// The computed column widths.
    pub fn column_widths(&self) -> (r: &[u16])
        ensures
            r@ == self.widths_view(),
    {
        self.column_widths.as_slice()
    }

    /// The columns, from the scroll position on, that fit side by side
    /// (one column of spacing between them) within `available_width`.
    pub fn get_visible_columns(&self, available_width: u16) -> (visible: Vec<(String, u16)>)
        requires
            self.wf(),
            visible_fits_u16(self.columns_view(), self.widths_view(), self.scroll() as int, 0, false, available_width as int),
        ensures
            visible.deep_view() == visible_from(self.columns_view(), self.widths_view(), self.scroll() as int, 0, false, available_width as int),
    {
        let ghost names = self.columns.deep_view();
        let ghost ws = self.column_widths@;
        let ghost avail = available_width as int;
        let mut visible: Vec<(String, u16)> = Vec::new();
        let mut used: u16 = 0;
        let mut i: usize = self.scroll_col;
        if i >= self.columns.len() {
            return visible;
        }
        while i < self.columns.len()
            invariant_except_break
                self.scroll_col <= i <= self.columns@.len(),
                ws.len() == names.len(),
                names == self.columns.deep_view(),
                ws == self.column_widths@,
                avail == available_width as int,
                visible_fits_u16(names, ws, i as int, used as int, visible@.len() > 0, avail),
                visible.deep_view() + visible_from(names, ws, i as int, used as int, visible@.len() > 0, avail)
                    == visible_from(names, ws, self.scroll_col as int, 0, false, avail),
            ensures
                visible.deep_view() == visible_from(names, ws, self.scroll_col as int, 0, false, avail),
            decreases self.columns@.len() - i,
        {
            assert(names.len() == self.columns@.len());
            assert(visible.deep_view().len() == visible@.len());
            let w = self.column_widths[i];
            let sep: u16 = if visible.len() == 0 { 0 } else { 1 };
            let needed = w + sep;
            if used + needed <= available_width {
                let ghost before = visible.deep_view();
                assert(visible_from(names, ws, i as int, used as int, before.len() > 0, avail)
                    == seq![(names[i as int], ws[i as int])] + visible_from(names, ws, i + 1, used + needed, true, avail));
                visible.push((self.columns[i].clone(), w));
                proof {
                    assert(visible.deep_view() =~= before.push((names[i as int], w)));
                    assert(before.push((names[i as int], w)) + visible_from(names, ws, i + 1, used + needed, true, avail)
                        =~= before + visible_from(names, ws, i as int, used as int, before.len() > 0, avail));
                }
                used = used + needed;
                i += 1;
            } else {
                proof {
                    assert(visible_from(names, ws, i as int, used as int, visible@.len() > 0, avail) =~= seq![]);
                    assert(visible.deep_view() + visible_from(names, ws, i as int, used as int, visible@.len() > 0, avail) =~= visible.deep_view());
                }
                break;
            }
        }
        proof {
            if i >= self.columns.len() {
            }
        }
        visible
    }

    /// Remove all data and reset selection and scroll.
    pub fn clear(&mut self)
        requires
            old(self).wf(),
        ensures
            final(self).wf(),
            final(self).columns_view().len() == 0,
            final(self).rows_view().len() == 0,
            final(self).widths_view().len() == 0,
            final(self).selected() == 0,
            final(self).scroll() == 0,
            final(self).max_width() == old(self).max_width(),
            final(self).min_width() == old(self).min_width(),
    {
        self.columns.clear();
        self.rows.clear();
        self.column_widths.clear();
        self.selected_row = 0;
        self.scroll_col = 0;
        proof {
            assert(self.columns.deep_view() =~= Seq::<Seq<char>>::empty());
            assert(self.widths_view() =~= column_widths_spec(self.columns_view(), self.rows_view(), self.min_width(), self.max_width()));
        }
    }

    /// Counts and whether some cell is wider than its column.
    pub fn info(&self) -> (r: DataTableInfo)
        ensures
            r.row_count == self.rows_view().len(),
            r.column_count == self.columns_view().len(),
            r.is_truncated == any_truncated(self.rows_view(), self.widths_view()),
            r.extra@.len() == 0,
    {
        let ghost rs = self.rows.deep_view();
        let ghost ws = self.column_widths@;
        let mut is_truncated = false;
        let mut r: usize = 0;
        while r < self.rows.len()
            invariant
                r <= self.rows@.len(),
                rs == self.rows.deep_view(),
                ws == self.column_widths@,
                is_truncated == exists|r2: int, c: int| r2 < r && #[trigger] cell_too_wide(rs, ws, r2, c),
            decreases self.rows@.len() - r,
        {
            let row = &self.rows[r];
            let mut c: usize = 0;
            let mut found = false;
            while c < row.len()
                invariant
                    r < self.rows@.len(),
                    row == self.rows@[r as int],
                    rs == self.rows.deep_view(),
                    ws == self.column_widths@,
                    c <= row@.len(),
                    found == exists|c2: int| c2 < c && #[trigger] cell_too_wide(rs, ws, r as int, c2),
                decreases row@.len() - c,
            {
                if c < self.column_widths.len() && (string_byte_len(&row[c]) as u16) > self.column_widths[c] {
                    found = true;
                    assert(cell_too_wide(rs, ws, r as int, c as int));
                }
                c += 1;
            }
            proof {
                if found {
                    let c2 = choose|c2: int| c2 < row@.len() && #[trigger] cell_too_wide(rs, ws, r as int, c2);
                    assert(cell_too_wide(rs, ws, r as int, c2));
                }
                if !found && !is_truncated {
                    assert forall|r2: int, c2: int| r2 < r + 1 implies !#[trigger] cell_too_wide(rs, ws, r2, c2) by {
                        if r2 == r && cell_too_wide(rs, ws, r2, c2) {
                            assert(c2 < row@.len());
                        }
                    }
                }
            }
            is_truncated = is_truncated || found;
            r += 1;
        }
        proof {
            if is_truncated {
                let (r2, c2) = choose|r2: int, c2: int| r2 < self.rows@.len() && #[trigger] cell_too_wide(rs, ws, r2, c2);
                assert(cell_too_wide(rs, ws, r2, c2));
            }
        }
        DataTableInfo {
            row_count: self.rows.len(),
            column_count: self.columns.len(),
            is_truncated,
            extra: Vec::new(),
        }
    }
}

} // verus!
