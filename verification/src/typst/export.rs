//! Typst markup for a grid of terminal cells: one boxed, colored character
//! per cell, rows separated by line breaks, after a prelude that sets up the
//! page, the font and the cell size.
use vstd::prelude::*;
use crate::typst::color::{
    TermColor, RgbColor, rgb_or_default, color_or_default, default_text_color, typst_rgb,
    typst_color,
};
use crate::text::{push_char, push_str, chars_of, str_eq, is_ws, char_is_whitespace};
use crate::selection::{display_width, str_display_width};

verus! {

/// Modifier bit of bold text.
pub const BOLD: u16 = 0x1;
/// Modifier bit of italic text.
pub const ITALIC: u16 = 0x4;
/// Modifier bit of underlined text.
pub const UNDERLINED: u16 = 0x8;
/// Modifier bit of reversed foreground and background.
pub const REVERSED: u16 = 0x40;
/// Modifier bit of hidden text.
pub const HIDDEN: u16 = 0x80;
/// Modifier bit of crossed-out text.
pub const CROSSED_OUT: u16 = 0x100;

/// One terminal cell: its symbol, its colors and its modifier bits.
#[derive(Debug, Clone)]
pub struct ExportCell {
    pub symbol: String,
    pub fg: TermColor,
    pub bg: TermColor,
    pub modifier: u16,
}

/// A rectangle of cells, stored row by row.
#[derive(Debug, Clone)]
pub struct CellGrid {
    pub width: u16,
    pub height: u16,
    pub cells: Vec<ExportCell>,
}

/// Options that decide how cells are rendered.
#[derive(Debug, Clone, Copy)]
pub struct CellExportOptions {
    /// Foreground color used for cells whose foreground is `Reset`.
    pub default_fg: TermColor,
    /// Background color used for cells whose background is `Reset`.
    pub default_bg: TermColor,
    /// Whether trailing blank cells are left out of each row.
    pub trim_trailing_blank_cells: bool,
}

impl Default for CellExportOptions {
    fn default() -> (o: Self)
        ensures
            o.default_fg == TermColor::Rgb(220, 220, 220),
            o.default_bg == TermColor::Reset,
            o.trim_trailing_blank_cells,
    {
        CellExportOptions {
            default_fg: TermColor::Rgb(220, 220, 220),
            default_bg: TermColor::Reset,
            trim_trailing_blank_cells: true,
        }
    }
}

/// The text of the document prelude: the font family and the dimensions,
/// already written out with their units.
#[derive(Debug, Clone)]
pub struct TypstPrelude {
    pub font_family: String,
    pub page_margin: String,
    pub font_size: String,
    pub leading: String,
    pub cell_width: String,
    pub cell_height: String,
}

/// Colors and text attributes with which a cell is drawn.
#[derive(Debug, Clone, Copy)]
pub struct EffectiveCellStyle {
    pub fg: RgbColor,
    pub bg: Option<RgbColor>,
    pub bold: bool,
    pub italic: bool,
    pub underlined: bool,
    pub crossed_out: bool,
}

pub open spec fn has_mod(modifier: u16, bit: u16) -> bool {
    modifier & bit != 0
}

/// The style of a cell: the default colors stand in for `Reset`, and a
/// reversed cell swaps foreground and background.
pub open spec fn effective_style(cell: ExportCell, o: CellExportOptions) -> EffectiveCellStyle {
    let fg0 = match rgb_or_default(cell.fg, o.default_fg) {
        Some(c) => c,
        None => default_text_color(),
    };
    let bg0 = rgb_or_default(cell.bg, o.default_bg);
    let rev = has_mod(cell.modifier, REVERSED);
    EffectiveCellStyle {
        fg: if rev {
            match bg0 {
                Some(c) => c,
                None => default_text_color(),
            }
        } else {
            fg0
        },
        bg: if rev { Some(fg0) } else { bg0 },
        bold: has_mod(cell.modifier, BOLD),
        italic: has_mod(cell.modifier, ITALIC),
        underlined: has_mod(cell.modifier, UNDERLINED),
        crossed_out: has_mod(cell.modifier, CROSSED_OUT),
    }
}

/// Control characters (general category `Cc`), which `char::is_control` tests.
pub open spec fn is_cc(c: char) -> bool {
    (c as u32) <= 0x1F || (0x7F <= (c as u32) && (c as u32) <= 0x9F)
}

/// A symbol with each control character replaced by a space.
pub open spec fn sanitized(s: Seq<char>) -> Seq<char> {
    s.map_values(|c: char| if is_cc(c) { ' ' } else { c })
}

/// What a cell shows: a space when hidden, else its sanitized symbol.
pub open spec fn shown_symbol(cell: ExportCell) -> Seq<char> {
    if has_mod(cell.modifier, HIDDEN) {
        seq![' ']
    } else {
        sanitized(cell.symbol@)
    }
}

/// Columns a shown symbol covers: its display width, at least one.
pub open spec fn shown_width(sym: Seq<char>) -> int {
    if display_width(sym) == 0 { 1 } else { display_width(sym) as int }
}

/// The escape of one character inside a Typst string literal.
pub open spec fn escape_char(c: char) -> Seq<char> {
    if c == '\\' {
        seq!['\\', '\\']
    } else if c == '"' {
        seq!['\\', '"']
    } else if c == '\n' {
        seq!['\\', 'n']
    } else if c == '\r' {
        seq!['\\', 'r']
    } else if c == '\t' {
        seq!['\\', 't']
    } else {
        seq![c]
    }
}

/// A text escaped for a Typst string literal, character by character.
pub open spec fn escaped(s: Seq<char>) -> Seq<char>
    decreases s.len(),
{
    if s.len() == 0 {
        Seq::empty()
    } else {
        escaped(s.drop_last()) + escape_char(s.last())
    }
}

/// Styled text of a cell: `#text(..)[#raw("..")]`, wrapped in an underline
/// and a strike when the style asks for them.
pub open spec fn styled_text(st: EffectiveCellStyle, sym: Seq<char>) -> Seq<char> {
    let t = "#text(fill: "@ + typst_rgb(st.fg) + (if st.bold {
        ", weight: \"bold\""@
    } else {
        Seq::empty()
    }) + (if st.italic {
        ", style: \"italic\""@
    } else {
        Seq::empty()
    }) + ")[#raw(\""@ + escaped(sym) + "\")]"@;
    let u = if st.underlined { "#underline["@ + t + "]"@ } else { t };
    if st.crossed_out { "#strike["@ + u + "]"@ } else { u }
}

/// Markup of one cell: a box of the cell's size, filled with the background
/// when there is one, holding the styled text.
pub open spec fn cell_markup(st: EffectiveCellStyle, sym: Seq<char>) -> Seq<char> {
    "#box(width: rat-cell-width, height: rat-cell-height"@ + (match st.bg {
        Some(b) => ", fill: "@ + typst_rgb(b),
        None => Seq::empty(),
    }) + ")["@ + styled_text(st, sym) + "]"@
}

/// A blank cell: a single space, reset colors, no modifier.
pub open spec fn trimmable(cell: ExportCell) -> bool {
    &&& cell.symbol@ == " "@
    &&& cell.fg == TermColor::Reset
    &&& cell.bg == TermColor::Reset
    &&& cell.modifier == 0
}

/// Length of the row without its trailing blank cells.
pub open spec fn last_kept(row: Seq<ExportCell>) -> int
    decreases row.len(),
{
    if row.len() == 0 {
        0
    } else if !trimmable(row.last()) {
        row.len() as int
    } else {
        last_kept(row.drop_last())
    }
}

/// Number of leading cells of a row that are rendered.
pub open spec fn visible_end(row: Seq<ExportCell>, trim: bool) -> int {
    if trim { last_kept(row) } else { row.len() as int }
}

/// Markup of the cells from `i` to `end`: each rendered cell is followed by
/// as many skipped cells as its symbol covers beyond the first column (up to
/// `end`).
pub open spec fn row_markup_from(row: Seq<ExportCell>, i: int, end: int, o: CellExportOptions) -> Seq<
    char,
>
    decreases end - i,
{
    if i >= end || i < 0 {
        Seq::empty()
    } else {
        let sym = shown_symbol(row[i]);
        let next = if i + shown_width(sym) < end { i + shown_width(sym) } else { end };
        cell_markup(effective_style(row[i], o), sym) + row_markup_from(row, next, end, o)
    }
}

/// Markup of one row of cells.
pub open spec fn row_markup(row: Seq<ExportCell>, o: CellExportOptions) -> Seq<char> {
    row_markup_from(row, 0, visible_end(row, o.trim_trailing_blank_cells), o)
}

/// Markup of the rows of `cells`, `width` cells each (the last row may be
/// shorter), each followed by a line break.
pub open spec fn rows_markup(cells: Seq<ExportCell>, width: int, o: CellExportOptions) -> Seq<char>
    decreases cells.len(),
{
    if cells.len() == 0 || width <= 0 {
        Seq::empty()
    } else {
        let k = if cells.len() < width { cells.len() as int } else { width };
        row_markup(cells.take(k), o) + "#linebreak()\n"@ + rows_markup(cells.skip(k), width, o)
    }
}

/// Markup of all rows of a grid; nothing when the grid has no width or no height.
pub open spec fn body_markup(grid: CellGrid, o: CellExportOptions) -> Seq<char> {
    if grid.width == 0 || grid.height == 0 {
        Seq::empty()
    } else {
        rows_markup(grid.cells@, grid.width as int, o)
    }
}

/// The document prelude: page margin, font, paragraph leading and the cell size.
pub open spec fn prelude_markup(p: TypstPrelude) -> Seq<char> {
    "// Typst document of a terminal buffer.\n"@ + "#set page(margin: "@ + p.page_margin@
        + ")\n"@ + "#set text(font: \""@ + escaped(p.font_family@) + "\", size: "@
        + p.font_size@ + ")\n"@ + "#set par(leading: "@ + p.leading@ + ")\n"@
        + "#let rat-cell-width = "@ + p.cell_width@ + "\n"@ + "#let rat-cell-height = "@
        + p.cell_height@ + "\n"@ + "\n"@
}

/// The whole document of a grid.
pub open spec fn document_markup(grid: CellGrid, p: TypstPrelude, o: CellExportOptions) -> Seq<
    char,
> {
    prelude_markup(p) + body_markup(grid, o)
}

/// `char::is_control`: whether a character is a control character.
pub fn char_is_control(c: char) -> (r: bool)
    ensures
        r == is_cc(c),
{
    let v = c as u32;
    v <= 0x1F || (0x7F <= v && v <= 0x9F)
}

/// Whether a font family name is empty or all whitespace.
pub fn font_family_is_blank(name: &str) -> (r: bool)
    ensures
        r == (forall|i: int| 0 <= i < name@.len() ==> is_ws(#[trigger] name@[i])),
{
    let v = chars_of(name);
    let mut i: usize = 0;
    while i < v.len()
        invariant
            i <= v.len(),
            v@ == name@,
            forall|j: int| 0 <= j < i ==> is_ws(#[trigger] name@[j]),
        decreases v.len() - i,
    {
        if !char_is_whitespace(v[i]) {
            return false;
        }
        i += 1;
    }
    true
}

/// The style with which a cell is drawn.
pub fn effective_cell_style(cell: &ExportCell, options: &CellExportOptions) -> (st:
    EffectiveCellStyle)
    ensures
        st == effective_style(*cell, *options),
{
    let mut fg = match color_or_default(cell.fg, options.default_fg) {
        Some(c) => c,
        None => RgbColor { red: 220, green: 220, blue: 220 },
    };
    let mut bg = color_or_default(cell.bg, options.default_bg);
    if cell.modifier & REVERSED != 0 {
        let reversed_fg = match bg {
            Some(c) => c,
            None => RgbColor { red: 220, green: 220, blue: 220 },
        };
        let reversed_bg = Some(fg);
        fg = reversed_fg;
        bg = reversed_bg;
    }
    EffectiveCellStyle {
        fg,
        bg,
        bold: cell.modifier & BOLD != 0,
        italic: cell.modifier & ITALIC != 0,
        underlined: cell.modifier & UNDERLINED != 0,
        crossed_out: cell.modifier & CROSSED_OUT != 0,
    }
}

/// A symbol with its control characters replaced by spaces.
pub fn sanitize_symbol(symbol: &str) -> (s: String)
    ensures
        s@ == sanitized(symbol@),
{
    let v = chars_of(symbol);
    let mut out = String::new();
    let mut i: usize = 0;
    while i < v.len()
        invariant
            i <= v.len(),
            v@ == symbol@,
            out@ == sanitized(symbol@.take(i as int)),
        decreases v.len() - i,
    {
        let c = v[i];
        if char_is_control(c) {
            push_char(&mut out, ' ');
        } else {
            push_char(&mut out, c);
        }
        assert(sanitized(symbol@.take(i as int)).push(if is_cc(c) { ' ' } else { c })
            =~= sanitized(symbol@.take(i + 1)));
        i += 1;
    }
    assert(symbol@.take(v.len() as int) =~= symbol@);
    out
}

/// What a cell shows.
pub fn display_symbol(cell: &ExportCell) -> (s: String)
    ensures
        s@ == shown_symbol(*cell),
{
    if cell.modifier & HIDDEN != 0 {
        let mut s = String::new();
        push_char(&mut s, ' ');
        assert(s@ =~= seq![' ']);
        return s;
    }
    sanitize_symbol(cell.symbol.as_str())
}

/// Columns a shown symbol covers, at least one.
pub fn symbol_width(symbol: &str) -> (w: usize)
    ensures
        w as int == shown_width(symbol@),
{
    let w = str_display_width(symbol);
    if w < 1 {
        1
    } else {
        w
    }
}

/// A text escaped for a Typst string literal.
pub fn escape_typst_string(input: &str) -> (s: String)
    ensures
        s@ == escaped(input@),
{
    let v = chars_of(input);
    let mut out = String::new();
    let mut i: usize = 0;
    while i < v.len()
        invariant
            i <= v.len(),
            v@ == input@,
            out@ == escaped(input@.take(i as int)),
        decreases v.len() - i,
    {
        let c = v[i];
        let ghost before = out@;
        if c == '\\' {
            push_char(&mut out, '\\');
            push_char(&mut out, '\\');
        } else if c == '"' {
            push_char(&mut out, '\\');
            push_char(&mut out, '"');
        } else if c == '\n' {
            push_char(&mut out, '\\');
            push_char(&mut out, 'n');
        } else if c == '\r' {
            push_char(&mut out, '\\');
            push_char(&mut out, 'r');
        } else if c == '\t' {
            push_char(&mut out, '\\');
            push_char(&mut out, 't');
        } else {
            push_char(&mut out, c);
        }
        assert(out@ =~= before + escape_char(c));
        assert(input@.take(i + 1).drop_last() =~= input@.take(i as int));
        i += 1;
    }
    assert(input@.take(v.len() as int) =~= input@);
    out
}

/// Whether a cell is blank: a single space, reset colors, no modifier.
pub fn is_trimmable_cell(cell: &ExportCell) -> (r: bool)
    ensures
        r == trimmable(*cell),
{
    str_eq(cell.symbol.as_str(), " ") && cell.fg == TermColor::Reset && cell.bg == TermColor::Reset
        && cell.modifier == 0
}

/// Number of leading cells of `cells[lo..hi]` that are rendered: all of them,
/// or, when trimming, those up to the last cell that is not blank.
pub fn visible_row_end(cells: &[ExportCell], lo: usize, hi: usize, trim: bool) -> (n: usize)
    requires
        lo <= hi <= cells@.len(),
    ensures
        n == visible_end(cells@.subrange(lo as int, hi as int), trim),
{
    let ghost row = cells@.subrange(lo as int, hi as int);
    if !trim {
        return hi - lo;
    }
    let mut i: usize = hi - lo;
    assert(row.take(i as int) =~= row);
    while i > 0
        invariant
            i <= hi - lo,
            lo <= hi <= cells@.len(),
            row == cells@.subrange(lo as int, hi as int),
            trim,
            last_kept(row) == last_kept(row.take(i as int)),
        decreases i,
    {
        assert(row.take(i as int).last() == cells@[lo + i - 1]);
        assert(row.take(i as int).drop_last() =~= row.take(i - 1));
        if !is_trimmable_cell(&cells[lo + i - 1]) {
            assert(row.take(i as int).len() == i);
            assert(last_kept(row.take(i as int)) == i as int);
            return i;
        }
        i -= 1;
    }
    assert(row.take(0) =~= Seq::<ExportCell>::empty());
    0
}

/// Appends the styled text of a cell to `out`.
fn push_styled_text(out: &mut String, st: &EffectiveCellStyle, symbol: &str)
    ensures
        final(out)@ == old(out)@ + styled_text(*st, symbol@),
{
    let mut content = String::new();
    push_str(&mut content, "#text(fill: ");
    let color = typst_color(st.fg);
    push_str(&mut content, color.as_str());
    if st.bold {
        push_str(&mut content, ", weight: \"bold\"");
    }
    if st.italic {
        push_str(&mut content, ", style: \"italic\"");
    }
    push_str(&mut content, ")[#raw(\"");
    let raw = escape_typst_string(symbol);
    push_str(&mut content, raw.as_str());
    push_str(&mut content, "\")]");
    let ghost t = "#text(fill: "@ + typst_rgb(st.fg) + (if st.bold {
        ", weight: \"bold\""@
    } else {
        Seq::empty()
    }) + (if st.italic {
        ", style: \"italic\""@
    } else {
        Seq::empty()
    }) + ")[#raw(\""@ + escaped(symbol@) + "\")]"@;
    assert(content@ =~= t);
    if st.underlined {
        let mut wrapped = String::new();
        push_str(&mut wrapped, "#underline[");
        push_str(&mut wrapped, content.as_str());
        push_str(&mut wrapped, "]");
        content = wrapped;
    }
    if st.crossed_out {
        let mut wrapped = String::new();
        push_str(&mut wrapped, "#strike[");
        push_str(&mut wrapped, content.as_str());
        push_str(&mut wrapped, "]");
        content = wrapped;
    }
    assert(content@ =~= styled_text(*st, symbol@));
    push_str(out, content.as_str());
}

/// Appends the markup of one cell, shown as `symbol`, to `output`.
pub fn write_cell(
    output: &mut String,
    cell: &ExportCell,
    symbol: &str,
    options: &CellExportOptions,
)
    ensures
        final(output)@ == old(output)@ + cell_markup(effective_style(*cell, *options), symbol@),
{
    let st = effective_cell_style(cell, options);
    push_str(output, "#box(width: rat-cell-width, height: rat-cell-height");
    let ghost after_box = output@;
    match st.bg {
        Some(background) => {
            push_str(output, ", fill: ");
            let color = typst_color(background);
            push_str(output, color.as_str());
        },
        None => {},
    }
    let ghost fill = match st.bg {
        Some(b) => ", fill: "@ + typst_rgb(b),
        None => Seq::<char>::empty(),
    };
    assert(output@ =~= after_box + fill);
    push_str(output, ")[");
    push_styled_text(output, &st, symbol);
    push_str(output, "]");
    assert(final(output)@ =~= old(output)@ + cell_markup(st, symbol@));
}

proof fn lemma_row_step(row: Seq<ExportCell>, i: int, end: int, o: CellExportOptions)
    requires
        0 <= i < end,
    ensures
        i + shown_width(shown_symbol(row[i])) < end ==> row_markup_from(row, i, end, o)
            == cell_markup(effective_style(row[i], o), shown_symbol(row[i])) + row_markup_from(
            row,
            i + shown_width(shown_symbol(row[i])),
            end,
            o,
        ),
        i + shown_width(shown_symbol(row[i])) >= end ==> row_markup_from(row, i, end, o)
            == cell_markup(effective_style(row[i], o), shown_symbol(row[i])),
{
    let m = cell_markup(effective_style(row[i], o), shown_symbol(row[i]));
    assert(row_markup_from(row, end, end, o) == Seq::<char>::empty());
    assert(m + Seq::<char>::empty() =~= m);
}

/// Appends the markup of the row `cells[lo..hi]` to `output`.
pub fn write_row(
    output: &mut String,
    cells: &[ExportCell],
    lo: usize,
    hi: usize,
    options: &CellExportOptions,
)
    requires
        lo <= hi <= cells@.len(),
    ensures
        final(output)@ == old(output)@ + row_markup(cells@.subrange(lo as int, hi as int), *options),
{
    let ghost row = cells@.subrange(lo as int, hi as int);
    let end = visible_row_end(cells, lo, hi, options.trim_trailing_blank_cells);
    proof {
        if options.trim_trailing_blank_cells {
            lemma_last_kept_bounds(row);
        }
    }
    let mut i: usize = 0;
    while i < end
        invariant
            i <= end <= hi - lo,
            lo <= hi <= cells@.len(),
            row == cells@.subrange(lo as int, hi as int),
            end == visible_end(row, options.trim_trailing_blank_cells),
            old(output)@ + row_markup(row, *options) == output@ + row_markup_from(
                row,
                i as int,
                end as int,
                *options,
            ),
        decreases end - i,
    {
        let symbol = display_symbol(&cells[lo + i]);
        let ghost before = output@;
        write_cell(output, &cells[lo + i], symbol.as_str(), options);
        let w = symbol_width(symbol.as_str());
        proof {
            lemma_row_step(row, i as int, end as int, *options);
            assert(row[i as int] == cells@[lo + i]);
        }
        if w >= end - i {
            assert(output@ + row_markup_from(row, end as int, end as int, *options) =~= before
                + cell_markup(effective_style(row[i as int], *options), symbol@));
            i = end;
        } else {
            let ghost rest = row_markup_from(row, i + w, end as int, *options);
            assert(output@ + rest =~= before + (cell_markup(
                effective_style(row[i as int], *options),
                symbol@,
            ) + rest));
            i = i + w;
        }
    }
    assert(output@ + row_markup_from(row, end as int, end as int, *options) =~= output@);
}

proof fn lemma_last_kept_bounds(row: Seq<ExportCell>)
    ensures
        0 <= last_kept(row) <= row.len(),
    decreases row.len(),
{
    if row.len() > 0 && trimmable(row.last()) {
        lemma_last_kept_bounds(row.drop_last());
    }
}

/// Appends the markup of all rows of a grid to `output`.
pub fn write_rows(output: &mut String, grid: &CellGrid, options: &CellExportOptions)
    ensures
        final(output)@ == old(output)@ + body_markup(*grid, *options),
{
    if grid.width == 0 || grid.height == 0 {
        assert(final(output)@ =~= old(output)@ + body_markup(*grid, *options));
        return;
    }
    let w = grid.width as usize;
    let n = grid.cells.len();
    let mut start: usize = 0;
    assert(grid.cells@.skip(0) =~= grid.cells@);
    while start < n
        invariant
            start <= n,
            n == grid.cells@.len(),
            w == grid.width as usize,
            w > 0,
            old(output)@ + rows_markup(grid.cells@, w as int, *options) == output@ + rows_markup(
                grid.cells@.skip(start as int),
                w as int,
                *options,
            ),
        decreases n - start,
    {
        let stop = if n - start < w {
            n
        } else {
            start + w
        };
        let ghost rest = grid.cells@.skip(start as int);
        let ghost before = output@;
        write_row(output, grid.cells.as_slice(), start, stop, options);
        push_str(output, "#linebreak()\n");
        proof {
            assert(rest.take(stop - start) =~= grid.cells@.subrange(start as int, stop as int));
            assert(rest.skip(stop - start) =~= grid.cells@.skip(stop as int));
            assert(output@ + rows_markup(grid.cells@.skip(stop as int), w as int, *options)
                =~= before + rows_markup(rest, w as int, *options));
        }
        start = stop;
    }
    assert(grid.cells@.skip(n as int) =~= Seq::<ExportCell>::empty());
    assert(output@ + rows_markup(grid.cells@.skip(n as int), w as int, *options) =~= output@);
}

/// Appends the document prelude to `output`.
pub fn write_prelude(output: &mut String, prelude: &TypstPrelude)
    ensures
        final(output)@ == old(output)@ + prelude_markup(*prelude),
{
    let font = escape_typst_string(prelude.font_family.as_str());
    push_str(output, "// Typst document of a terminal buffer.\n");
    push_str(output, "#set page(margin: ");
    push_str(output, prelude.page_margin.as_str());
    push_str(output, ")\n");
    push_str(output, "#set text(font: \"");
    push_str(output, font.as_str());
    push_str(output, "\", size: ");
    push_str(output, prelude.font_size.as_str());
    push_str(output, ")\n");
    push_str(output, "#set par(leading: ");
    push_str(output, prelude.leading.as_str());
    push_str(output, ")\n");
    push_str(output, "#let rat-cell-width = ");
    push_str(output, prelude.cell_width.as_str());
    push_str(output, "\n");
    push_str(output, "#let rat-cell-height = ");
    push_str(output, prelude.cell_height.as_str());
    push_str(output, "\n");
    push_str(output, "\n");
    assert(final(output)@ =~= old(output)@ + prelude_markup(*prelude));
}

/// The standalone Typst document of a grid: the prelude, then every row.
pub fn render_typst_document(
    grid: &CellGrid,
    prelude: &TypstPrelude,
    options: &CellExportOptions,
) -> (s: String)
    ensures
        s@ == document_markup(*grid, *prelude, *options),
{
    let mut output = String::new();
    write_prelude(&mut output, prelude);
    write_rows(&mut output, grid, options);
    assert(output@ =~= document_markup(*grid, *prelude, *options));
    output
}

} // verus!
