//! Mouse text selection over rendered lines.
use vstd::prelude::*;
use vstd::utf8::encode_utf8;
use base64::Engine;
use crate::text::{push_str, blen, byte_offset, char_len_utf8, chars_of, string_of, string_byte_len, lemma_offset_step};

verus! {

/// A position in the rendered text (row, then byte column).
#[derive(Debug, Clone, Copy, PartialEq, Eq, PartialOrd, Ord, Hash)]
pub struct TextPos {
    pub row: usize,
    pub col: usize,
}

/// Positions ordered by row, then column.
pub open spec fn pos_le(a: TextPos, b: TextPos) -> bool {
    a.row < b.row || (a.row == b.row && a.col <= b.col)
}

impl TextPos {
    pub fn new(row: usize, col: usize) -> (p: Self)
        ensures
            p.row == row && p.col == col,
    {
        TextPos { row, col }
    }
}

/// An active or completed text selection.
#[derive(Debug, Clone, Copy)]
pub struct TextSelection {
    pub anchor: TextPos,
    pub cursor: TextPos,
    pub active: bool,
}

/// `(start, end)` of a selection, with `start <= end`.
pub open spec fn ordered_spec(sel: TextSelection) -> (TextPos, TextPos) {
    if pos_le(sel.anchor, sel.cursor) { (sel.anchor, sel.cursor) } else { (sel.cursor, sel.anchor) }
}

/// The selected column range of `row` for a line of `line_len` columns,
/// both ends within the line: `None` off the selection's rows, and for a
/// one-row selection that selects nothing of the line.
pub open spec fn col_range_spec(sel: TextSelection, row: usize, line_len: usize) -> Option<(usize, usize)> {
    let (start, end) = ordered_spec(sel);
    if row < start.row || row > end.row {
        None
    } else {
        let cs = if row == start.row { if start.col < line_len { start.col } else { line_len } } else { 0 };
        let ce = if row == end.row { if end.col < line_len { end.col } else { line_len } } else { line_len };
        if cs >= ce && row == start.row && row == end.row { None } else { Some((cs, ce)) }
    }
}

/// Characters of `s` from index `i` on whose byte offset lies in `[lo, hi)`.
pub open spec fn chars_in_bytes(s: Seq<char>, lo: int, hi: int, i: int) -> Seq<char>
    decreases s.len() - i,
{
    if i < 0 || i >= s.len() {
        seq![]
    } else {
        let here: Seq<char> = if lo <= byte_offset(s, i) < hi { seq![s[i]] } else { seq![] };
        here + chars_in_bytes(s, lo, hi, i + 1)
    }
}

/// The part of row `r` that a selection from `start` to `end` covers.
pub open spec fn row_chunk(lines: Seq<Seq<char>>, start: TextPos, end: TextPos, r: int) -> Seq<char> {
    let line = lines[r];
    let len = blen(line);
    let cs: int = if r == start.row { if start.col < len { start.col as int } else { len as int } } else { 0 };
    let ce: int = if r == end.row { if end.col < len { end.col as int } else { len as int } } else { len as int };
    chars_in_bytes(line, cs, ce, 0)
}

/// The selected text of rows `r..=end.row` (rows that exist), joined by newlines.
pub open spec fn extract_from(lines: Seq<Seq<char>>, start: TextPos, end: TextPos, r: int) -> Seq<char>
    decreases lines.len() - r,
{
    if r < 0 || r > end.row || r >= lines.len() {
        seq![]
    } else {
        let nl: Seq<char> = if r < end.row { seq!['\n'] } else { seq![] };
        row_chunk(lines, start, end, r) + nl + extract_from(lines, start, end, r + 1)
    }
}

/// The characters of one line whose byte offset lies in `[lo, hi)`.
fn line_chunk(line: &String, lo: usize, hi: usize) -> (r: Vec<char>)
    ensures
        r@ == chars_in_bytes(line@, lo as int, hi as int, 0),
{
    let v = chars_of(line.as_str());
    let ghost s = line@;
    let mut out: Vec<char> = Vec::new();
    let mut off: u128 = 0;
    let mut i: usize = 0;
    assert(s.take(0) =~= Seq::<char>::empty());
    while i < v.len()
        invariant
            v@ == s,
            i <= s.len(),
            off == byte_offset(s, i as int),
            off <= 4 * i,
            out@ + chars_in_bytes(s, lo as int, hi as int, i as int) == chars_in_bytes(s, lo as int, hi as int, 0),
        decreases s.len() - i,
    {
        let c = v[i];
        let n = char_len_utf8(c);
        proof {
            lemma_offset_step(s, i as int);
        }
        let ghost before = out@;
        if lo as u128 <= off && off < hi as u128 {
            out.push(c);
        }
        assert(before + chars_in_bytes(s, lo as int, hi as int, i as int) =~= out@ + chars_in_bytes(s, lo as int, hi as int, i + 1));
        off = off + n as u128;
        i += 1;
    }
    assert(out@ + chars_in_bytes(s, lo as int, hi as int, i as int) =~= out@);
    out
}

impl TextSelection {
    /// Start a selection at a position.
    pub fn start(pos: TextPos) -> (s: Self)
        ensures
            s.anchor == pos && s.cursor == pos && s.active,
    {
        TextSelection { anchor: pos, cursor: pos, active: true }
    }

    /// Move the drag endpoint.
    pub fn update(&mut self, pos: TextPos)
        ensures
            *final(self) == (TextSelection { cursor: pos, ..*old(self) }),
    {
        self.cursor = pos;
    }

    /// Finish the drag.
    pub fn finish(&mut self)
        ensures
            *final(self) == (TextSelection { active: false, ..*old(self) }),
    {
        self.active = false;
    }

    /// The selection range as `(start, end)` with `start <= end`.
    pub fn ordered(&self) -> (r: (TextPos, TextPos))
        ensures
            r == ordered_spec(*self),
    {
        if self.anchor.row < self.cursor.row || (self.anchor.row == self.cursor.row && self.anchor.col <= self.cursor.col) {
            (self.anchor, self.cursor)
        } else {
            (self.cursor, self.anchor)
        }
    }

    /// Whether the selection has zero length.
    pub fn is_empty(&self) -> (r: bool)
        ensures
            r == (self.anchor == self.cursor),
    {
        self.anchor.row == self.cursor.row && self.anchor.col == self.cursor.col
    }

    /// The selected column range `(start_col, end_col)` of a row, if any.
    pub fn col_range_for_row(&self, row: usize, line_len: usize) -> (r: Option<(usize, usize)>)
        ensures
            r == col_range_spec(*self, row, line_len),
            r matches Some((s, e)) ==> s <= e <= line_len,
    {
        let (start, end) = self.ordered();
        if row < start.row || row > end.row {
            return None;
        }
        let col_start = if row == start.row {
            if start.col < line_len { start.col } else { line_len }
        } else {
            0
        };
        let col_end = if row == end.row {
            if end.col < line_len { end.col } else { line_len }
        } else {
            line_len
        };
        if col_start >= col_end && row == start.row && row == end.row {
            return None;
        }
        Some((col_start, col_end))
    }

    /// The selected text of the rendered lines: partial first and last rows,
    /// whole rows between, joined by newlines; character-aligned.
    pub fn extract_text(&self, rendered_lines: &[String]) -> (r: String)
        ensures
            r@ == if self.anchor == self.cursor {
                Seq::<char>::empty()
            } else {
                extract_from(rendered_lines.deep_view(), ordered_spec(*self).0, ordered_spec(*self).1, ordered_spec(*self).0.row as int)
            },
    {
        if self.is_empty() {
            return String::new();
        }
        let (start, end) = self.ordered();
        let ghost lines = rendered_lines.deep_view();
        let mut result: Vec<char> = Vec::new();
        let mut row: usize = start.row;
        while row <= end.row && row < rendered_lines.len()
            invariant
                lines == rendered_lines.deep_view(),
                start.row <= row,
                result@ + extract_from(lines, start, end, row as int) == extract_from(lines, start, end, start.row as int),
            decreases rendered_lines@.len() - row,
        {
            let line = &rendered_lines[row];
            let len = string_byte_len(line);
            let col_start = if row == start.row { if start.col < len { start.col } else { len } } else { 0 };
            let col_end = if row == end.row { if end.col < len { end.col } else { len } } else { len };
            let chunk = line_chunk(line, col_start, col_end);
            let ghost before = result@;
            let mut k: usize = 0;
            while k < chunk.len()
                invariant
                    k <= chunk@.len(),
                    result@ == before + chunk@.take(k as int),
                decreases chunk@.len() - k,
            {
                result.push(chunk[k]);
                assert(before + chunk@.take(k as int) + seq![chunk@[k as int]] =~= before + chunk@.take(k + 1));
                k += 1;
            }
            assert(chunk@.take(chunk@.len() as int) =~= chunk@);
            if row < end.row {
                result.push('\n');
            }
            assert(lines[row as int] == line@);
            assert(before + extract_from(lines, start, end, row as int) =~= result@ + extract_from(lines, start, end, row + 1));
            row += 1;
        }
        assert(result@ + extract_from(lines, start, end, row as int) =~= result@);
        string_of(result.as_slice())
    }
}

/// Columns that `unicode_width::UnicodeWidthStr::width` reports for a string.
pub uninterp spec fn display_width(s: Seq<char>) -> usize;

/// `UnicodeWidthStr::width` from `unicode-width`: the displayed width of a
/// string in terms of columns; the contract only names the result.
#[verifier::external_body]
pub(crate) fn str_display_width(s: &str) -> (w: usize)
    ensures
        w == display_width(s@),
{
    unicode_width::UnicodeWidthStr::width(s)
}

/// Visual lines a logical line of display width `w` takes at `inner_width` columns.
pub open spec fn visual_lines_of(w: usize, inner_width: usize) -> int {
    if w == 0 { 1 } else { (w as int + inner_width as int - 1) / inner_width as int }
}

/// Scan for the logical line holding visual line `vp`, from logical line `i`
/// with `cum` visual lines before it.
pub open spec fn visual_scan(ws: Seq<usize>, vp: int, iw: int, i: int, cum: int) -> Option<(int, int)>
    decreases ws.len() - i,
{
    if i < 0 || i >= ws.len() {
        None
    } else {
        let lv = visual_lines_of(ws[i], iw as usize);
        if cum + lv > vp { Some((i, (vp - cum) * iw)) } else { visual_scan(ws, vp, iw, i + 1, cum + lv) }
    }
}

/// The scan stays within `usize` arithmetic.
pub open spec fn visual_scan_ok(ws: Seq<usize>, vp: int, iw: int, i: int, cum: int) -> bool
    decreases ws.len() - i,
{
    if i < 0 || i >= ws.len() {
        true
    } else {
        let lv = visual_lines_of(ws[i], iw as usize);
        &&& cum + lv <= usize::MAX
        &&& if cum + lv > vp { (vp - cum) * iw <= usize::MAX } else { visual_scan_ok(ws, vp, iw, i + 1, cum + lv) }
    }
}

/// Display widths of the lines.
pub open spec fn widths_of(lines: Seq<Seq<char>>) -> Seq<usize> {
    lines.map_values(|l: Seq<char>| display_width(l))
}

/// Result of `visual_to_logical`.
pub open spec fn visual_to_logical_spec(vp: usize, lines: Seq<Seq<char>>, iw: usize) -> Option<(usize, usize)> {
    if lines.len() == 0 {
        None
    } else if iw == 0 {
        Some((if vp < lines.len() - 1 { vp } else { (lines.len() - 1) as usize }, 0usize))
    } else {
        match visual_scan(widths_of(lines), vp as int, iw as int, 0, 0) {
            Some((l, c)) => Some((l as usize, c as usize)),
            None => Some(((lines.len() - 1) as usize, 0usize)),
        }
    }
}

/// Convert a visual (wrapped) line position to `(logical_line, col_offset)`.
pub fn visual_to_logical(visual_pos: usize, rendered_lines: &[String], inner_width: usize) -> (r: Option<(usize, usize)>)
    requires
        inner_width == 0 || visual_scan_ok(widths_of(rendered_lines.deep_view()), visual_pos as int, inner_width as int, 0, 0),
    ensures
        r == visual_to_logical_spec(visual_pos, rendered_lines.deep_view(), inner_width),
{
    if rendered_lines.len() == 0 {
        return None;
    }
    if inner_width == 0 {
        let last = rendered_lines.len() - 1;
        let row = if visual_pos < last { visual_pos } else { last };
        return Some((row, 0));
    }
    let ghost ws = widths_of(rendered_lines.deep_view());
    let mut cumulative: usize = 0;
    let mut i: usize = 0;
    while i < rendered_lines.len()
        invariant
            ws == widths_of(rendered_lines.deep_view()),
            inner_width > 0,
            i <= rendered_lines@.len(),
            cumulative <= visual_pos,
            ws.len() == rendered_lines@.len(),
            visual_scan(ws, visual_pos as int, inner_width as int, 0, 0) == visual_scan(ws, visual_pos as int, inner_width as int, i as int, cumulative as int),
            visual_scan_ok(ws, visual_pos as int, inner_width as int, i as int, cumulative as int),
        decreases rendered_lines@.len() - i,
    {
        let width = str_display_width(rendered_lines[i].as_str());
        assert(ws[i as int] == width);
        let q = width / inner_width;
        assert(width % inner_width != 0 ==> q < usize::MAX) by (nonlinear_arith)
            requires
                inner_width > 0,
                q == width / inner_width,
        {
        }
        let line_visual = if width == 0 { 1 } else { q + if width % inner_width == 0 { 0 } else { 1 } };
        assert(line_visual == visual_lines_of(width, inner_width)) by (nonlinear_arith)
            requires
                inner_width > 0,
                line_visual == (if width == 0 { 1 } else { width / inner_width + if width % inner_width == 0 { 0int } else { 1int } }),
        {
        }
        if cumulative + line_visual > visual_pos {
            let offset_in_line = visual_pos - cumulative;
            let col_offset = offset_in_line * inner_width;
            return Some((i, col_offset));
        }
        cumulative = cumulative + line_visual;
        i += 1;
    }
    Some((rendered_lines.len() - 1, 0))
}

/// A screen rectangle: position and size in cells.
#[derive(Debug, Clone, Copy, PartialEq, Eq)]
pub struct Area {
    pub x: u16,
    pub y: u16,
    pub width: u16,
    pub height: u16,
}

/// The inner (border-less) rectangle of `area` holds the cell, as
/// `screen_to_text_pos` checks it.
pub open spec fn in_inner(col: u16, row: u16, area: Area) -> bool {
    let iw: int = if area.width >= 2 { area.width - 2 } else { 0 };
    let ih: int = if area.height >= 2 { area.height - 2 } else { 0 };
    &&& col >= area.x + 1
    &&& col < area.x + 1 + iw
    &&& row >= area.y + 1
    &&& row < area.y + 1 + ih
}

/// `screen_to_text_pos` stays within its integer types.
pub open spec fn screen_pos_ok(col: u16, row: u16, area: Area, scroll: usize, lines: Seq<Seq<char>>) -> bool {
    let iw: int = if area.width >= 2 { area.width - 2 } else { 0 };
    let ih: int = if area.height >= 2 { area.height - 2 } else { 0 };
    &&& area.x + 1 <= u16::MAX
    &&& area.y + 1 <= u16::MAX
    &&& (col >= area.x + 1 ==> area.x + 1 + iw <= u16::MAX)
    &&& (col >= area.x + 1 && col < area.x + 1 + iw && row >= area.y + 1 ==> area.y + 1 + ih <= u16::MAX)
    &&& (in_inner(col, row, area) ==> {
        let vp = scroll + (row - area.y - 1);
        &&& vp <= usize::MAX
        &&& (iw == 0 || visual_scan_ok(widths_of(lines), vp, iw, 0, 0))
        &&& (visual_to_logical_spec(vp as usize, lines, iw as usize) matches Some((l, c)) ==> c + (col - area.x - 1) <= usize::MAX)
    })
}

/// Convert a screen cell to a text position in the message area.
pub open spec fn screen_pos_spec(col: u16, row: u16, area: Area, scroll: usize, lines: Seq<Seq<char>>) -> Option<TextPos> {
    let iw: int = if area.width >= 2 { area.width - 2 } else { 0 };
    if !in_inner(col, row, area) {
        None
    } else {
        let vp = scroll + (row - area.y - 1);
        match visual_to_logical_spec(vp as usize, lines, iw as usize) {
            Some((l, c)) => Some(TextPos { row: l, col: (c + (col - area.x - 1)) as usize }),
            None => None,
        }
    }
}

/// Convert a screen coordinate to a text position; `None` on the border or
/// outside the area.
pub fn screen_to_text_pos(screen_col: u16, screen_row: u16, area: Area, scroll_offset: usize, rendered_lines: &[String]) -> (r: Option<TextPos>)
    requires
        screen_pos_ok(screen_col, screen_row, area, scroll_offset, rendered_lines.deep_view()),
    ensures
        r == screen_pos_spec(screen_col, screen_row, area, scroll_offset, rendered_lines.deep_view()),
{
    let inner_x = area.x + 1;
    let inner_y = area.y + 1;
    let inner_w: usize = if area.width >= 2 { (area.width - 2) as usize } else { 0 };
    let inner_h: u16 = if area.height >= 2 { area.height - 2 } else { 0 };
    if screen_col < inner_x {
        return None;
    }
    if screen_col >= inner_x + inner_w as u16 {
        return None;
    }
    if screen_row < inner_y {
        return None;
    }
    if screen_row >= inner_y + inner_h {
        return None;
    }
    let col = (screen_col - inner_x) as usize;
    let visual_row = (screen_row - inner_y) as usize;
    let visual_pos = scroll_offset + visual_row;
    match visual_to_logical(visual_pos, rendered_lines, inner_w) {
        Some((logical_line, col_offset)) => Some(TextPos::new(logical_line, col_offset + col)),
        None => None,
    }
}

/// The character of a six-bit value in the standard base64 alphabet
/// (`A`-`Z`, `a`-`z`, `0`-`9`, `+`, `/`).
pub open spec fn base64_char(v: int) -> char {
    if v < 26 {
        (v + 65) as char
    } else if v < 52 {
        (v - 26 + 97) as char
    } else if v < 62 {
        (v - 52 + 48) as char
    } else if v == 62 {
        '+'
    } else {
        '/'
    }
}

/// Padded standard base64 (RFC 4648): each group of three bytes becomes four
/// characters of six bits each; a final group of one or two bytes becomes
/// two or three characters followed by `=` padding.
pub open spec fn base64_standard(b: Seq<u8>) -> Seq<char>
    decreases b.len(),
{
    let x0 = if b.len() > 0 { b[0] as int } else { 0 };
    let x1 = if b.len() > 1 { b[1] as int } else { 0 };
    let x2 = if b.len() > 2 { b[2] as int } else { 0 };
    if b.len() == 0 {
        seq![]
    } else if b.len() == 1 {
        seq![base64_char(x0 / 4), base64_char((x0 % 4) * 16), '=', '=']
    } else if b.len() == 2 {
        seq![base64_char(x0 / 4), base64_char((x0 % 4) * 16 + x1 / 16), base64_char((x1 % 16) * 4), '=']
    } else {
        seq![
            base64_char(x0 / 4),
            base64_char((x0 % 4) * 16 + x1 / 16),
            base64_char((x1 % 16) * 4 + x2 / 64),
            base64_char(x2 % 64),
        ] + base64_standard(b.skip(3))
    }
}

/// Length of padded base64 output for `n` input bytes.
pub open spec fn base64_padded_len(n: int) -> int {
    (n / 3) * 4 + if n % 3 > 0 { 4int } else { 0int }
}

/// `STANDARD.encode` from `base64`: padded standard-alphabet encoding, as
/// RFC 4648 defines it, with its documented length; encoding panics when
/// that length overflows `usize`, which `requires` rules out.
#[verifier::external_body]
fn base64_encode_standard(bytes: &[u8]) -> (r: String)
    requires
        base64_padded_len(bytes@.len() as int) <= usize::MAX,
    ensures
        r@ == base64_standard(bytes@),
        r@.len() == base64_padded_len(bytes@.len() as int),
{
    base64::engine::general_purpose::STANDARD.encode(bytes)
}

/// The OSC 52 escape sequence that sets the system clipboard to `text`.
pub fn clipboard_osc52(text: &str) -> (r: String)
    requires
        base64_padded_len(encode_utf8(text@).len() as int) <= usize::MAX,
    ensures
        r@ == "\x1b]52;c;"@ + base64_standard(encode_utf8(text@)) + "\x07"@,
{
    let mut out = "\x1b]52;c;".to_owned();
    let encoded = base64_encode_standard(text.as_bytes());
    push_str(&mut out, encoded.as_str());
    push_str(&mut out, "\x07");
    out
}

} // verus!
