//! Display helpers of the spreadsheet widget: column names, row-number width,
//! cell text truncation and range membership.
use vstd::prelude::*;
use crate::text::{blen, byte_len, chars_of, string_of, string_of_range};
use crate::sheet::cell::{CellAddr, CellRange, col_letters, column_letters, decimal, decimal_digits};

verus! {

/// The header name of a column (`A`, `Z`, `AA`).
pub fn col_name(col: usize) -> (r: String)
    ensures
        r@ == col_letters(col as int),
{
    let v = column_letters(col);
    string_of(v.as_slice())
}

/// Width of the row-number gutter: the digits of the row count, at least 3.
pub fn calculate_row_number_width(row_count: usize) -> (r: u16)
    ensures
        r == (if row_count == 0 || decimal(row_count as nat).len() < 3 {
            3
        } else {
            decimal(row_count as nat).len()
        }),
{
    if row_count == 0 {
        return 3;
    }
    let d = decimal_digits(row_count);
    proof { lemma_decimal_len(row_count as nat); }
    if d.len() < 3 { 3 } else { d.len() as u16 }
}

/// Ten to the power `k`.
spec fn pow10(k: nat) -> nat
    decreases k,
{
    if k == 0 { 1 } else { 10 * pow10((k - 1) as nat) }
}

/// The decimal digits of a `usize` are at most 20.
proof fn lemma_decimal_len(n: nat)
    requires
        n <= usize::MAX,
    ensures
        decimal(n).len() <= 20,
{
    reveal_with_fuel(pow10, 21);
    assert(pow10(20) == 100000000000000000000nat);
    lemma_decimal_len_bound(n, 20);
}

proof fn lemma_decimal_len_bound(n: nat, k: nat)
    requires
        n < pow10(k),
        k >= 1,
    ensures
        decimal(n).len() <= k,
    decreases k,
{
    if n >= 10 {
        if k == 1 {
            assert(pow10(1) == 10 * pow10(0));
        } else {
            assert(n / 10 < pow10((k - 1) as nat)) by (nonlinear_arith)
                requires
                    n < 10 * pow10((k - 1) as nat),
            ;
            lemma_decimal_len_bound(n / 10, (k - 1) as nat);
        }
    }
}

/// Cell text cut to fit a width: empty for width 0, the text when its bytes
/// fit, else its first `max_width` characters.
pub open spec fn truncated(text: Seq<char>, max_width: int) -> Seq<char> {
    if max_width == 0 {
        seq![]
    } else if blen(text) <= max_width {
        text
    } else {
        text.take(if max_width < text.len() { max_width } else { text.len() as int })
    }
}

/// Truncate text to fit a column width.
pub fn truncate_text(text: &str, max_width: usize) -> (r: String)
    ensures
        r@ == truncated(text@, max_width as int),
{
    if max_width == 0 {
        return String::new();
    }
    if byte_len(text) <= max_width {
        return text.to_string();
    }
    let v = chars_of(text);
    let n = if max_width < v.len() { max_width } else { v.len() };
    let r = string_of_range(v.as_slice(), 0, n);
    assert(v@.subrange(0, n as int) =~= v@.take(n as int));
    r
}

/// `addr` lies in the rectangle spanned by the range's corners.
pub open spec fn in_range(addr: CellAddr, range: CellRange) -> bool {
    let (c0, c1) = if range.start.col <= range.end.col {
        (range.start.col, range.end.col)
    } else {
        (range.end.col, range.start.col)
    };
    let (r0, r1) = if range.start.row <= range.end.row {
        (range.start.row, range.end.row)
    } else {
        (range.end.row, range.start.row)
    };
    c0 <= addr.col <= c1 && r0 <= addr.row <= r1
}

/// Whether a cell lies within a range, whichever corners it was given by.
pub fn is_in_range(addr: CellAddr, range: CellRange) -> (r: bool)
    ensures
        r == in_range(addr, range),
{
    let min_col = if range.start.col <= range.end.col { range.start.col } else { range.end.col };
    let max_col = if range.start.col >= range.end.col { range.start.col } else { range.end.col };
    let min_row = if range.start.row <= range.end.row { range.start.row } else { range.end.row };
    let max_row = if range.start.row >= range.end.row { range.start.row } else { range.end.row };
    addr.col >= min_col && addr.col <= max_col && addr.row >= min_row && addr.row <= max_row
}


/// Width of a column: its custom width, else the default, at least `min_width`.
pub fn column_width(widths: &[u16], default_width: u16, min_width: u16, col: usize) -> (r: u16)
    ensures
        ({
            let w = if col < widths@.len() { widths@[col as int] } else { default_width };
            r == if w < min_width { min_width } else { w }
        }),
{
    let w = if col < widths.len() {
        widths[col]
    } else {
        default_width
    };
    if w < min_width {
        min_width
    } else {
        w
    }
}

/// Sets the custom width of a column to at least `min_width`, giving the
/// default width to the columns before it that have none.
pub fn set_column_width(
    widths: &mut Vec<u16>,
    default_width: u16,
    min_width: u16,
    col: usize,
    width: u16,
)
    requires
        col < usize::MAX,
    ensures
        ({
            let n = old(widths)@.len();
            let grown = if col < n {
                old(widths)@
            } else {
                old(widths)@ + Seq::new((col + 1 - n) as nat, |i: int| default_width)
            };
            final(widths)@ == grown.update(col as int, if width < min_width { min_width } else { width })
        }),
{
    let ghost n = widths@.len();
    while widths.len() <= col
        invariant
            col < usize::MAX,
            n <= widths@.len(),
            widths@.len() <= col + 1 || widths@.len() == n,
            widths@.subrange(0, n as int) == old(widths)@,
            n == old(widths)@.len(),
            forall|j: int| n <= j < widths@.len() ==> #[trigger] widths@[j] == default_width,
        decreases col + 1 - widths@.len(),
    {
        widths.push(default_width);
    }
    let ghost grown = widths@;
    let w = if width < min_width {
        min_width
    } else {
        width
    };
    widths.set(col, w);
    proof {
        if col < n {
            assert(grown =~= old(widths)@);
        } else {
            assert(grown =~= old(widths)@ + Seq::new((col + 1 - n) as nat, |i: int| default_width));
        }
    }
}
} // verus!
