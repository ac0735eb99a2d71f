//! Cell addressing: A1-style addresses, rectangular ranges and error codes.
use vstd::prelude::*;
use crate::text::{chars_of, string_of};

verus! {

/// A cell address, 0-indexed (col, row). A1-style text names column A as 0,
/// Z as 25, AA as 26.
#[derive(Debug, Clone, Copy, PartialEq, Eq, Hash, Structural)]
pub struct CellAddr {
    pub col: usize,
    pub row: usize,
}

/// A rectangular range of cells, from `start` to `end` inclusive.
#[derive(Debug, Clone, Copy, PartialEq, Eq, Structural)]
pub struct CellRange {
    pub start: CellAddr,
    pub end: CellAddr,
}

/// Error values a cell can hold.
#[derive(Debug, Clone, PartialEq)]
pub enum CellError {
    DivByZero,
    ValueError,
    CycleError,
    RefError,
    ParseError,
}

// ── Display ─────────────────────────────────────────────────────────────────

/// The letter of a value 0..=25.
pub open spec fn letter(v: int) -> char {
    (v + 65) as char
}

/// The column letters, bijective base 26: `A`..`Z` for 0..=25, then `AA`..`ZZ`,
/// then `AAA`..: the letters of `col / 26 - 1` followed by that of `col % 26`.
pub open spec fn col_letters(col: int) -> Seq<char>
    decreases col,
{
    if col < 26 {
        seq![letter(col)]
    } else {
        col_letters(col / 26 - 1).push(letter(col % 26))
    }
}

/// The character of a decimal digit.
pub open spec fn digit_char(d: int) -> char {
    (d + 48) as char
}

/// The decimal digits of `n`.
pub open spec fn decimal(n: nat) -> Seq<char>
    decreases n,
{
    if n < 10 {
        seq![digit_char(n as int)]
    } else {
        decimal(n / 10).push(digit_char((n % 10) as int))
    }
}

/// The A1-style text of an address.
pub open spec fn addr_text(a: CellAddr) -> Seq<char> {
    col_letters(a.col as int) + decimal((a.row + 1) as nat)
}

/// The letters of a column.
pub fn column_letters(col: usize) -> (r: Vec<char>)
    ensures
        r@ == col_letters(col as int),
    decreases col,
{
    if col < 26 {
        let c = ((col as u8) + 65u8) as char;
        vec![c]
    } else {
        let mut r = column_letters(col / 26 - 1);
        r.push((((col % 26) as u8) + 65u8) as char);
        r
    }
}

/// The decimal digits of `n`.
pub fn decimal_digits(n: usize) -> (r: Vec<char>)
    ensures
        r@ == decimal(n as nat),
    decreases n,
{
    if n < 10 {
        vec![((n as u8) + 48u8) as char]
    } else {
        let mut r = decimal_digits(n / 10);
        r.push((((n % 10) as u8) + 48u8) as char);
        r
    }
}

impl CellAddr {
    /// The A1-style text of the address, such as `B3` or `AA1`.
    pub fn to_string(&self) -> (r: String)
        requires
            self.row < usize::MAX,
        ensures
            r@ == addr_text(*self),
    {
        let mut v = column_letters(self.col);
        let d = decimal_digits(self.row + 1);
        let ghost l = v@;
        let mut i: usize = 0;
        while i < d.len()
            invariant
                i <= d@.len(),
                v@ == l + d@.take(i as int),
            decreases d@.len() - i,
        {
            v.push(d[i]);
            assert(l + d@.take(i + 1) =~= (l + d@.take(i as int)).push(d@[i as int]));
            i += 1;
        }
        assert(d@.take(d@.len() as int) =~= d@);
        string_of(v.as_slice())
    }
}

impl CellError {
    /// The spreadsheet error code, such as `#DIV/0!`.
    pub fn to_string(&self) -> (r: String)
        ensures
            r@ == error_code(*self),
    {
        match self {
            CellError::DivByZero => "#DIV/0!".to_string(),
            CellError::ValueError => "#VALUE!".to_string(),
            CellError::CycleError => "#CYCLE!".to_string(),
            CellError::RefError => "#REF!".to_string(),
            CellError::ParseError => "#PARSE!".to_string(),
        }
    }
}

/// The error code shown for an error value.
pub open spec fn error_code(e: CellError) -> Seq<char> {
    match e {
        CellError::DivByZero => "#DIV/0!"@,
        CellError::ValueError => "#VALUE!"@,
        CellError::CycleError => "#CYCLE!"@,
        CellError::RefError => "#REF!"@,
        CellError::ParseError => "#PARSE!"@,
    }
}

// ── Parsing ─────────────────────────────────────────────────────────────────

/// An ASCII letter.
pub open spec fn is_letter(c: char) -> bool {
    ('a' <= c && c <= 'z') || ('A' <= c && c <= 'Z')
}

/// The value of a letter, case-insensitively: A is 0, Z is 25.
pub open spec fn letter_value(c: char) -> int {
    if 'a' <= c && c <= 'z' { c as int - 97 } else { c as int - 65 }
}

/// Number of leading letters of `s`.
pub open spec fn letter_run(s: Seq<char>) -> int
    decreases s.len(),
{
    if s.len() > 0 && is_letter(s[0]) { 1 + letter_run(s.drop_first()) } else { 0 }
}

/// The column the first `n` letters of `s` name: one letter is its value;
/// each further letter takes the column so far plus one, times 26, plus its value.
pub open spec fn col_value(s: Seq<char>, n: int) -> int
    decreases n,
{
    if n <= 1 {
        letter_value(s[0])
    } else {
        (col_value(s, n - 1) + 1) * 26 + letter_value(s[n - 1])
    }
}

/// An ASCII digit.
pub open spec fn is_digit(c: char) -> bool {
    '0' <= c && c <= '9'
}

/// Every character is a digit.
pub open spec fn all_digits(s: Seq<char>) -> bool {
    forall|i: int| 0 <= i < s.len() ==> is_digit(#[trigger] s[i])
}

/// The value of a string of decimal digits.
pub open spec fn digits_value(s: Seq<char>) -> int
    decreases s.len(),
{
    if s.len() == 0 { 0 } else { digits_value(s.drop_last()) * 10 + (s.last() as int - 48) }
}

/// An unsigned decimal as `usize::from_str` reads it: an optional `+` and at
/// least one digit, nothing else. (Its range is checked by the caller.)
pub open spec fn unsigned_text(s: Seq<char>) -> Option<int> {
    let d = if s.len() > 0 && s[0] == '+' { s.drop_first() } else { s };
    if d.len() > 0 && all_digits(d) { Some(digits_value(d)) } else { None }
}

/// An A1-style address: letters for the column, then a row number of at least
/// one; both must fit in `usize`.
pub open spec fn parse_addr(s: Seq<char>) -> Option<CellAddr> {
    let n = letter_run(s);
    if n == 0 {
        None
    } else {
        match unsigned_text(s.skip(n)) {
            Some(v) => if 1 <= v <= usize::MAX && col_value(s, n) <= usize::MAX {
                Some(CellAddr { col: col_value(s, n) as usize, row: (v - 1) as usize })
            } else {
                None
            },
            None => None,
        }
    }
}

pub proof fn lemma_letter_run(s: Seq<char>)
    ensures
        0 <= letter_run(s) <= s.len(),
        letter_run(s) < s.len() ==> !is_letter(s[letter_run(s)]),
        forall|i: int| 0 <= i < letter_run(s) ==> is_letter(#[trigger] s[i]),
    decreases s.len(),
{
    if s.len() > 0 && is_letter(s[0]) {
        lemma_letter_run(s.drop_first());
        assert forall|i: int| 0 <= i < letter_run(s) implies is_letter(#[trigger] s[i]) by {
            if i > 0 {
                assert(s[i] == s.drop_first()[i - 1]);
            }
        }
    }
}

/// Over letters, more letters never name a smaller column.
proof fn lemma_col_value_mono(s: Seq<char>, a: int, b: int)
    requires
        1 <= a <= b <= s.len(),
        forall|i: int| 0 <= i < b ==> is_letter(#[trigger] s[i]),
    ensures
        0 <= col_value(s, a) <= col_value(s, b),
    decreases b,
{
    if b > a {
        lemma_col_value_mono(s, a, b - 1);
        assert(is_letter(s[b - 1]));
    } else if a > 1 {
        lemma_col_value_mono(s, a - 1, a - 1);
        assert(is_letter(s[a - 1]));
    } else {
        assert(is_letter(s[0]));
    }
}

/// Over digits, a longer prefix never has a smaller value.
pub proof fn lemma_digits_mono(d: Seq<char>, j: int, k: int)
    requires
        0 <= j <= k <= d.len(),
        all_digits(d),
    ensures
        0 <= digits_value(d.take(j)) <= digits_value(d.take(k)),
    decreases k,
{
    if k > j {
        lemma_digits_mono(d, j, k - 1);
        assert(d.take(k).drop_last() =~= d.take(k - 1));
        assert(is_digit(d[k - 1]));
    } else if j > 0 {
        lemma_digits_mono(d, j - 1, j - 1);
        assert(d.take(j).drop_last() =~= d.take(j - 1));
        assert(is_digit(d[j - 1]));
    } else {
        assert(d.take(0) =~= Seq::<char>::empty());
    }
}

impl CellAddr {
    /// Parse an A1-style address (`A1`, `b3`, `AA10`); letters are
    /// case-insensitive. Fails on text that is not letters followed by a row
    /// number of at least one, and when a number does not fit in `usize`.
    pub fn parse(s: &str) -> (r: Result<CellAddr, ()>)
        ensures
            match parse_addr(s@) {
                Some(a) => r == Ok::<CellAddr, ()>(a),
                None => r is Err,
            },
    {
        let v = chars_of(s);
        let ghost t = s@;
        proof { lemma_letter_run(t); }
        let mut n: usize = 0;
        let mut col: usize = 0;
        while n < v.len() && (('a' <= v[n] && v[n] <= 'z') || ('A' <= v[n] && v[n] <= 'Z'))
            invariant
                v@ == t,
                t == s@,
                n <= letter_run(t),
                0 <= letter_run(t) <= t.len(),
                letter_run(t) < t.len() ==> !is_letter(t[letter_run(t)]),
                forall|i: int| 0 <= i < letter_run(t) ==> is_letter(#[trigger] t[i]),
                n > 0 ==> col == col_value(t, n as int),
            decreases t.len() - n,
        {
            let c = v[n];
            let lv: usize = if 'a' <= c && c <= 'z' { (c as u32 - 97) as usize } else { (c as u32 - 65) as usize };
            if n == 0 {
                col = lv;
            } else {
                let wide: u128 = (col as u128 + 1) * 26 + lv as u128;
                assert(n < letter_run(t));
                assert(lv == letter_value(t[n as int]));
                assert(wide == col_value(t, n + 1));
                if wide > usize::MAX as u128 {
                    proof {
                        lemma_col_value_mono(t, n + 1, letter_run(t));
                    }
                    assert(col_value(t, letter_run(t)) > usize::MAX);
                    return Err(());
                }
                col = wide as usize;
            }
            n += 1;
        }
        assert(n == letter_run(t)) by {
            if n < letter_run(t) {
                assert(is_letter(t[n as int]));
            }
        }
        if n == 0 {
            return Err(());
        }
        let ghost rest = t.skip(n as int);
        let len = v.len();
        let mut i = n;
        if i < len && v[i] == '+' {
            i += 1;
        }
        let start = i;
        let ghost d = t.subrange(start as int, len as int);
        assert(d =~= (if rest.len() > 0 && rest[0] == '+' { rest.drop_first() } else { rest }));
        if start == len {
            return Err(());
        }
        let mut k = start;
        while k < len
            invariant
                start <= k <= len == t.len(),
                v@ == t,
                t == s@,
                n == letter_run(t),
                n < len,
                start == (if t[n as int] == '+' { n + 1 } else { n as int }),
                d == (if t.skip(n as int).len() > 0 && t.skip(n as int)[0] == '+' {
                    t.skip(n as int).drop_first()
                } else {
                    t.skip(n as int)
                }),
                d == t.subrange(start as int, len as int),
                forall|j: int| 0 <= j < k - start ==> is_digit(#[trigger] d[j]),
            decreases len - k,
        {
            if !('0' <= v[k] && v[k] <= '9') {
                assert(!is_digit(d[k - start]));
                return Err(());
            }
            k += 1;
        }
        assert(all_digits(d));
        let mut val: usize = 0;
        let mut k = start;
        while k < len
            invariant
                start <= k <= len == t.len(),
                v@ == t,
                t == s@,
                n == letter_run(t),
                n < len,
                start == (if t[n as int] == '+' { n + 1 } else { n as int }),
                d == (if t.skip(n as int).len() > 0 && t.skip(n as int)[0] == '+' {
                    t.skip(n as int).drop_first()
                } else {
                    t.skip(n as int)
                }),
                d == t.subrange(start as int, len as int),
                all_digits(d),
                val == digits_value(d.take(k - start)),
            decreases len - k,
        {
            assert(d[k - start] == v@[k as int]);
            assert(is_digit(d[k - start]));
            let dv = (v[k] as u32 - 48) as usize;
            assert(d.take(k - start + 1).drop_last() =~= d.take(k - start));
            assert(d.take(k - start + 1).last() == d[k - start]);
            let wide: u128 = val as u128 * 10 + dv as u128;
            assert(wide == digits_value(d.take(k - start + 1)));
            if wide > usize::MAX as u128 {
                proof {
                    lemma_digits_mono(d, k - start + 1, d.len() as int);
                }
                assert(d.take(d.len() as int) =~= d);
                return Err(());
            }
            val = wide as usize;
            k += 1;
        }
        assert(d.take(d.len() as int) =~= d);
        if val == 0 {
            return Err(());
        }
        Ok(CellAddr { col, row: val - 1 })
    }
}

impl core::str::FromStr for CellAddr {
    type Err = ();

    fn from_str(s: &str) -> (r: Result<CellAddr, ()>)
        ensures
            match parse_addr(s@) {
                Some(a) => r == Ok::<CellAddr, ()>(a),
                None => r is Err,
            },
    {
        CellAddr::parse(s)
    }
}

proof fn lemma_decimal(n: nat)
    ensures
        decimal(n).len() > 0,
        all_digits(decimal(n)),
        digits_value(decimal(n)) == n,
    decreases n,
{
    if n < 10 {
        assert(decimal(n).last() as int == n + 48);
        assert(decimal(n).drop_last() =~= Seq::<char>::empty());
        assert(digits_value(Seq::<char>::empty()) == 0);
        assert(digits_value(decimal(n)) == digits_value(decimal(n).drop_last()) * 10 + (decimal(n).last() as int - 48));
    } else {
        lemma_decimal(n / 10);
        let d = decimal(n);
        assert(d.drop_last() =~= decimal(n / 10));
        assert(d.last() as int == (n % 10) + 48);
        assert(digits_value(d) == digits_value(d.drop_last()) * 10 + (d.last() as int - 48));
        vstd::arithmetic::div_mod::lemma_fundamental_div_mod(n as int, 10);
        assert forall|i: int| 0 <= i < d.len() implies is_digit(#[trigger] d[i]) by {
            if i < d.len() - 1 {
                assert(d[i] == decimal(n / 10)[i]);
            }
        }
    }
}

/// A text that opens with the letters of a column reads as that column.
proof fn lemma_col_letters_read(col: int, s: Seq<char>)
    requires
        0 <= col,
        col_letters(col).len() <= s.len(),
        forall|i: int| 0 <= i < col_letters(col).len() ==> s[i] == #[trigger] col_letters(col)[i],
    ensures
        col_letters(col).len() >= 1,
        col_value(s, col_letters(col).len() as int) == col,
        forall|i: int| 0 <= i < col_letters(col).len() ==> is_letter(#[trigger] s[i]),
    decreases col,
{
    let l = col_letters(col);
    if col < 26 {
        assert(s[0] == l[0]);
    } else {
        let q = col / 26 - 1;
        let lq = col_letters(q);
        assert(l == lq.push(letter(col % 26)));
        assert forall|i: int| 0 <= i < lq.len() implies s[i] == #[trigger] lq[i] by {
            assert(l[i] == lq[i]);
        }
        lemma_col_letters_read(q, s);
        assert(s[lq.len() as int] == l[lq.len() as int]);
        vstd::arithmetic::div_mod::lemma_fundamental_div_mod(col, 26);
        assert(col_value(s, l.len() as int) == (q + 1) * 26 + col % 26);
        assert forall|i: int| 0 <= i < l.len() implies is_letter(#[trigger] s[i]) by {
            if i < lq.len() {
                assert(is_letter(s[i]));
            } else {
                assert(s[i] == letter(col % 26));
            }
        }
    }
}

/// Reading back the text of an address gives the address, for every column
/// and every row below `usize::MAX` (whose number `row + 1` fits).
pub proof fn lemma_addr_roundtrip(a: CellAddr)
    requires
        a.row < usize::MAX,
    ensures
        parse_addr(addr_text(a)) == Some(a),
{
    let col = a.col as int;
    let l = col_letters(col);
    let d = decimal((a.row + 1) as nat);
    let t = l + d;
    lemma_decimal((a.row + 1) as nat);
    lemma_letter_run(t);
    lemma_col_letters_read(col, t);
    assert(is_digit(d[0]));
    assert(t[l.len() as int] == d[0]);
    assert(letter_run(t) == l.len()) by {
        if letter_run(t) < l.len() {
            assert(is_letter(t[letter_run(t)]));
        }
        if letter_run(t) > l.len() {
            assert(is_letter(t[l.len() as int]));
        }
    }
    assert(t.skip(l.len() as int) =~= d);
}

// ── Ranges ──────────────────────────────────────────────────────────────────

/// The cells of row `r` of a range: its columns `start.col..=end.col`, or
/// just `start.col` when the range runs backwards.
pub open spec fn row_cells(rg: CellRange, r: int) -> Seq<CellAddr> {
    if rg.start.col <= rg.end.col {
        Seq::new(
            (rg.end.col - rg.start.col + 1) as nat,
            |k: int| CellAddr { col: (rg.start.col + k) as usize, row: r as usize },
        )
    } else {
        seq![CellAddr { col: rg.start.col, row: r as usize }]
    }
}

/// The cells of rows `r..=end.row` of a range, row by row.
pub open spec fn rows_cells(rg: CellRange, r: int) -> Seq<CellAddr>
    decreases rg.end.row + 1 - r,
{
    if r < 0 || r > rg.end.row {
        seq![]
    } else {
        row_cells(rg, r) + rows_cells(rg, r + 1)
    }
}

/// The cells of a range in row-major order.
pub open spec fn range_cells(rg: CellRange) -> Seq<CellAddr> {
    rows_cells(rg, rg.start.row as int)
}

/// A walk over the cells of a range in row-major order.
pub struct CellRangeIter {
    range: CellRange,
    current_col: usize,
    current_row: usize,
}

/// The state of a walk: its range and the next cell.
pub struct CellRangeIterView {
    pub range: CellRange,
    pub col: int,
    pub row: int,
}

impl View for CellRangeIter {
    type V = CellRangeIterView;

    closed spec fn view(&self) -> CellRangeIterView {
        CellRangeIterView { range: self.range, col: self.current_col as int, row: self.current_row as int }
    }
}

impl CellRange {
    /// A walk over the range's cells, starting at its first cell.
    pub fn into_iter(self) -> (r: CellRangeIter)
        ensures
            r@ == (CellRangeIterView { range: self, col: self.start.col as int, row: self.start.row as int }),
    {
        CellRangeIter { range: self, current_col: self.start.col, current_row: self.start.row }
    }

    /// The range's cells in row-major order.
    pub fn cells(&self) -> (r: Vec<CellAddr>)
        requires
            self.end.row < usize::MAX,
        ensures
            r@ == range_cells(*self),
    {
        let rg = *self;
        let mut out: Vec<CellAddr> = Vec::new();
        let mut r = rg.start.row;
        while r <= rg.end.row
            invariant
                rg == *self,
                rg.end.row < usize::MAX,
                rg.start.row <= r <= rg.end.row + 1 || r == rg.start.row,
                out@ + rows_cells(rg, r as int) == rows_cells(rg, rg.start.row as int),
            decreases rg.end.row + 1 - r,
        {
            let ghost before = out@;
            if rg.start.col <= rg.end.col {
                let mut c = rg.start.col;
                loop
                    invariant_except_break
                        rg.start.col <= c <= rg.end.col,
                        out@ == before + row_cells(rg, r as int).take(c - rg.start.col),
                    invariant
                        rg.start.col <= rg.end.col,
                        rg.end.row < usize::MAX,
                        r <= rg.end.row,
                    ensures
                        out@ == before + row_cells(rg, r as int),
                    decreases rg.end.col - c,
                {
                    out.push(CellAddr { col: c, row: r });
                    assert(row_cells(rg, r as int).take(c - rg.start.col + 1) =~= row_cells(rg, r as int).take(
                        c - rg.start.col,
                    ).push(CellAddr { col: c, row: r }));
                    if c == rg.end.col {
                        assert(row_cells(rg, r as int).take(c - rg.start.col + 1) =~= row_cells(rg, r as int));
                        break;
                    }
                    c += 1;
                }
            } else {
                out.push(CellAddr { col: rg.start.col, row: r });
            }
            assert(out@ =~= before + row_cells(rg, r as int));
            assert(out@ + rows_cells(rg, r + 1) =~= before + rows_cells(rg, r as int));
            r += 1;
        }
        assert(rows_cells(rg, r as int) =~= Seq::<CellAddr>::empty());
        assert(out@ =~= out@ + Seq::<CellAddr>::empty());
        out
    }
}

/// The cell a walk yields next, if any.
pub open spec fn walk_item(v: CellRangeIterView) -> Option<CellAddr> {
    if v.row > v.range.end.row { None } else { Some(CellAddr { col: v.col as usize, row: v.row as usize }) }
}

/// A walk after one step: the next column, or the first column of the next row.
pub open spec fn walk_step(v: CellRangeIterView) -> CellRangeIterView {
    if v.row > v.range.end.row {
        v
    } else if v.col < v.range.end.col {
        CellRangeIterView { col: v.col + 1, ..v }
    } else {
        CellRangeIterView { col: v.range.start.col as int, row: v.row + 1, ..v }
    }
}

/// The step to the next row stays within `usize`.
pub open spec fn walk_step_ok(v: CellRangeIterView) -> bool {
    v.row <= v.range.end.row && v.col >= v.range.end.col ==> v.row < usize::MAX
}

impl CellRangeIter {
    /// The next cell of the walk, or `None` past the last row.
    pub fn next(&mut self) -> (r: Option<CellAddr>)
        requires
            walk_step_ok(old(self)@),
        ensures
            r == walk_item(old(self)@),
            final(self)@ == walk_step(old(self)@),
    {
        if self.current_row > self.range.end.row {
            return None;
        }
        let addr = CellAddr { col: self.current_col, row: self.current_row };
        if self.current_col < self.range.end.col {
            self.current_col += 1;
        } else {
            self.current_col = self.range.start.col;
            self.current_row += 1;
        }
        Some(addr)
    }
}

} // verus!
