//! Org-mode pipe tables: reading their rows of cells, laying cells out as a
//! table, and translating org column formulas to A1 syntax.
use vstd::prelude::*;
use crate::text::{chars_of, string_of, string_of_range, trim, trim_start, trim_end, skip_ws_forward,
    lemma_split_on_join, lemma_split_on_none, lemma_trim_fixed_ends, lemma_trim_between, is_ws, lead_ws, trail_ws, strip_cr,
    skip_ws_backward, occurs_at, occurs_at_exec, split_on, lemma_split_on_nonempty, text_lines,
    lines_of, blen, string_byte_len};
use crate::sheet::cell::{col_letters, column_letters, decimal, decimal_digits, digits_value, all_digits, is_digit, lemma_digits_mono};

verus! {

/// Error during org table parsing.
#[derive(Debug, Clone)]
pub struct ParseError(pub String);

// ── Specification ───────────────────────────────────────────────────────────

/// `c` from index `i` on with every occurrence of `pat` replaced by `rep`,
/// scanning left to right without overlaps (as `str::replace` does).
pub open spec fn replace_from(c: Seq<char>, pat: Seq<char>, rep: Seq<char>, i: int) -> Seq<char>
    decreases c.len() - i,
{
    if i < 0 || i >= c.len() {
        seq![]
    } else if pat.len() > 0 && occurs_at(c, pat, i) {
        rep + replace_from(c, pat, rep, i + pat.len())
    } else {
        seq![c[i]] + replace_from(c, pat, rep, i + 1)
    }
}

/// Where the run of digits of `c` that starts at `i` ends.
pub open spec fn digits_end(c: Seq<char>, i: int) -> int
    decreases c.len() - i,
{
    if 0 <= i < c.len() && is_digit(c[i]) { digits_end(c, i + 1) } else { i }
}

/// A string of digits as `usize::from_str` reads it: non-empty and in range.
pub open spec fn usize_digits(d: Seq<char>) -> Option<int> {
    if d.len() > 0 && digits_value(d) <= usize::MAX { Some(digits_value(d)) } else { None }
}

/// The letters of 1-indexed column `n` (0 also gives `A`).
pub open spec fn col_letter(n: int) -> Seq<char> {
    if n == 0 {
        seq!['A']
    } else {
        col_letters(n - 1)
    }
}

/// `p` put in front of a result, if there is one.
pub open spec fn prepend(p: Seq<char>, o: Option<Seq<char>>) -> Option<Seq<char>> {
    match o {
        Some(t) => Some(p + t),
        None => None,
    }
}

pub proof fn lemma_digits_end(c: Seq<char>, i: int)
    requires
        0 <= i <= c.len(),
    ensures
        i <= digits_end(c, i) <= c.len(),
        forall|x: int| i <= x < digits_end(c, i) ==> is_digit(#[trigger] c[x]),
        digits_end(c, i) < c.len() ==> !is_digit(c[digits_end(c, i)]),
    decreases c.len() - i,
{
    if i < c.len() && is_digit(c[i]) {
        lemma_digits_end(c, i + 1);
    }
}

/// `c` from index `i` on with org references rewritten: `@R$C` becomes the
/// letters of column `C` and the row `R`; `$C` the letters of `C` and row
/// `row + 1`. A reference whose numbers do not parse stays as `@R` (its `$C`
/// dropped) or `$C`. `None` where the letters or the row number overflow.
pub open spec fn rewrite_refs(c: Seq<char>, i: int, row: int) -> Option<Seq<char>>
    decreases c.len() - i,
{
    if i < 0 || i >= c.len() {
        Some(seq![])
    } else if c[i] == '@' {
        proof { lemma_digits_end(c, i + 1); }
        let j = digits_end(c, i + 1);
        let row_s = c.subrange(i + 1, j);
        if j < c.len() && c[j] == '$' {
            proof { lemma_digits_end(c, j + 1); }
            let k = digits_end(c, j + 1);
            let col_s = c.subrange(j + 1, k);
            match (usize_digits(row_s), usize_digits(col_s)) {
                (Some(r), Some(cv)) => prepend(col_letter(cv) + decimal(r as nat), rewrite_refs(c, k, row)),
                _ => prepend(seq!['@'] + row_s, rewrite_refs(c, k, row)),
            }
        } else {
            prepend(seq!['@'] + row_s, rewrite_refs(c, j, row))
        }
    } else if c[i] == '$' {
        proof { lemma_digits_end(c, i + 1); }
        let k = digits_end(c, i + 1);
        let col_s = c.subrange(i + 1, k);
        match usize_digits(col_s) {
            Some(cv) => if row < usize::MAX {
                prepend(col_letter(cv) + decimal((row + 1) as nat), rewrite_refs(c, k, row))
            } else {
                None
            },
            None => prepend(seq!['$'] + col_s, rewrite_refs(c, k, row)),
        }
    } else {
        prepend(seq![c[i]], rewrite_refs(c, i + 1, row))
    }
}

/// An org formula in A1 syntax: trimmed; kept when it opens with `=`; else
/// `vsum` and `vmean` renamed `SUM` and `AVERAGE`, the range separator `..`
/// written `:`, and references rewritten.
pub open spec fn translated(f: Seq<char>, row: int) -> Option<Seq<char>> {
    let s = trim(f);
    if s.len() > 0 && s[0] == '=' {
        Some(s)
    } else {
        let renamed = replace_from(
            replace_from(s, seq!['v', 's', 'u', 'm'], seq!['S', 'U', 'M'], 0),
            seq!['v', 'm', 'e', 'a', 'n'],
            seq!['A', 'V', 'E', 'R', 'A', 'G', 'E'],
            0,
        );
        let ranged = replace_from(renamed, seq!['.', '.'], seq![':'], 0);
        rewrite_refs(ranged, 0, row)
    }
}

// ── Implementation ──────────────────────────────────────────────────────────

/// Every occurrence of `pat` in `c` replaced by `rep`, left to right.
fn replace_chars(c: &Vec<char>, pat: &Vec<char>, rep: &Vec<char>) -> (r: Vec<char>)
    requires
        pat@.len() > 0,
    ensures
        r@ == replace_from(c@, pat@, rep@, 0),
{
    let mut out: Vec<char> = Vec::new();
    let mut i: usize = 0;
    while i < c.len()
        invariant
            i <= c@.len() + pat@.len(),
            pat@.len() > 0,
            out@ + replace_from(c@, pat@, rep@, i as int) == replace_from(c@, pat@, rep@, 0),
        decreases c@.len() - i,
    {
        let ghost before = out@;
        if occurs_at_exec(c.as_slice(), pat.as_slice(), i) {
            let mut k: usize = 0;
            while k < rep.len()
                invariant
                    k <= rep@.len(),
                    out@ == before + rep@.take(k as int),
                decreases rep@.len() - k,
            {
                out.push(rep[k]);
                assert(before + rep@.take(k + 1) =~= (before + rep@.take(k as int)).push(rep@[k as int]));
                k += 1;
            }
            assert(rep@.take(rep@.len() as int) =~= rep@);
            assert(out@ + replace_from(c@, pat@, rep@, i + pat@.len()) =~= before + replace_from(
                c@,
                pat@,
                rep@,
                i as int,
            ));
            i += pat.len();
        } else {
            out.push(c[i]);
            assert(out@ + replace_from(c@, pat@, rep@, i + 1) =~= before + replace_from(
                c@,
                pat@,
                rep@,
                i as int,
            ));
            i += 1;
        }
    }
    assert(out@ =~= out@ + replace_from(c@, pat@, rep@, i as int));
    out
}

/// The end of the run of digits of `c` that starts at `i`.
fn digits_end_at(c: &Vec<char>, i: usize) -> (r: usize)
    requires
        i <= c@.len(),
    ensures
        r == digits_end(c@, i as int),
{
    proof { lemma_digits_end(c@, i as int); }
    let mut k = i;
    while k < c.len() && '0' <= c[k] && c[k] <= '9'
        invariant
            i <= k <= digits_end(c@, i as int),
            digits_end(c@, i as int) == digits_end(c@, k as int),
        decreases c@.len() - k,
    {
        proof { lemma_digits_end(c@, k + 1); }
        k += 1;
    }
    k
}

/// The value of the digits `c[a..b]`, or `None` when there are none or it
/// does not fit in `usize`.
fn parse_digits(c: &Vec<char>, a: usize, b: usize) -> (r: Option<usize>)
    requires
        a <= b <= c@.len(),
        forall|x: int| a <= x < b ==> is_digit(#[trigger] c@[x]),
    ensures
        match usize_digits(c@.subrange(a as int, b as int)) {
            Some(v) => r is Some && r->0 == v,
            None => r is None,
        },
{
    let ghost d = c@.subrange(a as int, b as int);
    assert(all_digits(d));
    if a == b {
        return None;
    }
    let mut val: usize = 0;
    let mut k = a;
    while k < b
        invariant
            a <= k <= b <= c@.len(),
            d == c@.subrange(a as int, b as int),
            all_digits(d),
            val == digits_value(d.take(k - a)),
        decreases b - k,
    {
        assert(d[k - a] == c@[k as int]);
        assert(is_digit(d[k - a]));
        let dv = (c[k] as u32 - 48) as usize;
        assert(d.take(k - a + 1).drop_last() =~= d.take(k - a));
        assert(d.take(k - a + 1).last() == d[k - a]);
        let wide: u128 = val as u128 * 10 + dv as u128;
        assert(wide == digits_value(d.take(k - a + 1)));
        if wide > usize::MAX as u128 {
            proof { lemma_digits_mono(d, k - a + 1, d.len() as int); }
            assert(d.take(d.len() as int) =~= d);
            return None;
        }
        val = wide as usize;
        k += 1;
    }
    assert(d.take(d.len() as int) =~= d);
    Some(val)
}

/// The letters of 1-indexed column `n`.
fn col_letter_chars(n: usize) -> (r: Vec<char>)
    ensures
        r@ == col_letter(n as int),
{
    if n == 0 {
        return vec!['A'];
    }
    column_letters(n - 1)
}

/// Appends `v` to `out`.
fn push_all(out: &mut Vec<char>, v: &Vec<char>)
    ensures
        final(out)@ == old(out)@ + v@,
{
    let mut k: usize = 0;
    while k < v.len()
        invariant
            k <= v@.len(),
            out@ == old(out)@ + v@.take(k as int),
        decreases v@.len() - k,
    {
        out.push(v[k]);
        assert(old(out)@ + v@.take(k + 1) =~= (old(out)@ + v@.take(k as int)).push(v@[k as int]));
        k += 1;
    }
    assert(v@.take(v@.len() as int) =~= v@);
}

/// Appends `c[a..b]` to `out`.
fn push_span(out: &mut Vec<char>, c: &Vec<char>, a: usize, b: usize)
    requires
        a <= b <= c@.len(),
    ensures
        final(out)@ == old(out)@ + c@.subrange(a as int, b as int),
{
    let mut k = a;
    while k < b
        invariant
            a <= k <= b <= c@.len(),
            out@ == old(out)@ + c@.subrange(a as int, k as int),
        decreases b - k,
    {
        out.push(c[k]);
        assert(old(out)@ + c@.subrange(a as int, k + 1) =~= (old(out)@ + c@.subrange(a as int, k as int)).push(
            c@[k as int],
        ));
        k += 1;
    }
}

/// The references of `c` rewritten for row `row`.
fn rewrite_references(c: &Vec<char>, row: usize) -> (r: Vec<char>)
    requires
        rewrite_refs(c@, 0, row as int) is Some,
    ensures
        r@ == rewrite_refs(c@, 0, row as int)->0,
{
    let mut out: Vec<char> = Vec::new();
    let mut i: usize = 0;
    let len = c.len();
    assert(out@ =~= Seq::<char>::empty());
    while i < len
        invariant
            i <= len == c@.len(),
            prepend(out@, rewrite_refs(c@, i as int, row as int)) == rewrite_refs(c@, 0, row as int),
            rewrite_refs(c@, 0, row as int) is Some,
        decreases len - i,
    {
        let ghost before = out@;
        let ghost rest = rewrite_refs(c@, i as int, row as int);
        assert(rest is Some) by {
            if rest is None {
                assert(prepend(before, rest) is None);
            }
        }
        if c[i] == '@' {
            proof { lemma_digits_end(c@, i + 1); }
            let j = digits_end_at(c, i + 1);
            if j < len && c[j] == '$' {
                proof { lemma_digits_end(c@, j + 1); }
                let k = digits_end_at(c, j + 1);
                let rv = parse_digits(c, i + 1, j);
                let cv = parse_digits(c, j + 1, k);
                match (rv, cv) {
                    (Some(r), Some(cn)) => {
                        assert(usize_digits(c@.subrange(i + 1, j as int)) == Some(r as int));
                        assert(usize_digits(c@.subrange(j + 1, k as int)) == Some(cn as int));
                        let letters = col_letter_chars(cn);
                        push_all(&mut out, &letters);
                        let ds = decimal_digits(r);
                        push_all(&mut out, &ds);
                        assert(out@ =~= before + (col_letter(cn as int) + decimal(r as nat)));
                    },
                    _ => {
                        out.push('@');
                        push_span(&mut out, c, i + 1, j);
                        assert(out@ =~= before + (seq!['@'] + c@.subrange(i + 1, j as int)));
                    },
                }
                i = k;
            } else {
                out.push('@');
                push_span(&mut out, c, i + 1, j);
                assert(out@ =~= before + (seq!['@'] + c@.subrange(i + 1, j as int)));
                i = j;
            }
        } else if c[i] == '$' {
            proof { lemma_digits_end(c@, i + 1); }
            let k = digits_end_at(c, i + 1);
            match parse_digits(c, i + 1, k) {
                Some(cn) => {
                    assert(usize_digits(c@.subrange(i + 1, k as int)) == Some(cn as int));
                    assert(row < usize::MAX);
                    let letters = col_letter_chars(cn);
                    push_all(&mut out, &letters);
                    let ds = decimal_digits(row + 1);
                    push_all(&mut out, &ds);
                    assert(out@ =~= before + (col_letter(cn as int) + decimal((row + 1) as nat)));
                },
                None => {
                    out.push('$');
                    push_span(&mut out, c, i + 1, k);
                    assert(out@ =~= before + (seq!['$'] + c@.subrange(i + 1, k as int)));
                },
            }
            i = k;
        } else {
            out.push(c[i]);
            assert(out@ =~= before + seq![c@[i as int]]);
            i += 1;
        }
    }
    assert(out@ =~= out@ + Seq::<char>::empty());
    out
}

/// Translate an org-style column formula to A1 syntax for row `current_row`
/// (0-indexed): `$1` becomes `A` of the next row number, `@2$3` becomes `C2`,
/// `vsum`/`vmean` become `SUM`/`AVERAGE`, `$1..$3` becomes `A1:C1`; a formula that opens with `=`
/// passes through trimmed.
pub fn translate_formula(org_formula: &str, current_row: usize) -> (r: String)
    requires
        translated(org_formula@, current_row as int) is Some,
    ensures
        r@ == translated(org_formula@, current_row as int)->0,
{
    let v = chars_of(org_formula);
    let len = v.len();
    let a = skip_ws_forward(v.as_slice(), 0, len);
    let b = skip_ws_backward(v.as_slice(), a, len);
    proof {
        assert(v@.subrange(0, len as int) =~= v@);
        assert(trim_start(v@) =~= v@.subrange(a as int, len as int));
        assert(trim_end(v@.subrange(a as int, len as int)) =~= v@.subrange(a as int, b as int));
    }
    if a < b && v[a] == '=' {
        return string_of_range(v.as_slice(), a, b);
    }
    let mut s: Vec<char> = Vec::new();
    push_span(&mut s, &v, a, b);
    assert(s@ =~= trim(org_formula@));
    let r1 = replace_chars(&s, &vec!['v', 's', 'u', 'm'], &vec!['S', 'U', 'M']);
    let r2 = replace_chars(&r1, &vec!['v', 'm', 'e', 'a', 'n'], &vec!['A', 'V', 'E', 'R', 'A', 'G', 'E']);
    let dots = vec!['.', '.'];
    let colon = vec![':'];
    assert(dots@ =~= seq!['.', '.']);
    assert(colon@ =~= seq![':']);
    let r3 = replace_chars(&r2, &dots, &colon);
    let out = rewrite_references(&r3, current_row);
    string_of(out.as_slice())
}


// ── Reading a pipe table ────────────────────────────────────────────────────

/// The parts that are not empty, in order.
pub open spec fn keep_nonempty(ps: Seq<Seq<char>>) -> Seq<Seq<char>>
    decreases ps.len(),
{
    if ps.len() == 0 {
        Seq::empty()
    } else if ps.last().len() > 0 {
        keep_nonempty(ps.drop_last()).push(ps.last())
    } else {
        keep_nonempty(ps.drop_last())
    }
}

/// Each part trimmed.
pub open spec fn trimmed_all(ps: Seq<Seq<char>>) -> Seq<Seq<char>> {
    ps.map_values(|p: Seq<char>| trim(p))
}

/// The cells with one empty cell dropped at each end.
pub open spec fn strip_outer(cs: Seq<Seq<char>>) -> Seq<Seq<char>> {
    let a = if cs.len() > 0 && cs[0].len() == 0 { cs.drop_first() } else { cs };
    if a.len() > 0 && a.last().len() == 0 { a.drop_last() } else { a }
}

/// Number of leading `|` of `s`.
pub open spec fn pipes_front(s: Seq<char>) -> int
    decreases s.len(),
{
    if s.len() > 0 && s[0] == '|' { 1 + pipes_front(s.drop_first()) } else { 0 }
}

/// Number of trailing `|` of `s`.
pub open spec fn pipes_back(s: Seq<char>) -> int
    decreases s.len(),
{
    if s.len() > 0 && s.last() == '|' { 1 + pipes_back(s.drop_last()) } else { 0 }
}

/// `s` without its leading and then its trailing pipes.
pub open spec fn inner_of(s: Seq<char>) -> Seq<char> {
    let t = s.skip(pipes_front(s));
    t.take(t.len() - pipes_back(t))
}

/// A separator row: between its outer pipes only `-`, `+` and spaces, and
/// at least one character.
pub open spec fn is_separator(s: Seq<char>) -> bool {
    let inner = inner_of(s);
    inner.len() > 0 && forall|i: int| 0 <= i < inner.len() ==> (#[trigger] inner[i] == '-' || inner[i]
        == '+' || inner[i] == ' ')
}

/// The cells of a line of a pipe table: `None` for a line that, trimmed,
/// does not open with `|`, for a separator row and for a row without cells.
/// The line is split at every `|`; empty pieces are dropped, the others
/// trimmed, and one empty cell is dropped at each end.
pub open spec fn org_row(line: Seq<char>) -> Option<Seq<Seq<char>>> {
    let t = trim(line);
    if t.len() == 0 || t[0] != '|' || is_separator(t) {
        None
    } else {
        let cells = strip_outer(trimmed_all(keep_nonempty(split_on(t, '|'))));
        if cells.len() == 0 { None } else { Some(cells) }
    }
}

/// The rows of cells of all table lines, in order.
pub open spec fn org_rows(lines: Seq<Seq<char>>) -> Seq<Seq<Seq<char>>>
    decreases lines.len(),
{
    if lines.len() == 0 {
        Seq::empty()
    } else {
        match org_row(lines.last()) {
            Some(r) => org_rows(lines.drop_last()).push(r),
            None => org_rows(lines.drop_last()),
        }
    }
}

proof fn lemma_pipes_front(s: Seq<char>)
    ensures
        0 <= pipes_front(s) <= s.len(),
        forall|i: int| 0 <= i < pipes_front(s) ==> s[i] == '|',
        pipes_front(s) < s.len() ==> s[pipes_front(s)] != '|',
    decreases s.len(),
{
    if s.len() > 0 && s[0] == '|' {
        lemma_pipes_front(s.drop_first());
        assert forall|i: int| 0 <= i < pipes_front(s) implies s[i] == '|' by {
            if i > 0 {
                assert(s[i] == s.drop_first()[i - 1]);
            }
        }
    }
}

proof fn lemma_pipes_back(s: Seq<char>)
    ensures
        0 <= pipes_back(s) <= s.len(),
        forall|i: int| s.len() - pipes_back(s) <= i < s.len() ==> s[i] == '|',
        pipes_back(s) < s.len() ==> s[s.len() - 1 - pipes_back(s)] != '|',
    decreases s.len(),
{
    if s.len() > 0 && s.last() == '|' {
        lemma_pipes_back(s.drop_last());
        assert forall|i: int| s.len() - pipes_back(s) <= i < s.len() implies s[i] == '|' by {
            if i < s.len() - 1 {
                assert(s[i] == s.drop_last()[i]);
            }
        }
    }
}

/// The trimmed span of `v[from..to]`, as its bounds.
fn trim_span(v: &[char], from: usize, to: usize) -> (r: (usize, usize))
    requires
        from <= to <= v@.len(),
    ensures
        from <= r.0 <= r.1 <= to,
        v@.subrange(r.0 as int, r.1 as int) == trim(v@.subrange(from as int, to as int)),
{
    let a = skip_ws_forward(v, from, to);
    let b = skip_ws_backward(v, a, to);
    proof {
        assert(trim_start(v@.subrange(from as int, to as int)) =~= v@.subrange(a as int, to as int));
        assert(trim_end(v@.subrange(a as int, to as int)) =~= v@.subrange(a as int, b as int));
    }
    (a, b)
}

/// Whether `v[lo..hi]` is a separator row.
fn separator_span(v: &[char], lo: usize, hi: usize) -> (r: bool)
    requires
        lo <= hi <= v@.len(),
    ensures
        r == is_separator(v@.subrange(lo as int, hi as int)),
{
    let ghost s = v@.subrange(lo as int, hi as int);
    proof {
        lemma_pipes_front(s);
    }
    let mut a = lo;
    while a < hi && v[a] == '|'
        invariant
            lo <= a <= hi <= v@.len(),
            s == v@.subrange(lo as int, hi as int),
            a - lo <= pipes_front(s),
            0 <= pipes_front(s) <= s.len(),
            forall|i: int| 0 <= i < pipes_front(s) ==> s[i] == '|',
            pipes_front(s) < s.len() ==> s[pipes_front(s)] != '|',
        decreases hi - a,
    {
        assert(s[a - lo] == v@[a as int]);
        a += 1;
    }
    proof {
        if a < hi {
            assert(s[a - lo] == v@[a as int]);
        }
        assert(s.skip(pipes_front(s)) =~= v@.subrange(a as int, hi as int));
    }
    let ghost t = v@.subrange(a as int, hi as int);
    proof {
        lemma_pipes_back(t);
    }
    let mut b = hi;
    while b > a && v[b - 1] == '|'
        invariant
            lo <= a <= b <= hi <= v@.len(),
            t == v@.subrange(a as int, hi as int),
            hi - b <= pipes_back(t),
            0 <= pipes_back(t) <= t.len(),
            forall|i: int| t.len() - pipes_back(t) <= i < t.len() ==> t[i] == '|',
            pipes_back(t) < t.len() ==> t[t.len() - 1 - pipes_back(t)] != '|',
        decreases b - a,
    {
        assert(t[b - 1 - a] == v@[b - 1]);
        b -= 1;
    }
    proof {
        if b > a {
            assert(t[b - 1 - a] == v@[b - 1]);
        }
        assert(inner_of(s) =~= v@.subrange(a as int, b as int));
    }
    if a == b {
        return false;
    }
    let mut i = a;
    while i < b
        invariant
            a <= i <= b <= v@.len(),
            lo <= a,
            b <= hi,
            s == v@.subrange(lo as int, hi as int),
            inner_of(s) == v@.subrange(a as int, b as int),
            forall|j: int| a <= j < i ==> (v@[j] == '-' || v@[j] == '+' || v@[j] == ' '),
        decreases b - i,
    {
        let c = v[i];
        if !(c == '-' || c == '+' || c == ' ') {
            assert(inner_of(s)[i - a] == c);
            return false;
        }
        i += 1;
    }
    proof {
        let inner = inner_of(s);
        assert forall|j: int| 0 <= j < inner.len() implies (#[trigger] inner[j] == '-' || inner[j]
            == '+' || inner[j] == ' ') by {
            assert(inner[j] == v@[a + j]);
        }
    }
    true
}

/// The cells of the row `v[lo..hi]`, a trimmed line that opens with `|`.
fn split_cells(v: &[char], lo: usize, hi: usize) -> (r: Vec<Vec<char>>)
    requires
        lo <= hi <= v@.len(),
    ensures
        r.deep_view() == trimmed_all(keep_nonempty(split_on(v@.subrange(lo as int, hi as int), '|'))),
{
    let ghost t = v@.subrange(lo as int, hi as int);
    let mut done: Vec<Vec<char>> = Vec::new();
    let mut start: usize = lo;
    let mut i: usize = lo;
    assert(t.take(0) =~= Seq::<char>::empty());
    assert(v@.subrange(lo as int, lo as int) =~= Seq::<char>::empty());
    while i < hi
        invariant
            lo <= start <= i <= hi <= v@.len(),
            t == v@.subrange(lo as int, hi as int),
            split_on(t.take(i - lo), '|').len() >= 1,
            split_on(t.take(i - lo), '|').last() == v@.subrange(start as int, i as int),
            done.deep_view() == trimmed_all(keep_nonempty(split_on(t.take(i - lo), '|').drop_last())),
        decreases hi - i,
    {
        let ghost p = t.take(i - lo);
        let ghost p1 = t.take(i - lo + 1);
        assert(p1.drop_last() =~= p);
        assert(p1.last() == v@[i as int]);
        proof {
            lemma_split_on_nonempty(p, '|');
        }
        let ghost prev = split_on(p, '|');
        if v[i] == '|' {
            assert(split_on(p1, '|') == prev.push(seq![]));
            assert(split_on(p1, '|').drop_last() =~= prev);
            assert(prev.drop_last().push(prev.last()) =~= prev);
            if start < i {
                let (a, b) = trim_span(v, start, i);
                let mut cell: Vec<char> = Vec::new();
                let mut k = a;
                while k < b
                    invariant
                        a <= k <= b <= v@.len(),
                        cell@ == v@.subrange(a as int, k as int),
                    decreases b - k,
                {
                    cell.push(v[k]);
                    assert(v@.subrange(a as int, k as int).push(v@[k as int]) =~= v@.subrange(
                        a as int,
                        k + 1,
                    ));
                    k += 1;
                }
                let ghost before = done.deep_view();
                assert(cell.deep_view() =~= cell@);
                done.push(cell);
                assert(done.deep_view() =~= before.push(trim(prev.last())));
            }
            assert(done.deep_view() =~= trimmed_all(keep_nonempty(prev)));
            start = i + 1;
            assert(split_on(p1, '|').last() =~= v@.subrange(start as int, (i + 1) as int));
        } else {
            assert(split_on(p1, '|') == prev.update(prev.len() - 1, prev.last().push(v@[i as int])));
            assert(split_on(p1, '|').drop_last() =~= prev.drop_last());
            assert(split_on(p1, '|').last() =~= v@.subrange(start as int, (i + 1) as int));
        }
        i += 1;
    }
    assert(t.take(hi - lo) =~= t);
    proof {
        lemma_split_on_nonempty(t, '|');
    }
    let ghost parts = split_on(t, '|');
    assert(parts.drop_last().push(parts.last()) =~= parts);
    if start < hi {
        let (a, b) = trim_span(v, start, hi);
        let mut cell: Vec<char> = Vec::new();
        let mut k = a;
        while k < b
            invariant
                a <= k <= b <= v@.len(),
                cell@ == v@.subrange(a as int, k as int),
            decreases b - k,
        {
            cell.push(v[k]);
            assert(v@.subrange(a as int, k as int).push(v@[k as int]) =~= v@.subrange(a as int, k + 1));
            k += 1;
        }
        let ghost before = done.deep_view();
        assert(cell.deep_view() =~= cell@);
        done.push(cell);
        assert(done.deep_view() =~= before.push(trim(parts.last())));
    }
    assert(done.deep_view() =~= trimmed_all(keep_nonempty(parts)));
    done
}

/// The cells of one line of a pipe table, or `None` when it holds none.
pub fn org_row_cells(line: &str) -> (r: Option<Vec<String>>)
    ensures
        match r {
            Some(cells) => org_row(line@) == Some(cells.deep_view()),
            None => org_row(line@) is None,
        },
{
    let v = chars_of(line);
    let n = v.len();
    let (lo, hi) = trim_span(v.as_slice(), 0, n);
    assert(v@.subrange(0, n as int) =~= line@);
    let ghost t = trim(line@);
    assert(t == v@.subrange(lo as int, hi as int));
    if lo == hi {
        return None;
    }
    assert(t[0] == v@[lo as int]);
    if v[lo] != '|' {
        return None;
    }
    if separator_span(v.as_slice(), lo, hi) {
        return None;
    }
    let mut cells = split_cells(v.as_slice(), lo, hi);
    let ghost all = cells.deep_view();
    if cells.len() > 0 && cells[0].len() == 0 {
        cells.remove(0);
        assert(cells.deep_view() =~= all.drop_first());
    }
    let ghost mid = cells.deep_view();
    assert(mid == (if all.len() > 0 && all[0].len() == 0 { all.drop_first() } else { all }));
    let m = cells.len();
    if m > 0 && cells[m - 1].len() == 0 {
        cells.pop();
        assert(cells.deep_view() =~= mid.drop_last());
    }
    assert(cells.deep_view() == strip_outer(all));
    if cells.len() == 0 {
        return None;
    }
    let mut out: Vec<String> = Vec::new();
    let mut i: usize = 0;
    while i < cells.len()
        invariant
            i <= cells@.len(),
            out.deep_view() == cells.deep_view().take(i as int),
        decreases cells@.len() - i,
    {
        let cell = string_of(cells[i].as_slice());
        assert(cells.deep_view()[i as int] == cells@[i as int]@);
        let ghost before = out.deep_view();
        out.push(cell);
        assert(out.deep_view() =~= before.push(cells@[i as int]@));
        assert(cells.deep_view().take(i as int).push(cells.deep_view()[i as int]) =~= cells.deep_view().take(i + 1));
        assert(out.deep_view() =~= cells.deep_view().take(i + 1));
        i += 1;
    }
    assert(cells.deep_view().take(cells@.len() as int) =~= cells.deep_view());
    Some(out)
}

/// The rows of cells of a pipe table: every line that, trimmed, opens with
/// `|` and is not a separator row gives the row of its cells; other lines
/// are ignored.
pub fn org_table_rows(text: &str) -> (rows: Vec<Vec<String>>)
    ensures
        rows.deep_view() == org_rows(text_lines(text@)),
{
    let lines = lines_of(text);
    let ghost ls = lines.deep_view();
    let mut rows: Vec<Vec<String>> = Vec::new();
    let mut i: usize = 0;
    while i < lines.len()
        invariant
            i <= lines@.len(),
            ls == lines.deep_view(),
            ls == text_lines(text@),
            rows.deep_view() == org_rows(ls.take(i as int)),
        decreases lines@.len() - i,
    {
        assert(ls.take(i + 1).drop_last() =~= ls.take(i as int));
        assert(ls.take(i + 1).last() == lines@[i as int]@);
        match org_row_cells(lines[i].as_str()) {
            Some(cells) => {
                let ghost before = rows.deep_view();
                rows.push(cells);
                assert(rows.deep_view() =~= before.push(cells.deep_view()));
            },
            None => {},
        }
        i += 1;
    }
    assert(ls.take(lines@.len() as int) =~= ls);
    rows
}

// ── Writing a pipe table ────────────────────────────────────────────────────

/// A cell to lay out: its text, and whether it holds a number or nothing
/// (a column of such cells is right-aligned).
#[derive(Debug, Clone)]
pub struct OrgCell {
    pub text: String,
    pub numeric: bool,
}

/// `n` copies of `c`.
pub open spec fn repeated(c: char, n: int) -> Seq<char> {
    Seq::new(if n > 0 { n as nat } else { 0 }, |i: int| c)
}

/// Width of column `c` over the first `n` rows: the longest text in bytes,
/// at least 1.
pub open spec fn width_upto(t: Seq<Vec<OrgCell>>, c: int, n: int) -> int
    decreases n,
{
    if n <= 0 {
        1
    } else {
        let w = width_upto(t, c, n - 1);
        let b = blen(t[n - 1]@[c].text@) as int;
        if b > w { b } else { w }
    }
}

/// Width of column `c`.
pub open spec fn col_width(t: Seq<Vec<OrgCell>>, c: int) -> int {
    width_upto(t, c, t.len() as int)
}

/// Every cell of column `c` holds a number or nothing.
pub open spec fn col_numeric(t: Seq<Vec<OrgCell>>, c: int) -> bool {
    forall|r: int| 0 <= r < t.len() ==> #[trigger] t[r]@[c].numeric
}

/// A text padded with spaces to `w` characters, on the left when `right`.
pub open spec fn padded(text: Seq<char>, w: int, right: bool) -> Seq<char> {
    let fill = repeated(' ', w - text.len());
    if right { fill + text } else { text + fill }
}

/// The padded cells `0..n` of row `r`, joined by ` | `.
pub open spec fn row_body(t: Seq<Vec<OrgCell>>, r: int, n: int) -> Seq<char>
    decreases n,
{
    let cell = padded(t[r]@[n - 1].text@, col_width(t, n - 1), col_numeric(t, n - 1));
    if n <= 0 {
        Seq::empty()
    } else if n == 1 {
        cell
    } else {
        row_body(t, r, n - 1) + seq![' ', '|', ' '] + cell
    }
}

/// The dashes of columns `0..n` of the separator row, joined by `+`.
pub open spec fn sep_body(t: Seq<Vec<OrgCell>>, n: int) -> Seq<char>
    decreases n,
{
    let part = seq!['-'] + repeated('-', col_width(t, n - 1)) + seq!['-'];
    if n <= 0 {
        Seq::empty()
    } else if n == 1 {
        part
    } else {
        sep_body(t, n - 1) + seq!['+'] + part
    }
}

/// Line of row `r`: `| a | b |`.
pub open spec fn row_line(t: Seq<Vec<OrgCell>>, r: int, cols: int) -> Seq<char> {
    seq!['|', ' '] + row_body(t, r, cols) + seq![' ', '|']
}

/// The separator row: `|---+---|`.
pub open spec fn sep_line(t: Seq<Vec<OrgCell>>, cols: int) -> Seq<char> {
    seq!['|'] + sep_body(t, cols) + seq!['|']
}

/// The lines of rows `0..n`, the separator row after the first, joined by
/// newlines.
pub open spec fn table_upto(t: Seq<Vec<OrgCell>>, cols: int, n: int) -> Seq<char>
    decreases n,
{
    if n <= 0 {
        Seq::empty()
    } else if n == 1 {
        row_line(t, 0, cols) + seq!['\n'] + sep_line(t, cols)
    } else {
        table_upto(t, cols, n - 1) + seq!['\n'] + row_line(t, n - 1, cols)
    }
}

/// The text of a table: empty without rows or columns.
pub open spec fn org_table_text(t: Seq<Vec<OrgCell>>, cols: int) -> Seq<char> {
    if t.len() == 0 || cols == 0 {
        Seq::empty()
    } else {
        table_upto(t, cols, t.len() as int)
    }
}

pub open spec fn rect(t: Seq<Vec<OrgCell>>, cols: int) -> bool {
    forall|r: int| 0 <= r < t.len() ==> #[trigger] t[r]@.len() == cols
}

/// Appends `n` copies of `c` to `out`.
fn push_repeated(out: &mut Vec<char>, c: char, n: usize)
    ensures
        final(out)@ == old(out)@ + repeated(c, n as int),
{
    let mut k: usize = 0;
    while k < n
        invariant
            k <= n,
            out@ == old(out)@ + repeated(c, k as int),
        decreases n - k,
    {
        out.push(c);
        assert(old(out)@ + repeated(c, k + 1) =~= (old(out)@ + repeated(c, k as int)).push(c));
        k += 1;
    }
}

/// Widths and alignment of every column.
fn column_layout(table: &Vec<Vec<OrgCell>>, cols: usize) -> (r: (Vec<usize>, Vec<bool>))
    requires
        rect(table@, cols as int),
    ensures
        r.0@.len() == cols,
        r.1@.len() == cols,
        forall|c: int| 0 <= c < cols ==> r.0@[c] == col_width(table@, c),
        forall|c: int| 0 <= c < cols ==> r.1@[c] == col_numeric(table@, c),
{
    let mut widths: Vec<usize> = Vec::new();
    let mut numeric: Vec<bool> = Vec::new();
    let mut c: usize = 0;
    while c < cols
        invariant
            c <= cols,
            rect(table@, cols as int),
            widths@.len() == c,
            numeric@.len() == c,
            forall|q: int| 0 <= q < c ==> widths@[q] == col_width(table@, q),
            forall|q: int| 0 <= q < c ==> numeric@[q] == col_numeric(table@, q),
        decreases cols - c,
    {
        let mut w: usize = 1;
        let mut all = true;
        let mut r: usize = 0;
        while r < table.len()
            invariant
                r <= table@.len(),
                c < cols,
                rect(table@, cols as int),
                w == width_upto(table@, c as int, r as int),
                all == (forall|q: int| 0 <= q < r ==> #[trigger] table@[q]@[c as int].numeric),
            decreases table@.len() - r,
        {
            assert(table@[r as int]@.len() == cols);
            let n = string_byte_len(&table[r][c].text);
            if n > w {
                w = n;
            }
            all = all && table[r][c].numeric;
            r += 1;
        }
        widths.push(w);
        numeric.push(all);
        c += 1;
    }
    (widths, numeric)
}

/// Appends the padded cells of row `r`, joined by ` | `.
fn push_row_body(
    out: &mut Vec<char>,
    table: &Vec<Vec<OrgCell>>,
    r: usize,
    cols: usize,
    widths: &Vec<usize>,
    numeric: &Vec<bool>,
)
    requires
        r < table@.len(),
        rect(table@, cols as int),
        widths@.len() == cols,
        numeric@.len() == cols,
        forall|q: int| 0 <= q < cols ==> widths@[q] == col_width(table@, q),
        forall|q: int| 0 <= q < cols ==> numeric@[q] == col_numeric(table@, q),
    ensures
        final(out)@ == old(out)@ + row_body(table@, r as int, cols as int),
{
    let ghost head = out@;
    let mut c: usize = 0;
    assert(head =~= head + row_body(table@, r as int, 0));
    while c < cols
        invariant
            c <= cols,
            r < table@.len(),
            rect(table@, cols as int),
            widths@.len() == cols,
            numeric@.len() == cols,
            forall|q: int| 0 <= q < cols ==> widths@[q] == col_width(table@, q),
            forall|q: int| 0 <= q < cols ==> numeric@[q] == col_numeric(table@, q),
            head == old(out)@,
            out@ == head + row_body(table@, r as int, c as int),
        decreases cols - c,
    {
        assert(table@[r as int]@.len() == cols);
        let ghost pre = out@;
        if c > 0 {
            out.push(' ');
            out.push('|');
            out.push(' ');
        }
        let text = chars_of(table[r][c].text.as_str());
        let n = text.len();
        let w = widths[c];
        let fill = if n < w {
            w - n
        } else {
            0
        };
        if numeric[c] {
            push_repeated(out, ' ', fill);
            push_all(out, &text);
        } else {
            push_all(out, &text);
            push_repeated(out, ' ', fill);
        }
        proof {
            let cell = padded(table@[r as int]@[c as int].text@, col_width(table@, c as int), col_numeric(
                table@,
                c as int,
            ));
            assert(repeated(' ', fill as int) =~= repeated(' ', w - n));
            if c == 0 {
                assert(out@ =~= head + cell);
            } else {
                assert(out@ =~= pre + seq![' ', '|', ' '] + cell);
            }
        }
        c += 1;
    }
}

/// Appends the dashes of the separator row, joined by `+`.
fn push_sep_body(out: &mut Vec<char>, table: &Vec<Vec<OrgCell>>, cols: usize, widths: &Vec<usize>)
    requires
        widths@.len() == cols,
        forall|q: int| 0 <= q < cols ==> widths@[q] == col_width(table@, q),
    ensures
        final(out)@ == old(out)@ + sep_body(table@, cols as int),
{
    let ghost shead = out@;
    let mut c: usize = 0;
    assert(shead =~= shead + sep_body(table@, 0));
    while c < cols
        invariant
            c <= cols,
            widths@.len() == cols,
            forall|q: int| 0 <= q < cols ==> widths@[q] == col_width(table@, q),
            shead == old(out)@,
            out@ == shead + sep_body(table@, c as int),
        decreases cols - c,
    {
        let ghost pre = out@;
        if c > 0 {
            out.push('+');
        }
        out.push('-');
        push_repeated(out, '-', widths[c]);
        out.push('-');
        proof {
            let part = seq!['-'] + repeated('-', col_width(table@, c as int)) + seq!['-'];
            if c == 0 {
                assert(out@ =~= shead + part);
            } else {
                assert(out@ =~= pre + seq!['+'] + part);
            }
        }
        c += 1;
    }
}

/// Lays out a table of `cols` columns in org pipe syntax: each column padded
/// to its width (the longest text in bytes, at least 1), numeric columns
/// right-aligned, a separator row after the first row, lines joined by
/// newlines; empty without rows or columns.
pub fn format_org_table(table: &Vec<Vec<OrgCell>>, cols: usize) -> (s: String)
    requires
        rect(table@, cols as int),
    ensures
        s@ == org_table_text(table@, cols as int),
{
    let rows = table.len();
    if rows == 0 || cols == 0 {
        let e = String::new();
        assert(e@ =~= org_table_text(table@, cols as int));
        return e;
    }
    let (widths, numeric) = column_layout(table, cols);
    let mut out: Vec<char> = Vec::new();
    let mut r: usize = 0;
    while r < rows
        invariant
            r <= rows == table@.len(),
            cols > 0,
            rect(table@, cols as int),
            widths@.len() == cols,
            numeric@.len() == cols,
            forall|c: int| 0 <= c < cols ==> widths@[c] == col_width(table@, c),
            forall|c: int| 0 <= c < cols ==> numeric@[c] == col_numeric(table@, c),
            out@ == table_upto(table@, cols as int, r as int),
        decreases rows - r,
    {
        let ghost before = out@;
        if r > 0 {
            out.push('\n');
        }
        out.push('|');
        out.push(' ');
        push_row_body(&mut out, table, r, cols, &widths, &numeric);
        out.push(' ');
        out.push('|');
        proof {
            if r == 0 {
                assert(out@ =~= row_line(table@, 0, cols as int));
            } else {
                assert(out@ =~= before + seq!['\n'] + row_line(table@, r as int, cols as int));
            }
        }
        if r == 0 {
            let ghost first = out@;
            out.push('\n');
            out.push('|');
            push_sep_body(&mut out, table, cols, &widths);
            out.push('|');
            assert(out@ =~= first + seq!['\n'] + sep_line(table@, cols as int));
        }
        r += 1;
    }
    string_of(out.as_slice())
}

// ── Writing, then reading back ──────────────────────────────────────────────

/// A cell text that a written table gives back unchanged: no `|`, no line
/// break, and no whitespace at either end.
pub open spec fn plain_cell(s: Seq<char>) -> bool {
    &&& forall|i: int| 0 <= i < s.len() ==> #[trigger] s[i] != '|' && s[i] != '\n'
    &&& trim(s) == s
}

/// A character that can stand in a separator row.
pub open spec fn separator_char(ch: char) -> bool {
    ch == '-' || ch == '+' || ch == ' '
}

/// The texts of the cells of a table, row by row.
pub open spec fn table_texts(t: Seq<Vec<OrgCell>>, cols: int) -> Seq<Seq<Seq<char>>> {
    Seq::new(t.len(), |r: int| Seq::new(cols as nat, |c: int| t[r]@[c].text@))
}

/// The tables whose cell texts are read back from their written form: plain
/// cells, the first and the last cell of each row not empty, and a row of
/// a single cell not made of separator characters alone.
pub open spec fn readable_table(t: Seq<Vec<OrgCell>>, cols: int) -> bool {
    &&& cols > 0
    &&& rect(t, cols)
    &&& forall|r: int, c: int| 0 <= r < t.len() && 0 <= c < cols ==> plain_cell(#[trigger] t[r]@[c].text@)
    &&& forall|r: int| 0 <= r < t.len() ==> (#[trigger] t[r]@[0].text@).len() > 0 && t[r]@[cols - 1].text@.len() > 0
    &&& forall|r: int| 0 <= r < t.len() && cols == 1 ==> exists|i: int| 0 <= i < (#[trigger] t[r])@[0].text@.len()
        && !separator_char(#[trigger] t[r]@[0].text@[i])
}

/// The lines of rows `0..n` of a written table.
pub open spec fn lines_upto(t: Seq<Vec<OrgCell>>, cols: int, n: int) -> Seq<Seq<char>>
    decreases n,
{
    if n <= 1 {
        seq![row_line(t, 0, cols), sep_line(t, cols)]
    } else {
        lines_upto(t, cols, n - 1).push(row_line(t, n - 1, cols))
    }
}

/// A cell as it stands between two pipes.
spec fn cell_piece(t: Seq<Vec<OrgCell>>, r: int, c: int) -> Seq<char> {
    seq![' '] + padded(t[r]@[c].text@, col_width(t, c), col_numeric(t, c)) + seq![' ']
}

/// Where the text starts in its padded form.
spec fn pad_offset(x: Seq<char>, w: int, right: bool) -> int {
    if right { repeated(' ', w - x.len()).len() as int } else { 0 }
}

#[verifier::spinoff_prover]
proof fn lemma_padded_chars(x: Seq<char>, w: int, right: bool)
    ensures
        forall|i: int| 0 <= i < padded(x, w, right).len() ==> {
            let ch = #[trigger] padded(x, w, right)[i];
            ch == ' ' || exists|j: int| 0 <= j < x.len() && #[trigger] x[j] == ch
        },
        0 <= pad_offset(x, w, right),
        pad_offset(x, w, right) + x.len() <= padded(x, w, right).len(),
        forall|j: int| 0 <= j < x.len() ==> padded(x, w, right)[pad_offset(x, w, right) + j] == #[trigger] x[j],
{
    let fill = repeated(' ', w - x.len());
    let p = padded(x, w, right);
    if right {
        assert forall|i: int| 0 <= i < p.len() implies {
            let ch = #[trigger] p[i];
            ch == ' ' || exists|j: int| 0 <= j < x.len() && #[trigger] x[j] == ch
        } by {
            if i >= fill.len() {
                assert(x[i - fill.len()] == p[i]);
            }
        }
        assert(forall|j: int| 0 <= j < x.len() ==> p[fill.len() + j] == #[trigger] x[j]);
    } else {
        assert forall|i: int| 0 <= i < p.len() implies {
            let ch = #[trigger] p[i];
            ch == ' ' || exists|j: int| 0 <= j < x.len() && #[trigger] x[j] == ch
        } by {
            if i < x.len() {
                assert(x[i] == p[i]);
            }
        }
        assert(forall|j: int| 0 <= j < x.len() ==> p[0 + j] == #[trigger] x[j]);
    }
}

/// A cell between pipes holds no `|` and no line break.
#[verifier::spinoff_prover]
proof fn lemma_cell_piece_chars(t: Seq<Vec<OrgCell>>, r: int, c: int)
    requires
        plain_cell(t[r]@[c].text@),
    ensures
        forall|i: int| 0 <= i < cell_piece(t, r, c).len() ==> #[trigger] cell_piece(t, r, c)[i] != '|'
            && cell_piece(t, r, c)[i] != '\n',
        cell_piece(t, r, c).len() >= 2,
{
    let x = t[r]@[c].text@;
    let p = padded(x, col_width(t, c), col_numeric(t, c));
    let q = cell_piece(t, r, c);
    lemma_padded_chars(x, col_width(t, c), col_numeric(t, c));
    assert forall|i: int| 0 <= i < q.len() implies #[trigger] q[i] != '|' && q[i] != '\n' by {
        if 1 <= i < 1 + p.len() {
            assert(q[i] == p[i - 1]);
            let ch = p[i - 1];
            if ch != ' ' {
                let j = choose|j: int| 0 <= j < x.len() && #[trigger] x[j] == ch;
                assert(x[j] != '|' && x[j] != '\n');
            }
        }
    }
}

/// A cell between pipes, trimmed, is its text.
#[verifier::spinoff_prover]
proof fn lemma_cell_piece_trim(t: Seq<Vec<OrgCell>>, r: int, c: int)
    requires
        plain_cell(t[r]@[c].text@),
    ensures
        trim(cell_piece(t, r, c)) == t[r]@[c].text@,
{
    let x = t[r]@[c].text@;
    let fill = repeated(' ', col_width(t, c) - x.len());
    if x.len() > 0 {
        lemma_trim_fixed_ends(x);
    }
    assert(is_ws(' '));
    if col_numeric(t, c) {
        assert(cell_piece(t, r, c) =~= (seq![' '] + fill) + x + seq![' ']);
        lemma_trim_between(seq![' '] + fill, x, seq![' ']);
    } else {
        assert(cell_piece(t, r, c) =~= seq![' '] + x + (fill + seq![' ']));
        lemma_trim_between(seq![' '], x, fill + seq![' ']);
    }
}

/// The cell trimmed is its text; it holds no `|` and no line break.
proof fn lemma_cell_piece(t: Seq<Vec<OrgCell>>, r: int, c: int)
    requires
        plain_cell(t[r]@[c].text@),
    ensures
        trim(cell_piece(t, r, c)) == t[r]@[c].text@,
        forall|i: int| 0 <= i < cell_piece(t, r, c).len() ==> #[trigger] cell_piece(t, r, c)[i] != '|'
            && cell_piece(t, r, c)[i] != '\n',
        cell_piece(t, r, c).len() >= 2,
{
    lemma_cell_piece_chars(t, r, c);
    lemma_cell_piece_trim(t, r, c);
}

/// The pieces of a written row between its pipes are its cells.
#[verifier::spinoff_prover]
proof fn lemma_row_pieces(t: Seq<Vec<OrgCell>>, r: int, n: int)
    requires
        1 <= n,
        forall|c: int| 0 <= c < n ==> plain_cell(#[trigger] t[r]@[c].text@),
    ensures
        split_on(seq![' '] + row_body(t, r, n) + seq![' '], '|') == Seq::new(
            n as nat,
            |c: int| cell_piece(t, r, c),
        ),
        forall|i: int| 0 <= i < row_body(t, r, n).len() ==> #[trigger] row_body(t, r, n)[i] != '\n',
    decreases n,
{
    let cell = padded(t[r]@[n - 1].text@, col_width(t, n - 1), col_numeric(t, n - 1));
    lemma_cell_piece(t, r, n - 1);
    if n == 1 {
        assert(seq![' '] + row_body(t, r, n) + seq![' '] =~= cell_piece(t, r, 0));
        lemma_split_on_none(cell_piece(t, r, 0), '|');
        assert(Seq::new(1nat, |c: int| cell_piece(t, r, c)) =~= seq![cell_piece(t, r, 0)]);
        assert forall|i: int| 0 <= i < row_body(t, r, n).len() implies #[trigger] row_body(t, r, n)[i]
            != '\n' by {
            assert(row_body(t, r, n)[i] == cell_piece(t, r, 0)[i + 1]);
        }
    } else {
        let prev = row_body(t, r, n - 1);
        lemma_row_pieces(t, r, n - 1);
        assert(seq![' '] + row_body(t, r, n) + seq![' '] =~= (seq![' '] + prev + seq![' ']) + seq!['|']
            + cell_piece(t, r, n - 1));
        lemma_split_on_join(seq![' '] + prev + seq![' '], cell_piece(t, r, n - 1), '|');
        lemma_split_on_none(cell_piece(t, r, n - 1), '|');
        assert(Seq::new((n - 1) as nat, |c: int| cell_piece(t, r, c)) + seq![cell_piece(t, r, n - 1)]
            =~= Seq::new(n as nat, |c: int| cell_piece(t, r, c)));
        assert forall|i: int| 0 <= i < row_body(t, r, n).len() implies #[trigger] row_body(t, r, n)[i]
            != '\n' by {
            if i < prev.len() {
                assert(row_body(t, r, n)[i] == prev[i]);
            } else if i >= prev.len() + 3 {
                assert(row_body(t, r, n)[i] == cell_piece(t, r, n - 1)[i - prev.len() - 2]);
            }
        }
    }
}

/// The keeping of non-empty pieces drops an empty first piece.
proof fn lemma_keep_nonempty_front(s: Seq<Seq<char>>)
    requires
        forall|i: int| 0 <= i < s.len() ==> (#[trigger] s[i]).len() > 0,
    ensures
        keep_nonempty(seq![Seq::<char>::empty()] + s) == s,
    decreases s.len(),
{
    let e = seq![Seq::<char>::empty()];
    if s.len() == 0 {
        assert(e + s =~= e);
        assert(e.drop_last() =~= Seq::<Seq<char>>::empty());
        assert(e.last().len() == 0);
        assert(keep_nonempty(e) == keep_nonempty(Seq::<Seq<char>>::empty()));
        assert(s =~= Seq::<Seq<char>>::empty());
    } else {
        assert forall|i: int| 0 <= i < s.drop_last().len() implies (#[trigger] s.drop_last()[i]).len() > 0 by {
            assert(s.drop_last()[i] == s[i]);
        }
        assert(s[s.len() - 1].len() > 0);
        lemma_keep_nonempty_front(s.drop_last());
        assert((e + s).drop_last() =~= e + s.drop_last());
        assert((e + s).last() == s.last());
        assert(s.drop_last().push(s.last()) =~= s);
    }
}

/// A written row is read back as the texts of its cells.
#[verifier::spinoff_prover]
proof fn lemma_row_read_back(t: Seq<Vec<OrgCell>>, r: int, cols: int)
    requires
        readable_table(t, cols),
        0 <= r < t.len(),
    ensures
        org_row(row_line(t, r, cols)) == Some(table_texts(t, cols)[r]),
        forall|i: int| 0 <= i < row_line(t, r, cols).len() ==> #[trigger] row_line(t, r, cols)[i] != '\n',
        row_line(t, r, cols).len() > 0,
        row_line(t, r, cols).last() == '|',
{
    let body = row_body(t, r, cols);
    let line = row_line(t, r, cols);
    assert forall|c: int| 0 <= c < cols implies plain_cell(#[trigger] t[r]@[c].text@) by {}
    lemma_row_pieces(t, r, cols);
    let pieces = Seq::new(cols as nat, |c: int| cell_piece(t, r, c));
    assert forall|i: int| 0 <= i < line.len() implies #[trigger] line[i] != '\n' by {
        if 2 <= i < 2 + body.len() {
            assert(line[i] == body[i - 2]);
        }
    }
    // The line is its own trim.
    assert(!is_ws('|'));
    assert(line[0] == '|');
    assert(line.last() == '|');
    assert(lead_ws(line) == 0);
    assert(trail_ws(line) == 0);
    assert(trim(line) =~= line);
    // Its pieces.
    let mid = seq![' '] + body + seq![' '];
    assert(line =~= Seq::<char>::empty() + seq!['|'] + (mid + seq!['|'] + Seq::<char>::empty()));
    lemma_split_on_join(Seq::<char>::empty(), mid + seq!['|'] + Seq::<char>::empty(), '|');
    lemma_split_on_join(mid, Seq::<char>::empty(), '|');
    assert(split_on(Seq::<char>::empty(), '|') =~= seq![Seq::<char>::empty()]);
    let split = split_on(line, '|');
    assert(split =~= seq![Seq::<char>::empty()] + (pieces + seq![Seq::<char>::empty()]));
    // Dropping the empty pieces.
    assert forall|i: int| 0 <= i < pieces.len() implies (#[trigger] pieces[i]).len() > 0 by {
        lemma_cell_piece(t, r, i);
    }
    assert(keep_nonempty(split) == keep_nonempty(seq![Seq::<char>::empty()] + pieces)) by {
        assert(split.drop_last() =~= seq![Seq::<char>::empty()] + pieces);
    }
    lemma_keep_nonempty_front(pieces);
    let texts = table_texts(t, cols)[r];
    assert(trimmed_all(pieces) =~= texts) by {
        assert forall|c: int| 0 <= c < cols implies trimmed_all(pieces)[c] == texts[c] by {
            lemma_cell_piece(t, r, c);
        }
    }
    assert(texts[0].len() > 0 && texts[cols - 1].len() > 0);
    assert(strip_outer(texts) == texts);
    // Not a separator row.
    assert(pipes_front(line) == 1) by {
        assert(line.drop_first()[0] == ' ');
        assert(pipes_front(line.drop_first()) == 0);
    }
    let u = line.skip(1);
    assert(u =~= mid + seq!['|']);
    assert(pipes_back(u) == 1) by {
        assert(u.drop_last() =~= mid);
        assert(mid.last() == ' ');
        assert(pipes_back(mid) == 0);
    }
    let inner = inner_of(line);
    assert(inner =~= mid);
    if cols >= 2 {
        let prev = row_body(t, r, cols - 1);
        assert(inner[prev.len() as int + 2] == '|');
    } else {
        let x = t[r]@[0].text@;
        let i = choose|i: int| 0 <= i < x.len() && !separator_char(#[trigger] x[i]);
        lemma_padded_chars(x, col_width(t, 0), col_numeric(t, 0));
        let p = padded(x, col_width(t, 0), col_numeric(t, 0));
        let k = pad_offset(x, col_width(t, 0), col_numeric(t, 0));
        assert(p[k + i] == x[i]);
        assert(body =~= p);
        assert(inner[k + i + 1] == x[i]);
    }
    assert(!is_separator(line));
}

/// The separator row is read as no row.
proof fn lemma_sep_read(t: Seq<Vec<OrgCell>>, cols: int, n: int)
    requires
        1 <= n,
    ensures
        sep_body(t, n).len() > 0,
        sep_body(t, n)[0] == '-',
        sep_body(t, n).last() == '-',
        forall|i: int| 0 <= i < sep_body(t, n).len() ==> #[trigger] sep_body(t, n)[i] == '-'
            || sep_body(t, n)[i] == '+',
    decreases n,
{
    let part = seq!['-'] + repeated('-', col_width(t, n - 1)) + seq!['-'];
    if n > 1 {
        lemma_sep_read(t, cols, n - 1);
        let prev = sep_body(t, n - 1);
        assert(sep_body(t, n) == prev + seq!['+'] + part);
        assert forall|i: int| 0 <= i < sep_body(t, n).len() implies #[trigger] sep_body(t, n)[i] == '-'
            || sep_body(t, n)[i] == '+' by {
            if i < prev.len() {
                assert(sep_body(t, n)[i] == prev[i]);
            } else if i > prev.len() {
                assert(sep_body(t, n)[i] == part[i - prev.len() - 1]);
            }
        }
    }
}

#[verifier::spinoff_prover]
proof fn lemma_sep_line(t: Seq<Vec<OrgCell>>, cols: int)
    requires
        cols >= 1,
    ensures
        org_row(sep_line(t, cols)) is None,
        forall|i: int| 0 <= i < sep_line(t, cols).len() ==> #[trigger] sep_line(t, cols)[i] != '\n',
        sep_line(t, cols).len() > 0,
        sep_line(t, cols).last() == '|',
{
    lemma_sep_read(t, cols, cols);
    let body = sep_body(t, cols);
    let line = sep_line(t, cols);
    assert forall|i: int| 0 <= i < line.len() implies #[trigger] line[i] != '\n' by {
        if 1 <= i < 1 + body.len() {
            assert(line[i] == body[i - 1]);
        }
    }
    assert(!is_ws('|'));
    assert(line[0] == '|');
    assert(lead_ws(line) == 0);
    assert(trail_ws(line) == 0);
    assert(trim(line) =~= line);
    assert(pipes_front(line) == 1) by {
        assert(line.drop_first()[0] == '-');
        assert(pipes_front(line.drop_first()) == 0);
    }
    let u = line.skip(1);
    assert(u =~= body + seq!['|']);
    assert(pipes_back(u) == 1) by {
        assert(u.drop_last() =~= body);
        assert(pipes_back(body) == 0);
    }
    let inner = inner_of(line);
    assert(inner =~= body);
    assert(is_separator(line));
}

/// The lines of a written table.
proof fn lemma_table_lines(t: Seq<Vec<OrgCell>>, cols: int, n: int)
    requires
        readable_table(t, cols),
        1 <= n <= t.len(),
    ensures
        split_on(table_upto(t, cols, n), '\n') == lines_upto(t, cols, n),
        forall|i: int| 0 <= i < lines_upto(t, cols, n).len() ==> (#[trigger] lines_upto(t, cols, n)[i]).len()
            > 0 && lines_upto(t, cols, n)[i].last() == '|',
        lines_upto(t, cols, n).len() == n + 1,
    decreases n,
{
    lemma_row_read_back(t, n - 1, cols);
    lemma_split_on_none(row_line(t, n - 1, cols), '\n');
    lemma_sep_line(t, cols);
    if n == 1 {
        lemma_split_on_join(row_line(t, 0, cols), sep_line(t, cols), '\n');
        lemma_split_on_none(sep_line(t, cols), '\n');
        assert(seq![row_line(t, 0, cols)] + seq![sep_line(t, cols)] =~= lines_upto(t, cols, 1));
    } else {
        lemma_table_lines(t, cols, n - 1);
        lemma_split_on_join(table_upto(t, cols, n - 1), row_line(t, n - 1, cols), '\n');
        assert(lines_upto(t, cols, n - 1) + seq![row_line(t, n - 1, cols)] =~= lines_upto(t, cols, n));
    }
}

/// The rows read from the lines of a written table.
proof fn lemma_rows_read(t: Seq<Vec<OrgCell>>, cols: int, n: int)
    requires
        readable_table(t, cols),
        1 <= n <= t.len(),
    ensures
        org_rows(lines_upto(t, cols, n)) == table_texts(t, cols).take(n),
    decreases n,
{
    lemma_row_read_back(t, n - 1, cols);
    if n == 1 {
        lemma_sep_line(t, cols);
        let ls = lines_upto(t, cols, 1);
        assert(ls.last() == sep_line(t, cols));
        assert(ls.drop_last() =~= seq![row_line(t, 0, cols)]);
        assert(seq![row_line(t, 0, cols)].drop_last() =~= Seq::<Seq<char>>::empty());
        assert(org_rows(ls) == org_rows(seq![row_line(t, 0, cols)]));
        assert(seq![row_line(t, 0, cols)].last() == row_line(t, 0, cols));
        assert(org_rows(seq![row_line(t, 0, cols)]) == org_rows(Seq::<Seq<char>>::empty()).push(
            table_texts(t, cols)[0],
        ));
        assert(Seq::<Seq<Seq<char>>>::empty().push(table_texts(t, cols)[0]) =~= table_texts(t, cols).take(1));
    } else {
        lemma_rows_read(t, cols, n - 1);
        assert(lines_upto(t, cols, n).drop_last() =~= lines_upto(t, cols, n - 1));
        assert(lines_upto(t, cols, n).last() == row_line(t, n - 1, cols));
        assert(table_texts(t, cols).take(n - 1).push(table_texts(t, cols)[n - 1]) =~= table_texts(
            t,
            cols,
        ).take(n));
    }
}

/// Reading back a written table gives the texts of its cells, row by row,
/// for every table whose cells are plain, whose rows begin and end with a
/// cell that is not empty, and whose rows of a single cell are not taken
/// for separators.
#[verifier::spinoff_prover]
pub proof fn lemma_written_table_reads_back(t: Seq<Vec<OrgCell>>, cols: int)
    requires
        readable_table(t, cols),
    ensures
        org_rows(text_lines(org_table_text(t, cols))) == table_texts(t, cols),
{
    if t.len() == 0 {
        assert(text_lines(Seq::<char>::empty()) =~= Seq::<Seq<char>>::empty()) by {
            assert(split_on(Seq::<char>::empty(), '\n') =~= seq![Seq::<char>::empty()]);
        }
        assert(table_texts(t, cols) =~= Seq::<Seq<Seq<char>>>::empty());
    } else {
        let n = t.len() as int;
        lemma_table_lines(t, cols, n);
        let parts = lines_upto(t, cols, n);
        assert(split_on(org_table_text(t, cols), '\n') == parts);
        assert(parts.last().len() > 0);
        assert(parts.drop_last().map_values(|l: Seq<char>| strip_cr(l)) =~= parts.drop_last()) by {
            assert forall|i: int| 0 <= i < parts.len() - 1 implies strip_cr(#[trigger] parts.drop_last()[i])
                == parts.drop_last()[i] by {
                assert(parts.drop_last()[i] == parts[i]);
                assert(parts[i].last() == '|');
            }
        }
        assert(text_lines(org_table_text(t, cols)) =~= parts);
        lemma_rows_read(t, cols, n);
        assert(table_texts(t, cols).take(n) =~= table_texts(t, cols));
    }
}
} // verus!
