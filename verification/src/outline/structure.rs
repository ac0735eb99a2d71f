//! Structural editing: promote, demote and move subtrees.
use vstd::prelude::*;
use crate::text::{chars_of, string_of};
use crate::outline::parse::{HeadingSyntax, marker_of, leading_run, lemma_leading_run};
use crate::outline::index::{HeadingInfo, subtree_range, subtree_end};

verus! {

/// A heading line with its marker run of `m` made `delta` longer, but never
/// shorter than one.
pub open spec fn adjust_level(line: Seq<char>, m: char, delta: int) -> Seq<char> {
    let n = leading_run(line, m);
    let new_level = if n + delta >= 1 { n + delta } else { 1 };
    Seq::new(new_level as nat, |i: int| m) + line.skip(n)
}

/// The lines after adjusting the marker of every heading whose line lies in
/// `start..end`, heading by heading.
pub open spec fn shift_subtree(
    ls: Seq<Seq<char>>,
    hs: Seq<HeadingInfo>,
    start: int,
    end: int,
    m: char,
    delta: int,
) -> Seq<Seq<char>>
    decreases hs.len(),
{
    if hs.len() == 0 {
        ls
    } else {
        let p = shift_subtree(ls, hs.drop_last(), start, end, m, delta);
        let l = hs.last().line as int;
        if start <= l < end && l < p.len() {
            p.update(l, adjust_level(p[l], m, delta))
        } else {
            p
        }
    }
}

/// Every heading whose line lies in `start..end` names a line of the buffer,
/// short enough to take one more marker per heading.
pub open spec fn lines_in_buffer(hs: Seq<HeadingInfo>, start: int, end: int, ls: Seq<Seq<char>>) -> bool {
    forall|k: int|
        0 <= k < hs.len() && start <= #[trigger] hs[k].line < end ==> hs[k].line < ls.len() && ls[hs[k].line as int].len()
            + hs.len() < usize::MAX
}

proof fn lemma_adjust_len(s: Seq<char>, m: char, delta: int)
    requires
        delta == 1 || delta == -1,
    ensures
        adjust_level(s, m, delta).len() <= s.len() + 1,
{
    lemma_leading_run(s, m);
}

/// The subtree of heading `idx` in a buffer of `total` lines, as (start, end).
pub open spec fn subtree_of(hs: Seq<HeadingInfo>, idx: int, total: int) -> (int, int) {
    (hs[idx].line as int, subtree_end(hs, idx, idx + 1, total))
}

/// Adjust the heading marker of a line by `delta` (+1 or -1), keeping at least one.
fn adjust_heading_level(line: &mut String, syntax: HeadingSyntax, delta: i32)
    requires
        delta == 1 || delta == -1,
        old(line)@.len() < usize::MAX,
    ensures
        final(line)@ == adjust_level(old(line)@, marker_of(syntax), delta as int),
{
    let m = match syntax {
        HeadingSyntax::Org => '*',
        HeadingSyntax::Markdown => '#',
    };
    let v = chars_of(line.as_str());
    proof { lemma_leading_run(v@, m); }
    let mut n: usize = 0;
    while n < v.len() && v[n] == m
        invariant
            v@.len() < usize::MAX,
            n <= leading_run(v@, m),
            0 <= leading_run(v@, m) <= v@.len(),
            leading_run(v@, m) < v@.len() ==> v@[leading_run(v@, m)] != m,
        decreases v@.len() - n,
    {
        n += 1;
    }
    let new_level: usize = if delta < 0 {
        if n >= 2 { n - 1 } else { 1 }
    } else {
        n + 1
    };
    let mut out: Vec<char> = Vec::new();
    while out.len() < new_level
        invariant
            out@.len() <= new_level,
            forall|i: int| 0 <= i < out@.len() ==> #[trigger] out@[i] == m,
        decreases new_level - out@.len(),
    {
        out.push(m);
    }
    let mut i = n;
    while i < v.len()
        invariant
            n <= i <= v@.len(),
            out@ == Seq::new(new_level as nat, |j: int| m) + v@.subrange(n as int, i as int),
        decreases v@.len() - i,
    {
        out.push(v[i]);
        assert(Seq::new(new_level as nat, |j: int| m) + v@.subrange(n as int, i + 1) =~= Seq::new(
            new_level as nat,
            |j: int| m,
        ) + v@.subrange(n as int, i as int) + seq![v@[i as int]]);
        i += 1;
    }
    assert(v@.subrange(n as int, v@.len() as int) =~= v@.skip(n as int));
    *line = string_of(out.as_slice());
    assert(line@ =~= adjust_level(old(line)@, m, delta as int));
}

/// Adjust the markers of the headings of a subtree, in index order.
fn shift_headings(
    lines: &mut Vec<String>,
    headings: &[HeadingInfo],
    start: usize,
    end: usize,
    syntax: HeadingSyntax,
    delta: i32,
)
    requires
        delta == 1 || delta == -1,
        lines_in_buffer(headings@, start as int, end as int, old(lines).deep_view()),
    ensures
        final(lines).deep_view() == shift_subtree(
            old(lines).deep_view(),
            headings@,
            start as int,
            end as int,
            marker_of(syntax),
            delta as int,
        ),
{
    let mut k: usize = 0;
    while k < headings.len()
        invariant
            k <= headings@.len(),
            delta == 1 || delta == -1,
            lines@.len() == old(lines)@.len(),
            lines_in_buffer(headings@, start as int, end as int, old(lines).deep_view()),
            forall|l: int| 0 <= l < lines@.len() ==> #[trigger] lines.deep_view()[l].len() <= old(lines).deep_view()[l].len() + k,
            lines.deep_view() == shift_subtree(
                old(lines).deep_view(),
                headings@.take(k as int),
                start as int,
                end as int,
                marker_of(syntax),
                delta as int,
            ),
        decreases headings@.len() - k,
    {
        let l = headings[k].line;
        let ghost before = lines.deep_view();
        assert(headings@.take(k + 1).drop_last() =~= headings@.take(k as int));
        assert(headings@.take(k + 1).last() == headings@[k as int]);
        if start <= l && l < end {
            let mut s = lines[l].clone();
            assert(s@ == lines.deep_view()[l as int]);
            assert(s@.len() <= old(lines).deep_view()[l as int].len() + k);
            adjust_heading_level(&mut s, syntax, delta);
            proof { lemma_adjust_len(before[l as int], marker_of(syntax), delta as int); }
            lines.set(l, s);
            assert(lines.deep_view() =~= before.update(l as int, adjust_level(before[l as int], marker_of(syntax), delta as int)));
        }
        k += 1;
    }
    assert(headings@.take(headings@.len() as int) =~= headings@);
}

/// Promote heading `heading_idx` and its whole subtree one level (to no
/// higher than level 1). Returns whether anything changed.
pub fn promote(lines: &mut Vec<String>, headings: &[HeadingInfo], heading_idx: usize, syntax: HeadingSyntax) -> (r: bool)
    requires
        heading_idx < headings@.len(),
        headings@[heading_idx as int].level > 1 ==> lines_in_buffer(
            headings@,
            subtree_of(headings@, heading_idx as int, old(lines)@.len() as int).0,
            subtree_of(headings@, heading_idx as int, old(lines)@.len() as int).1,
            old(lines).deep_view(),
        ),
    ensures
        r == (headings@[heading_idx as int].level > 1),
        !r ==> final(lines)@ == old(lines)@,
        r ==> final(lines).deep_view() == shift_subtree(
            old(lines).deep_view(),
            headings@,
            subtree_of(headings@, heading_idx as int, old(lines)@.len() as int).0,
            subtree_of(headings@, heading_idx as int, old(lines)@.len() as int).1,
            marker_of(syntax),
            -1,
        ),
{
    if headings[heading_idx].level <= 1 {
        return false;
    }
    let range = subtree_range(headings, heading_idx, lines.len());
    shift_headings(lines, headings, range.start, range.end, syntax, -1);
    true
}

/// Demote heading `heading_idx` and its whole subtree one level.
pub fn demote(lines: &mut Vec<String>, headings: &[HeadingInfo], heading_idx: usize, syntax: HeadingSyntax) -> (r: bool)
    requires
        heading_idx < headings@.len(),
        lines_in_buffer(
            headings@,
            subtree_of(headings@, heading_idx as int, old(lines)@.len() as int).0,
            subtree_of(headings@, heading_idx as int, old(lines)@.len() as int).1,
            old(lines).deep_view(),
        ),
    ensures
        r,
        final(lines).deep_view() == shift_subtree(
            old(lines).deep_view(),
            headings@,
            subtree_of(headings@, heading_idx as int, old(lines)@.len() as int).0,
            subtree_of(headings@, heading_idx as int, old(lines)@.len() as int).1,
            marker_of(syntax),
            1,
        ),
{
    let range = subtree_range(headings, heading_idx, lines.len());
    shift_headings(lines, headings, range.start, range.end, syntax, 1);
    true
}

/// The nearest heading before `i + 1` at the level of heading `idx`, unless a
/// heading of a higher level (its parent) comes first.
pub open spec fn prev_sibling(hs: Seq<HeadingInfo>, idx: int, i: int) -> Option<int>
    decreases i + 1,
{
    if i < 0 || i >= hs.len() {
        None
    } else if hs[i].level == hs[idx].level {
        Some(i)
    } else if hs[i].level < hs[idx].level {
        None
    } else {
        prev_sibling(hs, idx, i - 1)
    }
}

/// The nearest heading from `i` on at the level of heading `idx`, unless a
/// heading of a higher level comes first.
pub open spec fn next_sibling(hs: Seq<HeadingInfo>, idx: int, i: int) -> Option<int>
    decreases hs.len() - i,
{
    if i < 0 || i >= hs.len() {
        None
    } else if hs[i].level == hs[idx].level {
        Some(i)
    } else if hs[i].level < hs[idx].level {
        None
    } else {
        next_sibling(hs, idx, i + 1)
    }
}

/// The lines with the ranges `a..b` and `c..d` (`a <= b <= c <= d` in the
/// usual case) put in the order `c..d`, `a..b` over `a..d`.
pub open spec fn swap_ranges(ls: Seq<Seq<char>>, a: int, b: int, c: int, d: int) -> Seq<Seq<char>> {
    ls.take(a) + ls.subrange(c, d) + ls.subrange(a, b) + ls.skip(d)
}

/// Moving a subtree up is possible without slicing outside the buffer.
pub open spec fn move_up_ok(hs: Seq<HeadingInfo>, idx: int, total: int) -> bool {
    match prev_sibling(hs, idx, idx - 1) {
        Some(p) => {
            let (ps, pe) = subtree_of(hs, p, total);
            let (cs, ce) = subtree_of(hs, idx, total);
            ps <= pe <= total && cs <= ce <= total && ps <= ce
        },
        None => true,
    }
}

/// Moving a subtree down is possible without slicing outside the buffer.
pub open spec fn move_down_ok(hs: Seq<HeadingInfo>, idx: int, total: int) -> bool {
    match next_sibling(hs, idx, idx + 1) {
        Some(n) => {
            let (cs, ce) = subtree_of(hs, idx, total);
            let (ns, ne) = subtree_of(hs, n, total);
            cs <= ce <= total && ns <= ne <= total && cs <= ne && cs + (ne - ns) <= usize::MAX
        },
        None => true,
    }
}

fn find_prev_sibling(headings: &[HeadingInfo], idx: usize) -> (r: Option<usize>)
    requires
        idx < headings@.len(),
    ensures
        match r {
            Some(p) => p < idx && prev_sibling(headings@, idx as int, idx - 1) == Some(p as int),
            None => prev_sibling(headings@, idx as int, idx - 1) is None,
        },
{
    let level = headings[idx].level;
    let mut i: usize = idx;
    while i > 0
        invariant
            i <= idx < headings@.len(),
            level == headings@[idx as int].level,
            prev_sibling(headings@, idx as int, idx - 1) == prev_sibling(headings@, idx as int, i - 1),
        decreases i,
    {
        if headings[i - 1].level == level {
            return Some(i - 1);
        }
        if headings[i - 1].level < level {
            return None;
        }
        i -= 1;
    }
    None
}

fn find_next_sibling(headings: &[HeadingInfo], idx: usize) -> (r: Option<usize>)
    requires
        idx < headings@.len(),
    ensures
        match r {
            Some(n) => idx < n < headings@.len() && next_sibling(headings@, idx as int, idx + 1) == Some(n as int),
            None => next_sibling(headings@, idx as int, idx + 1) is None,
        },
{
    let level = headings[idx].level;
    let mut i: usize = idx + 1;
    while i < headings.len()
        invariant
            idx < i <= headings@.len(),
            level == headings@[idx as int].level,
            next_sibling(headings@, idx as int, idx + 1) == next_sibling(headings@, idx as int, i as int),
        decreases headings@.len() - i,
    {
        if headings[i].level == level {
            return Some(i);
        }
        if headings[i].level < level {
            return None;
        }
        i += 1;
    }
    None
}

/// Appends clones of `src[a..b]` to `out`.
fn push_lines(out: &mut Vec<String>, src: &Vec<String>, a: usize, b: usize)
    requires
        a <= b <= src@.len(),
    ensures
        final(out).deep_view() == old(out).deep_view() + src.deep_view().subrange(a as int, b as int),
{
    let mut i = a;
    while i < b
        invariant
            a <= i <= b <= src@.len(),
            out.deep_view() == old(out).deep_view() + src.deep_view().subrange(a as int, i as int),
        decreases b - i,
    {
        let ghost before = out.deep_view();
        out.push(src[i].clone());
        assert(out.deep_view() =~= before.push(src.deep_view()[i as int]));
        assert(old(out).deep_view() + src.deep_view().subrange(a as int, i + 1) =~= old(out).deep_view()
            + src.deep_view().subrange(a as int, i as int) + seq![src.deep_view()[i as int]]);
        i += 1;
    }
}

/// The lines with `a..b` and `c..d` swapped over `a..d`.
fn swapped(lines: &Vec<String>, a: usize, b: usize, c: usize, d: usize) -> (r: Vec<String>)
    requires
        a <= b <= lines@.len(),
        c <= d <= lines@.len(),
        a <= d,
    ensures
        r.deep_view() == swap_ranges(lines.deep_view(), a as int, b as int, c as int, d as int),
{
    let len = lines.len();
    let mut out: Vec<String> = Vec::new();
    push_lines(&mut out, lines, 0, a);
    push_lines(&mut out, lines, c, d);
    push_lines(&mut out, lines, a, b);
    push_lines(&mut out, lines, d, len);
    let ghost ls = lines.deep_view();
    assert(ls.subrange(0, a as int) =~= ls.take(a as int));
    assert(ls.subrange(d as int, len as int) =~= ls.skip(d as int));
    assert(Seq::<Seq<char>>::empty() + ls.subrange(0, a as int) =~= ls.take(a as int));
    out
}

/// Move the subtree of heading `heading_idx` above its previous sibling.
/// Returns the subtree's new first line, or `None` when there is no previous
/// sibling.
pub fn move_subtree_up(lines: &mut Vec<String>, headings: &[HeadingInfo], heading_idx: usize) -> (r: Option<
    usize,
>)
    requires
        heading_idx < headings@.len(),
        move_up_ok(headings@, heading_idx as int, old(lines)@.len() as int),
    ensures
        match prev_sibling(headings@, heading_idx as int, heading_idx - 1) {
            Some(p) => {
                let total = old(lines)@.len() as int;
                let (ps, pe) = subtree_of(headings@, p, total);
                let (cs, ce) = subtree_of(headings@, heading_idx as int, total);
                &&& r == Some(ps as usize)
                &&& final(lines).deep_view() == swap_ranges(old(lines).deep_view(), ps, pe, cs, ce)
            },
            None => r is None && final(lines)@ == old(lines)@,
        },
{
    let total = lines.len();
    let prev = match find_prev_sibling(headings, heading_idx) {
        Some(p) => p,
        None => return None,
    };
    let prev_range = subtree_range(headings, prev, total);
    let cur_range = subtree_range(headings, heading_idx, total);
    let out = swapped(lines, prev_range.start, prev_range.end, cur_range.start, cur_range.end);
    *lines = out;
    Some(prev_range.start)
}

/// Move the subtree of heading `heading_idx` below its next sibling. Returns
/// the subtree's new first line, or `None` when there is no next sibling.
pub fn move_subtree_down(lines: &mut Vec<String>, headings: &[HeadingInfo], heading_idx: usize) -> (r: Option<
    usize,
>)
    requires
        heading_idx < headings@.len(),
        move_down_ok(headings@, heading_idx as int, old(lines)@.len() as int),
    ensures
        match next_sibling(headings@, heading_idx as int, heading_idx + 1) {
            Some(n) => {
                let total = old(lines)@.len() as int;
                let (cs, ce) = subtree_of(headings@, heading_idx as int, total);
                let (ns, ne) = subtree_of(headings@, n, total);
                &&& r == Some((cs + (ne - ns)) as usize)
                &&& final(lines).deep_view() == swap_ranges(old(lines).deep_view(), cs, ce, ns, ne)
            },
            None => r is None && final(lines)@ == old(lines)@,
        },
{
    let total = lines.len();
    let next = match find_next_sibling(headings, heading_idx) {
        Some(n) => n,
        None => return None,
    };
    let cur_range = subtree_range(headings, heading_idx, total);
    let next_range = subtree_range(headings, next, total);
    let out = swapped(lines, cur_range.start, cur_range.end, next_range.start, next_range.end);
    *lines = out;
    Some(cur_range.start + (next_range.end - next_range.start))
}

/// Demoting a heading line and promoting it again gives the line back.
pub proof fn lemma_demote_promote_line(line: Seq<char>, m: char)
    requires
        leading_run(line, m) >= 1,
    ensures
        adjust_level(adjust_level(line, m, 1), m, -1) == line,
{
    let n = leading_run(line, m);
    lemma_leading_run(line, m);
    let once = adjust_level(line, m, 1);
    let stars = Seq::new((n + 1) as nat, |i: int| m);
    assert(once == stars + line.skip(n));
    lemma_leading_run(once, m);
    // The marker run of the demoted line is one longer.
    assert forall|i: int| 0 <= i < n + 1 implies #[trigger] once[i] == m by {}
    lemma_run_at_least(once, m, n + 1);
    if n + 1 < once.len() {
        assert(once[n + 1] == line[n]);
    }
    assert(leading_run(once, m) == n + 1);
    assert(once.skip(n + 1) =~= line.skip(n));
    assert(Seq::new(n as nat, |i: int| m) + line.skip(n) =~= line);
}

/// A run of `k` leading `m` makes the leading run at least `k` long; it is
/// exactly `k` when the next character differs.
proof fn lemma_run_at_least(s: Seq<char>, m: char, k: int)
    requires
        0 <= k <= s.len(),
        forall|i: int| 0 <= i < k ==> #[trigger] s[i] == m,
    ensures
        leading_run(s, m) >= k,
        k < s.len() && s[k] != m ==> leading_run(s, m) == k,
    decreases k,
{
    lemma_leading_run(s, m);
    if k > 0 {
        assert forall|i: int| 0 <= i < k - 1 implies #[trigger] s.drop_first()[i] == m by {
            assert(s.drop_first()[i] == s[i + 1]);
        }
        if k < s.len() {
            assert(s.drop_first()[k - 1] == s[k]);
        }
        lemma_run_at_least(s.drop_first(), m, k - 1);
        assert(s[0] == m);
    }
}

/// Moving a subtree below its next sibling and then moving it back above
/// that sibling gives the lines back.
pub proof fn lemma_move_down_up(ls: Seq<Seq<char>>, a: int, b: int, d: int)
    requires
        0 <= a <= b <= d <= ls.len(),
    ensures
        swap_ranges(swap_ranges(ls, a, b, b, d), a, a + (d - b), a + (d - b), d) == ls,
{
    let once = swap_ranges(ls, a, b, b, d);
    let c = a + (d - b);
    assert(once.take(a) =~= ls.take(a));
    assert(once.subrange(c, d) =~= ls.subrange(a, b));
    assert(once.subrange(a, c) =~= ls.subrange(b, d));
    assert(once.skip(d) =~= ls.skip(d));
    assert(ls.take(a) + ls.subrange(a, b) + ls.subrange(b, d) + ls.skip(d) =~= ls);
}

} // verus!
