//! TODO keyword cycling on heading lines.
use vstd::prelude::*;
use crate::text::{chars_of, string_of};
use crate::outline::index::HeadingInfo;

verus! {

/// Index of the first entry equal to `kw`, from the `k`-th on.
pub open spec fn index_in(kws: Seq<Seq<char>>, kw: Seq<char>, k: int) -> Option<int>
    decreases kws.len() - k,
{
    if k < 0 || k >= kws.len() {
        None
    } else if kws[k] == kw {
        Some(k)
    } else {
        index_in(kws, kw, k + 1)
    }
}

/// The keyword that follows `current` in the cycle (by index; `None` removes
/// the keyword), and whether an old keyword is taken out of the line.
pub open spec fn next_todo(kws: Seq<Seq<char>>, current: Option<Seq<char>>) -> (Option<int>, bool) {
    match current {
        Some(c) => match index_in(kws, c, 0) {
            Some(i) => if i + 1 < kws.len() { (Some(i + 1), true) } else { (None, true) },
            None => (Some(0), true),
        },
        None => (Some(0), false),
    }
}

/// A character of a heading marker.
pub open spec fn is_marker(c: char) -> bool {
    c == '*' || c == '#'
}

/// Length of the heading marker that opens `s`.
pub open spec fn marker_len(s: Seq<char>) -> int
    decreases s.len(),
{
    if s.len() > 0 && is_marker(s[0]) { 1 + marker_len(s.drop_first()) } else { 0 }
}

/// `s` without one leading space.
pub open spec fn drop_space(s: Seq<char>) -> Seq<char> {
    if s.len() > 0 && s[0] == ' ' { s.drop_first() } else { s }
}

/// `s` opens with `p`.
pub open spec fn opens_with(s: Seq<char>, p: Seq<char>) -> bool {
    p.len() <= s.len() && s.take(p.len() as int) == p
}

/// A heading line with its TODO keyword replaced: `old` taken out when
/// `remove_old`, `new` put right after the marker.
pub open spec fn replace_todo(line: Seq<char>, old: Option<Seq<char>>, new: Option<Seq<char>>, remove_old: bool) -> Seq<
    char,
> {
    let m = marker_len(line);
    let marker = line.take(m);
    let after_space = drop_space(line.skip(m));
    let body = match old {
        Some(o) => if remove_old && opens_with(after_space, o) {
            drop_space(after_space.skip(o.len() as int))
        } else {
            after_space
        },
        None => after_space,
    };
    match new {
        Some(kw) => marker + seq![' '] + kw + seq![' '] + body,
        None => if remove_old { marker + seq![' '] + body } else { line },
    }
}

/// The keyword a heading has after one cycling step.
pub open spec fn cycled_todo(kws: Seq<Seq<char>>, current: Option<Seq<char>>) -> Option<Seq<char>> {
    match next_todo(kws, current).0 {
        Some(k) => Some(kws[k]),
        None => None,
    }
}

/// The heading line after one cycling step.
pub open spec fn cycled_line(kws: Seq<Seq<char>>, current: Option<Seq<char>>, line: Seq<char>) -> Seq<char> {
    replace_todo(line, current, cycled_todo(kws, current), next_todo(kws, current).1)
}

proof fn lemma_marker_len(s: Seq<char>)
    ensures
        0 <= marker_len(s) <= s.len(),
        marker_len(s) < s.len() ==> !is_marker(s[marker_len(s)]),
        forall|i: int| 0 <= i < marker_len(s) ==> is_marker(#[trigger] s[i]),
    decreases s.len(),
{
    if s.len() > 0 && is_marker(s[0]) {
        lemma_marker_len(s.drop_first());
        assert forall|i: int| 0 <= i < marker_len(s) implies is_marker(#[trigger] s[i]) by {
            if i > 0 {
                assert(s[i] == s.drop_first()[i - 1]);
            }
        }
    }
}

/// Appends `v[a..b]` to `out`.
fn push_range(out: &mut Vec<char>, v: &[char], a: usize, b: usize)
    requires
        a <= b <= v@.len(),
    ensures
        final(out)@ == old(out)@ + v@.subrange(a as int, b as int),
{
    let mut i = a;
    while i < b
        invariant
            a <= i <= b <= v@.len(),
            out@ == old(out)@ + v@.subrange(a as int, i as int),
        decreases b - i,
    {
        out.push(v[i]);
        assert(old(out)@ + v@.subrange(a as int, i + 1) =~= old(out)@ + v@.subrange(a as int, i as int)
            + seq![v@[i as int]]);
        i += 1;
    }
}

/// Replace or insert a TODO keyword in a heading line.
fn replace_todo_in_line(line: &str, old_kw: Option<&str>, new_kw: Option<&str>, remove_old: bool) -> (r: String)
    ensures
        r@ == replace_todo(line@, old_kw.deep_view(), new_kw.deep_view(), remove_old),
{
    let v = chars_of(line);
    proof { lemma_marker_len(v@); }
    let mut m: usize = 0;
    while m < v.len() && (v[m] == '*' || v[m] == '#')
        invariant
            v@ == line@,
            m <= marker_len(v@),
            0 <= marker_len(v@) <= v@.len(),
            marker_len(v@) < v@.len() ==> !is_marker(v@[marker_len(v@)]),
        decreases v@.len() - m,
    {
        m += 1;
    }
    let len = v.len();
    let s = if m < len && v[m] == ' ' { m + 1 } else { m };
    assert(drop_space(v@.skip(m as int)) =~= v@.subrange(s as int, len as int));
    let mut body = s;
    match old_kw {
        Some(o) => {
            let ov = chars_of(o);
            if remove_old && ov.len() <= len - s && crate::text::occurs_at_exec(v.as_slice(), ov.as_slice(), s) {
                let after = s + ov.len();
                body = if after < len && v[after] == ' ' { after + 1 } else { after };
                proof {
                    let asp = v@.subrange(s as int, len as int);
                    assert(asp.take(ov@.len() as int) =~= v@.subrange(s as int, after as int));
                    assert(drop_space(asp.skip(ov@.len() as int)) =~= v@.subrange(body as int, len as int));
                }
            } else {
                proof {
                    let asp = v@.subrange(s as int, len as int);
                    if remove_old && opens_with(asp, ov@) {
                        assert(v@.subrange(s as int, s + ov@.len()) =~= asp.take(ov@.len() as int));
                    }
                }
            }
        },
        None => {},
    }
    let ghost b = v@.subrange(body as int, len as int);
    match new_kw {
        Some(kw) => {
            let kv = chars_of(kw);
            let mut out: Vec<char> = Vec::new();
            push_range(&mut out, v.as_slice(), 0, m);
            out.push(' ');
            push_range(&mut out, kv.as_slice(), 0, kv.len());
            out.push(' ');
            push_range(&mut out, v.as_slice(), body, len);
            assert(v@.subrange(0, m as int) =~= v@.take(m as int));
            assert(kv@.subrange(0, kv@.len() as int) =~= kv@);
            assert(out@ =~= v@.take(m as int) + seq![' '] + kv@ + seq![' '] + b);
            string_of(out.as_slice())
        },
        None => {
            if remove_old {
                let mut out: Vec<char> = Vec::new();
                push_range(&mut out, v.as_slice(), 0, m);
                out.push(' ');
                push_range(&mut out, v.as_slice(), body, len);
                assert(v@.subrange(0, m as int) =~= v@.take(m as int));
                assert(out@ =~= v@.take(m as int) + seq![' '] + b);
                string_of(out.as_slice())
            } else {
                string_of(v.as_slice())
            }
        },
    }
}

/// Index of the first keyword equal to `kw`.
fn keyword_position(keywords: &[String], kw: &str) -> (r: Option<usize>)
    ensures
        match r {
            Some(i) => i < keywords@.len() && index_in(keywords.deep_view(), kw@, 0) == Some(i as int),
            None => index_in(keywords.deep_view(), kw@, 0) is None,
        },
{
    let ghost ks = keywords.deep_view();
    let mut i: usize = 0;
    while i < keywords.len()
        invariant
            i <= keywords@.len(),
            ks == keywords.deep_view(),
            index_in(ks, kw@, 0) == index_in(ks, kw@, i as int),
        decreases keywords@.len() - i,
    {
        if crate::text::str_eq(keywords[i].as_str(), kw) {
            assert(ks[i as int] == kw@);
            return Some(i);
        }
        i += 1;
    }
    None
}

/// Cycle the TODO state of `heading`: advance through `keywords` in order,
/// remove the keyword after the last one, insert the first one where there is
/// none. Rewrites the heading's line and returns the new keyword.
pub fn cycle_todo(lines: &mut Vec<String>, heading: &HeadingInfo, keywords: &[String]) -> (r: Option<String>)
    requires
        keywords@.len() > 0 ==> heading.line < old(lines)@.len(),
    ensures
        keywords@.len() == 0 ==> r.deep_view() == heading.todo.deep_view() && final(lines)@ == old(lines)@,
        keywords@.len() > 0 ==> r.deep_view() == cycled_todo(keywords.deep_view(), heading.todo.deep_view()),
        keywords@.len() > 0 ==> final(lines).deep_view() == old(lines).deep_view().update(
            heading.line as int,
            cycled_line(keywords.deep_view(), heading.todo.deep_view(), old(lines)@[heading.line as int]@),
        ),
{
    if keywords.len() == 0 {
        return match &heading.todo {
            Some(s) => Some(s.clone()),
            None => None,
        };
    }
    let ghost ks = keywords.deep_view();
    let current: Option<&str> = match &heading.todo {
        Some(s) => Some(s.as_str()),
        None => None,
    };
    let current_idx = match current {
        Some(kw) => keyword_position(keywords, kw),
        None => None,
    };
    let (new_idx, remove_old): (Option<usize>, bool) = match current_idx {
        Some(idx) => if idx + 1 < keywords.len() { (Some(idx + 1), true) } else { (None, true) },
        None => if current.is_some() { (Some(0), true) } else { (Some(0), false) },
    };
    assert(remove_old == next_todo(ks, heading.todo.deep_view()).1);
    assert(match new_idx {
        Some(k) => next_todo(ks, heading.todo.deep_view()).0 == Some(k as int),
        None => next_todo(ks, heading.todo.deep_view()).0 is None,
    });
    let new_kw: Option<&str> = match new_idx {
        Some(k) => Some(keywords[k].as_str()),
        None => None,
    };
    let new_line = replace_todo_in_line(lines[heading.line].as_str(), current, new_kw, remove_old);
    let ghost before = lines.deep_view();
    lines.set(heading.line, new_line);
    assert(lines.deep_view() =~= before.update(heading.line as int, new_line@));
    match new_kw {
        Some(s) => Some(s.to_string()),
        None => None,
    }
}

/// No keyword occurs twice in the list.
pub open spec fn distinct_keywords(kws: Seq<Seq<char>>) -> bool {
    forall|i: int, j: int| 0 <= i < j < kws.len() ==> kws[i] != kws[j]
}

proof fn lemma_index_in_distinct(kws: Seq<Seq<char>>, i: int, k: int)
    requires
        distinct_keywords(kws),
        0 <= k <= i < kws.len(),
    ensures
        index_in(kws, kws[i], k) == Some(i),
    decreases i - k,
{
    if k < i {
        assert(kws[k] != kws[i]);
        lemma_index_in_distinct(kws, i, k + 1);
    }
}

/// With distinct keywords, cycling goes from no keyword to the first one,
/// from each keyword to the next, and from the last one to none.
pub proof fn lemma_todo_cycle_order(kws: Seq<Seq<char>>, i: int)
    requires
        distinct_keywords(kws),
        0 <= i < kws.len(),
    ensures
        cycled_todo(kws, None) == Some(kws[0]),
        cycled_todo(kws, Some(kws[i])) == (if i + 1 < kws.len() { Some(kws[i + 1]) } else { None }),
{
    lemma_index_in_distinct(kws, i, 0);
}

} // verus!
