//! Visibility cycling and the computation of visible lines.
use vstd::prelude::*;
use crate::outline::index::{FoldState, HeadingInfo, InfoView, infos, next_fold, lines_increasing, subtree_end};

verus! {

/// A heading's metadata with another fold state.
pub open spec fn with_fold(h: InfoView, f: FoldState) -> InfoView {
    InfoView { fold: f, ..h }
}

/// Cycle the fold state of heading `heading_idx`.
pub fn cycle_visibility(headings: &mut Vec<HeadingInfo>, heading_idx: usize)
    requires
        heading_idx < old(headings)@.len(),
    ensures
        infos(final(headings)@) == infos(old(headings)@).update(
            heading_idx as int,
            with_fold(old(headings)@[heading_idx as int]@, next_fold(old(headings)@[heading_idx as int].fold)),
        ),
{
    let ghost before = infos(headings@);
    let f = headings[heading_idx].fold.cycle();
    headings[heading_idx].fold = f;
    assert(infos(headings@) =~= before.update(
        heading_idx as int,
        with_fold(old(headings)@[heading_idx as int]@, next_fold(old(headings)@[heading_idx as int].fold)),
    ));
}

/// Give every heading the fold state `target` (global fold or unfold).
pub fn cycle_visibility_global(headings: &mut Vec<HeadingInfo>, target: FoldState)
    ensures
        infos(final(headings)@) == infos(old(headings)@).map_values(|h: InfoView| with_fold(h, target)),
{
    let ghost orig = infos(headings@);
    let mut i: usize = 0;
    while i < headings.len()
        invariant
            i <= headings@.len(),
            headings@.len() == orig.len(),
            orig == infos(old(headings)@),
            forall|j: int| 0 <= j < i ==> #[trigger] infos(headings@)[j] == with_fold(orig[j], target),
            forall|j: int| i <= j < headings@.len() ==> #[trigger] infos(headings@)[j] == orig[j],
        decreases headings@.len() - i,
    {
        let ghost before = infos(headings@);
        headings[i].fold = target;
        assert(infos(headings@) =~= before.update(i as int, with_fold(before[i as int], target)));
        i += 1;
    }
    assert(infos(headings@) =~= orig.map_values(|h: InfoView| with_fold(h, target)));
}

/// How a heading shows.
#[derive(Debug, Clone, Copy, PartialEq, Eq, Structural)]
pub enum HeadingVis {
    /// Hidden by a folded ancestor.
    Hidden,
    /// Only the heading line shows (its parent shows its children).
    HeadingOnly,
    /// The heading shows; its own fold state decides its body.
    Full,
}

/// The nearest heading before `i + 1` whose level is below that of heading `idx`.
pub open spec fn nearest_ancestor(hs: Seq<HeadingInfo>, idx: int, i: int) -> Option<int>
    decreases i + 1,
{
    if i < 0 || i >= hs.len() {
        None
    } else if hs[i].level < hs[idx].level {
        Some(i)
    } else {
        nearest_ancestor(hs, idx, i - 1)
    }
}

/// How heading `idx` shows, given the fold states of its ancestors.
pub open spec fn visibility(hs: Seq<HeadingInfo>, idx: int) -> HeadingVis
    decreases idx,
{
    match nearest_ancestor(hs, idx, idx - 1) {
        None => HeadingVis::Full,
        Some(a) => if 0 <= a < idx {
            match hs[a].fold {
                FoldState::Folded => HeadingVis::Hidden,
                FoldState::Children => if hs[idx].level == hs[a].level + 1 {
                    if visibility(hs, a) == HeadingVis::Hidden {
                        HeadingVis::Hidden
                    } else {
                        HeadingVis::HeadingOnly
                    }
                } else {
                    HeadingVis::Hidden
                },
                FoldState::All => if visibility(hs, a) == HeadingVis::Full {
                    HeadingVis::Full
                } else {
                    HeadingVis::Hidden
                },
            }
        } else {
            HeadingVis::Full
        },
    }
}

/// Where the body of heading `k` ends: the next heading's line, or `total`.
pub open spec fn body_end(hs: Seq<HeadingInfo>, k: int, total: int) -> int {
    if k + 1 < hs.len() { hs[k + 1].line as int } else { total }
}

/// Heading `k` shows line `x`: `x` is the line of the heading, which shows, or
/// lies in its body while it shows fully and is not folded.
pub open spec fn covered_by(hs: Seq<HeadingInfo>, total: int, k: int, x: int) -> bool {
    ||| visibility(hs, k) != HeadingVis::Hidden && x == hs[k].line
    ||| visibility(hs, k) == HeadingVis::Full && hs[k].fold != FoldState::Folded && hs[k].line + 1 <= x
        < body_end(hs, k, total)
}

/// Line `x` shows: with no headings every line does; otherwise the lines
/// before the first heading do, and each line some heading shows.
pub open spec fn line_visible(hs: Seq<HeadingInfo>, total: int, x: int) -> bool {
    if hs.len() == 0 {
        0 <= x < total
    } else {
        ||| 0 <= x < hs[0].line
        ||| exists|k: int| 0 <= k < hs.len() && #[trigger] covered_by(hs, total, k, x)
    }
}

/// Lines shown so far: before the first heading, or shown by one of the first
/// `k` headings.
spec fn shown_upto(hs: Seq<HeadingInfo>, total: int, k: int, x: int) -> bool {
    ||| 0 <= x < hs[0].line
    ||| exists|j: int| 0 <= j < k && #[trigger] covered_by(hs, total, j, x)
}

/// How heading `heading_idx` shows, given its ancestors' fold states.
fn heading_visibility(headings: &[HeadingInfo], heading_idx: usize) -> (r: HeadingVis)
    requires
        heading_idx < headings@.len(),
    ensures
        r == visibility(headings@, heading_idx as int),
    decreases heading_idx,
{
    let level = headings[heading_idx].level;
    let mut i: usize = heading_idx;
    while i > 0
        invariant
            i <= heading_idx < headings@.len(),
            level == headings@[heading_idx as int].level,
            nearest_ancestor(headings@, heading_idx as int, heading_idx - 1) == nearest_ancestor(
                headings@,
                heading_idx as int,
                i - 1,
            ),
        decreases i,
    {
        let a = i - 1;
        if headings[a].level < level {
            return match headings[a].fold {
                FoldState::Folded => HeadingVis::Hidden,
                FoldState::Children => {
                    if level == headings[a].level + 1 {
                        match heading_visibility(headings, a) {
                            HeadingVis::Hidden => HeadingVis::Hidden,
                            _ => HeadingVis::HeadingOnly,
                        }
                    } else {
                        HeadingVis::Hidden
                    }
                },
                FoldState::All => match heading_visibility(headings, a) {
                    HeadingVis::Full => HeadingVis::Full,
                    _ => HeadingVis::Hidden,
                },
            };
        }
        i -= 1;
    }
    HeadingVis::Full
}

/// The buffer lines that show under the current fold states, in increasing
/// order and each once.
pub fn visible_lines(headings: &[HeadingInfo], total_lines: usize) -> (r: Vec<usize>)
    requires
        forall|k: int| 0 <= k < headings@.len() ==> #[trigger] headings@[k].line < usize::MAX,
    ensures
        forall|i: int, j: int| 0 <= i < j < r@.len() ==> r@[i] < r@[j],
        forall|x: int|
            (exists|i: int| 0 <= i < r@.len() && #[trigger] r@[i] == x) <==> line_visible(
                headings@,
                total_lines as int,
                x,
            ),
{
    let ghost hs = headings@;
    let ghost total = total_lines as int;
    let mut out: Vec<usize> = Vec::new();
    if headings.len() == 0 {
        let mut x: usize = 0;
        while x < total_lines
            invariant
                x <= total_lines,
                out@.len() == x,
                forall|i: int| 0 <= i < x ==> #[trigger] out@[i] == i,
            decreases total_lines - x,
        {
            out.push(x);
            x += 1;
        }
        assert forall|y: int| (exists|i: int| 0 <= i < out@.len() && #[trigger] out@[i] == y) <==> line_visible(
            hs,
            total,
            y,
        ) by {
            if 0 <= y < total {
                assert(out@[y] == y);
            }
        }
        return out;
    }
    // Every line that can show lies below `m`.
    let mut m: usize = total_lines;
    if headings[0].line > m {
        m = headings[0].line;
    }
    let mut k: usize = 0;
    while k < headings.len()
        invariant
            k <= hs.len(),
            hs == headings@,
            total_lines <= m,
            hs[0].line <= m,
            forall|j: int| 0 <= j < hs.len() ==> #[trigger] hs[j].line < usize::MAX,
            forall|j: int| 0 <= j < k ==> #[trigger] hs[j].line < m,
        decreases hs.len() - k,
    {
        if headings[k].line + 1 > m {
            m = headings[k].line + 1;
        }
        k += 1;
    }
    let mut marks: Vec<bool> = Vec::new();
    while marks.len() < m
        invariant
            marks@.len() <= m,
            forall|y: int| 0 <= y < marks@.len() ==> !#[trigger] marks@[y],
        decreases m - marks@.len(),
    {
        marks.push(false);
    }
    let first = headings[0].line;
    let mut x: usize = 0;
    while x < first
        invariant
            x <= first <= m,
            first == hs[0].line,
            marks@.len() == m,
            forall|y: int| 0 <= y < m ==> (#[trigger] marks@[y] <==> y < x),
        decreases first - x,
    {
        marks.set(x, true);
        x += 1;
    }
    let mut k: usize = 0;
    while k < headings.len()
        invariant
            k <= hs.len(),
            hs == headings@,
            hs.len() > 0,
            total == total_lines as int,
            total_lines <= m,
            hs[0].line <= m,
            forall|j: int| 0 <= j < hs.len() ==> #[trigger] hs[j].line < m,
            marks@.len() == m,
            forall|y: int| 0 <= y < m ==> (#[trigger] marks@[y] <==> shown_upto(hs, total, k as int, y)),
        decreases hs.len() - k,
    {
        let vis = heading_visibility(headings, k);
        let line = headings[k].line;
        let ghost before = marks@;
        if vis != HeadingVis::Hidden {
            marks.set(line, true);
        }
        if vis == HeadingVis::Full && headings[k].fold != FoldState::Folded {
            let hi = if k + 1 < headings.len() { headings[k + 1].line } else { total_lines };
            let mut y: usize = line + 1;
            while y < hi
                invariant
                    line + 1 <= y,
                    y <= hi || y == line + 1,
                    hi == body_end(hs, k as int, total),
                    hi <= m,
                    marks@.len() == m,
                    forall|z: int|
                        0 <= z < m ==> (#[trigger] marks@[z] <==> (before[z] || z == line || (line + 1
                            <= z < y))),
                decreases hi - y,
            {
                marks.set(y, true);
                y += 1;
            }
            assert forall|z: int| 0 <= z < m implies (#[trigger] marks@[z] <==> shown_upto(
                hs,
                total,
                k + 1,
                z,
            )) by {
                assert(marks@[z] <==> (before[z] || z == line || (line + 1 <= z < hi)));
                assert(hi == body_end(hs, k as int, total));
                assert(covered_by(hs, total, k as int, z) <==> (z == line || (line + 1 <= z < hi)));
                if covered_by(hs, total, k as int, z) {
                    assert(shown_upto(hs, total, k + 1, z));
                }
                if shown_upto(hs, total, k + 1, z) && !shown_upto(hs, total, k as int, z) {
                    let j = choose|j: int| 0 <= j < k + 1 && #[trigger] covered_by(hs, total, j, z);
                    assert(j == k);
                }
                if shown_upto(hs, total, k as int, z) {
                    assert(before[z]);
                }
            }
        } else {
            assert forall|z: int| 0 <= z < m implies (#[trigger] marks@[z] <==> shown_upto(
                hs,
                total,
                k + 1,
                z,
            )) by {
                if covered_by(hs, total, k as int, z) {
                    assert(shown_upto(hs, total, k + 1, z));
                }
                if shown_upto(hs, total, k + 1, z) && !shown_upto(hs, total, k as int, z) {
                    let j = choose|j: int| 0 <= j < k + 1 && #[trigger] covered_by(hs, total, j, z);
                    assert(j == k);
                }
            }
        }
        k += 1;
    }
    // Nothing at or above `m` shows.
    assert forall|z: int| line_visible(hs, total, z) implies 0 <= z < m by {
        if !(0 <= z < hs[0].line) {
            let j = choose|j: int| 0 <= j < hs.len() && #[trigger] covered_by(hs, total, j, z);
            assert(hs[j].line < m);
            if j + 1 < hs.len() {
                assert(hs[j + 1].line < m);
            }
        }
    }
    let mut x: usize = 0;
    while x < m
        invariant
            x <= m,
            marks@.len() == m,
            forall|i: int, j: int| 0 <= i < j < out@.len() ==> out@[i] < out@[j],
            forall|i: int| 0 <= i < out@.len() ==> #[trigger] out@[i] < x,
            forall|y: int|
                0 <= y < x ==> ((exists|i: int| 0 <= i < out@.len() && #[trigger] out@[i] == y)
                    <==> marks@[y]),
            forall|i: int| 0 <= i < out@.len() ==> #[trigger] marks@[out@[i] as int],
        decreases m - x,
    {
        if marks[x] {
            let ghost before = out@;
            out.push(x);
            assert forall|y: int| 0 <= y < x + 1 implies ((exists|i: int|
                0 <= i < out@.len() && #[trigger] out@[i] == y) <==> marks@[y]) by {
                if y < x {
                    if exists|i: int| 0 <= i < out@.len() && #[trigger] out@[i] == y {
                        let i = choose|i: int| 0 <= i < out@.len() && #[trigger] out@[i] == y;
                        assert(i < before.len());
                        assert(before[i] == y);
                    }
                    if marks@[y] {
                        let i = choose|i: int| 0 <= i < before.len() && #[trigger] before[i] == y;
                        assert(out@[i] == y);
                    }
                } else {
                    assert(out@[before.len() as int] == y);
                }
            }
        } else {
            assert forall|y: int| 0 <= y < x + 1 implies ((exists|i: int|
                0 <= i < out@.len() && #[trigger] out@[i] == y) <==> marks@[y]) by {
                if y == x {
                    if exists|i: int| 0 <= i < out@.len() && #[trigger] out@[i] == y {
                        let i = choose|i: int| 0 <= i < out@.len() && #[trigger] out@[i] == y;
                    }
                }
            }
        }
        x += 1;
    }
    assert forall|z: int|
        (exists|i: int| 0 <= i < out@.len() && #[trigger] out@[i] == z) <==> line_visible(hs, total, z) by {
        if exists|i: int| 0 <= i < out@.len() && #[trigger] out@[i] == z {
            let i = choose|i: int| 0 <= i < out@.len() && #[trigger] out@[i] == z;
            assert(marks@[out@[i] as int]);
            assert(shown_upto(hs, total, hs.len() as int, z));
        }
        if line_visible(hs, total, z) {
            assert(0 <= z < m);
            assert(shown_upto(hs, total, hs.len() as int, z));
            assert(marks@[z]);
        }
    }
    out
}

proof fn lemma_nearest_ancestor_bound(hs: Seq<HeadingInfo>, idx: int, i: int)
    ensures
        nearest_ancestor(hs, idx, i) matches Some(a) ==> 0 <= a <= i && a < hs.len(),
    decreases i + 1,
{
    if 0 <= i < hs.len() && hs[i].level >= hs[idx].level {
        lemma_nearest_ancestor_bound(hs, idx, i - 1);
    }
}

/// With every heading unfolded, every heading shows fully.
proof fn lemma_unfolded_full(hs: Seq<HeadingInfo>, k: int)
    requires
        0 <= k < hs.len(),
        forall|j: int| 0 <= j < hs.len() ==> #[trigger] hs[j].fold == FoldState::All,
    ensures
        visibility(hs, k) == HeadingVis::Full,
    decreases k,
{
    lemma_nearest_ancestor_bound(hs, k, k - 1);
    match nearest_ancestor(hs, k, k - 1) {
        Some(a) => {
            assert(hs[a].fold == FoldState::All);
            lemma_unfolded_full(hs, a);
        },
        None => {},
    }
}

/// The last heading from `k` on whose line is at or before `x`, when the
/// lines increase.
proof fn lemma_last_heading_before(hs: Seq<HeadingInfo>, x: int, k: int) -> (j: int)
    requires
        0 <= k < hs.len(),
        hs[k].line <= x,
    ensures
        k <= j < hs.len(),
        hs[j].line <= x,
        j + 1 == hs.len() || hs[j + 1].line > x,
    decreases hs.len() - k,
{
    if k + 1 < hs.len() && hs[k + 1].line <= x {
        lemma_last_heading_before(hs, x, k + 1)
    } else {
        k
    }
}

/// An outline whose headings are all unfolded shows every line of the buffer.
pub proof fn lemma_unfolded_shows_all(hs: Seq<HeadingInfo>, total: int, x: int)
    requires
        crate::outline::index::lines_increasing(hs),
        forall|k: int| 0 <= k < hs.len() ==> #[trigger] hs[k].line < total,
        forall|k: int| 0 <= k < hs.len() ==> #[trigger] hs[k].fold == FoldState::All,
        0 <= x < total,
    ensures
        line_visible(hs, total, x),
{
    if hs.len() > 0 && x >= hs[0].line {
        let j = lemma_last_heading_before(hs, x, 0);
        lemma_unfolded_full(hs, j);
        assert(hs[j].fold == FoldState::All);
        assert(covered_by(hs, total, j, x));
    }
}


/// Every line an outline shows lies in the buffer.
pub proof fn lemma_visible_in_buffer(hs: Seq<HeadingInfo>, total: int, x: int)
    requires
        lines_increasing(hs),
        forall|k: int| 0 <= k < hs.len() ==> #[trigger] hs[k].line < total,
        line_visible(hs, total, x),
    ensures
        0 <= x < total,
{
    if hs.len() > 0 && !(0 <= x < hs[0].line) {
        let k = choose|k: int| 0 <= k < hs.len() && #[trigger] covered_by(hs, total, k, x);
        assert(hs[k].line < total);
        if k + 1 < hs.len() {
            assert(hs[k + 1].line < total);
        }
    }
}

/// A heading with no heading of lower level before it shows its line.
pub proof fn lemma_top_level_visible(hs: Seq<HeadingInfo>, total: int, k: int)
    requires
        0 <= k < hs.len(),
        nearest_ancestor(hs, k, k - 1) is None,
    ensures
        line_visible(hs, total, hs[k].line as int),
{
    assert(visibility(hs, k) == HeadingVis::Full);
    assert(covered_by(hs, total, k, hs[k].line as int));
    if !(0 <= hs[k].line < hs[0].line) {
        assert(exists|j: int| 0 <= j < hs.len() && #[trigger] covered_by(hs, total, j, hs[k].line as int));
    }
}

proof fn lemma_ancestor_at_or_after(hs: Seq<HeadingInfo>, k: int, m: int, i: int)
    requires
        0 <= i <= m < k < hs.len(),
        hs[i].level < hs[k].level,
    ensures
        nearest_ancestor(hs, k, m) matches Some(a) && i <= a <= m && hs[a].level < hs[k].level,
    decreases m,
{
    if hs[m].level >= hs[k].level {
        lemma_ancestor_at_or_after(hs, k, m - 1, i);
    }
}

/// Inside the subtree of a folded heading, every heading is hidden.
proof fn lemma_inside_folded_hidden(hs: Seq<HeadingInfo>, i: int, k: int)
    requires
        0 <= i < k < hs.len(),
        hs[i].fold == FoldState::Folded,
        forall|j: int| i < j <= k ==> #[trigger] hs[j].level > hs[i].level,
    ensures
        visibility(hs, k) == HeadingVis::Hidden,
    decreases k,
{
    assert(hs[k].level > hs[i].level);
    lemma_ancestor_at_or_after(hs, k, k - 1, i);
    let a = nearest_ancestor(hs, k, k - 1)->0;
    if a > i {
        lemma_inside_folded_hidden(hs, i, a);
    }
}

proof fn lemma_subtree_end_le(hs: Seq<HeadingInfo>, i: int, m: int, j: int, total: int)
    requires
        lines_increasing(hs),
        0 <= i < m <= j < hs.len(),
        hs[j].level <= hs[i].level,
    ensures
        subtree_end(hs, i, m, total) <= hs[j].line,
    decreases j - m,
{
    if hs[m].level > hs[i].level {
        lemma_subtree_end_le(hs, i, m + 1, j, total);
    } else if m < j {
        assert(hs[m].line < hs[j].line);
    }
}

/// A folded heading shows none of the lines of its subtree after its own.
pub proof fn lemma_folded_hides_subtree(hs: Seq<HeadingInfo>, total: int, i: int, x: int)
    requires
        lines_increasing(hs),
        0 <= i < hs.len(),
        hs[i].fold == FoldState::Folded,
        hs[i].line < x < subtree_end(hs, i, i + 1, total),
    ensures
        !line_visible(hs, total, x),
{
    assert(hs[0].line <= hs[i].line) by {
        if i > 0 {
            assert(hs[0].line < hs[i].line);
        }
    }
    assert forall|k: int| 0 <= k < hs.len() implies !#[trigger] covered_by(hs, total, k, x) by {
        if k < i {
            assert(hs[k].line < hs[i].line);
            if k + 1 < i {
                assert(hs[k + 1].line < hs[i].line);
            }
        } else if k > i {
            if hs[k].line < subtree_end(hs, i, i + 1, total) {
                assert forall|j: int| i < j <= k implies #[trigger] hs[j].level > hs[i].level by {
                    if hs[j].level <= hs[i].level {
                        lemma_subtree_end_le(hs, i, i + 1, j, total);
                        if j < k {
                            assert(hs[j].line < hs[k].line);
                        }
                    }
                }
                lemma_inside_folded_hidden(hs, i, k);
            }
        }
    }
}
} // verus!
