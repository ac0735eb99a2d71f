//! The heading index: where the headings of a document are, with their
//! metadata and fold states.
use vstd::prelude::*;
use crate::outline::parse::{HeadingParser, HeadingView, ParsedHeading, parsed_view};

verus! {

/// Visibility state of a heading's subtree.
#[derive(Debug, Clone, Copy, PartialEq, Eq, Structural)]
pub enum FoldState {
    /// Only the heading line is visible.
    Folded,
    /// The heading, its body and its direct child headings are visible.
    Children,
    /// The whole subtree is visible.
    All,
}

/// The state after `f` in the cycle Folded → Children → All → Folded.
pub open spec fn next_fold(f: FoldState) -> FoldState {
    match f {
        FoldState::Folded => FoldState::Children,
        FoldState::Children => FoldState::All,
        FoldState::All => FoldState::Folded,
    }
}

impl FoldState {
    /// Advance to the next state of the cycle Folded → Children → All → Folded.
    pub fn cycle(self) -> (r: Self)
        ensures
            r == next_fold(self),
    {
        match self {
            FoldState::Folded => FoldState::Children,
            FoldState::Children => FoldState::All,
            FoldState::All => FoldState::Folded,
        }
    }
}

/// Cycling the fold state three times comes back to where it started.
pub proof fn lemma_fold_cycle_period(f: FoldState)
    ensures
        next_fold(next_fold(next_fold(f))) == f,
        next_fold(f) != f,
{
}

/// Metadata of one heading of a document.
#[derive(Debug, Clone)]
pub struct HeadingInfo {
    /// Line number in the buffer (0-indexed).
    pub line: usize,
    /// Heading level (1+).
    pub level: usize,
    /// Current fold state.
    pub fold: FoldState,
    /// TODO keyword if present.
    pub todo: Option<String>,
    /// Priority cookie character.
    pub priority: Option<char>,
    /// Tags from the trailing `:tag:` block.
    pub tags: Vec<String>,
    /// Title text.
    pub title: String,
}

/// The mathematical content of a heading's metadata.
pub struct InfoView {
    pub line: int,
    pub level: int,
    pub fold: FoldState,
    pub todo: Option<Seq<char>>,
    pub priority: Option<char>,
    pub tags: Seq<Seq<char>>,
    pub title: Seq<char>,
}

impl View for HeadingInfo {
    type V = InfoView;

    open spec fn view(&self) -> InfoView {
        InfoView {
            line: self.line as int,
            level: self.level as int,
            fold: self.fold,
            todo: self.todo.deep_view(),
            priority: self.priority,
            tags: self.tags.deep_view(),
            title: self.title@,
        }
    }
}

/// The views of a list of headings.
pub open spec fn infos(hs: Seq<HeadingInfo>) -> Seq<InfoView> {
    hs.map_values(|h: HeadingInfo| h@)
}

/// The fold state the previous index gave the heading at (`line`, `level`):
/// that of its last entry there, `All` when it has none.
pub open spec fn prev_fold(prev: Seq<InfoView>, line: int, level: int) -> FoldState
    decreases prev.len(),
{
    if prev.len() == 0 {
        FoldState::All
    } else if prev.last().line == line && prev.last().level == level {
        prev.last().fold
    } else {
        prev_fold(prev.drop_last(), line, level)
    }
}

/// The index entry for a heading parsed at `line`.
pub open spec fn info_of(line: int, p: HeadingView, fold: FoldState) -> InfoView {
    InfoView {
        line,
        level: p.level,
        fold,
        todo: p.todo,
        priority: p.priority,
        tags: p.tags,
        title: p.title,
    }
}

/// The heading index of a document: one entry per line that parses as a
/// heading, in line order, each with the fold state the previous index gave it.
pub open spec fn index_of<P: HeadingParser>(parser: P, ls: Seq<Seq<char>>, prev: Seq<InfoView>) -> Seq<
    InfoView,
>
    decreases ls.len(),
{
    if ls.len() == 0 {
        seq![]
    } else {
        let init = index_of(parser, ls.drop_last(), prev);
        let n = ls.len() - 1;
        match parser.parses(ls.last()) {
            Some(p) => init.push(info_of(n, p, prev_fold(prev, n, p.level))),
            None => init,
        }
    }
}

/// Scan buffer lines and produce the heading index. A heading keeps the fold
/// state that `prev` had for the same line and level.
pub fn build_heading_index<P: HeadingParser>(lines: &[String], parser: &P, prev: &[HeadingInfo]) -> (r: Vec<
    HeadingInfo,
>)
    ensures
        infos(r@) == index_of(*parser, lines@.map_values(|l: String| l@), infos(prev@)),
{
    let ghost ls = lines@.map_values(|l: String| l@);
    let ghost pv = infos(prev@);
    let mut index: Vec<HeadingInfo> = Vec::new();
    let mut i: usize = 0;
    while i < lines.len()
        invariant
            i <= lines@.len(),
            ls == lines@.map_values(|l: String| l@),
            pv == infos(prev@),
            infos(index@) == index_of(*parser, ls.take(i as int), pv),
        decreases lines@.len() - i,
    {
        let parsed = parser.parse_line(lines[i].as_str());
        assert(ls.take(i + 1).drop_last() =~= ls.take(i as int));
        assert(ls.take(i + 1).last() == lines@[i as int]@);
        match parsed {
            Some(p) => {
                let fold = lookup_fold(prev, i, p.level);
                let ParsedHeading { level, todo, priority, tags, title } = p;
                let info = HeadingInfo { line: i, level, fold, todo, priority, tags, title };
                let ghost before = infos(index@);
                index.push(info);
                assert(infos(index@) =~= before.push(info@));
            },
            None => {},
        }
        i += 1;
    }
    assert(ls.take(lines@.len() as int) =~= ls);
    index
}

/// The fold state `prev` gives the heading at (`line`, `level`).
fn lookup_fold(prev: &[HeadingInfo], line: usize, level: usize) -> (r: FoldState)
    ensures
        r == prev_fold(infos(prev@), line as int, level as int),
{
    let ghost pv = infos(prev@);
    let mut j: usize = prev.len();
    assert(pv.take(prev@.len() as int) =~= pv);
    while j > 0
        invariant
            j <= prev@.len(),
            pv == infos(prev@),
            prev_fold(pv, line as int, level as int) == prev_fold(pv.take(j as int), line as int, level as int),
        decreases j,
    {
        assert(pv.take(j as int).drop_last() =~= pv.take(j - 1));
        assert(pv.take(j as int).last() == prev@[j - 1]@);
        if prev[j - 1].line == line && prev[j - 1].level == level {
            return prev[j - 1].fold;
        }
        j -= 1;
    }
    FoldState::All
}

/// Heading lines strictly increase along the index.
pub open spec fn lines_increasing(hs: Seq<HeadingInfo>) -> bool {
    forall|i: int, j: int| 0 <= i < j < hs.len() ==> hs[i].line < hs[j].line
}

/// Index of the heading at or before `line`; `None` when `line` comes before
/// every heading.
pub fn heading_at_or_before(headings: &[HeadingInfo], line: usize) -> (r: Option<usize>)
    ensures
        match r {
            Some(i) => i < headings@.len() && headings@[i as int].line <= line,
            None => true,
        },
        lines_increasing(headings@) ==> match r {
            Some(i) => i + 1 == headings@.len() || headings@[i + 1].line > line,
            None => headings@.len() == 0 || headings@[0].line > line,
        },
{
    let ghost hs = headings@;
    let mut lo: usize = 0;
    let mut hi: usize = headings.len();
    while lo < hi
        invariant
            lo <= hi <= hs.len(),
            hs == headings@,
            lines_increasing(hs) ==> forall|k: int| 0 <= k < lo ==> #[trigger] hs[k].line <= line,
            lines_increasing(hs) ==> forall|k: int| hi <= k < hs.len() ==> #[trigger] hs[k].line > line,
        decreases hi - lo,
    {
        let mid = lo + (hi - lo) / 2;
        if headings[mid].line <= line {
            proof {
                if lines_increasing(hs) {
                    assert forall|k: int| 0 <= k < mid + 1 implies #[trigger] hs[k].line <= line by {
                        if k < mid {
                            assert(hs[k].line < hs[mid as int].line);
                        }
                    }
                }
            }
            lo = mid + 1;
        } else {
            proof {
                if lines_increasing(hs) {
                    assert forall|k: int| mid <= k < hs.len() implies #[trigger] hs[k].line > line by {
                        if k > mid {
                            assert(hs[mid as int].line < hs[k].line);
                        }
                    }
                }
            }
            hi = mid;
        }
    }
    if lo == 0 {
        None
    } else if headings[lo - 1].line <= line {
        Some(lo - 1)
    } else {
        None
    }
}

/// Where the subtree of heading `idx` ends, scanning from heading `k`: the line
/// of the first heading at the same or a higher level, else `total`.
pub open spec fn subtree_end(hs: Seq<HeadingInfo>, idx: int, k: int, total: int) -> int
    decreases hs.len() - k,
{
    if k < 0 || k >= hs.len() {
        total
    } else if hs[k].level <= hs[idx].level {
        hs[k].line as int
    } else {
        subtree_end(hs, idx, k + 1, total)
    }
}

/// The line range (start..end) of the subtree rooted at heading `idx`: up to
/// the next heading at the same or a higher level, or the end of the document.
pub fn subtree_range(headings: &[HeadingInfo], idx: usize, total_lines: usize) -> (r: std::ops::Range<
    usize,
>)
    requires
        idx < headings@.len(),
    ensures
        r.start == headings@[idx as int].line,
        r.end == subtree_end(headings@, idx as int, idx + 1, total_lines as int),
{
    let start = headings[idx].line;
    let level = headings[idx].level;
    let mut k: usize = idx + 1;
    while k < headings.len()
        invariant
            idx < k <= headings@.len(),
            level == headings@[idx as int].level,
            start == headings@[idx as int].line,
            subtree_end(headings@, idx as int, idx + 1, total_lines as int) == subtree_end(
                headings@,
                idx as int,
                k as int,
                total_lines as int,
            ),
        decreases headings@.len() - k,
    {
        if headings[k].level <= level {
            return start..headings[k].line;
        }
        k += 1;
    }
    start..total_lines
}

} // verus!
