//! Placement of the strip's windows once the sizes of its columns and
//! windows are resolved: their rectangles, the scroll offset and the
//! windows the viewport shows.
use vstd::prelude::*;
use crate::selection::Area;
use crate::tile::strip::{Strip, StripView, WindowId, ScrollMode, column_views, window_views};
use crate::tile::types::Axis;

verus! {

/// A window the viewport shows, with its rectangle in viewport coordinates.
#[derive(Debug, Clone, Copy, PartialEq, Eq)]
pub struct VisibleWindow {
    pub id: WindowId,
    /// Rectangle relative to the viewport's top-left corner, clipped to it.
    pub rect: Area,
    /// Whether the whole window shows.
    pub fully_visible: bool,
}

/// The computed layout of a strip.
#[derive(Debug, Clone)]
pub struct LayoutResult {
    /// Rectangle of every window in strip coordinates, column by column.
    pub window_rects: Vec<(WindowId, Area)>,
    /// Extent of the strip along the primary axis.
    pub strip_extent: u16,
    /// Scroll offset along the primary axis.
    pub scroll_offset: u16,
    /// The windows the viewport shows, in the order of their rectangles.
    pub visible: Vec<VisibleWindow>,
}

/// A sum clamped to the `u16` range.
pub open spec fn sat(x: int) -> int {
    if x > u16::MAX { u16::MAX as int } else { x }
}

/// Start of item `i` of a row of items of sizes `ws` with `gap` between them.
pub open spec fn item_start(ws: Seq<u16>, gap: u16, i: int) -> int
    decreases i,
{
    if i <= 0 || i > ws.len() {
        0
    } else {
        sat(sat(item_start(ws, gap, i - 1) + ws[i - 1]) + gap)
    }
}

/// Extent of a row of items: the end of the last one.
pub open spec fn items_extent(ws: Seq<u16>, gap: u16) -> int {
    if ws.len() == 0 {
        0
    } else {
        sat(item_start(ws, gap, ws.len() - 1) + ws[ws.len() - 1])
    }
}

/// Rectangle of a window at `cross` within a column at `primary` of width `cw`.
pub open spec fn window_area(axis: Axis, primary: int, cw: u16, cross: int, h: u16) -> Area {
    match axis {
        Axis::Horizontal => Area { x: primary as u16, y: cross as u16, width: cw, height: h },
        Axis::Vertical => Area { x: cross as u16, y: primary as u16, width: h, height: cw },
    }
}

/// The rectangles of the windows of column `c`.
pub open spec fn column_rects(
    v: StripView,
    cws: Seq<u16>,
    hs: Seq<Seq<u16>>,
    c: int,
) -> Seq<(WindowId, Area)> {
    let ws = v.columns[c].windows;
    Seq::new(
        ws.len(),
        |i: int|
            (
                ws[i].id,
                window_area(
                    v.config.axis,
                    item_start(cws, v.config.column_gap, c),
                    cws[c],
                    item_start(hs[c], v.config.window_gap, i),
                    hs[c][i],
                ),
            ),
    )
}

/// The rectangles of the windows of columns `0..n`, column by column.
pub open spec fn rects_upto(v: StripView, cws: Seq<u16>, hs: Seq<Seq<u16>>, n: int) -> Seq<
    (WindowId, Area),
>
    decreases n,
{
    if n <= 0 {
        Seq::empty()
    } else {
        rects_upto(v, cws, hs, n - 1) + column_rects(v, cws, hs, n - 1)
    }
}

/// Start and size of a rectangle along the primary axis.
pub open spec fn primary_span(axis: Axis, r: Area) -> (u16, u16) {
    match axis {
        Axis::Horizontal => (r.x, r.width),
        Axis::Vertical => (r.y, r.height),
    }
}

/// Index of the first rectangle of window `id`, or the length when none is.
pub open spec fn rect_index(rects: Seq<(WindowId, Area)>, id: WindowId, j: int) -> int
    decreases rects.len() - j,
{
    if j < 0 || j >= rects.len() {
        rects.len() as int
    } else if rects[j].0 == id {
        j
    } else {
        rect_index(rects, id, j + 1)
    }
}

/// The scroll offset: a manual offset, clamped so the strip's end stays in
/// view; when following the focus, the offset that centers the focused
/// window, clamped the same way (0 without a focused window).
pub open spec fn scroll_offset_of(
    v: StripView,
    rects: Seq<(WindowId, Area)>,
    vp_primary: u16,
    extent: int,
) -> int {
    let max_off = if extent >= vp_primary { extent - vp_primary } else { 0 };
    match v.scroll_mode {
        ScrollMode::Manual(o) => if o < max_off { o as int } else { max_off },
        ScrollMode::FocusTracking => match v.focus {
            None => 0,
            Some(f) => {
                let k = rect_index(rects, f, 0);
                if k >= rects.len() {
                    0
                } else {
                    let (s, z) = primary_span(v.config.axis, rects[k].1);
                    let center = sat(s + z / 2);
                    let ideal = if center >= vp_primary / 2 { center - vp_primary / 2 } else { 0 };
                    if ideal < max_off { ideal } else { max_off }
                }
            },
        },
    }
}

/// Where a rectangle shows in a viewport that starts at `off` along the
/// primary axis and spans `vp` cells: `None` when it does not overlap.
pub open spec fn clip_window(id: WindowId, r: Area, axis: Axis, off: u16, vp: u16) -> Option<
    VisibleWindow,
> {
    let (s, z) = primary_span(axis, r);
    let e = sat(s + z);
    let vend = sat(off + vp);
    if e <= off || s >= vend {
        None
    } else {
        let cs = if s > off { s as int } else { off as int };
        let ce = if e < vend { e } else { vend };
        let local = (cs - off) as u16;
        let size = (ce - cs) as u16;
        Some(
            VisibleWindow {
                id,
                rect: match axis {
                    Axis::Horizontal => Area { x: local, y: r.y, width: size, height: r.height },
                    Axis::Vertical => Area { x: r.x, y: local, width: r.width, height: size },
                },
                fully_visible: s >= off && e <= vend,
            },
        )
    }
}

/// The windows of the first `n` rectangles that the viewport shows.
pub open spec fn visible_upto(
    rects: Seq<(WindowId, Area)>,
    axis: Axis,
    off: u16,
    vp: u16,
    n: int,
) -> Seq<VisibleWindow>
    decreases n,
{
    if n <= 0 || n > rects.len() {
        Seq::empty()
    } else {
        let before = visible_upto(rects, axis, off, vp, n - 1);
        match clip_window(rects[n - 1].0, rects[n - 1].1, axis, off, vp) {
            Some(w) => before.push(w),
            None => before,
        }
    }
}

/// Sizes that match the strip: one width per column and one height per window.
pub open spec fn sizes_match(v: StripView, cws: Seq<u16>, hs: Seq<Seq<u16>>) -> bool {
    &&& cws.len() == v.columns.len()
    &&& hs.len() == v.columns.len()
    &&& forall|c: int| 0 <= c < hs.len() ==> #[trigger] hs[c].len() == v.columns[c].windows.len()
}

/// The layout of a strip in a viewport, from resolved sizes.
pub open spec fn layout_of(
    v: StripView,
    cws: Seq<u16>,
    hs: Seq<Seq<u16>>,
    vw: u16,
    vh: u16,
) -> (Seq<(WindowId, Area)>, int, int, Seq<VisibleWindow>) {
    let vp = match v.config.axis {
        Axis::Horizontal => vw,
        Axis::Vertical => vh,
    };
    if v.columns.len() == 0 {
        (Seq::empty(), 0, 0, Seq::empty())
    } else {
        let rects = rects_upto(v, cws, hs, v.columns.len() as int);
        let extent = items_extent(cws, v.config.column_gap);
        let off = scroll_offset_of(v, rects, vp, extent);
        (rects, extent, off, visible_upto(rects, v.config.axis, off as u16, vp, rects.len() as int))
    }
}

proof fn lemma_item_start_bound(ws: Seq<u16>, gap: u16, i: int)
    ensures
        0 <= item_start(ws, gap, i) <= u16::MAX,
    decreases i,
{
    if 0 < i <= ws.len() {
        lemma_item_start_bound(ws, gap, i - 1);
    }
}

/// Starts of a row of items of sizes `ws` with `gap` between them, and the
/// row's extent.
fn item_starts(ws: &Vec<u16>, gap: u16) -> (r: (Vec<u16>, u16))
    ensures
        r.0@.len() == ws@.len(),
        forall|i: int| 0 <= i < ws@.len() ==> r.0@[i] == item_start(ws@, gap, i),
        r.1 == items_extent(ws@, gap),
{
    let n = ws.len();
    let mut starts: Vec<u16> = Vec::new();
    let mut pos: u16 = 0;
    let mut i: usize = 0;
    while i < n
        invariant
            n == ws@.len(),
            i <= n,
            starts@.len() == i,
            forall|j: int| 0 <= j < i ==> starts@[j] == item_start(ws@, gap, j),
            i < n ==> pos == item_start(ws@, gap, i as int),
            i == n && n > 0 ==> pos == items_extent(ws@, gap),
            n == 0 ==> pos == 0,
        decreases n - i,
    {
        starts.push(pos);
        pos = pos.saturating_add(ws[i]);
        if i + 1 < n {
            pos = pos.saturating_add(gap);
        }
        i += 1;
    }
    (starts, pos)
}

/// The layout of a strip in a viewport of `viewport_width` by
/// `viewport_height` cells, given the resolved width of each column and the
/// resolved height of each window (along the cross axis): rectangles stacked
/// column after column with the configured gaps (sums clamped to `u16`), the
/// scroll offset, and the windows that show, clipped to the viewport.
pub fn layout_with_sizes(
    strip: &Strip,
    col_widths: &Vec<u16>,
    win_heights: &Vec<Vec<u16>>,
    viewport_width: u16,
    viewport_height: u16,
) -> (r: LayoutResult)
    requires
        sizes_match(strip@, col_widths@, win_heights.deep_view()),
    ensures
        ({
            let l = layout_of(strip@, col_widths@, win_heights.deep_view(), viewport_width, viewport_height);
            &&& r.window_rects@ == l.0
            &&& r.strip_extent == l.1
            &&& r.scroll_offset == l.2
            &&& r.visible@ == l.3
        }),
{
    let ghost v = strip@;
    let ghost hs = win_heights.deep_view();
    let config = strip.config();
    let axis = config.axis;
    let vp_primary = match axis {
        Axis::Horizontal => viewport_width,
        Axis::Vertical => viewport_height,
    };
    let columns = strip.columns();
    if columns.len() == 0 {
        let r = LayoutResult {
            window_rects: Vec::new(),
            strip_extent: 0,
            scroll_offset: 0,
            visible: Vec::new(),
        };
        assert(r.window_rects@ =~= Seq::<(WindowId, Area)>::empty());
        assert(r.visible@ =~= Seq::<VisibleWindow>::empty());
        return r;
    }
    let (col_positions, strip_extent) = item_starts(col_widths, config.column_gap);
    let mut rects: Vec<(WindowId, Area)> = Vec::new();
    let mut c: usize = 0;
    while c < columns.len()
        invariant
            c <= columns@.len(),
            column_views(columns@) == v.columns,
            v == strip@,
            *config == v.config,
            axis == v.config.axis,
            sizes_match(v, col_widths@, hs),
            hs == win_heights.deep_view(),
            col_positions@.len() == col_widths@.len(),
            forall|i: int| 0 <= i < col_widths@.len() ==> col_positions@[i] == item_start(
                col_widths@,
                v.config.column_gap,
                i,
            ),
            rects@ == rects_upto(v, col_widths@, hs, c as int),
        decreases columns@.len() - c,
    {
        let windows = columns[c].windows();
        assert(columns@[c as int]@ == v.columns[c as int]);
        assert(win_heights@[c as int]@ =~= hs[c as int]);
        let (cross_positions, _end) = item_starts(&win_heights[c], config.window_gap);
        let ghost before = rects@;
        let mut i: usize = 0;
        while i < windows.len()
            invariant
                i <= windows@.len(),
                c < columns@.len(),
                window_views(windows@) == v.columns[c as int].windows,
                column_views(columns@) == v.columns,
                *config == v.config,
                axis == v.config.axis,
                sizes_match(v, col_widths@, hs),
                hs == win_heights.deep_view(),
                win_heights@[c as int]@ == hs[c as int],
                col_positions@.len() == col_widths@.len(),
                forall|q: int| 0 <= q < col_widths@.len() ==> col_positions@[q] == item_start(
                    col_widths@,
                    v.config.column_gap,
                    q,
                ),
                cross_positions@.len() == hs[c as int].len(),
                forall|q: int| 0 <= q < hs[c as int].len() ==> cross_positions@[q] == item_start(
                    hs[c as int],
                    v.config.window_gap,
                    q,
                ),
                before == rects_upto(v, col_widths@, hs, c as int),
                rects@ == before + column_rects(v, col_widths@, hs, c as int).take(i as int),
            decreases windows@.len() - i,
        {
            let id = windows[i].id();
            let p = col_positions[c];
            let w = col_widths[c];
            let q = cross_positions[i];
            let h = win_heights[c][i];
            let area = match axis {
                Axis::Horizontal => Area { x: p, y: q, width: w, height: h },
                Axis::Vertical => Area { x: q, y: p, width: h, height: w },
            };
            let ghost prev = rects@;
            rects.push((id, area));
            proof {
                let cr = column_rects(v, col_widths@, hs, c as int);
                assert(cr[i as int] == (id, area));
                assert(cr.take(i as int).push(cr[i as int]) =~= cr.take(i + 1));
                assert(rects@ =~= before + cr.take(i + 1));
            }
            i += 1;
        }
        proof {
            let cr = column_rects(v, col_widths@, hs, c as int);
            assert(cr.take(windows@.len() as int) =~= cr);
        }
        c += 1;
    }
    let ghost all = rects@;
    let scroll_offset = compute_scroll_offset(strip, &rects, vp_primary, strip_extent);
    let visible = compute_visible(&rects, scroll_offset, vp_primary, axis);
    LayoutResult { window_rects: rects, strip_extent, scroll_offset, visible }
}

/// The scroll offset of a strip whose windows have the rectangles `rects`.
fn compute_scroll_offset(
    strip: &Strip,
    rects: &Vec<(WindowId, Area)>,
    vp_primary: u16,
    strip_extent: u16,
) -> (r: u16)
    ensures
        r == scroll_offset_of(strip@, rects@, vp_primary, strip_extent as int),
{
    let max_offset = strip_extent.saturating_sub(vp_primary);
    match strip.scroll_mode() {
        ScrollMode::Manual(offset) => if offset < max_offset {
            offset
        } else {
            max_offset
        },
        ScrollMode::FocusTracking => {
            let focus_id = match strip.focused() {
                Some(f) => f,
                None => {
                    return 0;
                },
            };
            let mut k: usize = 0;
            while k < rects.len() && rects[k].0 != focus_id
                invariant
                    k <= rects@.len(),
                    rect_index(rects@, focus_id, 0) == rect_index(rects@, focus_id, k as int),
                decreases rects@.len() - k,
            {
                k += 1;
            }
            if k >= rects.len() {
                return 0;
            }
            let rect = rects[k].1;
            let (win_start, win_size) = match strip.config().axis {
                Axis::Horizontal => (rect.x, rect.width),
                Axis::Vertical => (rect.y, rect.height),
            };
            let win_center = win_start.saturating_add(win_size / 2);
            let ideal = win_center.saturating_sub(vp_primary / 2);
            if ideal < max_offset {
                ideal
            } else {
                max_offset
            }
        },
    }
}

/// The windows of `rects` that a viewport starting at `scroll_offset` and
/// spanning `vp_primary` cells along the primary axis shows.
fn compute_visible(
    rects: &Vec<(WindowId, Area)>,
    scroll_offset: u16,
    vp_primary: u16,
    axis: Axis,
) -> (r: Vec<VisibleWindow>)
    ensures
        r@ == visible_upto(rects@, axis, scroll_offset, vp_primary, rects@.len() as int),
{
    let vp_start = scroll_offset;
    let vp_end = vp_start.saturating_add(vp_primary);
    let mut visible: Vec<VisibleWindow> = Vec::new();
    let mut k: usize = 0;
    while k < rects.len()
        invariant
            k <= rects@.len(),
            vp_start == scroll_offset,
            vp_end == sat(scroll_offset + vp_primary),
            visible@ == visible_upto(rects@, axis, scroll_offset, vp_primary, k as int),
        decreases rects@.len() - k,
    {
        let (id, rect) = rects[k];
        let (win_start, win_size) = match axis {
            Axis::Horizontal => (rect.x, rect.width),
            Axis::Vertical => (rect.y, rect.height),
        };
        let win_end = win_start.saturating_add(win_size);
        if !(win_end <= vp_start || win_start >= vp_end) {
            let clip_start = if win_start > vp_start {
                win_start
            } else {
                vp_start
            };
            let clip_end = if win_end < vp_end {
                win_end
            } else {
                vp_end
            };
            let local = clip_start - vp_start;
            let size = clip_end - clip_start;
            let fully_visible = win_start >= vp_start && win_end <= vp_end;
            let vp_rect = match axis {
                Axis::Horizontal => Area { x: local, y: rect.y, width: size, height: rect.height },
                Axis::Vertical => Area { x: rect.x, y: local, width: rect.width, height: size },
            };
            visible.push(VisibleWindow { id, rect: vp_rect, fully_visible });
        }
        k += 1;
    }
    visible
}


/// The viewport's offset never scrolls past the end of a strip longer than
/// the viewport.
pub proof fn lemma_scroll_bounded(
    v: StripView,
    rects: Seq<(WindowId, Area)>,
    vp: u16,
    extent: int,
)
    requires
        extent > vp,
    ensures
        0 <= scroll_offset_of(v, rects, vp, extent) <= extent - vp,
{
}

/// Every window the viewport shows lies within it along the primary axis.
pub proof fn lemma_visible_within_viewport(
    rects: Seq<(WindowId, Area)>,
    axis: Axis,
    off: u16,
    vp: u16,
    n: int,
)
    ensures
        forall|k: int|
            0 <= k < visible_upto(rects, axis, off, vp, n).len() ==> {
                let (s, z) = primary_span(axis, #[trigger] visible_upto(rects, axis, off, vp, n)[k].rect);
                s + z <= vp
            },
    decreases n,
{
    if 0 < n <= rects.len() {
        lemma_visible_within_viewport(rects, axis, off, vp, n - 1);
        let before = visible_upto(rects, axis, off, vp, n - 1);
        match clip_window(rects[n - 1].0, rects[n - 1].1, axis, off, vp) {
            Some(w) => {
                assert forall|k: int| 0 <= k < before.push(w).len() implies {
                    let (s, z) = primary_span(axis, #[trigger] before.push(w)[k].rect);
                    s + z <= vp
                } by {
                    if k < before.len() {
                        assert(before.push(w)[k] == before[k]);
                    }
                }
            },
            None => {},
        }
    }
}

/// The viewport shows the window of rectangle `k` whenever that rectangle
/// overlaps it along the primary axis.
proof fn lemma_visible_has(
    rects: Seq<(WindowId, Area)>,
    axis: Axis,
    off: u16,
    vp: u16,
    n: int,
    k: int,
)
    requires
        0 <= k < n <= rects.len(),
        clip_window(rects[k].0, rects[k].1, axis, off, vp) is Some,
    ensures
        exists|j: int|
            0 <= j < visible_upto(rects, axis, off, vp, n).len() && (#[trigger] visible_upto(
                rects,
                axis,
                off,
                vp,
                n,
            )[j]).id == rects[k].0,
    decreases n,
{
    let before = visible_upto(rects, axis, off, vp, n - 1);
    let cur = visible_upto(rects, axis, off, vp, n);
    if k < n - 1 {
        lemma_visible_has(rects, axis, off, vp, n - 1, k);
        let j = choose|j: int| 0 <= j < before.len() && (#[trigger] before[j]).id == rects[k].0;
        match clip_window(rects[n - 1].0, rects[n - 1].1, axis, off, vp) {
            Some(w) => {
                assert(cur == before.push(w));
                assert(cur[j] == before[j]);
            },
            None => {
                assert(cur == before);
            },
        }
        assert(cur[j].id == rects[k].0);
    } else {
        let w = clip_window(rects[k].0, rects[k].1, axis, off, vp)->0;
        assert(cur == before.push(w));
        assert(cur[before.len() as int] == w);
        assert(cur[before.len() as int].id == rects[k].0);
    }
}

/// When the viewport follows the focus, a focused window of non-zero size
/// along the primary axis that lies within the strip shows in a viewport of
/// at least one cell.
pub proof fn lemma_focus_visible(
    v: StripView,
    rects: Seq<(WindowId, Area)>,
    vp: u16,
    extent: int,
    f: WindowId,
)
    requires
        v.scroll_mode == ScrollMode::FocusTracking,
        v.focus == Some(f),
        vp >= 1,
        extent <= u16::MAX,
        rect_index(rects, f, 0) < rects.len(),
        ({
            let (s, z) = primary_span(v.config.axis, rects[rect_index(rects, f, 0)].1);
            z > 0 && s + z <= extent
        }),
    ensures
        ({
            let off = scroll_offset_of(v, rects, vp, extent) as u16;
            exists|j: int|
                0 <= j < visible_upto(rects, v.config.axis, off, vp, rects.len() as int).len()
                    && (#[trigger] visible_upto(rects, v.config.axis, off, vp, rects.len() as int)[j]).id
                    == f
        }),
{
    let k = rect_index(rects, f, 0);
    lemma_rect_index(rects, f, 0);
    let off = scroll_offset_of(v, rects, vp, extent) as u16;
    let (s, z) = primary_span(v.config.axis, rects[k].1);
    assert(clip_window(rects[k].0, rects[k].1, v.config.axis, off, vp) is Some);
    lemma_visible_has(rects, v.config.axis, off, vp, rects.len() as int, k);
}

proof fn lemma_rect_index(rects: Seq<(WindowId, Area)>, id: WindowId, j: int)
    requires
        0 <= j,
    ensures
        j <= rect_index(rects, id, j) <= rects.len() || (j > rects.len() && rect_index(rects, id, j)
            == rects.len()),
        rect_index(rects, id, j) < rects.len() ==> rects[rect_index(rects, id, j)].0 == id,
    decreases rects.len() - j,
{
    if j < rects.len() && rects[j].0 != id {
        lemma_rect_index(rects, id, j + 1);
    }
}

/// Start of item `i` without clamping.
pub open spec fn raw_start(ws: Seq<u16>, gap: u16, i: int) -> int
    decreases i,
{
    if i <= 0 || i > ws.len() {
        0
    } else {
        raw_start(ws, gap, i - 1) + ws[i - 1] + gap
    }
}

/// The items and their gaps fit in the `u16` range, so no sum is clamped.
pub open spec fn fits(ws: Seq<u16>, gap: u16) -> bool {
    ws.len() == 0 || raw_start(ws, gap, ws.len() - 1) + ws[ws.len() - 1] <= u16::MAX
}

/// Two rectangles of non-zero size share a cell.
pub open spec fn overlap(a: Area, b: Area) -> bool {
    &&& a.width > 0 && a.height > 0 && b.width > 0 && b.height > 0
    &&& a.x < b.x + b.width && b.x < a.x + a.width
    &&& a.y < b.y + b.height && b.y < a.y + a.height
}

proof fn lemma_raw_mono(ws: Seq<u16>, gap: u16, i: int, j: int)
    requires
        0 <= i < j <= ws.len(),
    ensures
        raw_start(ws, gap, j) >= raw_start(ws, gap, i) + ws[i] + gap,
    decreases j - i,
{
    if j > i + 1 {
        lemma_raw_mono(ws, gap, i, j - 1);
    }
}

proof fn lemma_fits_exact(ws: Seq<u16>, gap: u16, i: int)
    requires
        fits(ws, gap),
        0 <= i < ws.len(),
    ensures
        item_start(ws, gap, i) == raw_start(ws, gap, i),
        raw_start(ws, gap, i) + ws[i] <= u16::MAX,
    decreases i,
{
    if i < ws.len() - 1 {
        lemma_raw_mono(ws, gap, i, ws.len() - 1);
    }
    if i > 0 {
        lemma_fits_exact(ws, gap, i - 1);
    }
}

/// Windows do not overlap: when the columns and, within each column, the
/// windows fit in the `u16` range with their gaps, the rectangles of two
/// different windows share no cell.
pub proof fn lemma_no_overlap(
    v: StripView,
    cws: Seq<u16>,
    hs: Seq<Seq<u16>>,
    c1: int,
    i1: int,
    c2: int,
    i2: int,
)
    requires
        sizes_match(v, cws, hs),
        fits(cws, v.config.column_gap),
        forall|c: int| 0 <= c < hs.len() ==> fits(#[trigger] hs[c], v.config.window_gap),
        0 <= c1 < v.columns.len(),
        0 <= c2 < v.columns.len(),
        0 <= i1 < v.columns[c1].windows.len(),
        0 <= i2 < v.columns[c2].windows.len(),
        c1 != c2 || i1 != i2,
    ensures
        !overlap(column_rects(v, cws, hs, c1)[i1].1, column_rects(v, cws, hs, c2)[i2].1),
{
    let g = v.config.column_gap;
    let wg = v.config.window_gap;
    assert(hs[c1].len() == v.columns[c1].windows.len());
    assert(hs[c2].len() == v.columns[c2].windows.len());
    lemma_fits_exact(cws, g, c1);
    lemma_fits_exact(cws, g, c2);
    assert(fits(hs[c1], wg));
    assert(fits(hs[c2], wg));
    lemma_fits_exact(hs[c1], wg, i1);
    lemma_fits_exact(hs[c2], wg, i2);
    let a = column_rects(v, cws, hs, c1)[i1].1;
    let b = column_rects(v, cws, hs, c2)[i2].1;
    assert(a == window_area(v.config.axis, item_start(cws, g, c1), cws[c1], item_start(hs[c1], wg, i1), hs[c1][i1]));
    assert(b == window_area(v.config.axis, item_start(cws, g, c2), cws[c2], item_start(hs[c2], wg, i2), hs[c2][i2]));
    lemma_item_start_bound(cws, g, c1);
    lemma_item_start_bound(cws, g, c2);
    lemma_item_start_bound(hs[c1], wg, i1);
    lemma_item_start_bound(hs[c2], wg, i2);
    match v.config.axis {
        Axis::Horizontal => {
            assert(a.x == item_start(cws, g, c1));
            assert(a.width == cws[c1]);
            assert(a.y == item_start(hs[c1], wg, i1));
        },
        Axis::Vertical => {
            assert(a.y == item_start(cws, g, c1));
            assert(a.x == item_start(hs[c1], wg, i1));
        },
    }
    if c1 < c2 {
        lemma_raw_mono(cws, g, c1, c2);
    } else if c2 < c1 {
        lemma_raw_mono(cws, g, c2, c1);
    } else if i1 < i2 {
        lemma_raw_mono(hs[c1], wg, i1, i2);
    } else {
        lemma_raw_mono(hs[c1], wg, i2, i1);
    }
}

/// Total number of windows in columns `0..n`.
pub open spec fn windows_upto(v: StripView, n: int) -> int
    decreases n,
{
    if n <= 0 { 0 } else { windows_upto(v, n - 1) + v.columns[n - 1].windows.len() }
}

/// The layout is total and keeps the ids: it has one rectangle per window,
/// window `i` of column `c` having the rectangle at index
/// `windows_upto(c) + i`, with its id.
pub proof fn lemma_rects_cover_windows(v: StripView, cws: Seq<u16>, hs: Seq<Seq<u16>>, n: int)
    requires
        0 <= n <= v.columns.len(),
    ensures
        rects_upto(v, cws, hs, n).len() == windows_upto(v, n),
        forall|c: int, i: int|
            0 <= c < n && 0 <= i < v.columns[c].windows.len() ==> #[trigger] rects_upto(
                v,
                cws,
                hs,
                n,
            )[windows_upto(v, c) + i] == column_rects(v, cws, hs, c)[i] && column_rects(
                v,
                cws,
                hs,
                c,
            )[i].0 == v.columns[c].windows[i].id,
    decreases n,
{
    if n > 0 {
        lemma_rects_cover_windows(v, cws, hs, n - 1);
        let prev = rects_upto(v, cws, hs, n - 1);
        let cr = column_rects(v, cws, hs, n - 1);
        assert forall|c: int, i: int|
            0 <= c < n && 0 <= i < v.columns[c].windows.len() implies #[trigger] rects_upto(
            v,
            cws,
            hs,
            n,
        )[windows_upto(v, c) + i] == column_rects(v, cws, hs, c)[i] && column_rects(
            v,
            cws,
            hs,
            c,
        )[i].0 == v.columns[c].windows[i].id by {
            assert(windows_upto(v, c + 1) == windows_upto(v, c) + v.columns[c].windows.len());
            lemma_windows_upto_nonneg(v, c);
            assert(rects_upto(v, cws, hs, n) == prev + cr);
            if c < n - 1 {
                lemma_windows_upto_mono(v, c + 1, n - 1);
                let k = windows_upto(v, c) + i;
                assert(0 <= k < prev.len());
                assert((prev + cr)[k] == prev[k]);
                assert(rects_upto(v, cws, hs, n)[k] == prev[k]);
            } else {
                let k = windows_upto(v, c) + i;
                assert(k == prev.len() + i);
                assert((prev + cr)[k] == cr[i]);
                assert(rects_upto(v, cws, hs, n)[windows_upto(v, c) + i] == cr[i]);
            }
        }
    }
}

proof fn lemma_windows_upto_nonneg(v: StripView, n: int)
    ensures
        0 <= windows_upto(v, n),
    decreases n,
{
    if n > 0 {
        lemma_windows_upto_nonneg(v, n - 1);
    }
}

proof fn lemma_windows_upto_mono(v: StripView, a: int, b: int)
    requires
        0 <= a <= b <= v.columns.len(),
    ensures
        windows_upto(v, a) <= windows_upto(v, b),
    decreases b - a,
{
    if a < b {
        lemma_windows_upto_mono(v, a, b - 1);
    }
}
} // verus!
