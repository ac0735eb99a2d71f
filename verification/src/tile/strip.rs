//! The strip: columns of stacked windows, the focus, the scroll mode and the
//! counter from which window ids are drawn.
use vstd::prelude::*;
use crate::tile::types::{SizeConstraint, StripConfig, UNIT_PROPORTION_BITS};

verus! {

/// Opaque identifier of a window in the strip; never reused after removal.
#[derive(Debug, Clone, Copy, PartialEq, Eq, Hash, Structural)]
pub struct WindowId(pub(crate) u64);

impl View for WindowId {
    type V = u64;

    /// The counter value the id was drawn from.
    closed spec fn view(&self) -> u64 {
        self.0
    }
}

/// A window in the strip with its size constraints.
#[derive(Debug, Clone, Copy)]
pub struct Window {
    pub(crate) id: WindowId,
    /// Size constraint along the primary axis (width in horizontal mode).
    pub width_constraint: SizeConstraint,
    /// Size constraint along the cross axis (height in horizontal mode).
    pub height_constraint: SizeConstraint,
}

/// What a window is: its id and its two constraints.
pub struct WindowView {
    pub id: WindowId,
    pub width_constraint: SizeConstraint,
    pub height_constraint: SizeConstraint,
}

impl View for Window {
    type V = WindowView;

    closed spec fn view(&self) -> WindowView {
        WindowView {
            id: self.id,
            width_constraint: self.width_constraint,
            height_constraint: self.height_constraint,
        }
    }
}

/// A column of stacked windows.
#[derive(Debug, Clone)]
pub struct Column {
    pub(crate) windows: Vec<Window>,
    /// Width constraint of the column along the primary axis.
    pub width_constraint: SizeConstraint,
}

/// What a column is: its windows, first to last, and its constraint.
pub struct ColumnView {
    pub windows: Seq<WindowView>,
    pub width_constraint: SizeConstraint,
}

pub open spec fn window_views(ws: Seq<Window>) -> Seq<WindowView> {
    ws.map_values(|w: Window| w@)
}

impl View for Column {
    type V = ColumnView;

    closed spec fn view(&self) -> ColumnView {
        ColumnView { windows: window_views(self.windows@), width_constraint: self.width_constraint }
    }
}

/// How the viewport scrolls.
#[derive(Debug, Clone, Copy, PartialEq, Eq, Structural)]
pub enum ScrollMode {
    /// The viewport follows the focused window.
    FocusTracking,
    /// The viewport stays at a manual offset.
    Manual(u16),
}

/// The scrollable strip of columns.
#[derive(Debug, Clone)]
pub struct Strip {
    pub(crate) columns: Vec<Column>,
    pub(crate) config: StripConfig,
    pub(crate) focus: Option<WindowId>,
    pub(crate) cross_affinity: Option<u16>,
    pub(crate) scroll_mode: ScrollMode,
    pub(crate) next_id: u64,
}

/// What a strip is.
pub struct StripView {
    pub columns: Seq<ColumnView>,
    pub config: StripConfig,
    pub focus: Option<WindowId>,
    pub cross_affinity: Option<u16>,
    pub scroll_mode: ScrollMode,
    /// The counter from which the next window id is drawn.
    pub next_id: u64,
}

pub open spec fn column_views(cs: Seq<Column>) -> Seq<ColumnView> {
    cs.map_values(|c: Column| c@)
}

impl View for Strip {
    type V = StripView;

    closed spec fn view(&self) -> StripView {
        StripView {
            columns: column_views(self.columns@),
            config: self.config,
            focus: self.focus,
            cross_affinity: self.cross_affinity,
            scroll_mode: self.scroll_mode,
            next_id: self.next_id,
        }
    }
}

/// Window `i` of column `c` exists.
pub open spec fn at(v: StripView, c: int, i: int) -> bool {
    0 <= c < v.columns.len() && 0 <= i < v.columns[c].windows.len()
}

/// The strip holds a window with this id.
pub open spec fn holds(v: StripView, id: WindowId) -> bool {
    exists|c: int, i: int| at(v, c, i) && #[trigger] v.columns[c].windows[i].id == id
}

/// `(c, i)` is the first place of `id`: no earlier column holds it and no
/// earlier window of column `c` has it.
pub open spec fn first_at(v: StripView, id: WindowId, c: int, i: int) -> bool {
    &&& at(v, c, i)
    &&& v.columns[c].windows[i].id == id
    &&& forall|j: int| 0 <= j < i ==> #[trigger] v.columns[c].windows[j].id != id
    &&& forall|d: int, j: int|
        0 <= d < c && 0 <= j < v.columns[d].windows.len() ==> #[trigger] v.columns[d].windows[j].id
            != id
}

/// The first place of a window the strip holds.
pub open spec fn place(v: StripView, id: WindowId) -> (int, int) {
    choose|p: (int, int)| first_at(v, id, p.0, p.1)
}

/// Every window id lies below the counter, and no two windows share an id.
pub open spec fn wf_view(v: StripView) -> bool {
    &&& forall|c: int, i: int| at(v, c, i) ==> (#[trigger] v.columns[c].windows[i].id)@ < v.next_id
    &&& forall|c1: int, i1: int, c2: int, i2: int|
        at(v, c1, i1) && at(v, c2, i2) && #[trigger] v.columns[c1].windows[i1].id
            == #[trigger] v.columns[c2].windows[i2].id ==> c1 == c2 && i1 == i2
}

/// Ids are equal exactly when the counter values they were drawn from are.
pub proof fn lemma_window_id_view(a: WindowId, b: WindowId)
    ensures
        (a == b) == (a@ == b@),
{
}

/// The first place of an id is unique, so `place` names it.
pub proof fn lemma_place(v: StripView, id: WindowId, c: int, i: int)
    requires
        first_at(v, id, c, i),
    ensures
        place(v, id) == (c, i),
{
    let w = (c, i);
    assert(first_at(v, id, w.0, w.1));
    let p = place(v, id);
    assert(first_at(v, id, p.0, p.1));
    if p.0 < c {
        assert(v.columns[p.0].windows[p.1].id == id);
    } else if c < p.0 {
        assert(v.columns[c].windows[i].id == id);
    } else if p.1 < i {
        assert(v.columns[c].windows[p.1].id == id);
    } else if i < p.1 {
        assert(v.columns[c].windows[i].id == id);
    }
}

/// A strip holds no window whose id is drawn at or above its counter: the
/// counter only grows, so an id it hands out was never held before.
pub proof fn lemma_fresh_id_not_held(v: StripView, id: WindowId)
    requires
        wf_view(v),
        id@ >= v.next_id,
    ensures
        !holds(v, id),
{
    if holds(v, id) {
        let (c, i) = choose|c: int, i: int| at(v, c, i) && #[trigger] v.columns[c].windows[i].id == id;
        assert(v.columns[c].windows[i].id@ < v.next_id);
    }
}

/// An empty column with the default constraint.
pub open spec fn empty_column() -> ColumnView {
    ColumnView {
        windows: Seq::empty(),
        width_constraint: SizeConstraint::Proportion(UNIT_PROPORTION_BITS),
    }
}

/// The columns, extended with empty columns until index `k` exists.
pub open spec fn padded(cols: Seq<ColumnView>, k: int) -> Seq<ColumnView> {
    if k < cols.len() {
        cols
    } else {
        cols + Seq::new((k + 1 - cols.len()) as nat, |j: int| empty_column())
    }
}

/// A column with a window inserted at stack position `pos`, or appended when
/// `pos` lies past its last window.
pub open spec fn with_window(col: ColumnView, pos: int, w: WindowView) -> ColumnView {
    let p = if pos < col.windows.len() { pos } else { col.windows.len() as int };
    ColumnView { windows: col.windows.insert(p, w), width_constraint: col.width_constraint }
}

/// The columns with window `w` placed in column `k` at stack position `pos`,
/// empty columns being added before it as needed.
pub open spec fn placed(cols: Seq<ColumnView>, k: int, pos: int, w: WindowView) -> Seq<ColumnView> {
    let p = padded(cols, k);
    p.update(k, with_window(p[k], pos, w))
}

/// The columns with window `i` of column `c` taken out; a column left empty
/// is dropped.
pub open spec fn without_window(cols: Seq<ColumnView>, c: int, i: int) -> Seq<ColumnView> {
    let col = ColumnView {
        windows: cols[c].windows.remove(i),
        width_constraint: cols[c].width_constraint,
    };
    if col.windows.len() == 0 {
        cols.remove(c)
    } else {
        cols.update(c, col)
    }
}

/// The window to focus when window `i` of column `c` goes: the next window
/// of the column, else the previous one, else the first window of the column
/// to the right, else that of the column to the left.
pub open spec fn fallback(v: StripView, c: int, i: int) -> Option<WindowId> {
    let ws = v.columns[c].windows;
    if i + 1 < ws.len() {
        Some(ws[i + 1].id)
    } else if i > 0 {
        Some(ws[i - 1].id)
    } else if c + 1 < v.columns.len() && v.columns[c + 1].windows.len() > 0 {
        Some(v.columns[c + 1].windows[0].id)
    } else if c > 0 && v.columns[c - 1].windows.len() > 0 {
        Some(v.columns[c - 1].windows[0].id)
    } else {
        None
    }
}

/// The strip after removing the window with id `id` (held at its first
/// place): the window goes, its column too when left empty; when it had the
/// focus, the focus passes to its fallback and the affinity is cleared.
pub open spec fn removed(v: StripView, id: WindowId) -> StripView {
    let (c, i) = place(v, id);
    let focused = v.focus == Some(id);
    StripView {
        columns: without_window(v.columns, c, i),
        focus: if focused { fallback(v, c, i) } else { v.focus },
        cross_affinity: if focused { None } else { v.cross_affinity },
        ..v
    }
}

/// The focus is unset or names a window the strip holds.
pub open spec fn focus_valid(v: StripView) -> bool {
    match v.focus {
        None => true,
        Some(f) => holds(v, f),
    }
}

/// In a strip with unique ids, the one place of a held id is its first.
pub proof fn lemma_unique_place(v: StripView, id: WindowId, c: int, i: int)
    requires
        wf_view(v),
        at(v, c, i),
        v.columns[c].windows[i].id == id,
    ensures
        place(v, id) == (c, i),
{
    assert forall|j: int| 0 <= j < i implies #[trigger] v.columns[c].windows[j].id != id by {
        if v.columns[c].windows[j].id == id {
            assert(at(v, c, j));
        }
    }
    assert forall|d: int, j: int| 0 <= d < c && 0 <= j < v.columns[d].windows.len() implies #[trigger] v.columns[d].windows[j].id != id by {
        if v.columns[d].windows[j].id == id {
            assert(at(v, d, j));
        }
    }
    lemma_place(v, id, c, i);
}

/// Removing the focused window of a column that keeps other windows moves
/// the focus within that column: to the window after it, or, when it was
/// the last, to the window before it; that window then sits in the same
/// column of the new strip, at the removed window's place or just before.
pub proof fn lemma_remove_focus_stays_in_column(v: StripView, id: WindowId, c: int, i: int)
    requires
        wf_view(v),
        at(v, c, i),
        v.columns[c].windows[i].id == id,
        v.focus == Some(id),
        v.columns[c].windows.len() >= 2,
    ensures
        ({
            let ws = v.columns[c].windows;
            let nv = removed(v, id);
            let j = if i + 1 < ws.len() { i } else { i - 1 };
            let f = if i + 1 < ws.len() { ws[i + 1].id } else { ws[i - 1].id };
            &&& nv.focus == Some(f)
            &&& f != id
            &&& at(nv, c, j)
            &&& nv.columns[c].windows[j].id == f
        }),
{
    lemma_unique_place(v, id, c, i);
    let ws = v.columns[c].windows;
    let nv = removed(v, id);
    let col = ColumnView { windows: ws.remove(i), width_constraint: v.columns[c].width_constraint };
    assert(nv.columns == v.columns.update(c, col));
    if i + 1 < ws.len() {
        assert(ws.remove(i)[i] == ws[i + 1]);
        assert(at(v, c, i + 1));
    } else {
        assert(ws.remove(i)[i - 1] == ws[i - 1]);
        assert(at(v, c, i - 1));
    }
}

/// Removing a window keeps the focus valid: a focus that named a window
/// still names one, the fallback when the removed window had it.
pub proof fn lemma_remove_keeps_focus_valid(v: StripView, id: WindowId)
    requires
        wf_view(v),
        holds(v, id),
        focus_valid(v),
    ensures
        focus_valid(removed(v, id)),
{
    let (c, i) = choose|c: int, i: int| at(v, c, i) && #[trigger] v.columns[c].windows[i].id == id;
    lemma_unique_place(v, id, c, i);
    let nv = removed(v, id);
    let ws = v.columns[c].windows;
    let dropped = ws.len() == 1;
    ws.remove_ensures(i);
    v.columns.remove_ensures(c);
    let ncols = nv.columns;
    assert(nv.columns == without_window(v.columns, c, i));
    if v.focus == Some(id) {
        match fallback(v, c, i) {
            None => {},
            Some(g) => {
                if i + 1 < ws.len() {
                    assert(ncols[c].windows[i] == ws[i + 1]);
                    assert(at(nv, c, i));
                } else if i > 0 {
                    assert(ncols[c].windows[i - 1] == ws[i - 1]);
                    assert(at(nv, c, i - 1));
                } else if c + 1 < v.columns.len() && v.columns[c + 1].windows.len() > 0 {
                    if dropped {
                        assert(ncols[c] == v.columns[c + 1]);
                        assert(ncols[c].windows[0] == v.columns[c + 1].windows[0]);
                        assert(at(nv, c, 0));
                    } else {
                        assert(ncols[c + 1] == v.columns[c + 1]);
                        assert(at(nv, c + 1, 0));
                    }
                } else {
                    assert(ncols[c - 1] == v.columns[c - 1]);
                    assert(at(nv, c - 1, 0));
                }
            },
        }
    } else {
        match v.focus {
            None => {},
            Some(f) => {
                let (d, j) = choose|d: int, j: int| at(v, d, j) && #[trigger] v.columns[d].windows[j].id == f;
                assert(!(d == c && j == i));
                if d == c {
                    if j < i {
                        assert(ncols[c].windows[j] == ws[j]);
                        assert(at(nv, c, j));
                    } else {
                        assert(ncols[c].windows[j - 1] == ws[j]);
                        assert(at(nv, c, j - 1));
                    }
                } else if dropped && d > c {
                    assert(ncols[d - 1] == v.columns[d]);
                    assert(at(nv, d - 1, j));
                } else {
                    assert(ncols[d] == v.columns[d]);
                    assert(at(nv, d, j));
                }
            },
        }
    }
}

/// Down then up returns the focus to where it was, from any window of a
/// column but its last.
pub proof fn lemma_down_up_roundtrip(v: StripView, c: int, i: int)
    requires
        wf_view(v),
        at(v, c, i),
        i + 1 < v.columns[c].windows.len(),
        v.focus == Some(v.columns[c].windows[i].id),
    ensures
        cross_step(cross_step(v, true), false).focus == v.focus,
{
    let ws = v.columns[c].windows;
    lemma_unique_place(v, ws[i].id, c, i);
    assert(holds(v, ws[i].id));
    let v1 = cross_step(v, true);
    assert(v1.focus == Some(ws[i + 1].id));
    assert(wf_view(v1));
    assert(v1.columns[c].windows[i + 1].id == ws[i + 1].id);
    lemma_unique_place(v1, ws[i + 1].id, c, i + 1);
    assert(at(v1, c, i + 1));
    assert(holds(v1, ws[i + 1].id));
}

/// Placing a window whose id the strip does not hold keeps the ids unique
/// and below the counter, and the strip then holds it.
proof fn lemma_placed_wf(v: StripView, k: int, pos: int, w: WindowView, nv: StripView)
    requires
        wf_view(v),
        0 <= k,
        0 <= pos,
        !holds(v, w.id),
        nv.next_id >= v.next_id,
        w.id@ < nv.next_id,
        nv.columns == placed(v.columns, k, pos, w),
    ensures
        wf_view(nv),
        holds(nv, w.id),
{
    let pc = padded(v.columns, k);
    assert(pc.len() > k);
    assert forall|c: int, i: int| 0 <= c < pc.len() && c != k && 0 <= i < pc[c].windows.len()
        implies at(v, c, i) && pc[c].windows[i] == v.columns[c].windows[i] by {
        if c >= v.columns.len() {
            assert(pc[c] == empty_column());
        }
    }
    let base = pc[k];
    let p = if pos < base.windows.len() { pos } else { base.windows.len() as int };
    assert(k >= v.columns.len() ==> base.windows.len() == 0);
    base.windows.insert_ensures(p, w);
    // Where each window of the new strip comes from.
    assert forall|c: int, i: int| at(nv, c, i) && !(c == k && i == p) implies {
        let oi = if c == k && i > p { i - 1 } else { i };
        at(v, c, oi) && nv.columns[c].windows[i] == v.columns[c].windows[oi]
    } by {
        if c == k {
            if i > p {
                assert(base.windows.insert(p, w)[(i - 1) + 1] == base.windows[i - 1]);
                assert(nv.columns[c].windows[i] == base.windows[i - 1]);
            } else {
                assert(nv.columns[c].windows[i] == base.windows[i]);
            }
        }
    }
    assert(nv.columns[k].windows[p] == w);
    assert(at(nv, k, p));
    assert forall|c: int, i: int| at(nv, c, i) implies (#[trigger] nv.columns[c].windows[i].id)@
        < nv.next_id by {
        if !(c == k && i == p) {
            let oi = if c == k && i > p { i - 1 } else { i };
            assert(v.columns[c].windows[oi].id@ < v.next_id);
        }
    }
    assert forall|c1: int, i1: int, c2: int, i2: int|
        at(nv, c1, i1) && at(nv, c2, i2) && #[trigger] nv.columns[c1].windows[i1].id
            == #[trigger] nv.columns[c2].windows[i2].id implies c1 == c2 && i1 == i2 by {
        let n1 = c1 == k && i1 == p;
        let n2 = c2 == k && i2 == p;
        let o1 = if c1 == k && i1 > p { i1 - 1 } else { i1 };
        let o2 = if c2 == k && i2 > p { i2 - 1 } else { i2 };
        if n1 && !n2 {
            assert(v.columns[c2].windows[o2].id == w.id);
        } else if !n1 && n2 {
            assert(v.columns[c1].windows[o1].id == w.id);
        } else if !n1 && !n2 {
            assert(v.columns[c1].windows[o1].id == v.columns[c2].windows[o2].id);
        }
    }
}

/// Taking a window out keeps the ids unique and below the counter, and the
/// strip no longer holds its id.
proof fn lemma_without_wf(v: StripView, c: int, i: int, nv: StripView)
    requires
        wf_view(v),
        at(v, c, i),
        nv.next_id == v.next_id,
        nv.columns == without_window(v.columns, c, i),
    ensures
        wf_view(nv),
        !holds(nv, v.columns[c].windows[i].id),
{
    let id = v.columns[c].windows[i].id;
    let dropped = v.columns[c].windows.len() == 1;
    v.columns[c].windows.remove_ensures(i);
    v.columns.remove_ensures(c);
    // Where each window of the new strip comes from.
    assert forall|d: int, j: int| at(nv, d, j) implies {
        let od = if dropped && d >= c { d + 1 } else { d };
        let oj = if !dropped && d == c && j >= i { j + 1 } else { j };
        at(v, od, oj) && !(od == c && oj == i) && nv.columns[d].windows[j]
            == v.columns[od].windows[oj]
    } by {
        if !dropped && d == c {
            assert(nv.columns[d].windows == v.columns[c].windows.remove(i));
        }
    }
    assert forall|d: int, j: int| at(nv, d, j) implies (#[trigger] nv.columns[d].windows[j].id)@
        < nv.next_id by {
        let od = if dropped && d >= c { d + 1 } else { d };
        let oj = if !dropped && d == c && j >= i { j + 1 } else { j };
        assert(v.columns[od].windows[oj].id@ < v.next_id);
    }
    assert forall|c1: int, i1: int, c2: int, i2: int|
        at(nv, c1, i1) && at(nv, c2, i2) && #[trigger] nv.columns[c1].windows[i1].id
            == #[trigger] nv.columns[c2].windows[i2].id implies c1 == c2 && i1 == i2 by {
        let od1 = if dropped && c1 >= c { c1 + 1 } else { c1 };
        let oj1 = if !dropped && c1 == c && i1 >= i { i1 + 1 } else { i1 };
        let od2 = if dropped && c2 >= c { c2 + 1 } else { c2 };
        let oj2 = if !dropped && c2 == c && i2 >= i { i2 + 1 } else { i2 };
        assert(v.columns[od1].windows[oj1].id == v.columns[od2].windows[oj2].id);
    }
    if holds(nv, id) {
        let (d, j) = choose|d: int, j: int| at(nv, d, j) && #[trigger] nv.columns[d].windows[j].id
            == id;
        let od = if dropped && d >= c { d + 1 } else { d };
        let oj = if !dropped && d == c && j >= i { j + 1 } else { j };
        assert(v.columns[od].windows[oj].id == id);
    }
}

/// Inserting a column whose windows carry ids the strip does not hold, all
/// below the new counter and distinct among themselves, keeps the strip well
/// formed.
proof fn lemma_insert_column_wf(v: StripView, idx: int, col: ColumnView, nv: StripView)
    requires
        wf_view(v),
        0 <= idx <= v.columns.len(),
        nv.next_id >= v.next_id,
        nv.columns == v.columns.insert(idx, col),
        col.windows.len() <= 1,
        forall|j: int| 0 <= j < col.windows.len() ==> !holds(v, #[trigger] col.windows[j].id),
        forall|j: int| 0 <= j < col.windows.len() ==> (#[trigger] col.windows[j].id)@ < nv.next_id,
    ensures
        wf_view(nv),
{
    v.columns.insert_ensures(idx, col);
    assert forall|d: int, j: int| at(nv, d, j) && d != idx implies {
        let od = if d > idx { d - 1 } else { d };
        at(v, od, j) && nv.columns[d].windows[j] == v.columns[od].windows[j]
    } by {
        if d > idx {
            assert(v.columns.insert(idx, col)[(d - 1) + 1] == v.columns[d - 1]);
        }
    }
    assert forall|d: int, j: int| at(nv, d, j) implies (#[trigger] nv.columns[d].windows[j].id)@
        < nv.next_id by {
        if d != idx {
            let od = if d > idx { d - 1 } else { d };
            assert(v.columns[od].windows[j].id@ < v.next_id);
        }
    }
    assert forall|c1: int, i1: int, c2: int, i2: int|
        at(nv, c1, i1) && at(nv, c2, i2) && #[trigger] nv.columns[c1].windows[i1].id
            == #[trigger] nv.columns[c2].windows[i2].id implies c1 == c2 && i1 == i2 by {
        let o1 = if c1 > idx { c1 - 1 } else { c1 };
        let o2 = if c2 > idx { c2 - 1 } else { c2 };
        if c1 == idx && c2 != idx {
            assert(v.columns[o2].windows[i2].id == col.windows[i1].id);
            assert(at(v, o2, i2));
        } else if c1 != idx && c2 == idx {
            assert(v.columns[o1].windows[i1].id == col.windows[i2].id);
            assert(at(v, o1, i1));
        } else if c1 != idx && c2 != idx {
            assert(v.columns[o1].windows[i1].id == v.columns[o2].windows[i2].id);
        }
    }
}

/// Ids are never reused: every operation leaves the counter where it was or
/// raises it, and a new window takes the counter's value, so an id issued
/// while the counter stood lower differs from every id issued later.
pub proof fn lemma_ids_never_reused(earlier: StripView, issued: WindowId, later: StripView, fresh: WindowId)
    requires
        issued@ < earlier.next_id,
        earlier.next_id <= later.next_id,
        fresh@ == later.next_id,
    ensures
        issued != fresh,
{
    lemma_window_id_view(issued, fresh);
}

impl Window {
    /// The window's id.
    pub fn id(&self) -> (r: WindowId)
        ensures
            r == self@.id,
    {
        self.id
    }
}

impl Column {
    /// A new column without windows.
    pub fn new(width_constraint: SizeConstraint) -> (c: Self)
        ensures
            c@.windows == Seq::<WindowView>::empty(),
            c@.width_constraint == width_constraint,
    {
        let c = Column { windows: Vec::new(), width_constraint };
        assert(c@.windows =~= Seq::<WindowView>::empty());
        c
    }

    /// Number of windows in the column.
    pub fn window_count(&self) -> (n: usize)
        ensures
            n == self@.windows.len(),
    {
        self.windows.len()
    }

    /// The windows of the column, first to last.
    pub fn windows(&self) -> (ws: &[Window])
        ensures
            window_views(ws@) == self@.windows,
    {
        self.windows.as_slice()
    }

    /// Index of the first window with the given id.
    pub fn find_window(&self, id: WindowId) -> (r: Option<usize>)
        ensures
            match r {
                Some(i) => i < self@.windows.len() && self@.windows[i as int].id == id && forall|
                    j: int,
                | 0 <= j < i ==> #[trigger] self@.windows[j].id != id,
                None => forall|j: int|
                    0 <= j < self@.windows.len() ==> #[trigger] self@.windows[j].id != id,
            },
    {
        let mut i: usize = 0;
        while i < self.windows.len()
            invariant
                i <= self.windows@.len(),
                forall|j: int| 0 <= j < i ==> #[trigger] self@.windows[j].id != id,
            decreases self.windows@.len() - i,
        {
            if self.windows[i].id == id {
                return Some(i);
            }
            i += 1;
        }
        None
    }
}


impl Strip {
    /// Window ids are unique and below the counter.
    pub open spec fn wf(&self) -> bool {
        wf_view(self@)
    }

    /// A new strip without columns, focus or affinity, following the focus.
    pub fn new(config: StripConfig) -> (s: Self)
        ensures
            s.wf(),
            s@.columns == Seq::<ColumnView>::empty(),
            s@.config == config,
            s@.focus is None,
            s@.cross_affinity is None,
            s@.scroll_mode == ScrollMode::FocusTracking,
            s@.next_id == 1,
    {
        let s = Strip {
            columns: Vec::new(),
            config,
            focus: None,
            cross_affinity: None,
            scroll_mode: ScrollMode::FocusTracking,
            next_id: 1,
        };
        assert(s@.columns =~= Seq::<ColumnView>::empty());
        s
    }

    /// The strip configuration.
    pub fn config(&self) -> (c: &StripConfig)
        ensures
            *c == self@.config,
    {
        &self.config
    }

    /// Replaces the strip configuration.
    pub fn set_config(&mut self, config: StripConfig)
        ensures
            final(self)@ == (StripView { config, ..old(self)@ }),
    {
        self.config = config;
    }

    /// Number of columns.
    pub fn column_count(&self) -> (n: usize)
        ensures
            n == self@.columns.len(),
    {
        self.columns.len()
    }

    /// The columns, in order.
    pub fn columns(&self) -> (cs: &[Column])
        ensures
            column_views(cs@) == self@.columns,
    {
        self.columns.as_slice()
    }

    /// How the viewport scrolls.
    pub fn scroll_mode(&self) -> (m: ScrollMode)
        ensures
            m == self@.scroll_mode,
    {
        self.scroll_mode
    }

    /// Column and stack position of the first window with the given id.
    pub fn find_window(&self, id: WindowId) -> (r: Option<(usize, usize)>)
        ensures
            match r {
                Some((c, i)) => first_at(self@, id, c as int, i as int),
                None => !holds(self@, id),
            },
    {
        let mut c: usize = 0;
        while c < self.columns.len()
            invariant
                c <= self.columns@.len(),
                forall|d: int, j: int|
                    0 <= d < c && 0 <= j < self@.columns[d].windows.len()
                        ==> #[trigger] self@.columns[d].windows[j].id != id,
            decreases self.columns@.len() - c,
        {
            match self.columns[c].find_window(id) {
                Some(i) => {
                    return Some((c, i));
                },
                None => {},
            }
            c += 1;
        }
        None
    }

    /// Window `w` placed in column `k` at stack position `pos`, empty
    /// columns being added before it as needed.
    fn place_window(&mut self, k: usize, pos: usize, w: Window)
        requires
            k < usize::MAX,
        ensures
            final(self)@ == (StripView {
                columns: placed(old(self)@.columns, k as int, pos as int, w@),
                ..old(self)@
            }),
    {
        let ghost old_cols = self@.columns;
        let ghost n0 = self.columns@.len();
        while self.columns.len() <= k
            invariant
                k < usize::MAX,
                n0 <= self.columns@.len(),
                n0 == old_cols.len(),
                self.columns@.len() <= k + 1 || self.columns@.len() == n0,
                forall|j: int| 0 <= j < n0 ==> #[trigger] self@.columns[j] == old_cols[j],
                forall|j: int| n0 <= j < self.columns@.len() ==> #[trigger] self@.columns[j]
                    == empty_column(),
                self@.columns.len() == self.columns@.len(),
                self@.config == old(self)@.config,
                self@.focus == old(self)@.focus,
                self@.cross_affinity == old(self)@.cross_affinity,
                self@.scroll_mode == old(self)@.scroll_mode,
                self@.next_id == old(self)@.next_id,
            decreases k + 1 - self.columns@.len(),
        {
            let ghost prev = self@.columns;
            let fresh = Column::new(SizeConstraint::Proportion(UNIT_PROPORTION_BITS));
            assert(fresh@ == empty_column());
            self.columns.push(fresh);
            assert(self@.columns =~= prev.push(empty_column()));
        }
        let ghost pc = self@.columns;
        assert(pc =~= padded(old_cols, k as int));
        let mut col = self.columns.remove(k);
        let ghost base = col@;
        assert(base == pc[k as int]);
        let p = if pos < col.windows.len() {
            pos
        } else {
            col.windows.len()
        };
        let ghost ws = col.windows@;
        col.windows.insert(p, w);
        assert(window_views(col.windows@) =~= window_views(ws).insert(p as int, w@));
        assert(col@ == with_window(base, pos as int, w@));
        let ghost removed = self.columns@;
        self.columns.insert(k, col);
        assert(self.columns@ =~= removed.insert(k as int, col));
        assert(self@.columns =~= pc.update(k as int, col@));
    }

    /// Inserts a window into column `column_idx` at stack position
    /// `stack_pos`, creating empty columns before it when the strip has too
    /// few, and appending when the position lies past the column's end.
    /// Returns the new window's id, drawn from the counter.
    pub fn insert_window(
        &mut self,
        column_idx: usize,
        stack_pos: usize,
        width_constraint: SizeConstraint,
        height_constraint: SizeConstraint,
    ) -> (id: WindowId)
        requires
            old(self).wf(),
            old(self)@.next_id < u64::MAX,
            column_idx < usize::MAX,
        ensures
            final(self).wf(),
            id@ == old(self)@.next_id,
            !holds(old(self)@, id),
            final(self)@ == (StripView {
                columns: placed(
                    old(self)@.columns,
                    column_idx as int,
                    stack_pos as int,
                    WindowView { id, width_constraint, height_constraint },
                ),
                next_id: (old(self)@.next_id + 1) as u64,
                ..old(self)@
            }),
    {
        let id = WindowId(self.next_id);
        proof {
            lemma_fresh_id_not_held(self@, id);
        }
        self.next_id = self.next_id + 1;
        let w = Window { id, width_constraint, height_constraint };
        let ghost mid = self@;
        self.place_window(column_idx, stack_pos, w);
        proof {
            lemma_placed_wf(old(self)@, column_idx as int, stack_pos as int, w@, self@);
        }
        id
    }

    /// The window to focus in place of window `i` of column `c`.
    fn focus_fallback(&self, c: usize, i: usize) -> (r: Option<WindowId>)
        requires
            at(self@, c as int, i as int),
        ensures
            r == fallback(self@, c as int, i as int),
    {
        let col = &self.columns[c];
        assert(col@ == self@.columns[c as int]);
        assert(self@.columns.len() == self.columns@.len());
        assert(col@.windows.len() == col.windows@.len());
        let n = col.windows.len();
        let m = self.columns.len();
        if i + 1 < n {
            return Some(col.windows[i + 1].id);
        }
        if i > 0 {
            return Some(col.windows[i - 1].id);
        }
        if c + 1 < m && self.columns[c + 1].windows.len() > 0 {
            return Some(self.columns[c + 1].windows[0].id);
        }
        if c > 0 && self.columns[c - 1].windows.len() > 0 {
            return Some(self.columns[c - 1].windows[0].id);
        }
        None
    }

    /// Removes the window with the given id, dropping its column when it is
    /// left empty. When the window had the focus, the focus passes to its
    /// fallback and the affinity is cleared. Returns whether it was there.
    pub fn remove_window(&mut self, id: WindowId) -> (r: bool)
        requires
            old(self).wf(),
        ensures
            final(self).wf(),
            r == holds(old(self)@, id),
            !holds(final(self)@, id),
            !r ==> final(self)@ == old(self)@,
            r ==> final(self)@ == removed(old(self)@, id),
    {
        let (c, i) = match self.find_window(id) {
            Some(found) => found,
            None => {
                return false;
            },
        };
        proof {
            lemma_place(self@, id, c as int, i as int);
        }
        let focused = match self.focus {
            Some(f) => f == id,
            None => false,
        };
        if focused {
            self.focus = self.focus_fallback(c, i);
            self.cross_affinity = None;
        }
        let ghost mid = self@;
        let ghost vcols = self.columns@;
        let mut col = self.columns.remove(c);
        let ghost ws = col.windows@;
        assert(col@ == mid.columns[c as int]);
        col.windows.remove(i);
        assert(window_views(col.windows@) =~= window_views(ws).remove(i as int));
        if col.windows.len() > 0 {
            let ghost removed = self.columns@;
            self.columns.insert(c, col);
            assert(self.columns@ =~= removed.insert(c as int, col));
            assert(self@.columns =~= mid.columns.update(c as int, col@));
        } else {
            assert(self@.columns =~= mid.columns.remove(c as int));
        }
        proof {
            assert(self@.columns =~= without_window(old(self)@.columns, c as int, i as int));
            lemma_without_wf(old(self)@, c as int, i as int, self@);
        }
        true
    }

    /// Moves the window with the given id to column `target_column` at stack
    /// position `target_stack_pos`: it is taken out (its column dropped when
    /// left empty, which shifts a later target column one to the left) and
    /// placed again as `insert_window` places. Returns whether it was there.
    pub fn move_window(&mut self, id: WindowId, target_column: usize, target_stack_pos: usize) -> (r:
        bool)
        requires
            old(self).wf(),
            target_column < usize::MAX,
        ensures
            final(self).wf(),
            r == holds(old(self)@, id),
            !r ==> final(self)@ == old(self)@,
            r ==> holds(final(self)@, id),
            r ==> {
                let (c, i) = place(old(self)@, id);
                let mid = without_window(old(self)@.columns, c, i);
                let t = if mid.len() < old(self)@.columns.len() && c < target_column {
                    target_column - 1
                } else {
                    target_column as int
                };
                final(self)@ == (StripView {
                    columns: placed(
                        mid,
                        t,
                        target_stack_pos as int,
                        old(self)@.columns[c].windows[i],
                    ),
                    ..old(self)@
                })
            },
    {
        let (c, i) = match self.find_window(id) {
            Some(found) => found,
            None => {
                return false;
            },
        };
        proof {
            lemma_place(self@, id, c as int, i as int);
        }
        let ghost v0 = self@;
        let mut col = self.columns.remove(c);
        let ghost ws = col.windows@;
        assert(col@ == v0.columns[c as int]);
        let window = col.windows.remove(i);
        assert(window@ == v0.columns[c as int].windows[i as int]);
        assert(window_views(col.windows@) =~= window_views(ws).remove(i as int));
        let target = if col.windows.len() == 0 {
            assert(self@.columns =~= v0.columns.remove(c as int));
            if c < target_column {
                target_column - 1
            } else {
                target_column
            }
        } else {
            let ghost removed = self.columns@;
            self.columns.insert(c, col);
            assert(self.columns@ =~= removed.insert(c as int, col));
            assert(self@.columns =~= v0.columns.update(c as int, col@));
            target_column
        };
        proof {
            assert(self@.columns =~= without_window(v0.columns, c as int, i as int));
            lemma_without_wf(v0, c as int, i as int, self@);
        }
        let ghost v1 = self@;
        self.place_window(target, target_stack_pos, window);
        proof {
            lemma_placed_wf(v1, target as int, target_stack_pos as int, window@, self@);
        }
        true
    }

    /// Replaces the constraints of the window with the given id; returns
    /// whether it was there.
    pub fn resize_window(
        &mut self,
        id: WindowId,
        width_constraint: SizeConstraint,
        height_constraint: SizeConstraint,
    ) -> (r: bool)
        requires
            old(self).wf(),
        ensures
            final(self).wf(),
            r == holds(old(self)@, id),
            !r ==> final(self)@ == old(self)@,
            r ==> {
                let (c, i) = place(old(self)@, id);
                let col = old(self)@.columns[c];
                final(self)@ == (StripView {
                    columns: old(self)@.columns.update(
                        c,
                        ColumnView {
                            windows: col.windows.update(
                                i,
                                WindowView { id, width_constraint, height_constraint },
                            ),
                            ..col
                        },
                    ),
                    ..old(self)@
                })
            },
    {
        let (c, i) = match self.find_window(id) {
            Some(found) => found,
            None => {
                return false;
            },
        };
        proof {
            lemma_place(self@, id, c as int, i as int);
        }
        let ghost v0 = self@;
        let mut col = self.columns.remove(c);
        let ghost ws = col.windows@;
        assert(col@ == v0.columns[c as int]);
        col.windows.remove(i);
        col.windows.insert(i, Window { id, width_constraint, height_constraint });
        assert(col.windows@ =~= ws.update(i as int, Window { id, width_constraint, height_constraint }));
        assert(window_views(col.windows@) =~= window_views(ws).update(
            i as int,
            WindowView { id, width_constraint, height_constraint },
        ));
        let ghost removed = self.columns@;
        self.columns.insert(c, col);
        assert(self.columns@ =~= removed.insert(c as int, col));
        assert(self@.columns =~= v0.columns.update(c as int, col@));
        proof {
            let nv = self@;
            assert forall|d: int, j: int| at(nv, d, j) implies at(v0, d, j)
                && nv.columns[d].windows[j].id == v0.columns[d].windows[j].id by {}
            assert forall|d: int, j: int| at(nv, d, j) implies (#[trigger] nv.columns[d].windows[
                j
            ].id)@ < nv.next_id by {
                assert(v0.columns[d].windows[j].id@ < v0.next_id);
            }
            assert forall|c1: int, i1: int, c2: int, i2: int|
                at(nv, c1, i1) && at(nv, c2, i2) && #[trigger] nv.columns[c1].windows[i1].id
                    == #[trigger] nv.columns[c2].windows[i2].id implies c1 == c2 && i1 == i2 by {
                assert(v0.columns[c1].windows[i1].id == v0.columns[c2].windows[i2].id);
            }
        }
        true
    }

    /// Replaces the width constraint of column `column_idx`; returns whether
    /// the column exists.
    pub fn resize_column(&mut self, column_idx: usize, constraint: SizeConstraint) -> (r: bool)
        requires
            old(self).wf(),
        ensures
            final(self).wf(),
            r == (column_idx < old(self)@.columns.len()),
            !r ==> final(self)@ == old(self)@,
            r ==> final(self)@ == (StripView {
                columns: old(self)@.columns.update(
                    column_idx as int,
                    ColumnView {
                        width_constraint: constraint,
                        ..old(self)@.columns[column_idx as int]
                    },
                ),
                ..old(self)@
            }),
    {
        if column_idx >= self.columns.len() {
            return false;
        }
        let ghost v0 = self@;
        let mut col = self.columns.remove(column_idx);
        assert(col@ == v0.columns[column_idx as int]);
        col.width_constraint = constraint;
        let ghost removed = self.columns@;
        self.columns.insert(column_idx, col);
        assert(self.columns@ =~= removed.insert(column_idx as int, col));
        assert(self@.columns =~= v0.columns.update(
            column_idx as int,
            ColumnView { width_constraint: constraint, ..v0.columns[column_idx as int] },
        ));
        proof {
            let nv = self@;
            assert forall|d: int, j: int| at(nv, d, j) implies (#[trigger] nv.columns[d].windows[
                j
            ].id)@ < nv.next_id by {
                assert(v0.columns[d].windows[j].id@ < v0.next_id);
            }
            assert forall|c1: int, i1: int, c2: int, i2: int|
                at(nv, c1, i1) && at(nv, c2, i2) && #[trigger] nv.columns[c1].windows[i1].id
                    == #[trigger] nv.columns[c2].windows[i2].id implies c1 == c2 && i1 == i2 by {
                assert(v0.columns[c1].windows[i1].id == v0.columns[c2].windows[i2].id);
            }
        }
        true
    }

    /// Inserts a new column at `column_idx` (at the end when past it),
    /// shifting later columns right; with `initial_window`, the column holds
    /// one new window with those constraints, whose id is returned.
    pub fn insert_column(
        &mut self,
        column_idx: usize,
        width_constraint: SizeConstraint,
        initial_window: Option<(SizeConstraint, SizeConstraint)>,
    ) -> (r: Option<WindowId>)
        requires
            old(self).wf(),
            initial_window is Some ==> old(self)@.next_id < u64::MAX,
        ensures
            final(self).wf(),
            ({
                let idx = if column_idx < old(self)@.columns.len() {
                    column_idx as int
                } else {
                    old(self)@.columns.len() as int
                };
                match initial_window {
                    None => r is None && final(self)@ == (StripView {
                        columns: old(self)@.columns.insert(
                            idx,
                            ColumnView { windows: Seq::empty(), width_constraint },
                        ),
                        ..old(self)@
                    }),
                    Some((wc, hc)) => r is Some && r->0@ == old(self)@.next_id && !holds(
                        old(self)@,
                        r->0,
                    ) && final(self)@ == (StripView {
                        columns: old(self)@.columns.insert(
                            idx,
                            ColumnView {
                                windows: seq![
                                    WindowView {
                                        id: r->0,
                                        width_constraint: wc,
                                        height_constraint: hc,
                                    },
                                ],
                                width_constraint,
                            },
                        ),
                        next_id: (old(self)@.next_id + 1) as u64,
                        ..old(self)@
                    }),
                }
            }),
    {
        let ghost v0 = self@;
        let n = self.columns.len();
        let idx = if column_idx < n {
            column_idx
        } else {
            n
        };
        let mut col = Column::new(width_constraint);
        let win_id = match initial_window {
            Some((wc, hc)) => {
                let id = WindowId(self.next_id);
                proof {
                    lemma_fresh_id_not_held(v0, id);
                }
                self.next_id = self.next_id + 1;
                col.windows.push(Window { id, width_constraint: wc, height_constraint: hc });
                assert(col@.windows =~= seq![
                    WindowView { id, width_constraint: wc, height_constraint: hc },
                ]);
                Some(id)
            },
            None => {
                assert(col@.windows =~= Seq::<WindowView>::empty());
                None
            },
        };
        let ghost before = self.columns@;
        self.columns.insert(idx, col);
        assert(self.columns@ =~= before.insert(idx as int, col));
        assert(self@.columns =~= v0.columns.insert(idx as int, col@));
        proof {
            lemma_insert_column_wf(v0, idx as int, col@, self@);
        }
        win_id
    }

    /// Gives the focus to the window with the given id, clearing the
    /// affinity and following the focus again; nothing when it is not there.
    pub fn focus_set(&mut self, id: WindowId)
        ensures
            holds(old(self)@, id) ==> final(self)@ == (StripView {
                focus: Some(id),
                cross_affinity: None,
                scroll_mode: ScrollMode::FocusTracking,
                ..old(self)@
            }),
            !holds(old(self)@, id) ==> final(self)@ == old(self)@,
    {
        if self.find_window(id).is_some() {
            self.focus = Some(id);
            self.cross_affinity = None;
            self.scroll_mode = ScrollMode::FocusTracking;
        }
    }

    /// Clears the focus and the affinity.
    pub fn focus_clear(&mut self)
        ensures
            final(self)@ == (StripView { focus: None, cross_affinity: None, ..old(self)@ }),
    {
        self.focus = None;
        self.cross_affinity = None;
    }

    /// The focused window.
    pub fn focused(&self) -> (r: Option<WindowId>)
        ensures
            r == self@.focus,
    {
        self.focus
    }

    /// Locks the viewport at a manual offset, which stops it following the focus.
    pub fn set_scroll_offset(&mut self, offset: u16)
        ensures
            final(self)@ == (StripView { scroll_mode: ScrollMode::Manual(offset), ..old(self)@ }),
    {
        self.scroll_mode = ScrollMode::Manual(offset);
    }

    /// Lets the viewport follow the focus again.
    pub fn enable_focus_tracking(&mut self)
        ensures
            final(self)@ == (StripView { scroll_mode: ScrollMode::FocusTracking, ..old(self)@ }),
    {
        self.scroll_mode = ScrollMode::FocusTracking;
    }
}

/// The strip after moving the focus one window along its column: to the next
/// window when `forward`, else to the previous one, clearing the affinity;
/// unchanged without a focus, for a focus the strip does not hold, or at the
/// column's end.
pub open spec fn cross_step(v: StripView, forward: bool) -> StripView {
    match v.focus {
        None => v,
        Some(f) => if !holds(v, f) {
            v
        } else {
            let (c, i) = place(v, f);
            let ws = v.columns[c].windows;
            if forward && i + 1 < ws.len() {
                StripView { focus: Some(ws[i + 1].id), cross_affinity: None, ..v }
            } else if !forward && i > 0 {
                StripView { focus: Some(ws[i - 1].id), cross_affinity: None, ..v }
            } else {
                v
            }
        },
    }
}

/// The first window of the first column that has one.
pub open spec fn first_window(cols: Seq<ColumnView>) -> Option<WindowId>
    decreases cols.len(),
{
    if cols.len() == 0 {
        None
    } else if cols[0].windows.len() > 0 {
        Some(cols[0].windows[0].id)
    } else {
        first_window(cols.drop_first())
    }
}

/// The last window of the last column that has one.
pub open spec fn last_window(cols: Seq<ColumnView>) -> Option<WindowId>
    decreases cols.len(),
{
    if cols.len() == 0 {
        None
    } else if cols.last().windows.len() > 0 {
        Some(cols.last().windows.last().id)
    } else {
        last_window(cols.drop_last())
    }
}

/// Moves the focus to the adjacent window of its column: down (horizontal
/// strip) or right (vertical strip) when `forward`. Clears the affinity.
pub fn focus_cross(strip: &mut Strip, forward: bool)
    ensures
        final(strip)@ == cross_step(old(strip)@, forward),
{
    let focus_id = match strip.focus {
        Some(f) => f,
        None => {
            return;
        },
    };
    let (c, i) = match strip.find_window(focus_id) {
        Some(found) => found,
        None => {
            return;
        },
    };
    proof {
        lemma_place(strip@, focus_id, c as int, i as int);
    }
    let col = &strip.columns[c];
    assert(col@ == strip@.columns[c as int]);
    let n = col.windows.len();
    let target = if forward {
        if i + 1 >= n {
            return;
        }
        i + 1
    } else {
        if i == 0 {
            return;
        }
        i - 1
    };
    let id = col.windows[target].id;
    strip.focus = Some(id);
    strip.cross_affinity = None;
}

/// Focuses the first window of the first column that has one (no focus on
/// a strip without windows), clearing the affinity.
pub fn focus_first(strip: &mut Strip)
    ensures
        final(strip)@ == (StripView {
            focus: first_window(old(strip)@.columns),
            cross_affinity: None,
            ..old(strip)@
        }),
{
    strip.cross_affinity = None;
    let ghost cols = strip@.columns;
    let mut c: usize = 0;
    assert(cols.skip(0) =~= cols);
    while c < strip.columns.len()
        invariant
            c <= strip.columns@.len(),
            cols == strip@.columns,
            cols.len() == strip.columns@.len(),
            strip@ == (StripView { cross_affinity: None, ..old(strip)@ }),
            first_window(cols) == first_window(cols.skip(c as int)),
        decreases strip.columns@.len() - c,
    {
        assert(cols.skip(c as int)[0] == strip.columns@[c as int]@);
        if strip.columns[c].windows.len() > 0 {
            let id = strip.columns[c].windows[0].id;
            strip.focus = Some(id);
            return;
        }
        assert(cols.skip(c as int).drop_first() =~= cols.skip(c + 1));
        c += 1;
    }
    assert(cols.skip(c as int).len() == 0);
    strip.focus = None;
}

/// Focuses the last window of the last column that has one (no focus on a
/// strip without windows), clearing the affinity.
pub fn focus_last(strip: &mut Strip)
    ensures
        final(strip)@ == (StripView {
            focus: last_window(old(strip)@.columns),
            cross_affinity: None,
            ..old(strip)@
        }),
{
    strip.cross_affinity = None;
    let ghost cols = strip@.columns;
    let mut c: usize = strip.columns.len();
    assert(cols.take(c as int) =~= cols);
    while c > 0
        invariant
            c <= strip.columns@.len(),
            cols == strip@.columns,
            cols.len() == strip.columns@.len(),
            strip@ == (StripView { cross_affinity: None, ..old(strip)@ }),
            last_window(cols) == last_window(cols.take(c as int)),
        decreases c,
    {
        assert(cols.take(c as int).last() == strip.columns@[c - 1]@);
        let n = strip.columns[c - 1].windows.len();
        if n > 0 {
            let id = strip.columns[c - 1].windows[n - 1].id;
            strip.focus = Some(id);
            return;
        }
        assert(cols.take(c as int).drop_last() =~= cols.take(c - 1));
        c -= 1;
    }
    strip.focus = None;
}

/// Moves the focus up (horizontal strip) or left (vertical strip).
pub fn focus_up(strip: &mut Strip)
    ensures
        final(strip)@ == cross_step(old(strip)@, false),
{
    focus_cross(strip, false);
}

/// Moves the focus down (horizontal strip) or right (vertical strip).
pub fn focus_down(strip: &mut Strip)
    ensures
        final(strip)@ == cross_step(old(strip)@, true),
{
    focus_cross(strip, true);
}

/// The cross-axis range a window takes in a computed layout: its top row and
/// height in a horizontal strip, its left column and width in a vertical one.
#[derive(Debug, Clone, Copy)]
pub struct WindowSpan {
    pub id: WindowId,
    pub start: u16,
    pub size: u16,
}

/// `k` is the first span of the window `id`.
pub open spec fn first_span_at(spans: Seq<WindowSpan>, id: WindowId, k: int) -> bool {
    &&& 0 <= k < spans.len()
    &&& spans[k].id == id
    &&& forall|j: int| 0 <= j < k ==> #[trigger] spans[j].id != id
}

pub open spec fn has_span(spans: Seq<WindowSpan>, id: WindowId) -> bool {
    exists|k: int| 0 <= k < spans.len() && #[trigger] spans[k].id == id
}

/// The span of a window in the layout.
pub open spec fn span_of(spans: Seq<WindowSpan>, id: WindowId) -> WindowSpan {
    spans[choose|k: int| first_span_at(spans, id, k)]
}

/// Cross-axis center of a window; 0 for a window without a span.
pub open spec fn cross_center(spans: Seq<WindowSpan>, id: WindowId) -> int {
    if has_span(spans, id) {
        span_of(spans, id).start + span_of(spans, id).size / 2
    } else {
        0
    }
}

/// Whether the window's cross-axis range holds the position.
pub open spec fn cross_contains(spans: Seq<WindowSpan>, id: WindowId, pos: int) -> bool {
    has_span(spans, id) && span_of(spans, id).start <= pos < span_of(spans, id).start + span_of(
        spans,
        id,
    ).size
}

/// Distance from a window's cross-axis center to the affinity.
pub open spec fn affinity_distance(spans: Seq<WindowSpan>, id: WindowId, aff: int) -> int {
    let d = cross_center(spans, id) - aff;
    if d < 0 { -d } else { d }
}

/// Window `a` is a strictly better target than `b`: nearer to the affinity,
/// or as near and holding the affinity position where `b` does not.
pub open spec fn closer(spans: Seq<WindowSpan>, aff: int, a: WindowId, b: WindowId) -> bool {
    affinity_distance(spans, a, aff) < affinity_distance(spans, b, aff) || (affinity_distance(
        spans,
        a,
        aff,
    ) == affinity_distance(spans, b, aff) && cross_contains(spans, a, aff) && !cross_contains(
        spans,
        b,
        aff,
    ))
}

/// `b` is the first of the best targets among `ws`.
pub open spec fn best_at(ws: Seq<WindowView>, spans: Seq<WindowSpan>, aff: int, b: int) -> bool {
    &&& 0 <= b < ws.len()
    &&& forall|j: int| 0 <= j < b ==> closer(spans, aff, ws[b].id, #[trigger] ws[j].id)
    &&& forall|j: int| b < j < ws.len() ==> !closer(spans, aff, #[trigger] ws[j].id, ws[b].id)
}

/// The first of the windows nearest to the affinity.
pub open spec fn best_window(ws: Seq<WindowView>, spans: Seq<WindowSpan>, aff: int) -> WindowId {
    ws[choose|b: int| best_at(ws, spans, aff, b)].id
}

/// Spans whose ranges end within the `u16` range.
pub open spec fn spans_fit(spans: Seq<WindowSpan>) -> bool {
    forall|k: int| 0 <= k < spans.len() ==> #[trigger] spans[k].start + spans[k].size <= u16::MAX
}

/// The strip after moving the focus to the neighbouring column (the next
/// when `forward`): there the window nearest the affinity gets it, the
/// affinity being kept, or taken from the focused window's center when
/// unset. Without a focus, the first window of the first column gets it.
/// Unchanged at the first or last column, towards an empty column, or for a
/// focus the strip does not hold.
pub open spec fn primary_step(v: StripView, forward: bool, spans: Seq<WindowSpan>) -> StripView {
    match v.focus {
        None => if v.columns.len() > 0 && v.columns[0].windows.len() > 0 {
            StripView { focus: Some(v.columns[0].windows[0].id), ..v }
        } else {
            v
        },
        Some(f) => if !holds(v, f) {
            v
        } else {
            let c = place(v, f).0;
            if (forward && c + 1 >= v.columns.len()) || (!forward && c == 0) {
                v
            } else {
                let t = if forward { c + 1 } else { c - 1 };
                if v.columns[t].windows.len() == 0 {
                    v
                } else {
                    let aff = match v.cross_affinity {
                        Some(a) => a as int,
                        None => cross_center(spans, f),
                    };
                    StripView {
                        cross_affinity: Some(aff as u16),
                        focus: Some(best_window(v.columns[t].windows, spans, aff)),
                        ..v
                    }
                }
            }
        },
    }
}

proof fn lemma_first_span(spans: Seq<WindowSpan>, id: WindowId, k: int)
    requires
        first_span_at(spans, id, k),
    ensures
        has_span(spans, id),
        span_of(spans, id) == spans[k],
{
    assert(spans[k].id == id);
    let q = choose|q: int| first_span_at(spans, id, q);
    assert(first_span_at(spans, id, q));
    if q < k {
        assert(spans[q].id == id);
    } else if k < q {
        assert(spans[k].id == id);
    }
}

proof fn lemma_best_unique(ws: Seq<WindowView>, spans: Seq<WindowSpan>, aff: int, b: int)
    requires
        best_at(ws, spans, aff, b),
    ensures
        best_window(ws, spans, aff) == ws[b].id,
{
    let q = choose|q: int| best_at(ws, spans, aff, q);
    assert(best_at(ws, spans, aff, q));
    if q < b {
        assert(closer(spans, aff, ws[b].id, ws[q].id));
        assert(!closer(spans, aff, ws[b].id, ws[q].id));
    } else if b < q {
        assert(closer(spans, aff, ws[q].id, ws[b].id));
        assert(!closer(spans, aff, ws[q].id, ws[b].id));
    }
}

/// Index of the first span of a window.
fn find_span(spans: &[WindowSpan], id: WindowId) -> (r: Option<usize>)
    ensures
        match r {
            Some(k) => first_span_at(spans@, id, k as int),
            None => !has_span(spans@, id),
        },
{
    let mut k: usize = 0;
    while k < spans.len()
        invariant
            k <= spans@.len(),
            forall|j: int| 0 <= j < k ==> #[trigger] spans@[j].id != id,
        decreases spans@.len() - k,
    {
        if spans[k].id == id {
            return Some(k);
        }
        k += 1;
    }
    None
}

/// Cross-axis center of a window in the layout.
fn center_of(spans: &[WindowSpan], id: WindowId) -> (r: u16)
    requires
        spans_fit(spans@),
    ensures
        r as int == cross_center(spans@, id),
{
    match find_span(spans, id) {
        Some(k) => {
            proof {
                lemma_first_span(spans@, id, k as int);
            }
            let s = spans[k];
            assert(s.start + s.size <= u16::MAX);
            s.start + s.size / 2
        },
        None => 0,
    }
}

/// Whether the window's cross-axis range holds the position.
fn contains_at(spans: &[WindowSpan], id: WindowId, pos: u16) -> (r: bool)
    requires
        spans_fit(spans@),
    ensures
        r == cross_contains(spans@, id, pos as int),
{
    match find_span(spans, id) {
        Some(k) => {
            proof {
                lemma_first_span(spans@, id, k as int);
            }
            let s = spans[k];
            assert(s.start + s.size <= u16::MAX);
            pos >= s.start && pos < s.start + s.size
        },
        None => false,
    }
}

/// Distance from a window's cross-axis center to the affinity.
fn distance_to(spans: &[WindowSpan], id: WindowId, aff: u16) -> (r: u16)
    requires
        spans_fit(spans@),
    ensures
        r as int == affinity_distance(spans@, id, aff as int),
{
    let c = center_of(spans, id);
    if c >= aff {
        c - aff
    } else {
        aff - c
    }
}

/// Whether window `a` is a strictly better target than `b`.
fn is_closer(spans: &[WindowSpan], aff: u16, a: WindowId, b: WindowId) -> (r: bool)
    requires
        spans_fit(spans@),
    ensures
        r == closer(spans@, aff as int, a, b),
{
    let da = distance_to(spans, a, aff);
    let db = distance_to(spans, b, aff);
    if da < db {
        true
    } else if da == db {
        contains_at(spans, a, aff) && !contains_at(spans, b, aff)
    } else {
        false
    }
}

/// Moves the focus to the neighbouring column, the next one when `forward`,
/// picking there the window nearest to the cross-axis affinity; `spans`
/// gives each window's cross-axis range in the current layout.
pub fn focus_primary_with_spans(strip: &mut Strip, forward: bool, spans: &[WindowSpan])
    requires
        spans_fit(spans@),
    ensures
        final(strip)@ == primary_step(old(strip)@, forward, spans@),
{
    let focus_id = match strip.focus {
        Some(f) => f,
        None => {
            if strip.columns.len() > 0 && strip.columns[0].windows.len() > 0 {
                assert(strip.columns@[0]@ == strip@.columns[0]);
                let id = strip.columns[0].windows[0].id;
                strip.focus = Some(id);
            }
            return;
        },
    };
    let (c, _i) = match strip.find_window(focus_id) {
        Some(found) => found,
        None => {
            return;
        },
    };
    proof {
        lemma_place(strip@, focus_id, c as int, _i as int);
    }
    let n = strip.columns.len();
    let t = if forward {
        if c + 1 >= n {
            return;
        }
        c + 1
    } else {
        if c == 0 {
            return;
        }
        c - 1
    };
    let m = strip.columns[t].windows.len();
    assert(strip.columns@[t as int]@ == strip@.columns[t as int]);
    if m == 0 {
        return;
    }
    let affinity = match strip.cross_affinity {
        Some(a) => a,
        None => center_of(spans, focus_id),
    };
    strip.cross_affinity = Some(affinity);
    let ghost ws = strip@.columns[t as int].windows;
    let mut best: usize = 0;
    let mut j: usize = 1;
    while j < m
        invariant
            1 <= j <= m,
            t < strip.columns@.len(),
            m == strip.columns@[t as int].windows@.len(),
            ws == strip@.columns[t as int].windows,
            spans_fit(spans@),
            best_at(ws.take(j as int), spans@, affinity as int, best as int),
        decreases m - j,
    {
        let cand = strip.columns[t].windows[j].id;
        let cur = strip.columns[t].windows[best].id;
        assert(ws[j as int].id == cand);
        assert(ws[best as int].id == cur);
        let ghost pre = ws.take(j as int);
        let ghost nxt = ws.take(j + 1);
        assert(forall|q: int| 0 <= q < j ==> nxt[q] == #[trigger] pre[q]);
        if is_closer(spans, affinity, cand, cur) {
            assert forall|q: int| 0 <= q < j + 1 && q != j implies closer(
                spans@,
                affinity as int,
                cand,
                #[trigger] nxt[q].id,
            ) by {
                if q < best {
                    assert(closer(spans@, affinity as int, cur, pre[q].id));
                } else if q > best {
                    assert(!closer(spans@, affinity as int, pre[q].id, cur));
                }
            }
            best = j;
        }
        j += 1;
    }
    assert(ws.take(m as int) =~= ws);
    let id = strip.columns[t].windows[best].id;
    proof {
        lemma_best_unique(ws, spans@, affinity as int, best as int);
    }
    strip.focus = Some(id);
}
} // verus!
