//! Interactive tree navigation: tree data, visible rows, cursor and scroll state.
use vstd::prelude::*;
use crate::text::str_eq;

verus! {

broadcast use vstd::std_specs::btree::group_btree_axioms;

/// Identifier of a tree node.
pub type NodeId = usize;

/// One row of the flattened, visible part of the tree.
#[derive(Debug, Clone, Copy, PartialEq, Eq)]
pub struct VisibleRow {
    pub node_id: NodeId,
    pub depth: usize,
    pub has_children: bool,
    pub is_expanded: bool,
}

/// Tree data given as `(id, parent, label)` entries; children of a node are
/// listed in entry order.
#[derive(Debug, Clone)]
pub struct SimpleTree {
    nodes: Vec<(NodeId, Option<NodeId>, String)>,
}

/// Entries are a forest: ids are distinct and every parent comes before its children.
pub open spec fn forest_wf(ns: Seq<(NodeId, Option<NodeId>, String)>) -> bool {
    &&& forall|a: int, b: int| 0 <= a < b < ns.len() ==> #[trigger] ns[a].0 != #[trigger] ns[b].0
    &&& forall|k: int, j: int| 0 <= k < ns.len() && 0 <= j < ns.len() && #[trigger] ns[j].1 == Some(#[trigger] ns[k].0) ==> k < j
}

/// Entry `j` is a child of entry `k`.
pub open spec fn is_child(ns: Seq<(NodeId, Option<NodeId>, String)>, k: int, j: int) -> bool {
    ns[j].1 == Some(ns[k].0)
}

/// Whether entry `k` has a child among the entries `j..`.
pub open spec fn has_child_from(ns: Seq<(NodeId, Option<NodeId>, String)>, k: int, j: int) -> bool
    decreases ns.len() - j,
{
    if j < 0 || j >= ns.len() {
        false
    } else {
        is_child(ns, k, j) || has_child_from(ns, k, j + 1)
    }
}

/// The row shown for entry `k`.
pub open spec fn row_of(ns: Seq<(NodeId, Option<NodeId>, String)>, exp: Set<NodeId>, k: int, depth: int) -> VisibleRow {
    VisibleRow {
        node_id: ns[k].0,
        depth: depth as usize,
        has_children: has_child_from(ns, k, 0),
        is_expanded: exp.contains(ns[k].0),
    }
}

/// Rows of the subtree at entry `k` (the node, then, if expanded, its children's subtrees).
pub open spec fn rows_of_node(ns: Seq<(NodeId, Option<NodeId>, String)>, exp: Set<NodeId>, k: int, depth: int) -> Seq<VisibleRow>
    decreases ns.len() - k, ns.len() + 1,
{
    if k < 0 || k >= ns.len() {
        seq![]
    } else if exp.contains(ns[k].0) {
        seq![row_of(ns, exp, k, depth)] + rows_of_children(ns, exp, k, k + 1, depth + 1)
    } else {
        seq![row_of(ns, exp, k, depth)]
    }
}

/// Rows of the subtrees of the children of entry `k` found among entries `j..`.
pub open spec fn rows_of_children(ns: Seq<(NodeId, Option<NodeId>, String)>, exp: Set<NodeId>, k: int, j: int, depth: int) -> Seq<VisibleRow>
    decreases ns.len() - k, ns.len() - j,
{
    if k < 0 || k >= ns.len() || j <= k || j >= ns.len() {
        seq![]
    } else if is_child(ns, k, j) {
        rows_of_node(ns, exp, j, depth) + rows_of_children(ns, exp, k, j + 1, depth)
    } else {
        rows_of_children(ns, exp, k, j + 1, depth)
    }
}

/// Rows of the subtrees of the root entries among entries `j..`.
pub open spec fn rows_of_roots(ns: Seq<(NodeId, Option<NodeId>, String)>, exp: Set<NodeId>, j: int) -> Seq<VisibleRow>
    decreases ns.len() - j,
{
    if j < 0 || j >= ns.len() {
        seq![]
    } else if ns[j].1 is None {
        rows_of_node(ns, exp, j, 0) + rows_of_roots(ns, exp, j + 1)
    } else {
        rows_of_roots(ns, exp, j + 1)
    }
}

/// The visible rows of a tree: depth-first, children in entry order, below
/// expanded nodes only.
pub open spec fn visible_rows_spec(ns: Seq<(NodeId, Option<NodeId>, String)>, exp: Set<NodeId>) -> Seq<VisibleRow> {
    rows_of_roots(ns, exp, 0)
}

/// Index of the first entry with the given id, among entries `j..`.
pub open spec fn entry_of_from(ns: Seq<(NodeId, Option<NodeId>, String)>, id: NodeId, j: int) -> Option<int>
    decreases ns.len() - j,
{
    if j < 0 || j >= ns.len() {
        None
    } else if ns[j].0 == id {
        Some(j)
    } else {
        entry_of_from(ns, id, j + 1)
    }
}

/// The parent of a node, `None` for roots and unknown ids.
pub open spec fn parent_spec(ns: Seq<(NodeId, Option<NodeId>, String)>, id: NodeId) -> Option<NodeId> {
    match entry_of_from(ns, id, 0) {
        Some(k) => ns[k].1,
        None => None,
    }
}

/// Id of the `index`-th child (in entry order) of the entry `k` among entries `j..`.
pub open spec fn nth_child_from(ns: Seq<(NodeId, Option<NodeId>, String)>, k: int, j: int, index: int) -> Option<NodeId>
    decreases ns.len() - j,
{
    if j < 0 || j >= ns.len() {
        None
    } else if is_child(ns, k, j) {
        if index == 0 { Some(ns[j].0) } else { nth_child_from(ns, k, j + 1, index - 1) }
    } else {
        nth_child_from(ns, k, j + 1, index)
    }
}

/// The `index`-th child of a node, if it exists.
pub open spec fn child_spec(ns: Seq<(NodeId, Option<NodeId>, String)>, id: NodeId, index: int) -> Option<NodeId> {
    match entry_of_from(ns, id, 0) {
        Some(k) => nth_child_from(ns, k, 0, index),
        None => None,
    }
}

impl SimpleTree {
    pub closed spec fn entries(&self) -> Seq<(NodeId, Option<NodeId>, String)> {
        self.nodes@
    }

    /// Build a tree from `(id, parent, label)` entries.
    pub fn new(nodes: Vec<(NodeId, Option<NodeId>, String)>) -> (t: Self)
        requires
            forest_wf(nodes@),
        ensures
            t.entries() == nodes@,
            forest_wf(t.entries()),
    {
        SimpleTree { nodes }
    }

    /// Build a tree from entries that are checked first: `None` when two
    /// entries share an id or a child comes before its parent, cases in which
    /// the row computation would be ambiguous or would not end.
    pub fn checked(nodes: Vec<(NodeId, Option<NodeId>, String)>) -> (r: Option<Self>)
        ensures
            match r {
                Some(t) => t.entries() == nodes@ && forest_wf(nodes@),
                None => !forest_wf(nodes@),
            },
    {
        let n = nodes.len();
        let mut j: usize = 0;
        while j < n
            invariant
                n == nodes@.len(),
                j <= n,
                forall|a: int, b: int| 0 <= a < b < j ==> #[trigger] nodes@[a].0 != #[trigger] nodes@[b].0,
                forall|k: int, b: int| 0 <= k < n && 0 <= b < j && #[trigger] nodes@[b].1 == Some(
                    #[trigger] nodes@[k].0,
                ) ==> k < b,
            decreases n - j,
        {
            let mut k: usize = 0;
            while k < n
                invariant
                    n == nodes@.len(),
                    j < n,
                    k <= n,
                    forall|a: int| 0 <= a < k && a < j ==> #[trigger] nodes@[a].0 != nodes@[j as int].0,
                    forall|a: int| 0 <= a < k && j <= a && nodes@[j as int].1 == Some(#[trigger] nodes@[a].0) ==> false,
                decreases n - k,
            {
                if k < j && nodes[k].0 == nodes[j].0 {
                    assert(nodes@[k as int].0 == nodes@[j as int].0);
                    return None;
                }
                if j <= k {
                    match nodes[j].1 {
                        Some(p) => {
                            if p == nodes[k].0 {
                                assert(nodes@[j as int].1 == Some(nodes@[k as int].0));
                                return None;
                            }
                        },
                        None => {},
                    }
                }
                k += 1;
            }
            j += 1;
        }
        Some(SimpleTree { nodes })
    }

    /// Number of entries.
    pub fn len(&self) -> (n: usize)
        ensures
            n == self.entries().len(),
    {
        self.nodes.len()
    }

    fn find_entry(&self, id: NodeId) -> (r: Option<usize>)
        ensures
            r matches Some(k) ==> entry_of_from(self.entries(), id, 0) == Some(k as int) && k < self.entries().len(),
            r is None ==> entry_of_from(self.entries(), id, 0) is None,
    {
        let ghost ns = self.nodes@;
        let mut j: usize = 0;
        while j < self.nodes.len()
            invariant
                ns == self.nodes@,
                j <= ns.len(),
                entry_of_from(ns, id, 0) == entry_of_from(ns, id, j as int),
            decreases ns.len() - j,
        {
            if self.nodes[j].0 == id {
                return Some(j);
            }
            j += 1;
        }
        None
    }

    /// The label of a node (`None` for unknown ids).
    pub fn label(&self, id: NodeId) -> (r: Option<&str>)
        ensures
            match entry_of_from(self.entries(), id, 0) {
                Some(k) => r is Some && r->0@ == self.entries()[k].2@,
                None => r is None,
            },
    {
        match self.find_entry(id) {
            Some(k) => Some(self.nodes[k].2.as_str()),
            None => None,
        }
    }

    /// The parent of a node (`None` for roots and unknown ids).
    pub fn parent(&self, id: NodeId) -> (r: Option<NodeId>)
        ensures
            r == parent_spec(self.entries(), id),
    {
        match self.find_entry(id) {
            Some(k) => self.nodes[k].1,
            None => None,
        }
    }

    fn nth_child_of_entry(&self, k: usize, index: usize) -> (r: Option<NodeId>)
        requires
            k < self.entries().len(),
        ensures
            r == nth_child_from(self.entries(), k as int, 0, index as int),
    {
        let ghost ns = self.nodes@;
        let mut j: usize = 0;
        let mut remaining: usize = index;
        while j < self.nodes.len()
            invariant
                ns == self.nodes@,
                k < ns.len(),
                j <= ns.len(),
                nth_child_from(ns, k as int, 0, index as int) == nth_child_from(ns, k as int, j as int, remaining as int),
            decreases ns.len() - j,
        {
            if self.nodes[j].1 == Some(self.nodes[k].0) {
                if remaining == 0 {
                    return Some(self.nodes[j].0);
                }
                remaining -= 1;
            }
            j += 1;
        }
        None
    }

    /// The `index`-th child of a node, if it exists.
    pub fn child(&self, id: NodeId, index: usize) -> (r: Option<NodeId>)
        ensures
            r == child_spec(self.entries(), id, index as int),
    {
        match self.find_entry(id) {
            Some(k) => self.nth_child_of_entry(k, index),
            None => None,
        }
    }

    fn has_children_entry(&self, k: usize) -> (r: bool)
        requires
            k < self.entries().len(),
        ensures
            r == has_child_from(self.entries(), k as int, 0),
    {
        let ghost ns = self.nodes@;
        let mut j: usize = 0;
        while j < self.nodes.len()
            invariant
                ns == self.nodes@,
                k < ns.len(),
                j <= ns.len(),
                has_child_from(ns, k as int, 0) == has_child_from(ns, k as int, j as int),
            decreases ns.len() - j,
        {
            if self.nodes[j].1 == Some(self.nodes[k].0) {
                return true;
            }
            j += 1;
        }
        false
    }

    fn push_node_rows(&self, exp: &std::collections::BTreeSet<NodeId>, k: usize, depth: usize, out: &mut Vec<VisibleRow>)
        requires
            forest_wf(self.entries()),
            k < self.entries().len(),
            depth <= k,
        ensures
            final(out)@ == old(out)@ + rows_of_node(self.entries(), exp@, k as int, depth as int),
        decreases self.entries().len() - k, self.entries().len() + 1,
    {
        let row = VisibleRow {
            node_id: self.nodes[k].0,
            depth,
            has_children: self.has_children_entry(k),
            is_expanded: exp.contains(&self.nodes[k].0),
        };
        out.push(row);
        let _n = self.nodes.len();
        if exp.contains(&self.nodes[k].0) {
            self.push_children_rows(exp, k, k + 1, depth + 1, out);
            assert(final(out)@ =~= old(out)@ + rows_of_node(self.entries(), exp@, k as int, depth as int));
        } else {
            assert(final(out)@ =~= old(out)@ + rows_of_node(self.entries(), exp@, k as int, depth as int));
        }
    }

    fn push_children_rows(&self, exp: &std::collections::BTreeSet<NodeId>, k: usize, j: usize, depth: usize, out: &mut Vec<VisibleRow>)
        requires
            forest_wf(self.entries()),
            k < self.entries().len(),
            k < j <= self.entries().len(),
            depth <= k + 1,
        ensures
            final(out)@ == old(out)@ + rows_of_children(self.entries(), exp@, k as int, j as int, depth as int),
        decreases self.entries().len() - k, self.entries().len() - j,
    {
        if j >= self.nodes.len() {
            assert(final(out)@ =~= old(out)@ + rows_of_children(self.entries(), exp@, k as int, j as int, depth as int));
            return;
        }
        if self.nodes[j].1 == Some(self.nodes[k].0) {
            self.push_node_rows(exp, j, depth, out);
        }
        self.push_children_rows(exp, k, j + 1, depth, out);
        assert(final(out)@ =~= old(out)@ + rows_of_children(self.entries(), exp@, k as int, j as int, depth as int));
    }

    /// The visible rows of the tree for a set of expanded node ids.
    pub fn compute_visible_rows(&self, exp: &std::collections::BTreeSet<NodeId>) -> (rows: Vec<VisibleRow>)
        requires
            forest_wf(self.entries()),
        ensures
            rows@ == visible_rows_spec(self.entries(), exp@),
    {
        let ghost ns = self.nodes@;
        let mut out: Vec<VisibleRow> = Vec::new();
        let mut j: usize = 0;
        while j < self.nodes.len()
            invariant
                ns == self.nodes@,
                forest_wf(ns),
                j <= ns.len(),
                out@ + rows_of_roots(ns, exp@, j as int) == visible_rows_spec(ns, exp@),
            decreases ns.len() - j,
        {
            let ghost before = out@;
            if self.nodes[j].1.is_none() {
                self.push_node_rows(exp, j, 0, &mut out);
                assert(before + rows_of_roots(ns, exp@, j as int) =~= out@ + rows_of_roots(ns, exp@, j + 1));
            }
            j += 1;
        }
        assert(out@ + rows_of_roots(ns, exp@, j as int) =~= out@);
        out
    }
}


/// Actions for tree navigation and interaction.
#[derive(Clone, Debug, PartialEq, Eq, Hash)]
pub enum TreeAction {
    Up,
    Down,
    Expand,
    Collapse,
    Toggle,
    Parent,
    FirstChild,
    NextSibling,
    PrevSibling,
    First,
    Last,
    PageUp,
    PageDown,
    Select,
}

/// The action named by a snake_case string.
pub open spec fn tree_action_named(s: Seq<char>) -> Option<TreeAction> {
    if s == "up"@ { Some(TreeAction::Up) }
    else if s == "down"@ { Some(TreeAction::Down) }
    else if s == "expand"@ { Some(TreeAction::Expand) }
    else if s == "collapse"@ { Some(TreeAction::Collapse) }
    else if s == "toggle"@ { Some(TreeAction::Toggle) }
    else if s == "parent"@ { Some(TreeAction::Parent) }
    else if s == "first_child"@ { Some(TreeAction::FirstChild) }
    else if s == "next_sibling"@ { Some(TreeAction::NextSibling) }
    else if s == "prev_sibling"@ { Some(TreeAction::PrevSibling) }
    else if s == "first"@ { Some(TreeAction::First) }
    else if s == "last"@ { Some(TreeAction::Last) }
    else if s == "page_up"@ { Some(TreeAction::PageUp) }
    else if s == "page_down"@ { Some(TreeAction::PageDown) }
    else if s == "select"@ { Some(TreeAction::Select) }
    else { None }
}

/// Parse a snake_case action string into a `TreeAction`.
pub fn parse_tree_action(s: &str) -> (r: Option<TreeAction>)
    ensures
        r == tree_action_named(s@),
{
    if str_eq(s, "up") { Some(TreeAction::Up) }
    else if str_eq(s, "down") { Some(TreeAction::Down) }
    else if str_eq(s, "expand") { Some(TreeAction::Expand) }
    else if str_eq(s, "collapse") { Some(TreeAction::Collapse) }
    else if str_eq(s, "toggle") { Some(TreeAction::Toggle) }
    else if str_eq(s, "parent") { Some(TreeAction::Parent) }
    else if str_eq(s, "first_child") { Some(TreeAction::FirstChild) }
    else if str_eq(s, "next_sibling") { Some(TreeAction::NextSibling) }
    else if str_eq(s, "prev_sibling") { Some(TreeAction::PrevSibling) }
    else if str_eq(s, "first") { Some(TreeAction::First) }
    else if str_eq(s, "last") { Some(TreeAction::Last) }
    else if str_eq(s, "page_up") { Some(TreeAction::PageUp) }
    else if str_eq(s, "page_down") { Some(TreeAction::PageDown) }
    else if str_eq(s, "select") { Some(TreeAction::Select) }
    else { None }
}

/// The keys the default tree bindings use.
#[derive(Clone, Copy, Debug, PartialEq, Eq)]
pub enum TreeKey {
    Char(char),
    Up,
    Down,
    Left,
    Right,
    Enter,
    PageUp,
    PageDown,
}

/// The default vim-style tree bindings: a key with its Ctrl, Alt and Shift
/// state to an action. `k`/Up up, `j`/Down down, `g` first, Shift-`G` last,
/// `l`/Right expand, `h`/Left collapse, Space toggle, `p` parent, Enter
/// select, Shift-`J`/Shift-`K` next/previous sibling, Ctrl-`d`/PageDown page
/// down, Ctrl-`u`/PageUp page up, `o` first child.
pub open spec fn default_binding_spec(key: TreeKey, ctrl: bool, alt: bool, shift: bool) -> Option<TreeAction> {
    if alt {
        None
    } else if !ctrl && !shift {
        match key {
            TreeKey::Char('k') | TreeKey::Up => Some(TreeAction::Up),
            TreeKey::Char('j') | TreeKey::Down => Some(TreeAction::Down),
            TreeKey::Char('g') => Some(TreeAction::First),
            TreeKey::Char('l') | TreeKey::Right => Some(TreeAction::Expand),
            TreeKey::Char('h') | TreeKey::Left => Some(TreeAction::Collapse),
            TreeKey::Char(' ') => Some(TreeAction::Toggle),
            TreeKey::Char('p') => Some(TreeAction::Parent),
            TreeKey::Enter => Some(TreeAction::Select),
            TreeKey::PageDown => Some(TreeAction::PageDown),
            TreeKey::PageUp => Some(TreeAction::PageUp),
            TreeKey::Char('o') => Some(TreeAction::FirstChild),
            _ => None,
        }
    } else if !ctrl && shift {
        match key {
            TreeKey::Char('G') => Some(TreeAction::Last),
            TreeKey::Char('J') => Some(TreeAction::NextSibling),
            TreeKey::Char('K') => Some(TreeAction::PrevSibling),
            _ => None,
        }
    } else if ctrl && !shift {
        match key {
            TreeKey::Char('d') => Some(TreeAction::PageDown),
            TreeKey::Char('u') => Some(TreeAction::PageUp),
            _ => None,
        }
    } else {
        None
    }
}

/// The action the default tree bindings give a key with its Ctrl, Alt and
/// Shift state, if any.
pub fn default_binding(key: TreeKey, ctrl: bool, alt: bool, shift: bool) -> (r: Option<TreeAction>)
    ensures
        r == default_binding_spec(key, ctrl, alt, shift),
{
    if alt {
        None
    } else if !ctrl && !shift {
        match key {
            TreeKey::Char('k') | TreeKey::Up => Some(TreeAction::Up),
            TreeKey::Char('j') | TreeKey::Down => Some(TreeAction::Down),
            TreeKey::Char('g') => Some(TreeAction::First),
            TreeKey::Char('l') | TreeKey::Right => Some(TreeAction::Expand),
            TreeKey::Char('h') | TreeKey::Left => Some(TreeAction::Collapse),
            TreeKey::Char(' ') => Some(TreeAction::Toggle),
            TreeKey::Char('p') => Some(TreeAction::Parent),
            TreeKey::Enter => Some(TreeAction::Select),
            TreeKey::PageDown => Some(TreeAction::PageDown),
            TreeKey::PageUp => Some(TreeAction::PageUp),
            TreeKey::Char('o') => Some(TreeAction::FirstChild),
            _ => None,
        }
    } else if !ctrl && shift {
        match key {
            TreeKey::Char('G') => Some(TreeAction::Last),
            TreeKey::Char('J') => Some(TreeAction::NextSibling),
            TreeKey::Char('K') => Some(TreeAction::PrevSibling),
            _ => None,
        }
    } else if ctrl && !shift {
        match key {
            TreeKey::Char('d') => Some(TreeAction::PageDown),
            TreeKey::Char('u') => Some(TreeAction::PageUp),
            _ => None,
        }
    } else {
        None
    }
}

/// Summary of the tree state at the cursor.
#[derive(Debug, Clone, Copy, PartialEq, Eq)]
pub struct TreeInfo {
    pub visible_count: usize,
    pub cursor_node_id: Option<NodeId>,
    pub cursor_depth: Option<usize>,
    pub cursor_is_leaf: Option<bool>,
}

/// Mutable state of a tree widget.
#[derive(Debug, Clone)]
pub struct TreeState {
    /// Cursor index into `visible_rows`.
    pub cursor: usize,
    /// First visible row in the viewport.
    pub scroll_offset: usize,
    /// Set of expanded node ids.
    pub expanded: std::collections::BTreeSet<NodeId>,
    /// Cached flat list of visible rows.
    pub visible_rows: Vec<VisibleRow>,
}

/// The mathematical content of a `TreeState`.
pub struct TreeView {
    pub cursor: int,
    pub scroll: int,
    pub expanded: Set<NodeId>,
    pub rows: Seq<VisibleRow>,
}

impl View for TreeState {
    type V = TreeView;

    open spec fn view(&self) -> TreeView {
        TreeView {
            cursor: self.cursor as int,
            scroll: self.scroll_offset as int,
            expanded: self.expanded@,
            rows: self.visible_rows@,
        }
    }
}

/// Whether the cursor is on a row.
pub open spec fn on_row(v: TreeView) -> bool {
    0 <= v.cursor < v.rows.len()
}

/// The row under the cursor.
pub open spec fn cur_row(v: TreeView) -> VisibleRow {
    v.rows[v.cursor]
}

/// The state with the rows recomputed for a new expanded set.
pub open spec fn with_expanded(v: TreeView, ns: Seq<(NodeId, Option<NodeId>, String)>, exp: Set<NodeId>) -> TreeView {
    TreeView { expanded: exp, rows: visible_rows_spec(ns, exp), ..v }
}

/// Cursor pulled back onto the rows (0 when there are none).
pub open spec fn clamp_spec(v: TreeView) -> TreeView {
    TreeView {
        cursor: if v.rows.len() > 0 { if v.cursor < v.rows.len() - 1 { v.cursor } else { v.rows.len() - 1 } } else { 0 },
        ..v
    }
}

pub open spec fn expand_spec(v: TreeView, ns: Seq<(NodeId, Option<NodeId>, String)>) -> TreeView {
    if on_row(v) && cur_row(v).has_children && !cur_row(v).is_expanded {
        with_expanded(v, ns, v.expanded.insert(cur_row(v).node_id))
    } else {
        v
    }
}

pub open spec fn collapse_spec(v: TreeView, ns: Seq<(NodeId, Option<NodeId>, String)>) -> TreeView {
    if on_row(v) && cur_row(v).has_children && cur_row(v).is_expanded {
        clamp_spec(with_expanded(v, ns, v.expanded.remove(cur_row(v).node_id)))
    } else {
        v
    }
}

pub open spec fn toggle_spec(v: TreeView, ns: Seq<(NodeId, Option<NodeId>, String)>) -> TreeView {
    if on_row(v) && cur_row(v).is_expanded { collapse_spec(v, ns) } else { expand_spec(v, ns) }
}

pub open spec fn at_cursor(v: TreeView, c: int) -> TreeView {
    TreeView { cursor: c, ..v }
}

pub open spec fn move_down_spec(v: TreeView) -> TreeView {
    if v.rows.len() > 0 {
        at_cursor(v, if v.cursor + 1 < v.rows.len() - 1 { v.cursor + 1 } else { v.rows.len() - 1 })
    } else {
        v
    }
}

pub open spec fn move_up_spec(v: TreeView) -> TreeView {
    at_cursor(v, if v.cursor > 0 { v.cursor - 1 } else { 0 })
}

pub open spec fn jump_last_spec(v: TreeView) -> TreeView {
    if v.rows.len() > 0 { at_cursor(v, v.rows.len() - 1) } else { v }
}

/// Index of the first row at or after `i` showing node `id`.
pub open spec fn row_pos_from(rows: Seq<VisibleRow>, id: NodeId, i: int) -> Option<int>
    decreases rows.len() - i,
{
    if i < 0 || i >= rows.len() {
        None
    } else if rows[i].node_id == id {
        Some(i)
    } else {
        row_pos_from(rows, id, i + 1)
    }
}

/// Cursor moved onto the row of node `id`, when it is visible.
pub open spec fn goto_node(v: TreeView, id: NodeId) -> TreeView {
    match row_pos_from(v.rows, id, 0) {
        Some(p) => at_cursor(v, p),
        None => v,
    }
}

pub open spec fn parent_state_spec(v: TreeView, ns: Seq<(NodeId, Option<NodeId>, String)>) -> TreeView {
    if on_row(v) {
        match parent_spec(ns, cur_row(v).node_id) {
            Some(p) => goto_node(v, p),
            None => v,
        }
    } else {
        v
    }
}

pub open spec fn first_child_state_spec(v: TreeView, ns: Seq<(NodeId, Option<NodeId>, String)>) -> TreeView {
    if on_row(v) && cur_row(v).has_children {
        let v1 = if !cur_row(v).is_expanded { with_expanded(v, ns, v.expanded.insert(cur_row(v).node_id)) } else { v };
        match child_spec(ns, cur_row(v).node_id, 0) {
            Some(c) => goto_node(v1, c),
            None => v1,
        }
    } else {
        v
    }
}

/// Forward sibling search from row `i`.
pub open spec fn sibling_fwd(rows: Seq<VisibleRow>, ns: Seq<(NodeId, Option<NodeId>, String)>, id: NodeId, depth: usize, i: int) -> Option<int>
    decreases rows.len() - i,
{
    if i < 0 || i >= rows.len() {
        None
    } else if rows[i].depth < depth {
        None
    } else if rows[i].depth == depth {
        if parent_spec(ns, id) == parent_spec(ns, rows[i].node_id) { Some(i) } else { None }
    } else {
        sibling_fwd(rows, ns, id, depth, i + 1)
    }
}

/// Backward sibling search from row `i`.
pub open spec fn sibling_bwd(rows: Seq<VisibleRow>, ns: Seq<(NodeId, Option<NodeId>, String)>, id: NodeId, depth: usize, i: int) -> Option<int>
    decreases i + 1,
{
    if i < 0 || i >= rows.len() {
        None
    } else if rows[i].depth < depth {
        None
    } else if rows[i].depth == depth {
        if parent_spec(ns, id) == parent_spec(ns, rows[i].node_id) { Some(i) } else { None }
    } else {
        sibling_bwd(rows, ns, id, depth, i - 1)
    }
}

pub open spec fn next_sibling_spec(v: TreeView, ns: Seq<(NodeId, Option<NodeId>, String)>) -> TreeView {
    if on_row(v) {
        match sibling_fwd(v.rows, ns, cur_row(v).node_id, cur_row(v).depth, v.cursor + 1) {
            Some(i) => at_cursor(v, i),
            None => v,
        }
    } else {
        v
    }
}

pub open spec fn prev_sibling_spec(v: TreeView, ns: Seq<(NodeId, Option<NodeId>, String)>) -> TreeView {
    if on_row(v) {
        match sibling_bwd(v.rows, ns, cur_row(v).node_id, cur_row(v).depth, v.cursor - 1) {
            Some(i) => at_cursor(v, i),
            None => v,
        }
    } else {
        v
    }
}

pub open spec fn page_down_spec(v: TreeView, n: int) -> TreeView {
    if v.rows.len() > 0 {
        at_cursor(v, if v.cursor + n < v.rows.len() - 1 { v.cursor + n } else { v.rows.len() - 1 })
    } else {
        v
    }
}

pub open spec fn page_up_spec(v: TreeView, n: int) -> TreeView {
    at_cursor(v, if v.cursor > n { v.cursor - n } else { 0 })
}

/// Scroll adjusted so that the cursor row lies in a viewport of `h` rows.
pub open spec fn cursor_visible_spec(v: TreeView, h: int) -> TreeView {
    if h == 0 {
        v
    } else if v.cursor < v.scroll {
        TreeView { scroll: v.cursor, ..v }
    } else if v.cursor >= v.scroll + h {
        TreeView { scroll: v.cursor + 1 - h, ..v }
    } else {
        v
    }
}

/// After `apply`, the cursor shows in a viewport of `h > 0` rows, the
/// scroll having moved only as far as needed; `Select` does not move the
/// cursor.
pub proof fn lemma_apply_keeps_cursor_visible(v: TreeView, a: TreeAction, ns: Seq<(NodeId, Option<NodeId>, String)>, h: int)
    ensures
        ({
            let s = action_spec(v, a, ns, h);
            let w = cursor_visible_spec(s, h);
            &&& w.cursor == s.cursor
            &&& h > 0 ==> w.scroll <= w.cursor < w.scroll + h
            &&& a is Select ==> w.cursor == v.cursor
        }),
{
}

/// `ensure_cursor_visible` stays within `usize` arithmetic.
pub open spec fn cursor_visible_ok(v: TreeView, h: int) -> bool {
    h == 0 || v.cursor < v.scroll || (v.scroll + h <= usize::MAX && (v.cursor >= v.scroll + h ==> v.cursor < usize::MAX))
}

/// The state an action leads to, before the scroll is adjusted.
pub open spec fn action_spec(v: TreeView, a: TreeAction, ns: Seq<(NodeId, Option<NodeId>, String)>, h: int) -> TreeView {
    match a {
        TreeAction::Up => move_up_spec(v),
        TreeAction::Down => move_down_spec(v),
        TreeAction::First => at_cursor(v, 0),
        TreeAction::Last => jump_last_spec(v),
        TreeAction::Expand => expand_spec(v, ns),
        TreeAction::Collapse => collapse_spec(v, ns),
        TreeAction::Toggle => toggle_spec(v, ns),
        TreeAction::Parent => parent_state_spec(v, ns),
        TreeAction::FirstChild => first_child_state_spec(v, ns),
        TreeAction::NextSibling => next_sibling_spec(v, ns),
        TreeAction::PrevSibling => prev_sibling_spec(v, ns),
        TreeAction::PageUp => page_up_spec(v, h),
        TreeAction::PageDown => page_down_spec(v, h),
        TreeAction::Select => v,
    }
}

/// An action stays within `usize` arithmetic.
pub open spec fn apply_ok(v: TreeView, a: TreeAction, ns: Seq<(NodeId, Option<NodeId>, String)>, h: int) -> bool {
    &&& (a is Down ==> v.rows.len() == 0 || v.cursor < usize::MAX)
    &&& (a is PageDown ==> v.rows.len() == 0 || v.cursor + h <= usize::MAX)
    &&& cursor_visible_ok(action_spec(v, a, ns, h), h)
}

impl TreeState {
    /// Initial state: nothing expanded, cursor and scroll at 0.
    pub fn new(data: &SimpleTree) -> (s: Self)
        requires
            forest_wf(data.entries()),
        ensures
            s@ == (TreeView { cursor: 0, scroll: 0, expanded: Set::empty(), rows: visible_rows_spec(data.entries(), Set::empty()) }),
    {
        let expanded = std::collections::BTreeSet::new();
        let visible_rows = data.compute_visible_rows(&expanded);
        TreeState { cursor: 0, scroll_offset: 0, expanded, visible_rows }
    }

    /// Recompute the cached rows from the data and the expanded set.
    pub fn recompute(&mut self, data: &SimpleTree)
        requires
            forest_wf(data.entries()),
        ensures
            final(self)@ == with_expanded(old(self)@, data.entries(), old(self)@.expanded),
    {
        self.visible_rows = data.compute_visible_rows(&self.expanded);
    }

    /// Expand the node under the cursor.
    pub fn expand(&mut self, data: &SimpleTree)
        requires
            forest_wf(data.entries()),
        ensures
            final(self)@ == expand_spec(old(self)@, data.entries()),
    {
        if self.cursor < self.visible_rows.len() {
            let row = self.visible_rows[self.cursor];
            if row.has_children && !row.is_expanded {
                self.expanded.insert(row.node_id);
                self.recompute(data);
            }
        }
    }

    fn clamp_cursor(&mut self)
        ensures
            final(self)@ == clamp_spec(old(self)@),
    {
        if self.visible_rows.len() > 0 {
            if self.cursor >= self.visible_rows.len() - 1 {
                self.cursor = self.visible_rows.len() - 1;
            }
        } else {
            self.cursor = 0;
        }
    }

    /// Collapse the node under the cursor.
    pub fn collapse(&mut self, data: &SimpleTree)
        requires
            forest_wf(data.entries()),
        ensures
            final(self)@ == collapse_spec(old(self)@, data.entries()),
    {
        if self.cursor < self.visible_rows.len() {
            let row = self.visible_rows[self.cursor];
            if row.has_children && row.is_expanded {
                self.expanded.remove(&row.node_id);
                self.recompute(data);
                self.clamp_cursor();
            }
        }
    }

    /// Toggle expand/collapse of the node under the cursor.
    pub fn toggle(&mut self, data: &SimpleTree)
        requires
            forest_wf(data.entries()),
        ensures
            final(self)@ == toggle_spec(old(self)@, data.entries()),
    {
        if self.cursor < self.visible_rows.len() {
            let row = self.visible_rows[self.cursor];
            if !row.has_children {
                return;
            }
            if row.is_expanded {
                let collapsed_id = row.node_id;
                let cursor_node_id = self.visible_rows[self.cursor].node_id;
                self.expanded.remove(&collapsed_id);
                self.recompute(data);
                if cursor_node_id != collapsed_id {
                    if let Some(pos) = self.position_of(collapsed_id) {
                        self.cursor = pos;
                    }
                }
                self.clamp_cursor();
            } else {
                self.expanded.insert(row.node_id);
                self.recompute(data);
            }
        }
    }

    fn position_of(&self, id: NodeId) -> (r: Option<usize>)
        ensures
            r matches Some(p) ==> row_pos_from(self.visible_rows@, id, 0) == Some(p as int),
            r is None ==> row_pos_from(self.visible_rows@, id, 0) is None,
    {
        let mut i: usize = 0;
        while i < self.visible_rows.len()
            invariant
                i <= self.visible_rows@.len(),
                row_pos_from(self.visible_rows@, id, 0) == row_pos_from(self.visible_rows@, id, i as int),
            decreases self.visible_rows@.len() - i,
        {
            if self.visible_rows[i].node_id == id {
                return Some(i);
            }
            i += 1;
        }
        None
    }

    /// Move the cursor down one row, clamped at the last row.
    pub fn move_down(&mut self)
        requires
            old(self)@.rows.len() == 0 || old(self).cursor < usize::MAX,
        ensures
            final(self)@ == move_down_spec(old(self)@),
    {
        if self.visible_rows.len() > 0 {
            let last = self.visible_rows.len() - 1;
            self.cursor = if self.cursor + 1 < last { self.cursor + 1 } else { last };
        }
    }

    /// Move the cursor up one row, clamped at row 0.
    pub fn move_up(&mut self)
        ensures
            final(self)@ == move_up_spec(old(self)@),
    {
        self.cursor = if self.cursor > 0 { self.cursor - 1 } else { 0 };
    }

    /// Jump to the first row.
    pub fn jump_first(&mut self)
        ensures
            final(self)@ == at_cursor(old(self)@, 0),
    {
        self.cursor = 0;
    }

    /// Jump to the last row.
    pub fn jump_last(&mut self)
        ensures
            final(self)@ == jump_last_spec(old(self)@),
    {
        if self.visible_rows.len() > 0 {
            self.cursor = self.visible_rows.len() - 1;
        }
    }

    /// Move the cursor to the parent of the current node, when it is visible.
    pub fn navigate_parent(&mut self, data: &SimpleTree)
        ensures
            final(self)@ == parent_state_spec(old(self)@, data.entries()),
    {
        if self.cursor < self.visible_rows.len() {
            let id = self.visible_rows[self.cursor].node_id;
            if let Some(parent_id) = data.parent(id) {
                if let Some(pos) = self.position_of(parent_id) {
                    self.cursor = pos;
                }
            }
        }
    }

    /// Move the cursor to the first child of the current node, expanding it if needed.
    pub fn navigate_first_child(&mut self, data: &SimpleTree)
        requires
            forest_wf(data.entries()),
        ensures
            final(self)@ == first_child_state_spec(old(self)@, data.entries()),
    {
        if self.cursor < self.visible_rows.len() {
            let row = self.visible_rows[self.cursor];
            if !row.has_children {
                return;
            }
            if !row.is_expanded {
                self.expanded.insert(row.node_id);
                self.recompute(data);
            }
            if let Some(first_child_id) = data.child(row.node_id, 0) {
                if let Some(pos) = self.position_of(first_child_id) {
                    self.cursor = pos;
                }
            }
        }
    }

    /// Move the cursor to the next sibling.
    pub fn next_sibling(&mut self, data: &SimpleTree)
        ensures
            final(self)@ == next_sibling_spec(old(self)@, data.entries()),
    {
        if self.cursor < self.visible_rows.len() {
            let ghost rows = self.visible_rows@;
            let ghost ns = data.entries();
            let ghost v0 = self@;
            let node_id = self.visible_rows[self.cursor].node_id;
            let depth = self.visible_rows[self.cursor].depth;
            let start = self.cursor;
            let mut i: usize = self.cursor + 1;
            while i < self.visible_rows.len()
                invariant_except_break
                    rows == self.visible_rows@,
                    ns == data.entries(),
                    self.cursor == start,
                    self@ == v0,
                    start < i <= rows.len(),
                    sibling_fwd(rows, ns, node_id, depth, start + 1) == sibling_fwd(rows, ns, node_id, depth, i as int),
                ensures
                    rows == self.visible_rows@,
                    self@ == match sibling_fwd(rows, ns, node_id, depth, start + 1) {
                        Some(k) => at_cursor(v0, k),
                        None => v0,
                    },
                decreases rows.len() - i,
            {
                let candidate = self.visible_rows[i];
                if candidate.depth < depth {
                    break;
                }
                if candidate.depth == depth {
                    let cur_parent = data.parent(node_id);
                    let cand_parent = data.parent(candidate.node_id);
                    let same = match (cur_parent, cand_parent) {
                        (Some(a), Some(b)) => a == b,
                        (None, None) => true,
                        _ => false,
                    };
                    assert(same == (parent_spec(ns, node_id) == parent_spec(ns, candidate.node_id)));
                    if same {
                        self.cursor = i;
                    }
                    break;
                }
                i += 1;
            }
        }
    }

    /// Move the cursor to the previous sibling.
    pub fn prev_sibling(&mut self, data: &SimpleTree)
        ensures
            final(self)@ == prev_sibling_spec(old(self)@, data.entries()),
    {
        if self.cursor < self.visible_rows.len() {
            let ghost rows = self.visible_rows@;
            let ghost ns = data.entries();
            let ghost v0 = self@;
            let node_id = self.visible_rows[self.cursor].node_id;
            let depth = self.visible_rows[self.cursor].depth;
            let start = self.cursor;
            let mut i: usize = self.cursor;
            while i > 0
                invariant_except_break
                    rows == self.visible_rows@,
                    ns == data.entries(),
                    self.cursor == start,
                    self@ == v0,
                    i <= start < rows.len(),
                    sibling_bwd(rows, ns, node_id, depth, start - 1) == sibling_bwd(rows, ns, node_id, depth, i - 1),
                ensures
                    rows == self.visible_rows@,
                    self@ == match sibling_bwd(rows, ns, node_id, depth, start - 1) {
                        Some(k) => at_cursor(v0, k),
                        None => v0,
                    },
                decreases i,
            {
                let candidate = self.visible_rows[i - 1];
                if candidate.depth < depth {
                    break;
                }
                if candidate.depth == depth {
                    let cur_parent = data.parent(node_id);
                    let cand_parent = data.parent(candidate.node_id);
                    let same = match (cur_parent, cand_parent) {
                        (Some(a), Some(b)) => a == b,
                        (None, None) => true,
                        _ => false,
                    };
                    assert(same == (parent_spec(ns, node_id) == parent_spec(ns, candidate.node_id)));
                    if same {
                        self.cursor = i - 1;
                    }
                    break;
                }
                i -= 1;
            }
        }
    }

    /// Move the cursor down by `page_size` rows, clamped at the last row.
    pub fn page_down(&mut self, page_size: usize)
        requires
            old(self)@.rows.len() == 0 || old(self).cursor + page_size <= usize::MAX,
        ensures
            final(self)@ == page_down_spec(old(self)@, page_size as int),
    {
        if self.visible_rows.len() > 0 {
            let last = self.visible_rows.len() - 1;
            self.cursor = if self.cursor + page_size < last { self.cursor + page_size } else { last };
        }
    }

    /// Move the cursor up by `page_size` rows, clamped at row 0.
    pub fn page_up(&mut self, page_size: usize)
        ensures
            final(self)@ == page_up_spec(old(self)@, page_size as int),
    {
        self.cursor = if self.cursor > page_size { self.cursor - page_size } else { 0 };
    }

    /// Adjust the scroll offset so that the cursor lies in the viewport.
    pub fn ensure_cursor_visible(&mut self, viewport_height: usize)
        requires
            cursor_visible_ok(old(self)@, viewport_height as int),
        ensures
            final(self)@ == cursor_visible_spec(old(self)@, viewport_height as int),
    {
        if viewport_height == 0 {
            return;
        }
        if self.cursor < self.scroll_offset {
            self.scroll_offset = self.cursor;
        } else if self.cursor >= self.scroll_offset + viewport_height {
            self.scroll_offset = self.cursor + 1 - viewport_height;
        }
    }

    /// Node id at the cursor, if any.
    pub fn cursor_node_id(&self) -> (r: Option<NodeId>)
        ensures
            r == (if on_row(self@) { Some(cur_row(self@).node_id) } else { None }),
    {
        if self.cursor < self.visible_rows.len() {
            Some(self.visible_rows[self.cursor].node_id)
        } else {
            None
        }
    }

    /// Apply an action; `Select` reports the node under the cursor.
    pub fn apply(&mut self, action: TreeAction, data: &SimpleTree, viewport_height: usize) -> (selected: Option<NodeId>)
        requires
            forest_wf(data.entries()),
            apply_ok(old(self)@, action, data.entries(), viewport_height as int),
        ensures
            final(self)@ == cursor_visible_spec(action_spec(old(self)@, action, data.entries(), viewport_height as int), viewport_height as int),
            selected == (if action is Select && on_row(old(self)@) { Some(cur_row(old(self)@).node_id) } else { None }),
    {
        let mut selected = None;
        match action {
            TreeAction::Up => self.move_up(),
            TreeAction::Down => self.move_down(),
            TreeAction::First => self.jump_first(),
            TreeAction::Last => self.jump_last(),
            TreeAction::Expand => self.expand(data),
            TreeAction::Collapse => self.collapse(data),
            TreeAction::Toggle => self.toggle(data),
            TreeAction::Parent => self.navigate_parent(data),
            TreeAction::FirstChild => self.navigate_first_child(data),
            TreeAction::NextSibling => self.next_sibling(data),
            TreeAction::PrevSibling => self.prev_sibling(data),
            TreeAction::PageUp => self.page_up(viewport_height),
            TreeAction::PageDown => self.page_down(viewport_height),
            TreeAction::Select => {
                selected = self.cursor_node_id();
            },
        }
        self.ensure_cursor_visible(viewport_height);
        selected
    }

    /// Summary of the rows and the cursor row.
    pub fn info(&self) -> (r: TreeInfo)
        ensures
            r.visible_count == self@.rows.len(),
            r.cursor_node_id == (if on_row(self@) { Some(cur_row(self@).node_id) } else { None }),
            r.cursor_depth == (if on_row(self@) { Some(cur_row(self@).depth) } else { None }),
            r.cursor_is_leaf == (if on_row(self@) { Some(!cur_row(self@).has_children) } else { None }),
    {
        if self.cursor < self.visible_rows.len() {
            let row = self.visible_rows[self.cursor];
            TreeInfo {
                visible_count: self.visible_rows.len(),
                cursor_node_id: Some(row.node_id),
                cursor_depth: Some(row.depth),
                cursor_is_leaf: Some(!row.has_children),
            }
        } else {
            TreeInfo { visible_count: self.visible_rows.len(), cursor_node_id: None, cursor_depth: None, cursor_is_leaf: None }
        }
    }
}

} // verus!
