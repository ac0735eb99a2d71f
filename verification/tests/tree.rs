use rat_widgets::tree::{default_binding, parse_tree_action, SimpleTree, TreeAction, TreeKey, TreeState};

fn sample_tree() -> SimpleTree {
    SimpleTree::new(vec![
        (0, None, "root".into()),
        (1, Some(0), "a".into()),
        (2, Some(0), "b".into()),
        (3, Some(1), "a1".into()),
        (4, Some(1), "a2".into()),
        (5, Some(2), "b1".into()),
    ])
}

#[test]
fn new_state_starts_at_zero() {
    let tree = sample_tree();
    let state = TreeState::new(&tree);
    assert_eq!(state.cursor, 0);
    assert_eq!(state.scroll_offset, 0);
    assert!(state.expanded.is_empty());
    assert_eq!(state.visible_rows.len(), 1);
}

#[test]
fn expand_and_collapse() {
    let tree = sample_tree();
    let mut state = TreeState::new(&tree);

    state.expand(&tree);
    assert_eq!(state.visible_rows.len(), 3);
    assert!(state.expanded.contains(&0));

    state.collapse(&tree);
    assert_eq!(state.visible_rows.len(), 1);
    assert!(!state.expanded.contains(&0));
}

#[test]
fn expand_leaf_is_noop() {
    let tree = sample_tree();
    let mut state = TreeState::new(&tree);
    state.expand(&tree);
    state.cursor = 1;
    state.expand(&tree);
    state.cursor = 2;
    let prev_len = state.visible_rows.len();
    state.expand(&tree);
    assert_eq!(state.visible_rows.len(), prev_len);
}

#[test]
fn toggle_flips() {
    let tree = sample_tree();
    let mut state = TreeState::new(&tree);

    state.toggle(&tree);
    assert!(state.expanded.contains(&0));
    assert_eq!(state.visible_rows.len(), 3);

    state.toggle(&tree);
    assert!(!state.expanded.contains(&0));
    assert_eq!(state.visible_rows.len(), 1);
}

#[test]
fn move_up_down_clamp() {
    let tree = sample_tree();
    let mut state = TreeState::new(&tree);
    state.expand(&tree);

    state.move_down();
    assert_eq!(state.cursor, 1);
    state.move_down();
    assert_eq!(state.cursor, 2);
    state.move_down();
    assert_eq!(state.cursor, 2);

    state.move_up();
    assert_eq!(state.cursor, 1);
    state.move_up();
    assert_eq!(state.cursor, 0);
    state.move_up();
    assert_eq!(state.cursor, 0);
}

#[test]
fn jump_first_last() {
    let tree = sample_tree();
    let mut state = TreeState::new(&tree);
    state.expand(&tree);

    state.jump_last();
    assert_eq!(state.cursor, 2);

    state.jump_first();
    assert_eq!(state.cursor, 0);
}

#[test]
fn navigate_parent() {
    let tree = sample_tree();
    let mut state = TreeState::new(&tree);
    state.expanded.insert(0);
    state.expanded.insert(1);
    state.recompute(&tree);

    state.cursor = 2;
    state.navigate_parent(&tree);
    assert_eq!(state.cursor, 1);

    state.navigate_parent(&tree);
    assert_eq!(state.cursor, 0);

    state.navigate_parent(&tree);
    assert_eq!(state.cursor, 0);
}

#[test]
fn navigate_first_child() {
    let tree = sample_tree();
    let mut state = TreeState::new(&tree);

    state.navigate_first_child(&tree);
    assert!(state.expanded.contains(&0));
    assert_eq!(state.cursor_node_id(), Some(1));
}

#[test]
fn navigate_first_child_leaf_noop() {
    let tree = sample_tree();
    let mut state = TreeState::new(&tree);
    state.expanded.insert(0);
    state.expanded.insert(1);
    state.recompute(&tree);

    state.cursor = 2;
    state.navigate_first_child(&tree);
    assert_eq!(state.cursor, 2);
}

#[test]
fn next_prev_sibling() {
    let tree = sample_tree();
    let mut state = TreeState::new(&tree);
    state.expanded.insert(0);
    state.expanded.insert(1);
    state.recompute(&tree);

    state.cursor = 2;
    state.next_sibling(&tree);
    assert_eq!(state.cursor_node_id(), Some(4));

    state.next_sibling(&tree);
    assert_eq!(state.cursor_node_id(), Some(4));

    state.prev_sibling(&tree);
    assert_eq!(state.cursor_node_id(), Some(3));

    state.prev_sibling(&tree);
    assert_eq!(state.cursor_node_id(), Some(3));
}

#[test]
fn sibling_skips_descendants() {
    let tree = sample_tree();
    let mut state = TreeState::new(&tree);
    state.expanded.insert(0);
    state.expanded.insert(1);
    state.recompute(&tree);

    state.cursor = 1;
    state.next_sibling(&tree);
    assert_eq!(state.cursor_node_id(), Some(2));

    state.prev_sibling(&tree);
    assert_eq!(state.cursor_node_id(), Some(1));
}

#[test]
fn page_up_down() {
    let tree = SimpleTree::new((0..20).map(|i| (i, None, format!("n{i}"))).collect());
    let mut state = TreeState::new(&tree);
    assert_eq!(state.visible_rows.len(), 20);

    state.page_down(5);
    assert_eq!(state.cursor, 5);

    state.page_down(5);
    assert_eq!(state.cursor, 10);

    state.page_up(3);
    assert_eq!(state.cursor, 7);

    state.page_up(100);
    assert_eq!(state.cursor, 0);

    state.page_down(100);
    assert_eq!(state.cursor, 19);
}

#[test]
fn scroll_follows_cursor() {
    let tree = SimpleTree::new((0..20).map(|i| (i, None, format!("n{i}"))).collect());
    let mut state = TreeState::new(&tree);

    state.cursor = 15;
    state.ensure_cursor_visible(10);
    assert_eq!(state.scroll_offset, 6);

    state.cursor = 3;
    state.ensure_cursor_visible(10);
    assert_eq!(state.scroll_offset, 3);
}

#[test]
fn apply_dispatches_select() {
    let tree = sample_tree();
    let mut state = TreeState::new(&tree);

    let result = state.apply(TreeAction::Select, &tree, 20);
    assert_eq!(result, Some(0));

    state.apply(TreeAction::Expand, &tree, 20);
    state.apply(TreeAction::Down, &tree, 20);
    let result = state.apply(TreeAction::Select, &tree, 20);
    assert_eq!(result, Some(1));
}

#[test]
fn apply_non_select_returns_none() {
    let tree = sample_tree();
    let mut state = TreeState::new(&tree);

    assert_eq!(state.apply(TreeAction::Down, &tree, 20), None);
    assert_eq!(state.apply(TreeAction::Up, &tree, 20), None);
    assert_eq!(state.apply(TreeAction::Toggle, &tree, 20), None);
}

#[test]
fn cursor_adjust_on_collapse() {
    let tree = sample_tree();
    let mut state = TreeState::new(&tree);
    state.expanded.insert(0);
    state.expanded.insert(1);
    state.recompute(&tree);

    state.cursor = 2;
    state.cursor = 0;
    state.toggle(&tree);
    assert_eq!(state.visible_rows.len(), 1);
    assert_eq!(state.cursor, 0);
}

#[test]
fn empty_tree_operations() {
    let tree = SimpleTree::new(vec![]);
    let mut state = TreeState::new(&tree);

    assert_eq!(state.cursor, 0);
    assert!(state.visible_rows.is_empty());

    state.move_up();
    state.move_down();
    state.jump_first();
    state.jump_last();
    state.expand(&tree);
    state.collapse(&tree);
    state.toggle(&tree);
    state.navigate_parent(&tree);
    state.navigate_first_child(&tree);
    state.next_sibling(&tree);
    state.prev_sibling(&tree);
    state.page_up(10);
    state.page_down(10);
    state.ensure_cursor_visible(10);

    assert_eq!(state.cursor_node_id(), None);
    assert_eq!(state.apply(TreeAction::Select, &tree, 20), None);
}

#[test]
fn parse_tree_action_all_variants() {
    assert_eq!(parse_tree_action("up"), Some(TreeAction::Up));
    assert_eq!(parse_tree_action("down"), Some(TreeAction::Down));
    assert_eq!(parse_tree_action("expand"), Some(TreeAction::Expand));
    assert_eq!(parse_tree_action("collapse"), Some(TreeAction::Collapse));
    assert_eq!(parse_tree_action("toggle"), Some(TreeAction::Toggle));
    assert_eq!(parse_tree_action("parent"), Some(TreeAction::Parent));
    assert_eq!(parse_tree_action("first_child"), Some(TreeAction::FirstChild));
    assert_eq!(parse_tree_action("next_sibling"), Some(TreeAction::NextSibling));
    assert_eq!(parse_tree_action("prev_sibling"), Some(TreeAction::PrevSibling));
    assert_eq!(parse_tree_action("first"), Some(TreeAction::First));
    assert_eq!(parse_tree_action("last"), Some(TreeAction::Last));
    assert_eq!(parse_tree_action("page_up"), Some(TreeAction::PageUp));
    assert_eq!(parse_tree_action("page_down"), Some(TreeAction::PageDown));
    assert_eq!(parse_tree_action("select"), Some(TreeAction::Select));
}

#[test]
fn parse_tree_action_unknown() {
    assert_eq!(parse_tree_action("unknown"), None);
    assert_eq!(parse_tree_action("invalid_action"), None);
    assert_eq!(parse_tree_action(""), None);
    assert_eq!(parse_tree_action("Up"), None);
}

#[test]
fn tree_action_derive_traits() {
    let action1 = TreeAction::Up;
    let action2 = TreeAction::Up.clone();
    let action3 = TreeAction::Down;

    assert_eq!(action1, action2);
    assert_eq!(action1, action2);
    assert_ne!(action1, action3);

    let debug_str = format!("{:?}", action1);
    assert!(debug_str.contains("Up"));
}

#[test]
fn info_reports_cursor_row() {
    let tree = sample_tree();
    let mut state = TreeState::new(&tree);
    state.expand(&tree);
    state.move_down();
    let info = state.info();
    assert_eq!(info.visible_count, 3);
    assert_eq!(info.cursor_node_id, Some(1));
    assert_eq!(info.cursor_depth, Some(1));
    assert_eq!(info.cursor_is_leaf, Some(false));
}

#[test]
fn default_keymap_resolves_expected_keys() {
    let none = |k: TreeKey| default_binding(k, false, false, false);
    assert_eq!(none(TreeKey::Char('k')), Some(TreeAction::Up));
    assert_eq!(none(TreeKey::Up), Some(TreeAction::Up));
    assert_eq!(none(TreeKey::Char('j')), Some(TreeAction::Down));
    assert_eq!(none(TreeKey::Down), Some(TreeAction::Down));
    assert_eq!(none(TreeKey::Char('g')), Some(TreeAction::First));
    assert_eq!(default_binding(TreeKey::Char('G'), false, false, true), Some(TreeAction::Last));
    assert_eq!(none(TreeKey::Char('l')), Some(TreeAction::Expand));
    assert_eq!(none(TreeKey::Right), Some(TreeAction::Expand));
    assert_eq!(none(TreeKey::Char('h')), Some(TreeAction::Collapse));
    assert_eq!(none(TreeKey::Left), Some(TreeAction::Collapse));
    assert_eq!(none(TreeKey::Char(' ')), Some(TreeAction::Toggle));
    assert_eq!(none(TreeKey::Char('p')), Some(TreeAction::Parent));
    assert_eq!(none(TreeKey::Enter), Some(TreeAction::Select));
    assert_eq!(default_binding(TreeKey::Char('J'), false, false, true), Some(TreeAction::NextSibling));
    assert_eq!(default_binding(TreeKey::Char('K'), false, false, true), Some(TreeAction::PrevSibling));
    assert_eq!(default_binding(TreeKey::Char('d'), true, false, false), Some(TreeAction::PageDown));
    assert_eq!(none(TreeKey::PageDown), Some(TreeAction::PageDown));
    assert_eq!(default_binding(TreeKey::Char('u'), true, false, false), Some(TreeAction::PageUp));
    assert_eq!(none(TreeKey::PageUp), Some(TreeAction::PageUp));
    assert_eq!(none(TreeKey::Char('o')), Some(TreeAction::FirstChild));
}

#[test]
fn default_keymap_unmapped_keys() {
    assert_eq!(default_binding(TreeKey::Char('x'), false, false, false), None);
    assert_eq!(default_binding(TreeKey::Char('q'), false, false, false), None);
    assert_eq!(default_binding(TreeKey::Char('k'), false, true, false), None);
    assert_eq!(default_binding(TreeKey::Char('d'), false, false, false), None);
}

#[test]
fn checked_tree_rejects_bad_entries() {
    assert!(SimpleTree::checked(vec![(0, None, "a".into()), (1, Some(0), "b".into())]).is_some());
    assert!(SimpleTree::checked(vec![(1, Some(0), "b".into()), (0, None, "a".into())]).is_none());
    assert!(SimpleTree::checked(vec![(0, None, "a".into()), (0, None, "b".into())]).is_none());
    assert!(SimpleTree::checked(vec![(0, Some(0), "a".into())]).is_none());
    assert!(SimpleTree::checked(vec![(3, Some(9), "orphan".into())]).is_some());
}
