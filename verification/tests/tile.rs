use rat_widgets::selection::Area;
use rat_widgets::tile::layout::layout_with_sizes;
use rat_widgets::tile::nav;
use rat_widgets::tile::strip::{Strip, WindowId, WindowSpan};
use rat_widgets::tile::types::{Axis, SizeConstraint, StripConfig};

fn dflt() -> SizeConstraint {
    SizeConstraint::default()
}

fn ids_of(strip: &Strip, col: usize) -> Vec<WindowId> {
    strip.columns()[col].windows().iter().map(|w| w.id()).collect()
}

#[test]
fn strip_config_default_values() {
    let config = StripConfig::default();
    assert_eq!(config.axis, Axis::Horizontal);
    assert_eq!(config.column_gap, 1);
    assert_eq!(config.window_gap, 0);
}

#[test]
fn default_constraint_is_unit_proportion() {
    assert_eq!(SizeConstraint::default(), SizeConstraint::Proportion(1.0f32.to_bits()));
}

#[test]
fn insert_creates_intervening_columns() {
    let mut strip = Strip::new(StripConfig::default());
    let _id = strip.insert_window(3, 0, dflt(), dflt());
    assert_eq!(strip.column_count(), 4);
    assert_eq!(strip.columns()[0].window_count(), 0);
    assert_eq!(strip.columns()[3].window_count(), 1);
}

#[test]
fn insert_at_stack_position() {
    let mut strip = Strip::new(StripConfig::default());
    let a = strip.insert_window(0, 0, dflt(), dflt());
    let b = strip.insert_window(0, 100, dflt(), dflt());
    let c = strip.insert_window(0, 1, dflt(), dflt());
    assert_eq!(ids_of(&strip, 0), vec![a, c, b]);
}

#[test]
fn remove_cleans_up_empty_column() {
    let mut strip = Strip::new(StripConfig::default());
    let a = strip.insert_window(0, 0, dflt(), dflt());
    let _b = strip.insert_window(1, 0, dflt(), dflt());
    assert_eq!(strip.column_count(), 2);
    strip.remove_window(a);
    assert_eq!(strip.column_count(), 1);
}

#[test]
fn remove_nonexistent_is_noop() {
    let mut strip = Strip::new(StripConfig::default());
    let _a = strip.insert_window(0, 0, dflt(), dflt());
    // An id this strip never issued: the second id of another strip.
    let mut other = Strip::new(StripConfig::default());
    let _x = other.insert_window(0, 0, dflt(), dflt());
    let foreign = other.insert_window(0, 0, dflt(), dflt());
    assert!(!strip.remove_window(foreign));
    assert_eq!(strip.column_count(), 1);
}

#[test]
fn move_window_across_columns() {
    let mut strip = Strip::new(StripConfig::default());
    let a = strip.insert_window(0, 0, dflt(), dflt());
    let _b = strip.insert_window(1, 0, dflt(), dflt());
    assert!(strip.move_window(a, 1, 0));
    assert_eq!(strip.column_count(), 1);
    assert_eq!(strip.columns()[0].windows()[0].id(), a);
}

#[test]
fn move_window_within_column() {
    let mut strip = Strip::new(StripConfig::default());
    let a = strip.insert_window(0, 0, dflt(), dflt());
    let b = strip.insert_window(0, 1, dflt(), dflt());
    let c = strip.insert_window(0, 2, dflt(), dflt());
    strip.move_window(b, 0, 0);
    assert_eq!(ids_of(&strip, 0), vec![b, a, c]);
}

#[test]
fn move_unknown_window_is_refused() {
    let mut strip = Strip::new(StripConfig::default());
    let a = strip.insert_window(0, 0, dflt(), dflt());
    strip.remove_window(a);
    assert!(!strip.move_window(a, 0, 0));
    assert_eq!(strip.column_count(), 0);
}

#[test]
fn move_window_to_new_far_column() {
    let mut strip = Strip::new(StripConfig::default());
    let a = strip.insert_window(0, 0, dflt(), dflt());
    let b = strip.insert_window(1, 0, dflt(), dflt());
    // Column 0 empties and goes, so target 3 becomes 2.
    assert!(strip.move_window(a, 3, 0));
    assert_eq!(strip.column_count(), 3);
    assert_eq!(ids_of(&strip, 0), vec![b]);
    assert_eq!(strip.columns()[1].window_count(), 0);
    assert_eq!(ids_of(&strip, 2), vec![a]);
}

#[test]
fn resize_window_updates_constraints() {
    let mut strip = Strip::new(StripConfig::default());
    let a = strip.insert_window(0, 0, SizeConstraint::Fixed(10), SizeConstraint::Fixed(5));
    let one = SizeConstraint::Proportion(1.0f32.to_bits());
    strip.resize_window(a, one, one);
    let (col, idx) = strip.find_window(a).unwrap();
    let w = &strip.columns()[col].windows()[idx];
    assert_eq!(w.width_constraint, one);
}

#[test]
fn resize_column_checks_index() {
    let mut strip = Strip::new(StripConfig::default());
    let _a = strip.insert_window(0, 0, dflt(), dflt());
    assert!(strip.resize_column(0, SizeConstraint::Fixed(20)));
    assert_eq!(strip.columns()[0].width_constraint, SizeConstraint::Fixed(20));
    assert!(!strip.resize_column(1, SizeConstraint::Fixed(20)));
}

#[test]
fn insert_column_shifts_right() {
    let mut strip = Strip::new(StripConfig::default());
    let a = strip.insert_window(0, 0, dflt(), dflt());
    let b = strip.insert_window(1, 0, dflt(), dflt());
    let c = strip.insert_column(1, SizeConstraint::Fixed(10), Some((dflt(), dflt())));
    assert!(c.is_some());
    assert_eq!(strip.column_count(), 3);
    assert_eq!(strip.columns()[2].windows()[0].id(), b);
    assert_eq!(strip.columns()[0].windows()[0].id(), a);
}

#[test]
fn insert_empty_column_past_end() {
    let mut strip = Strip::new(StripConfig::default());
    let _a = strip.insert_window(0, 0, dflt(), dflt());
    let r = strip.insert_column(9, SizeConstraint::Fixed(7), None);
    assert!(r.is_none());
    assert_eq!(strip.column_count(), 2);
    assert_eq!(strip.columns()[1].window_count(), 0);
    assert_eq!(strip.columns()[1].width_constraint, SizeConstraint::Fixed(7));
}

#[test]
fn ids_never_reused() {
    let mut strip = Strip::new(StripConfig::default());
    let a = strip.insert_window(0, 0, dflt(), dflt());
    strip.remove_window(a);
    let b = strip.insert_window(0, 0, dflt(), dflt());
    assert_ne!(a, b);
}

#[test]
fn focus_up_down() {
    let mut strip = Strip::new(StripConfig { column_gap: 0, window_gap: 0, ..Default::default() });
    let one = SizeConstraint::Proportion(1.0f32.to_bits());
    let a = strip.insert_window(0, 0, dflt(), one);
    let b = strip.insert_window(0, 1, dflt(), one);
    let c = strip.insert_window(0, 2, dflt(), one);

    strip.focus_set(a);
    nav::focus_down(&mut strip);
    assert_eq!(strip.focused(), Some(b));
    nav::focus_down(&mut strip);
    assert_eq!(strip.focused(), Some(c));
    nav::focus_down(&mut strip);
    assert_eq!(strip.focused(), Some(c));

    nav::focus_up(&mut strip);
    assert_eq!(strip.focused(), Some(b));
}

#[test]
fn focus_first_last() {
    let mut strip = Strip::new(StripConfig::default());
    let a = strip.insert_window(0, 0, dflt(), dflt());
    let _b = strip.insert_window(1, 0, dflt(), dflt());
    let c = strip.insert_window(2, 0, dflt(), dflt());

    nav::focus_last(&mut strip);
    assert_eq!(strip.focused(), Some(c));
    nav::focus_first(&mut strip);
    assert_eq!(strip.focused(), Some(a));
}

#[test]
fn focus_first_empty_strip() {
    let mut strip = Strip::new(StripConfig::default());
    nav::focus_first(&mut strip);
    assert_eq!(strip.focused(), None);
}

#[test]
fn focus_first_skips_empty_columns() {
    let mut strip = Strip::new(StripConfig::default());
    let a = strip.insert_window(2, 0, dflt(), dflt());
    let _b = strip.insert_window(2, 1, dflt(), dflt());
    nav::focus_first(&mut strip);
    assert_eq!(strip.focused(), Some(a));
}

#[test]
fn focus_removal_fallback() {
    let mut strip = Strip::new(StripConfig::default());
    let a = strip.insert_window(0, 0, dflt(), dflt());
    let b = strip.insert_window(0, 1, dflt(), dflt());
    strip.focus_set(a);
    strip.remove_window(a);
    assert_eq!(strip.focused(), Some(b));
}

#[test]
fn focus_removal_fallback_previous_window() {
    let mut strip = Strip::new(StripConfig::default());
    let a = strip.insert_window(0, 0, dflt(), dflt());
    let b = strip.insert_window(0, 1, dflt(), dflt());
    strip.focus_set(b);
    strip.remove_window(b);
    assert_eq!(strip.focused(), Some(a));
}

#[test]
fn focus_removal_fallback_adjacent_column() {
    let mut strip = Strip::new(StripConfig::default());
    let a = strip.insert_window(0, 0, dflt(), dflt());
    let b = strip.insert_window(1, 0, dflt(), dflt());
    strip.focus_set(a);
    strip.remove_window(a);
    assert_eq!(strip.focused(), Some(b));
}

#[test]
fn focus_removal_fallback_left_column() {
    let mut strip = Strip::new(StripConfig::default());
    let a = strip.insert_window(0, 0, dflt(), dflt());
    let b = strip.insert_window(1, 0, dflt(), dflt());
    strip.focus_set(b);
    strip.remove_window(b);
    assert_eq!(strip.focused(), Some(a));
}

#[test]
fn focus_removal_empty_strip() {
    let mut strip = Strip::new(StripConfig::default());
    let a = strip.insert_window(0, 0, dflt(), dflt());
    strip.focus_set(a);
    strip.remove_window(a);
    assert_eq!(strip.focused(), None);
}

#[test]
fn focus_set_ignores_unknown_window() {
    let mut strip = Strip::new(StripConfig::default());
    let a = strip.insert_window(0, 0, dflt(), dflt());
    strip.focus_set(a);
    strip.remove_window(a);
    let b = strip.insert_window(0, 0, dflt(), dflt());
    strip.focus_set(a);
    assert_eq!(strip.focused(), None);
    strip.focus_set(b);
    assert_eq!(strip.focused(), Some(b));
    strip.focus_clear();
    assert_eq!(strip.focused(), None);
}

fn span(id: WindowId, start: u16, size: u16) -> WindowSpan {
    WindowSpan { id, start, size }
}

#[test]
fn primary_focus_moves_between_columns() {
    let mut strip = Strip::new(StripConfig { column_gap: 0, window_gap: 0, ..Default::default() });
    let a = strip.insert_window(0, 0, dflt(), dflt());
    let b = strip.insert_window(1, 0, dflt(), dflt());
    let spans = vec![span(a, 0, 24), span(b, 0, 24)];

    strip.focus_set(a);
    nav::focus_primary_with_spans(&mut strip, true, &spans);
    assert_eq!(strip.focused(), Some(b));
    nav::focus_primary_with_spans(&mut strip, false, &spans);
    assert_eq!(strip.focused(), Some(a));
    // At the first column nothing moves.
    nav::focus_primary_with_spans(&mut strip, false, &spans);
    assert_eq!(strip.focused(), Some(a));
}

#[test]
fn primary_focus_keeps_affinity() {
    let mut strip = Strip::new(StripConfig { column_gap: 0, window_gap: 0, ..Default::default() });
    let a = strip.insert_window(0, 0, dflt(), dflt());
    let b = strip.insert_window(1, 0, dflt(), SizeConstraint::Fixed(5));
    let c1 = strip.insert_window(2, 0, dflt(), dflt());
    let c2 = strip.insert_window(2, 1, dflt(), dflt());
    // a spans all 24 rows (center 12), b the top 5, c1 and c2 halves.
    let spans = vec![span(a, 0, 24), span(b, 0, 5), span(c1, 0, 12), span(c2, 12, 12)];

    strip.focus_set(a);
    nav::focus_primary_with_spans(&mut strip, true, &spans);
    assert_eq!(strip.focused(), Some(b));
    // The affinity stays at row 12: c1 and c2 are as near, c2 holds row 12.
    nav::focus_primary_with_spans(&mut strip, true, &spans);
    assert_eq!(strip.focused(), Some(c2));
}

#[test]
fn primary_focus_without_focus_takes_first_window() {
    let mut strip = Strip::new(StripConfig::default());
    let a = strip.insert_window(0, 0, dflt(), dflt());
    let _b = strip.insert_window(1, 0, dflt(), dflt());
    nav::focus_primary_with_spans(&mut strip, true, &[]);
    assert_eq!(strip.focused(), Some(a));
}


fn area(x: u16, y: u16, width: u16, height: u16) -> Area {
    Area { x, y, width, height }
}

#[test]
fn layout_of_two_columns() {
    let mut strip = Strip::new(StripConfig::default());
    let a = strip.insert_window(0, 0, dflt(), dflt());
    let b = strip.insert_window(1, 0, dflt(), dflt());
    let result = layout_with_sizes(&strip, &vec![30, 40], &vec![vec![24], vec![24]], 80, 24);
    assert_eq!(result.window_rects, vec![(a, area(0, 0, 30, 24)), (b, area(31, 0, 40, 24))]);
    assert_eq!(result.strip_extent, 71);
    assert_eq!(result.scroll_offset, 0);
    assert_eq!(result.visible.len(), 2);
    assert!(result.visible.iter().all(|v| v.fully_visible));
}

#[test]
fn layout_of_stacked_windows_with_gap() {
    let mut strip = Strip::new(StripConfig { window_gap: 1, ..Default::default() });
    let a = strip.insert_window(0, 0, dflt(), dflt());
    let b = strip.insert_window(0, 1, dflt(), dflt());
    let result = layout_with_sizes(&strip, &vec![20], &vec![vec![11, 12]], 80, 24);
    assert_eq!(result.window_rects, vec![(a, area(0, 0, 20, 11)), (b, area(0, 12, 20, 12))]);
}

#[test]
fn layout_vertical_axis_swaps_coordinates() {
    let mut strip = Strip::new(StripConfig { axis: Axis::Vertical, column_gap: 0, window_gap: 0 });
    let a = strip.insert_window(0, 0, dflt(), dflt());
    let result = layout_with_sizes(&strip, &vec![10], &vec![vec![40]], 40, 24);
    assert_eq!(result.window_rects, vec![(a, area(0, 0, 40, 10))]);
}

#[test]
fn layout_centers_focused_window() {
    let mut strip = Strip::new(StripConfig { column_gap: 0, ..Default::default() });
    let mut ids = Vec::new();
    for c in 0..10 {
        ids.push(strip.insert_window(c, 0, dflt(), dflt()));
    }
    strip.focus_set(ids[5]);
    let widths = vec![30u16; 10];
    let heights = vec![vec![24u16]; 10];
    let result = layout_with_sizes(&strip, &widths, &heights, 80, 24);
    assert_eq!(result.strip_extent, 300);
    assert_eq!(result.scroll_offset, 125);
    let shown: Vec<WindowId> = result.visible.iter().map(|v| v.id).collect();
    assert_eq!(shown, vec![ids[4], ids[5], ids[6]]);
    assert_eq!(result.visible[0].rect, area(0, 0, 25, 24));
    assert!(!result.visible[0].fully_visible);
    assert!(result.visible[1].fully_visible);
    assert_eq!(result.visible[2].rect, area(55, 0, 25, 24));
}

#[test]
fn layout_manual_offset_is_clamped() {
    let mut strip = Strip::new(StripConfig { column_gap: 0, ..Default::default() });
    for c in 0..4 {
        strip.insert_window(c, 0, dflt(), dflt());
    }
    strip.set_scroll_offset(500);
    let result = layout_with_sizes(&strip, &vec![30; 4], &vec![vec![24]; 4], 80, 24);
    assert_eq!(result.scroll_offset, 40);
}

#[test]
fn layout_of_empty_strip() {
    let strip = Strip::new(StripConfig::default());
    let result = layout_with_sizes(&strip, &vec![], &vec![], 80, 24);
    assert!(result.window_rects.is_empty());
    assert_eq!(result.strip_extent, 0);
    assert!(result.visible.is_empty());
}
