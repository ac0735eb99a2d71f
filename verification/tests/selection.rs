use rat_widgets::selection::{clipboard_osc52, screen_to_text_pos, visual_to_logical, Area, TextPos, TextSelection};

#[test]
fn test_text_pos_ordering() {
    let a = TextPos::new(0, 5);
    let b = TextPos::new(1, 0);
    let c = TextPos::new(0, 10);
    assert!(a < b);
    assert!(a < c);
    assert!(b > c);
}

#[test]
fn test_selection_ordered() {
    let sel = TextSelection { anchor: TextPos::new(5, 10), cursor: TextPos::new(2, 3), active: false };
    let (start, end) = sel.ordered();
    assert_eq!(start, TextPos::new(2, 3));
    assert_eq!(end, TextPos::new(5, 10));
}

#[test]
fn test_extract_single_line() {
    let lines = vec!["Hello, world!".to_string()];
    let sel = TextSelection { anchor: TextPos::new(0, 7), cursor: TextPos::new(0, 12), active: false };
    assert_eq!(sel.extract_text(&lines), "world");
}

#[test]
fn test_extract_multi_line() {
    let lines = vec!["First line".to_string(), "Second line".to_string(), "Third line".to_string()];
    let sel = TextSelection { anchor: TextPos::new(0, 6), cursor: TextPos::new(2, 5), active: false };
    assert_eq!(sel.extract_text(&lines), "line\nSecond line\nThird");
}

#[test]
fn test_extract_empty_selection() {
    let lines = vec!["Hello".to_string()];
    let sel = TextSelection { anchor: TextPos::new(0, 3), cursor: TextPos::new(0, 3), active: false };
    assert_eq!(sel.extract_text(&lines), "");
}

#[test]
fn test_screen_to_text_pos_no_wrapping() {
    let area = Area { x: 0, y: 0, width: 80, height: 24 };
    let lines: Vec<String> = (0..20).map(|i| format!("line {}", i)).collect();

    let pos = screen_to_text_pos(5, 3, area, 10, &lines);
    assert_eq!(pos, Some(TextPos::new(12, 4)));

    let pos = screen_to_text_pos(0, 0, area, 0, &lines);
    assert_eq!(pos, None);
}

#[test]
fn test_screen_to_text_pos_with_wrapping() {
    let area = Area { x: 0, y: 0, width: 22, height: 24 };
    let lines = vec!["a]".repeat(10), "b]".repeat(20), "c]".repeat(10)];

    let pos = screen_to_text_pos(5, 1, area, 0, &lines);
    assert_eq!(pos, Some(TextPos::new(0, 4)));

    let pos = screen_to_text_pos(5, 2, area, 0, &lines);
    assert_eq!(pos, Some(TextPos::new(1, 4)));

    let pos = screen_to_text_pos(5, 3, area, 0, &lines);
    assert_eq!(pos, Some(TextPos::new(1, 24)));

    let pos = screen_to_text_pos(5, 4, area, 0, &lines);
    assert_eq!(pos, Some(TextPos::new(2, 4)));
}

#[test]
fn test_visual_to_logical_basic() {
    let lines = vec!["hello".to_string(), "world".to_string(), "test".to_string()];
    assert_eq!(visual_to_logical(0, &lines, 80), Some((0, 0)));
    assert_eq!(visual_to_logical(1, &lines, 80), Some((1, 0)));
    assert_eq!(visual_to_logical(2, &lines, 80), Some((2, 0)));
    assert_eq!(visual_to_logical(5, &lines, 80), Some((2, 0)));
}

#[test]
fn test_visual_to_logical_with_wrapping() {
    let lines = vec!["a".repeat(10), "b".repeat(50), "c".repeat(10)];
    assert_eq!(visual_to_logical(0, &lines, 20), Some((0, 0)));
    assert_eq!(visual_to_logical(1, &lines, 20), Some((1, 0)));
    assert_eq!(visual_to_logical(2, &lines, 20), Some((1, 20)));
    assert_eq!(visual_to_logical(3, &lines, 20), Some((1, 40)));
    assert_eq!(visual_to_logical(4, &lines, 20), Some((2, 0)));
}

#[test]
fn test_col_range_for_row() {
    let sel = TextSelection { anchor: TextPos::new(1, 5), cursor: TextPos::new(3, 8), active: false };
    assert_eq!(sel.col_range_for_row(0, 20), None);
    assert_eq!(sel.col_range_for_row(1, 20), Some((5, 20)));
    assert_eq!(sel.col_range_for_row(2, 15), Some((0, 15)));
    assert_eq!(sel.col_range_for_row(3, 20), Some((0, 8)));
    assert_eq!(sel.col_range_for_row(4, 20), None);
}

#[test]
fn selection_lifecycle() {
    let mut sel = TextSelection::start(TextPos::new(2, 4));
    assert!(sel.active);
    assert!(sel.is_empty());
    sel.update(TextPos::new(1, 0));
    sel.finish();
    assert!(!sel.active);
    assert_eq!(sel.ordered(), (TextPos::new(1, 0), TextPos::new(2, 4)));
}

#[test]
fn extract_rounds_up_to_character_boundaries() {
    // "héllo": 'é' takes bytes 1..3; column 2 falls inside it.
    let lines = vec!["héllo".to_string()];
    let sel = TextSelection { anchor: TextPos::new(0, 2), cursor: TextPos::new(0, 6), active: false };
    assert_eq!(sel.extract_text(&lines), "llo");
}

#[test]
fn visual_to_logical_zero_width_and_empty() {
    let lines = vec!["a".to_string(), "b".to_string()];
    assert_eq!(visual_to_logical(7, &lines, 0), Some((1, 0)));
    assert_eq!(visual_to_logical(0, &[], 10), None);
}

#[test]
fn osc52_sequence_wraps_base64() {
    assert_eq!(clipboard_osc52("hi"), "\x1b]52;c;aGk=\x07");
}

#[test]
fn osc52_base64_groups_and_padding() {
    assert_eq!(clipboard_osc52("Man"), "\x1b]52;c;TWFu\x07");
    assert_eq!(clipboard_osc52("hello"), "\x1b]52;c;aGVsbG8=\x07");
    assert_eq!(clipboard_osc52("é?>"), "\x1b]52;c;w6k/Pg==\x07");
}

#[test]
fn col_range_start_clamped_to_line() {
    let sel = TextSelection { anchor: TextPos::new(1, 25), cursor: TextPos::new(3, 8), active: false };
    assert_eq!(sel.col_range_for_row(1, 20), Some((20, 20)));
    let one = TextSelection { anchor: TextPos::new(2, 25), cursor: TextPos::new(2, 30), active: false };
    assert_eq!(one.col_range_for_row(2, 20), None);
}
