use rat_widgets::sheet::cell::{CellAddr, CellError, CellRange};
use rat_widgets::sheet::edit_state::EditState;
use rat_widgets::sheet::event::{sheet_step, Action, ClipboardModel, SheetEffect, SheetModel};
use rat_widgets::sheet::nav::{
    cell_at_pixel, clear_selection, get_selection, move_down, move_end, move_end_all, move_home,
    move_home_all, move_left, move_page_down, move_page_up, move_right, move_tab, move_tab_back,
    move_up, start_selection, CursorState, GridShape, ScrollState, Selection,
};
use rat_widgets::sheet::org_table::{format_org_table, org_row_cells, org_table_rows, translate_formula, OrgCell};
use rat_widgets::sheet::render::{calculate_row_number_width, col_name, is_in_range, truncate_text};

// ── cell ──

#[test]
fn test_celladdr_parsing() {
    assert_eq!("A1".parse::<CellAddr>().unwrap(), CellAddr { col: 0, row: 0 });
    assert_eq!("B3".parse::<CellAddr>().unwrap(), CellAddr { col: 1, row: 2 });
    assert_eq!("AA1".parse::<CellAddr>().unwrap(), CellAddr { col: 26, row: 0 });
    assert_eq!("Z1".parse::<CellAddr>().unwrap(), CellAddr { col: 25, row: 0 });
    assert!("123".parse::<CellAddr>().is_err());
    assert!("".parse::<CellAddr>().is_err());
    assert!("1A".parse::<CellAddr>().is_err());
}

#[test]
fn test_celladdr_display_roundtrip() {
    let cases = vec![
        CellAddr { col: 0, row: 0 },
        CellAddr { col: 1, row: 2 },
        CellAddr { col: 26, row: 0 },
        CellAddr { col: 25, row: 0 },
        CellAddr { col: 51, row: 99 },
    ];
    for addr in cases {
        let display = addr.to_string();
        let parsed = display.parse::<CellAddr>().unwrap();
        assert_eq!(addr, parsed, "Failed roundtrip for {}", display);
    }
}

#[test]
fn test_cellrange_iteration() {
    let range = CellRange { start: CellAddr { col: 0, row: 0 }, end: CellAddr { col: 1, row: 1 } };
    let cells: Vec<CellAddr> = range.cells();
    assert_eq!(
        cells,
        vec![
            CellAddr { col: 0, row: 0 },
            CellAddr { col: 1, row: 0 },
            CellAddr { col: 0, row: 1 },
            CellAddr { col: 1, row: 1 },
        ]
    );
}

#[test]
fn test_cellrange_single_cell() {
    let range = CellRange { start: CellAddr { col: 0, row: 0 }, end: CellAddr { col: 0, row: 0 } };
    let cells: Vec<CellAddr> = range.cells();
    assert_eq!(cells, vec![CellAddr { col: 0, row: 0 }]);
}

#[test]
fn celladdr_parse_case_plus_and_limits() {
    assert_eq!(CellAddr::parse("b3"), Ok(CellAddr { col: 1, row: 2 }));
    assert_eq!(CellAddr::parse("A+7"), Ok(CellAddr { col: 0, row: 6 }));
    assert_eq!(CellAddr::parse("AZ100"), Ok(CellAddr { col: 51, row: 99 }));
    assert_eq!(CellAddr::parse("A0"), Err(()));
    assert_eq!(CellAddr::parse("A"), Err(()));
    assert_eq!(CellAddr::parse("A+"), Err(()));
    assert_eq!(CellAddr::parse("A1x"), Err(()));
    assert_eq!(CellAddr::parse("A-1"), Err(()));
    assert_eq!(CellAddr::parse("A99999999999999999999999"), Err(()));
}

#[test]
fn celladdr_text() {
    assert_eq!(CellAddr { col: 0, row: 0 }.to_string(), "A1");
    assert_eq!(CellAddr { col: 27, row: 9 }.to_string(), "AB10");
    assert_eq!(CellAddr { col: 701, row: 0 }.to_string(), "ZZ1");
    assert_eq!(CellAddr { col: 702, row: 0 }.to_string(), "AAA1");
    assert_eq!(CellAddr { col: 51, row: 99 }.to_string(), "AZ100");
    for col in [0usize, 25, 26, 701, 702, 18277, 18278, 1_000_000, usize::MAX] {
        let a = CellAddr { col, row: 41 };
        assert_eq!(CellAddr::parse(&a.to_string()), Ok(a));
    }
}

#[test]
fn range_walk_matches_cells() {
    let range = CellRange { start: CellAddr { col: 1, row: 2 }, end: CellAddr { col: 3, row: 3 } };
    let mut it = range.into_iter();
    let mut walked = Vec::new();
    while let Some(a) = it.next() {
        walked.push(a);
    }
    assert_eq!(walked, range.cells());
    assert_eq!(walked.len(), 6);
    let backwards = CellRange { start: CellAddr { col: 3, row: 0 }, end: CellAddr { col: 1, row: 1 } };
    assert_eq!(backwards.cells(), vec![CellAddr { col: 3, row: 0 }, CellAddr { col: 3, row: 1 }]);
    let empty = CellRange { start: CellAddr { col: 0, row: 2 }, end: CellAddr { col: 0, row: 1 } };
    assert!(empty.cells().is_empty());
}

#[test]
fn error_codes() {
    assert_eq!(CellError::DivByZero.to_string(), "#DIV/0!");
    assert_eq!(CellError::ValueError.to_string(), "#VALUE!");
    assert_eq!(CellError::CycleError.to_string(), "#CYCLE!");
    assert_eq!(CellError::RefError.to_string(), "#REF!");
    assert_eq!(CellError::ParseError.to_string(), "#PARSE!");
}

// ── nav ──

#[test]
fn test_cursor_state_new() {
    let cursor = CursorState::new();
    assert_eq!(cursor.position, CellAddr { col: 0, row: 0 });
    assert_eq!(cursor.anchor, None);
}

#[test]
fn test_scroll_state_ensure_visible() {
    let mut scroll = ScrollState::new();
    scroll.visible_cols = 5;
    scroll.visible_rows = 10;
    scroll.ensure_visible(CellAddr { col: 15, row: 5 });
    assert_eq!(scroll.offset_col, 11);
    scroll.ensure_visible(CellAddr { col: 5, row: 5 });
    assert_eq!(scroll.offset_col, 5);
    scroll.ensure_visible(CellAddr { col: 5, row: 25 });
    assert_eq!(scroll.offset_row, 16);
    scroll.ensure_visible(CellAddr { col: 5, row: 5 });
    assert_eq!(scroll.offset_row, 5);
}

#[test]
fn test_selection_start_clear() {
    let mut cursor = CursorState::new();
    cursor.position = CellAddr { col: 2, row: 3 };
    start_selection(&mut cursor);
    assert_eq!(cursor.anchor, Some(CellAddr { col: 2, row: 3 }));
    clear_selection(&mut cursor);
    assert_eq!(cursor.anchor, None);
}

#[test]
fn test_selection_range() {
    let mut cursor = CursorState::new();
    cursor.position = CellAddr { col: 2, row: 3 };
    cursor.anchor = Some(CellAddr { col: 0, row: 1 });
    let selection = get_selection(&cursor);
    match selection {
        Selection::Range(range) => {
            assert_eq!(range.start, CellAddr { col: 0, row: 1 });
            assert_eq!(range.end, CellAddr { col: 2, row: 3 });
        }
        _ => panic!("Expected range selection"),
    }
}

#[test]
fn test_selection_none() {
    let cursor = CursorState::new();
    let selection = get_selection(&cursor);
    assert_eq!(selection, Selection::NoSelection);
}

#[test]
fn test_mouse_hit_test_headers() {
    let scroll = ScrollState::new();
    let col_widths = vec![80, 80, 80];
    assert_eq!(cell_at_pixel(10, 50, &scroll, &col_widths, 20, 50, 30), None);
    assert_eq!(cell_at_pixel(100, 10, &scroll, &col_widths, 20, 50, 30), None);
}

#[test]
fn test_mouse_hit_test_grid() {
    let scroll = ScrollState::new();
    let col_widths = vec![80, 80, 80];
    assert_eq!(cell_at_pixel(60, 40, &scroll, &col_widths, 20, 50, 30), Some(CellAddr { col: 0, row: 0 }));
    assert_eq!(cell_at_pixel(140, 90, &scroll, &col_widths, 20, 50, 30), Some(CellAddr { col: 1, row: 3 }));
}

#[test]
fn mouse_hit_past_last_column_and_scrolled() {
    let mut scroll = ScrollState::new();
    let col_widths = vec![10, 10];
    assert_eq!(cell_at_pixel(100, 40, &scroll, &col_widths, 20, 50, 30), None);
    scroll.offset_row = 7;
    scroll.offset_col = 1;
    assert_eq!(cell_at_pixel(55, 30, &scroll, &col_widths, 20, 50, 30), Some(CellAddr { col: 1, row: 7 }));
}

#[test]
fn start_selection_keeps_existing_anchor() {
    let mut cursor = CursorState::new();
    cursor.anchor = Some(CellAddr { col: 4, row: 4 });
    cursor.position = CellAddr { col: 1, row: 6 };
    start_selection(&mut cursor);
    assert_eq!(cursor.anchor, Some(CellAddr { col: 4, row: 4 }));
    assert_eq!(
        Selection::selected_range(&cursor),
        Selection::Range(CellRange { start: CellAddr { col: 1, row: 4 }, end: CellAddr { col: 4, row: 6 } })
    );
}

// ── render helpers ──

#[test]
fn test_col_name() {
    assert_eq!(col_name(0), "A");
    assert_eq!(col_name(25), "Z");
    assert_eq!(col_name(26), "AA");
    assert_eq!(col_name(27), "AB");
    assert_eq!(col_name(51), "AZ");
    assert_eq!(col_name(52), "BA");
}

#[test]
fn test_truncate_text() {
    assert_eq!(truncate_text("hello", 10), "hello");
    assert_eq!(truncate_text("hello world", 5), "hello");
    assert_eq!(truncate_text("test", 0), "");
}

#[test]
fn truncate_counts_bytes_then_takes_chars() {
    assert_eq!(truncate_text("ééé", 4), "ééé");
    assert_eq!(truncate_text("éé", 3), "éé");
}

#[test]
fn test_is_in_range() {
    let range = CellRange { start: CellAddr { col: 1, row: 1 }, end: CellAddr { col: 3, row: 3 } };
    assert!(is_in_range(CellAddr { col: 2, row: 2 }, range));
    assert!(is_in_range(CellAddr { col: 1, row: 1 }, range));
    assert!(is_in_range(CellAddr { col: 3, row: 3 }, range));
    assert!(!is_in_range(CellAddr { col: 0, row: 0 }, range));
    assert!(!is_in_range(CellAddr { col: 4, row: 4 }, range));
}

#[test]
fn is_in_range_with_reversed_corners() {
    let range = CellRange { start: CellAddr { col: 3, row: 3 }, end: CellAddr { col: 1, row: 1 } };
    assert!(is_in_range(CellAddr { col: 2, row: 1 }, range));
    assert!(!is_in_range(CellAddr { col: 2, row: 4 }, range));
}

#[test]
fn test_calculate_row_number_width() {
    assert_eq!(calculate_row_number_width(0), 3);
    assert_eq!(calculate_row_number_width(9), 3);
    assert_eq!(calculate_row_number_width(99), 3);
    assert_eq!(calculate_row_number_width(100), 3);
    assert_eq!(calculate_row_number_width(999), 3);
    assert_eq!(calculate_row_number_width(1000), 4);
    assert_eq!(calculate_row_number_width(usize::MAX), 20);
}

// ── org table formulas ──

#[test]
fn translate_column_ref() {
    assert_eq!(translate_formula("$1 + $2", 3), "A4 + B4");
}

#[test]
fn translate_cell_ref() {
    assert_eq!(translate_formula("@2$3", 0), "C2");
}

#[test]
fn translate_function() {
    let result = translate_formula("vsum($1..$3)", 0);
    assert!(result.contains("SUM"));
}

#[test]
fn passthrough_a1_style() {
    assert_eq!(translate_formula("=A1+B1", 0), "=A1+B1");
}

#[test]
fn translate_exact_forms() {
    assert_eq!(translate_formula("  vsum($1..$3) ", 0), "SUM(A1:C1)");
    assert_eq!(translate_formula("vmean($2..$27)", 9), "AVERAGE(B10:AA10)");
    assert_eq!(translate_formula("@$3 + x", 0), "@ + x");
    assert_eq!(translate_formula("@7 and $", 0), "@7 and $");
    assert_eq!(translate_formula("$0", 1), "A2");
    assert_eq!(translate_formula("vsum($1..$3)", 0), "SUM(A1:C1)");
    assert_eq!(translate_formula("$703", 0), "AAA1");
    assert_eq!(translate_formula(" =sum(A1) ", 5), "=sum(A1)");
}

// ── grid navigation ──

fn blank_grid(cols: usize, rows: usize) -> GridShape {
    GridShape { rows: vec![vec![false; cols]; rows] }
}

#[test]
fn test_move_up_clamping() {
    let mut cursor = CursorState::new();
    let grid = blank_grid(5, 5);
    move_up(&mut cursor, &grid);
    assert_eq!(cursor.position, CellAddr { col: 0, row: 0 });
}

#[test]
fn test_move_down_clamping() {
    let mut cursor = CursorState::new();
    let grid = blank_grid(5, 3);
    cursor.position = CellAddr { col: 0, row: 2 };
    move_down(&mut cursor, &grid);
    assert_eq!(cursor.position, CellAddr { col: 0, row: 2 });
}

#[test]
fn test_move_left_clamping() {
    let mut cursor = CursorState::new();
    let grid = blank_grid(5, 5);
    move_left(&mut cursor, &grid);
    assert_eq!(cursor.position, CellAddr { col: 0, row: 0 });
}

#[test]
fn test_move_right_clamping() {
    let mut cursor = CursorState::new();
    let grid = blank_grid(3, 5);
    cursor.position = CellAddr { col: 2, row: 0 };
    move_right(&mut cursor, &grid);
    assert_eq!(cursor.position, CellAddr { col: 2, row: 0 });
}

#[test]
fn test_tab_wrapping() {
    let mut cursor = CursorState::new();
    let grid = blank_grid(3, 3);
    cursor.position = CellAddr { col: 2, row: 0 };
    move_tab(&mut cursor, &grid);
    assert_eq!(cursor.position, CellAddr { col: 0, row: 1 });
}

#[test]
fn test_tab_back_wrapping() {
    let mut cursor = CursorState::new();
    let grid = blank_grid(3, 3);
    cursor.position = CellAddr { col: 0, row: 1 };
    move_tab_back(&mut cursor, &grid);
    assert_eq!(cursor.position, CellAddr { col: 2, row: 0 });
}

#[test]
fn tab_stays_at_last_cell_and_back_undoes_tab() {
    let mut cursor = CursorState::new();
    let grid = blank_grid(3, 2);
    cursor.position = CellAddr { col: 2, row: 1 };
    move_tab(&mut cursor, &grid);
    assert_eq!(cursor.position, CellAddr { col: 2, row: 1 });
    cursor.position = CellAddr { col: 1, row: 0 };
    move_tab(&mut cursor, &grid);
    move_tab_back(&mut cursor, &grid);
    assert_eq!(cursor.position, CellAddr { col: 1, row: 0 });
}

#[test]
fn test_home_end_navigation() {
    let mut cursor = CursorState::new();
    let grid = blank_grid(5, 5);
    cursor.position = CellAddr { col: 3, row: 2 };
    move_home(&mut cursor, &grid);
    assert_eq!(cursor.position, CellAddr { col: 0, row: 2 });
    move_end(&mut cursor, &grid);
    assert_eq!(cursor.position, CellAddr { col: 4, row: 2 });
    move_home_all(&mut cursor, &grid);
    assert_eq!(cursor.position, CellAddr { col: 0, row: 0 });
}

#[test]
fn test_page_up_down() {
    let mut cursor = CursorState::new();
    let grid = blank_grid(5, 25);
    cursor.position = CellAddr { col: 2, row: 10 };
    move_page_up(&mut cursor, &grid, 5);
    assert_eq!(cursor.position, CellAddr { col: 2, row: 5 });
    move_page_down(&mut cursor, &grid, 10);
    assert_eq!(cursor.position, CellAddr { col: 2, row: 15 });
    cursor.position = CellAddr { col: 2, row: 2 };
    move_page_up(&mut cursor, &grid, 5);
    assert_eq!(cursor.position, CellAddr { col: 2, row: 0 });
    move_page_down(&mut cursor, &grid, 100);
    assert_eq!(cursor.position, CellAddr { col: 2, row: 24 });
}

#[test]
fn test_move_end_all_with_content() {
    let mut cursor = CursorState::new();
    let mut grid = blank_grid(5, 5);
    grid.rows[2][3] = true;
    grid.rows[4][1] = true;
    move_end_all(&mut cursor, &grid);
    assert_eq!(cursor.position, CellAddr { col: 3, row: 4 });
}

#[test]
fn test_move_end_all_empty_grid() {
    let mut cursor = CursorState::new();
    let grid = blank_grid(0, 0);
    move_end_all(&mut cursor, &grid);
    assert_eq!(cursor.position, CellAddr { col: 0, row: 0 });
}

#[test]
fn ragged_grid_counts_longest_row() {
    let grid = GridShape { rows: vec![vec![false; 2], vec![false; 5], vec![]] };
    assert_eq!(grid.row_count(), 3);
    assert_eq!(grid.col_count(), 5);
    assert!(!grid.is_filled(CellAddr { col: 4, row: 2 }));
}

// ── inline editing ──

#[test]
fn test_edit_state() {
    let mut edit: EditState<i32> = EditState::new();
    assert!(!edit.editing);

    edit.start_edit("hello".to_string());
    assert!(edit.editing);
    assert_eq!(edit.buffer, "hello");
    assert_eq!(edit.cursor_pos, 5);

    edit.insert_char('!');
    assert_eq!(edit.buffer, "hello!");
    assert_eq!(edit.cursor_pos, 6);

    edit.backspace();
    assert_eq!(edit.buffer, "hello");
    assert_eq!(edit.cursor_pos, 5);

    let result = edit.commit_buffer();
    assert_eq!(result, "hello");
    assert!(!edit.editing);
    assert!(edit.buffer.is_empty());
}

#[test]
fn edit_cursor_moves_over_multibyte_chars() {
    let mut edit: EditState<i32> = EditState::new();
    edit.start_edit("aé界".to_string());
    assert_eq!(edit.cursor_pos, 6);
    edit.move_cursor_left();
    assert_eq!(edit.cursor_pos, 3);
    edit.move_cursor_left();
    assert_eq!(edit.cursor_pos, 1);
    edit.move_cursor_right();
    assert_eq!(edit.cursor_pos, 3);
    edit.delete_char();
    assert_eq!(edit.buffer, "aé");
    edit.backspace();
    assert_eq!(edit.buffer, "a");
    assert_eq!(edit.cursor_pos, 1);
    edit.move_cursor_right();
    assert_eq!(edit.cursor_pos, 1);
    edit.insert_char('界');
    assert_eq!(edit.buffer, "a界");
    assert_eq!(edit.cursor_pos, 4);
}

#[test]
fn edit_cancel_returns_previous_value() {
    let mut edit: EditState<i32> = EditState::new();
    edit.previous_value = Some(7);
    edit.start_edit("x".to_string());
    assert_eq!(edit.cancel(), Some(7));
    assert!(!edit.editing);
    assert_eq!(edit.buffer, "");
    assert_eq!(edit.cursor_pos, 0);
    assert_eq!(edit.previous_value, None);
}

// ── org pipe tables ──

fn org_cells(rows: &[Vec<String>], cols: usize) -> Vec<Vec<OrgCell>> {
    rows.iter()
        .map(|r| {
            (0..cols)
                .map(|c| {
                    let text = r.get(c).cloned().unwrap_or_default();
                    let numeric = text.is_empty() || text.parse::<f64>().is_ok();
                    OrgCell { text, numeric }
                })
                .collect()
        })
        .collect()
}

#[test]
fn org_rows_of_simple_table() {
    let input = "| Name | Age |\n|------+-----|\n| Alice | 30 |\n| Bob | 25 |";
    let rows = org_table_rows(input);
    assert_eq!(rows.len(), 3);
    assert_eq!(rows[0], vec!["Name".to_string(), "Age".to_string()]);
    assert_eq!(rows[2], vec!["Bob".to_string(), "25".to_string()]);
}

#[test]
fn org_rows_keep_blank_inner_cells() {
    let rows = org_table_rows("| a |  | c |");
    assert_eq!(rows, vec![vec!["a".to_string(), "".to_string(), "c".to_string()]]);
}

#[test]
fn org_rows_skip_other_lines() {
    let rows = org_table_rows("text\n  |---|\n  | x |  \n#+TBLFM: $1=2\n||\n");
    assert_eq!(rows, vec![vec!["x".to_string()]]);
    assert_eq!(org_row_cells("| - |"), None);
    assert_eq!(org_row_cells("||a||"), Some(vec!["a".to_string()]));
}

#[test]
fn org_table_layout_exact() {
    let rows = vec![
        vec!["Name".to_string(), "Age".to_string()],
        vec!["Alice".to_string(), "30".to_string()],
    ];
    let table = vec![
        vec![OrgCell { text: rows[0][0].clone(), numeric: false }, OrgCell { text: rows[0][1].clone(), numeric: false }],
        vec![OrgCell { text: rows[1][0].clone(), numeric: false }, OrgCell { text: rows[1][1].clone(), numeric: true }],
    ];
    assert_eq!(
        format_org_table(&table, 2),
        "| Name  | Age |\n|-------+-----|\n| Alice | 30  |"
    );
}

#[test]
fn org_table_numeric_column_right_aligned() {
    let table = vec![
        vec![OrgCell { text: "7".to_string(), numeric: true }],
        vec![OrgCell { text: "123".to_string(), numeric: true }],
    ];
    assert_eq!(format_org_table(&table, 1), "|   7 |\n|-----|\n| 123 |");
}

#[test]
fn org_table_written_then_read_back() {
    let texts = vec![
        vec!["Name".to_string(), "".to_string(), "Age".to_string()],
        vec!["Alice Smith".to_string(), "x".to_string(), "30".to_string()],
        vec!["Bob".to_string(), "-".to_string(), "25".to_string()],
    ];
    let table = org_cells(&texts, 3);
    let written = format_org_table(&table, 3);
    assert_eq!(org_table_rows(&written), texts);
}

#[test]
fn empty_table_serializes_empty() {
    let table: Vec<Vec<OrgCell>> = Vec::new();
    assert_eq!(format_org_table(&table, 0), "");
}

#[test]
fn org_table_roundtrip() {
    let input = "| Name  | Age |\n|-------+-----|\n| Alice |  30 |\n| Bob   |  25 |";
    let rows = org_table_rows(input);
    let cols = rows.iter().map(|r| r.len()).max().unwrap_or(0);
    let text = format_org_table(&org_cells(&rows, cols), cols);
    let again = org_table_rows(&text);
    assert_eq!(again, rows);
}

// ── spreadsheet steps ──

fn model() -> SheetModel<i32> {
    SheetModel { cursor: CursorState::new(), scroll: ScrollState::new(), edit: EditState::new(), undo: None }
}

fn shape5() -> GridShape {
    GridShape { rows: vec![vec![true; 5]; 5] }
}

#[test]
fn step_moves_and_clears_selection() {
    let mut m = model();
    let mut clip = ClipboardModel { width: 0, height: 0 };
    let g = shape5();
    assert!(sheet_step(&mut m, Action::MoveRight, &mut clip, &g, None).changed);
    assert!(sheet_step(&mut m, Action::MoveDown, &mut clip, &g, None).changed);
    assert_eq!(m.cursor.position, CellAddr { col: 1, row: 1 });
    sheet_step(&mut m, Action::StartSelection, &mut clip, &g, None);
    assert_eq!(m.cursor.anchor, Some(CellAddr { col: 1, row: 1 }));
    sheet_step(&mut m, Action::MoveLeft, &mut clip, &g, None);
    assert_eq!(m.cursor.anchor, None);
    sheet_step(&mut m, Action::MoveUp, &mut clip, &g, None);
    assert_eq!(m.cursor.position, CellAddr { col: 0, row: 0 });
    sheet_step(&mut m, Action::MoveEndAll, &mut clip, &g, None);
    assert_eq!(m.cursor.position, CellAddr { col: 4, row: 4 });
}

#[test]
fn step_edit_lifecycle() {
    let mut m = model();
    let mut clip = ClipboardModel { width: 0, height: 0 };
    let g = shape5();
    sheet_step(&mut m, Action::EnterEdit(Some('4')), &mut clip, &g, Some(("".to_string(), 7)));
    assert!(m.edit.editing);
    assert_eq!(m.edit.previous_value, Some(7));
    sheet_step(&mut m, Action::TypeChar('2'), &mut clip, &g, None);
    sheet_step(&mut m, Action::TypeChar('é'), &mut clip, &g, None);
    sheet_step(&mut m, Action::Backspace, &mut clip, &g, None);
    assert_eq!(m.edit.buffer, "42");
    let moved = sheet_step(&mut m, Action::MoveDown, &mut clip, &g, None);
    assert!(!moved.changed);
    let r = sheet_step(&mut m, Action::Tab, &mut clip, &g, None);
    match r.effect {
        SheetEffect::Commit(addr, text) => {
            assert_eq!(addr, CellAddr { col: 0, row: 0 });
            assert_eq!(text, "42");
        }
        _ => panic!("expected a commit"),
    }
    assert!(!m.edit.editing);
    assert_eq!(m.cursor.position, CellAddr { col: 1, row: 0 });
    sheet_step(&mut m, Action::EnterEdit(None), &mut clip, &g, Some(("old".to_string(), 3)));
    assert_eq!(m.edit.buffer, "old");
    match sheet_step(&mut m, Action::CancelEdit, &mut clip, &g, None).effect {
        SheetEffect::Restore(addr, v) => {
            assert_eq!(addr, CellAddr { col: 1, row: 0 });
            assert_eq!(v, 3);
        }
        _ => panic!("expected a restore"),
    }
}

#[test]
fn step_copy_paste_and_undo() {
    let mut m = model();
    let mut clip = ClipboardModel { width: 0, height: 0 };
    let g = shape5();
    assert!(matches!(sheet_step(&mut m, Action::Paste, &mut clip, &g, None).effect, SheetEffect::NoEffect));
    sheet_step(&mut m, Action::ClickCell(CellAddr { col: 2, row: 3 }), &mut clip, &g, None);
    sheet_step(&mut m, Action::StartSelection, &mut clip, &g, None);
    m.cursor.position = CellAddr { col: 0, row: 1 };
    match sheet_step(&mut m, Action::Copy, &mut clip, &g, None).effect {
        SheetEffect::CopyRange(a, b) => {
            assert_eq!(a, CellAddr { col: 0, row: 1 });
            assert_eq!(b, CellAddr { col: 2, row: 3 });
        }
        _ => panic!("expected a copy"),
    }
    assert_eq!(clip, ClipboardModel { width: 3, height: 3 });
    assert!(matches!(sheet_step(&mut m, Action::Paste, &mut clip, &g, None).effect, SheetEffect::PasteAt(_)));
    assert!(matches!(
        sheet_step(&mut m, Action::DeleteContent, &mut clip, &g, Some(("x".to_string(), 5))).effect,
        SheetEffect::ClearCell(_)
    ));
    match sheet_step(&mut m, Action::Undo, &mut clip, &g, None).effect {
        SheetEffect::UndoTo(addr, v) => {
            assert_eq!(addr, CellAddr { col: 0, row: 1 });
            assert_eq!(v, 5);
        }
        _ => panic!("expected an undo"),
    }
    assert!(m.undo.is_none());
}

#[test]
fn step_reports_no_change_when_nothing_happens() {
    let mut m = model();
    let mut clip = ClipboardModel { width: 0, height: 0 };
    let g = shape5();
    assert!(!sheet_step(&mut m, Action::Undo, &mut clip, &g, None).changed);
    assert!(!sheet_step(&mut m, Action::CommitEdit, &mut clip, &g, None).changed);
    assert!(!sheet_step(&mut m, Action::CancelEdit, &mut clip, &g, None).changed);
    assert!(!sheet_step(&mut m, Action::MoveUp, &mut clip, &g, None).changed);
    assert!(!sheet_step(&mut m, Action::ClearSelection, &mut clip, &g, None).changed);
    assert!(sheet_step(&mut m, Action::StartSelection, &mut clip, &g, None).changed);
    assert!(!sheet_step(&mut m, Action::StartSelection, &mut clip, &g, None).changed);
}
