use rat_widgets::search::{fuzzy_match_range, OutputSearch, SearchMatch, SearchMode};

#[test]
fn test_substring_search() {
    let mut search = OutputSearch::new();
    search.activate();
    search.query = "hello".to_string();
    let lines = vec![
        "  hello world".to_string(),
        "  foo bar".to_string(),
        "  say hello again".to_string(),
    ];
    search.update_matches(&lines);
    assert_eq!(search.matches.len(), 2);
    assert_eq!(search.matches[0].row, 0);
    assert_eq!(search.matches[1].row, 2);
}

#[test]
fn test_case_insensitive() {
    let mut search = OutputSearch::new();
    search.activate();
    search.query = "hello".to_string();
    let lines = vec!["HELLO World".to_string()];
    search.update_matches(&lines);
    assert_eq!(search.matches.len(), 1);
}

#[test]
fn test_smart_case() {
    let mut search = OutputSearch::new();
    search.activate();
    search.query = "Hello".to_string();
    let lines = vec!["hello world".to_string(), "Hello world".to_string()];
    search.update_matches(&lines);
    assert_eq!(search.matches.len(), 1);
    assert_eq!(search.matches[0].row, 1);
}

#[test]
fn test_fuzzy_match() {
    let result = fuzzy_match_range("hello world", &['h', 'w']);
    assert!(result.is_some());
    let (start, end) = result.unwrap();
    assert_eq!(&"hello world"[start..end], "hello w");
}

#[test]
fn test_fuzzy_no_match() {
    let result = fuzzy_match_range("hello", &['z']);
    assert!(result.is_none());
}

#[test]
fn test_fuzzy_search_mode() {
    let mut search = OutputSearch::new();
    search.activate();
    search.mode = SearchMode::Fuzzy;
    search.query = "hw".to_string();
    let lines = vec!["hello world".to_string(), "goodbye".to_string()];
    search.update_matches(&lines);
    assert_eq!(search.matches.len(), 1);
    assert_eq!(search.matches[0].row, 0);
}

#[test]
fn output_search_test_navigation() {
    let mut search = OutputSearch::new();
    search.matches = vec![
        SearchMatch { row: 0, byte_start: 0, byte_end: 5 },
        SearchMatch { row: 2, byte_start: 0, byte_end: 5 },
        SearchMatch { row: 4, byte_start: 0, byte_end: 5 },
    ];
    search.current = 0;
    search.next_match();
    assert_eq!(search.current, 1);
    search.next_match();
    assert_eq!(search.current, 2);
    search.next_match();
    assert_eq!(search.current, 0);
    search.prev_match();
    assert_eq!(search.current, 2);
    search.prev_match();
    assert_eq!(search.current, 1);
}

#[test]
fn test_toggle_mode() {
    let mut search = OutputSearch::new();
    assert_eq!(search.mode, SearchMode::Substring);
    search.toggle_mode();
    assert_eq!(search.mode, SearchMode::Fuzzy);
    search.toggle_mode();
    assert_eq!(search.mode, SearchMode::Substring);
}

#[test]
fn test_multiple_matches_same_line() {
    let mut search = OutputSearch::new();
    search.activate();
    search.query = "ab".to_string();
    let lines = vec!["ab cd ab ef ab".to_string()];
    search.update_matches(&lines);
    assert_eq!(search.matches.len(), 3);
}

#[test]
fn test_keeps_position_on_update() {
    let mut search = OutputSearch::new();
    search.activate();
    search.query = "x".to_string();
    let lines = vec![
        "a x b".to_string(),
        "c d e".to_string(),
        "f x g".to_string(),
        "h i j".to_string(),
        "k x l".to_string(),
    ];
    search.update_matches(&lines);
    assert_eq!(search.matches.len(), 3);
    search.current = 2;
    assert_eq!(search.matches[search.current].row, 4);
    search.update_matches(&lines);
    assert_eq!(search.matches[search.current].row, 4);
}

#[test]
fn test_cancel_clears_all() {
    let mut search = OutputSearch::new();
    search.activate();
    search.query = "test".to_string();
    search.matches.push(SearchMatch { row: 0, byte_start: 0, byte_end: 4 });
    search.current = 0;
    search.cancel();
    assert!(!search.active);
    assert!(search.query.is_empty());
    assert!(search.matches.is_empty());
}

#[test]
fn test_deactivate_keeps_matches() {
    let mut search = OutputSearch::new();
    search.activate();
    search.query = "test".to_string();
    search.matches.push(SearchMatch { row: 0, byte_start: 0, byte_end: 4 });
    search.deactivate();
    assert!(!search.active);
    assert!(search.has_matches());
}

#[test]
fn overlapping_matches_and_byte_offsets() {
    let mut search = OutputSearch::new();
    search.query = "aa".to_string();
    let lines = vec!["aaa".to_string(), "é aa".to_string()];
    search.update_matches(&lines);
    let got: Vec<(usize, usize, usize)> =
        search.matches.iter().map(|m| (m.row, m.byte_start, m.byte_end)).collect();
    assert_eq!(got, vec![(0, 0, 2), (0, 1, 3), (1, 3, 5)]);
}

#[test]
fn fuzzy_range_covers_first_to_last_char() {
    assert_eq!(fuzzy_match_range("xaxbxc", &['a', 'c']), Some((1, 6)));
    assert_eq!(fuzzy_match_range("ünï", &['n', 'ï']), Some((2, 5)));
    assert_eq!(fuzzy_match_range("abc", &[]), None);
    assert_eq!(fuzzy_match_range("ab", &['b', 'a']), None);
}

#[test]
fn empty_query_clears_matches() {
    let mut search = OutputSearch::new();
    search.matches.push(SearchMatch { row: 3, byte_start: 0, byte_end: 1 });
    search.current = 0;
    search.update_matches(&["abc".to_string()]);
    assert!(search.matches.is_empty());
    assert_eq!(search.current, 0);
    assert!(!search.has_query());
}

#[test]
fn nearest_match_prefers_first_on_tie() {
    let mut search = OutputSearch::new();
    search.query = "x".to_string();
    search.matches = vec![SearchMatch { row: 2, byte_start: 0, byte_end: 1 }];
    search.current = 0;
    let lines = vec!["x".to_string(), "".to_string(), "".to_string(), "".to_string(), "x".to_string()];
    search.update_matches(&lines);
    assert_eq!(search.current, 0);
    assert_eq!(search.current_match_row(), Some(0));
}

#[test]
fn typing_and_backspace_edit_query() {
    let mut search = OutputSearch::new();
    search.type_char('a');
    search.type_char('é');
    assert_eq!(search.query, "aé");
    search.backspace();
    assert_eq!(search.query, "a");
    search.backspace();
    search.backspace();
    assert_eq!(search.query, "");
    search.next_match();
    assert_eq!(search.current, 0);
    assert_eq!(search.current_match_row(), None);
}

#[test]
fn multibyte_query_finds_every_occurrence() {
    let mut search = OutputSearch::new();
    search.query = "é".to_string();
    search.update_matches(&["éé".to_string()]);
    let spans = |s: &OutputSearch| -> Vec<(usize, usize, usize)> {
        s.matches.iter().map(|m: &SearchMatch| (m.row, m.byte_start, m.byte_end)).collect()
    };
    assert_eq!(spans(&search), vec![(0, 0, 2), (0, 2, 4)]);
    search.query = "éa".to_string();
    search.update_matches(&["xéa".to_string()]);
    assert_eq!(spans(&search), vec![(0, 1, 4)]);
    search.update_matches(&["no hit".to_string()]);
    assert!(search.matches.is_empty());
}
