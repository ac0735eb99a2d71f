use rat_widgets::streaming::{DisplayLine, StreamingConfig, StreamingOutput, StreamingOutputManager};

#[test]
fn push_line_basic() {
    let mut out = StreamingOutput::new();
    out.push_line("hello");
    out.push_line("world");
    assert_eq!(out.total_lines(), 2);
    assert_eq!(out.display_line_count(), 2);
    assert_eq!(out.omitted(), 0);
}

#[test]
fn push_text_splits_lines() {
    let mut out = StreamingOutput::new();
    out.push_text("line 1\nline 2\nline 3");
    assert_eq!(out.total_lines(), 3);
    assert_eq!(out.display_line_count(), 3);
}

#[test]
fn head_tail_truncation() {
    let config = StreamingConfig { max_lines: 10, head_lines: 3, tail_lines: 3, visible_lines: 16 };
    let mut out = StreamingOutput::with_config(config);

    for i in 0..20 {
        out.push_line(&format!("line {}", i));
    }

    assert_eq!(out.total_lines(), 20);
    assert_eq!(out.head().len(), 3);
    assert_eq!(out.tail().len(), 3);
    assert_eq!(out.omitted(), 14);
    assert_eq!(out.display_line_count(), 7);

    assert_eq!(out.head()[0], "line 0");
    assert_eq!(out.head()[1], "line 1");
    assert_eq!(out.head()[2], "line 2");

    assert_eq!(out.tail()[0], "line 17");
    assert_eq!(out.tail()[1], "line 18");
    assert_eq!(out.tail()[2], "line 19");
}

#[test]
fn display_line_ordering() {
    let config = StreamingConfig { max_lines: 10, head_lines: 2, tail_lines: 2, visible_lines: 16 };
    let mut out = StreamingOutput::with_config(config);

    for i in 0..10 {
        out.push_line(&format!("L{}", i));
    }

    assert_eq!(out.display_line_count(), 5);
    assert!(matches!(out.get_display_line(0), DisplayLine::Text(s) if s == "L0"));
    assert!(matches!(out.get_display_line(1), DisplayLine::Text(s) if s == "L1"));
    assert!(matches!(out.get_display_line(2), DisplayLine::Omitted(6)));
    assert!(matches!(out.get_display_line(3), DisplayLine::Text(s) if s == "L8"));
    assert!(matches!(out.get_display_line(4), DisplayLine::Text(s) if s == "L9"));
}

#[test]
fn scroll_up_down() {
    let config = StreamingConfig { max_lines: 2000, head_lines: 200, tail_lines: 200, visible_lines: 5 };
    let mut out = StreamingOutput::with_config(config);

    for i in 0..30 {
        out.push_line(&format!("line {}", i));
    }

    assert!(out.auto_follow());

    out.scroll_up(5);
    assert!(!out.auto_follow());

    out.scroll_to_bottom();
    assert!(out.auto_follow());
}

#[test]
fn scroll_to_top() {
    let mut out = StreamingOutput::new();
    for i in 0..50 {
        out.push_line(&format!("line {}", i));
    }

    out.scroll_to_top();
    assert!(!out.auto_follow());
    assert_eq!(out.scroll_offset(), 0);
}

#[test]
fn toggle_auto_follow() {
    let mut out = StreamingOutput::new();
    assert!(out.auto_follow());

    out.toggle_auto_follow();
    assert!(!out.auto_follow());

    out.toggle_auto_follow();
    assert!(out.auto_follow());
}

#[test]
fn manager_add_and_get() {
    let mut mgr = StreamingOutputManager::new();
    mgr.add_line("call-1", "hello");
    mgr.add_line("call-1", "world");

    assert!(mgr.has("call-1"));
    assert!(!mgr.has("call-2"));

    let out = mgr.get("call-1").unwrap();
    assert_eq!(out.total_lines(), 2);
}

#[test]
fn manager_remove() {
    let mut mgr = StreamingOutputManager::new();
    mgr.add_line("call-1", "hello");
    assert!(mgr.has("call-1"));

    mgr.remove("call-1");
    assert!(!mgr.has("call-1"));
}

#[test]
fn manager_focus() {
    let mut mgr = StreamingOutputManager::new();
    mgr.add_line("call-1", "a");
    mgr.add_line("call-2", "b");

    mgr.focus("call-1");
    assert_eq!(mgr.focused_call_id(), Some("call-1"));

    mgr.focus("call-2");
    assert_eq!(mgr.focused_call_id(), Some("call-2"));
    assert!(!mgr.get("call-1").unwrap().focused);
}

#[test]
fn manager_unfocus_all() {
    let mut mgr = StreamingOutputManager::new();
    mgr.add_line("call-1", "a");
    mgr.focus("call-1");
    assert!(mgr.focused_call_id().is_some());

    mgr.unfocus_all();
    assert!(mgr.focused_call_id().is_none());
}

#[test]
fn scroll_down_clamps() {
    let mut out = StreamingOutput::new();
    for i in 0..5 {
        out.push_line(&format!("line {}", i));
    }

    out.scroll_to_top();
    out.scroll_down(100, 3);
    assert!(out.auto_follow());
}

#[test]
fn bytes_tracking() {
    let mut out = StreamingOutput::new();
    out.push_line("hello");
    out.push_line("world");
    assert_eq!(out.total_bytes(), 12);
}

#[test]
fn no_omission_marker_when_not_truncated() {
    let mut out = StreamingOutput::new();
    for i in 0..5 {
        out.push_line(&format!("line {}", i));
    }
    assert_eq!(out.omitted(), 0);
    assert_eq!(out.display_line_count(), 5);
}

#[test]
fn push_text_handles_crlf_and_trailing_newline() {
    let mut out = StreamingOutput::new();
    out.push_text("a\r\nb\n\nc\n");
    assert_eq!(out.total_lines(), 4);
    assert_eq!(out.head()[0], "a");
    assert_eq!(out.head()[2], "");
    assert_eq!(out.head()[3], "c");
    assert_eq!(out.total_bytes(), 2 + 2 + 1 + 2);
}

#[test]
fn scroll_down_partial_keeps_follow_off() {
    let mut out = StreamingOutput::new();
    for i in 0..10 {
        out.push_line(&format!("line {}", i));
    }
    out.scroll_to_top();
    out.scroll_down(2, 3);
    assert_eq!(out.scroll_offset(), 2);
    assert!(!out.auto_follow());
}

#[test]
fn manager_text_and_get_mut() {
    let mut mgr = StreamingOutputManager::new();
    mgr.add_text("c", "x\ny");
    assert_eq!(mgr.active_count(), 1);
    let out = mgr.get_mut("c").unwrap();
    out.scroll_to_top();
    assert!(!mgr.get("c").unwrap().auto_follow());
    assert!(mgr.get_mut("missing").is_none());
    mgr.remove("missing");
    assert_eq!(mgr.active_count(), 1);
}

#[test]
fn inline_height_empty() {
    let out = StreamingOutput::new();
    assert_eq!(out.height(80), 0);
}

#[test]
fn inline_height_within_visible() {
    let mut out = StreamingOutput::new();
    for i in 0..5 {
        out.push_line(&format!("line {i}"));
    }
    assert_eq!(out.height(80), 5);
}

#[test]
fn inline_height_capped_at_visible() {
    let config = StreamingConfig { visible_lines: 4, ..StreamingConfig::default() };
    let mut out = StreamingOutput::with_config(config);
    for i in 0..20 {
        out.push_line(&format!("line {i}"));
    }
    assert_eq!(out.height(80), 4);
}

#[test]
fn zero_tail_counts_lines_as_omitted() {
    let config = StreamingConfig { max_lines: 10, head_lines: 1, tail_lines: 0, visible_lines: 16 };
    let mut out = StreamingOutput::with_config(config);
    out.push_line("first");
    out.push_line("second");
    out.push_line("third");
    assert_eq!(out.total_lines(), 3);
    assert_eq!(out.display_line_count(), 2);
}

#[test]
fn scroll_down_while_following_clamps() {
    let mut out = StreamingOutput::new();
    out.push_line("a");
    out.scroll_down(1, 10);
    assert_eq!(out.scroll_offset(), 0);
    assert!(out.auto_follow());
}
