use rat_widgets::outline::parse::{HeadingParser, HeadingSyntax, MarkdownParser, OrgParser, default_todo_keywords};
use rat_widgets::outline::index::{build_heading_index, heading_at_or_before, subtree_range, FoldState, HeadingInfo};
use rat_widgets::outline::fold::{cycle_visibility, cycle_visibility_global, visible_lines};
use rat_widgets::outline::structure::{demote, move_subtree_down, move_subtree_up, promote};
use rat_widgets::outline::todo::cycle_todo;

fn lines(s: &str) -> Vec<String> {
    s.lines().map(|l| l.to_string()).collect()
}

fn make(text: &str) -> (Vec<String>, Vec<HeadingInfo>) {
    let buf = lines(text);
    let idx = build_heading_index(&buf, &OrgParser, &[]);
    (buf, idx)
}

fn heading(line: usize, todo: Option<&str>) -> HeadingInfo {
    HeadingInfo {
        line,
        level: 1,
        fold: FoldState::All,
        todo: todo.map(|s| s.to_string()),
        priority: None,
        tags: vec![],
        title: String::new(),
    }
}

// ── parse ──

#[test]
fn org_simple_heading() {
    let p = OrgParser;
    let h = p.parse_line("* Hello").unwrap();
    assert_eq!(h.level, 1);
    assert_eq!(h.title, "Hello");
    assert_eq!(h.todo, None);
    assert_eq!(h.priority, None);
    assert!(h.tags.is_empty());
}

#[test]
fn org_level_3() {
    let p = OrgParser;
    let h = p.parse_line("*** Deep heading").unwrap();
    assert_eq!(h.level, 3);
    assert_eq!(h.title, "Deep heading");
}

#[test]
fn org_todo_keyword() {
    let p = OrgParser;
    let h = p.parse_line("* TODO Ship docs").unwrap();
    assert_eq!(h.level, 1);
    assert_eq!(h.todo, Some("TODO".into()));
    assert_eq!(h.title, "Ship docs");
}

#[test]
fn org_priority() {
    let p = OrgParser;
    let h = p.parse_line("* TODO [#A] Critical task").unwrap();
    assert_eq!(h.todo, Some("TODO".into()));
    assert_eq!(h.priority, Some('A'));
    assert_eq!(h.title, "Critical task");
}

#[test]
fn org_tags() {
    let p = OrgParser;
    let h = p.parse_line("** Bar :tag1:tag2:").unwrap();
    assert_eq!(h.level, 2);
    assert_eq!(h.title, "Bar");
    assert_eq!(h.tags, vec!["tag1", "tag2"]);
}

#[test]
fn org_full() {
    let p = OrgParser;
    let h = p.parse_line("** IN_PROGRESS [#B] Implement parser :code:rust:").unwrap();
    assert_eq!(h.level, 2);
    assert_eq!(h.todo, Some("IN_PROGRESS".into()));
    assert_eq!(h.priority, Some('B'));
    assert_eq!(h.title, "Implement parser");
    assert_eq!(h.tags, vec!["code", "rust"]);
}

#[test]
fn org_not_a_heading() {
    let p = OrgParser;
    assert!(p.parse_line("Not a heading").is_none());
    assert!(p.parse_line("*bold text*").is_none());
    assert!(p.parse_line("").is_none());
}

#[test]
fn markdown_heading() {
    let p = MarkdownParser;
    let h = p.parse_line("## Task").unwrap();
    assert_eq!(h.level, 2);
    assert_eq!(h.title, "Task");
}

#[test]
fn markdown_with_todo() {
    let p = MarkdownParser;
    let h = p.parse_line("## TODO Ship docs").unwrap();
    assert_eq!(h.todo, Some("TODO".into()));
    assert_eq!(h.title, "Ship docs");
}

#[test]
fn markdown_not_heading() {
    let p = MarkdownParser;
    assert!(p.parse_line("not heading").is_none());
    assert!(p.parse_line("#nospace").is_none());
}

#[test]
fn tags_only_at_end() {
    let p = OrgParser;
    let h = p.parse_line("* Title with :colon: inside :real:").unwrap();
    assert_eq!(h.tags, vec!["real"]);
    assert_eq!(h.title, "Title with :colon: inside");
}

#[test]
fn keyword_prefix_is_not_a_keyword() {
    let h = OrgParser.parse_line("* PROGRESS report").unwrap();
    assert_eq!(h.todo, None);
    assert_eq!(h.title, "PROGRESS report");
    let h = OrgParser.parse_line("* PROG report").unwrap();
    assert_eq!(h.todo, Some("PROG".into()));
    assert_eq!(h.title, "report");
}

#[test]
fn invalid_tags_stay_in_title() {
    let h = OrgParser.parse_line("* Meeting at 10:30:").unwrap();
    assert!(h.tags.is_empty());
    assert_eq!(h.title, "Meeting at 10:30:");
    let h = OrgParser.parse_line("* Note :a b:").unwrap();
    assert!(h.tags.is_empty());
    assert_eq!(h.title, "Note :a b:");
    let h = OrgParser.parse_line("* Mail :me@home:").unwrap();
    assert_eq!(h.tags, vec!["me@home"]);
}

#[test]
fn lowercase_priority_is_text() {
    let h = OrgParser.parse_line("* [#a] x").unwrap();
    assert_eq!(h.priority, None);
    assert_eq!(h.title, "[#a] x");
}

#[test]
fn keyword_alone_and_unicode_title() {
    let h = OrgParser.parse_line("* DONE").unwrap();
    assert_eq!(h.todo, Some("DONE".into()));
    assert_eq!(h.title, "");
    let h = OrgParser.parse_line("** Überschrift äöü :tag:").unwrap();
    assert_eq!(h.title, "Überschrift äöü");
    assert_eq!(h.tags, vec!["tag"]);
}

#[test]
fn default_keywords_in_order() {
    assert_eq!(
        default_todo_keywords(),
        vec!["TODO", "IN_PROGRESS", "PROG", "DONE", "CANCELLED", "CANCELED", "WAIT", "HOLD"]
    );
}

// ── todo ──

#[test]
fn cycle_none_to_first() {
    let kws = vec!["TODO".into(), "DONE".into()];
    let mut lines = vec!["* Task".to_string()];
    let h = heading(0, None);
    let result = cycle_todo(&mut lines, &h, &kws);
    assert_eq!(result, Some("TODO".into()));
    assert_eq!(lines[0], "* TODO Task");
}

#[test]
fn cycle_todo_to_done() {
    let kws = vec!["TODO".into(), "DONE".into()];
    let mut lines = vec!["* TODO Task".to_string()];
    let h = heading(0, Some("TODO"));
    let result = cycle_todo(&mut lines, &h, &kws);
    assert_eq!(result, Some("DONE".into()));
    assert_eq!(lines[0], "* DONE Task");
}

#[test]
fn cycle_past_last_removes() {
    let kws = vec!["TODO".into(), "DONE".into()];
    let mut lines = vec!["* DONE Task".to_string()];
    let h = heading(0, Some("DONE"));
    let result = cycle_todo(&mut lines, &h, &kws);
    assert_eq!(result, None);
    assert_eq!(lines[0], "* Task");
}

#[test]
fn empty_keywords_noop() {
    let mut lines = vec!["* Task".to_string()];
    let h = heading(0, None);
    let result = cycle_todo(&mut lines, &h, &[]);
    assert_eq!(result, None);
    assert_eq!(lines[0], "* Task");
}

#[test]
fn cycle_unknown_keyword_replaced_by_first() {
    let kws: Vec<String> = vec!["TODO".into(), "DONE".into()];
    let mut lines = vec!["## WAIT Call back".to_string()];
    let h = heading(0, Some("WAIT"));
    let result = cycle_todo(&mut lines, &h, &kws);
    assert_eq!(result, Some("TODO".into()));
    assert_eq!(lines[0], "## TODO Call back");
}

#[test]
fn cycle_full_round_returns_to_start() {
    let kws: Vec<String> = vec!["TODO".into(), "DONE".into()];
    let mut lines = vec!["* Task".to_string()];
    let mut todo: Option<String> = None;
    for _ in 0..3 {
        let mut h = heading(0, None);
        h.todo = todo.clone();
        todo = cycle_todo(&mut lines, &h, &kws);
    }
    assert_eq!(todo, None);
    assert_eq!(lines[0], "* Task");
}

// ── index ──

#[test]
fn build_index_basic() {
    let buf = lines("* Heading 1\nbody\n** Heading 2\nmore body");
    let idx = build_heading_index(&buf, &OrgParser, &[]);
    assert_eq!(idx.len(), 2);
    assert_eq!(idx[0].line, 0);
    assert_eq!(idx[0].level, 1);
    assert_eq!(idx[0].title, "Heading 1");
    assert_eq!(idx[1].line, 2);
    assert_eq!(idx[1].level, 2);
}

#[test]
fn build_index_no_headings() {
    let buf = lines("just some text\nno headings here");
    let idx = build_heading_index(&buf, &OrgParser, &[]);
    assert!(idx.is_empty());
}

#[test]
fn preserves_fold_state() {
    let buf = lines("* A\nbody\n** B\n");
    let prev = vec![HeadingInfo {
        line: 0,
        level: 1,
        fold: FoldState::Folded,
        todo: None,
        priority: None,
        tags: vec![],
        title: "A".into(),
    }];
    let idx = build_heading_index(&buf, &OrgParser, &prev);
    assert_eq!(idx[0].fold, FoldState::Folded);
    assert_eq!(idx[1].fold, FoldState::All);
}

#[test]
fn fold_state_not_kept_when_level_changes() {
    let buf = lines("** A");
    let prev = vec![heading(0, None)];
    let mut prev = prev;
    prev[0].fold = FoldState::Folded;
    let idx = build_heading_index(&buf, &OrgParser, &prev);
    assert_eq!(idx[0].fold, FoldState::All);
}

#[test]
fn heading_at_or_before_finds_correct() {
    let buf = lines("* A\nbody\n** B\nbody2\n* C");
    let idx = build_heading_index(&buf, &OrgParser, &[]);
    assert_eq!(heading_at_or_before(&idx, 0), Some(0));
    assert_eq!(heading_at_or_before(&idx, 1), Some(0));
    assert_eq!(heading_at_or_before(&idx, 2), Some(1));
    assert_eq!(heading_at_or_before(&idx, 3), Some(1));
    assert_eq!(heading_at_or_before(&idx, 4), Some(2));
}

#[test]
fn heading_at_or_before_none_before_first() {
    let buf = lines("text\n* A");
    let idx = build_heading_index(&buf, &OrgParser, &[]);
    assert_eq!(heading_at_or_before(&idx, 0), None);
    assert_eq!(heading_at_or_before(&idx, 9), Some(0));
    assert_eq!(heading_at_or_before(&[], 3), None);
}

#[test]
fn subtree_range_basic() {
    let buf = lines("* A\nbody\n** B\nbody2\n* C\nbody3");
    let idx = build_heading_index(&buf, &OrgParser, &[]);
    assert_eq!(subtree_range(&idx, 0, 6), 0..4);
    assert_eq!(subtree_range(&idx, 1, 6), 2..4);
    assert_eq!(subtree_range(&idx, 2, 6), 4..6);
}

#[test]
fn fold_state_cycle_order() {
    assert_eq!(FoldState::Folded.cycle(), FoldState::Children);
    assert_eq!(FoldState::Children.cycle(), FoldState::All);
    assert_eq!(FoldState::All.cycle(), FoldState::Folded);
}

// ── fold ──

#[test]
fn all_visible_by_default() {
    let (buf, headings) = make("* A\nbody\n** B\nbody2");
    let vis = visible_lines(&headings, buf.len());
    assert_eq!(vis, vec![0, 1, 2, 3]);
}

#[test]
fn fold_hides_body_and_children() {
    let (buf, mut headings) = make("* A\nbody\n** B\nbody2\n* C");
    headings[0].fold = FoldState::Folded;
    let vis = visible_lines(&headings, buf.len());
    assert_eq!(vis, vec![0, 4]);
}

#[test]
fn children_shows_direct_children_headings() {
    let (buf, mut headings) = make("* A\nbody\n** B\nbody2\n*** C\nbody3");
    headings[0].fold = FoldState::Children;
    let vis = visible_lines(&headings, buf.len());
    assert_eq!(vis, vec![0, 1, 2]);
}

#[test]
fn no_headings_all_visible() {
    let buf = lines("just text\nmore text");
    let headings: Vec<HeadingInfo> = Vec::new();
    let vis = visible_lines(&headings, buf.len());
    assert_eq!(vis, vec![0, 1]);
}

#[test]
fn cycle_fold_state() {
    let (_, mut headings) = make("* A\n** B");
    assert_eq!(headings[0].fold, FoldState::All);
    cycle_visibility(&mut headings, 0);
    assert_eq!(headings[0].fold, FoldState::Folded);
    cycle_visibility(&mut headings, 0);
    assert_eq!(headings[0].fold, FoldState::Children);
    cycle_visibility(&mut headings, 0);
    assert_eq!(headings[0].fold, FoldState::All);
}

#[test]
fn global_fold() {
    let (_, mut headings) = make("* A\n** B\n* C");
    cycle_visibility_global(&mut headings, FoldState::Folded);
    assert!(headings.iter().all(|h| h.fold == FoldState::Folded));
}

#[test]
fn preamble_stays_visible_when_folded() {
    let (buf, mut headings) = make("intro\n* A\nbody\n* B\nbody");
    cycle_visibility_global(&mut headings, FoldState::Folded);
    let vis = visible_lines(&headings, buf.len());
    assert_eq!(vis, vec![0, 1, 3]);
}

// ── structure ──

#[test]
fn promote_level2_to_level1() {
    let (mut buf, headings) = make("** Task\n*** Sub");
    assert!(promote(&mut buf, &headings, 0, HeadingSyntax::Org));
    assert_eq!(buf[0], "* Task");
    assert_eq!(buf[1], "** Sub");
}

#[test]
fn promote_at_level1_noop() {
    let (mut buf, headings) = make("* Top");
    assert!(!promote(&mut buf, &headings, 0, HeadingSyntax::Org));
    assert_eq!(buf[0], "* Top");
}

#[test]
fn demote_level1() {
    let (mut buf, headings) = make("* Task\n** Sub");
    assert!(demote(&mut buf, &headings, 0, HeadingSyntax::Org));
    assert_eq!(buf[0], "** Task");
    assert_eq!(buf[1], "*** Sub");
}

#[test]
fn demote_then_promote_restores_markdown() {
    let buf0 = lines("# A\ntext\n## B\n# C");
    let headings = build_heading_index(&buf0, &MarkdownParser, &[]);
    let mut buf = buf0.clone();
    assert!(demote(&mut buf, &headings, 0, HeadingSyntax::Markdown));
    assert_eq!(buf, lines("## A\ntext\n### B\n# C"));
    let headings2 = build_heading_index(&buf, &MarkdownParser, &[]);
    assert!(promote(&mut buf, &headings2, 0, HeadingSyntax::Markdown));
    assert_eq!(buf, buf0);
}

#[test]
fn move_subtree_up_swaps() {
    let (mut buf, headings) = make("* A\nbody-a\n* B\nbody-b");
    let new_line = move_subtree_up(&mut buf, &headings, 1).unwrap();
    assert_eq!(new_line, 0);
    assert_eq!(buf[0], "* B");
    assert_eq!(buf[1], "body-b");
    assert_eq!(buf[2], "* A");
    assert_eq!(buf[3], "body-a");
}

#[test]
fn move_subtree_up_first_sibling_noop() {
    let (mut buf, headings) = make("* A\n* B");
    assert!(move_subtree_up(&mut buf, &headings, 0).is_none());
}

#[test]
fn move_subtree_down_swaps() {
    let (mut buf, headings) = make("* A\nbody-a\n* B\nbody-b");
    let new_line = move_subtree_down(&mut buf, &headings, 0).unwrap();
    assert_eq!(new_line, 2);
    assert_eq!(buf[0], "* B");
    assert_eq!(buf[1], "body-b");
    assert_eq!(buf[2], "* A");
    assert_eq!(buf[3], "body-a");
}

#[test]
fn move_subtree_down_last_sibling_noop() {
    let (mut buf, headings) = make("* A\n* B");
    assert!(move_subtree_down(&mut buf, &headings, 1).is_none());
}

#[test]
fn move_down_then_up_restores() {
    let (mut buf, headings) = make("* A\nx\n** A1\n* B\ny\n* C");
    let orig = buf.clone();
    let at = move_subtree_down(&mut buf, &headings, 0).unwrap();
    assert_eq!(at, 2);
    assert_eq!(buf, lines("* B\ny\n* A\nx\n** A1\n* C"));
    let headings2 = build_heading_index(&buf, &OrgParser, &[]);
    let back = move_subtree_up(&mut buf, &headings2, 1).unwrap();
    assert_eq!(back, 0);
    assert_eq!(buf, orig);
}
