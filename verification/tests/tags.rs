use rat_widgets::tags::{
    format_priority, format_tags, handle_property_action, handle_tag_action, is_valid_tag, parse_tags, EditMode,
    PriorityCycler, PropertyAction, PropertyEditorState, TagAction, TagEditorState,
};

#[test]
fn cycle_none_to_a() {
    let c = PriorityCycler::default_cycle();
    assert_eq!(c.cycle(None), Some('A'));
}

#[test]
fn cycle_a_to_b() {
    let c = PriorityCycler::default_cycle();
    assert_eq!(c.cycle(Some('A')), Some('B'));
}

#[test]
fn cycle_c_to_none() {
    let c = PriorityCycler::default_cycle();
    assert_eq!(c.cycle(Some('C')), None);
}

#[test]
fn format() {
    assert_eq!(format_priority(Some('A')), "[#A]");
    assert_eq!(format_priority(None), "");
}

#[test]
fn cycle_unknown_priority_resets() {
    let c = PriorityCycler::new(vec!['X', 'Y']);
    assert_eq!(c.cycle(Some('Q')), None);
    assert_eq!(PriorityCycler::new(vec![]).cycle(None), None);
}

#[test]
fn add_and_edit_property() {
    let mut state = PropertyEditorState::new(vec![]);
    handle_property_action(&mut state, PropertyAction::AddProperty);
    assert_eq!(state.properties.len(), 1);
    assert_eq!(state.edit_mode, EditMode::Key);
    handle_property_action(&mut state, PropertyAction::TypeChar('I'));
    handle_property_action(&mut state, PropertyAction::TypeChar('D'));
    assert_eq!(state.properties[0].0, "ID");
}

#[test]
fn delete_property() {
    let mut state = PropertyEditorState::new(vec![("ID".into(), "abc".into()), ("EFFORT".into(), "45".into())]);
    state.selected = 1;
    handle_property_action(&mut state, PropertyAction::DeleteProperty);
    assert_eq!(state.properties.len(), 1);
    assert_eq!(state.properties[0].0, "ID");
}

#[test]
fn edit_value_and_backspace() {
    let mut state = PropertyEditorState::new(vec![("K".into(), "ab".into())]);
    handle_property_action(&mut state, PropertyAction::EditValue);
    handle_property_action(&mut state, PropertyAction::Backspace);
    handle_property_action(&mut state, PropertyAction::TypeChar('z'));
    assert_eq!(state.properties[0].1, "az");
    handle_property_action(&mut state, PropertyAction::Confirm);
    assert_eq!(state.edit_mode, EditMode::NoEdit);
    handle_property_action(&mut state, PropertyAction::SelectNext);
    assert_eq!(state.selected, 0);
}

#[test]
fn type_to_filter() {
    let mut state = TagEditorState::new(vec!["work".into(), "personal".into(), "workout".into()]);
    handle_tag_action(&mut state, TagAction::TypeChar('w'));
    handle_tag_action(&mut state, TagAction::TypeChar('o'));
    assert!(state.popup_visible);
    assert_eq!(state.popup_items, vec!["work", "workout"]);
}

#[test]
fn accept_suggestion() {
    let mut state = TagEditorState::new(vec!["work".into()]);
    handle_tag_action(&mut state, TagAction::TypeChar('w'));
    handle_tag_action(&mut state, TagAction::AcceptSuggestion);
    assert_eq!(state.tags, vec!["work"]);
    assert!(state.input.is_empty());
}

#[test]
fn accept_non_vocabulary_tag() {
    let mut state = TagEditorState::new(vec![]);
    state.input = "newtag".into();
    handle_tag_action(&mut state, TagAction::AcceptInput);
    assert_eq!(state.tags, vec!["newtag"]);
}

#[test]
fn backspace_empty_removes_last() {
    let mut state = TagEditorState::new(vec![]);
    state.tags = vec!["a".into(), "b".into()];
    handle_tag_action(&mut state, TagAction::Backspace);
    assert_eq!(state.tags, vec!["a"]);
}

#[test]
fn accept_input_trims_and_rejects_invalid() {
    let mut state = TagEditorState::new(vec![]);
    state.input = "  spaced  ".into();
    handle_tag_action(&mut state, TagAction::AcceptInput);
    assert_eq!(state.tags, vec!["spaced"]);
    state.input = "has space".into();
    handle_tag_action(&mut state, TagAction::AcceptInput);
    assert_eq!(state.tags, vec!["spaced"]);
    assert_eq!(state.input, "has space");
}

#[test]
fn popup_is_case_insensitive_and_skips_chosen_tags() {
    let mut state = TagEditorState::new(vec!["Work".into(), "homework".into()]);
    state.tags = vec!["homework".into()];
    handle_tag_action(&mut state, TagAction::TypeChar('W'));
    assert_eq!(state.popup_items, vec!["Work"]);
    handle_tag_action(&mut state, TagAction::Close);
    assert!(!state.popup_visible);
}

#[test]
fn format_roundtrip() {
    let tags: Vec<String> = vec!["work".into(), "urgent".into()];
    let s = format_tags(&tags);
    assert_eq!(s, ":work:urgent:");
    assert_eq!(parse_tags(&s), tags);
}

#[test]
fn format_empty() {
    assert_eq!(format_tags(&[]), "");
}

#[test]
fn valid_tags() {
    assert!(is_valid_tag("work"));
    assert!(is_valid_tag("my-tag"));
    assert!(is_valid_tag("tag_123"));
    assert!(!is_valid_tag(""));
    assert!(!is_valid_tag("has space"));
    assert!(!is_valid_tag("has:colon"));
}

#[test]
fn parse_skips_empty_pieces() {
    assert_eq!(parse_tags("::a::b"), vec!["a".to_string(), "b".to_string()]);
    assert!(parse_tags("").is_empty());
}

#[test]
fn parse_gives_back_formatted_tags() {
    let tags = vec!["a".to_string(), "my-tag".to_string(), "x_1".to_string(), "Ünï".to_string()];
    assert_eq!(parse_tags(&format_tags(&tags)), tags);
    let none: Vec<String> = Vec::new();
    assert_eq!(parse_tags(&format_tags(&none)), none);
}
