use rat_widgets::spinner::{SpinnerPreset, SpinnerSpec, SpinnerState};
use std::time::Duration;

#[test]
fn preset_defaults_match_expected_intervals() {
    let dots = SpinnerSpec::dots();
    let pulse = SpinnerSpec::pulse();

    assert_eq!(dots.interval(), Duration::from_millis(80));
    assert_eq!(pulse.interval(), Duration::from_millis(100));
    assert_eq!(dots.frames()[0], "⠋");
    assert_eq!(pulse.frames()[0], "∙∙∙");
}

#[test]
fn tick_cycles_custom_frames() {
    let frames = &["a", "b", "c"];
    let spec = SpinnerSpec::custom(frames);
    let mut state = SpinnerState::new();

    assert_eq!(state.current_frame(&spec), "a");
    state.tick(&spec);
    assert_eq!(state.current_frame(&spec), "b");
    state.tick(&spec);
    assert_eq!(state.current_frame(&spec), "c");
    state.tick(&spec);
    assert_eq!(state.current_frame(&spec), "a");
}

#[test]
fn reverse_reads_frames_from_end() {
    let frames = &["a", "b", "c"];
    let spec = SpinnerSpec::custom(frames).with_reversed(true);
    let mut state = SpinnerState::new();

    assert_eq!(state.current_frame(&spec), "c");
    state.tick(&spec);
    assert_eq!(state.current_frame(&spec), "b");
    state.tick(&spec);
    assert_eq!(state.current_frame(&spec), "a");
}

#[test]
fn advance_respects_interval() {
    let spec = SpinnerSpec::line().with_interval(Duration::from_millis(100));
    let mut state = SpinnerState::new();

    state.advance(&spec, Duration::from_millis(99));
    assert_eq!(state.current_frame(&spec), "-");
    state.advance(&spec, Duration::from_millis(1));
    assert_eq!(state.current_frame(&spec), "\\");
    state.advance(&spec, Duration::from_millis(250));
    assert_eq!(state.current_frame(&spec), "/");
}

#[test]
fn empty_custom_spinner_is_safe() {
    let spec = SpinnerSpec::custom(&[]);
    let mut state = SpinnerState::new();

    state.tick(&spec);
    state.advance(&spec, Duration::from_millis(10));
    assert_eq!(state.current_frame(&spec), "");
}

#[test]
fn presets_report_labels_and_intervals() {
    assert_eq!(SpinnerSpec::arrow().label(), "arrow");
    assert_eq!(SpinnerSpec::custom(&["x"]).label(), "custom");
    assert_eq!(SpinnerPreset::Bounce.default_interval(), Duration::from_millis(110));
    assert_eq!(SpinnerPreset::Line.frames().len(), 4);
    assert!(!SpinnerSpec::bounce().is_reversed());
}

#[test]
fn zero_interval_is_raised_to_one_millisecond() {
    let spec = SpinnerSpec::dots().with_interval(Duration::from_millis(0));
    assert_eq!(spec.interval(), Duration::from_millis(1));
    let mut state = SpinnerState::new();
    state.advance(&spec, Duration::from_millis(3));
    assert_eq!(state.current_frame(&spec), "⠸");
    state.reset();
    assert_eq!(state.current_frame(&spec), "⠋");
}

#[test]
fn two_advances_equal_one_of_the_sum() {
    let spec = SpinnerSpec::dots();
    let mut a = SpinnerState::new();
    let mut b = SpinnerState::new();
    a.advance(&spec, Duration::from_millis(50));
    a.advance(&spec, Duration::from_millis(1_000));
    b.advance(&spec, Duration::from_millis(1_050));
    assert_eq!(a.current_frame(&spec), b.current_frame(&spec));
    a.advance(&spec, Duration::from_millis(30));
    b.advance(&spec, Duration::from_millis(30));
    assert_eq!(a.current_frame(&spec), b.current_frame(&spec));
}

#[test]
fn with_interval_keeps_whole_milliseconds() {
    let spec = SpinnerSpec::dots().with_interval(Duration::from_micros(1500));
    assert_eq!(spec.interval(), Duration::from_millis(1));
    let spec = SpinnerSpec::dots().with_interval(Duration::ZERO);
    assert_eq!(spec.interval(), Duration::from_millis(1));
    let spec = SpinnerSpec::dots().with_interval(Duration::from_millis(100));
    assert_eq!(spec.interval(), Duration::from_millis(100));
}
