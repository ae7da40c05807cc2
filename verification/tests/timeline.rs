use legend_of_r::animation::timeline::{
    apply_timeline_ui_response, timeline_input, timeline_ui_response, timestamp_readout,
    TimelineInput, TimelinePlugin, TimelineUiEvents, TimestampChange,
};

#[test]
fn pause_toggle_flips_and_rewind_is_passed_on() {
    assert_eq!(timeline_input(true, false, false), (true, false));
    assert_eq!(timeline_input(true, true, true), (false, true));
    assert_eq!(timeline_input(false, false, true), (true, false));
}

#[test]
fn toggling_twice_restores_pause_state() {
    let (once, _) = timeline_input(true, false, false);
    let (twice, _) = timeline_input(true, false, once);
    assert!(!twice);
}

#[test]
fn quiet_panel_changes_nothing() {
    let r = timeline_ui_response(TimelineUiEvents::default(), true, false);
    assert_eq!(r.timestamp, TimestampChange::Keep);
    assert_eq!(r.paused, None);
    assert_eq!(r.cached_paused, None);
    assert_eq!(apply_timeline_ui_response(r, true, false), (true, false));
}

#[test]
fn slider_drag_pauses_and_release_restores() {
    let start = TimelineUiEvents { slider_drag_started: true, slider_changed: true, ..Default::default() };
    let r = timeline_ui_response(start, false, true);
    assert_eq!(r.timestamp, TimestampChange::Slider);
    let (paused, cached) = apply_timeline_ui_response(r, false, true);
    assert_eq!((paused, cached), (true, false));
    let release = TimelineUiEvents { slider_drag_released: true, ..Default::default() };
    let r = timeline_ui_response(release, paused, cached);
    assert_eq!(apply_timeline_ui_response(r, paused, cached), (false, false));
}

#[test]
fn later_controls_win() {
    let events = TimelineUiEvents {
        slider_changed: true,
        start_clicked: true,
        end_clicked: true,
        play_pause_clicked: true,
        scrubber_drag_released: true,
        ..Default::default()
    };
    let r = timeline_ui_response(events, true, false);
    assert_eq!(r.timestamp, TimestampChange::End);
    assert_eq!(r.paused, Some(false));
    let r = timeline_ui_response(TimelineUiEvents { start_clicked: true, play_pause_clicked: true, ..Default::default() }, true, false);
    assert_eq!(r.timestamp, TimestampChange::Start);
    assert_eq!(r.paused, Some(false));
    let r = timeline_ui_response(TimelineUiEvents { scrubber_drag_started: true, ..Default::default() }, false, false);
    assert_eq!(r.paused, Some(true));
}

#[test]
fn readout_splits_minutes_seconds_millis() {
    assert_eq!(timestamp_readout(0), (0, 0, 0));
    assert_eq!(timestamp_readout(61_234), (1, 1, 234));
    assert_eq!(timestamp_readout(3_599_999), (59, 59, 999));
    assert_eq!(timestamp_readout(3_600_000), (60, 0, 0));
}

#[test]
fn plugin_and_inputs() {
    assert!(!TimelinePlugin::default().ui);
    assert_ne!(TimelineInput::TogglePause, TimelineInput::Rewind);
}
