//! Timeline control: the decisions behind pausing, rewinding and scrubbing
//! a timeline, from keyboard and gamepad input or from its user interface.
use vstd::prelude::*;

verus! {

/// Settings of the timeline plugin
#[derive(Debug, Default, Copy, Clone, PartialEq, Eq, Structural)]
pub struct TimelinePlugin {
    pub ui: bool,
}

/// Timeline commands bound to keys and gamepad buttons
#[derive(Debug, Copy, Clone, PartialEq, Eq, Structural)]
pub enum TimelineInput {
    TogglePause,
    Rewind,
}

/// Whether a timeline paused before is paused after the timeline input,
/// and whether it is rewound to its start: the pause toggle flips it, the
/// rewind command sends it back to the start
pub fn timeline_input(toggle_pause_pressed: bool, rewind_pressed: bool, paused: bool) -> (r: (bool, bool))
    ensures
        r.0 == (paused != toggle_pause_pressed),
        r.1 == rewind_pressed,
{
    let mut now_paused = paused;
    if toggle_pause_pressed {
        now_paused = !now_paused;
    }
    (now_paused, rewind_pressed)
}

/// What the user did with a timeline's panel this frame
#[derive(Debug, Default, Copy, Clone, PartialEq, Eq, Structural)]
pub struct TimelineUiEvents {
    /// The position slider was moved
    pub slider_changed: bool,
    /// A drag of the position slider began
    pub slider_drag_started: bool,
    /// A drag of the position slider ended
    pub slider_drag_released: bool,
    /// The jump-to-start button was clicked
    pub start_clicked: bool,
    /// The play button (shown while paused) or the pause button (shown
    /// while playing) was clicked
    pub play_pause_clicked: bool,
    /// The jump-to-end button was clicked
    pub end_clicked: bool,
    /// A drag of the play rate scrubber began
    pub scrubber_drag_started: bool,
    /// A drag of the play rate scrubber ended
    pub scrubber_drag_released: bool,
}

/// Where a timeline's position goes
#[derive(Debug, Copy, Clone, PartialEq, Eq, Structural)]
pub enum TimestampChange {
    /// Stays where it is
    Keep,
    /// To the position slider's value
    Slider,
    /// To the start
    Start,
    /// To the end of the longest animation
    End,
}

/// What the panel does to a timeline
#[derive(Debug, Copy, Clone, PartialEq, Eq, Structural)]
pub struct TimelineUiResponse {
    pub timestamp: TimestampChange,
    pub paused: Option<bool>,
    pub cached_paused: Option<bool>,
}

/// The response of a timeline's panel to `events`, for a timeline whose
/// pause state is `paused` with `cached_paused` remembered.
///
/// Later controls win: the slider, then the buttons left to right, then the
/// scrubber. Dragging the slider pauses the timeline and remembers whether
/// it was paused; releasing it restores that. Dragging the scrubber pauses
/// it; releasing the scrubber plays it.
pub open spec fn ui_response(events: TimelineUiEvents, paused: bool, cached_paused: bool) -> TimelineUiResponse {
    let slider_ts = if events.slider_changed {
        TimestampChange::Slider
    } else {
        TimestampChange::Keep
    };
    let ts = if events.end_clicked {
        TimestampChange::End
    } else if events.start_clicked {
        TimestampChange::Start
    } else {
        slider_ts
    };
    let slider_paused = if events.slider_drag_started {
        Some(true)
    } else if events.slider_drag_released {
        Some(cached_paused)
    } else {
        None
    };
    let button_paused = if events.play_pause_clicked {
        Some(!paused)
    } else {
        slider_paused
    };
    let scrub_paused = if events.scrubber_drag_started {
        Some(true)
    } else if events.scrubber_drag_released {
        Some(false)
    } else {
        button_paused
    };
    TimelineUiResponse {
        timestamp: ts,
        paused: scrub_paused,
        cached_paused: if events.slider_drag_started {
            Some(paused)
        } else {
            None
        },
    }
}

/// See `ui_response`
pub fn timeline_ui_response(events: TimelineUiEvents, paused: bool, cached_paused: bool) -> (r: TimelineUiResponse)
    ensures
        r == ui_response(events, paused, cached_paused),
        events.play_pause_clicked && !events.scrubber_drag_started && !events.scrubber_drag_released
            ==> r.paused == Some(!paused),
        events.scrubber_drag_started ==> r.paused == Some(true),
        !events.scrubber_drag_started && events.scrubber_drag_released ==> r.paused == Some(false),
        events.end_clicked ==> r.timestamp == TimestampChange::End,
{
    let mut timestamp = TimestampChange::Keep;
    let mut new_paused: Option<bool> = None;
    let mut new_cached: Option<bool> = None;

    if events.slider_changed {
        timestamp = TimestampChange::Slider;
    }
    if events.slider_drag_started {
        new_paused = Some(true);
        new_cached = Some(paused);
    } else if events.slider_drag_released {
        new_paused = Some(cached_paused);
    }

    if events.start_clicked {
        timestamp = TimestampChange::Start;
    }
    if events.play_pause_clicked {
        new_paused = Some(!paused);
    }
    if events.end_clicked {
        timestamp = TimestampChange::End;
    }

    if events.scrubber_drag_started {
        new_paused = Some(true);
    } else if events.scrubber_drag_released {
        new_paused = Some(false);
    }

    TimelineUiResponse { timestamp, paused: new_paused, cached_paused: new_cached }
}

/// The pause state and remembered pause state of a timeline after applying
/// a panel response
pub open spec fn applied(response: TimelineUiResponse, paused: bool, cached_paused: bool) -> (bool, bool) {
    (
        match response.paused {
            Some(p) => p,
            None => paused,
        },
        match response.cached_paused {
            Some(c) => c,
            None => cached_paused,
        },
    )
}

/// See `applied`
pub fn apply_timeline_ui_response(response: TimelineUiResponse, paused: bool, cached_paused: bool) -> (r: (bool, bool))
    ensures
        r == applied(response, paused, cached_paused),
{
    let p = match response.paused {
        Some(p) => p,
        None => paused,
    };
    let c = match response.cached_paused {
        Some(c) => c,
        None => cached_paused,
    };
    (p, c)
}

/// The minutes, seconds and milliseconds shown for a timeline position of
/// `millis` milliseconds
pub fn timestamp_readout(millis: u128) -> (r: (u128, u128, u128))
    ensures
        r.0 == millis / 60000,
        r.1 == (millis / 1000) % 60,
        r.2 == millis % 1000,
        r.0 * 60000 + r.1 * 1000 + r.2 == millis,
{
    let secs = millis / 1000;
    let r = (secs / 60, secs % 60, millis % 1000);
    assert(millis / 1000 / 60 == millis / 60000) by (nonlinear_arith);
    assert(r.0 * 60000 + r.1 * 1000 + r.2 == millis) by (nonlinear_arith)
        requires
            secs == millis / 1000,
            r.0 == secs / 60,
            r.1 == secs % 60,
            r.2 == millis % 1000,
    ;
    r
}

/// A frame in which the panel was left alone
pub open spec fn no_events() -> TimelineUiEvents {
    TimelineUiEvents {
        slider_changed: false,
        slider_drag_started: false,
        slider_drag_released: false,
        start_clicked: false,
        play_pause_clicked: false,
        end_clicked: false,
        scrubber_drag_started: false,
        scrubber_drag_released: false,
    }
}

/// The play/pause button flips the pause state, whatever the slider does
/// in the same frame, unless the play rate scrubber is dragged or
/// released; clicking it twice gives back the state the timeline had
pub proof fn law_play_pause_flips(events: TimelineUiEvents, paused: bool, cached_paused: bool)
    ensures
        events.play_pause_clicked && !events.scrubber_drag_started && !events.scrubber_drag_released
            ==> ui_response(events, paused, cached_paused).paused == Some(!paused),
        ({
            let click = TimelineUiEvents { play_pause_clicked: true, ..no_events() };
            let once = applied(ui_response(click, paused, cached_paused), paused, cached_paused);
            let twice = applied(ui_response(click, once.0, once.1), once.0, once.1);
            once.0 != paused && twice == (paused, cached_paused)
        }),
{
}

/// Dragging the position slider pauses the timeline, and releasing it
/// restores the pause state the timeline had before the drag, whatever was
/// remembered before
pub proof fn law_slider_drag_restores_pause(paused: bool, cached_paused: bool)
    ensures
        ({
            let start = TimelineUiEvents { slider_drag_started: true, ..no_events() };
            let release = TimelineUiEvents { slider_drag_released: true, ..no_events() };
            let during = applied(ui_response(start, paused, cached_paused), paused, cached_paused);
            let after = applied(ui_response(release, during.0, during.1), during.0, during.1);
            during.0 && after.0 == paused
        }),
{
}

} // verus!
