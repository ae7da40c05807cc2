//! Animation core: times, stages, the discrete stop animation and its adapters.
pub mod adapters;
pub mod discrete;
pub mod timeline;

use vstd::prelude::*;

verus! {

/// A point on an animation clock.
///
/// The animation logic only ever compares instants with one another, so
/// instants are carried as integer keys: any encoding of the game clock that
/// preserves its order (earlier instant, smaller key) can be used.
pub type Instant = i64;

/// The time an animation is evaluated at, together with the time it was
/// last evaluated at and whether the driving clock was paused then and now
#[derive(Debug, Default, Copy, Clone, PartialEq, Eq)]
pub struct AnimationTime {
    pub t: Instant,
    pub prev_t: Instant,
    pub paused: bool,
    pub prev_paused: bool,
}

} // verus!

verus! {

/// Marks an animation as evaluated in the first stage of a frame
#[derive(Debug, Default, Copy, Clone, PartialEq, Eq, Structural)]
pub struct First;

/// Marks an animation as evaluated before the main update
#[derive(Debug, Default, Copy, Clone, PartialEq, Eq, Structural)]
pub struct PreUpdate;

/// Marks an animation as evaluated in the main update
#[derive(Debug, Default, Copy, Clone, PartialEq, Eq, Structural)]
pub struct Update;

/// Marks an animation as evaluated after the main update
#[derive(Debug, Default, Copy, Clone, PartialEq, Eq, Structural)]
pub struct PostUpdate;

/// Marks an animation as evaluated in the last stage of a frame
#[derive(Debug, Default, Copy, Clone, PartialEq, Eq, Structural)]
pub struct Last;

/// Untyped marker for animations that carry an `AnimationTag`
#[derive(Debug, Default, Copy, Clone, PartialEq, Eq, Structural)]
pub struct TaggedAnimation;

/// Strongly typed marker for an animation executing in stage `T`
#[derive(Debug)]
pub struct AnimationTag<T> {
    pub _phantom: core::marker::PhantomData<T>,
}

/// An `AnimationTag<T>` together with the untyped `TaggedAnimation`
#[derive(Debug)]
pub struct AnimationTagBundle<T> {
    pub tag: AnimationTag<T>,
    pub tagged: TaggedAnimation,
}

/// Settings of the animation plugin
#[derive(Debug, Default, Copy, Clone, PartialEq, Eq, Structural)]
pub struct AnimationPlugin {
    timeline_ui: bool,
}

impl AnimationPlugin {
    /// Whether the timeline user interface is shown
    pub closed spec fn shows_timeline_ui(&self) -> bool {
        self.timeline_ui
    }

    /// Whether the timeline user interface is shown
    pub fn timeline_ui(&self) -> (r: bool)
        ensures
            r == self.shows_timeline_ui(),
    {
        self.timeline_ui
    }

    /// The animation plugin without the timeline user interface
    pub fn new() -> (p: Self)
        ensures
            !p.shows_timeline_ui(),
    {
        AnimationPlugin { timeline_ui: false }
    }

    /// The animation plugin with the timeline user interface shown
    pub fn with_ui() -> (p: Self)
        ensures
            p.shows_timeline_ui(),
    {
        AnimationPlugin { timeline_ui: true }
    }
}

} // verus!
