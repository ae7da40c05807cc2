//! Animation adapters: each wraps another animation (the child) and
//! decides whether, and at what time, the child is evaluated, or what is
//! made of its result.
use vstd::prelude::*;

use core::marker::PhantomData;

use crate::animation::{AnimationTime, Instant};

verus! {

/// Adapter that can conditionally disable an animation
#[derive(Debug)]
pub struct Disable<T> {
    pub disabled: bool,
    pub _phantom: PhantomData<T>,
}

impl<T> Disable<T> {
    /// Nothing while disabled, otherwise the child's value; the child is
    /// only evaluated when enabled
    pub fn animate<F: FnOnce() -> T>(&self, child: F) -> (r: Option<T>)
        requires
            !self.disabled ==> child.requires(()),
        ensures
            self.disabled ==> r is None,
            !self.disabled ==> r is Some && child.ensures((), r->0),
    {
        if self.disabled {
            None
        } else {
            Some(child())
        }
    }
}

/// Animation adapter for flattening nested option types
#[derive(Debug)]
pub struct Flatten<T> {
    pub _phantom: PhantomData<T>,
}

impl<T> Flatten<T> {
    /// The inner value when both layers are present
    pub fn animate(&self, child_value: Option<Option<T>>) -> (r: Option<T>)
        ensures
            r == match child_value {
                Some(Some(v)) => Some(v),
                _ => None,
            },
    {
        match child_value {
            Some(Some(v)) => Some(v),
            _ => None,
        }
    }
}

/// Animation adapter for playing an animation after a specific time
#[derive(Debug)]
pub struct After<T> {
    pub after: Instant,
    pub _phantom: PhantomData<T>,
}

/// The time `After` evaluates its child at: the given time once `after` is
/// reached, `after` itself when rewinding back across it, else none
pub open spec fn after_time(after: Instant, time: AnimationTime) -> Option<AnimationTime> {
    if time.t >= after {
        Some(time)
    } else if time.prev_t >= after {
        Some(AnimationTime { t: after, ..time })
    } else {
        None
    }
}

impl<T> After<T> {
    /// The child's value at `after_time(self.after, time)`, if there is one
    pub fn animate<F: FnOnce(AnimationTime) -> T>(&self, time: AnimationTime, child: F) -> (r: Option<T>)
        requires
            after_time(self.after, time) matches Some(at) ==> child.requires((at,)),
        ensures
            match after_time(self.after, time) {
                Some(at) => r is Some && child.ensures((at,), r->0),
                None => r is None,
            },
            time.t >= self.after ==> r is Some && child.ensures((time,), r->0),
            time.t < self.after && time.prev_t < self.after ==> r is None,
    {
        if time.t >= self.after {
            Some(child(time))
        } else if time.t < self.after && time.prev_t >= self.after {
            Some(child(AnimationTime { t: self.after, ..time }))
        } else {
            None
        }
    }
}

/// Animation adapter for playing an animation before a specific time
#[derive(Debug)]
pub struct Before<T> {
    pub before: Instant,
    pub _phantom: PhantomData<T>,
}

/// The time `Before` evaluates its child at: the given time until `before`
/// is reached, `before` itself when crossing it, else none
pub open spec fn before_time(before: Instant, time: AnimationTime) -> Option<AnimationTime> {
    if time.t < before {
        Some(time)
    } else if time.prev_t < before {
        Some(AnimationTime { t: before, ..time })
    } else {
        None
    }
}

impl<T> Before<T> {
    /// The child's value at `before_time(self.before, time)`, if there is one
    pub fn animate<F: FnOnce(AnimationTime) -> T>(&self, time: AnimationTime, child: F) -> (r: Option<T>)
        requires
            before_time(self.before, time) matches Some(at) ==> child.requires((at,)),
        ensures
            match before_time(self.before, time) {
                Some(at) => r is Some && child.ensures((at,), r->0),
                None => r is None,
            },
            time.t < self.before ==> r is Some && child.ensures((time,), r->0),
            time.t >= self.before && time.prev_t >= self.before ==> r is None,
    {
        if time.t < self.before {
            Some(child(time))
        } else if time.t >= self.before && time.prev_t < self.before {
            Some(child(AnimationTime { t: self.before, ..time }))
        } else {
            None
        }
    }
}

/// Animation adapter that interpolates between discrete stops
#[derive(Debug)]
pub struct Interpolate<T> {
    pub clamp: bool,
    pub _phantom: PhantomData<T>,
}

/// The pair of neighbouring stops interpolated between, given the stop
/// closest to the evaluation time and whether it lies before that time:
/// the closest stop and the one after it when the time is past the closest
/// stop, the one before it and the closest stop otherwise, shifted inward at
/// either end
pub open spec fn bracket_of(closest: int, len: int, closest_before: bool) -> (int, int) {
    if closest_before {
        if closest == len - 1 {
            (closest - 1, closest)
        } else {
            (closest, closest + 1)
        }
    } else {
        if closest == 0 {
            (closest, closest + 1)
        } else {
            (closest - 1, closest)
        }
    }
}

impl<T> Interpolate<T> {
    /// Whether the stops interpolated over are pruned before interpolating:
    /// when playing forward unpaused
    pub fn prunes(&self, time: AnimationTime) -> (r: bool)
        ensures
            r == (!time.paused && time.t > time.prev_t),
    {
        !time.paused && time.t > time.prev_t
    }

    /// See `bracket_of`
    pub fn bracket(&self, closest: usize, len: usize, closest_before: bool) -> (r: (usize, usize))
        requires
            2 <= len,
            closest < len,
        ensures
            (r.0 as int, r.1 as int) == bracket_of(closest as int, len as int, closest_before),
    {
        if closest_before {
            if closest == len - 1 {
                (closest - 1, closest)
            } else {
                (closest, closest + 1)
            }
        } else {
            if closest == 0 {
                (closest, closest + 1)
            } else {
                (closest - 1, closest)
            }
        }
    }
}

/// Animation adapter for multiplying the results of two other animations
#[derive(Debug)]
pub struct Multiply<T> {
    pub _phantom: PhantomData<T>,
}

/// Adapter indicating that an animation should be evaluated automatically
#[derive(Debug, Default, Copy, Clone)]
pub struct Evaluate;

/// Time source reading the world clock
#[derive(Debug, Default, Copy, Clone, PartialEq, Eq, Structural)]
pub struct WorldTime;

/// How an optional animation result is applied to components
#[derive(Debug, Copy, Clone, PartialEq, Eq, Structural)]
pub enum TryAnimateComponentsMode {
    /// If the underlying animation returns Some, component is inserted
    /// If the underlying animation returns None, do nothing
    Update,
    /// If the underlying animation returns Some and component doesn't exist, component is inserted
    /// If the underlying animation returns None and component exists, component is removed
    Direct,
}

impl Default for TryAnimateComponentsMode {
    fn default() -> (m: Self)
        ensures
            m == TryAnimateComponentsMode::Update,
    {
        TryAnimateComponentsMode::Update
    }
}

/// What happens to a target's component
#[derive(Debug, Copy, Clone)]
pub enum ComponentChange<T> {
    /// Insert (or overwrite with) this value
    Insert(T),
    /// Remove the component
    Remove,
    /// Leave the component alone
    Keep,
}

/// What a doubly-optional animation result does to the targets' components:
/// an inner value is inserted, an inner absence removes the component, and
/// an outer absence leaves it alone
pub fn try_replace_components<T>(value: Option<Option<T>>) -> (r: ComponentChange<T>)
    ensures
        match value {
            Some(Some(v)) => r == ComponentChange::Insert(v),
            Some(None) => r == ComponentChange::<T>::Remove,
            None => r == ComponentChange::<T>::Keep,
        },
{
    match value {
        Some(Some(v)) => ComponentChange::Insert(v),
        Some(None) => ComponentChange::Remove,
        None => ComponentChange::Keep,
    }
}

/// `After` never evaluates its child before `after`, and `Before` never
/// evaluates its child after `before`; the rest of the time is passed on
pub proof fn law_adapters_respect_bounds(bound: Instant, time: AnimationTime)
    ensures
        after_time(bound, time) matches Some(at) ==> at.t >= bound && at.prev_t == time.prev_t
            && at.paused == time.paused && at.prev_paused == time.prev_paused,
        before_time(bound, time) matches Some(at) ==> at.t <= bound && at.prev_t == time.prev_t
            && at.paused == time.paused && at.prev_paused == time.prev_paused,
{
}

/// On its own side of the bound an adapter evaluates its child at exactly
/// the given time, whatever the previous time was; crossing the bound from
/// that side evaluates the child at the bound, so the value there is
/// restored; staying on the other side evaluates nothing
pub proof fn law_adapters_play_on_their_side(bound: Instant, time: AnimationTime)
    ensures
        time.t < bound ==> before_time(bound, time) == Some(time),
        time.t >= bound && time.prev_t < bound ==> before_time(bound, time) == Some(
            (AnimationTime { t: bound, ..time }),
        ),
        time.t >= bound && time.prev_t >= bound ==> before_time(bound, time) is None,
        time.t >= bound ==> after_time(bound, time) == Some(time),
        time.t < bound && time.prev_t >= bound ==> after_time(bound, time) == Some(
            (AnimationTime { t: bound, ..time }),
        ),
        time.t < bound && time.prev_t < bound ==> after_time(bound, time) is None,
{
}

/// The stops interpolated between are neighbours, lie within the stops, and
/// include the closest stop
pub proof fn law_bracket_neighbours(closest: int, len: int, closest_before: bool)
    requires
        2 <= len,
        0 <= closest < len,
    ensures
        ({
            let (a, b) = bracket_of(closest, len, closest_before);
            &&& b == a + 1
            &&& 0 <= a
            &&& b < len
            &&& (closest == a || closest == b)
        }),
{
}

} // verus!
