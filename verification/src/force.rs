//! The force: a detachable pod that docks to the front or rear of the ship,
//! can be launched, flies freely and can be recalled.
//!
//! Each function here is the decision a game system makes about the force;
//! the systems themselves read the world, measure distances and positions,
//! hand the outcomes of those measurements in, and apply what comes back.
use vstd::prelude::*;

use crate::animation::discrete::{DeterminismId, Determinisms, DiscreteStop};
use crate::animation::Instant;

verus! {

/// Where the force is and what it is doing
#[derive(Debug, Copy, Clone, PartialEq, Eq, Structural)]
pub enum ForceState {
    Free,
    Recall,
    DockedFront,
    DockedRear,
    LaunchForward,
    LaunchBackward,
}

impl Default for ForceState {
    fn default() -> (s: Self)
        ensures
            s == ForceState::Free,
    {
        ForceState::Free
    }
}

/// Marker indicating a force should receive input
#[derive(Debug, Default, Copy, Clone, PartialEq, Eq, Structural)]
pub struct ForceInput;

/// The force is attached to the ship
pub open spec fn docked(state: ForceState) -> bool {
    state == ForceState::DockedFront || state == ForceState::DockedRear
}

/// The force is flying away from the ship after a launch
pub open spec fn launched(state: ForceState) -> bool {
    state == ForceState::LaunchForward || state == ForceState::LaunchBackward
}

impl ForceState {
    /// Whether the force is attached to the ship
    pub fn is_docked(&self) -> (r: bool)
        ensures
            r == docked(*self),
    {
        match self {
            ForceState::DockedFront | ForceState::DockedRear => true,
            _ => false,
        }
    }
}

/// The state the force input moves the force to when the force button has
/// just been pressed: a free force is recalled, a docked force is launched
/// away from the side it is docked on; otherwise nothing changes.
pub open spec fn input_transition(state: ForceState, force_just_pressed: bool) -> Option<ForceState> {
    if !force_just_pressed {
        None
    } else {
        match state {
            ForceState::Free => Some(ForceState::Recall),
            ForceState::DockedFront => Some(ForceState::LaunchForward),
            ForceState::DockedRear => Some(ForceState::LaunchBackward),
            _ => None,
        }
    }
}

/// See `input_transition`
pub fn force_input(state: ForceState, force_just_pressed: bool) -> (r: Option<ForceState>)
    ensures
        r == input_transition(state, force_just_pressed),
{
    if !force_just_pressed {
        return None;
    }
    match state {
        ForceState::Free => Some(ForceState::Recall),
        ForceState::DockedFront => Some(ForceState::LaunchForward),
        ForceState::DockedRear => Some(ForceState::LaunchBackward),
        _ => None,
    }
}

/// Horizontal direction of a launched force: `1` forward, `-1` backward
pub open spec fn launch_sign(state: ForceState) -> Option<i8> {
    match state {
        ForceState::LaunchForward => Some(1i8),
        ForceState::LaunchBackward => Some(-1i8),
        _ => None,
    }
}

/// See `launch_sign`
pub fn launch_direction(state: ForceState) -> (r: Option<i8>)
    ensures
        r == launch_sign(state),
{
    match state {
        ForceState::LaunchForward => Some(1),
        ForceState::LaunchBackward => Some(-1),
        _ => None,
    }
}

/// The state a body contact moves the force to: a launched force that hits
/// something head-on (the contact normal opposes its launch direction)
/// becomes free.
pub open spec fn collision_transition(state: ForceState, head_on: bool) -> Option<ForceState> {
    if launched(state) && head_on {
        Some(ForceState::Free)
    } else {
        None
    }
}

/// See `collision_transition`
pub fn force_body_collision(state: ForceState, head_on: bool) -> (r: Option<ForceState>)
    ensures
        r == collision_transition(state, head_on),
{
    match launch_direction(state) {
        Some(_) => if head_on {
            Some(ForceState::Free)
        } else {
            None
        },
        None => None,
    }
}

/// The state a sensor overlap moves the force to.
///
/// `ship_alive` is `None` when the ship cannot be found. The overlap counts
/// when the live ship's collider touches the force's (`ship_then_force`),
/// or when the force's collider touches the ship's (`force_then_ship`,
/// counted even for a dead ship). A free or recalled force then docks: to
/// the front when the ship is behind it, to the rear otherwise.
///
/// That a dead ship still takes the force when the force's collider comes
/// first looks like a slip in how the game groups the condition
/// (`alive && ship_then_force || force_then_ship`); it is kept so that
/// docking behaves as the game does.
pub open spec fn dock_transition(
    state: ForceState,
    ship_alive: Option<bool>,
    ship_then_force: bool,
    force_then_ship: bool,
    ship_behind_force: bool,
) -> Option<ForceState> {
    match ship_alive {
        Some(alive) => if ((alive && ship_then_force) || force_then_ship) && (state
            == ForceState::Free || state == ForceState::Recall) {
            Some(
                if ship_behind_force {
                    ForceState::DockedFront
                } else {
                    ForceState::DockedRear
                },
            )
        } else {
            None
        },
        None => None,
    }
}

/// See `dock_transition`
pub fn force_sensor_collision(
    state: ForceState,
    ship_alive: Option<bool>,
    ship_then_force: bool,
    force_then_ship: bool,
    ship_behind_force: bool,
) -> (r: Option<ForceState>)
    ensures
        r == dock_transition(state, ship_alive, ship_then_force, force_then_ship, ship_behind_force),
        !ship_then_force && !force_then_ship ==> r is None,
        ship_alive is None ==> r is None,
        ship_alive == Some(false) && !force_then_ship ==> r is None,
{
    match ship_alive {
        Some(alive) if alive && ship_then_force || force_then_ship => {
            match state {
                ForceState::Free | ForceState::Recall => Some(
                    if ship_behind_force {
                        ForceState::DockedFront
                    } else {
                        ForceState::DockedRear
                    },
                ),
                _ => None,
            }
        },
        _ => None,
    }
}

/// Whether the force's vulcan is switched on (`Some(true)`) or off
/// (`Some(false)`) when the force goes from `current` to `next`: undocking
/// switches it on, docking switches it off.
pub open spec fn vulcan_switch(current: ForceState, next: ForceState) -> Option<bool> {
    if docked(current) {
        Some(true)
    } else if docked(next) {
        Some(false)
    } else {
        None
    }
}

/// See `vulcan_switch`
pub fn vulcan_toggle(current: ForceState, next: ForceState) -> (r: Option<bool>)
    ensures
        r == vulcan_switch(current, next),
{
    if current.is_docked() {
        Some(true)
    } else if next.is_docked() {
        Some(false)
    } else {
        None
    }
}

/// The bodies pushed out of the scenery with the force: the force itself,
/// unless it is docked, when the ship carries it
pub fn force_contact_depenetration<E: Copy>(state: ForceState, force: E) -> (r: Vec<E>)
    ensures
        r@ == if docked(state) {
            Seq::<E>::empty()
        } else {
            seq![force]
        },
{
    if state.is_docked() {
        Vec::new()
    } else {
        let mut v = Vec::new();
        v.push(force);
        v
    }
}

/// The bodies pushed out of the scenery with the ship: the ship, and the
/// force too while it is docked
pub fn force_ship_contact_depenetration<E: Copy>(
    force_state: Option<ForceState>,
    ship: E,
    force: E,
) -> (r: Vec<E>)
    ensures
        r@ == match force_state {
            Some(s) => if docked(s) {
                seq![ship, force]
            } else {
                seq![ship]
            },
            None => seq![ship],
        },
{
    let mut v = Vec::new();
    v.push(ship);
    match force_state {
        Some(s) => if s.is_docked() {
            v.push(force);
        },
        None => {},
    }
    proof {
        assert(v@ =~= match force_state {
            Some(s) => if docked(s) {
                seq![ship, force]
            } else {
                seq![ship]
            },
            None => seq![ship],
        });
    }
    v
}

/// Horizontal offset of a docked force from the ship, in units of the
/// docking distance: `1` in front, `-1` behind
pub open spec fn dock_sign(state: ForceState) -> Option<i8> {
    match state {
        ForceState::DockedFront => Some(1i8),
        ForceState::DockedRear => Some(-1i8),
        _ => None,
    }
}

/// See `dock_sign`
pub fn force_dock_transform(state: ForceState) -> (r: Option<i8>)
    ensures
        r == dock_sign(state),
{
    match state {
        ForceState::DockedFront => Some(1),
        ForceState::DockedRear => Some(-1),
        _ => None,
    }
}

/// Which of the force's speeds its movement uses
#[derive(Debug, Copy, Clone, PartialEq, Eq, Structural)]
pub enum ForceSpeed {
    /// Cruising toward the catch plane
    Free,
    /// Closing in on the ship from within the docking distance
    Docking,
    /// Flying back to the ship
    Recall,
    /// Not moving
    Stopped,
    /// Flying away from the ship
    Launch,
}

/// Where the force's movement aims
#[derive(Debug, Copy, Clone, PartialEq, Eq, Structural)]
pub enum ForceAim {
    /// Keep the current target
    Keep,
    /// The catch plane a quarter of the playfield from the centre, on the
    /// left (`negative`) or right side; once there, follow the ship's height
    CatchPlane { negative: bool },
    /// The ship, one unit short of it on the force's side
    Ship,
    /// The playfield edge on the left (`negative`) or right side
    Edge { negative: bool },
}

/// How the force moves this frame
#[derive(Debug, Copy, Clone, PartialEq, Eq, Structural)]
pub struct ForceTarget {
    pub active: bool,
    pub speed: ForceSpeed,
    pub aim: ForceAim,
}

/// How the force moves in `state`.
///
/// `ship` is `None` when the ship cannot be found, else whether the ship is
/// on the right half of the playfield and whether it is within docking
/// distance of the force. A free force heads for the catch plane opposite
/// the ship; a recalled force flies at the ship, slowing down once close; a
/// launched force flies to the playfield edge; a docked force does not move.
pub open spec fn target_for(state: ForceState, ship: Option<(bool, bool)>) -> ForceTarget {
    ForceTarget {
        active: !docked(state),
        speed: match state {
            ForceState::Free => ForceSpeed::Free,
            ForceState::Recall => match ship {
                Some((_, close)) => if close {
                    ForceSpeed::Docking
                } else {
                    ForceSpeed::Recall
                },
                None => ForceSpeed::Recall,
            },
            ForceState::DockedFront | ForceState::DockedRear => ForceSpeed::Stopped,
            ForceState::LaunchForward | ForceState::LaunchBackward => ForceSpeed::Launch,
        },
        aim: match state {
            ForceState::Free => ForceAim::CatchPlane {
                negative: match ship {
                    Some((right, _)) => right,
                    None => false,
                },
            },
            ForceState::Recall => ForceAim::Ship,
            ForceState::LaunchForward => ForceAim::Edge { negative: false },
            ForceState::LaunchBackward => ForceAim::Edge { negative: true },
            _ => ForceAim::Keep,
        },
    }
}

/// See `target_for`
pub fn force_target(state: ForceState, ship: Option<(bool, bool)>) -> (r: ForceTarget)
    ensures
        r == target_for(state, ship),
        state == ForceState::Free && ship is Some ==> r.aim == (ForceAim::CatchPlane { negative: (ship->0).0 }),
        state == ForceState::Free && ship is None ==> r.aim == (ForceAim::CatchPlane { negative: false }),
{
    let active = !state.is_docked();
    let speed = match state {
        ForceState::Free => ForceSpeed::Free,
        ForceState::Recall => match ship {
            Some((_, close)) if close => ForceSpeed::Docking,
            _ => ForceSpeed::Recall,
        },
        ForceState::DockedFront | ForceState::DockedRear => ForceSpeed::Stopped,
        ForceState::LaunchForward | ForceState::LaunchBackward => ForceSpeed::Launch,
    };
    let aim = match state {
        ForceState::Free => match ship {
            Some((right, _)) if right => ForceAim::CatchPlane { negative: true },
            _ => ForceAim::CatchPlane { negative: false },
        },
        ForceState::Recall => ForceAim::Ship,
        ForceState::LaunchForward => ForceAim::Edge { negative: false },
        ForceState::LaunchBackward => ForceAim::Edge { negative: true },
        _ => ForceAim::Keep,
    };
    ForceTarget { active, speed, aim }
}

/// Pressing the force button never docks the force.
pub proof fn law_input_never_docks(state: ForceState, pressed: bool)
    ensures
        input_transition(state, pressed) matches Some(next) ==> !docked(next),
{
}

/// A docked force, when the button is pressed, is launched away from the
/// side of the ship it was docked on.
pub proof fn law_launch_from_dock_side(state: ForceState)
    requires
        docked(state),
    ensures
        input_transition(state, true) matches Some(next) && launched(next) && launch_sign(next)
            == dock_sign(state),
{
}

/// Docking only happens to a free or recalled force, and always yields a
/// docked state.
pub proof fn law_dock_only_when_loose(
    state: ForceState,
    ship_alive: Option<bool>,
    ship_then_force: bool,
    force_then_ship: bool,
    ship_behind_force: bool,
)
    ensures
        dock_transition(state, ship_alive, ship_then_force, force_then_ship, ship_behind_force) matches Some(next)
            ==> (state == ForceState::Free || state == ForceState::Recall) && docked(next),
{
}

/// Docking takes an overlap of the ship and the force: without one, or
/// without a ship, nothing happens, and a dead ship takes the force only
/// when the force's collider touches it. A loose force that the living
/// ship touches, or that touches any ship found, always docks.
pub proof fn law_dock_needs_overlap(
    state: ForceState,
    ship_alive: Option<bool>,
    ship_then_force: bool,
    force_then_ship: bool,
    ship_behind_force: bool,
)
    ensures
        !ship_then_force && !force_then_ship ==> dock_transition(
            state,
            ship_alive,
            ship_then_force,
            force_then_ship,
            ship_behind_force,
        ) is None,
        ship_alive is None ==> dock_transition(
            state,
            ship_alive,
            ship_then_force,
            force_then_ship,
            ship_behind_force,
        ) is None,
        ship_alive == Some(false) && !force_then_ship ==> dock_transition(
            state,
            ship_alive,
            ship_then_force,
            force_then_ship,
            ship_behind_force,
        ) is None,
        (state == ForceState::Free || state == ForceState::Recall) && ship_alive is Some && (
        force_then_ship || (ship_alive == Some(true) && ship_then_force)) ==> dock_transition(
            state,
            ship_alive,
            ship_then_force,
            force_then_ship,
            ship_behind_force,
        ) is Some,
{
}

/// A free force heads for the catch plane on the side opposite the ship:
/// the left one when the ship is on the right half, the right one
/// otherwise or when the ship cannot be found
pub proof fn law_catch_plane_opposite_ship(right: bool, close: bool)
    ensures
        target_for(ForceState::Free, Some((right, close))).aim == (ForceAim::CatchPlane { negative: right }),
        target_for(ForceState::Free, None).aim == (ForceAim::CatchPlane { negative: false }),
{
}

/// A docked force is not steered: it is inactive, stopped, and keeps its
/// aim.
pub proof fn law_docked_force_rides_with_ship(state: ForceState, ship: Option<(bool, bool)>)
    requires
        docked(state),
    ensures
        !target_for(state, ship).active,
        target_for(state, ship).speed == ForceSpeed::Stopped,
        target_for(state, ship).aim == ForceAim::Keep,
{
}

/// The force's vulcan is switched on exactly when the force leaves the dock
/// and off exactly when a loose force docks.
pub proof fn law_vulcan_follows_dock(current: ForceState, next: ForceState)
    ensures
        vulcan_switch(current, next) == Some(true) <==> docked(current),
        vulcan_switch(current, next) == Some(false) <==> !docked(current) && docked(next),
{
}

/// The force's round trip: launched from the front dock, stopped head-on,
/// recalled, and touched by the living ship again, it docks once more, on
/// the side the ship is then on.
pub proof fn law_round_trip(ship_behind_force: bool)
    ensures
        input_transition(ForceState::DockedFront, true) == Some(ForceState::LaunchForward),
        collision_transition(ForceState::LaunchForward, true) == Some(ForceState::Free),
        input_transition(ForceState::Free, true) == Some(ForceState::Recall),
        dock_transition(ForceState::Recall, Some(true), true, false, ship_behind_force) == Some(
            if ship_behind_force {
                ForceState::DockedFront
            } else {
                ForceState::DockedRear
            },
        ),
{
}

/// A change of the force's state at instant `t`
#[derive(Debug, Copy, Clone, PartialEq, Eq)]
pub struct ForceStateEvent<E> {
    pub target: E,
    pub state: ForceState,
    pub t: Instant,
}

/// Switches the force's input on or off from instant `t`
#[derive(Debug, Copy, Clone, PartialEq, Eq)]
pub struct ForceInputEvent<E> {
    pub target: E,
    pub enabled: bool,
    pub t: Instant,
    pub determinism: DeterminismId,
}

/// Switches the force's vulcan on or off from instant `t`
#[derive(Debug, Copy, Clone, PartialEq, Eq)]
pub struct ForceVulcanEvent<E> {
    pub target: E,
    pub enabled: bool,
    pub t: Instant,
    pub determinism: DeterminismId,
}

/// Records a change of the force's state: the stop that applies the new
/// state from the event's instant, in a fresh determinism group, and the
/// vulcan switch the change calls for (see `vulcan_switch`), at instant
/// `now` of the force's timeline and in the same group
pub fn force_state_event<E: Copy>(
    event: ForceStateEvent<E>,
    current: ForceState,
    now: Instant,
    determinisms: &mut Determinisms,
) -> (r: (DiscreteStop<ForceState>, Option<ForceVulcanEvent<E>>))
    requires
        old(determinisms).head() < usize::MAX,
    ensures
        final(determinisms).head() == old(determinisms).head() + 1,
        r.0 == (DiscreteStop {
            t: event.t,
            value: event.state,
            determinism: old(determinisms).head() as usize,
            disabled: false,
        }),
        r.1 == match vulcan_switch(current, event.state) {
            Some(on) => Some(
                ForceVulcanEvent {
                    target: event.target,
                    enabled: on,
                    t: now,
                    determinism: old(determinisms).head() as usize,
                },
            ),
            None => None,
        },
{
    let determinism = determinisms.next();
    let stop = DiscreteStop { t: event.t, value: event.state, determinism, disabled: false };
    let vulcan = match vulcan_toggle(current, event.state) {
        Some(on) => Some(ForceVulcanEvent { target: event.target, enabled: on, t: now, determinism }),
        None => None,
    };
    (stop, vulcan)
}

/// What the death of the force's ship at instant `t` does to the force:
/// it is set free, and its input and its vulcan are switched off
pub fn force_ship_death<E: Copy>(force: E, t: Instant, determinism: DeterminismId) -> (r: (
    ForceStateEvent<E>,
    ForceInputEvent<E>,
    ForceVulcanEvent<E>,
))
    ensures
        r.0 == (ForceStateEvent { target: force, state: ForceState::Free, t }),
        r.1 == (ForceInputEvent { target: force, enabled: false, t, determinism }),
        r.2 == (ForceVulcanEvent { target: force, enabled: false, t, determinism }),
{
    (
        ForceStateEvent { target: force, state: ForceState::Free, t },
        ForceInputEvent { target: force, enabled: false, t, determinism },
        ForceVulcanEvent { target: force, enabled: false, t, determinism },
    )
}

/// What the respawn of the force's ship at instant `t` does to the force:
/// its input and its vulcan are switched back on
pub fn force_ship_respawn<E: Copy>(force: E, t: Instant, determinism: DeterminismId) -> (r: (
    ForceInputEvent<E>,
    ForceVulcanEvent<E>,
))
    ensures
        r.0 == (ForceInputEvent { target: force, enabled: true, t, determinism }),
        r.1 == (ForceVulcanEvent { target: force, enabled: true, t, determinism }),
{
    (
        ForceInputEvent { target: force, enabled: true, t, determinism },
        ForceVulcanEvent { target: force, enabled: true, t, determinism },
    )
}

/// The stop an input switch adds to the force's input stops: the input
/// marker from the event's instant when enabled, nothing when disabled
pub fn force_input_event<E: Copy>(event: ForceInputEvent<E>) -> (r: DiscreteStop<Option<ForceInput>>)
    ensures
        r == (DiscreteStop {
            t: event.t,
            value: if event.enabled {
                Some(ForceInput)
            } else {
                None
            },
            determinism: event.determinism,
            disabled: false,
        }),
{
    DiscreteStop {
        t: event.t,
        value: if event.enabled {
            Some(ForceInput)
        } else {
            None
        },
        determinism: event.determinism,
        disabled: false,
    }
}

/// The stop a vulcan switch adds to the force's refire stops: a fresh
/// refire timer from the event's instant when enabled, nothing when
/// disabled
pub fn force_vulcan_event<E: Copy, V>(event: ForceVulcanEvent<E>, timer: V) -> (r: DiscreteStop<Option<V>>)
    ensures
        r.t == event.t,
        r.value == if event.enabled {
            Some(timer)
        } else {
            None
        },
        r.determinism == event.determinism,
        !r.disabled,
{
    DiscreteStop {
        t: event.t,
        value: if event.enabled {
            Some(timer)
        } else {
            None
        },
        determinism: event.determinism,
        disabled: false,
    }
}

} // verus!
