use legend_of_r::animation::discrete::{Determinisms, DiscreteStop};
use legend_of_r::force::{
    force_body_collision, force_contact_depenetration, force_dock_transform, force_input,
    force_input_event, force_sensor_collision, force_ship_contact_depenetration,
    force_ship_death, force_ship_respawn, force_state_event, force_target, force_vulcan_event,
    launch_direction, vulcan_toggle, ForceAim, ForceInput, ForceInputEvent, ForceSpeed,
    ForceState, ForceStateEvent, ForceVulcanEvent,
};

use ForceState::{DockedFront, DockedRear, Free, LaunchBackward, LaunchForward, Recall};

#[test]
fn default_state_is_free() {
    assert_eq!(ForceState::default(), Free);
    assert!(DockedFront.is_docked() && DockedRear.is_docked());
    assert!(!Free.is_docked() && !Recall.is_docked() && !LaunchForward.is_docked());
}

#[test]
fn button_recalls_or_launches() {
    assert_eq!(force_input(Free, true), Some(Recall));
    assert_eq!(force_input(DockedFront, true), Some(LaunchForward));
    assert_eq!(force_input(DockedRear, true), Some(LaunchBackward));
    assert_eq!(force_input(Recall, true), None);
    assert_eq!(force_input(LaunchForward, true), None);
    assert_eq!(force_input(Free, false), None);
}

#[test]
fn launch_and_dock_directions() {
    assert_eq!(launch_direction(LaunchForward), Some(1));
    assert_eq!(launch_direction(LaunchBackward), Some(-1));
    assert_eq!(launch_direction(Free), None);
    assert_eq!(force_dock_transform(DockedFront), Some(1));
    assert_eq!(force_dock_transform(DockedRear), Some(-1));
    assert_eq!(force_dock_transform(Recall), None);
}

#[test]
fn head_on_hit_frees_a_launched_force() {
    assert_eq!(force_body_collision(LaunchForward, true), Some(Free));
    assert_eq!(force_body_collision(LaunchBackward, true), Some(Free));
    assert_eq!(force_body_collision(LaunchForward, false), None);
    assert_eq!(force_body_collision(Free, true), None);
}

#[test]
fn sensor_docks_a_loose_force() {
    assert_eq!(force_sensor_collision(Free, Some(true), true, false, true), Some(DockedFront));
    assert_eq!(force_sensor_collision(Recall, Some(true), true, false, false), Some(DockedRear));
    assert_eq!(force_sensor_collision(Recall, Some(false), true, false, false), None);
    assert_eq!(force_sensor_collision(Recall, Some(false), false, true, true), Some(DockedFront));
    assert_eq!(force_sensor_collision(LaunchForward, Some(true), true, true, true), None);
    assert_eq!(force_sensor_collision(Free, None, true, true, true), None);
}

#[test]
fn vulcan_follows_docking() {
    assert_eq!(vulcan_toggle(DockedFront, LaunchForward), Some(true));
    assert_eq!(vulcan_toggle(Recall, DockedRear), Some(false));
    assert_eq!(vulcan_toggle(Free, Recall), None);
}

#[test]
fn depenetration_targets() {
    assert_eq!(force_contact_depenetration(DockedFront, 7u32), Vec::<u32>::new());
    assert_eq!(force_contact_depenetration(Free, 7u32), vec![7]);
    assert_eq!(force_ship_contact_depenetration(Some(DockedRear), 1u32, 2u32), vec![1, 2]);
    assert_eq!(force_ship_contact_depenetration(Some(Recall), 1u32, 2u32), vec![1]);
    assert_eq!(force_ship_contact_depenetration(None, 1u32, 2u32), vec![1]);
}

#[test]
fn targets_per_state() {
    let t = force_target(Free, Some((true, false)));
    assert!(t.active);
    assert_eq!(t.speed, ForceSpeed::Free);
    assert_eq!(t.aim, ForceAim::CatchPlane { negative: true });
    assert_eq!(force_target(Free, None).aim, ForceAim::CatchPlane { negative: false });
    assert_eq!(force_target(Recall, Some((false, true))).speed, ForceSpeed::Docking);
    assert_eq!(force_target(Recall, Some((false, false))).speed, ForceSpeed::Recall);
    assert_eq!(force_target(Recall, None).aim, ForceAim::Ship);
    assert_eq!(force_target(LaunchBackward, None).aim, ForceAim::Edge { negative: true });
    assert_eq!(force_target(LaunchForward, None).speed, ForceSpeed::Launch);
    let docked = force_target(DockedFront, Some((true, true)));
    assert!(!docked.active);
    assert_eq!(docked.speed, ForceSpeed::Stopped);
    assert_eq!(docked.aim, ForceAim::Keep);
}

#[test]
fn round_trip_docks_again() {
    let s = force_input(DockedFront, true).unwrap();
    assert_eq!(s, LaunchForward);
    let s = force_body_collision(s, true).unwrap();
    let s = force_input(s, true).unwrap();
    assert_eq!(s, Recall);
    assert_eq!(force_sensor_collision(s, Some(true), true, false, false), Some(DockedRear));
}

#[test]
fn state_event_records_a_stop_in_a_fresh_group() {
    let mut determinisms = Determinisms::default();
    determinisms.next();
    let event = ForceStateEvent { target: 9u32, state: LaunchForward, t: 40 };
    let (stop, vulcan) = force_state_event(event, DockedFront, 41, &mut determinisms);
    assert_eq!(stop, DiscreteStop { t: 40, value: LaunchForward, determinism: 1, disabled: false });
    assert_eq!(vulcan, Some(ForceVulcanEvent { target: 9, enabled: true, t: 41, determinism: 1 }));
    let event = ForceStateEvent { target: 9u32, state: Recall, t: 50 };
    let (stop, vulcan) = force_state_event(event, Free, 50, &mut determinisms);
    assert_eq!(stop.determinism, 2);
    assert_eq!(vulcan, None);
    assert_eq!(determinisms.next(), 3);
}

#[test]
fn death_and_respawn_events() {
    let (state, input, vulcan) = force_ship_death(5u32, 100, 3);
    assert_eq!(state, ForceStateEvent { target: 5, state: Free, t: 100 });
    assert_eq!(input, ForceInputEvent { target: 5, enabled: false, t: 100, determinism: 3 });
    assert_eq!(vulcan, ForceVulcanEvent { target: 5, enabled: false, t: 100, determinism: 3 });
    let (input, vulcan) = force_ship_respawn(5u32, 200, 4);
    assert!(input.enabled && vulcan.enabled);
    assert_eq!(input.t, 200);
    assert_eq!(vulcan.determinism, 4);
}

#[test]
fn switch_events_become_stops() {
    let on = force_input_event(ForceInputEvent { target: 1u32, enabled: true, t: 7, determinism: 2 });
    assert_eq!(on, DiscreteStop { t: 7, value: Some(ForceInput), determinism: 2, disabled: false });
    let off = force_input_event(ForceInputEvent { target: 1u32, enabled: false, t: 8, determinism: 2 });
    assert_eq!(off.value, None);
    let v = force_vulcan_event(ForceVulcanEvent { target: 1u32, enabled: true, t: 9, determinism: 5 }, "timer");
    assert_eq!(v, DiscreteStop { t: 9, value: Some("timer"), determinism: 5, disabled: false });
    let v = force_vulcan_event(ForceVulcanEvent { target: 1u32, enabled: false, t: 9, determinism: 5 }, "timer");
    assert_eq!(v.value, None);
}
