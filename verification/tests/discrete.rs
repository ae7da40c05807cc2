use legend_of_r::animation::discrete::{Determinisms, Discrete, DiscreteStop};
use legend_of_r::animation::AnimationTime;

fn stop(t: i64, value: i32) -> DiscreteStop<i32> {
    DiscreteStop { t, value, determinism: 0, disabled: false }
}

fn times(d: &Discrete<i32>) -> Vec<i64> {
    d.stops().iter().map(|s| s.t).collect()
}

fn play(t: i64, prev_t: i64) -> AnimationTime {
    AnimationTime { t, prev_t, paused: false, prev_paused: false }
}

#[test]
fn determinisms_count_up_from_zero() {
    let mut d = Determinisms::default();
    assert_eq!(d.next(), 0);
    assert_eq!(d.next(), 1);
    assert_eq!(d.next(), 2);
}

#[test]
fn determinisms_hand_out_consecutive_ids() {
    let mut d = Determinisms::default();
    for _ in 0..5 {
        d.next();
    }
    assert_eq!(d.peek(), 5);
    let ids: Vec<usize> = (0..100).map(|_| d.next()).collect();
    assert_eq!(ids, (5..105).collect::<Vec<usize>>());
    assert_eq!(d.peek(), 105);
}

#[test]
fn default_discrete_is_empty_and_wants_update() {
    let d: Discrete<i32> = Discrete::default();
    assert_eq!(d.t, 0);
    assert_eq!(d.prev_t, 0);
    assert!(d._stops.is_empty());
    assert!(d.wants_update);
}

#[test]
fn from_pairs_keeps_order_and_defaults() {
    let d = Discrete::from_pairs(vec![(30, 3), (10, 1)]);
    assert_eq!(d._stops, vec![stop(30, 3), stop(10, 1)]);
    assert!(d.wants_update);
}

#[test]
fn update_stops_sorts_and_keeps_first_of_each_instant() {
    let mut d = Discrete::from_pairs(vec![(30, 3), (10, 1), (30, 9), (20, 2)]);
    d.update_stops();
    assert_eq!(d._stops, vec![stop(10, 1), stop(20, 2), stop(30, 3)]);
    assert!(!d.wants_update);
}

#[test]
fn update_stops_twice_changes_nothing() {
    let mut d = Discrete::from_pairs(vec![(5, 1), (1, 2), (5, 3)]);
    d.update_stops();
    let once = d._stops.clone();
    d.update_stops();
    assert_eq!(d._stops, once);
}

#[test]
fn stop_at_finds_latest_stop_not_after() {
    let mut d = Discrete::from_pairs(vec![(10, 1), (20, 2), (30, 3)]);
    d.update_stops();
    assert_eq!(d.stop_at(25).map(|s| s.value), Some(2));
    assert_eq!(d.stop_at(20).map(|s| s.value), Some(2));
    assert_eq!(d.stop_at(5).map(|s| s.value), None);
    assert_eq!(d.stop_at(100).map(|s| s.value), Some(3));
}

#[test]
fn stop_at_mut_edits_and_asks_for_update() {
    let mut d = Discrete::from_pairs(vec![(10, 1), (20, 2)]);
    d.update_stops();
    if let Some(s) = d.stop_at_mut(15) {
        s.value = 7;
    }
    assert_eq!(d._stops[0].value, 7);
    assert!(d.wants_update);
    assert!(d.stop_at_mut(5).is_none());
}

#[test]
fn stops_before_and_after() {
    let mut d = Discrete::from_pairs(vec![(10, 1), (20, 2), (30, 3)]);
    d.update_stops();
    let after: Vec<i64> = d.stops_after(20).iter().map(|s| s.t).collect();
    assert_eq!(after, vec![20, 30]);
    let before: Vec<i64> = d.stops_before(20).iter().map(|s| s.t).collect();
    assert_eq!(before, vec![20, 10]);
    d.prev_t = 15;
    let fwd: Vec<i64> = d.stops_forward().iter().map(|s| s.t).collect();
    assert_eq!(fwd, vec![20, 30]);
    let back: Vec<i64> = d.stops_backward().iter().map(|s| s.t).collect();
    assert_eq!(back, vec![10]);
}

#[test]
fn insert_and_remove_stops() {
    let mut d = Discrete::from_pairs(vec![(10, 1), (30, 3)]);
    d.update_stops();
    d.insert_stop(stop(20, 2));
    assert!(d.wants_update);
    assert_eq!(times(&d), vec![10, 30, 20]);
    d.remove_stops_after(20);
    assert_eq!(times(&d), vec![10, 20]);
}

#[test]
fn stops_mut_asks_for_update() {
    let mut d = Discrete::from_pairs(vec![(10, 1)]);
    d.update_stops();
    d.stops_mut()[0].t = 40;
    assert!(d.wants_update);
    assert_eq!(times(&d), vec![40]);
}

#[test]
fn prune_drops_groups_wholly_in_the_future() {
    let mut d: Discrete<i32> = Discrete::default();
    d.insert_stop(DiscreteStop { t: 10, value: 1, determinism: 1, disabled: false });
    d.insert_stop(DiscreteStop { t: 50, value: 2, determinism: 1, disabled: false });
    d.insert_stop(DiscreteStop { t: 40, value: 3, determinism: 2, disabled: false });
    d.insert_stop(DiscreteStop { t: 60, value: 4, determinism: 2, disabled: false });
    d.prune_non_deterministic(20);
    assert_eq!(times(&d), vec![10, 50]);
    d.prune_non_deterministic(20);
    assert_eq!(times(&d), vec![10, 50]);
}

#[test]
fn try_fire_stop_forward_and_backward() {
    let mut d = Discrete::from_pairs(vec![(10, 1), (20, 2)]);
    d.update_stops();
    d.t = 15;
    assert_eq!(d.try_fire_stop_forward(10), Some(1));
    assert_eq!(d.try_fire_stop_forward(20), None);
    assert_eq!(d.try_fire_stop_backward(20), Some(2));
    assert_eq!(d.try_fire_stop_backward(10), None);
    d._stops[0].disabled = true;
    assert_eq!(d.try_fire_stop_forward(10), None);
}

#[test]
fn animate_forward_fires_latest_passed_stop() {
    let mut d = Discrete::from_pairs(vec![(10, 1), (20, 2), (30, 3)]);
    assert_eq!(d.animate_impl(play(25, 0)), Some(2));
    assert_eq!(d.t, 25);
    assert_eq!(d.prev_t, 0);
    assert!(!d.wants_update);
    assert_eq!(d.animate_impl(play(28, 25)), None);
    assert_eq!(d.animate_impl(play(30, 28)), Some(3));
}

#[test]
fn animate_without_moving_fires_nothing() {
    let mut d = Discrete::from_pairs(vec![(0, 1)]);
    assert_eq!(d.animate_impl(play(0, 0)), None);
}

#[test]
fn rewinding_restores_value_in_effect() {
    let mut d = Discrete::from_pairs(vec![(10, 1), (20, 2), (30, 3)]);
    assert_eq!(d.animate_impl(play(35, 0)), Some(3));
    let paused = AnimationTime { t: 15, prev_t: 35, paused: true, prev_paused: true };
    assert_eq!(d.animate_impl(paused), Some(1));
    assert_eq!(d._stops.len(), 3);
}

#[test]
fn rewinding_before_every_stop_gives_earliest_passed() {
    let mut d = Discrete::from_pairs(vec![(10, 1), (20, 2)]);
    d.animate_impl(play(25, 0));
    let back = AnimationTime { t: 5, prev_t: 25, paused: true, prev_paused: true };
    assert_eq!(d.animate_impl(back), Some(1));
}

#[test]
fn rewinding_without_pausing_prunes_future_groups() {
    let mut d: Discrete<i32> = Discrete::default();
    d.insert_stop(DiscreteStop { t: 10, value: 1, determinism: 1, disabled: false });
    d.insert_stop(DiscreteStop { t: 30, value: 3, determinism: 2, disabled: false });
    d.animate_impl(play(40, 0));
    d.animate_impl(play(20, 40));
    assert_eq!(times(&d), vec![10]);
}

#[test]
fn unpausing_prunes_future_groups() {
    let mut d: Discrete<i32> = Discrete::default();
    d.insert_stop(DiscreteStop { t: 10, value: 1, determinism: 1, disabled: false });
    d.insert_stop(DiscreteStop { t: 30, value: 3, determinism: 2, disabled: false });
    let unpause = AnimationTime { t: 15, prev_t: 0, paused: false, prev_paused: true };
    assert_eq!(d.animate_impl(unpause), Some(1));
    assert_eq!(times(&d), vec![10]);
}

#[test]
fn disabled_stops_do_not_fire() {
    let mut d = Discrete::from_pairs(vec![(10, 1), (20, 2)]);
    d._stops[1].disabled = true;
    assert_eq!(d.animate_impl(play(25, 0)), Some(1));
}
