use core::marker::PhantomData;

use legend_of_r::animation::adapters::{
    try_replace_components, After, Before, ComponentChange, Disable, Flatten, Interpolate,
    TryAnimateComponentsMode,
};
use legend_of_r::animation::{AnimationPlugin, AnimationTime};

fn at(t: i64, prev_t: i64) -> AnimationTime {
    AnimationTime { t, prev_t, paused: false, prev_paused: false }
}

#[test]
fn disable_skips_the_child() {
    let off: Disable<i32> = Disable { disabled: true, _phantom: PhantomData };
    let mut called = false;
    assert_eq!(off.animate(|| { called = true; 1 }), None);
    assert!(!called);
    let on: Disable<i32> = Disable { disabled: false, _phantom: PhantomData };
    assert_eq!(on.animate(|| 7), Some(7));
}

#[test]
fn flatten_needs_both_layers() {
    let f: Flatten<i32> = Flatten { _phantom: PhantomData };
    assert_eq!(f.animate(Some(Some(3))), Some(3));
    assert_eq!(f.animate(Some(None)), None);
    assert_eq!(f.animate(None), None);
}

#[test]
fn after_plays_from_its_time_and_clamps_when_rewinding() {
    let a: After<i64> = After { after: 10, _phantom: PhantomData };
    assert_eq!(a.animate(at(12, 8), |t| t.t), Some(12));
    assert_eq!(a.animate(at(10, 8), |t| t.t), Some(10));
    assert_eq!(a.animate(at(5, 12), |t| t.t * 100 + t.prev_t), Some(1012));
    assert_eq!(a.animate(at(5, 8), |t| t.t), None);
}

#[test]
fn before_plays_until_its_time_and_clamps_when_crossing() {
    let b: Before<i64> = Before { before: 10, _phantom: PhantomData };
    assert_eq!(b.animate(at(5, 2), |t| t.t), Some(5));
    assert_eq!(b.animate(at(15, 5), |t| t.t), Some(10));
    assert_eq!(b.animate(at(15, 12), |t| t.t), None);
    assert_eq!(b.animate(at(10, 12), |t| t.t), None);
}

#[test]
fn interpolate_prunes_only_when_playing_forward() {
    let i: Interpolate<i32> = Interpolate { clamp: false, _phantom: PhantomData };
    assert!(i.prunes(at(5, 1)));
    assert!(!i.prunes(at(1, 5)));
    assert!(!i.prunes(at(5, 5)));
    let paused = AnimationTime { t: 5, prev_t: 1, paused: true, prev_paused: false };
    assert!(!i.prunes(paused));
}

#[test]
fn interpolate_brackets_neighbouring_stops() {
    let i: Interpolate<i32> = Interpolate { clamp: true, _phantom: PhantomData };
    assert_eq!(i.bracket(0, 3, true), (0, 1));
    assert_eq!(i.bracket(2, 3, true), (1, 2));
    assert_eq!(i.bracket(0, 3, false), (0, 1));
    assert_eq!(i.bracket(1, 3, false), (0, 1));
    assert_eq!(i.bracket(1, 3, true), (1, 2));
    for len in 2..6usize {
        for c in 0..len {
            for before in [false, true] {
                let (a, b) = i.bracket(c, len, before);
                assert_eq!(b, a + 1);
                assert!(b < len);
                assert!(c == a || c == b);
            }
        }
    }
}

#[test]
fn replace_components_inserts_removes_or_keeps() {
    assert!(matches!(try_replace_components(Some(Some(4))), ComponentChange::Insert(4)));
    assert!(matches!(try_replace_components::<i32>(Some(None)), ComponentChange::Remove));
    assert!(matches!(try_replace_components::<i32>(None), ComponentChange::Keep));
}

#[test]
fn defaults() {
    assert_eq!(TryAnimateComponentsMode::default(), TryAnimateComponentsMode::Update);
    assert!(!AnimationPlugin::new().timeline_ui());
    assert!(AnimationPlugin::with_ui().timeline_ui());
}
