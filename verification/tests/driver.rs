use midi_perform::keydriver::{KeyAction, KeyGen};
use midi_perform::notemappings::KbdKey;

#[test]
fn press_twice_reports_once() {
    let mut kg = KeyGen::new();
    let k = KbdKey::Layout('a');
    assert!(kg.key_down(&k));
    assert!(kg.pressed.contains(&k));
    assert!(!kg.key_down(&k));
    assert!(kg.pressed.contains(&k));
    assert_eq!(kg.queue, vec![KeyAction::Down(k)]);
}

#[test]
fn release_twice_reports_once() {
    let mut kg = KeyGen::new();
    let k = KbdKey::Layout('a');
    kg.key_down(&k);
    assert!(kg.key_up(&k));
    assert!(!kg.pressed.contains(&k));
    assert!(!kg.key_up(&k));
    assert_eq!(kg.queue, vec![KeyAction::Down(k), KeyAction::Up(k)]);
}

#[test]
fn release_without_press_is_a_no_op() {
    let mut kg = KeyGen::new();
    assert!(!kg.key_up(&KbdKey::Escape));
    assert!(kg.queue.is_empty());
}

#[test]
fn reset_releases_exactly_the_pressed_keys() {
    let mut kg = KeyGen::new();
    let a = KbdKey::Layout('a');
    let b = KbdKey::Layout('b');
    let c = KbdKey::Layout('c');
    kg.key_down(&a);
    kg.key_down(&b);
    kg.queue.clear();
    assert_eq!(kg.key_reset(), 2);
    assert!(kg.pressed.is_empty());
    assert!(!kg.pressed.contains(&a));
    assert!(!kg.pressed.contains(&b));
    assert!(!kg.pressed.contains(&c));
    assert_eq!(kg.queue, vec![KeyAction::Up(a), KeyAction::Up(b)]);
}

#[test]
fn reset_on_empty_driver_reports_zero() {
    let mut kg = KeyGen::new();
    assert_eq!(kg.key_reset(), 0);
    assert!(kg.queue.is_empty());
}

#[test]
fn modifier_switch_reports_two_then_zero() {
    let mut kg = KeyGen::new();
    assert_eq!(kg.apply_modifier(Some(KbdKey::Control)), 1);
    assert!(kg.pressed.contains(&KbdKey::Control));
    assert_eq!(kg.apply_modifier(Some(KbdKey::Shift)), 2);
    assert!(kg.pressed.contains(&KbdKey::Shift));
    assert!(!kg.pressed.contains(&KbdKey::Control));
    assert_eq!(kg.apply_modifier(Some(KbdKey::Shift)), 0);
    assert!(kg.pressed.contains(&KbdKey::Shift));
}

#[test]
fn modifier_none_releases_everything() {
    let mut kg = KeyGen::new();
    kg.apply_modifier(Some(KbdKey::Shift));
    assert_eq!(kg.apply_modifier(None), 1);
    assert!(!kg.pressed.contains(&KbdKey::Shift));
    assert!(!kg.pressed.contains(&KbdKey::Control));
    assert_eq!(kg.apply_modifier(None), 0);
}

#[test]
fn modifier_outside_the_set_releases_members() {
    let mut kg = KeyGen::new();
    kg.apply_modifier(Some(KbdKey::Control));
    assert_eq!(kg.apply_modifier(Some(KbdKey::Alt)), 1);
    assert!(!kg.pressed.contains(&KbdKey::Control));
    assert!(!kg.pressed.contains(&KbdKey::Alt));
}

#[test]
fn modifier_emits_in_shift_then_control_order() {
    let mut kg = KeyGen::new();
    kg.apply_modifier(Some(KbdKey::Control));
    kg.queue.clear();
    kg.apply_modifier(Some(KbdKey::Shift));
    assert_eq!(
        kg.queue,
        vec![KeyAction::Down(KbdKey::Shift), KeyAction::Up(KbdKey::Control)]
    );
}
