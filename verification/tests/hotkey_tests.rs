use clipboard_history::hotkey::{
    handle_key_event, is_keyboard_candidate, HotkeyAction, ModifierState, KEY_ESC, KEY_LEFTALT,
    KEY_LEFTCTRL, KEY_LEFTMETA, KEY_RIGHTMETA, KEY_V,
};

fn run(events: &[(u16, i32)]) -> Vec<HotkeyAction> {
    let mut state = ModifierState::new();
    let mut actions = Vec::new();
    for &(code, value) in events {
        if let Some(a) = handle_key_event(&mut state, code, value) {
            actions.push(a);
        }
    }
    actions
}

#[test]
fn super_v_emits_exactly_one_toggle() {
    let actions = run(&[(KEY_LEFTMETA, 1), (KEY_V, 1)]);
    assert_eq!(actions, vec![HotkeyAction::Toggle]);
}

#[test]
fn ctrl_alt_v_emits_exactly_one_toggle() {
    let actions = run(&[(KEY_LEFTCTRL, 1), (KEY_LEFTALT, 1), (KEY_V, 1)]);
    assert_eq!(actions, vec![HotkeyAction::Toggle]);
}

#[test]
fn v_alone_emits_nothing() {
    assert_eq!(run(&[(KEY_V, 1)]), vec![]);
}

#[test]
fn ctrl_v_without_alt_emits_nothing() {
    assert_eq!(run(&[(KEY_LEFTCTRL, 1), (KEY_V, 1)]), vec![]);
}

#[test]
fn released_modifier_no_longer_triggers() {
    let actions = run(&[(KEY_LEFTMETA, 1), (KEY_LEFTMETA, 0), (KEY_V, 1)]);
    assert_eq!(actions, vec![]);
}

#[test]
fn either_meta_key_counts_and_a_release_on_one_clears() {
    // Press on one device's right Meta, release reported elsewhere:
    // the shared flag follows both.
    let actions = run(&[(KEY_RIGHTMETA, 1), (KEY_V, 1), (KEY_RIGHTMETA, 0), (KEY_V, 1)]);
    assert_eq!(actions, vec![HotkeyAction::Toggle]);
}

#[test]
fn auto_repeat_of_a_modifier_is_ignored() {
    // A repeat (value 2) neither sets nor clears the flag.
    let actions = run(&[(KEY_LEFTMETA, 2), (KEY_V, 1)]);
    assert_eq!(actions, vec![]);
    let actions = run(&[(KEY_LEFTMETA, 1), (KEY_LEFTMETA, 2), (KEY_V, 1)]);
    assert_eq!(actions, vec![HotkeyAction::Toggle]);
}

#[test]
fn repeat_of_v_does_not_toggle() {
    let actions = run(&[(KEY_LEFTMETA, 1), (KEY_V, 2)]);
    assert_eq!(actions, vec![]);
}

#[test]
fn escape_closes_unconditionally() {
    assert_eq!(run(&[(KEY_ESC, 1)]), vec![HotkeyAction::Close]);
    let actions = run(&[(KEY_LEFTMETA, 1), (KEY_V, 1), (KEY_ESC, 1)]);
    assert_eq!(actions, vec![HotkeyAction::Toggle, HotkeyAction::Close]);
    // A release of Escape emits nothing.
    assert_eq!(run(&[(KEY_ESC, 0)]), vec![]);
}

#[test]
fn keyboard_heuristic_needs_all_three_keys() {
    assert!(is_keyboard_candidate(true, true, true));
    assert!(!is_keyboard_candidate(false, true, true));
    assert!(!is_keyboard_candidate(true, false, true));
    assert!(!is_keyboard_candidate(true, true, false));
}
