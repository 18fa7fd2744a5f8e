//! The global hotkey state machine: classify raw key events, aggregate
//! modifier state shared across all keyboard devices, and decide which
//! action a key press triggers. Device files and listener threads live
//! outside; they feed every key event through `handle_key_event`.

use vstd::prelude::*;

verus! {

/// Key code of Escape in the Linux input subsystem.
pub const KEY_ESC: u16 = 1;

/// Key code of the left Control key.
pub const KEY_LEFTCTRL: u16 = 29;

/// Key code of the letter A key, part of the keyboard heuristic.
pub const KEY_A: u16 = 30;

/// Key code of the letter V key, the hotkey trigger.
pub const KEY_V: u16 = 47;

/// Key code of the left Alt key.
pub const KEY_LEFTALT: u16 = 56;

/// Key code of the right Control key.
pub const KEY_RIGHTCTRL: u16 = 97;

/// Key code of the right Alt key.
pub const KEY_RIGHTALT: u16 = 100;

/// Key code of the left Meta (Super) key.
pub const KEY_LEFTMETA: u16 = 125;

/// Key code of the right Meta (Super) key.
pub const KEY_RIGHTMETA: u16 = 126;

/// Event value of a key press; releases carry 0 and auto-repeats 2.
pub const KEY_PRESS: i32 = 1;

/// Event value of a key release.
pub const KEY_RELEASE: i32 = 0;

/// Actions triggered by hotkeys.
#[derive(Debug, Clone, Copy, PartialEq, Eq, Structural)]
pub enum HotkeyAction {
    /// Show or hide the history window.
    Toggle,
    /// Close the history window.
    Close,
}

/// Modifier state aggregated across every keyboard device: a press on
/// any physical keyboard sets a flag, a release on any clears it.
#[derive(Debug, Clone, Copy, PartialEq, Eq, Structural)]
pub struct ModifierState {
    /// Either Meta (Super) key is held.
    pub super_down: bool,
    /// Either Control key is held.
    pub ctrl_down: bool,
    /// Either Alt key is held.
    pub alt_down: bool,
}

/// The modifier state after one key event: presses set the matching
/// flag, releases clear it, auto-repeats and other keys change nothing.
pub open spec fn next_modifiers(s: ModifierState, code: u16, value: i32) -> ModifierState {
    if code == KEY_LEFTMETA || code == KEY_RIGHTMETA {
        if value == KEY_PRESS {
            ModifierState { super_down: true, ..s }
        } else if value == KEY_RELEASE {
            ModifierState { super_down: false, ..s }
        } else {
            s
        }
    } else if code == KEY_LEFTCTRL || code == KEY_RIGHTCTRL {
        if value == KEY_PRESS {
            ModifierState { ctrl_down: true, ..s }
        } else if value == KEY_RELEASE {
            ModifierState { ctrl_down: false, ..s }
        } else {
            s
        }
    } else if code == KEY_LEFTALT || code == KEY_RIGHTALT {
        if value == KEY_PRESS {
            ModifierState { alt_down: true, ..s }
        } else if value == KEY_RELEASE {
            ModifierState { alt_down: false, ..s }
        } else {
            s
        }
    } else {
        s
    }
}

/// The action one key event emits: pressing V with Super held, or with
/// Control and Alt both held, toggles; pressing Escape always closes;
/// nothing else emits.
pub open spec fn emitted_action(s: ModifierState, code: u16, value: i32) -> Option<HotkeyAction> {
    if code == KEY_V && value == KEY_PRESS {
        if s.super_down || (s.ctrl_down && s.alt_down) {
            Some(HotkeyAction::Toggle)
        } else {
            None
        }
    } else if code == KEY_ESC && value == KEY_PRESS {
        Some(HotkeyAction::Close)
    } else {
        None
    }
}

impl ModifierState {
    /// The starting state: no modifier held.
    pub fn new() -> (r: Self)
        ensures
            r == (ModifierState { super_down: false, ctrl_down: false, alt_down: false }),
    {
        ModifierState { super_down: false, ctrl_down: false, alt_down: false }
    }
}

/// Feed one raw key event through the state machine: update the shared
/// modifier flags and return the action the event emits, if any.
pub fn handle_key_event(state: &mut ModifierState, code: u16, value: i32) -> (r: Option<
    HotkeyAction,
>)
    ensures
        *final(state) == next_modifiers(*old(state), code, value),
        r == emitted_action(*old(state), code, value),
{
    let pressed = value == KEY_PRESS;
    let released = value == KEY_RELEASE;
    if code == KEY_LEFTMETA || code == KEY_RIGHTMETA {
        if pressed {
            state.super_down = true;
        } else if released {
            state.super_down = false;
        }
        None
    } else if code == KEY_LEFTCTRL || code == KEY_RIGHTCTRL {
        if pressed {
            state.ctrl_down = true;
        } else if released {
            state.ctrl_down = false;
        }
        None
    } else if code == KEY_LEFTALT || code == KEY_RIGHTALT {
        if pressed {
            state.alt_down = true;
        } else if released {
            state.alt_down = false;
        }
        None
    } else if code == KEY_V {
        if pressed && (state.super_down || (state.ctrl_down && state.alt_down)) {
            Some(HotkeyAction::Toggle)
        } else {
            None
        }
    } else if code == KEY_ESC {
        if pressed {
            Some(HotkeyAction::Close)
        } else {
            None
        }
    } else {
        None
    }
}

/// The device-acceptance heuristic: an input node counts as a keyboard
/// only if it reports the plain letter key, left Control and left Meta
/// among its supported keys, which excludes mice, dials and similar
/// nodes.
pub fn is_keyboard_candidate(has_letter_key: bool, has_left_ctrl: bool, has_left_meta: bool) -> (r:
    bool)
    ensures
        r == (has_letter_key && has_left_ctrl && has_left_meta),
{
    has_letter_key && has_left_ctrl && has_left_meta
}

} // verus!
