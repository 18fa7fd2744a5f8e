//! Clipboard history engine with loop-prevention replay and global hotkeys.
//!
//! The crate holds the algorithmic core of a desktop clipboard manager:
//! an ordered history with dedup, pin and eviction rules, a one-shot
//! suppression protocol that keeps the program's own paste actions out of
//! the history, a keyboard event state machine for global hotkeys, and the
//! tiered fallback plan for injecting a paste keystroke. Around the core
//! sit the wire codec for persisted entries, the bounded emoji usage
//! tracker, and the desktop-shortcut registration rules. Device handling,
//! clipboard polling and the other OS work live outside, and hand this
//! crate plain values.

pub mod emoji;
pub mod history;
pub mod hotkey;
pub mod inject;
pub mod item;
pub mod shortcut;
pub mod text;
pub mod wire;
