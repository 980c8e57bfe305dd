//! Global hotkey chords: parsing, describing and edge-triggered polling.
//!
//! A chord is a modifier set plus one primary virtual-key code. `Hotkeys` is a
//! registry of chord bindings, polled once per frame against key state that the
//! host reads.

pub mod chord;
pub mod hotkeys;
pub mod keys;
pub mod text;

pub use chord::{Chord, Mods, VK_CONTROL, VK_MENU, VK_SHIFT};
pub use hotkeys::{
    Entry, Handle, Hotkeys, RegisterError, REPEAT_DELAY_FRAMES, REPEAT_EVERY_FRAMES,
};
pub use keys::key_code;
