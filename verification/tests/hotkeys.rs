use honse_hotkeys::{
    Chord, Handle, Hotkeys, Mods, RegisterError, REPEAT_DELAY_FRAMES, VK_CONTROL, VK_MENU,
};

/// What a test binds: a callback that counts hits, with its user data.
type Callback = fn(&mut u32, usize);

fn count(hits: &mut u32, _userdata: usize) {
    *hits += 1;
}

const CTRL_F1: u32 = 0x70; // VK_F1
const CTRL_P: u32 = 0x50; // 'P'

fn held(vks: &'static [u32]) -> impl Fn(u32) -> bool {
    move |vk| vks.contains(&vk)
}

/// Invokes what a poll handed back, as a host does.
fn fire(fired: Vec<(Callback, usize)>, hits: &mut u32) {
    for (callback, userdata) in fired {
        callback(hits, userdata);
    }
}

fn binding(chord: Chord) -> (Hotkeys<Callback, usize>, Handle) {
    let mut hotkeys: Hotkeys<Callback, usize> = Hotkeys::new();
    let handle = hotkeys.register(chord, count, 0).expect("bound chord");
    (hotkeys, handle)
}

#[test]
fn fires_once_on_down_transition() {
    let mut hits = 0;
    let (mut hotkeys, _) = binding(Chord::new(Mods::CTRL(), CTRL_F1));
    let down = held(&[CTRL_F1, VK_CONTROL]);
    let up = held(&[]);

    fire(hotkeys.poll_with(&down, || true), &mut hits);
    assert_eq!(hits, 1, "down transition fires");

    fire(hotkeys.poll_with(&down, || true), &mut hits);
    fire(hotkeys.poll_with(&down, || true), &mut hits);
    assert_eq!(hits, 1, "held does not re-fire");

    fire(hotkeys.poll_with(&up, || true), &mut hits);
    fire(hotkeys.poll_with(&down, || true), &mut hits);
    assert_eq!(hits, 2, "re-press fires again");
}

#[test]
fn repeat_is_opt_in() {
    let mut hits = 0;
    let (mut hotkeys, handle) = binding(Chord::new(Mods::CTRL(), CTRL_F1));
    let down = held(&[CTRL_F1, VK_CONTROL]);

    assert!(hotkeys.set_repeat(handle, true));

    // First frame fires; then nothing until the delay elapses.
    for _ in 0..REPEAT_DELAY_FRAMES {
        fire(hotkeys.poll_with(&down, || true), &mut hits);
    }
    assert_eq!(hits, 1, "still within the delay");

    fire(hotkeys.poll_with(&down, || true), &mut hits);
    assert_eq!(hits, 2, "repeat begins after the delay");
}

#[test]
fn foreground_gate_freezes_and_resets() {
    let mut hits = 0;
    let (mut hotkeys, _) = binding(Chord::new(Mods::CTRL(), CTRL_F1));
    let down = held(&[CTRL_F1, VK_CONTROL]);

    fire(hotkeys.poll_with(&down, || false), &mut hits);
    assert_eq!(hits, 0, "not foreground: no fire");

    fire(hotkeys.poll_with(&down, || true), &mut hits);
    assert_eq!(
        hits, 1,
        "a chord held while unfocused fires once on refocus, as a fresh press"
    );
}

#[test]
fn unregister_stops_firing() {
    let mut hits = 0;
    let (mut hotkeys, handle) = binding(Chord::new(Mods::CTRL(), CTRL_F1));
    let down = held(&[CTRL_F1, VK_CONTROL]);

    fire(hotkeys.poll_with(&down, || true), &mut hits);
    assert_eq!(hits, 1);
    fire(hotkeys.poll_with(held(&[]), || true), &mut hits);

    assert!(hotkeys.unregister(handle));
    assert!(!hotkeys.unregister(handle), "second unregister is a no-op");

    fire(hotkeys.poll_with(&down, || true), &mut hits);
    assert_eq!(hits, 1, "gone after unregister");
    assert!(hotkeys.is_empty());
}

#[test]
fn unbound_chord_is_refused() {
    let mut hotkeys: Hotkeys<Callback, usize> = Hotkeys::new();
    assert_eq!(
        hotkeys.register(Chord::NONE(), count, 0),
        Err(RegisterError::NotBound)
    );
    assert!(hotkeys.is_empty());
}

#[test]
fn registering_same_chord_replaces() {
    let mut hotkeys: Hotkeys<Callback, usize> = Hotkeys::new();
    let chord = Chord::new(Mods::CTRL(), CTRL_F1);
    hotkeys.register(chord, count, 0).unwrap();
    hotkeys.register(chord, count, 0).unwrap();
    assert_eq!(hotkeys.len(), 1, "one binding per chord");
}

#[test]
fn queries_match_the_input_block_contract() {
    let (hotkeys, _) = binding(Chord::new(Mods::CTRL() | Mods::SHIFT(), CTRL_P));

    assert!(hotkeys.chord_registered(CTRL_P, Mods::CTRL() | Mods::SHIFT()));
    // A bare P is not ours, so it must reach the game.
    assert!(!hotkeys.chord_registered(CTRL_P, Mods::NONE()));
    assert!(hotkeys.any_chord_uses(Mods::CTRL() | Mods::SHIFT()));
    assert!(!hotkeys.any_chord_uses(Mods::ALT()));
    assert!(!hotkeys.any_chord_uses(Mods::NONE()), "no modifiers is never owned");

    assert_eq!(
        hotkeys.chord_of(1),
        Some(Chord::new(Mods::CTRL() | Mods::SHIFT(), CTRL_P))
    );
    assert_eq!(hotkeys.chord_of(99), None);
}

#[test]
fn set_chord_rebinds_without_losing_handles() {
    let mut hits = 0;
    let (mut hotkeys, handle) = binding(Chord::new(Mods::CTRL(), CTRL_F1));
    assert!(hotkeys.set_chord(handle, Chord::new(Mods::ALT(), 0x20)));
    assert_eq!(hotkeys.chord_of(handle), Some(Chord::new(Mods::ALT(), 0x20)));

    fire(hotkeys.poll_with(held(&[0x20, VK_MENU]), || true), &mut hits);
    assert_eq!(hits, 1);

    // The old chord is no longer bound to this handle.
    fire(hotkeys.poll_with(held(&[]), || true), &mut hits);
    fire(hotkeys.poll_with(held(&[CTRL_F1, VK_CONTROL]), || true), &mut hits);
    assert_eq!(hits, 1);
}

#[test]
fn handles_count_from_one_and_are_never_reused() {
    let mut hotkeys: Hotkeys<Callback, usize> = Hotkeys::default();
    assert_eq!(hotkeys.next_handle(), 1);
    let a = hotkeys.register(Chord::new(Mods::NONE(), 0x41), count, 0).unwrap();
    let b = hotkeys.register(Chord::new(Mods::NONE(), 0x42), count, 0).unwrap();
    assert_eq!((a, b), (1, 2));
    // Replacing a chord drops the old binding and hands out a fresh handle.
    let c = hotkeys.register(Chord::new(Mods::NONE(), 0x41), count, 0).unwrap();
    assert_eq!(c, 3);
    assert_eq!(hotkeys.chord_of(a), None);
    assert_eq!(
        hotkeys.chords(),
        vec![Chord::new(Mods::NONE(), 0x42), Chord::new(Mods::NONE(), 0x41)]
    );
    hotkeys.clear();
    assert!(hotkeys.is_empty());
    assert_eq!(hotkeys.register(Chord::new(Mods::NONE(), 0x41), count, 0), Ok(4));
}

#[test]
fn unknown_handles_are_reported() {
    let (mut hotkeys, handle) = binding(Chord::new(Mods::CTRL(), CTRL_F1));
    assert!(!hotkeys.set_repeat(handle + 1, true));
    assert!(!hotkeys.set_chord(handle + 1, Chord::new(Mods::ALT(), 0x20)));
    assert!(!hotkeys.unregister(0));
    assert_eq!(hotkeys.len(), 1);
}

#[test]
fn repeat_schedule_every_four_frames() {
    let mut hits = 0;
    let (mut hotkeys, handle) = binding(Chord::new(Mods::NONE(), 0x41));
    assert!(hotkeys.set_repeat(handle, true));
    let down = held(&[0x41]);
    let mut fired_at = Vec::new();
    for frame in 0..40u32 {
        let before = hits;
        fire(hotkeys.poll_with(&down, || true), &mut hits);
        if hits > before {
            fired_at.push(frame);
        }
    }
    assert_eq!(fired_at, vec![0, 24, 28, 32, 36]);
    assert!(hotkeys.can_poll());
}

#[test]
fn advance_applies_readings_in_order() {
    let mut hotkeys: Hotkeys<Callback, usize> = Hotkeys::new();
    hotkeys.register(Chord::new(Mods::NONE(), 0x41), count, 10).unwrap();
    hotkeys.register(Chord::new(Mods::NONE(), 0x42), count, 20).unwrap();
    hotkeys.register(Chord::new(Mods::NONE(), 0x43), count, 30).unwrap();
    let fired = hotkeys.advance(true, &[true, false, true]);
    let data: Vec<usize> = fired.iter().map(|(_, u)| *u).collect();
    assert_eq!(data, vec![10, 30]);
    // Held: nothing new.
    assert!(hotkeys.advance(true, &[true, false, true]).is_empty());
    // Background: nothing fires, and edge state is forgotten.
    assert!(hotkeys.advance(false, &[]).is_empty());
    let fired = hotkeys.advance(true, &[true, true, false]);
    let data: Vec<usize> = fired.iter().map(|(_, u)| *u).collect();
    assert_eq!(data, vec![10, 20]);
}

#[test]
fn register_error_message() {
    assert_eq!(RegisterError::NotBound.message(), "chord is unbound (vk == 0)");
}

#[test]
fn rebinding_keeps_the_edge_state() {
    let mut hits = 0;
    let (mut hotkeys, handle) = binding(Chord::new(Mods::CTRL(), CTRL_F1));
    fire(hotkeys.poll_with(held(&[CTRL_F1, VK_CONTROL]), || true), &mut hits);
    assert_eq!(hits, 1);

    // Rebound while held: the new chord, also held, counts as a continued hold.
    assert!(hotkeys.set_chord(handle, Chord::new(Mods::ALT(), 0x20)));
    fire(hotkeys.poll_with(held(&[0x20, VK_MENU]), || true), &mut hits);
    assert_eq!(hits, 1, "a continued hold does not fire");

    fire(hotkeys.poll_with(held(&[]), || true), &mut hits);
    fire(hotkeys.poll_with(held(&[0x20, VK_MENU]), || true), &mut hits);
    assert_eq!(hits, 2, "a fresh press of the new chord fires");
}

#[test]
fn handles_are_not_reused_after_unregister() {
    let mut hotkeys: Hotkeys<Callback, usize> = Hotkeys::new();
    let a = hotkeys.register(Chord::new(Mods::NONE(), 0x41), count, 0).unwrap();
    assert!(hotkeys.unregister(a));
    let b = hotkeys.register(Chord::new(Mods::NONE(), 0x41), count, 0).unwrap();
    assert!(b > a);
    assert_eq!(hotkeys.chord_of(a), None);
}
