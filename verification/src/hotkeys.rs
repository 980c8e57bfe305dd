//! A registry of chord bindings, polled once per frame.
//!
//! Firing is edge-triggered: once on the down transition, not on every frame while
//! held. Repeat is opt-in per binding. While the host is not in the foreground the
//! registry is frozen and its edge state is reset, so nothing fires in the
//! background and a chord held across a window switch counts as a fresh press when
//! focus returns.
//!
//! A binding carries what the host needs to act on it, a callback and its user data,
//! as two values the registry never looks into; a poll hands back those of the
//! bindings that fired, in registration order, for the host to invoke.

use vstd::prelude::*;
use crate::chord::{Chord, Mods};

verus! {

/// Identifier for a registration. `0` is never returned, so it can mean "failed".
pub type Handle = u64;

/// Frames a repeating chord must be held before it starts repeating. Counted in
/// frames rather than milliseconds so the poll needs no clock: at 60fps this is
/// roughly a 0.4s delay.
pub const REPEAT_DELAY_FRAMES: u32 = 24;

/// Frames between repeats once repeating has begun: about 15 a second at 60fps.
pub const REPEAT_EVERY_FRAMES: u32 = 4;

/// Why a registration was refused.
#[derive(Clone, Copy, Debug, PartialEq, Eq, Structural)]
pub enum RegisterError {
    /// `vk == 0`: an unbound chord has nothing to match.
    NotBound,
}

impl RegisterError {
    /// A sentence that says what went wrong.
    pub fn message(&self) -> (s: String)
        ensures
            s@ == "chord is unbound (vk == 0)"@,
    {
        match self {
            RegisterError::NotBound => "chord is unbound (vk == 0)".to_owned(),
        }
    }
}

/// One registration and its edge state.
#[derive(Copy)]
pub struct Entry<C, U> {
    pub handle: Handle,
    pub chord: Chord,
    pub callback: C,
    pub userdata: U,
    pub repeat: bool,
    /// Whether the chord was down at the previous poll.
    pub was_down: bool,
    /// Frames the chord has been held since it went down, counted while repeating.
    pub held_frames: u32,
}

impl<C: Copy, U: Copy> Clone for Entry<C, U> {
    fn clone(&self) -> (e: Self)
        ensures
            e == *self,
    {
        *self
    }
}

/// What one frame does to a binding: its next state, and whether it fires.
///
/// Released, it forgets its edge state. Pressed after being up, it fires. Held, it
/// fires again only if it repeats, once `REPEAT_DELAY_FRAMES` frames have passed and
/// then every `REPEAT_EVERY_FRAMES` frames.
pub open spec fn tick_spec<C, U>(e: Entry<C, U>, is_down: bool) -> (Entry<C, U>, bool) {
    if !is_down {
        (Entry { was_down: false, held_frames: 0, ..e }, false)
    } else if !e.was_down {
        (Entry { was_down: true, held_frames: 0, ..e }, true)
    } else if !e.repeat {
        (e, false)
    } else {
        let held = e.held_frames + 1;
        (
            Entry { held_frames: held as u32, ..e },
            held >= REPEAT_DELAY_FRAMES && (held - REPEAT_DELAY_FRAMES) % (
            REPEAT_EVERY_FRAMES as int) == 0,
        )
    }
}

/// Whether a frame with `is_down` can be applied to `e` without the hold counter
/// running past `u32::MAX`.
pub open spec fn can_tick<C, U>(e: Entry<C, U>, is_down: bool) -> bool {
    is_down && e.was_down && e.repeat ==> e.held_frames < u32::MAX
}

impl<C: Copy, U: Copy> Entry<C, U> {
    /// Whether this frame fires, advancing the hold counter as a side effect.
    pub fn tick(&mut self, is_down: bool) -> (fire: bool)
        requires
            can_tick(*old(self), is_down),
        ensures
            (*final(self), fire) == tick_spec(*old(self), is_down),
    {
        if !is_down {
            self.was_down = false;
            self.held_frames = 0;
            return false;
        }
        let first = !self.was_down;
        self.was_down = true;
        if first {
            self.held_frames = 0;
            return true;
        }
        if !self.repeat {
            return false;
        }
        self.held_frames = self.held_frames + 1;
        self.held_frames >= REPEAT_DELAY_FRAMES && (self.held_frames - REPEAT_DELAY_FRAMES)
            % REPEAT_EVERY_FRAMES == 0
    }
}

/// The registry as a value: its bindings in registration order, and the handle
/// the next registration will get.
pub struct HotkeysModel<C, U> {
    pub entries: Seq<Entry<C, U>>,
    pub next_handle: Handle,
}

impl<C, U> HotkeysModel<C, U> {
    /// Handles are never 0, all below the next one, and pairwise distinct.
    pub open spec fn wf(self) -> bool {
        &&& self.next_handle >= 1
        &&& forall|i: int|
            0 <= i < self.entries.len() ==> 1 <= #[trigger] self.entries[i].handle
                < self.next_handle
        &&& forall|i: int, j: int|
            0 <= i < j < self.entries.len() ==> #[trigger] self.entries[i].handle
                != #[trigger] self.entries[j].handle
    }

    /// Whether some binding has `handle`.
    pub open spec fn has(self, handle: Handle) -> bool {
        has_handle(self.entries, handle)
    }

    /// The binding with `handle` (meaningful when there is one).
    pub open spec fn binding(self, handle: Handle) -> Entry<C, U> {
        self.entries[position_of(self.entries, handle)]
    }

    /// The chord bound to `handle`, if any.
    pub open spec fn chord_of(self, handle: Handle) -> Option<Chord> {
        if self.has(handle) {
            Some(self.binding(handle).chord)
        } else {
            None
        }
    }

    /// The registry after a bound chord is registered: the bindings with the same
    /// chord dropped, the new one appended under the next handle, up and not
    /// repeating.
    pub open spec fn registered(self, chord: Chord, callback: C, userdata: U) -> Self {
        HotkeysModel {
            entries: self.entries.filter(|e: Entry<C, U>| e.chord != chord).push(
                Entry {
                    handle: self.next_handle,
                    chord,
                    callback,
                    userdata,
                    repeat: false,
                    was_down: false,
                    held_frames: 0,
                },
            ),
            next_handle: (self.next_handle + 1) as u64,
        }
    }

    /// The registry without the binding that has `handle`.
    pub open spec fn unregistered(self, handle: Handle) -> Self {
        HotkeysModel {
            entries: self.entries.filter(|e: Entry<C, U>| e.handle != handle),
            next_handle: self.next_handle,
        }
    }

    /// The registry with the binding that has `handle`, if any, replaced by `e`.
    pub open spec fn with_binding(self, handle: Handle, e: Entry<C, U>) -> Self {
        if self.has(handle) {
            HotkeysModel {
                entries: self.entries.update(position_of(self.entries, handle), e),
                next_handle: self.next_handle,
            }
        } else {
            self
        }
    }

    /// The registry with the binding that has `handle`, if any, set to repeat or not.
    pub open spec fn with_repeat(self, handle: Handle, repeat: bool) -> Self {
        self.with_binding(handle, Entry { repeat, ..self.binding(handle) })
    }

    /// The registry with the binding that has `handle`, if any, bound to `chord`
    /// instead: same handle, callback, repeat setting and edge state.
    pub open spec fn with_chord(self, handle: Handle, chord: Chord) -> Self {
        self.with_binding(
            handle,
            Entry { chord, ..self.binding(handle) },
        )
    }

    /// The registry without bindings; handles keep counting from where they were.
    pub open spec fn cleared(self) -> Self {
        HotkeysModel { entries: Seq::empty(), next_handle: self.next_handle }
    }

    /// The registry after one poll with these readings.
    pub open spec fn polled(self, foreground: bool, downs: Seq<bool>) -> Self {
        HotkeysModel {
            entries: poll_entries(self.entries, foreground, downs),
            next_handle: self.next_handle,
        }
    }
}

/// Whether some binding of `s` has `handle`.
pub open spec fn has_handle<C, U>(s: Seq<Entry<C, U>>, handle: Handle) -> bool {
    exists|i: int| 0 <= i < s.len() && #[trigger] s[i].handle == handle
}

/// The place of the binding with `handle` in `s` (meaningful when there is one).
pub open spec fn position_of<C, U>(s: Seq<Entry<C, U>>, handle: Handle) -> int {
    choose|i: int| 0 <= i < s.len() && #[trigger] s[i].handle == handle
}

/// Every binding released: edge state forgotten, nothing else changed.
pub open spec fn released<C, U>(s: Seq<Entry<C, U>>) -> Seq<Entry<C, U>> {
    Seq::new(s.len(), |i: int| Entry { was_down: false, held_frames: 0, ..s[i] })
}

/// Every binding ticked with its own key reading.
pub open spec fn ticked<C, U>(s: Seq<Entry<C, U>>, downs: Seq<bool>) -> Seq<Entry<C, U>> {
    Seq::new(s.len(), |i: int| tick_spec(s[i], downs[i]).0)
}

/// The callbacks, with their user data, of the first `n` bindings that fire when
/// ticked with their key readings, in order.
pub open spec fn fired_upto<C, U>(s: Seq<Entry<C, U>>, downs: Seq<bool>, n: nat) -> Seq<(C, U)>
    decreases n,
{
    if n == 0 {
        Seq::empty()
    } else {
        let before = fired_upto(s, downs, (n - 1) as nat);
        let e = s[n - 1];
        if tick_spec(e, downs[n - 1]).1 {
            before.push((e.callback, e.userdata))
        } else {
            before
        }
    }
}

/// The bindings after one poll: ticked with the key readings while in the
/// foreground, released otherwise.
pub open spec fn poll_entries<C, U>(s: Seq<Entry<C, U>>, foreground: bool, downs: Seq<bool>) -> Seq<
    Entry<C, U>,
> {
    if foreground {
        ticked(s, downs)
    } else {
        released(s)
    }
}

/// What one poll fires: nothing in the background.
pub open spec fn poll_fired<C, U>(s: Seq<Entry<C, U>>, foreground: bool, downs: Seq<bool>) -> Seq<
    (C, U),
> {
    if foreground {
        fired_upto(s, downs, s.len())
    } else {
        Seq::empty()
    }
}

/// A set of chord registrations.
///
/// Hold one per plugin; each poll reads key state and hands back what fired.
pub struct Hotkeys<C, U> {
    entries: Vec<Entry<C, U>>,
    next_handle: Handle,
}

impl<C, U> View for Hotkeys<C, U> {
    type V = HotkeysModel<C, U>;

    closed spec fn view(&self) -> HotkeysModel<C, U> {
        HotkeysModel { entries: self.entries@, next_handle: self.next_handle }
    }
}

impl<C, U> Hotkeys<C, U> {
    #[verifier::type_invariant]
    closed spec fn inv(self) -> bool {
        self@.wf()
    }
}

impl<C: Copy, U: Copy> Hotkeys<C, U> {
    pub fn new() -> (h: Self)
        ensures
            h@.entries == Seq::<Entry<C, U>>::empty(),
            h@.next_handle == 1,
            h@.wf(),
    {
        Hotkeys { entries: Vec::new(), next_handle: 1 }
    }

    /// The bindings that do not have `chord`, in order.
    fn without_chord(&self, chord: Chord) -> (v: Vec<Entry<C, U>>)
        ensures
            v@ == self@.entries.filter(|e: Entry<C, U>| e.chord != chord),
    {
        let n = self.entries.len();
        let mut v: Vec<Entry<C, U>> = Vec::new();
        let mut i: usize = 0;
        while i < n
            invariant
                i <= n == self@.entries.len(),
                v@ == self@.entries.take(i as int).filter(|e: Entry<C, U>| e.chord != chord),
            decreases n - i,
        {
            let e = self.entries[i];
            proof {
                reveal(Seq::filter);
                assert(self@.entries.take(i + 1).drop_last() =~= self@.entries.take(i as int));
            }
            if e.chord != chord {
                v.push(e);
            }
            i = i + 1;
        }
        assert(self@.entries.take(n as int) =~= self@.entries);
        v
    }

    /// The bindings that do not have `handle`, in order.
    fn without_handle(&self, handle: Handle) -> (v: Vec<Entry<C, U>>)
        ensures
            v@ == self@.entries.filter(|e: Entry<C, U>| e.handle != handle),
    {
        let n = self.entries.len();
        let mut v: Vec<Entry<C, U>> = Vec::new();
        let mut i: usize = 0;
        while i < n
            invariant
                i <= n == self@.entries.len(),
                v@ == self@.entries.take(i as int).filter(|e: Entry<C, U>| e.handle != handle),
            decreases n - i,
        {
            let e = self.entries[i];
            proof {
                reveal(Seq::filter);
                assert(self@.entries.take(i + 1).drop_last() =~= self@.entries.take(i as int));
            }
            if e.handle != handle {
                v.push(e);
            }
            i = i + 1;
        }
        assert(self@.entries.take(n as int) =~= self@.entries);
        v
    }

    /// Registers `chord`, replacing any previous binding with the same chord.
    ///
    /// Does not apply the typable-chord policy; see `Chord::is_typeable`.
    pub fn register(&mut self, chord: Chord, callback: C, userdata: U) -> (r: Result<
        Handle,
        RegisterError,
    >)
        requires
            chord.is_bound_spec() ==> old(self)@.next_handle < u64::MAX,
        ensures
            final(self)@.wf(),
            !chord.is_bound_spec() ==> r == Err::<Handle, RegisterError>(RegisterError::NotBound)
                && final(self)@ == old(self)@,
            chord.is_bound_spec() ==> r == Ok::<Handle, RegisterError>(old(self)@.next_handle)
                && final(self)@ == old(self)@.registered(chord, callback, userdata),
    {
        proof {
            use_type_invariant(&*self);
        }
        if !chord.is_bound() {
            return Err(RegisterError::NotBound);
        }
        let mut kept = self.without_chord(chord);
        let handle = self.next_handle;
        proof {
            lemma_register_binds(self@, chord, callback, userdata);
        }
        kept.push(
            Entry {
                handle,
                chord,
                callback,
                userdata,
                repeat: false,
                was_down: false,
                held_frames: 0,
            },
        );
        *self = Hotkeys { entries: kept, next_handle: handle + 1 };
        Ok(handle)
    }

    /// The place of the binding with `handle`, if there is one.
    fn find(&self, handle: Handle) -> (r: Option<usize>)
        ensures
            r is Some <==> has_handle(self@.entries, handle),
            r matches Some(i) ==> i < self@.entries.len() && i == position_of(
                self@.entries,
                handle,
            ) && self@.entries[i as int].handle == handle,
    {
        proof {
            use_type_invariant(self);
        }
        let n = self.entries.len();
        let mut i: usize = 0;
        while i < n
            invariant
                i <= n == self@.entries.len(),
                self@.wf(),
                forall|k: int| 0 <= k < i ==> (#[trigger] self@.entries[k]).handle != handle,
            decreases n - i,
        {
            if self.entries[i].handle == handle {
                proof {
                    assert(self@.entries[i as int].handle == handle);
                    assert(has_handle(self@.entries, handle));
                    let j = position_of(self@.entries, handle);
                    if j != i {
                        if j < i {
                            assert(self@.entries[j].handle != self@.entries[i as int].handle);
                        } else {
                            assert(self@.entries[i as int].handle != self@.entries[j].handle);
                        }
                    }
                }
                return Some(i);
            }
            i = i + 1;
        }
        None
    }

    pub fn unregister(&mut self, handle: Handle) -> (removed: bool)
        ensures
            final(self)@.wf(),
            final(self)@ == old(self)@.unregistered(handle),
            removed == old(self)@.has(handle),
    {
        proof {
            use_type_invariant(&*self);
        }
        let before = self.entries.len();
        let kept = self.without_handle(handle);
        proof {
            lemma_unregister(self@, handle);
            lemma_filter_len_eq(self@.entries, |e: Entry<C, U>| e.handle != handle);
        }
        let removed = kept.len() != before;
        *self = Hotkeys { entries: kept, next_handle: self.next_handle };
        removed
    }

    /// Makes a chord fire repeatedly while held. Do not use this for a toggle.
    pub fn set_repeat(&mut self, handle: Handle, repeat: bool) -> (found: bool)
        ensures
            final(self)@.wf(),
            final(self)@ == old(self)@.with_repeat(handle, repeat),
            found == old(self)@.has(handle),
    {
        proof {
            use_type_invariant(&*self);
        }
        match self.find(handle) {
            Some(i) => {
                let mut e = self.entries[i];
                e.repeat = repeat;
                let ghost before = self@.entries;
                let mut entries: Vec<Entry<C, U>> = Vec::new();
                std::mem::swap(&mut entries, &mut self.entries);
                entries.set(i, e);
                assert(entries@ == before.update(i as int, e));
                self.entries = entries;
                true
            },
            None => false,
        }
    }

    /// Rebinds an existing handle, so the edge state and repeat setting survive.
    pub fn set_chord(&mut self, handle: Handle, chord: Chord) -> (found: bool)
        ensures
            final(self)@.wf(),
            final(self)@ == old(self)@.with_chord(handle, chord),
            found == old(self)@.has(handle),
    {
        proof {
            use_type_invariant(&*self);
        }
        match self.find(handle) {
            Some(i) => {
                let mut e = self.entries[i];
                e.chord = chord;
                let ghost before = self@.entries;
                let mut entries: Vec<Entry<C, U>> = Vec::new();
                std::mem::swap(&mut entries, &mut self.entries);
                entries.set(i, e);
                assert(entries@ == before.update(i as int, e));
                self.entries = entries;
                true
            },
            None => false,
        }
    }
}

impl<C: Copy, U: Copy> Hotkeys<C, U> {
    /// The chord bound to `handle`, if any.
    pub fn chord_of(&self, handle: Handle) -> (r: Option<Chord>)
        ensures
            r == self@.chord_of(handle),
    {
        match self.find(handle) {
            Some(i) => Some(self.entries[i].chord),
            None => None,
        }
    }

    /// Drops every binding. Handles keep counting from where they were.
    pub fn clear(&mut self)
        ensures
            final(self)@ == old(self)@.cleared(),
            final(self)@.wf(),
    {
        proof {
            use_type_invariant(&*self);
        }
        let mut entries: Vec<Entry<C, U>> = Vec::new();
        std::mem::swap(&mut entries, &mut self.entries);
    }

    /// The number of bindings.
    pub fn len(&self) -> (n: usize)
        ensures
            n == self@.entries.len(),
    {
        self.entries.len()
    }

    pub fn is_empty(&self) -> (b: bool)
        ensures
            b == (self@.entries.len() == 0),
    {
        self.entries.len() == 0
    }

    /// The chords of all bindings, in registration order.
    pub fn chords(&self) -> (v: Vec<Chord>)
        ensures
            v@ == self@.entries.map_values(|e: Entry<C, U>| e.chord),
    {
        let n = self.entries.len();
        let mut v: Vec<Chord> = Vec::new();
        let mut i: usize = 0;
        while i < n
            invariant
                i <= n == self@.entries.len(),
                v@ =~= self@.entries.take(i as int).map_values(|e: Entry<C, U>| e.chord),
            decreases n - i,
        {
            v.push(self.entries[i].chord);
            i = i + 1;
        }
        assert(self@.entries.take(n as int) =~= self@.entries);
        v
    }

    /// Whether exactly `(vk, mods)` is registered.
    ///
    /// For a host that swallows the key messages its overlay owns: matching exactly
    /// means `Ctrl+Shift+J` is eaten while a bare `J` passes through untouched.
    pub fn chord_registered(&self, vk: u32, mods: Mods) -> (b: bool)
        ensures
            b == exists|i: int|
                0 <= i < self@.entries.len() && (#[trigger] self@.entries[i]).chord.vk == vk
                    && self@.entries[i].chord.mods == mods,
    {
        let n = self.entries.len();
        let mut i: usize = 0;
        while i < n
            invariant
                i <= n == self@.entries.len(),
                forall|k: int|
                    0 <= k < i ==> !((#[trigger] self@.entries[k]).chord.vk == vk
                        && self@.entries[k].chord.mods == mods),
            decreases n - i,
        {
            let c = self.entries[i].chord;
            if c.vk == vk && c.mods == mods {
                return true;
            }
            i = i + 1;
        }
        false
    }

    /// Whether any bound chord uses exactly this modifier set; never for the empty
    /// set.
    ///
    /// For a character message, where the virtual key is no longer available: if the
    /// overlay owns this modifier combination at all, no character from it should
    /// reach a focused text field.
    pub fn any_chord_uses(&self, mods: Mods) -> (b: bool)
        ensures
            b == (!mods.is_empty_spec() && exists|i: int|
                0 <= i < self@.entries.len() && (#[trigger] self@.entries[i]).chord.is_bound_spec()
                    && self@.entries[i].chord.mods == mods),
    {
        if mods.is_empty() {
            return false;
        }
        let n = self.entries.len();
        let mut i: usize = 0;
        while i < n
            invariant
                i <= n == self@.entries.len(),
                !mods.is_empty_spec(),
                forall|k: int|
                    0 <= k < i ==> !((#[trigger] self@.entries[k]).chord.is_bound_spec()
                        && self@.entries[k].chord.mods == mods),
            decreases n - i,
        {
            let c = self.entries[i].chord;
            if c.is_bound() && c.mods == mods {
                return true;
            }
            i = i + 1;
        }
        false
    }

    /// The handle the next registration will get.
    pub fn next_handle(&self) -> (h: Handle)
        ensures
            h == self@.next_handle,
    {
        self.next_handle
    }

    /// Whether a poll can run without a hold counter running past `u32::MAX`,
    /// whatever the keys read.
    pub fn can_poll(&self) -> (b: bool)
        ensures
            b == forall|i: int|
                0 <= i < self@.entries.len() ==> can_tick(#[trigger] self@.entries[i], true),
    {
        let n = self.entries.len();
        let mut i: usize = 0;
        while i < n
            invariant
                i <= n == self@.entries.len(),
                forall|k: int| 0 <= k < i ==> can_tick(#[trigger] self@.entries[k], true),
            decreases n - i,
        {
            let e = self.entries[i];
            if e.was_down && e.repeat && e.held_frames == u32::MAX {
                return false;
            }
            i = i + 1;
        }
        true
    }

    /// Applies one frame: in the foreground each binding is ticked with its key
    /// reading `downs[i]`, and the callbacks of those that fire are handed back, in
    /// order; in the background every binding is released and nothing fires.
    pub fn advance(&mut self, foreground: bool, downs: &[bool]) -> (fired: Vec<(C, U)>)
        requires
            foreground ==> downs@.len() == old(self)@.entries.len(),
            foreground ==> forall|i: int|
                0 <= i < old(self)@.entries.len() ==> can_tick(
                    #[trigger] old(self)@.entries[i],
                    downs@[i],
                ),
        ensures
            final(self)@.wf(),
            final(self)@ == old(self)@.polled(foreground, downs@),
            fired@ == poll_fired(old(self)@.entries, foreground, downs@),
    {
        proof {
            use_type_invariant(&*self);
        }
        let ghost before = self@.entries;
        let mut entries: Vec<Entry<C, U>> = Vec::new();
        std::mem::swap(&mut entries, &mut self.entries);
        let n = entries.len();
        let mut fired: Vec<(C, U)> = Vec::new();
        let mut i: usize = 0;
        while i < n
            invariant
                i <= n == entries@.len() == before.len(),
                foreground ==> downs@.len() == n,
                foreground ==> forall|k: int|
                    0 <= k < n ==> can_tick(#[trigger] before[k], downs@[k]),
                forall|k: int| i <= k < n ==> #[trigger] entries@[k] == before[k],
                forall|k: int|
                    0 <= k < i ==> #[trigger] entries@[k] == poll_entries(
                        before,
                        foreground,
                        downs@,
                    )[k],
                foreground ==> fired@ == fired_upto(before, downs@, i as nat),
                !foreground ==> fired@ == Seq::<(C, U)>::empty(),
            decreases n - i,
        {
            let mut e = entries[i];
            if foreground {
                let fire = e.tick(downs[i]);
                if fire {
                    fired.push((e.callback, e.userdata));
                }
            } else {
                e.was_down = false;
                e.held_frames = 0;
            }
            entries.set(i, e);
            i = i + 1;
        }
        assert(entries@ =~= poll_entries(before, foreground, downs@));
        self.entries = entries;
        fired
    }
}

/// Whether `foreground` and `downs` are readings that the two readers can give for a
/// poll of `s`: the foreground reading, and in the foreground, for each binding,
/// whether its chord reads as down.
pub open spec fn poll_readings<C, U, K: Fn(u32) -> bool, G: Fn() -> bool>(
    s: Seq<Entry<C, U>>,
    key_down: K,
    is_foreground: G,
    foreground: bool,
    downs: Seq<bool>,
) -> bool {
    &&& is_foreground.ensures((), foreground)
    &&& foreground ==> downs.len() == s.len() && forall|i: int|
        0 <= i < s.len() ==> s[i].chord.down_outcome(key_down, #[trigger] downs[i])
}

impl<C: Copy, U: Copy> Hotkeys<C, U> {
    /// Polls against injected key state: `key_down` reports whether a virtual key is
    /// held, `is_foreground` whether this process owns the foreground window. Hands
    /// back the callbacks, with their user data, of the bindings that fired, in
    /// registration order; the caller invokes them.
    pub fn poll_with<K: Fn(u32) -> bool, G: Fn() -> bool>(
        &mut self,
        key_down: K,
        is_foreground: G,
    ) -> (fired: Vec<(C, U)>)
        requires
            forall|k: u32| key_down.requires((k,)),
            is_foreground.requires(()),
            forall|i: int|
                0 <= i < old(self)@.entries.len() ==> can_tick(
                    #[trigger] old(self)@.entries[i],
                    true,
                ),
        ensures
            final(self)@.wf(),
            exists|foreground: bool, downs: Seq<bool>|
                {
                    &&& #[trigger] poll_readings(
                        old(self)@.entries,
                        key_down,
                        is_foreground,
                        foreground,
                        downs,
                    )
                    &&& final(self)@ == old(self)@.polled(foreground, downs)
                    &&& fired@ == poll_fired(old(self)@.entries, foreground, downs)
                },
    {
        let ghost before = self@.entries;
        let foreground = is_foreground();
        let mut downs: Vec<bool> = Vec::new();
        if foreground {
            let n = self.entries.len();
            let mut i: usize = 0;
            while i < n
                invariant
                    i <= n == self@.entries.len(),
                    self@.entries == before,
                    forall|k: u32| key_down.requires((k,)),
                    downs@.len() == i,
                    forall|k: int|
                        0 <= k < i ==> before[k].chord.down_outcome(key_down, #[trigger] downs@[k]),
                decreases n - i,
            {
                let d = self.entries[i].chord.is_down(&key_down);
                downs.push(d);
                i = i + 1;
            }
        }
        let fired = self.advance(foreground, downs.as_slice());
        assert(poll_readings(before, key_down, is_foreground, foreground, downs@));
        fired
    }
}

impl<C: Copy, U: Copy> Default for Hotkeys<C, U> {
    /// An empty registry, as `Hotkeys::new` makes it: handles start at 1.
    fn default() -> (h: Self)
        ensures
            h@.entries == Seq::<Entry<C, U>>::empty(),
            h@.next_handle == 1,
            h@.wf(),
    {
        Self::new()
    }
}

// ---------------------------------------------------------------------------
// Laws
// ---------------------------------------------------------------------------

/// In a sequence with distinct handles, the binding found for a handle is the one
/// that has it.
pub proof fn lemma_position_unique<C, U>(s: Seq<Entry<C, U>>, handle: Handle, k: int)
    requires
        forall|i: int, j: int|
            0 <= i < j < s.len() ==> #[trigger] s[i].handle != #[trigger] s[j].handle,
        0 <= k < s.len(),
        s[k].handle == handle,
    ensures
        has_handle(s, handle),
        position_of(s, handle) == k,
{
    assert(has_handle(s, handle));
    let p = position_of(s, handle);
    if p < k {
        assert(s[p].handle != s[k].handle);
    } else if p > k {
        assert(s[k].handle != s[p].handle);
    }
}

/// Filtering keeps the bindings that pass, and handles that were distinct stay so.
proof fn lemma_filter_entries<C, U>(s: Seq<Entry<C, U>>, pred: spec_fn(Entry<C, U>) -> bool)
    ensures
        forall|i: int|
            0 <= i < s.filter(pred).len() ==> pred(#[trigger] s.filter(pred)[i]) && s.contains(
                s.filter(pred)[i],
            ),
        forall|i: int| 0 <= i < s.len() && pred(s[i]) ==> #[trigger] s.filter(pred).contains(s[i]),
        (forall|i: int, j: int|
            0 <= i < j < s.len() ==> #[trigger] s[i].handle != #[trigger] s[j].handle) ==> (forall|
            i: int,
            j: int,
        |
            0 <= i < j < s.filter(pred).len() ==> #[trigger] s.filter(pred)[i].handle
                != #[trigger] s.filter(pred)[j].handle),
{
    broadcast use vstd::seq_lib::group_filter_ensures;

    let f = s.filter(pred);
    assert forall|i: int| 0 <= i < f.len() implies pred(#[trigger] f[i]) && s.contains(f[i]) by {
        assert(f.contains(f[i]));
        s.lemma_filter_contains_rev(pred, f[i]);
    }
    if forall|i: int, j: int|
        0 <= i < j < s.len() ==> #[trigger] s[i].handle != #[trigger] s[j].handle {
        lemma_filter_keeps_distinct(s, pred);
    }
}

/// Registering a bound chord hands out a handle that no binding had, binds it to the
/// chord, leaves the chord bound once, keeps every other chord's binding, and keeps
/// the registry well formed.
pub proof fn lemma_register_binds<C, U>(
    m: HotkeysModel<C, U>,
    chord: Chord,
    callback: C,
    userdata: U,
)
    requires
        m.wf(),
        m.next_handle < u64::MAX,
    ensures
        !m.has(m.next_handle),
        m.registered(chord, callback, userdata).wf(),
        m.registered(chord, callback, userdata).chord_of(m.next_handle) == Some(chord),
        forall|i: int|
            #![trigger m.registered(chord, callback, userdata).entries[i]]
            0 <= i < m.registered(chord, callback, userdata).entries.len() && m.registered(
                chord,
                callback,
                userdata,
            ).entries[i].chord == chord ==> m.registered(
                chord,
                callback,
                userdata,
            ).entries[i].handle == m.next_handle,
        forall|h: Handle|
            m.has(h) && m.binding(h).chord != chord ==> #[trigger] m.registered(
                chord,
                callback,
                userdata,
            ).chord_of(h) == m.chord_of(h),
{
    let pred = |e: Entry<C, U>| e.chord != chord;
    let f = m.entries.filter(pred);
    let r = m.registered(chord, callback, userdata);
    lemma_filter_entries(m.entries, pred);
    assert(r.entries == f.push(r.entries.last()));
    assert forall|i: int| 0 <= i < f.len() implies 1 <= #[trigger] f[i].handle < m.next_handle by {
        let k = choose|k: int| 0 <= k < m.entries.len() && m.entries[k] == f[i];
        assert(m.entries[k].handle < m.next_handle);
    }
    assert(!m.has(m.next_handle));
    assert forall|i: int, j: int|
        0 <= i < j < r.entries.len() implies #[trigger] r.entries[i].handle
        != #[trigger] r.entries[j].handle by {
        if j == r.entries.len() - 1 {
            assert(r.entries[i] == f[i]);
        } else {
            assert(r.entries[i] == f[i]);
            assert(r.entries[j] == f[j]);
        }
    }
    assert(r.wf());
    lemma_position_unique(r.entries, m.next_handle, r.entries.len() - 1);
    assert forall|i: int|
        0 <= i < r.entries.len() && (#[trigger] r.entries[i]).chord == chord implies
            r.entries[i].handle == m.next_handle by {
        if i < r.entries.len() - 1 {
            assert(r.entries[i] == f[i]);
            assert(pred(f[i]));
        }
    }
    assert forall|h: Handle| m.has(h) && m.binding(h).chord != chord implies #[trigger] r.chord_of(
        h,
    ) == m.chord_of(h) by {
        let p = position_of(m.entries, h);
        assert(pred(m.entries[p]));
        assert(f.contains(m.entries[p]));
        let k = choose|k: int| 0 <= k < f.len() && f[k] == m.entries[p];
        assert(r.entries[k] == f[k]);
        lemma_position_unique(r.entries, h, k);
    }
}

/// Filtering twice by the same predicate is filtering once.
proof fn lemma_filter_idempotent<A>(s: Seq<A>, pred: spec_fn(A) -> bool)
    ensures
        s.filter(pred).filter(pred) == s.filter(pred),
    decreases s.len(),
{
    reveal(Seq::filter);
    if s.len() > 0 {
        lemma_filter_idempotent(s.drop_last(), pred);
        let f0 = s.drop_last().filter(pred);
        if pred(s.last()) {
            let f = f0.push(s.last());
            assert(f.drop_last() =~= f0);
        }
    }
}

/// Unregistering removes the binding of that handle and keeps every other one; a
/// second unregistering of the same handle finds nothing and changes nothing.
pub proof fn lemma_unregister<C, U>(m: HotkeysModel<C, U>, handle: Handle)
    requires
        m.wf(),
    ensures
        m.unregistered(handle).wf(),
        !m.unregistered(handle).has(handle),
        m.unregistered(handle).unregistered(handle) == m.unregistered(handle),
        forall|h: Handle|
            h != handle && m.has(h) ==> #[trigger] m.unregistered(handle).chord_of(h)
                == m.chord_of(h),
{
    let pred = |e: Entry<C, U>| e.handle != handle;
    let r = m.unregistered(handle);
    let f = r.entries;
    lemma_filter_entries(m.entries, pred);
    lemma_filter_idempotent(m.entries, pred);
    assert forall|i: int| 0 <= i < f.len() implies 1 <= #[trigger] f[i].handle < m.next_handle by {
        let k = choose|k: int| 0 <= k < m.entries.len() && m.entries[k] == f[i];
        assert(m.entries[k].handle < m.next_handle);
    }
    assert(r.wf());
    if r.has(handle) {
        let k = choose|k: int| 0 <= k < f.len() && #[trigger] f[k].handle == handle;
        assert(pred(f[k]));
    }
    assert forall|h: Handle| h != handle && m.has(h) implies #[trigger] r.chord_of(h) == m.chord_of(
        h,
    ) by {
        let p = position_of(m.entries, h);
        assert(pred(m.entries[p]));
        assert(f.contains(m.entries[p]));
        let k = choose|k: int| 0 <= k < f.len() && f[k] == m.entries[p];
        lemma_position_unique(f, h, k);
    }
}

/// Rebinding a handle keeps it, with its callback, repeat setting and edge state, and
/// binds it to the new chord; the registry stays well formed.
pub proof fn lemma_set_chord_keeps_handle<C, U>(
    m: HotkeysModel<C, U>,
    handle: Handle,
    chord: Chord,
)
    requires
        m.wf(),
        m.has(handle),
    ensures
        m.with_chord(handle, chord).wf(),
        m.with_chord(handle, chord).chord_of(handle) == Some(chord),
        m.with_chord(handle, chord).binding(handle).repeat == m.binding(handle).repeat,
        m.with_chord(handle, chord).binding(handle).callback == m.binding(handle).callback,
        m.with_chord(handle, chord).binding(handle).userdata == m.binding(handle).userdata,
        m.with_chord(handle, chord).binding(handle).was_down == m.binding(handle).was_down,
        m.with_chord(handle, chord).binding(handle).held_frames == m.binding(handle).held_frames,
        m.with_chord(handle, chord).entries.len() == m.entries.len(),
{
    let r = m.with_chord(handle, chord);
    let p = position_of(m.entries, handle);
    assert(r.wf());
    lemma_position_unique(r.entries, handle, p);
}

/// A new binding does not repeat: registering a bound chord binds the handle handed
/// out to that chord, callback and user data, up and not repeating, so holding the
/// chord from a fresh press fires once and never again while held.
pub proof fn lemma_register_not_repeating<C, U>(
    m: HotkeysModel<C, U>,
    chord: Chord,
    callback: C,
    userdata: U,
    n: nat,
)
    requires
        m.wf(),
        m.next_handle < u64::MAX,
    ensures
        ({
            let b = m.registered(chord, callback, userdata).binding(m.next_handle);
            &&& m.registered(chord, callback, userdata).has(m.next_handle)
            &&& b.handle == m.next_handle
            &&& b.chord == chord
            &&& b.callback == callback
            &&& b.userdata == userdata
            &&& !b.repeat
            &&& !b.was_down
            &&& b.held_frames == 0
            &&& tick_spec(b, true).1
            &&& n >= 1 ==> !tick_spec(held_for(b, n), true).1
        }),
{
    lemma_register_binds(m, chord, callback, userdata);
    let r = m.registered(chord, callback, userdata);
    lemma_position_unique(r.entries, m.next_handle, r.entries.len() - 1);
    lemma_fires_once_per_press(r.binding(m.next_handle), n);
}

/// Setting the repeat flag of a bound handle makes it exactly the flag given,
/// whatever it was, and changes nothing else: the binding keeps its handle, chord,
/// callback, user data and edge state, and every other binding stays as it was.
pub proof fn lemma_set_repeat<C, U>(m: HotkeysModel<C, U>, handle: Handle, repeat: bool)
    requires
        m.wf(),
    ensures
        m.with_repeat(handle, repeat).wf(),
        m.with_repeat(handle, repeat).entries.len() == m.entries.len(),
        !m.has(handle) ==> m.with_repeat(handle, repeat) == m,
        m.has(handle) ==> {
            let b = m.with_repeat(handle, repeat).binding(handle);
            let a = m.binding(handle);
            &&& m.with_repeat(handle, repeat).has(handle)
            &&& b.repeat == repeat
            &&& b.handle == a.handle
            &&& b.chord == a.chord
            &&& b.callback == a.callback
            &&& b.userdata == a.userdata
            &&& b.was_down == a.was_down
            &&& b.held_frames == a.held_frames
        },
        forall|h: Handle|
            h != handle && m.has(h) ==> #[trigger] m.with_repeat(handle, repeat).has(h)
                && m.with_repeat(handle, repeat).binding(h) == m.binding(h),
{
    let r = m.with_repeat(handle, repeat);
    if m.has(handle) {
        let p = position_of(m.entries, handle);
        assert(r.wf());
        lemma_position_unique(r.entries, handle, p);
    }
    assert forall|h: Handle| h != handle && m.has(h) implies #[trigger] m.with_repeat(
        handle,
        repeat,
    ).has(h) && m.with_repeat(handle, repeat).binding(h) == m.binding(h) by {
        if m.has(handle) {
            let p = position_of(m.entries, handle);
            let q = position_of(m.entries, h);
            assert(0 <= q < m.entries.len() && m.entries[q].handle == h);
            assert(m.entries[p].handle == handle);
            assert(r.entries[q] == m.entries[q]);
            assert(r.wf());
            lemma_position_unique(r.entries, h, q);
        }
    }
}

/// Whether `p` is the callback and user data of one of the first `n` bindings, one
/// whose frame fires.
pub open spec fn from_firing<C, U>(
    s: Seq<Entry<C, U>>,
    downs: Seq<bool>,
    n: nat,
    p: (C, U),
) -> bool {
    exists|i: int|
        #![trigger s[i]]
        0 <= i < n && tick_spec(s[i], downs[i]).1 && p == (s[i].callback, s[i].userdata)
}

/// A poll hands back exactly the bindings whose frame fires: the callback and user
/// data of every binding that fires are handed back, everything handed back belongs
/// to a binding that fires, and no more is handed back than there are bindings.
pub proof fn lemma_fired_members<C, U>(s: Seq<Entry<C, U>>, downs: Seq<bool>, n: nat)
    requires
        n <= s.len(),
    ensures
        fired_upto(s, downs, n).len() <= n,
        forall|i: int|
            0 <= i < n && tick_spec(s[i], downs[i]).1 ==> #[trigger] fired_upto(
                s,
                downs,
                n,
            ).contains((s[i].callback, s[i].userdata)),
        forall|k: int|
            0 <= k < fired_upto(s, downs, n).len() ==> from_firing(
                s,
                downs,
                n,
                #[trigger] fired_upto(s, downs, n)[k],
            ),
    decreases n,
{
    if n > 0 {
        let m = (n - 1) as nat;
        lemma_fired_members(s, downs, m);
        let before = fired_upto(s, downs, m);
        let now = fired_upto(s, downs, n);
        let e = s[m as int];
        let fires = tick_spec(e, downs[m as int]).1;
        if fires {
            assert(now == before.push((e.callback, e.userdata)));
        } else {
            assert(now == before);
        }
        assert forall|i: int|
            0 <= i < n && tick_spec(s[i], downs[i]).1 implies #[trigger] fired_upto(
            s,
            downs,
            n,
        ).contains((s[i].callback, s[i].userdata)) by {
            if i < m {
                assert(before.contains((s[i].callback, s[i].userdata)));
                let k = choose|k: int| 0 <= k < before.len() && before[k] == (
                    s[i].callback,
                    s[i].userdata,
                );
                assert(now[k] == before[k]);
            } else {
                assert(now[now.len() - 1] == (e.callback, e.userdata));
            }
        }
        assert forall|k: int| 0 <= k < now.len() implies from_firing(
            s,
            downs,
            n,
            #[trigger] fired_upto(s, downs, n)[k],
        ) by {
            if k < before.len() {
                assert(now[k] == before[k]);
                assert(from_firing(s, downs, m, before[k]));
                let i = choose|i: int|
                    #![trigger s[i]]
                    0 <= i < m && tick_spec(s[i], downs[i]).1 && before[k] == (
                        s[i].callback,
                        s[i].userdata,
                    );
                assert(0 <= i < n && tick_spec(s[i], downs[i]).1 && now[k] == (
                    s[i].callback,
                    s[i].userdata,
                ));
            } else {
                assert(now[k] == (s[m as int].callback, s[m as int].userdata));
            }
        }
    }
}

/// One operation on a registry, as its model sees it.
pub enum RegistryOp<C, U> {
    Register(Chord, C, U),
    Unregister(Handle),
    SetRepeat(Handle, bool),
    SetChord(Handle, Chord),
    Clear,
    Poll(bool, Seq<bool>),
}

/// What an operation does to the registry, and the handle it hands out, if any:
/// `register` of a bound chord hands out one; a refused registration changes nothing.
pub open spec fn apply_op<C, U>(m: HotkeysModel<C, U>, op: RegistryOp<C, U>) -> (
    HotkeysModel<C, U>,
    Option<Handle>,
) {
    match op {
        RegistryOp::Register(chord, callback, userdata) => if chord.is_bound_spec() {
            (m.registered(chord, callback, userdata), Some(m.next_handle))
        } else {
            (m, None)
        },
        RegistryOp::Unregister(handle) => (m.unregistered(handle), None),
        RegistryOp::SetRepeat(handle, repeat) => (m.with_repeat(handle, repeat), None),
        RegistryOp::SetChord(handle, chord) => (m.with_chord(handle, chord), None),
        RegistryOp::Clear => (m.cleared(), None),
        RegistryOp::Poll(foreground, downs) => (m.polled(foreground, downs), None),
    }
}

/// A sequence of operations applied in order: the final registry, and the handles
/// handed out, in order.
pub open spec fn run_ops<C, U>(m: HotkeysModel<C, U>, ops: Seq<RegistryOp<C, U>>) -> (
    HotkeysModel<C, U>,
    Seq<Handle>,
)
    decreases ops.len(),
{
    if ops.len() == 0 {
        (m, Seq::empty())
    } else {
        let (m1, issued) = apply_op(m, ops[0]);
        let (last, rest) = run_ops(m1, ops.drop_first());
        match issued {
            Some(h) => (last, seq![h] + rest),
            None => (last, rest),
        }
    }
}

/// Handles are never reused: over any sequence of operations (unregistering and
/// clearing included) the next handle never goes down, and the handles handed out
/// strictly increase, all at or above the next handle at the start (so above every
/// handle handed out before it) and below the next handle at the end.
pub proof fn lemma_handles_never_reused<C, U>(m: HotkeysModel<C, U>, ops: Seq<RegistryOp<C, U>>)
    requires
        m.next_handle + ops.len() <= u64::MAX,
    ensures
        m.next_handle <= run_ops(m, ops).0.next_handle,
        forall|i: int|
            0 <= i < run_ops(m, ops).1.len() ==> m.next_handle <= #[trigger] run_ops(m, ops).1[i]
                < run_ops(m, ops).0.next_handle,
        forall|i: int, j: int|
            0 <= i < j < run_ops(m, ops).1.len() ==> #[trigger] run_ops(m, ops).1[i]
                < #[trigger] run_ops(m, ops).1[j],
    decreases ops.len(),
{
    if ops.len() > 0 {
        let (m1, issued) = apply_op(m, ops[0]);
        assert(m1.next_handle == m.next_handle || (m1.next_handle == m.next_handle + 1
            && issued == Some(m.next_handle)));
        assert(issued is Some ==> m1.next_handle == m.next_handle + 1);
        lemma_handles_never_reused(m1, ops.drop_first());
        let (last, rest) = run_ops(m1, ops.drop_first());
        if let Some(h) = issued {
            let all = seq![h] + rest;
            assert forall|i: int, j: int| 0 <= i < j < all.len() implies #[trigger] all[i]
                < #[trigger] all[j] by {
                if i > 0 {
                    assert(all[i] == rest[i - 1]);
                }
                assert(all[j] == rest[j - 1]);
            }
            assert forall|i: int| 0 <= i < all.len() implies m.next_handle <= #[trigger] all[i]
                < last.next_handle by {
                if i > 0 {
                    assert(all[i] == rest[i - 1]);
                }
            }
        }
    }
}

/// The state `e` reaches after `n` frames held down, as `tick_spec` moves it.
pub open spec fn held_for<C, U>(e: Entry<C, U>, n: nat) -> Entry<C, U>
    decreases n,
{
    if n == 0 {
        e
    } else {
        tick_spec(held_for(e, (n - 1) as nat), true).0
    }
}

/// Edge triggering: a press fires, a release never does, and a chord that does not
/// repeat never fires again however long it is held.
pub proof fn lemma_fires_once_per_press<C, U>(e: Entry<C, U>, n: nat)
    requires
        !e.was_down,
        !e.repeat,
    ensures
        tick_spec(e, true).1,
        !tick_spec(e, false).1,
        n >= 1 ==> !tick_spec(held_for(e, n), true).1,
        n >= 1 ==> held_for(e, n).was_down && !held_for(e, n).repeat,
    decreases n,
{
    reveal_with_fuel(held_for, 2);
    if n > 1 {
        lemma_fires_once_per_press(e, (n - 1) as nat);
    }
}

/// Repeating: a repeating chord fires when pressed, then, held, on the `k`-th frame
/// after the press exactly when `k` is at least `REPEAT_DELAY_FRAMES` and a multiple
/// of `REPEAT_EVERY_FRAMES` past it.
pub proof fn lemma_repeat_schedule<C, U>(e: Entry<C, U>, k: nat)
    requires
        !e.was_down,
        e.repeat,
        1 <= k <= u32::MAX,
    ensures
        tick_spec(e, true).1,
        held_for(e, k).was_down,
        held_for(e, k).repeat,
        held_for(e, k).held_frames == k - 1,
        tick_spec(held_for(e, k), true).1 == (k >= REPEAT_DELAY_FRAMES && (k
            - REPEAT_DELAY_FRAMES) % (REPEAT_EVERY_FRAMES as int) == 0),
    decreases k,
{
    reveal_with_fuel(held_for, 2);
    if k > 1 {
        lemma_repeat_schedule(e, (k - 1) as nat);
    }
}

/// The foreground gate: a poll in the background fires nothing and only forgets edge
/// state, so a chord still held when focus returns fires then, as a fresh press.
pub proof fn lemma_background_poll_resets<C, U>(
    m: HotkeysModel<C, U>,
    downs: Seq<bool>,
    i: int,
)
    requires
        0 <= i < m.entries.len(),
    ensures
        poll_fired(m.entries, false, downs) == Seq::<(C, U)>::empty(),
        m.polled(false, downs).entries.len() == m.entries.len(),
        m.polled(false, downs).entries[i] == (Entry {
            was_down: false,
            held_frames: 0,
            ..m.entries[i]
        }),
        tick_spec(m.polled(false, downs).entries[i], true).1,
{
}

/// Filtering drops something exactly when some element fails the predicate.
proof fn lemma_filter_len_eq<A>(s: Seq<A>, pred: spec_fn(A) -> bool)
    ensures
        s.filter(pred).len() == s.len() <==> forall|i: int|
            0 <= i < s.len() ==> pred(#[trigger] s[i]),
    decreases s.len(),
{
    reveal(Seq::filter);
    broadcast use vstd::seq_lib::group_filter_ensures;

    if s.len() > 0 {
        let init = s.drop_last();
        lemma_filter_len_eq(init, pred);
        if forall|i: int| 0 <= i < s.len() ==> pred(#[trigger] s[i]) {
            assert forall|i: int| 0 <= i < init.len() implies pred(#[trigger] init[i]) by {
                assert(init[i] == s[i]);
            }
        } else {
            let k = choose|k: int| 0 <= k < s.len() && !pred(#[trigger] s[k]);
            if k < s.len() - 1 {
                assert(init[k] == s[k]);
            }
        }
    }
}

/// Filtering keeps handles pairwise distinct.
proof fn lemma_filter_keeps_distinct<C, U>(s: Seq<Entry<C, U>>, pred: spec_fn(Entry<C, U>) -> bool)
    requires
        forall|i: int, j: int|
            0 <= i < j < s.len() ==> #[trigger] s[i].handle != #[trigger] s[j].handle,
    ensures
        forall|i: int, j: int|
            0 <= i < j < s.filter(pred).len() ==> #[trigger] s.filter(pred)[i].handle
                != #[trigger] s.filter(pred)[j].handle,
    decreases s.len(),
{
    reveal(Seq::filter);
    if s.len() > 0 {
        let init = s.drop_last();
        lemma_filter_keeps_distinct(init, pred);
        broadcast use vstd::seq_lib::group_filter_ensures;

        let f = s.filter(pred);
        let fi = init.filter(pred);
        if pred(s.last()) {
            assert forall|i: int, j: int|
                0 <= i < j < f.len() implies #[trigger] f[i].handle != #[trigger] f[j].handle by {
                if j == f.len() - 1 {
                    assert(f[i] == fi[i]);
                    assert(fi.contains(f[i]));
                    init.lemma_filter_contains_rev(pred, f[i]);
                    let k = choose|k: int| 0 <= k < init.len() && init[k] == f[i];
                    assert(s[k] == init[k]);
                    assert(s[s.len() - 1] == f[j]);
                } else {
                    assert(f[i] == fi[i]);
                    assert(f[j] == fi[j]);
                }
            }
        }
    }
}

} // verus!
