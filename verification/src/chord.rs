//! Chords: a modifier set plus one primary virtual-key code.

use vstd::prelude::*;
use crate::keys::{
    in_vocabulary, key_code_chars, key_code_of, key_name, key_name_of,
    lemma_key_name_round_trips, lemma_name_shape,
};
use crate::text::{
    chars_of, eq_lit, has_no_plus, is_whitespace, lemma_lower_noop, lemma_pad_keeps_plus,
    lemma_pad_same_tokens, lemma_split_concat, lemma_split_first, lemma_split_lower,
    lemma_split_single, lemma_split_trim, lemma_trim_decompose, lemma_trim_lower,
    lemma_trim_noop, lower, lower_range, pad_plus, same_token, same_tokens, split_plus, trim,
    trim_bounds,
};

verus! {

/// Virtual-key code of Shift.
pub const VK_SHIFT: u32 = 0x10;
/// Virtual-key code of Ctrl.
pub const VK_CONTROL: u32 = 0x11;
/// Virtual-key code of Alt.
pub const VK_MENU: u32 = 0x12;

/// A set of held modifiers, one bit each for Ctrl, Shift and Alt.
#[derive(Clone, Copy, Debug, PartialEq, Eq, Structural, Hash)]
pub struct Mods(u8);

impl Mods {
    /// The empty set.
    pub closed spec fn none_spec() -> Mods {
        Mods(0)
    }

    /// Ctrl alone.
    pub closed spec fn ctrl_spec() -> Mods {
        Mods(1)
    }

    /// Shift alone.
    pub closed spec fn shift_spec() -> Mods {
        Mods(2)
    }

    /// Alt alone.
    pub closed spec fn alt_spec() -> Mods {
        Mods(4)
    }

    /// The empty set.
    #[allow(non_snake_case)]
    #[verifier::when_used_as_spec(none_spec)]
    pub fn NONE() -> (m: Mods)
        ensures
            m == Mods::none_spec(),
            m.bits_spec() == 0,
    {
        Mods(0)
    }

    /// Ctrl alone.
    #[allow(non_snake_case)]
    #[verifier::when_used_as_spec(ctrl_spec)]
    pub fn CTRL() -> (m: Mods)
        ensures
            m == Mods::ctrl_spec(),
            m.bits_spec() == 1,
    {
        Mods(1)
    }

    /// Shift alone.
    #[allow(non_snake_case)]
    #[verifier::when_used_as_spec(shift_spec)]
    pub fn SHIFT() -> (m: Mods)
        ensures
            m == Mods::shift_spec(),
            m.bits_spec() == 2,
    {
        Mods(2)
    }

    /// Alt alone.
    #[allow(non_snake_case)]
    #[verifier::when_used_as_spec(alt_spec)]
    pub fn ALT() -> (m: Mods)
        ensures
            m == Mods::alt_spec(),
            m.bits_spec() == 4,
    {
        Mods(4)
    }

    /// The raw bits of the set: Ctrl is 1, Shift 2 and Alt 4.
    pub closed spec fn bits_spec(self) -> u8 {
        self.0
    }

    /// The raw bits of the set.
    #[verifier::when_used_as_spec(bits_spec)]
    pub fn bits(self) -> (b: u8)
        ensures
            b == self.bits_spec(),
    {
        self.0
    }

    /// Masks off anything outside the three known modifiers.
    pub closed spec fn from_bits_spec(bits: u8) -> Mods {
        Mods(bits & 7)
    }

    /// Masks off anything outside the three known modifiers.
    #[verifier::when_used_as_spec(from_bits_spec)]
    pub fn from_bits(bits: u8) -> (m: Mods)
        ensures
            m == Mods::from_bits_spec(bits),
            m.bits_spec() == bits & 7,
            m.valid(),
    {
        assert(bits & 7 < 8) by (bit_vector);
        Mods(bits & 7)
    }

    /// Whether every modifier of `other` is in `self`.
    pub open spec fn contains_spec(self, other: Mods) -> bool {
        self.bits_spec() & other.bits_spec() == other.bits_spec()
    }

    /// Whether every modifier of `other` is in `self`.
    #[verifier::when_used_as_spec(contains_spec)]
    pub fn contains(self, other: Mods) -> (b: bool)
        ensures
            b == self.contains_spec(other),
            b == (self.bits_spec() & other.bits_spec() == other.bits_spec()),
    {
        self.0 & other.0 == other.0
    }

    /// Whether no modifier is held.
    pub open spec fn is_empty_spec(self) -> bool {
        self.bits_spec() == 0
    }

    /// Whether no modifier is held.
    #[verifier::when_used_as_spec(is_empty_spec)]
    pub fn is_empty(self) -> (b: bool)
        ensures
            b == self.is_empty_spec(),
            b == (self.bits_spec() == 0),
    {
        self.0 == 0
    }

    /// A set built by this crate only ever holds the three known bits.
    pub open spec fn valid(self) -> bool {
        self.bits_spec() < 8
    }

    /// Whether Ctrl is in the set.
    pub open spec fn has_ctrl(self) -> bool {
        self.bits_spec() & 1 == 1
    }

    /// Whether Shift is in the set.
    pub open spec fn has_shift(self) -> bool {
        self.bits_spec() & 2 == 2
    }

    /// Whether Alt is in the set.
    pub open spec fn has_alt(self) -> bool {
        self.bits_spec() & 4 == 4
    }

    /// The set that holds exactly the modifiers flagged.
    pub closed spec fn of_flags(ctrl: bool, shift: bool, alt: bool) -> Mods {
        Mods(
            ((if ctrl { 1u8 } else { 0u8 }) | (if shift { 2u8 } else { 0u8 })) | (if alt {
                4u8
            } else {
                0u8
            }),
        )
    }

    /// The union of two sets.
    pub closed spec fn union(self, rhs: Mods) -> Mods {
        Mods(self.0 | rhs.0)
    }
}

impl Default for Mods {
    /// The empty set.
    fn default() -> (m: Mods)
        ensures
            m == Mods::none_spec(),
    {
        Mods(0)
    }
}

/// `a | b` is the union of the two sets.
impl core::ops::BitOr for Mods {
    type Output = Mods;

    fn bitor(self, rhs: Mods) -> (m: Mods) {
        Mods(self.0 | rhs.0)
    }
}

impl vstd::std_specs::ops::BitOrSpecImpl for Mods {
    open spec fn obeys_bitor_spec() -> bool {
        true
    }

    open spec fn bitor_req(self, rhs: Mods) -> bool {
        true
    }

    open spec fn bitor_spec(self, rhs: Mods) -> Mods {
        self.union(rhs)
    }
}

/// A modifier set plus a primary key.
///
/// `vk == 0` means unbound and never matches, so a "not configured" binding cannot
/// accidentally match a real key.
#[derive(Clone, Copy, Debug, PartialEq, Eq, Structural, Hash)]
pub struct Chord {
    pub mods: Mods,
    pub vk: u32,
}

impl Default for Chord {
    /// The unbound chord.
    fn default() -> (c: Chord)
        ensures
            c == Chord::none_spec(),
    {
        Chord { mods: Mods(0), vk: 0 }
    }
}

impl Chord {
    /// The unbound chord.
    pub open spec fn none_spec() -> Chord {
        Chord { mods: Mods::none_spec(), vk: 0 }
    }

    /// The unbound chord.
    #[allow(non_snake_case)]
    #[verifier::when_used_as_spec(none_spec)]
    pub fn NONE() -> (c: Chord)
        ensures
            c == Chord::none_spec(),
    {
        Chord { mods: Mods(0), vk: 0 }
    }

    /// The chord of `mods` and `vk`.
    pub fn new(mods: Mods, vk: u32) -> (c: Chord)
        ensures
            c.mods == mods,
            c.vk == vk,
    {
        Chord { mods, vk }
    }

    /// Whether the chord names a key.
    pub open spec fn is_bound_spec(self) -> bool {
        self.vk != 0
    }

    /// Whether the chord names a key.
    #[verifier::when_used_as_spec(is_bound_spec)]
    pub fn is_bound(self) -> (b: bool)
        ensures
            b == self.is_bound_spec(),
    {
        self.vk != 0
    }

    /// Whether the chord is typed as ordinary text: Ctrl and Alt are both held (AltGr)
    /// or both absent.
    pub open spec fn is_typeable_spec(self) -> bool {
        self.mods.contains_spec(Mods::ctrl_spec()) == self.mods.contains_spec(Mods::alt_spec())
    }

    /// Whether the chord can be typed as ordinary text.
    ///
    /// A chord is safe to use globally only when it holds exactly one of Ctrl or Alt:
    /// neither means plain characters, and Ctrl with Alt is AltGr on Windows, which
    /// non-US layouts use for everyday characters. Checking only that a modifier is
    /// present would pass Ctrl+Alt.
    ///
    /// This crate does not refuse such a chord; the policy belongs to the host.
    #[verifier::when_used_as_spec(is_typeable_spec)]
    pub fn is_typeable(self) -> (b: bool)
        ensures
            b == self.is_typeable_spec(),
            b == (self.mods.has_ctrl() == self.mods.has_alt()),
    {
        let ctrl = self.mods.contains(Mods::CTRL());
        let alt = self.mods.contains(Mods::ALT());
        ctrl == alt
    }
}

/// Whether `m` is a modifier set that `key_down` can report: Ctrl, Shift and Alt
/// each read once, with results that `key_down` may return.
pub open spec fn reads_mods<F: Fn(u32) -> bool>(key_down: F, m: Mods) -> bool {
    exists|c: bool, s: bool, a: bool|
        #![trigger Mods::of_flags(c, s, a)]
        {
            &&& key_down.ensures((VK_CONTROL,), c)
            &&& key_down.ensures((VK_SHIFT,), s)
            &&& key_down.ensures((VK_MENU,), a)
            &&& m == Mods::of_flags(c, s, a)
        }
}

impl Chord {
    /// Whether `r` is an answer that `is_down` can give for this chord with `key_down`:
    /// an unbound chord is never down; a bound one is down exactly when its key reads
    /// as held and the modifiers read equal the chord's own.
    pub open spec fn down_outcome<F: Fn(u32) -> bool>(self, key_down: F, r: bool) -> bool {
        if !self.is_bound_spec() {
            !r
        } else {
            exists|k: bool|
                #![trigger key_down.ensures((self.vk,), k)]
                key_down.ensures((self.vk,), k) && if k {
                    exists|m: Mods| #[trigger] reads_mods(key_down, m) && r == (m == self.mods)
                } else {
                    !r
                }
        }
    }

    /// Reads the currently held modifiers from a key-state reader.
    pub fn mods_from<F: Fn(u32) -> bool>(key_down: &F) -> (m: Mods)
        requires
            forall|k: u32| key_down.requires((k,)),
        ensures
            reads_mods(*key_down, m),
            m.valid(),
    {
        let ctrl = key_down(VK_CONTROL);
        let shift = key_down(VK_SHIFT);
        let alt = key_down(VK_MENU);
        let bits: u8 = ((if ctrl { 1u8 } else { 0u8 }) | (if shift { 2u8 } else { 0u8 })) | (
        if alt {
            4u8
        } else {
            0u8
        });
        let m = Mods(bits);
        proof {
            lemma_of_flags_valid(ctrl, shift, alt);
            assert(m == Mods::of_flags(ctrl, shift, alt));
        }
        m
    }

    /// Whether this chord is held, given a key-state reader.
    ///
    /// Modifiers are compared for equality, not as a superset, so `Ctrl+Shift+P` does
    /// not also fire while Alt is down.
    pub fn is_down<F: Fn(u32) -> bool>(self, key_down: &F) -> (r: bool)
        requires
            forall|k: u32| key_down.requires((k,)),
        ensures
            self.down_outcome(*key_down, r),
    {
        if !self.is_bound() {
            return false;
        }
        let k = key_down(self.vk);
        if !k {
            return false;
        }
        let m = Self::mods_from(key_down);
        m == self.mods
    }
}

/// What parsing has gathered so far: the modifiers, and the primary key once one has
/// been seen.
pub type ParseState = (Mods, Option<u32>);

/// One `+`-separated token applied to what parsing has gathered: a blank token is
/// skipped, a modifier name (any ASCII case, surrounding whitespace ignored) adds
/// its modifier, anything else must be the first primary key and a known key name.
pub open spec fn token_step(st: ParseState, tok: Seq<char>) -> Option<ParseState> {
    let t = lower(trim(tok));
    if t.len() == 0 {
        Some(st)
    } else if t == "ctrl"@ || t == "control"@ {
        Some((st.0.union(Mods::ctrl_spec()), st.1))
    } else if t == "shift"@ {
        Some((st.0.union(Mods::shift_spec()), st.1))
    } else if t == "alt"@ || t == "menu"@ {
        Some((st.0.union(Mods::alt_spec()), st.1))
    } else if st.1 is Some {
        None
    } else {
        match key_code_of(t) {
            Some(vk) => Some((st.0, Some(vk))),
            None => None,
        }
    }
}

/// The tokens applied in order, stopping at the first that is refused.
pub open spec fn fold_tokens(ts: Seq<Seq<char>>, st: ParseState) -> Option<ParseState>
    decreases ts.len(),
{
    if ts.len() == 0 {
        Some(st)
    } else {
        match token_step(st, ts[0]) {
            Some(next) => fold_tokens(ts.drop_first(), next),
            None => None,
        }
    }
}

/// The chord that parsing has gathered, if it names a key.
pub open spec fn finish(r: Option<ParseState>) -> Option<Chord> {
    match r {
        Some((mods, Some(vk))) => if vk != 0 {
            Some(Chord { mods, vk })
        } else {
            None
        },
        _ => None,
    }
}

impl Chord {
    /// What `parse` gives for a text: the unbound chord for blank text or `none` (any
    /// ASCII case); otherwise the chord its `+`-separated tokens spell, or `None`
    /// when a token is refused or no primary key was given.
    pub open spec fn parse_spec(text: Seq<char>) -> Option<Chord> {
        let t = trim(text);
        if t.len() == 0 || lower(t) == "none"@ {
            Some(Chord::none_spec())
        } else {
            finish(fold_tokens(split_plus(t), (Mods::none_spec(), None)))
        }
    }

    /// The text `describe` gives: `none` for an unbound chord, otherwise `ctrl+`,
    /// `shift+` and `alt+` for the modifiers held, in that order, then the key's name.
    pub open spec fn describe_spec(self) -> Seq<char> {
        if !self.is_bound_spec() {
            "none"@
        } else {
            (if self.mods.contains_spec(Mods::ctrl_spec()) {
                "ctrl+"@
            } else {
                Seq::empty()
            }) + (if self.mods.contains_spec(Mods::shift_spec()) {
                "shift+"@
            } else {
                Seq::empty()
            }) + (if self.mods.contains_spec(Mods::alt_spec()) {
                "alt+"@
            } else {
                Seq::empty()
            }) + key_name_of(self.vk)
        }
    }

    /// Parses `"ctrl+shift+p"`. `"none"` (or an empty string) parses to an unbound
    /// chord, which is how a config file switches a binding off.
    ///
    /// Returns `None` for anything unrecognised, so a typo leaves the previous
    /// binding alone instead of silently unbinding it.
    pub fn parse(text: &str) -> (r: Option<Chord>)
        ensures
            r == Chord::parse_spec(text@),
    {
        let chars = chars_of(text);
        let cs = chars.as_slice();
        let (ts, te) = trim_bounds(cs, 0, cs.len());
        assert(cs@.subrange(0, cs@.len() as int) =~= text@);
        let low = lower_range(cs, ts, te);
        if ts == te || eq_lit(low.as_slice(), "none") {
            return Some(Chord::NONE());
        }
        let ghost whole = cs@.subrange(ts as int, te as int);
        let mut st: ParseState = (Mods::NONE(), None);
        let mut start = ts;
        let mut j = ts;
        while j < te
            invariant
                ts <= start <= j <= te <= cs@.len(),
                whole == cs@.subrange(ts as int, te as int),
                whole == trim(text@),
                whole.len() != 0,
                lower(whole) != "none"@,
                has_no_plus(cs@.subrange(start as int, j as int)),
                fold_tokens(split_plus(whole), (Mods::none_spec(), None)) == fold_tokens(
                    split_plus(cs@.subrange(start as int, te as int)),
                    st,
                ),
            decreases te - j,
        {
            if cs[j] == '+' {
                let ghost a = cs@.subrange(start as int, j as int);
                let ghost b = cs@.subrange(j + 1, te as int);
                proof {
                    assert(cs@.subrange(start as int, te as int) =~= a + seq!['+'] + b);
                    lemma_split_first(a, b);
                    let ts2 = seq![a] + split_plus(b);
                    assert(ts2[0] == a);
                    assert(ts2.drop_first() =~= split_plus(b));
                }
                match step_token(cs, start, j, st) {
                    Some(next) => {
                        st = next;
                    },
                    None => {
                        return None;
                    },
                }
                start = j + 1;
                assert(cs@.subrange(start as int, (j + 1) as int) =~= Seq::<char>::empty());
            } else {
                assert(cs@.subrange(start as int, (j + 1) as int) =~= cs@.subrange(
                    start as int,
                    j as int,
                ).push(cs@[j as int]));
            }
            j = j + 1;
        }
        proof {
            let last = cs@.subrange(start as int, te as int);
            lemma_split_single(last);
            assert(seq![last].drop_first() =~= Seq::<Seq<char>>::empty());
            reveal_with_fuel(fold_tokens, 2);
        }
        match step_token(cs, start, te, st) {
            Some((mods, Some(vk))) => if vk != 0 {
                Some(Chord { mods, vk })
            } else {
                None
            },
            _ => None,
        }
    }

    /// `"ctrl+shift+p"`, using the same vocabulary that `parse` accepts.
    pub fn describe(self) -> (s: String)
        ensures
            s@ == self.describe_spec(),
    {
        if !self.is_bound() {
            return "none".to_owned();
        }
        let mut out = String::new();
        if self.mods.contains(Mods::CTRL()) {
            out.append("ctrl+");
        }
        if self.mods.contains(Mods::SHIFT()) {
            out.append("shift+");
        }
        if self.mods.contains(Mods::ALT()) {
            out.append("alt+");
        }
        let name = key_name(self.vk);
        out.append(name.as_str());
        assert(out@ =~= self.describe_spec());
        out
    }
}

/// Applies the token at `lo..hi` of `cs`.
fn step_token(cs: &[char], lo: usize, hi: usize, st: ParseState) -> (r: Option<ParseState>)
    requires
        lo <= hi <= cs@.len(),
    ensures
        r == token_step(st, cs@.subrange(lo as int, hi as int)),
{
    let (a, b) = trim_bounds(cs, lo, hi);
    let t = lower_range(cs, a, b);
    let ts = t.as_slice();
    if ts.len() == 0 {
        Some(st)
    } else if eq_lit(ts, "ctrl") || eq_lit(ts, "control") {
        Some((st.0 | Mods::CTRL(), st.1))
    } else if eq_lit(ts, "shift") {
        Some((st.0 | Mods::SHIFT(), st.1))
    } else if eq_lit(ts, "alt") || eq_lit(ts, "menu") {
        Some((st.0 | Mods::ALT(), st.1))
    } else if st.1.is_some() {
        None
    } else {
        match key_code_chars(ts) {
            Some(vk) => Some((st.0, Some(vk))),
            None => None,
        }
    }
}

// ---------------------------------------------------------------------------
// Describing, then parsing
// ---------------------------------------------------------------------------

/// Folding the tokens of `w + "+" + rest` applies `w` first.
proof fn lemma_fold_first(w: Seq<char>, rest: Seq<char>, st: ParseState)
    requires
        has_no_plus(w),
    ensures
        fold_tokens(split_plus(w + seq!['+'] + rest), st) == match token_step(st, w) {
            Some(next) => fold_tokens(split_plus(rest), next),
            None => None,
        },
{
    lemma_split_first(w, rest);
    let ts = seq![w] + split_plus(rest);
    assert(ts[0] == w);
    assert(ts.drop_first() =~= split_plus(rest));
}

/// Folding the tokens of a text without `+` applies it as one token.
proof fn lemma_fold_last(w: Seq<char>, st: ParseState)
    requires
        has_no_plus(w),
    ensures
        fold_tokens(split_plus(w), st) == token_step(st, w),
{
    lemma_split_single(w);
    reveal_with_fuel(fold_tokens, 2);
    assert(seq![w].drop_first() =~= Seq::<Seq<char>>::empty());
}

/// A modifier prefix of a description, `ctrl+`, `shift+` or `alt+`, adds its
/// modifier and leaves the rest to parse.
proof fn lemma_fold_modifier(word: Seq<char>, m: Mods, rest: Seq<char>, st: ParseState)
    requires
        (word == "ctrl"@ && m == Mods::ctrl_spec()) || (word == "shift"@ && m
            == Mods::shift_spec()) || (word == "alt"@ && m == Mods::alt_spec()),
    ensures
        fold_tokens(split_plus(word + seq!['+'] + rest), st) == fold_tokens(
            split_plus(rest),
            (st.0.union(m), st.1),
        ),
{
    reveal_strlit("ctrl");
    reveal_strlit("control");
    reveal_strlit("shift");
    reveal_strlit("alt");
    assert(has_no_plus(word));
    lemma_trim_noop(word);
    lemma_lower_noop(word);
    lemma_fold_first(word, rest, st);
}

/// Rebuilding a set from the three modifiers it contains gives it back.
proof fn lemma_rebuild_mods(m: Mods)
    requires
        m.valid(),
    ensures
        ({
            let a = if m.contains_spec(Mods::ctrl_spec()) {
                Mods::none_spec().union(Mods::ctrl_spec())
            } else {
                Mods::none_spec()
            };
            let b = if m.contains_spec(Mods::shift_spec()) {
                a.union(Mods::shift_spec())
            } else {
                a
            };
            if m.contains_spec(Mods::alt_spec()) {
                b.union(Mods::alt_spec())
            } else {
                b
            }
        }) == m,
{
    let x = m.0;
    assert(x < 8 ==> ({
        let a: u8 = if x & 1 == 1 { 0u8 | 1u8 } else { 0u8 };
        let b: u8 = if x & 2 == 2 { a | 2u8 } else { a };
        let c: u8 = if x & 4 == 4 { b | 4u8 } else { b };
        c == x
    })) by (bit_vector);
}

/// Describing a chord and parsing the text gives the chord back, for every bound
/// chord whose key the vocabulary names; an unbound chord comes back as the
/// unbound chord.
pub proof fn lemma_describe_round_trips(c: Chord)
    requires
        c.is_bound_spec() ==> c.mods.valid() && in_vocabulary(c.vk),
    ensures
        Chord::parse_spec(c.describe_spec()) == Some(
            if c.is_bound_spec() {
                c
            } else {
                Chord::none_spec()
            },
        ),
{
    reveal_strlit("none");
    if !c.is_bound_spec() {
        let d = c.describe_spec();
        lemma_trim_noop(d);
        lemma_lower_noop(d);
    } else {
        lemma_describe_bound_round_trips(c);
    }
}

/// The bound case of `lemma_describe_round_trips`.
proof fn lemma_describe_bound_round_trips(c: Chord)
    requires
        c.is_bound_spec(),
        c.mods.valid(),
        in_vocabulary(c.vk),
    ensures
        Chord::parse_spec(c.describe_spec()) == Some(c),
{
    reveal_strlit("none");
    reveal_strlit("ctrl");
    reveal_strlit("control");
    reveal_strlit("shift");
    reveal_strlit("alt");
    reveal_strlit("menu");
    reveal_strlit("ctrl+");
    reveal_strlit("shift+");
    reveal_strlit("alt+");
    let n = key_name_of(c.vk);
    lemma_name_shape(c.vk);
    lemma_key_name_round_trips(c.vk);
    let has_c = c.mods.contains_spec(Mods::ctrl_spec());
    let has_s = c.mods.contains_spec(Mods::shift_spec());
    let has_a = c.mods.contains_spec(Mods::alt_spec());
    let pc = if has_c {
        "ctrl+"@
    } else {
        Seq::empty()
    };
    let ps = if has_s {
        "shift+"@
    } else {
        Seq::empty()
    };
    let pa = if has_a {
        "alt+"@
    } else {
        Seq::empty()
    };
    let r3 = pa + n;
    let r2 = ps + r3;
    let r1 = pc + r2;
    let d = c.describe_spec();
    assert(d =~= r1);
    let st0: ParseState = (Mods::none_spec(), None);
    let st1: ParseState = if has_c {
        (st0.0.union(Mods::ctrl_spec()), None)
    } else {
        st0
    };
    let st2: ParseState = if has_s {
        (st1.0.union(Mods::shift_spec()), None)
    } else {
        st1
    };
    let st3: ParseState = if has_a {
        (st2.0.union(Mods::alt_spec()), None)
    } else {
        st2
    };
    if has_c {
        assert(r1 =~= "ctrl"@ + seq!['+'] + r2);
        lemma_fold_modifier("ctrl"@, Mods::ctrl_spec(), r2, st0);
    } else {
        assert(r1 =~= r2);
    }
    if has_s {
        assert(r2 =~= "shift"@ + seq!['+'] + r3);
        lemma_fold_modifier("shift"@, Mods::shift_spec(), r3, st1);
    } else {
        assert(r2 =~= r3);
    }
    if has_a {
        assert(r3 =~= "alt"@ + seq!['+'] + n);
        lemma_fold_modifier("alt"@, Mods::alt_spec(), n, st2);
    } else {
        assert(r3 =~= n);
    }
    assert(has_no_plus(n));
    lemma_trim_noop(n);
    lemma_lower_noop(n);
    lemma_fold_last(n, st3);
    lemma_rebuild_mods(c.mods);
    // the whole description is its own trim, and no spelling of `none`
    assert(d[0] == 'c' || d[0] == 's' || d[0] == 'a' || d[0] == n[0]);
    assert(d.last() == n.last());
    lemma_trim_noop(d);
    if has_c || has_s || has_a {
        assert(d.len() >= 5);
        assert(lower(d).len() == d.len());
    } else {
        assert(d =~= n);
        lemma_lower_noop(n);
    }
}

/// The named sets, bit by bit: the empty set is 0, Ctrl 1, Shift 2 and Alt 4.
pub proof fn lemma_named_bits()
    ensures
        Mods::none_spec().bits_spec() == 0,
        Mods::ctrl_spec().bits_spec() == 1,
        Mods::shift_spec().bits_spec() == 2,
        Mods::alt_spec().bits_spec() == 4,
        Chord::none_spec().mods.bits_spec() == 0,
{
}

/// The bits of a union are the bitwise or of the bits.
pub broadcast proof fn lemma_union_bits(a: Mods, b: Mods)
    ensures
        #[trigger] a.union(b).bits_spec() == a.bits_spec() | b.bits_spec(),
{
}

/// `from_bits` keeps the three known bits.
pub broadcast proof fn lemma_from_bits_bits(bits: u8)
    ensures
        #[trigger] Mods::from_bits_spec(bits).bits_spec() == bits & 7,
{
}

/// The set built from three flags has exactly the bits flagged.
pub broadcast proof fn lemma_of_flags_bits(ctrl: bool, shift: bool, alt: bool)
    ensures
        #[trigger] Mods::of_flags(ctrl, shift, alt).bits_spec() == ((if ctrl {
            1u8
        } else {
            0u8
        }) | (if shift {
            2u8
        } else {
            0u8
        })) | (if alt {
            4u8
        } else {
            0u8
        }),
{
}

/// Two sets are equal exactly when their bits are.
pub broadcast proof fn lemma_bits_determine(a: Mods, b: Mods)
    ensures
        #![trigger a.bits_spec(), b.bits_spec()]
        (a.bits_spec() == b.bits_spec()) == (a == b),
{
}

/// The facts that make a `Mods` value readable through its bits.
pub broadcast group group_mods_bits {
    lemma_union_bits,
    lemma_from_bits_bits,
    lemma_of_flags_bits,
    lemma_bits_determine,
}

/// The union of two sets contains both, and sets built by this crate stay within
/// the three known modifiers.
pub proof fn lemma_union(a: Mods, b: Mods)
    ensures
        a.union(b).contains_spec(a),
        a.union(b).contains_spec(b),
        a.union(b) == b.union(a),
        a.valid() && b.valid() ==> a.union(b).valid(),
        a.contains_spec(Mods::none_spec()),
        Mods::from_bits_spec(a.bits_spec()).valid(),
{
    let x = a.0;
    let y = b.0;
    assert((x | y) & x == x && (x | y) & y == y && (x | y) == (y | x) && (x < 8 && y < 8 ==> (x
        | y) < 8) && x & 0 == 0 && (x & 7) < 8) by (bit_vector);
}

/// Parsing gives the unbound chord only for blank text or `none`: any other text
/// that names no key is refused, so a typo never unbinds.
pub proof fn lemma_parse_unbinds_only_on_none(text: Seq<char>)
    ensures
        Chord::parse_spec(text) matches Some(c) ==> (!c.is_bound_spec() ==> c
            == Chord::none_spec() && (trim(text).len() == 0 || lower(trim(text)) == "none"@)),
{
}

// ---------------------------------------------------------------------------
// Parsing ignores case, spacing and the order of tokens
// ---------------------------------------------------------------------------

/// Whether parsing answers a text without reading its tokens: it is blank, or `none`.
pub open spec fn is_blank_or_none(text: Seq<char>) -> bool {
    trim(text).len() == 0 || lower(trim(text)) == "none"@
}

/// Tokens that are the same once trimmed and lower-cased are applied alike.
proof fn lemma_fold_same(xs: Seq<Seq<char>>, ys: Seq<Seq<char>>, st: ParseState)
    requires
        same_tokens(xs, ys),
    ensures
        fold_tokens(xs, st) == fold_tokens(ys, st),
    decreases xs.len(),
{
    if xs.len() > 0 {
        assert(same_token(xs[0], ys[0]));
        assert(same_tokens(xs.drop_first(), ys.drop_first())) by {
            assert forall|i: int| 0 <= i < xs.drop_first().len() implies same_token(
                #[trigger] xs.drop_first()[i],
                ys.drop_first()[i],
            ) by {
                assert(same_token(xs[i + 1], ys[i + 1]));
            }
        }
        match token_step(st, xs[0]) {
            Some(next) => lemma_fold_same(xs.drop_first(), ys.drop_first(), next),
            None => {},
        }
    }
}

/// Parsing reads a text only through whether it is blank or `none`, and through its
/// `+`-separated tokens, each trimmed and in lower case.
pub proof fn lemma_parse_tokens_decide(s: Seq<char>, t: Seq<char>)
    requires
        is_blank_or_none(s) == is_blank_or_none(t),
        same_tokens(split_plus(s), split_plus(t)),
    ensures
        Chord::parse_spec(s) == Chord::parse_spec(t),
{
    lemma_split_trim(s);
    lemma_split_trim(t);
    let a = split_plus(trim(s));
    let b = split_plus(trim(t));
    assert(same_tokens(a, b)) by {
        assert forall|i: int| 0 <= i < a.len() implies same_token(#[trigger] a[i], b[i]) by {
            assert(same_token(a[i], split_plus(s)[i]));
            assert(same_token(split_plus(s)[i], split_plus(t)[i]));
            assert(same_token(b[i], split_plus(t)[i]));
        }
    }
    lemma_fold_same(a, b, (Mods::none_spec(), None));
}

/// ASCII case does not matter: texts with the same lower case parse alike, so a
/// text parses as its upper-case and its lower-case forms do.
pub proof fn lemma_parse_ignores_case(s: Seq<char>, t: Seq<char>)
    requires
        lower(s) == lower(t),
    ensures
        Chord::parse_spec(s) == Chord::parse_spec(t),
{
    lemma_trim_lower(s, t);
    assert(lower(trim(s)).len() == trim(s).len());
    assert(lower(trim(t)).len() == trim(t).len());
    lemma_split_lower(s, t);
    assert forall|i: int| 0 <= i < split_plus(s).len() implies same_token(
        #[trigger] split_plus(s)[i],
        split_plus(t)[i],
    ) by {
        assert(lower(split_plus(s)[i]) == lower(split_plus(t)[i]));
        lemma_trim_lower(split_plus(s)[i], split_plus(t)[i]);
    }
    lemma_parse_tokens_decide(s, t);
}

/// A text with a `+` is neither blank nor `none`.
proof fn lemma_plus_not_special(x: Seq<char>)
    requires
        !has_no_plus(x),
    ensures
        !is_blank_or_none(x),
{
    reveal_strlit("none");
    let (w1, w2) = lemma_trim_decompose(x);
    let t = trim(x);
    let k = choose|k: int| 0 <= k < x.len() && x[k] == '+';
    assert(x[k] == '+');
    if k < w1.len() {
        assert(x[k] == w1[k]);
        assert(is_whitespace(w1[k]));
    } else if k >= w1.len() + t.len() {
        assert(x[k] == w2[k - w1.len() - t.len()]);
        assert(is_whitespace(w2[k - w1.len() - t.len()]));
    } else {
        let j = k - w1.len();
        assert(t[j] == '+');
        assert(lower(t)[j] == '+');
        assert(lower(t).len() == t.len());
        if lower(t) == "none"@ {
            assert("none"@ =~= seq!['n', 'o', 'n', 'e']);
            assert(lower(t)[j] == "none"@[j]);
        }
    }
}

/// Spacing around `+` does not matter: a text parses as it does with a space put
/// on each side of every `+` (`s.replace('+', " + ")`).
pub proof fn lemma_parse_ignores_spacing(s: Seq<char>)
    ensures
        Chord::parse_spec(pad_plus(s)) == Chord::parse_spec(s),
{
    lemma_pad_keeps_plus(s);
    if !has_no_plus(s) {
        lemma_plus_not_special(s);
        lemma_plus_not_special(pad_plus(s));
        lemma_pad_same_tokens(s);
        lemma_parse_tokens_decide(pad_plus(s), s);
    }
}

/// The tokens joined with `+` between them.
pub open spec fn join_plus(ts: Seq<Seq<char>>) -> Seq<char>
    decreases ts.len(),
{
    if ts.len() == 0 {
        Seq::empty()
    } else if ts.len() == 1 {
        ts[0]
    } else {
        join_plus(ts.drop_last()) + seq!['+'] + ts.last()
    }
}

/// Tokens without `+`, joined with `+`, split back into themselves.
proof fn lemma_split_join(ts: Seq<Seq<char>>)
    requires
        ts.len() >= 1,
        forall|i: int| 0 <= i < ts.len() ==> has_no_plus(#[trigger] ts[i]),
    ensures
        split_plus(join_plus(ts)) == ts,
        ts.len() >= 2 ==> !has_no_plus(join_plus(ts)),
    decreases ts.len(),
{
    if ts.len() == 1 {
        lemma_split_single(ts[0]);
        assert(ts =~= seq![ts[0]]);
    } else {
        let init = ts.drop_last();
        assert forall|i: int| 0 <= i < init.len() implies has_no_plus(#[trigger] init[i]) by {
            assert(init[i] == ts[i]);
        }
        lemma_split_join(init);
        lemma_split_concat(join_plus(init), ts.last());
        lemma_split_single(ts.last());
        assert(ts =~= init + seq![ts.last()]);
        let j = join_plus(init) + seq!['+'] + ts.last();
        assert(j[join_plus(init).len() as int] == '+');
    }
}

/// Folding a concatenation folds the first part, then the second.
proof fn lemma_fold_concat(xs: Seq<Seq<char>>, ys: Seq<Seq<char>>, st: ParseState)
    ensures
        fold_tokens(xs + ys, st) == match fold_tokens(xs, st) {
            Some(mid) => fold_tokens(ys, mid),
            None => None,
        },
    decreases xs.len(),
{
    if xs.len() == 0 {
        assert(xs + ys =~= ys);
    } else {
        assert((xs + ys)[0] == xs[0]);
        assert((xs + ys).drop_first() =~= xs.drop_first() + ys);
        match token_step(st, xs[0]) {
            Some(next) => lemma_fold_concat(xs.drop_first(), ys, next),
            None => {},
        }
    }
}

/// Adding two modifiers in either order gives the same set.
proof fn lemma_union_swap(m: Mods, x: Mods, y: Mods)
    ensures
        m.union(x).union(y) == m.union(y).union(x),
{
    let (a, b, c) = (m.0, x.0, y.0);
    assert((a | b) | c == (a | c) | b) by (bit_vector);
}

/// Two tokens applied in either order give the same result.
proof fn lemma_steps_commute(st: ParseState, a: Seq<char>, b: Seq<char>)
    ensures
        fold_tokens(seq![a, b], st) == fold_tokens(seq![b, a], st),
{
    reveal_with_fuel(fold_tokens, 3);
    assert(seq![a, b].drop_first() =~= seq![b]);
    assert(seq![b, a].drop_first() =~= seq![a]);
    assert(seq![b].drop_first() =~= Seq::<Seq<char>>::empty());
    assert(seq![a].drop_first() =~= Seq::<Seq<char>>::empty());
    lemma_union_swap(st.0, Mods::ctrl_spec(), Mods::shift_spec());
    lemma_union_swap(st.0, Mods::ctrl_spec(), Mods::alt_spec());
    lemma_union_swap(st.0, Mods::shift_spec(), Mods::alt_spec());
    lemma_union_swap(st.0, Mods::ctrl_spec(), Mods::ctrl_spec());
    lemma_union_swap(st.0, Mods::shift_spec(), Mods::shift_spec());
    lemma_union_swap(st.0, Mods::alt_spec(), Mods::alt_spec());
}

/// The order of tokens does not matter: swapping two neighbouring tokens of a text
/// leaves what it parses to unchanged, so any reordering does.
pub proof fn lemma_parse_token_order(ts: Seq<Seq<char>>, i: int)
    requires
        0 <= i < ts.len() - 1,
        forall|k: int| 0 <= k < ts.len() ==> has_no_plus(#[trigger] ts[k]),
    ensures
        Chord::parse_spec(join_plus(ts)) == Chord::parse_spec(
            join_plus(ts.update(i, ts[i + 1]).update(i + 1, ts[i])),
        ),
{
    let us = ts.update(i, ts[i + 1]).update(i + 1, ts[i]);
    assert forall|k: int| 0 <= k < us.len() implies has_no_plus(#[trigger] us[k]) by {
        if k == i {
            assert(us[k] == ts[i + 1]);
        } else if k == i + 1 {
            assert(us[k] == ts[i]);
        } else {
            assert(us[k] == ts[k]);
        }
    }
    lemma_split_join(ts);
    lemma_split_join(us);
    let s = join_plus(ts);
    let t = join_plus(us);
    lemma_plus_not_special(s);
    lemma_plus_not_special(t);
    lemma_split_trim(s);
    lemma_split_trim(t);
    let init: ParseState = (Mods::none_spec(), None);
    lemma_fold_same(split_plus(trim(s)), ts, init);
    lemma_fold_same(split_plus(trim(t)), us, init);
    let l = ts.take(i);
    let r = ts.skip(i + 2);
    assert(ts =~= l + seq![ts[i], ts[i + 1]] + r);
    assert(us =~= l + seq![ts[i + 1], ts[i]] + r);
    lemma_fold_concat(l + seq![ts[i], ts[i + 1]], r, init);
    lemma_fold_concat(l + seq![ts[i + 1], ts[i]], r, init);
    lemma_fold_concat(l, seq![ts[i], ts[i + 1]], init);
    lemma_fold_concat(l, seq![ts[i + 1], ts[i]], init);
    match fold_tokens(l, init) {
        Some(mid) => lemma_steps_commute(mid, ts[i], ts[i + 1]),
        None => {},
    }
}

/// The modifier words: `ctrl` and `control` add Ctrl (bit 1), `shift` adds Shift
/// (bit 2), `alt` and `menu` add Alt (bit 4), in any ASCII case and with whitespace
/// around them; the key seen so far is kept.
pub proof fn lemma_modifier_words(st: ParseState, w: Seq<char>)
    requires
        lower(trim(w)) == "ctrl"@ || lower(trim(w)) == "control"@ || lower(trim(w)) == "shift"@
            || lower(trim(w)) == "alt"@ || lower(trim(w)) == "menu"@,
    ensures
        token_step(st, w) matches Some(next) && next.1 == st.1 && next.0.bits_spec()
            == st.0.bits_spec() | (if lower(trim(w)) == "ctrl"@ || lower(trim(w)) == "control"@ {
            1u8
        } else if lower(trim(w)) == "shift"@ {
            2u8
        } else {
            4u8
        }),
{
    reveal_strlit("ctrl");
    reveal_strlit("control");
    reveal_strlit("shift");
    reveal_strlit("alt");
    reveal_strlit("menu");
    let t = lower(trim(w));
    assert("shift"@ != "ctrl"@ && "shift"@ != "control"@) by {
        assert("shift"@[0] != "ctrl"@[0]);
    }
    assert("alt"@ != "ctrl"@ && "alt"@ != "control"@ && "alt"@ != "shift"@) by {
        assert("alt"@.len() != "ctrl"@.len());
    }
    assert("menu"@ != "ctrl"@ && "menu"@ != "control"@ && "menu"@ != "shift"@) by {
        assert("menu"@[0] != "ctrl"@[0]);
    }
}

/// Tokens keep the modifiers gathered within the three known ones.
proof fn lemma_fold_valid(ts: Seq<Seq<char>>, st: ParseState)
    requires
        st.0.valid(),
    ensures
        fold_tokens(ts, st) matches Some(end) ==> end.0.valid(),
    decreases ts.len(),
{
    if ts.len() > 0 {
        lemma_union(st.0, Mods::ctrl_spec());
        lemma_union(st.0, Mods::shift_spec());
        lemma_union(st.0, Mods::alt_spec());
        match token_step(st, ts[0]) {
            Some(next) => lemma_fold_valid(ts.drop_first(), next),
            None => {},
        }
    }
}

/// A parsed chord holds only the three known modifiers.
pub proof fn lemma_parse_mods_valid(text: Seq<char>)
    ensures
        Chord::parse_spec(text) matches Some(c) ==> c.mods.valid(),
{
    lemma_fold_valid(split_plus(trim(text)), (Mods::none_spec(), None));
}

/// The set built from three flags is a set exactly when that set holds just those
/// modifiers.
proof fn lemma_of_flags_eq(c: bool, s: bool, a: bool, m: Mods)
    ensures
        (Mods::of_flags(c, s, a) == m) == (m.valid() && m.has_ctrl() == c && m.has_shift() == s
            && m.has_alt() == a),
{
    let x: u8 = if c { 1u8 } else { 0u8 };
    let y: u8 = if s { 2u8 } else { 0u8 };
    let z: u8 = if a { 4u8 } else { 0u8 };
    let v = m.0;
    assert((x == 1 || x == 0) && (y == 2 || y == 0) && (z == 4 || z == 0) ==> ((v == (x | y)
        | z) == (v < 8 && (v & 1 == 1) == (x == 1) && (v & 2 == 2) == (y == 2) && (v & 4 == 4)
        == (z == 4)))) by (bit_vector);
}

/// Modifiers match exactly. With a key reader whose answers are those of `held`, a
/// chord is down exactly when it is bound, its key is held, and Ctrl, Shift and Alt
/// are held exactly as the chord has them: a chord without modifiers is not down
/// while Ctrl is held, and no chord is down while a modifier it lacks is held.
pub proof fn lemma_down_exact<F: Fn(u32) -> bool>(
    c: Chord,
    key_down: F,
    held: spec_fn(u32) -> bool,
    r: bool,
)
    requires
        forall|k: u32, b: bool| #[trigger] key_down.ensures((k,), b) ==> b == held(k),
        c.down_outcome(key_down, r),
    ensures
        r == (c.vk != 0 && held(c.vk) && c.mods.valid() && c.mods.has_ctrl() == held(VK_CONTROL)
            && c.mods.has_shift() == held(VK_SHIFT) && c.mods.has_alt() == held(VK_MENU)),
{
    if c.is_bound_spec() {
        let k = choose|k: bool| #[trigger] key_down.ensures((c.vk,), k) && if k {
            exists|m: Mods| #[trigger] reads_mods(key_down, m) && r == (m == c.mods)
        } else {
            !r
        };
        if k {
            let m = choose|m: Mods| #[trigger] reads_mods(key_down, m) && r == (m == c.mods);
            let (x, y, z) = choose|x: bool, y: bool, z: bool|
                #![trigger Mods::of_flags(x, y, z)]
                {
                    &&& key_down.ensures((VK_CONTROL,), x)
                    &&& key_down.ensures((VK_SHIFT,), y)
                    &&& key_down.ensures((VK_MENU,), z)
                    &&& m == Mods::of_flags(x, y, z)
                };
            lemma_of_flags_eq(x, y, z, c.mods);
        }
    }
}

proof fn lemma_of_flags_valid(c: bool, s: bool, a: bool)
    ensures
        Mods::of_flags(c, s, a).valid(),
        Mods::of_flags(c, s, a).has_ctrl() == c,
        Mods::of_flags(c, s, a).has_shift() == s,
        Mods::of_flags(c, s, a).has_alt() == a,
{
    let x: u8 = if c { 1u8 } else { 0u8 };
    let y: u8 = if s { 2u8 } else { 0u8 };
    let z: u8 = if a { 4u8 } else { 0u8 };
    assert((x == 1 || x == 0) && (y == 2 || y == 0) && (z == 4 || z == 0) ==> {
        &&& (x | y) | z < 8
        &&& ((x | y) | z) & 1 == 1 <==> x == 1
        &&& ((x | y) | z) & 2 == 2 <==> y == 2
        &&& ((x | y) | z) & 4 == 4 <==> z == 4
    }) by (bit_vector);
}

} // verus!
