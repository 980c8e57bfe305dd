use honse_hotkeys::{key_code, Chord, Mods, VK_CONTROL, VK_MENU, VK_SHIFT};

const CTRL_F1: u32 = 0x70; // VK_F1
const CTRL_P: u32 = 0x50; // 'P'

fn held(vks: &'static [u32]) -> impl Fn(u32) -> bool {
    move |vk| vks.contains(&vk)
}

#[test]
fn parses_modifiers_and_keys() {
    let chord = Chord::parse("ctrl+shift+p").unwrap();
    assert_eq!(chord.vk, CTRL_P);
    assert!(chord.mods.contains(Mods::CTRL()));
    assert!(chord.mods.contains(Mods::SHIFT()));
    assert!(!chord.mods.contains(Mods::ALT()));

    // Case and spacing are ignored, and a repeated modifier token is harmless.
    let repeated = Chord::parse(" CTRL + Control + f1 ").unwrap();
    assert_eq!(repeated.vk, CTRL_F1);
    assert_eq!(repeated.mods, Mods::CTRL());
    assert_eq!(Chord::parse("alt+space").unwrap().vk, 0x20);
    assert_eq!(Chord::parse("alt+space").unwrap().mods, Mods::ALT());
    assert_eq!(Chord::parse("f12").unwrap().vk, 0x7B);
    assert_eq!(Chord::parse("5").unwrap().vk, 0x35);
}

#[test]
fn rejects_nonsense_without_unbinding() {
    // Callers rely on `None` meaning "typo", so an unparseable string must not
    // come back as an unbound chord.
    assert_eq!(Chord::parse("ctrl+shift+nosuchkey"), None);
    assert_eq!(Chord::parse("ctrl"), None, "modifiers with no key");
    assert_eq!(Chord::parse("a+b"), None, "two primary keys");
    assert_eq!(Chord::parse("f13"), None);

    // "none" is the explicit way to unbind.
    assert_eq!(Chord::parse("none"), Some(Chord::NONE()));
    assert_eq!(Chord::parse("  "), Some(Chord::NONE()));
}

#[test]
fn typable_policy_inputs() {
    // Ctrl or Alt alone, with or without Shift, types nothing on any layout.
    assert!(!Chord::parse("ctrl+p").unwrap().is_typeable());
    assert!(!Chord::parse("alt+p").unwrap().is_typeable());
    assert!(!Chord::parse("ctrl+shift+p").unwrap().is_typeable());
    assert!(!Chord::parse("alt+shift+p").unwrap().is_typeable());

    // Plain text.
    assert!(Chord::parse("p").unwrap().is_typeable());
    assert!(Chord::parse("shift+p").unwrap().is_typeable());

    // AltGr: Ctrl+Alt types text, with or without Shift.
    assert!(Chord::parse("ctrl+alt+p").unwrap().is_typeable());
    assert!(Chord::parse("ctrl+alt+shift+p").unwrap().is_typeable());
}

#[test]
fn modifiers_match_exactly() {
    let chord = Chord::new(Mods::CTRL() | Mods::SHIFT(), CTRL_P);
    assert!(chord.is_down(&held(&[CTRL_P, VK_CONTROL, VK_SHIFT])));
    // Extra Alt means this is a different chord, not a superset match.
    assert!(!chord.is_down(&held(&[CTRL_P, VK_CONTROL, VK_SHIFT, VK_MENU])));
    // Missing Shift.
    assert!(!chord.is_down(&held(&[CTRL_P, VK_CONTROL])));
    // Key not held.
    assert!(!chord.is_down(&held(&[VK_CONTROL, VK_SHIFT])));
    // Unbound never matches.
    assert!(!Chord::NONE().is_down(&held(&[CTRL_P])));
}

#[test]
fn describe_round_trips() {
    for text in ["ctrl+shift+p", "alt+f1", "ctrl+shift+space", "ctrl+minus"] {
        let chord = Chord::parse(text).unwrap();
        let described = chord.describe();
        assert_eq!(
            Chord::parse(&described).unwrap(),
            chord,
            "{text} described as {described}"
        );
    }
    assert_eq!(Chord::NONE().describe(), "none");
}

#[test]
fn describe_gives_the_canonical_spelling() {
    let chord = Chord::parse(" Alt + SHIFT + Control + F10 ").unwrap();
    assert_eq!(chord.describe(), "ctrl+shift+alt+f10");
    assert_eq!(Chord::new(Mods::NONE(), 0x41).describe(), "a");
    assert_eq!(Chord::new(Mods::ALT(), 0x2E).describe(), "alt+delete");
    // Keys outside the vocabulary are written as hexadecimal codes, two digits at least.
    assert_eq!(Chord::new(Mods::CTRL(), 0x0F).describe(), "ctrl+vk0f");
    assert_eq!(Chord::new(Mods::NONE(), 0xFF).describe(), "vkff");
    assert_eq!(Chord::new(Mods::NONE(), 0x1A2B).describe(), "vk1a2b");
    // An unbound chord is "none", whatever its modifiers.
    assert_eq!(Chord::new(Mods::CTRL(), 0).describe(), "none");
}

#[test]
fn every_vocabulary_key_round_trips() {
    let mut keys: Vec<u32> = (0x30..=0x39).chain(0x41..=0x5A).chain(0x70..=0x7B).collect();
    keys.extend([
        0x20, 0x09, 0x2D, 0x2E, 0x24, 0x23, 0x21, 0x22, 0xC0, 0xBD, 0xBB, 0xBC, 0xBE, 0xBF,
        0xBA, 0xDE, 0xDB, 0xDD, 0xDC,
    ]);
    for vk in keys {
        for bits in 0..8u8 {
            let chord = Chord::new(Mods::from_bits(bits), vk);
            assert_eq!(Chord::parse(&chord.describe()), Some(chord), "vk {vk:#x}");
        }
    }
}

#[test]
fn key_code_vocabulary() {
    assert_eq!(key_code("a"), Some(0x41));
    assert_eq!(key_code("Z"), Some(0x5A));
    assert_eq!(key_code("0"), Some(0x30));
    assert_eq!(key_code("f1"), Some(0x70));
    assert_eq!(key_code("f12"), Some(0x7B));
    // The F-key number is read as `str::parse::<u32>` reads it.
    assert_eq!(key_code("f01"), Some(0x70));
    assert_eq!(key_code("f+5"), Some(0x74));
    assert_eq!(key_code("f0"), None);
    assert_eq!(key_code("f13"), None);
    assert_eq!(key_code("f"), Some(0x46));
    assert_eq!(key_code("f-1"), None);
    assert_eq!(key_code("f++1"), None);
    assert_eq!(key_code("f99999999999"), None);
    // Names are matched as given; parsing lowers them first.
    assert_eq!(key_code("F1"), None);
    assert_eq!(key_code("Space"), None);
    assert_eq!(key_code("del"), Some(0x2E));
    assert_eq!(key_code("backslash"), Some(0xDC));
    assert_eq!(key_code("é"), None);
    assert_eq!(key_code(""), None);
}

#[test]
fn parse_edge_cases() {
    // Unicode whitespace is trimmed too, as `str::trim` does.
    assert_eq!(
        Chord::parse("\u{3000}ctrl +\u{a0}p\t"),
        Some(Chord::new(Mods::CTRL(), CTRL_P))
    );
    assert_eq!(Chord::parse("NONE"), Some(Chord::NONE()));
    // Empty tokens are skipped.
    assert_eq!(Chord::parse("+ctrl++p+"), Some(Chord::new(Mods::CTRL(), CTRL_P)));
    // A key before its modifiers is fine.
    assert_eq!(Chord::parse("p+alt"), Some(Chord::new(Mods::ALT(), CTRL_P)));
    assert_eq!(Chord::parse("menu+F2"), Some(Chord::new(Mods::ALT(), 0x71)));
    assert_eq!(Chord::parse("ctrl shift+p"), None);
    assert_eq!(Chord::parse("+"), None);
    assert_eq!(Chord::parse("none+p"), None);
    // Parsed modifiers stay within the three known bits.
    assert_eq!(Chord::parse("ctrl+alt+shift+p").unwrap().mods.bits(), 7);
}

#[test]
fn mods_sets() {
    assert_eq!(Mods::from_bits(0xFF).bits(), 7);
    assert_eq!(Mods::from_bits(0b1010).bits(), 2);
    assert!(Mods::NONE().is_empty());
    assert!(!Mods::ALT().is_empty());
    let both = Mods::CTRL() | Mods::ALT();
    assert_eq!(both.bits(), 5);
    assert!(both.contains(Mods::CTRL()));
    assert!(both.contains(Mods::NONE()));
    assert!(!both.contains(Mods::CTRL() | Mods::SHIFT()));
    assert_eq!(Mods::default(), Mods::NONE());
    assert_eq!(Chord::default(), Chord::NONE());
    assert!(Chord::NONE().is_typeable());
}

#[test]
fn mods_read_from_key_state() {
    assert_eq!(Chord::mods_from(&held(&[])), Mods::NONE());
    assert_eq!(
        Chord::mods_from(&held(&[VK_MENU, VK_CONTROL, 0x41])),
        Mods::CTRL() | Mods::ALT()
    );
    assert_eq!(Chord::mods_from(&held(&[VK_SHIFT])), Mods::SHIFT());
}

#[test]
fn parsing_ignores_case_spacing_and_order() {
    for text in ["ctrl+shift+p", "Alt+F4", " shift + menu + Space ", "+ctrl++5+", "nosuch+ctrl"] {
        let parsed = Chord::parse(text);
        assert_eq!(Chord::parse(&text.to_ascii_uppercase()), parsed, "{text}");
        assert_eq!(Chord::parse(&text.to_ascii_lowercase()), parsed, "{text}");
        assert_eq!(Chord::parse(&text.replace('+', " + ")), parsed, "{text}");
        let mut tokens: Vec<&str> = text.split('+').collect();
        tokens.reverse();
        assert_eq!(Chord::parse(&tokens.join("+")), parsed, "{text}");
    }
    assert_eq!(Chord::parse("p+shift+ctrl"), Chord::parse("ctrl+shift+p"));
}
