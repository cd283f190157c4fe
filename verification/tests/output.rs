use qlover::output::x11::{keysym_to_char, X11Keymap};
use qlover::output::{self, Key, Modifier, Modifiers, PlatformError};
use qlover::platform;

#[test]
fn no_backend_in_this_build() {
    assert!(matches!(output::new(), Err(PlatformError::Unsupported)));
    assert!(matches!(platform::create_output(), Err(platform::PlatformError::Unsupported)));
}

#[test]
fn modifiers_flags() {
    let m = Modifiers::of(Modifier::Ctrl).union(Modifiers::of(Modifier::Shift));
    assert_eq!(m.bits(), 0b101);
    assert!(m.contains(Modifier::Ctrl));
    assert!(!m.contains(Modifier::Alt));
    assert_eq!(Modifiers::from_bits_truncate(0xFF).bits(), 0x0F);
    assert_eq!(Modifiers::empty().bits(), 0);
}

#[test]
fn keysyms_to_chars() {
    assert_eq!(keysym_to_char(0), None);
    assert_eq!(keysym_to_char(0x61), Some('a'));
    assert_eq!(keysym_to_char(0xE9), Some('é'));
    assert_eq!(keysym_to_char(0x1F), None);
    assert_eq!(keysym_to_char(0x0100_20AC), Some('€'));
    assert_eq!(keysym_to_char(0x0100_D800), None);
    assert_eq!(keysym_to_char(0xFF08), None);
}

/// Keycodes 10 to 14, two slots each.
fn keymap() -> X11Keymap {
    let keysyms = vec![
        0x61, 0x41, // 10: a A
        0x62, 0x42, // 11: b B
        0xFFE1, 0, // 12: Shift_L
        0xFFE3, 0, // 13: Control_L
        0xFF08, 0x61, // 14: BackSpace, a (already typed by 10)
    ];
    X11Keymap::from_mapping(10, 14, 2, &keysyms)
}

#[test]
fn keymap_from_mapping() {
    let k = keymap();
    assert_eq!(k.keycode_for_key(Key::Char('a')), Some((10, false)));
    assert_eq!(k.keycode_for_key(Key::Char('A')), Some((10, true)));
    assert_eq!(k.keycode_for_key(Key::Char('B')), Some((11, true)));
    assert_eq!(k.keycode_for_key(Key::Char('z')), None);
    assert_eq!(k.keycode_for_key(Key::Backspace), Some((14, false)));
    assert_eq!(k.keycode_for_key(Key::Return), Some((0, false)));
    assert_eq!(k.keycode_for_modifier(Modifier::Shift), 12);
    assert_eq!(k.keycode_for_modifier(Modifier::Ctrl), 13);
    assert_eq!(k.keycode_for_modifier(Modifier::Alt), 0);
}

#[test]
fn key_event_plan() {
    let k = keymap();
    let none = Modifiers::empty();
    let ctrl = Modifiers::of(Modifier::Ctrl);
    let plan = k.plan_key_events(&[
        (Key::Char('a'), none),
        (Key::Char('A'), none),
        (Key::Char('B'), none),
        (Key::Char('z'), ctrl),
        (Key::Char('b'), ctrl),
    ]);
    assert_eq!(
        plan,
        vec![
            (10, true),
            (10, false),
            (12, true),
            (10, true),
            (10, false),
            // Shift stays held for B.
            (11, true),
            (11, false),
            // z has no keycode: skipped. b wants Ctrl and no Shift.
            (12, false),
            (13, true),
            (11, true),
            (11, false),
            (13, false),
        ]
    );
    assert_eq!(k.plan_key_events(&[]), vec![]);
}

#[test]
fn key_event_plan_is_balanced() {
    let k = keymap();
    let all = Modifiers::from_bits_truncate(0x0F);
    let plan = k.plan_key_events(&[
        (Key::Char('A'), all),
        (Key::Backspace, Modifiers::of(Modifier::Alt)),
        (Key::Char('b'), Modifiers::empty()),
        (Key::Char('B'), Modifiers::of(Modifier::Ctrl)),
    ]);
    for kc in 0..=255u8 {
        let presses = plan.iter().filter(|e| **e == (kc, true)).count();
        let releases = plan.iter().filter(|e| **e == (kc, false)).count();
        assert_eq!(presses, releases, "keycode {}", kc);
    }
}

#[test]
fn platform_error_messages() {
    assert_eq!(PlatformError::Unsupported.message(), "unsupported platform");
    assert_eq!(PlatformError::Backend("lost".to_string()).message(), "backend error: lost");
    assert_eq!(platform::PlatformError::Unsupported.message(), "unsupported platform");
    assert_eq!(
        platform::PlatformError::Backend("gone".to_string()).message(),
        "backend error: gone"
    );
}
