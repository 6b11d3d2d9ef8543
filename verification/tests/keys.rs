use proto_ecs::keys::{Key, Keycode, NamedKey};

fn character(c: &str) -> Keycode {
    Keycode::from(&Key::Character(c.as_bytes().to_vec()))
}

#[test]
fn named_keys_map_to_their_codes() {
    assert_eq!(Keycode::from(&Key::Named(NamedKey::Enter)), Keycode::Enter);
    assert_eq!(Keycode::from(&Key::Named(NamedKey::ArrowDown)), Keycode::Down);
    assert_eq!(Keycode::from(&Key::Named(NamedKey::Shift)), Keycode::LShift);
    assert_eq!(Keycode::from(&Key::Named(NamedKey::NumLock)), Keycode::NumLockClea);
    assert_eq!(Keycode::from(&Key::Named(NamedKey::F12)), Keycode::F12);
    assert_eq!(Keycode::from(&Key::Named(NamedKey::Other)), Keycode::Unknown);
}

#[test]
fn character_keys_map_to_their_codes() {
    assert_eq!(character("a"), Keycode::A);
    assert_eq!(character("z"), Keycode::Z);
    assert_eq!(character("7"), Keycode::Num7);
    assert_eq!(character("]"), Keycode::RightBracke);
    assert_eq!(character("{"), Keycode::KpLeftBrace);
    assert_eq!(character("\""), Keycode::QuoteDouble);
    assert_eq!(character("\\"), Keycode::Backslash);
    assert_eq!(character("^"), Keycode::Power);
}

#[test]
fn other_keys_are_unknown() {
    assert_eq!(character("A"), Keycode::Unknown);
    assert_eq!(character("ab"), Keycode::Unknown);
    assert_eq!(character(""), Keycode::Unknown);
    assert_eq!(character("é"), Keycode::Unknown);
    assert_eq!(Keycode::from(&Key::Unidentified), Keycode::Unknown);
}
