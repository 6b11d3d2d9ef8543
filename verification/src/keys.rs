//! Key codes of the engine, and how the keys that the windowing platform
//! reports map to them.
use vstd::prelude::*;

verus! {

/// A key of the keyboard, as the engine names it.
#[derive(Clone, Copy, Debug, PartialEq, Eq, Structural)]
pub enum Keycode {
    Unknown,
    Enter,
    Down,
    Right,
    Left,
    Up,
    LShift,
    LCtrl,
    Escape,
    CapsLock,
    LAlt,
    F1,
    F2,
    F3,
    F4,
    F5,
    F6,
    F7,
    F8,
    F9,
    F10,
    F11,
    F12,
    NumLockClea,
    Insert,
    Delete,
    PageDown,
    PageUp,
    Home,
    End,
    Backspace,
    Space,
    Tab,
    A,
    B,
    C,
    D,
    E,
    F,
    G,
    H,
    I,
    J,
    K,
    L,
    M,
    N,
    O,
    P,
    Q,
    R,
    S,
    T,
    U,
    V,
    W,
    X,
    Y,
    Z,
    Num0,
    Num1,
    Num2,
    Num3,
    Num4,
    Num5,
    Num6,
    Num7,
    Num8,
    Num9,
    Underscore,
    Minus,
    Plus,
    Equals,
    Less,
    Greater,
    Period,
    Comma,
    Colon,
    Semicolon,
    LeftBracket,
    RightBracke,
    LeftParen,
    RightParen,
    KpLeftBrace,
    KpRightBrace,
    Backquote,
    Quote,
    QuoteDouble,
    Slash,
    Backslash,
    Question,
    Exclaim,
    Ampersand,
    Percent,
    Dollar,
    Hash,
    At,
    Asterisk,
    Power,
}

/// The keys with a name (not a character) that the engine recognizes; every
/// other named key is `Other`.
#[derive(Clone, Copy, Debug, PartialEq, Eq, Structural)]
pub enum NamedKey {
    Enter,
    ArrowDown,
    ArrowRight,
    ArrowLeft,
    ArrowUp,
    Shift,
    Control,
    Escape,
    CapsLock,
    Alt,
    F1,
    F2,
    F3,
    F4,
    F5,
    F6,
    F7,
    F8,
    F9,
    F10,
    F11,
    F12,
    NumLock,
    Insert,
    Delete,
    PageDown,
    PageUp,
    Home,
    End,
    Backspace,
    Space,
    Tab,
    Other,
}

/// A key as the windowing platform reports it: a named key, the text of a
/// character key (its UTF-8 bytes), or something else.
#[derive(Clone, Debug)]
pub enum Key {
    Named(NamedKey),
    Character(Vec<u8>),
    Unidentified,
}

/// The key code of a named key.
pub open spec fn named_keycode(k: NamedKey) -> Keycode {
    match k {
        NamedKey::Enter => Keycode::Enter,
        NamedKey::ArrowDown => Keycode::Down,
        NamedKey::ArrowRight => Keycode::Right,
        NamedKey::ArrowLeft => Keycode::Left,
        NamedKey::ArrowUp => Keycode::Up,
        NamedKey::Shift => Keycode::LShift,
        NamedKey::Control => Keycode::LCtrl,
        NamedKey::Escape => Keycode::Escape,
        NamedKey::CapsLock => Keycode::CapsLock,
        NamedKey::Alt => Keycode::LAlt,
        NamedKey::F1 => Keycode::F1,
        NamedKey::F2 => Keycode::F2,
        NamedKey::F3 => Keycode::F3,
        NamedKey::F4 => Keycode::F4,
        NamedKey::F5 => Keycode::F5,
        NamedKey::F6 => Keycode::F6,
        NamedKey::F7 => Keycode::F7,
        NamedKey::F8 => Keycode::F8,
        NamedKey::F9 => Keycode::F9,
        NamedKey::F10 => Keycode::F10,
        NamedKey::F11 => Keycode::F11,
        NamedKey::F12 => Keycode::F12,
        NamedKey::NumLock => Keycode::NumLockClea,
        NamedKey::Insert => Keycode::Insert,
        NamedKey::Delete => Keycode::Delete,
        NamedKey::PageDown => Keycode::PageDown,
        NamedKey::PageUp => Keycode::PageUp,
        NamedKey::Home => Keycode::Home,
        NamedKey::End => Keycode::End,
        NamedKey::Backspace => Keycode::Backspace,
        NamedKey::Space => Keycode::Space,
        NamedKey::Tab => Keycode::Tab,
        NamedKey::Other => Keycode::Unknown,
    }
}

/// The named key whose code is `c`, if any.
spec fn named_key_with_code(c: Keycode) -> Option<NamedKey> {
    match c {
        Keycode::Enter => Some(NamedKey::Enter),
        Keycode::Down => Some(NamedKey::ArrowDown),
        Keycode::Right => Some(NamedKey::ArrowRight),
        Keycode::Left => Some(NamedKey::ArrowLeft),
        Keycode::Up => Some(NamedKey::ArrowUp),
        Keycode::LShift => Some(NamedKey::Shift),
        Keycode::LCtrl => Some(NamedKey::Control),
        Keycode::Escape => Some(NamedKey::Escape),
        Keycode::CapsLock => Some(NamedKey::CapsLock),
        Keycode::LAlt => Some(NamedKey::Alt),
        Keycode::F1 => Some(NamedKey::F1),
        Keycode::F2 => Some(NamedKey::F2),
        Keycode::F3 => Some(NamedKey::F3),
        Keycode::F4 => Some(NamedKey::F4),
        Keycode::F5 => Some(NamedKey::F5),
        Keycode::F6 => Some(NamedKey::F6),
        Keycode::F7 => Some(NamedKey::F7),
        Keycode::F8 => Some(NamedKey::F8),
        Keycode::F9 => Some(NamedKey::F9),
        Keycode::F10 => Some(NamedKey::F10),
        Keycode::F11 => Some(NamedKey::F11),
        Keycode::F12 => Some(NamedKey::F12),
        Keycode::NumLockClea => Some(NamedKey::NumLock),
        Keycode::Insert => Some(NamedKey::Insert),
        Keycode::Delete => Some(NamedKey::Delete),
        Keycode::PageDown => Some(NamedKey::PageDown),
        Keycode::PageUp => Some(NamedKey::PageUp),
        Keycode::Home => Some(NamedKey::Home),
        Keycode::End => Some(NamedKey::End),
        Keycode::Backspace => Some(NamedKey::Backspace),
        Keycode::Space => Some(NamedKey::Space),
        Keycode::Tab => Some(NamedKey::Tab),
        _ => None,
    }
}

/// Different named keys give different key codes, but for the keys the
/// engine does not know, which all give `Unknown`; each arrow key gives the
/// code of its own direction; a named key reported by the platform gets the
/// code of that key.
pub proof fn law_named_keys_keep_their_identity(a: NamedKey, b: NamedKey)
    ensures
        named_keycode(a) == named_keycode(b) && named_keycode(a) != Keycode::Unknown ==> a == b,
        named_keycode(a) == Keycode::Unknown <==> a == NamedKey::Other,
        named_keycode(NamedKey::ArrowUp) == Keycode::Up,
        named_keycode(NamedKey::ArrowDown) == Keycode::Down,
        named_keycode(NamedKey::ArrowLeft) == Keycode::Left,
        named_keycode(NamedKey::ArrowRight) == Keycode::Right,
        keycode_of(Key::Named(a)) == named_keycode(a),
{
    assert(named_keycode(a) != Keycode::Unknown ==> named_key_with_code(named_keycode(a)) == Some(a));
    assert(named_keycode(b) != Keycode::Unknown ==> named_key_with_code(named_keycode(b)) == Some(b));
}

/// The key code of a one-byte character.
pub open spec fn byte_keycode(b: u8) -> Keycode {
    if b == 97u8 {
        Keycode::A
    }     else if b == 98u8 {
        Keycode::B
    }     else if b == 99u8 {
        Keycode::C
    }     else if b == 100u8 {
        Keycode::D
    }     else if b == 101u8 {
        Keycode::E
    }     else if b == 102u8 {
        Keycode::F
    }     else if b == 103u8 {
        Keycode::G
    }     else if b == 104u8 {
        Keycode::H
    }     else if b == 105u8 {
        Keycode::I
    }     else if b == 106u8 {
        Keycode::J
    }     else if b == 107u8 {
        Keycode::K
    }     else if b == 108u8 {
        Keycode::L
    }     else if b == 109u8 {
        Keycode::M
    }     else if b == 110u8 {
        Keycode::N
    }     else if b == 111u8 {
        Keycode::O
    }     else if b == 112u8 {
        Keycode::P
    }     else if b == 113u8 {
        Keycode::Q
    }     else if b == 114u8 {
        Keycode::R
    }     else if b == 115u8 {
        Keycode::S
    }     else if b == 116u8 {
        Keycode::T
    }     else if b == 117u8 {
        Keycode::U
    }     else if b == 118u8 {
        Keycode::V
    }     else if b == 119u8 {
        Keycode::W
    }     else if b == 120u8 {
        Keycode::X
    }     else if b == 121u8 {
        Keycode::Y
    }     else if b == 122u8 {
        Keycode::Z
    }     else if b == 48u8 {
        Keycode::Num0
    }     else if b == 49u8 {
        Keycode::Num1
    }     else if b == 50u8 {
        Keycode::Num2
    }     else if b == 51u8 {
        Keycode::Num3
    }     else if b == 52u8 {
        Keycode::Num4
    }     else if b == 53u8 {
        Keycode::Num5
    }     else if b == 54u8 {
        Keycode::Num6
    }     else if b == 55u8 {
        Keycode::Num7
    }     else if b == 56u8 {
        Keycode::Num8
    }     else if b == 57u8 {
        Keycode::Num9
    }     else if b == 95u8 {
        Keycode::Underscore
    }     else if b == 45u8 {
        Keycode::Minus
    }     else if b == 43u8 {
        Keycode::Plus
    }     else if b == 61u8 {
        Keycode::Equals
    }     else if b == 60u8 {
        Keycode::Less
    }     else if b == 62u8 {
        Keycode::Greater
    }     else if b == 46u8 {
        Keycode::Period
    }     else if b == 44u8 {
        Keycode::Comma
    }     else if b == 58u8 {
        Keycode::Colon
    }     else if b == 59u8 {
        Keycode::Semicolon
    }     else if b == 91u8 {
        Keycode::LeftBracket
    }     else if b == 93u8 {
        Keycode::RightBracke
    }     else if b == 40u8 {
        Keycode::LeftParen
    }     else if b == 41u8 {
        Keycode::RightParen
    }     else if b == 123u8 {
        Keycode::KpLeftBrace
    }     else if b == 125u8 {
        Keycode::KpRightBrace
    }     else if b == 96u8 {
        Keycode::Backquote
    }     else if b == 39u8 {
        Keycode::Quote
    }     else if b == 34u8 {
        Keycode::QuoteDouble
    }     else if b == 47u8 {
        Keycode::Slash
    }     else if b == 92u8 {
        Keycode::Backslash
    }     else if b == 63u8 {
        Keycode::Question
    }     else if b == 33u8 {
        Keycode::Exclaim
    }     else if b == 38u8 {
        Keycode::Ampersand
    }     else if b == 37u8 {
        Keycode::Percent
    }     else if b == 36u8 {
        Keycode::Dollar
    }     else if b == 35u8 {
        Keycode::Hash
    }     else if b == 64u8 {
        Keycode::At
    }     else if b == 42u8 {
        Keycode::Asterisk
    }     else if b == 94u8 {
        Keycode::Power
    } else {
        Keycode::Unknown
    }
}

/// The key code of a character key given by its UTF-8 bytes: only texts of a
/// single byte have one.
pub open spec fn character_keycode(text: Seq<u8>) -> Keycode {
    if text.len() == 1 {
        byte_keycode(text[0])
    } else {
        Keycode::Unknown
    }
}

/// The key code of a key.
pub open spec fn keycode_of(key: Key) -> Keycode {
    match key {
        Key::Named(k) => named_keycode(k),
        Key::Character(text) => character_keycode(text@),
        Key::Unidentified => Keycode::Unknown,
    }
}

fn named_to_keycode(k: NamedKey) -> (r: Keycode)
    ensures
        r == named_keycode(k),
{
    match k {
        NamedKey::Enter => Keycode::Enter,
        NamedKey::ArrowDown => Keycode::Down,
        NamedKey::ArrowRight => Keycode::Right,
        NamedKey::ArrowLeft => Keycode::Left,
        NamedKey::ArrowUp => Keycode::Up,
        NamedKey::Shift => Keycode::LShift,
        NamedKey::Control => Keycode::LCtrl,
        NamedKey::Escape => Keycode::Escape,
        NamedKey::CapsLock => Keycode::CapsLock,
        NamedKey::Alt => Keycode::LAlt,
        NamedKey::F1 => Keycode::F1,
        NamedKey::F2 => Keycode::F2,
        NamedKey::F3 => Keycode::F3,
        NamedKey::F4 => Keycode::F4,
        NamedKey::F5 => Keycode::F5,
        NamedKey::F6 => Keycode::F6,
        NamedKey::F7 => Keycode::F7,
        NamedKey::F8 => Keycode::F8,
        NamedKey::F9 => Keycode::F9,
        NamedKey::F10 => Keycode::F10,
        NamedKey::F11 => Keycode::F11,
        NamedKey::F12 => Keycode::F12,
        NamedKey::NumLock => Keycode::NumLockClea,
        NamedKey::Insert => Keycode::Insert,
        NamedKey::Delete => Keycode::Delete,
        NamedKey::PageDown => Keycode::PageDown,
        NamedKey::PageUp => Keycode::PageUp,
        NamedKey::Home => Keycode::Home,
        NamedKey::End => Keycode::End,
        NamedKey::Backspace => Keycode::Backspace,
        NamedKey::Space => Keycode::Space,
        NamedKey::Tab => Keycode::Tab,
        NamedKey::Other => Keycode::Unknown,
    }
}

fn byte_to_keycode(b: u8) -> (r: Keycode)
    ensures
        r == byte_keycode(b),
{
    if b == 97u8 {
        Keycode::A
    }     else if b == 98u8 {
        Keycode::B
    }     else if b == 99u8 {
        Keycode::C
    }     else if b == 100u8 {
        Keycode::D
    }     else if b == 101u8 {
        Keycode::E
    }     else if b == 102u8 {
        Keycode::F
    }     else if b == 103u8 {
        Keycode::G
    }     else if b == 104u8 {
        Keycode::H
    }     else if b == 105u8 {
        Keycode::I
    }     else if b == 106u8 {
        Keycode::J
    }     else if b == 107u8 {
        Keycode::K
    }     else if b == 108u8 {
        Keycode::L
    }     else if b == 109u8 {
        Keycode::M
    }     else if b == 110u8 {
        Keycode::N
    }     else if b == 111u8 {
        Keycode::O
    }     else if b == 112u8 {
        Keycode::P
    }     else if b == 113u8 {
        Keycode::Q
    }     else if b == 114u8 {
        Keycode::R
    }     else if b == 115u8 {
        Keycode::S
    }     else if b == 116u8 {
        Keycode::T
    }     else if b == 117u8 {
        Keycode::U
    }     else if b == 118u8 {
        Keycode::V
    }     else if b == 119u8 {
        Keycode::W
    }     else if b == 120u8 {
        Keycode::X
    }     else if b == 121u8 {
        Keycode::Y
    }     else if b == 122u8 {
        Keycode::Z
    }     else if b == 48u8 {
        Keycode::Num0
    }     else if b == 49u8 {
        Keycode::Num1
    }     else if b == 50u8 {
        Keycode::Num2
    }     else if b == 51u8 {
        Keycode::Num3
    }     else if b == 52u8 {
        Keycode::Num4
    }     else if b == 53u8 {
        Keycode::Num5
    }     else if b == 54u8 {
        Keycode::Num6
    }     else if b == 55u8 {
        Keycode::Num7
    }     else if b == 56u8 {
        Keycode::Num8
    }     else if b == 57u8 {
        Keycode::Num9
    }     else if b == 95u8 {
        Keycode::Underscore
    }     else if b == 45u8 {
        Keycode::Minus
    }     else if b == 43u8 {
        Keycode::Plus
    }     else if b == 61u8 {
        Keycode::Equals
    }     else if b == 60u8 {
        Keycode::Less
    }     else if b == 62u8 {
        Keycode::Greater
    }     else if b == 46u8 {
        Keycode::Period
    }     else if b == 44u8 {
        Keycode::Comma
    }     else if b == 58u8 {
        Keycode::Colon
    }     else if b == 59u8 {
        Keycode::Semicolon
    }     else if b == 91u8 {
        Keycode::LeftBracket
    }     else if b == 93u8 {
        Keycode::RightBracke
    }     else if b == 40u8 {
        Keycode::LeftParen
    }     else if b == 41u8 {
        Keycode::RightParen
    }     else if b == 123u8 {
        Keycode::KpLeftBrace
    }     else if b == 125u8 {
        Keycode::KpRightBrace
    }     else if b == 96u8 {
        Keycode::Backquote
    }     else if b == 39u8 {
        Keycode::Quote
    }     else if b == 34u8 {
        Keycode::QuoteDouble
    }     else if b == 47u8 {
        Keycode::Slash
    }     else if b == 92u8 {
        Keycode::Backslash
    }     else if b == 63u8 {
        Keycode::Question
    }     else if b == 33u8 {
        Keycode::Exclaim
    }     else if b == 38u8 {
        Keycode::Ampersand
    }     else if b == 37u8 {
        Keycode::Percent
    }     else if b == 36u8 {
        Keycode::Dollar
    }     else if b == 35u8 {
        Keycode::Hash
    }     else if b == 64u8 {
        Keycode::At
    }     else if b == 42u8 {
        Keycode::Asterisk
    }     else if b == 94u8 {
        Keycode::Power
    } else {
        Keycode::Unknown
    }
}

impl Keycode {
    /// The key code of a key reported by the windowing platform: named keys
    /// by the table of `named_keycode`, characters of one byte by the table of
    /// `byte_keycode`, and `Unknown` for the others.
    pub fn from(key: &Key) -> (r: Keycode)
        ensures
            r == keycode_of(*key),
    {
        match key {
            Key::Named(k) => named_to_keycode(*k),
            Key::Character(text) => if text.len() == 1 {
                byte_to_keycode(text[0])
            } else {
                Keycode::Unknown
            },
            Key::Unidentified => Keycode::Unknown,
        }
    }
}

} // verus!
