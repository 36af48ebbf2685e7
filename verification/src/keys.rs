//! The keys of a keyboard, by position, and their names.
use vstd::prelude::*;

use crate::text;

verus! {

/// A physical key, named by its place on a US QWERTY keyboard. Keys that no
/// config file can name are told apart by a number.
#[derive(Clone, Copy, PartialEq, Eq, Hash, Debug, Structural)]
pub enum KeyCode {
    KeyA,
    KeyB,
    KeyC,
    KeyD,
    KeyE,
    KeyF,
    KeyG,
    KeyH,
    KeyI,
    KeyJ,
    KeyK,
    KeyL,
    KeyM,
    KeyN,
    KeyO,
    KeyP,
    KeyQ,
    KeyR,
    KeyS,
    KeyT,
    KeyU,
    KeyV,
    KeyW,
    KeyX,
    KeyY,
    KeyZ,
    Digit0,
    Digit1,
    Digit2,
    Digit3,
    Digit4,
    Digit5,
    Digit6,
    Digit7,
    Digit8,
    Digit9,
    F1,
    F2,
    F3,
    F4,
    F5,
    F6,
    F7,
    F8,
    F9,
    F10,
    F11,
    F12,
    Space,
    Tab,
    Backspace,
    CapsLock,
    ShiftLeft,
    ShiftRight,
    ControlLeft,
    ControlRight,
    AltLeft,
    AltRight,
    ArrowLeft,
    ArrowRight,
    Insert,
    Delete,
    Home,
    End,
    PageUp,
    PageDown,
    BracketLeft,
    BracketRight,
    Semicolon,
    Quote,
    Comma,
    Period,
    Slash,
    Backslash,
    Minus,
    Equal,
    Backquote,
    Numpad0,
    Numpad1,
    Numpad2,
    Numpad3,
    Numpad4,
    Numpad5,
    Numpad6,
    Numpad7,
    Numpad8,
    Numpad9,
    Escape,
    ArrowUp,
    ArrowDown,
    Enter,
    Other(u32),
}

/// How many keys have names.
pub const NAMED_KEYS: usize = 91;

impl KeyCode {
    /// Whether a config file can name the key.
    pub open spec fn named(self) -> bool {
        !(self is Other)
    }

    /// The name of a key that has one.
    pub open spec fn name_text(self) -> Seq<char> {
        match self {
            KeyCode::KeyA => "A"@,
            KeyCode::KeyB => "B"@,
            KeyCode::KeyC => "C"@,
            KeyCode::KeyD => "D"@,
            KeyCode::KeyE => "E"@,
            KeyCode::KeyF => "F"@,
            KeyCode::KeyG => "G"@,
            KeyCode::KeyH => "H"@,
            KeyCode::KeyI => "I"@,
            KeyCode::KeyJ => "J"@,
            KeyCode::KeyK => "K"@,
            KeyCode::KeyL => "L"@,
            KeyCode::KeyM => "M"@,
            KeyCode::KeyN => "N"@,
            KeyCode::KeyO => "O"@,
            KeyCode::KeyP => "P"@,
            KeyCode::KeyQ => "Q"@,
            KeyCode::KeyR => "R"@,
            KeyCode::KeyS => "S"@,
            KeyCode::KeyT => "T"@,
            KeyCode::KeyU => "U"@,
            KeyCode::KeyV => "V"@,
            KeyCode::KeyW => "W"@,
            KeyCode::KeyX => "X"@,
            KeyCode::KeyY => "Y"@,
            KeyCode::KeyZ => "Z"@,
            KeyCode::Digit0 => "0"@,
            KeyCode::Digit1 => "1"@,
            KeyCode::Digit2 => "2"@,
            KeyCode::Digit3 => "3"@,
            KeyCode::Digit4 => "4"@,
            KeyCode::Digit5 => "5"@,
            KeyCode::Digit6 => "6"@,
            KeyCode::Digit7 => "7"@,
            KeyCode::Digit8 => "8"@,
            KeyCode::Digit9 => "9"@,
            KeyCode::F1 => "F1"@,
            KeyCode::F2 => "F2"@,
            KeyCode::F3 => "F3"@,
            KeyCode::F4 => "F4"@,
            KeyCode::F5 => "F5"@,
            KeyCode::F6 => "F6"@,
            KeyCode::F7 => "F7"@,
            KeyCode::F8 => "F8"@,
            KeyCode::F9 => "F9"@,
            KeyCode::F10 => "F10"@,
            KeyCode::F11 => "F11"@,
            KeyCode::F12 => "F12"@,
            KeyCode::Space => "Space"@,
            KeyCode::Tab => "Tab"@,
            KeyCode::Backspace => "Backspace"@,
            KeyCode::CapsLock => "CapsLock"@,
            KeyCode::ShiftLeft => "LeftShift"@,
            KeyCode::ShiftRight => "RightShift"@,
            KeyCode::ControlLeft => "LeftCtrl"@,
            KeyCode::ControlRight => "RightCtrl"@,
            KeyCode::AltLeft => "LeftAlt"@,
            KeyCode::AltRight => "RightAlt"@,
            KeyCode::ArrowLeft => "Left"@,
            KeyCode::ArrowRight => "Right"@,
            KeyCode::Insert => "Insert"@,
            KeyCode::Delete => "Delete"@,
            KeyCode::Home => "Home"@,
            KeyCode::End => "End"@,
            KeyCode::PageUp => "PageUp"@,
            KeyCode::PageDown => "PageDown"@,
            KeyCode::BracketLeft => "LeftBracket"@,
            KeyCode::BracketRight => "RightBracket"@,
            KeyCode::Semicolon => "Semicolon"@,
            KeyCode::Quote => "Quote"@,
            KeyCode::Comma => "Comma"@,
            KeyCode::Period => "Period"@,
            KeyCode::Slash => "Slash"@,
            KeyCode::Backslash => "Backslash"@,
            KeyCode::Minus => "Minus"@,
            KeyCode::Equal => "Equal"@,
            KeyCode::Backquote => "Backquote"@,
            KeyCode::Numpad0 => "Numpad0"@,
            KeyCode::Numpad1 => "Numpad1"@,
            KeyCode::Numpad2 => "Numpad2"@,
            KeyCode::Numpad3 => "Numpad3"@,
            KeyCode::Numpad4 => "Numpad4"@,
            KeyCode::Numpad5 => "Numpad5"@,
            KeyCode::Numpad6 => "Numpad6"@,
            KeyCode::Numpad7 => "Numpad7"@,
            KeyCode::Numpad8 => "Numpad8"@,
            KeyCode::Numpad9 => "Numpad9"@,
            KeyCode::Escape => "Escape"@,
            KeyCode::ArrowUp => "Up"@,
            KeyCode::ArrowDown => "Down"@,
            KeyCode::Enter => "Enter"@,
            KeyCode::Other(_) => "?"@,
        }
    }

    /// The place of a named key among all of them.
    pub open spec fn place(self) -> int {
        match self {
            KeyCode::KeyA => 0,
            KeyCode::KeyB => 1,
            KeyCode::KeyC => 2,
            KeyCode::KeyD => 3,
            KeyCode::KeyE => 4,
            KeyCode::KeyF => 5,
            KeyCode::KeyG => 6,
            KeyCode::KeyH => 7,
            KeyCode::KeyI => 8,
            KeyCode::KeyJ => 9,
            KeyCode::KeyK => 10,
            KeyCode::KeyL => 11,
            KeyCode::KeyM => 12,
            KeyCode::KeyN => 13,
            KeyCode::KeyO => 14,
            KeyCode::KeyP => 15,
            KeyCode::KeyQ => 16,
            KeyCode::KeyR => 17,
            KeyCode::KeyS => 18,
            KeyCode::KeyT => 19,
            KeyCode::KeyU => 20,
            KeyCode::KeyV => 21,
            KeyCode::KeyW => 22,
            KeyCode::KeyX => 23,
            KeyCode::KeyY => 24,
            KeyCode::KeyZ => 25,
            KeyCode::Digit0 => 26,
            KeyCode::Digit1 => 27,
            KeyCode::Digit2 => 28,
            KeyCode::Digit3 => 29,
            KeyCode::Digit4 => 30,
            KeyCode::Digit5 => 31,
            KeyCode::Digit6 => 32,
            KeyCode::Digit7 => 33,
            KeyCode::Digit8 => 34,
            KeyCode::Digit9 => 35,
            KeyCode::F1 => 36,
            KeyCode::F2 => 37,
            KeyCode::F3 => 38,
            KeyCode::F4 => 39,
            KeyCode::F5 => 40,
            KeyCode::F6 => 41,
            KeyCode::F7 => 42,
            KeyCode::F8 => 43,
            KeyCode::F9 => 44,
            KeyCode::F10 => 45,
            KeyCode::F11 => 46,
            KeyCode::F12 => 47,
            KeyCode::Space => 48,
            KeyCode::Tab => 49,
            KeyCode::Backspace => 50,
            KeyCode::CapsLock => 51,
            KeyCode::ShiftLeft => 52,
            KeyCode::ShiftRight => 53,
            KeyCode::ControlLeft => 54,
            KeyCode::ControlRight => 55,
            KeyCode::AltLeft => 56,
            KeyCode::AltRight => 57,
            KeyCode::ArrowLeft => 58,
            KeyCode::ArrowRight => 59,
            KeyCode::Insert => 60,
            KeyCode::Delete => 61,
            KeyCode::Home => 62,
            KeyCode::End => 63,
            KeyCode::PageUp => 64,
            KeyCode::PageDown => 65,
            KeyCode::BracketLeft => 66,
            KeyCode::BracketRight => 67,
            KeyCode::Semicolon => 68,
            KeyCode::Quote => 69,
            KeyCode::Comma => 70,
            KeyCode::Period => 71,
            KeyCode::Slash => 72,
            KeyCode::Backslash => 73,
            KeyCode::Minus => 74,
            KeyCode::Equal => 75,
            KeyCode::Backquote => 76,
            KeyCode::Numpad0 => 77,
            KeyCode::Numpad1 => 78,
            KeyCode::Numpad2 => 79,
            KeyCode::Numpad3 => 80,
            KeyCode::Numpad4 => 81,
            KeyCode::Numpad5 => 82,
            KeyCode::Numpad6 => 83,
            KeyCode::Numpad7 => 84,
            KeyCode::Numpad8 => 85,
            KeyCode::Numpad9 => 86,
            KeyCode::Escape => 87,
            KeyCode::ArrowUp => 88,
            KeyCode::ArrowDown => 89,
            KeyCode::Enter => 90,
            KeyCode::Other(_) => -1,
        }
    }

    /// The keys that belong to the menu and cannot be bound.
    pub open spec fn reserved(self) -> bool {
        self == KeyCode::Escape || self == KeyCode::ArrowUp || self == KeyCode::ArrowDown || self
            == KeyCode::Enter
    }

    pub fn is_reserved(self) -> (r: bool)
        ensures
            r == self.reserved(),
    {
        self == KeyCode::Escape || self == KeyCode::ArrowUp || self == KeyCode::ArrowDown || self
            == KeyCode::Enter
    }
}

/// The named key at a place.
pub open spec fn key_no(i: int) -> KeyCode {
    if i == 0 {
        KeyCode::KeyA
    } else if i == 1 {
        KeyCode::KeyB
    } else if i == 2 {
        KeyCode::KeyC
    } else if i == 3 {
        KeyCode::KeyD
    } else if i == 4 {
        KeyCode::KeyE
    } else if i == 5 {
        KeyCode::KeyF
    } else if i == 6 {
        KeyCode::KeyG
    } else if i == 7 {
        KeyCode::KeyH
    } else if i == 8 {
        KeyCode::KeyI
    } else if i == 9 {
        KeyCode::KeyJ
    } else if i == 10 {
        KeyCode::KeyK
    } else if i == 11 {
        KeyCode::KeyL
    } else if i == 12 {
        KeyCode::KeyM
    } else if i == 13 {
        KeyCode::KeyN
    } else if i == 14 {
        KeyCode::KeyO
    } else if i == 15 {
        KeyCode::KeyP
    } else if i == 16 {
        KeyCode::KeyQ
    } else if i == 17 {
        KeyCode::KeyR
    } else if i == 18 {
        KeyCode::KeyS
    } else if i == 19 {
        KeyCode::KeyT
    } else if i == 20 {
        KeyCode::KeyU
    } else if i == 21 {
        KeyCode::KeyV
    } else if i == 22 {
        KeyCode::KeyW
    } else if i == 23 {
        KeyCode::KeyX
    } else if i == 24 {
        KeyCode::KeyY
    } else if i == 25 {
        KeyCode::KeyZ
    } else if i == 26 {
        KeyCode::Digit0
    } else if i == 27 {
        KeyCode::Digit1
    } else if i == 28 {
        KeyCode::Digit2
    } else if i == 29 {
        KeyCode::Digit3
    } else if i == 30 {
        KeyCode::Digit4
    } else if i == 31 {
        KeyCode::Digit5
    } else if i == 32 {
        KeyCode::Digit6
    } else if i == 33 {
        KeyCode::Digit7
    } else if i == 34 {
        KeyCode::Digit8
    } else if i == 35 {
        KeyCode::Digit9
    } else if i == 36 {
        KeyCode::F1
    } else if i == 37 {
        KeyCode::F2
    } else if i == 38 {
        KeyCode::F3
    } else if i == 39 {
        KeyCode::F4
    } else if i == 40 {
        KeyCode::F5
    } else if i == 41 {
        KeyCode::F6
    } else if i == 42 {
        KeyCode::F7
    } else if i == 43 {
        KeyCode::F8
    } else if i == 44 {
        KeyCode::F9
    } else if i == 45 {
        KeyCode::F10
    } else if i == 46 {
        KeyCode::F11
    } else if i == 47 {
        KeyCode::F12
    } else if i == 48 {
        KeyCode::Space
    } else if i == 49 {
        KeyCode::Tab
    } else if i == 50 {
        KeyCode::Backspace
    } else if i == 51 {
        KeyCode::CapsLock
    } else if i == 52 {
        KeyCode::ShiftLeft
    } else if i == 53 {
        KeyCode::ShiftRight
    } else if i == 54 {
        KeyCode::ControlLeft
    } else if i == 55 {
        KeyCode::ControlRight
    } else if i == 56 {
        KeyCode::AltLeft
    } else if i == 57 {
        KeyCode::AltRight
    } else if i == 58 {
        KeyCode::ArrowLeft
    } else if i == 59 {
        KeyCode::ArrowRight
    } else if i == 60 {
        KeyCode::Insert
    } else if i == 61 {
        KeyCode::Delete
    } else if i == 62 {
        KeyCode::Home
    } else if i == 63 {
        KeyCode::End
    } else if i == 64 {
        KeyCode::PageUp
    } else if i == 65 {
        KeyCode::PageDown
    } else if i == 66 {
        KeyCode::BracketLeft
    } else if i == 67 {
        KeyCode::BracketRight
    } else if i == 68 {
        KeyCode::Semicolon
    } else if i == 69 {
        KeyCode::Quote
    } else if i == 70 {
        KeyCode::Comma
    } else if i == 71 {
        KeyCode::Period
    } else if i == 72 {
        KeyCode::Slash
    } else if i == 73 {
        KeyCode::Backslash
    } else if i == 74 {
        KeyCode::Minus
    } else if i == 75 {
        KeyCode::Equal
    } else if i == 76 {
        KeyCode::Backquote
    } else if i == 77 {
        KeyCode::Numpad0
    } else if i == 78 {
        KeyCode::Numpad1
    } else if i == 79 {
        KeyCode::Numpad2
    } else if i == 80 {
        KeyCode::Numpad3
    } else if i == 81 {
        KeyCode::Numpad4
    } else if i == 82 {
        KeyCode::Numpad5
    } else if i == 83 {
        KeyCode::Numpad6
    } else if i == 84 {
        KeyCode::Numpad7
    } else if i == 85 {
        KeyCode::Numpad8
    } else if i == 86 {
        KeyCode::Numpad9
    } else if i == 87 {
        KeyCode::Escape
    } else if i == 88 {
        KeyCode::ArrowUp
    } else if i == 89 {
        KeyCode::ArrowDown
    } else if i == 90 {
        KeyCode::Enter
    } else {
        KeyCode::Other(0)
    }
}

/// The named key at a place.
pub fn key_at(i: usize) -> (k: KeyCode)
    requires
        i < NAMED_KEYS,
    ensures
        k == key_no(i as int),
        k.named(),
        k.place() == i,
{
    match i {
        0 => KeyCode::KeyA,
        1 => KeyCode::KeyB,
        2 => KeyCode::KeyC,
        3 => KeyCode::KeyD,
        4 => KeyCode::KeyE,
        5 => KeyCode::KeyF,
        6 => KeyCode::KeyG,
        7 => KeyCode::KeyH,
        8 => KeyCode::KeyI,
        9 => KeyCode::KeyJ,
        10 => KeyCode::KeyK,
        11 => KeyCode::KeyL,
        12 => KeyCode::KeyM,
        13 => KeyCode::KeyN,
        14 => KeyCode::KeyO,
        15 => KeyCode::KeyP,
        16 => KeyCode::KeyQ,
        17 => KeyCode::KeyR,
        18 => KeyCode::KeyS,
        19 => KeyCode::KeyT,
        20 => KeyCode::KeyU,
        21 => KeyCode::KeyV,
        22 => KeyCode::KeyW,
        23 => KeyCode::KeyX,
        24 => KeyCode::KeyY,
        25 => KeyCode::KeyZ,
        26 => KeyCode::Digit0,
        27 => KeyCode::Digit1,
        28 => KeyCode::Digit2,
        29 => KeyCode::Digit3,
        30 => KeyCode::Digit4,
        31 => KeyCode::Digit5,
        32 => KeyCode::Digit6,
        33 => KeyCode::Digit7,
        34 => KeyCode::Digit8,
        35 => KeyCode::Digit9,
        36 => KeyCode::F1,
        37 => KeyCode::F2,
        38 => KeyCode::F3,
        39 => KeyCode::F4,
        40 => KeyCode::F5,
        41 => KeyCode::F6,
        42 => KeyCode::F7,
        43 => KeyCode::F8,
        44 => KeyCode::F9,
        45 => KeyCode::F10,
        46 => KeyCode::F11,
        47 => KeyCode::F12,
        48 => KeyCode::Space,
        49 => KeyCode::Tab,
        50 => KeyCode::Backspace,
        51 => KeyCode::CapsLock,
        52 => KeyCode::ShiftLeft,
        53 => KeyCode::ShiftRight,
        54 => KeyCode::ControlLeft,
        55 => KeyCode::ControlRight,
        56 => KeyCode::AltLeft,
        57 => KeyCode::AltRight,
        58 => KeyCode::ArrowLeft,
        59 => KeyCode::ArrowRight,
        60 => KeyCode::Insert,
        61 => KeyCode::Delete,
        62 => KeyCode::Home,
        63 => KeyCode::End,
        64 => KeyCode::PageUp,
        65 => KeyCode::PageDown,
        66 => KeyCode::BracketLeft,
        67 => KeyCode::BracketRight,
        68 => KeyCode::Semicolon,
        69 => KeyCode::Quote,
        70 => KeyCode::Comma,
        71 => KeyCode::Period,
        72 => KeyCode::Slash,
        73 => KeyCode::Backslash,
        74 => KeyCode::Minus,
        75 => KeyCode::Equal,
        76 => KeyCode::Backquote,
        77 => KeyCode::Numpad0,
        78 => KeyCode::Numpad1,
        79 => KeyCode::Numpad2,
        80 => KeyCode::Numpad3,
        81 => KeyCode::Numpad4,
        82 => KeyCode::Numpad5,
        83 => KeyCode::Numpad6,
        84 => KeyCode::Numpad7,
        85 => KeyCode::Numpad8,
        86 => KeyCode::Numpad9,
        87 => KeyCode::Escape,
        88 => KeyCode::ArrowUp,
        89 => KeyCode::ArrowDown,
        _ => KeyCode::Enter,
    }
}

proof fn lemma_place(k: KeyCode)
    requires
        k.named(),
    ensures
        0 <= k.place() < NAMED_KEYS,
        key_no(k.place()) == k,
{
}

/// The name of a key, or `?`.
pub fn key_name(code: KeyCode) -> (r: &'static str)
    ensures
        r@ == code.name_text(),
{
    match code {
        KeyCode::KeyA => "A",
        KeyCode::KeyB => "B",
        KeyCode::KeyC => "C",
        KeyCode::KeyD => "D",
        KeyCode::KeyE => "E",
        KeyCode::KeyF => "F",
        KeyCode::KeyG => "G",
        KeyCode::KeyH => "H",
        KeyCode::KeyI => "I",
        KeyCode::KeyJ => "J",
        KeyCode::KeyK => "K",
        KeyCode::KeyL => "L",
        KeyCode::KeyM => "M",
        KeyCode::KeyN => "N",
        KeyCode::KeyO => "O",
        KeyCode::KeyP => "P",
        KeyCode::KeyQ => "Q",
        KeyCode::KeyR => "R",
        KeyCode::KeyS => "S",
        KeyCode::KeyT => "T",
        KeyCode::KeyU => "U",
        KeyCode::KeyV => "V",
        KeyCode::KeyW => "W",
        KeyCode::KeyX => "X",
        KeyCode::KeyY => "Y",
        KeyCode::KeyZ => "Z",
        KeyCode::Digit0 => "0",
        KeyCode::Digit1 => "1",
        KeyCode::Digit2 => "2",
        KeyCode::Digit3 => "3",
        KeyCode::Digit4 => "4",
        KeyCode::Digit5 => "5",
        KeyCode::Digit6 => "6",
        KeyCode::Digit7 => "7",
        KeyCode::Digit8 => "8",
        KeyCode::Digit9 => "9",
        KeyCode::F1 => "F1",
        KeyCode::F2 => "F2",
        KeyCode::F3 => "F3",
        KeyCode::F4 => "F4",
        KeyCode::F5 => "F5",
        KeyCode::F6 => "F6",
        KeyCode::F7 => "F7",
        KeyCode::F8 => "F8",
        KeyCode::F9 => "F9",
        KeyCode::F10 => "F10",
        KeyCode::F11 => "F11",
        KeyCode::F12 => "F12",
        KeyCode::Space => "Space",
        KeyCode::Tab => "Tab",
        KeyCode::Backspace => "Backspace",
        KeyCode::CapsLock => "CapsLock",
        KeyCode::ShiftLeft => "LeftShift",
        KeyCode::ShiftRight => "RightShift",
        KeyCode::ControlLeft => "LeftCtrl",
        KeyCode::ControlRight => "RightCtrl",
        KeyCode::AltLeft => "LeftAlt",
        KeyCode::AltRight => "RightAlt",
        KeyCode::ArrowLeft => "Left",
        KeyCode::ArrowRight => "Right",
        KeyCode::Insert => "Insert",
        KeyCode::Delete => "Delete",
        KeyCode::Home => "Home",
        KeyCode::End => "End",
        KeyCode::PageUp => "PageUp",
        KeyCode::PageDown => "PageDown",
        KeyCode::BracketLeft => "LeftBracket",
        KeyCode::BracketRight => "RightBracket",
        KeyCode::Semicolon => "Semicolon",
        KeyCode::Quote => "Quote",
        KeyCode::Comma => "Comma",
        KeyCode::Period => "Period",
        KeyCode::Slash => "Slash",
        KeyCode::Backslash => "Backslash",
        KeyCode::Minus => "Minus",
        KeyCode::Equal => "Equal",
        KeyCode::Backquote => "Backquote",
        KeyCode::Numpad0 => "Numpad0",
        KeyCode::Numpad1 => "Numpad1",
        KeyCode::Numpad2 => "Numpad2",
        KeyCode::Numpad3 => "Numpad3",
        KeyCode::Numpad4 => "Numpad4",
        KeyCode::Numpad5 => "Numpad5",
        KeyCode::Numpad6 => "Numpad6",
        KeyCode::Numpad7 => "Numpad7",
        KeyCode::Numpad8 => "Numpad8",
        KeyCode::Numpad9 => "Numpad9",
        KeyCode::Escape => "Escape",
        KeyCode::ArrowUp => "Up",
        KeyCode::ArrowDown => "Down",
        KeyCode::Enter => "Enter",
        KeyCode::Other(_) => "?",
    }
}

/// An ASCII capital as a small letter; any other character as it is.
pub open spec fn lower(c: char) -> char {
    if 'A' <= c <= 'Z' {
        (c as u32 + 32) as char
    } else {
        c
    }
}

/// Two names that differ at most in the case of ASCII letters.
pub open spec fn same_name(a: Seq<char>, b: Seq<char>) -> bool {
    a.len() == b.len() && forall|i: int| 0 <= i < a.len() ==> lower(#[trigger] a[i]) == lower(b[i])
}

fn to_lower(c: char) -> (r: char)
    ensures
        r == lower(c),
{
    if 'A' <= c && c <= 'Z' {
        ((c as u8) + 32) as char
    } else {
        c
    }
}

fn names_match(a: &Vec<char>, name: &str) -> (r: bool)
    ensures
        r == same_name(name@, a@),
{
    let b: Vec<char> = text::chars_of(name);
    if a.len() != b.len() {
        return false;
    }
    let mut i: usize = 0;
    while i < a.len()
        invariant
            i <= a.len(),
            a@.len() == b@.len(),
            b@ == name@,
            forall|j: int| 0 <= j < i ==> lower(#[trigger] b@[j]) == lower(a@[j]),
        decreases a.len() - i,
    {
        if to_lower(a[i]) != to_lower(b[i]) {
            assert(lower(name@[i as int]) != lower(a@[i as int]));
            return false;
        }
        i += 1;
    }
    true
}

/// A number that depends on a name but not on its case: its length, its ends
/// and its middle.
spec fn trace(s: Seq<char>) -> int {
    ((s.len() * 256 + lower(s[0]) as int) * 256 + lower(s.last()) as int) * 256 + lower(
        s[s.len() as int / 2],
    ) as int
}

proof fn lemma_same_trace(a: Seq<char>, b: Seq<char>)
    requires
        same_name(a, b),
        a.len() > 0,
    ensures
        trace(a) == trace(b),
{
    assert(lower(a[0]) == lower(b[0]));
    assert(lower(a[a.len() - 1]) == lower(b[b.len() - 1]));
    assert(lower(a[a.len() as int / 2]) == lower(b[b.len() as int / 2]));
}

/// What the trace of a key's name is.
spec fn trace_of(k: KeyCode) -> int {
    match k {
        KeyCode::KeyA => 23159137,
        KeyCode::KeyB => 23224930,
        KeyCode::KeyC => 23290723,
        KeyCode::KeyD => 23356516,
        KeyCode::KeyE => 23422309,
        KeyCode::KeyF => 23488102,
        KeyCode::KeyG => 23553895,
        KeyCode::KeyH => 23619688,
        KeyCode::KeyI => 23685481,
        KeyCode::KeyJ => 23751274,
        KeyCode::KeyK => 23817067,
        KeyCode::KeyL => 23882860,
        KeyCode::KeyM => 23948653,
        KeyCode::KeyN => 24014446,
        KeyCode::KeyO => 24080239,
        KeyCode::KeyP => 24146032,
        KeyCode::KeyQ => 24211825,
        KeyCode::KeyR => 24277618,
        KeyCode::KeyS => 24343411,
        KeyCode::KeyT => 24409204,
        KeyCode::KeyU => 24474997,
        KeyCode::KeyV => 24540790,
        KeyCode::KeyW => 24606583,
        KeyCode::KeyX => 24672376,
        KeyCode::KeyY => 24738169,
        KeyCode::KeyZ => 24803962,
        KeyCode::Digit0 => 19935280,
        KeyCode::Digit1 => 20001073,
        KeyCode::Digit2 => 20066866,
        KeyCode::Digit3 => 20132659,
        KeyCode::Digit4 => 20198452,
        KeyCode::Digit5 => 20264245,
        KeyCode::Digit6 => 20330038,
        KeyCode::Digit7 => 20395831,
        KeyCode::Digit8 => 20461624,
        KeyCode::Digit9 => 20527417,
        KeyCode::F1 => 40251697,
        KeyCode::F2 => 40251954,
        KeyCode::F3 => 40252211,
        KeyCode::F4 => 40252468,
        KeyCode::F5 => 40252725,
        KeyCode::F6 => 40252982,
        KeyCode::F7 => 40253239,
        KeyCode::F8 => 40253496,
        KeyCode::F9 => 40253753,
        KeyCode::F10 => 57028657,
        KeyCode::F11 => 57028913,
        KeyCode::F12 => 57029169,
        KeyCode::Space => 91448673,
        KeyCode::Tab => 57959009,
        KeyCode::Backspace => 157443443,
        KeyCode::CapsLock => 140733292,
        KeyCode::ShiftLeft => 158102643,
        KeyCode::ShiftRight => 175273075,
        KeyCode::ControlLeft => 141323363,
        KeyCode::ControlRight => 158493812,
        KeyCode::AltLeft => 124548212,
        KeyCode::AltRight => 141718644,
        KeyCode::ArrowLeft => 74216550,
        KeyCode::ArrowRight => 91386983,
        KeyCode::Insert => 107574373,
        KeyCode::Delete => 107242853,
        KeyCode::Home => 73950573,
        KeyCode::End => 56976494,
        KeyCode::PageUp => 108032101,
        KeyCode::PageDown => 141586020,
        KeyCode::BracketLeft => 191657074,
        KeyCode::BracketRight => 208827506,
        KeyCode::Semicolon => 158559843,
        KeyCode::Quote => 91317615,
        KeyCode::Comma => 90399085,
        KeyCode::Period => 108029033,
        KeyCode::Slash => 91449441,
        KeyCode::Backslash => 157444211,
        KeyCode::Minus => 91059054,
        KeyCode::Equal => 90532981,
        KeyCode::Backquote => 157443441,
        KeyCode::Numpad0 => 124661872,
        KeyCode::Numpad1 => 124662128,
        KeyCode::Numpad2 => 124662384,
        KeyCode::Numpad3 => 124662640,
        KeyCode::Numpad4 => 124662896,
        KeyCode::Numpad5 => 124663152,
        KeyCode::Numpad6 => 124663408,
        KeyCode::Numpad7 => 124663664,
        KeyCode::Numpad8 => 124663920,
        KeyCode::Numpad9 => 124664176,
        KeyCode::Escape => 107308385,
        KeyCode::ArrowUp => 41250928,
        KeyCode::ArrowDown => 73690743,
        KeyCode::Enter => 90534516,
        KeyCode::Other(_) => 0,
    }
}

/// The key whose name has a trace.
spec fn traced(n: int) -> KeyCode {
    if n == 23159137 {
        KeyCode::KeyA
    } else if n == 23224930 {
        KeyCode::KeyB
    } else if n == 23290723 {
        KeyCode::KeyC
    } else if n == 23356516 {
        KeyCode::KeyD
    } else if n == 23422309 {
        KeyCode::KeyE
    } else if n == 23488102 {
        KeyCode::KeyF
    } else if n == 23553895 {
        KeyCode::KeyG
    } else if n == 23619688 {
        KeyCode::KeyH
    } else if n == 23685481 {
        KeyCode::KeyI
    } else if n == 23751274 {
        KeyCode::KeyJ
    } else if n == 23817067 {
        KeyCode::KeyK
    } else if n == 23882860 {
        KeyCode::KeyL
    } else if n == 23948653 {
        KeyCode::KeyM
    } else if n == 24014446 {
        KeyCode::KeyN
    } else if n == 24080239 {
        KeyCode::KeyO
    } else if n == 24146032 {
        KeyCode::KeyP
    } else if n == 24211825 {
        KeyCode::KeyQ
    } else if n == 24277618 {
        KeyCode::KeyR
    } else if n == 24343411 {
        KeyCode::KeyS
    } else if n == 24409204 {
        KeyCode::KeyT
    } else if n == 24474997 {
        KeyCode::KeyU
    } else if n == 24540790 {
        KeyCode::KeyV
    } else if n == 24606583 {
        KeyCode::KeyW
    } else if n == 24672376 {
        KeyCode::KeyX
    } else if n == 24738169 {
        KeyCode::KeyY
    } else if n == 24803962 {
        KeyCode::KeyZ
    } else if n == 19935280 {
        KeyCode::Digit0
    } else if n == 20001073 {
        KeyCode::Digit1
    } else if n == 20066866 {
        KeyCode::Digit2
    } else if n == 20132659 {
        KeyCode::Digit3
    } else if n == 20198452 {
        KeyCode::Digit4
    } else if n == 20264245 {
        KeyCode::Digit5
    } else if n == 20330038 {
        KeyCode::Digit6
    } else if n == 20395831 {
        KeyCode::Digit7
    } else if n == 20461624 {
        KeyCode::Digit8
    } else if n == 20527417 {
        KeyCode::Digit9
    } else if n == 40251697 {
        KeyCode::F1
    } else if n == 40251954 {
        KeyCode::F2
    } else if n == 40252211 {
        KeyCode::F3
    } else if n == 40252468 {
        KeyCode::F4
    } else if n == 40252725 {
        KeyCode::F5
    } else if n == 40252982 {
        KeyCode::F6
    } else if n == 40253239 {
        KeyCode::F7
    } else if n == 40253496 {
        KeyCode::F8
    } else if n == 40253753 {
        KeyCode::F9
    } else if n == 57028657 {
        KeyCode::F10
    } else if n == 57028913 {
        KeyCode::F11
    } else if n == 57029169 {
        KeyCode::F12
    } else if n == 91448673 {
        KeyCode::Space
    } else if n == 57959009 {
        KeyCode::Tab
    } else if n == 157443443 {
        KeyCode::Backspace
    } else if n == 140733292 {
        KeyCode::CapsLock
    } else if n == 158102643 {
        KeyCode::ShiftLeft
    } else if n == 175273075 {
        KeyCode::ShiftRight
    } else if n == 141323363 {
        KeyCode::ControlLeft
    } else if n == 158493812 {
        KeyCode::ControlRight
    } else if n == 124548212 {
        KeyCode::AltLeft
    } else if n == 141718644 {
        KeyCode::AltRight
    } else if n == 74216550 {
        KeyCode::ArrowLeft
    } else if n == 91386983 {
        KeyCode::ArrowRight
    } else if n == 107574373 {
        KeyCode::Insert
    } else if n == 107242853 {
        KeyCode::Delete
    } else if n == 73950573 {
        KeyCode::Home
    } else if n == 56976494 {
        KeyCode::End
    } else if n == 108032101 {
        KeyCode::PageUp
    } else if n == 141586020 {
        KeyCode::PageDown
    } else if n == 191657074 {
        KeyCode::BracketLeft
    } else if n == 208827506 {
        KeyCode::BracketRight
    } else if n == 158559843 {
        KeyCode::Semicolon
    } else if n == 91317615 {
        KeyCode::Quote
    } else if n == 90399085 {
        KeyCode::Comma
    } else if n == 108029033 {
        KeyCode::Period
    } else if n == 91449441 {
        KeyCode::Slash
    } else if n == 157444211 {
        KeyCode::Backslash
    } else if n == 91059054 {
        KeyCode::Minus
    } else if n == 90532981 {
        KeyCode::Equal
    } else if n == 157443441 {
        KeyCode::Backquote
    } else if n == 124661872 {
        KeyCode::Numpad0
    } else if n == 124662128 {
        KeyCode::Numpad1
    } else if n == 124662384 {
        KeyCode::Numpad2
    } else if n == 124662640 {
        KeyCode::Numpad3
    } else if n == 124662896 {
        KeyCode::Numpad4
    } else if n == 124663152 {
        KeyCode::Numpad5
    } else if n == 124663408 {
        KeyCode::Numpad6
    } else if n == 124663664 {
        KeyCode::Numpad7
    } else if n == 124663920 {
        KeyCode::Numpad8
    } else if n == 124664176 {
        KeyCode::Numpad9
    } else if n == 107308385 {
        KeyCode::Escape
    } else if n == 41250928 {
        KeyCode::ArrowUp
    } else if n == 73690743 {
        KeyCode::ArrowDown
    } else if n == 90534516 {
        KeyCode::Enter
    } else {
        KeyCode::Other(0)
    }
}

proof fn lemma_traced(k: KeyCode)
    requires
        k.named(),
    ensures
        traced(trace_of(k)) == k,
{
}

proof fn lemma_trace_of(k: KeyCode)
    requires
        k.named(),
    ensures
        k.name_text().len() > 0,
        trace(k.name_text()) == trace_of(k),
{
    match k {
        KeyCode::KeyA => {
            reveal_strlit("A");
        },
        KeyCode::KeyB => {
            reveal_strlit("B");
        },
        KeyCode::KeyC => {
            reveal_strlit("C");
        },
        KeyCode::KeyD => {
            reveal_strlit("D");
        },
        KeyCode::KeyE => {
            reveal_strlit("E");
        },
        KeyCode::KeyF => {
            reveal_strlit("F");
        },
        KeyCode::KeyG => {
            reveal_strlit("G");
        },
        KeyCode::KeyH => {
            reveal_strlit("H");
        },
        KeyCode::KeyI => {
            reveal_strlit("I");
        },
        KeyCode::KeyJ => {
            reveal_strlit("J");
        },
        KeyCode::KeyK => {
            reveal_strlit("K");
        },
        KeyCode::KeyL => {
            reveal_strlit("L");
        },
        KeyCode::KeyM => {
            reveal_strlit("M");
        },
        KeyCode::KeyN => {
            reveal_strlit("N");
        },
        KeyCode::KeyO => {
            reveal_strlit("O");
        },
        KeyCode::KeyP => {
            reveal_strlit("P");
        },
        KeyCode::KeyQ => {
            reveal_strlit("Q");
        },
        KeyCode::KeyR => {
            reveal_strlit("R");
        },
        KeyCode::KeyS => {
            reveal_strlit("S");
        },
        KeyCode::KeyT => {
            reveal_strlit("T");
        },
        KeyCode::KeyU => {
            reveal_strlit("U");
        },
        KeyCode::KeyV => {
            reveal_strlit("V");
        },
        KeyCode::KeyW => {
            reveal_strlit("W");
        },
        KeyCode::KeyX => {
            reveal_strlit("X");
        },
        KeyCode::KeyY => {
            reveal_strlit("Y");
        },
        KeyCode::KeyZ => {
            reveal_strlit("Z");
        },
        KeyCode::Digit0 => {
            reveal_strlit("0");
        },
        KeyCode::Digit1 => {
            reveal_strlit("1");
        },
        KeyCode::Digit2 => {
            reveal_strlit("2");
        },
        KeyCode::Digit3 => {
            reveal_strlit("3");
        },
        KeyCode::Digit4 => {
            reveal_strlit("4");
        },
        KeyCode::Digit5 => {
            reveal_strlit("5");
        },
        KeyCode::Digit6 => {
            reveal_strlit("6");
        },
        KeyCode::Digit7 => {
            reveal_strlit("7");
        },
        KeyCode::Digit8 => {
            reveal_strlit("8");
        },
        KeyCode::Digit9 => {
            reveal_strlit("9");
        },
        KeyCode::F1 => {
            reveal_strlit("F1");
        },
        KeyCode::F2 => {
            reveal_strlit("F2");
        },
        KeyCode::F3 => {
            reveal_strlit("F3");
        },
        KeyCode::F4 => {
            reveal_strlit("F4");
        },
        KeyCode::F5 => {
            reveal_strlit("F5");
        },
        KeyCode::F6 => {
            reveal_strlit("F6");
        },
        KeyCode::F7 => {
            reveal_strlit("F7");
        },
        KeyCode::F8 => {
            reveal_strlit("F8");
        },
        KeyCode::F9 => {
            reveal_strlit("F9");
        },
        KeyCode::F10 => {
            reveal_strlit("F10");
        },
        KeyCode::F11 => {
            reveal_strlit("F11");
        },
        KeyCode::F12 => {
            reveal_strlit("F12");
        },
        KeyCode::Space => {
            reveal_strlit("Space");
        },
        KeyCode::Tab => {
            reveal_strlit("Tab");
        },
        KeyCode::Backspace => {
            reveal_strlit("Backspace");
        },
        KeyCode::CapsLock => {
            reveal_strlit("CapsLock");
        },
        KeyCode::ShiftLeft => {
            reveal_strlit("LeftShift");
        },
        KeyCode::ShiftRight => {
            reveal_strlit("RightShift");
        },
        KeyCode::ControlLeft => {
            reveal_strlit("LeftCtrl");
        },
        KeyCode::ControlRight => {
            reveal_strlit("RightCtrl");
        },
        KeyCode::AltLeft => {
            reveal_strlit("LeftAlt");
        },
        KeyCode::AltRight => {
            reveal_strlit("RightAlt");
        },
        KeyCode::ArrowLeft => {
            reveal_strlit("Left");
        },
        KeyCode::ArrowRight => {
            reveal_strlit("Right");
        },
        KeyCode::Insert => {
            reveal_strlit("Insert");
        },
        KeyCode::Delete => {
            reveal_strlit("Delete");
        },
        KeyCode::Home => {
            reveal_strlit("Home");
        },
        KeyCode::End => {
            reveal_strlit("End");
        },
        KeyCode::PageUp => {
            reveal_strlit("PageUp");
        },
        KeyCode::PageDown => {
            reveal_strlit("PageDown");
        },
        KeyCode::BracketLeft => {
            reveal_strlit("LeftBracket");
        },
        KeyCode::BracketRight => {
            reveal_strlit("RightBracket");
        },
        KeyCode::Semicolon => {
            reveal_strlit("Semicolon");
        },
        KeyCode::Quote => {
            reveal_strlit("Quote");
        },
        KeyCode::Comma => {
            reveal_strlit("Comma");
        },
        KeyCode::Period => {
            reveal_strlit("Period");
        },
        KeyCode::Slash => {
            reveal_strlit("Slash");
        },
        KeyCode::Backslash => {
            reveal_strlit("Backslash");
        },
        KeyCode::Minus => {
            reveal_strlit("Minus");
        },
        KeyCode::Equal => {
            reveal_strlit("Equal");
        },
        KeyCode::Backquote => {
            reveal_strlit("Backquote");
        },
        KeyCode::Numpad0 => {
            reveal_strlit("Numpad0");
        },
        KeyCode::Numpad1 => {
            reveal_strlit("Numpad1");
        },
        KeyCode::Numpad2 => {
            reveal_strlit("Numpad2");
        },
        KeyCode::Numpad3 => {
            reveal_strlit("Numpad3");
        },
        KeyCode::Numpad4 => {
            reveal_strlit("Numpad4");
        },
        KeyCode::Numpad5 => {
            reveal_strlit("Numpad5");
        },
        KeyCode::Numpad6 => {
            reveal_strlit("Numpad6");
        },
        KeyCode::Numpad7 => {
            reveal_strlit("Numpad7");
        },
        KeyCode::Numpad8 => {
            reveal_strlit("Numpad8");
        },
        KeyCode::Numpad9 => {
            reveal_strlit("Numpad9");
        },
        KeyCode::Escape => {
            reveal_strlit("Escape");
        },
        KeyCode::ArrowUp => {
            reveal_strlit("Up");
        },
        KeyCode::ArrowDown => {
            reveal_strlit("Down");
        },
        KeyCode::Enter => {
            reveal_strlit("Enter");
        },
        KeyCode::Other(_) => {},
    }
}

/// Every named key is found by its name in any case, and no two keys share a
/// name.
pub proof fn law_key_names_round_trip(a: KeyCode, b: KeyCode)
    requires
        a.named(),
        b.named(),
    ensures
        same_name(a.name_text(), b.name_text()) <==> a == b,
{
    lemma_trace_of(a);
    lemma_trace_of(b);
    lemma_traced(a);
    lemma_traced(b);
    if same_name(a.name_text(), b.name_text()) {
        lemma_same_trace(a.name_text(), b.name_text());
    }
}

/// The key that a name calls, whatever the case of its letters.
pub open spec fn key_called(name: Seq<char>) -> Option<KeyCode> {
    if exists|k: KeyCode| k.named() && same_name(#[trigger] k.name_text(), name) {
        Some(choose|k: KeyCode| k.named() && same_name(#[trigger] k.name_text(), name))
    } else {
        None
    }
}

/// A key whose name matches is the one that is called.
pub proof fn lemma_key_called(k: KeyCode, name: Seq<char>)
    requires
        k.named(),
        same_name(k.name_text(), name),
    ensures
        key_called(name) == Some(k),
{
    let o = key_called(name)->0;
    let (a, b) = (k.name_text(), o.name_text());
    assert forall|i: int| 0 <= i < a.len() implies lower(#[trigger] a[i]) == lower(b[i]) by {
        assert(lower(b[i]) == lower(name[i]));
    }
    law_key_names_round_trip(k, o);
}

/// The key of a name, whatever the case of its letters.
pub fn key_from_name(name: &str) -> (r: Option<KeyCode>)
    ensures
        r == key_called(name@),
{
    let cs: Vec<char> = text::chars_of(name);
    let mut i: usize = 0;
    while i < NAMED_KEYS
        invariant
            i <= NAMED_KEYS,
            cs@ == name@,
            forall|k: KeyCode|
                k.named() && k.place() < i ==> !same_name(#[trigger] k.name_text(), name@),
        decreases NAMED_KEYS - i,
    {
        let k: KeyCode = key_at(i);
        if names_match(&cs, key_name(k)) {
            proof {
                lemma_key_called(k, name@);
            }
            return Some(k);
        }
        proof {
            assert forall|o: KeyCode| o.named() && o.place() < i + 1 implies !same_name(
                #[trigger] o.name_text(),
                name@,
            ) by {
                lemma_place(o);
            }
        }
        i += 1;
    }
    proof {
        assert forall|o: KeyCode| o.named() implies !same_name(#[trigger] o.name_text(), name@) by {
            lemma_place(o);
        }
    }
    None
}

/// A key is called by its name with any of its letters small or capital.
pub proof fn law_case_does_not_matter(k: KeyCode, name: Seq<char>)
    requires
        k.named(),
        name.len() == k.name_text().len(),
        forall|i: int|
            0 <= i < name.len() ==> {
                let c = k.name_text()[i];
                #[trigger] name[i] == c || ('A' <= c <= 'Z' && name[i] as int == c as int + 32) || (
                'a' <= c <= 'z' && name[i] as int == c as int - 32)
            },
    ensures
        key_called(name) == Some(k),
{
    let t = k.name_text();
    assert forall|i: int| 0 <= i < t.len() implies lower(#[trigger] t[i]) == lower(name[i]) by {
        let c = name[i];
    }
    lemma_key_called(k, name);
}

/// What is called by a name is a key with that name, but for the case of its
/// letters, and any other name calls nothing.
pub proof fn law_names_call_their_own_key(name: Seq<char>, i: int)
    ensures
        key_called(name) matches Some(k) ==> k.named() && k.name_text().len() == name.len() && (0
            <= i < name.len() && k.name_text()[i] != name[i] ==> (name[i] as int
            - k.name_text()[i] as int == 32 || name[i] as int - k.name_text()[i] as int == -32)),
        key_called(name) is None ==> forall|k: KeyCode|
            k.named() ==> #[trigger] k.name_text() != name,
{
    if let Some(k) = key_called(name) {
        assert(same_name(k.name_text(), name));
        if 0 <= i < name.len() {
            assert(lower(k.name_text()[i]) == lower(name[i]));
        }
    } else {
        assert forall|k: KeyCode| k.named() implies #[trigger] k.name_text() != name by {
            if k.name_text() == name {
                assert(same_name(k.name_text(), name));
            }
        }
    }
}

/// The keys that no file can bind are the four that the menu is worked with.
pub proof fn law_the_menu_keeps_four_keys(k: KeyCode)
    ensures
        k.reserved() <==> k is Escape || k is ArrowUp || k is ArrowDown || k is Enter,
{
}

/// A letter's key is named by the letter and a digit's by the digit, in order,
/// and each stands for its own key.
pub proof fn law_letters_and_digits_name_their_keys(i: int)
    ensures
        0 <= i < 26 ==> key_no(i).name_text() == seq![(65 + i) as char],
        0 <= i < 10 ==> key_no(26 + i).name_text() == seq![(48 + i) as char],
        key_no(0) is KeyA && key_no(18) is KeyS && key_no(22) is KeyW && key_no(25) is KeyZ,
        key_no(26) is Digit0 && key_no(35) is Digit9,
{
    reveal_strlit("A");
    reveal_strlit("B");
    reveal_strlit("C");
    reveal_strlit("D");
    reveal_strlit("E");
    reveal_strlit("F");
    reveal_strlit("G");
    reveal_strlit("H");
    reveal_strlit("I");
    reveal_strlit("J");
    reveal_strlit("K");
    reveal_strlit("L");
    reveal_strlit("M");
    reveal_strlit("N");
    reveal_strlit("O");
    reveal_strlit("P");
    reveal_strlit("Q");
    reveal_strlit("R");
    reveal_strlit("S");
    reveal_strlit("T");
    reveal_strlit("U");
    reveal_strlit("V");
    reveal_strlit("W");
    reveal_strlit("X");
    reveal_strlit("Y");
    reveal_strlit("Z");
    reveal_strlit("0");
    reveal_strlit("1");
    reveal_strlit("2");
    reveal_strlit("3");
    reveal_strlit("4");
    reveal_strlit("5");
    reveal_strlit("6");
    reveal_strlit("7");
    reveal_strlit("8");
    reveal_strlit("9");
    if 0 <= i < 26 {
        assert(key_no(i).name_text() =~= seq![(65 + i) as char]);
    }
    if 0 <= i < 10 {
        assert(key_no(26 + i).name_text() =~= seq![(48 + i) as char]);
    }
}

/// The other keys are named as they are printed on a keyboard.
pub proof fn law_other_keys_have_their_names(k: KeyCode)
    ensures
        k is F1 ==> k.name_text() == "F1"@,
        k is F2 ==> k.name_text() == "F2"@,
        k is F3 ==> k.name_text() == "F3"@,
        k is F4 ==> k.name_text() == "F4"@,
        k is F5 ==> k.name_text() == "F5"@,
        k is F6 ==> k.name_text() == "F6"@,
        k is F7 ==> k.name_text() == "F7"@,
        k is F8 ==> k.name_text() == "F8"@,
        k is F9 ==> k.name_text() == "F9"@,
        k is F10 ==> k.name_text() == "F10"@,
        k is F11 ==> k.name_text() == "F11"@,
        k is F12 ==> k.name_text() == "F12"@,
        k is Space ==> k.name_text() == "Space"@,
        k is Tab ==> k.name_text() == "Tab"@,
        k is Backspace ==> k.name_text() == "Backspace"@,
        k is CapsLock ==> k.name_text() == "CapsLock"@,
        k is ShiftLeft ==> k.name_text() == "LeftShift"@,
        k is ShiftRight ==> k.name_text() == "RightShift"@,
        k is ControlLeft ==> k.name_text() == "LeftCtrl"@,
        k is ControlRight ==> k.name_text() == "RightCtrl"@,
        k is AltLeft ==> k.name_text() == "LeftAlt"@,
        k is AltRight ==> k.name_text() == "RightAlt"@,
        k is ArrowLeft ==> k.name_text() == "Left"@,
        k is ArrowRight ==> k.name_text() == "Right"@,
        k is Insert ==> k.name_text() == "Insert"@,
        k is Delete ==> k.name_text() == "Delete"@,
        k is Home ==> k.name_text() == "Home"@,
        k is End ==> k.name_text() == "End"@,
        k is PageUp ==> k.name_text() == "PageUp"@,
        k is PageDown ==> k.name_text() == "PageDown"@,
        k is BracketLeft ==> k.name_text() == "LeftBracket"@,
        k is BracketRight ==> k.name_text() == "RightBracket"@,
        k is Semicolon ==> k.name_text() == "Semicolon"@,
        k is Quote ==> k.name_text() == "Quote"@,
        k is Comma ==> k.name_text() == "Comma"@,
        k is Period ==> k.name_text() == "Period"@,
        k is Slash ==> k.name_text() == "Slash"@,
        k is Backslash ==> k.name_text() == "Backslash"@,
        k is Minus ==> k.name_text() == "Minus"@,
        k is Equal ==> k.name_text() == "Equal"@,
        k is Backquote ==> k.name_text() == "Backquote"@,
        k is Numpad0 ==> k.name_text() == "Numpad0"@,
        k is Numpad1 ==> k.name_text() == "Numpad1"@,
        k is Numpad2 ==> k.name_text() == "Numpad2"@,
        k is Numpad3 ==> k.name_text() == "Numpad3"@,
        k is Numpad4 ==> k.name_text() == "Numpad4"@,
        k is Numpad5 ==> k.name_text() == "Numpad5"@,
        k is Numpad6 ==> k.name_text() == "Numpad6"@,
        k is Numpad7 ==> k.name_text() == "Numpad7"@,
        k is Numpad8 ==> k.name_text() == "Numpad8"@,
        k is Numpad9 ==> k.name_text() == "Numpad9"@,
        k is Escape ==> k.name_text() == "Escape"@,
        k is ArrowUp ==> k.name_text() == "Up"@,
        k is ArrowDown ==> k.name_text() == "Down"@,
        k is Enter ==> k.name_text() == "Enter"@,
{
}

} // verus!
