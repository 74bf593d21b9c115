use vstd::prelude::*;

verus! {

/// The keys of a keyboard, one variant per key code that the window system reports.
#[derive(Debug, Hash, Clone, Copy, PartialEq, Eq, Structural)]
pub enum Keycodes {
    Key1,
    Key2,
    Key3,
    Key4,
    Key5,
    Key6,
    Key7,
    Key8,
    Key9,
    Key0,
    A,
    B,
    C,
    D,
    E,
    F,
    G,
    H,
    I,
    J,
    K,
    L,
    M,
    N,
    O,
    P,
    Q,
    R,
    S,
    T,
    U,
    V,
    W,
    X,
    Y,
    Z,
    Escape,
    F1,
    F2,
    F3,
    F4,
    F5,
    F6,
    F7,
    F8,
    F9,
    F10,
    F11,
    F12,
    F13,
    F14,
    F15,
    F16,
    F17,
    F18,
    F19,
    F20,
    F21,
    F22,
    F23,
    F24,
    Snapshot,
    Scroll,
    Pause,
    Insert,
    Home,
    Delete,
    End,
    PageDown,
    PageUp,
    Left,
    Up,
    Right,
    Down,
    Back,
    Return,
    Space,
    Compose,
    Caret,
    Numlock,
    Numpad0,
    Numpad1,
    Numpad2,
    Numpad3,
    Numpad4,
    Numpad5,
    Numpad6,
    Numpad7,
    Numpad8,
    Numpad9,
    AbntC1,
    AbntC2,
    Add,
    Apostrophe,
    Apps,
    At,
    Ax,
    Backslash,
    Calculator,
    Capital,
    Colon,
    Comma,
    Convert,
    Decimal,
    Divide,
    Equals,
    Grave,
    Kana,
    Kanji,
    LAlt,
    LBracket,
    LControl,
    LShift,
    LWin,
    Mail,
    MediaSelect,
    MediaStop,
    Minus,
    Multiply,
    Mute,
    MyComputer,
    NavigateForward,
    NavigateBackward,
    NextTrack,
    NoConvert,
    NumpadComma,
    NumpadEnter,
    NumpadEquals,
    OEM102,
    Period,
    PlayPause,
    Power,
    PrevTrack,
    RAlt,
    RBracket,
    RControl,
    RShift,
    RWin,
    Semicolon,
    Slash,
    Sleep,
    Stop,
    Subtract,
    Sysrq,
    Tab,
    Underline,
    Unlabeled,
    VolumeDown,
    VolumeUp,
    Wake,
    WebBack,
    WebFavorites,
    WebForward,
    WebHome,
    WebRefresh,
    WebSearch,
    WebStop,
    Yen,
    Copy,
    Paste,
    Cut,
}

/// The text that a key types, if any: the lower case letter of a letter key, the digit
/// of a digit key (main row or numpad), a space for the space bar.
pub open spec fn key_char(k: Keycodes) -> Option<char> {
    match k {
        Keycodes::A => Some('a'),
        Keycodes::B => Some('b'),
        Keycodes::C => Some('c'),
        Keycodes::D => Some('d'),
        Keycodes::E => Some('e'),
        Keycodes::F => Some('f'),
        Keycodes::G => Some('g'),
        Keycodes::H => Some('h'),
        Keycodes::I => Some('i'),
        Keycodes::J => Some('j'),
        Keycodes::K => Some('k'),
        Keycodes::L => Some('l'),
        Keycodes::M => Some('m'),
        Keycodes::N => Some('n'),
        Keycodes::O => Some('o'),
        Keycodes::P => Some('p'),
        Keycodes::Q => Some('q'),
        Keycodes::R => Some('r'),
        Keycodes::S => Some('s'),
        Keycodes::T => Some('t'),
        Keycodes::U => Some('u'),
        Keycodes::V => Some('v'),
        Keycodes::W => Some('w'),
        Keycodes::X => Some('x'),
        Keycodes::Y => Some('y'),
        Keycodes::Z => Some('z'),
        Keycodes::Key1 => Some('1'),
        Keycodes::Numpad1 => Some('1'),
        Keycodes::Key2 => Some('2'),
        Keycodes::Numpad2 => Some('2'),
        Keycodes::Key3 => Some('3'),
        Keycodes::Numpad3 => Some('3'),
        Keycodes::Key4 => Some('4'),
        Keycodes::Numpad4 => Some('4'),
        Keycodes::Key5 => Some('5'),
        Keycodes::Numpad5 => Some('5'),
        Keycodes::Key6 => Some('6'),
        Keycodes::Numpad6 => Some('6'),
        Keycodes::Key7 => Some('7'),
        Keycodes::Numpad7 => Some('7'),
        Keycodes::Key8 => Some('8'),
        Keycodes::Numpad8 => Some('8'),
        Keycodes::Key9 => Some('9'),
        Keycodes::Numpad9 => Some('9'),
        Keycodes::Key0 => Some('0'),
        Keycodes::Numpad0 => Some('0'),
        Keycodes::Space => Some(' '),
        _ => None,
    }
}

/// The text of a key as a sequence of characters: its character, or nothing.
pub open spec fn key_text(k: Keycodes) -> Seq<char> {
    match key_char(k) {
        Some(c) => seq![c],
        None => Seq::empty(),
    }
}

/// A key together with the modifiers held with it.
#[derive(Eq, Debug, Hash, Clone, Copy)]
pub struct Key {
    /// The keys modifiers
    /// [SHIFT / CTRL / ALT / WIN]
    pub modifier: [bool; 4],
    /// The keycode
    pub key: Keycodes,
}

impl PartialEq for Key {
    fn eq(&self, other: &Self) -> (r: bool) {
        let same = self.key == other.key && self.modifier[0] == other.modifier[0]
            && self.modifier[1] == other.modifier[1] && self.modifier[2] == other.modifier[2]
            && self.modifier[3] == other.modifier[3];
        proof {
            if same {
                assert(self.modifier =~= other.modifier);
            }
        }
        same
    }
}

impl vstd::std_specs::cmp::PartialEqSpecImpl for Key {
    open spec fn obeys_eq_spec() -> bool {
        true
    }

    open spec fn eq_spec(&self, other: &Self) -> bool {
        self.key == other.key && self.modifier == other.modifier
    }
}

impl Key {
    /// The key's text if it has one, a blank string if not.
    pub fn get_str(self) -> (s: String)
        ensures
            s@ == key_text(self.key),
    {
        match self.key {
            Keycodes::A => {
                proof {
                    reveal_strlit("a");
                }
                "a".to_string()
            },
            Keycodes::B => {
                proof {
                    reveal_strlit("b");
                }
                "b".to_string()
            },
            Keycodes::C => {
                proof {
                    reveal_strlit("c");
                }
                "c".to_string()
            },
            Keycodes::D => {
                proof {
                    reveal_strlit("d");
                }
                "d".to_string()
            },
            Keycodes::E => {
                proof {
                    reveal_strlit("e");
                }
                "e".to_string()
            },
            Keycodes::F => {
                proof {
                    reveal_strlit("f");
                }
                "f".to_string()
            },
            Keycodes::G => {
                proof {
                    reveal_strlit("g");
                }
                "g".to_string()
            },
            Keycodes::H => {
                proof {
                    reveal_strlit("h");
                }
                "h".to_string()
            },
            Keycodes::I => {
                proof {
                    reveal_strlit("i");
                }
                "i".to_string()
            },
            Keycodes::J => {
                proof {
                    reveal_strlit("j");
                }
                "j".to_string()
            },
            Keycodes::K => {
                proof {
                    reveal_strlit("k");
                }
                "k".to_string()
            },
            Keycodes::L => {
                proof {
                    reveal_strlit("l");
                }
                "l".to_string()
            },
            Keycodes::M => {
                proof {
                    reveal_strlit("m");
                }
                "m".to_string()
            },
            Keycodes::N => {
                proof {
                    reveal_strlit("n");
                }
                "n".to_string()
            },
            Keycodes::O => {
                proof {
                    reveal_strlit("o");
                }
                "o".to_string()
            },
            Keycodes::P => {
                proof {
                    reveal_strlit("p");
                }
                "p".to_string()
            },
            Keycodes::Q => {
                proof {
                    reveal_strlit("q");
                }
                "q".to_string()
            },
            Keycodes::R => {
                proof {
                    reveal_strlit("r");
                }
                "r".to_string()
            },
            Keycodes::S => {
                proof {
                    reveal_strlit("s");
                }
                "s".to_string()
            },
            Keycodes::T => {
                proof {
                    reveal_strlit("t");
                }
                "t".to_string()
            },
            Keycodes::U => {
                proof {
                    reveal_strlit("u");
                }
                "u".to_string()
            },
            Keycodes::V => {
                proof {
                    reveal_strlit("v");
                }
                "v".to_string()
            },
            Keycodes::W => {
                proof {
                    reveal_strlit("w");
                }
                "w".to_string()
            },
            Keycodes::X => {
                proof {
                    reveal_strlit("x");
                }
                "x".to_string()
            },
            Keycodes::Y => {
                proof {
                    reveal_strlit("y");
                }
                "y".to_string()
            },
            Keycodes::Z => {
                proof {
                    reveal_strlit("z");
                }
                "z".to_string()
            },
            Keycodes::Key1 => {
                proof {
                    reveal_strlit("1");
                }
                "1".to_string()
            },
            Keycodes::Numpad1 => {
                proof {
                    reveal_strlit("1");
                }
                "1".to_string()
            },
            Keycodes::Key2 => {
                proof {
                    reveal_strlit("2");
                }
                "2".to_string()
            },
            Keycodes::Numpad2 => {
                proof {
                    reveal_strlit("2");
                }
                "2".to_string()
            },
            Keycodes::Key3 => {
                proof {
                    reveal_strlit("3");
                }
                "3".to_string()
            },
            Keycodes::Numpad3 => {
                proof {
                    reveal_strlit("3");
                }
                "3".to_string()
            },
            Keycodes::Key4 => {
                proof {
                    reveal_strlit("4");
                }
                "4".to_string()
            },
            Keycodes::Numpad4 => {
                proof {
                    reveal_strlit("4");
                }
                "4".to_string()
            },
            Keycodes::Key5 => {
                proof {
                    reveal_strlit("5");
                }
                "5".to_string()
            },
            Keycodes::Numpad5 => {
                proof {
                    reveal_strlit("5");
                }
                "5".to_string()
            },
            Keycodes::Key6 => {
                proof {
                    reveal_strlit("6");
                }
                "6".to_string()
            },
            Keycodes::Numpad6 => {
                proof {
                    reveal_strlit("6");
                }
                "6".to_string()
            },
            Keycodes::Key7 => {
                proof {
                    reveal_strlit("7");
                }
                "7".to_string()
            },
            Keycodes::Numpad7 => {
                proof {
                    reveal_strlit("7");
                }
                "7".to_string()
            },
            Keycodes::Key8 => {
                proof {
                    reveal_strlit("8");
                }
                "8".to_string()
            },
            Keycodes::Numpad8 => {
                proof {
                    reveal_strlit("8");
                }
                "8".to_string()
            },
            Keycodes::Key9 => {
                proof {
                    reveal_strlit("9");
                }
                "9".to_string()
            },
            Keycodes::Numpad9 => {
                proof {
                    reveal_strlit("9");
                }
                "9".to_string()
            },
            Keycodes::Key0 => {
                proof {
                    reveal_strlit("0");
                }
                "0".to_string()
            },
            Keycodes::Numpad0 => {
                proof {
                    reveal_strlit("0");
                }
                "0".to_string()
            },
            Keycodes::Space => {
                proof {
                    reveal_strlit(" ");
                }
                " ".to_string()
            },
            _ => {
                proof {
                    reveal_strlit("");
                }
                "".to_string()
            },
        }
    }

    /// The key's text if it has one.
    pub fn get_str_option(self) -> (s: Option<String>)
        ensures
            match s {
                Some(t) => key_char(self.key) is Some && t@ == key_text(self.key),
                None => key_char(self.key) is None,
            },
    {
        let text = self.get_str();
        if text.as_str().is_empty() {
            None
        } else {
            Some(text)
        }
    }
}

/// The state of a key or button during one frame.
#[derive(Debug, Clone, Copy, PartialEq, Eq, Structural)]
pub struct Input {
    /// It went down during this frame
    pub pressed: bool,
    /// It is down since an earlier frame
    pub held: bool,
    /// It went up during this frame
    pub released: bool,
}

impl Input {
    /// An input with the given states.
    pub fn new(pressed: bool, held: bool, released: bool) -> (i: Self)
        ensures
            i == (Input { pressed, held, released }),
    {
        Input { pressed, held, released }
    }

    /// An input that is neither pressed, held nor released.
    pub fn default() -> (i: Self)
        ensures
            i == (Input { pressed: false, held: false, released: false }),
    {
        Input { pressed: false, held: false, released: false }
    }

    /// Whether the input is pressed, held or released.
    pub fn any(&self) -> (b: bool)
        ensures
            b == (self.pressed || self.held || self.released),
    {
        self.pressed || self.held || self.released
    }
}

/// A mouse button.
#[derive(Debug, Clone, Copy, PartialEq, Eq, Structural)]
pub enum MouseBtn {
    Left,
    Right,
    Middle,
}

/// The direction of the mouse wheel during a frame.
#[derive(Debug, Clone, Copy, PartialEq, Eq, Structural)]
pub enum MouseWheel {
    /// No wheel movement
    Still,
    Up,
    Down,
    Right,
    Left,
}

/// The slot of a button in [`Mouse::buttons`].
pub open spec fn button_index(btn: MouseBtn) -> int {
    match btn {
        MouseBtn::Left => 0,
        MouseBtn::Right => 1,
        MouseBtn::Middle => 2,
    }
}

fn button_slot(btn: MouseBtn) -> (i: usize)
    ensures
        i == button_index(btn),
        i < 3,
{
    match btn {
        MouseBtn::Left => 0,
        MouseBtn::Right => 1,
        MouseBtn::Middle => 2,
    }
}

/// The state of the mouse.
#[derive(Debug, Clone, Copy)]
pub struct Mouse {
    /// State of each mouse button: left, right, middle
    pub buttons: [Input; 3],
    /// Position, in screen pixels
    pub pos: (u32, u32),
    /// Wheel movement during this frame
    pub wheel: MouseWheel,
}

impl Mouse {
    /// A mouse at `(0, 0)` with no button down and no wheel movement.
    pub fn new() -> (m: Self)
        ensures
            forall|i: int| 0 <= i < 3 ==> #[trigger] m.buttons[i] == (Input {
                pressed: false,
                held: false,
                released: false,
            }),
            m.pos == (0u32, 0u32),
            m.wheel == MouseWheel::Still,
    {
        Mouse {
            buttons: [Input::default(), Input::default(), Input::default()],
            pos: (0, 0),
            wheel: MouseWheel::Still,
        }
    }
}

/// A collection of keys that can be asked for a key code.
pub trait KeySet {
    /// Whether the collection holds a key with key code `key`.
    spec fn spec_has(&self, key: Keycodes) -> bool;

    /// Whether the collection holds a key with key code `key`, whatever its modifiers.
    fn has(&self, key: Keycodes) -> (b: bool)
        ensures
            b == self.spec_has(key),
    ;
}

impl KeySet for Vec<Key> {
    open spec fn spec_has(&self, key: Keycodes) -> bool {
        exists|i: int| 0 <= i < self@.len() && (#[trigger] self@[i]).key == key
    }

    fn has(&self, key: Keycodes) -> (b: bool) {
        let mut i: usize = 0;
        while i < self.len()
            invariant
                i <= self@.len(),
                forall|j: int| 0 <= j < i ==> (#[trigger] self@[j]).key != key,
            decreases self@.len() - i,
        {
            if self[i].key == key {
                return true;
            }
            i = i + 1;
        }
        false
    }
}

/// Whether a set of keys holds one with key code `code`.
pub open spec fn set_has(s: Set<Key>, code: Keycodes) -> bool {
    exists|k: Key| #[trigger] s.contains(k) && k.key == code
}

/// A window event, as the input state sees it.
#[derive(Debug, Clone, Copy)]
pub enum InputEvent {
    /// A key went down (`released` false) or up (`released` true)
    Keyboard { key: Key, released: bool },
    /// The window was asked to close
    Close,
    /// The cursor moved to this screen pixel
    MouseMove(u32, u32),
    /// The wheel moved
    MouseWheel(MouseWheel),
    /// A button went down (`true`) or up (`false`)
    MouseClick(MouseBtn, bool),
}

/// The keys and mouse state of the engine, updated frame by frame from window events.
#[derive(Debug)]
pub struct InputState {
    k_pressed: Vec<Key>,
    k_held: Vec<Key>,
    k_released: Vec<Key>,
    mouse: Mouse,
}

/// Whether no key occurs twice in the list.
pub open spec fn no_dup(v: Seq<Key>) -> bool {
    forall|i: int, j: int| 0 <= i < j < v.len() ==> v[i] != v[j]
}

/// Remove `key` from a list without duplicates.
fn remove_key(v: &mut Vec<Key>, key: Key)
    requires
        no_dup(old(v)@),
    ensures
        no_dup(final(v)@),
        final(v)@.to_set() == old(v)@.to_set().remove(key),
{
    let mut i: usize = 0;
    while i < v.len()
        invariant
            i <= v@.len(),
            v@ == old(v)@,
            no_dup(v@),
            forall|j: int| 0 <= j < i ==> v@[j] != key,
        decreases v@.len() - i,
    {
        if v[i] == key {
            let ghost before = v@;
            v.remove(i);
            proof {
                assert(v@ =~= before.remove(i as int));
                assert forall|k: Key| #[trigger] v@.to_set().contains(k) <==> before.to_set().remove(key).contains(k) by {
                    if v@.contains(k) {
                        let a = choose|a: int| 0 <= a < v@.len() && v@[a] == k;
                        if a < i {
                            assert(before[a] == k);
                        } else {
                            assert(before[a + 1] == k);
                            assert(before[i as int] == key);
                        }
                    }
                    if before.contains(k) && k != key {
                        let a = choose|a: int| 0 <= a < before.len() && before[a] == k;
                        if a < i {
                            assert(v@[a] == k);
                        } else {
                            assert(a != i);
                            assert(v@[a - 1] == k);
                        }
                    }
                }
                assert(v@.to_set() =~= before.to_set().remove(key));
            }
            return ;
        }
        i = i + 1;
    }
    proof {
        assert(!v@.contains(key));
        assert(v@.to_set() =~= v@.to_set().remove(key));
    }
}

/// Add `key` to a list without duplicates, unless it is there already.
fn insert_key(v: &mut Vec<Key>, key: Key)
    requires
        no_dup(old(v)@),
    ensures
        no_dup(final(v)@),
        final(v)@.to_set() == old(v)@.to_set().insert(key),
{
    let mut i: usize = 0;
    while i < v.len()
        invariant
            i <= v@.len(),
            v@ == old(v)@,
            no_dup(v@),
            forall|j: int| 0 <= j < i ==> v@[j] != key,
        decreases v@.len() - i,
    {
        if v[i] == key {
            proof {
                assert(v@.to_set().contains(key));
                assert(v@.to_set() =~= v@.to_set().insert(key));
            }
            return ;
        }
        i = i + 1;
    }
    let ghost before = v@;
    v.push(key);
    proof {
        assert forall|a: int, b: int| 0 <= a < b < v@.len() implies v@[a] != v@[b] by {
            if b == before.len() {
                assert(before[a] != key);
            } else {
                assert(before[a] != before[b]);
            }
        }
        assert(v@.to_set() =~= before.to_set().insert(key)) by {
            assert forall|k: Key| #[trigger] v@.to_set().contains(k) <==> before.to_set().insert(key).contains(k) by {
                if v@.contains(k) {
                    let a = choose|a: int| 0 <= a < v@.len() && v@[a] == k;
                    if a < before.len() {
                        assert(before[a] == k);
                    }
                }
                if before.contains(k) {
                    let a = choose|a: int| 0 <= a < before.len() && before[a] == k;
                    assert(v@[a] == k);
                }
                if k == key {
                    assert(v@[before.len() as int] == key);
                }
            }
        }
    }
}

impl InputState {
    /// Keys that went down during this frame
    pub closed spec fn pressed(&self) -> Set<Key> {
        self.k_pressed@.to_set()
    }

    /// Keys that are down since an earlier frame
    pub closed spec fn held(&self) -> Set<Key> {
        self.k_held@.to_set()
    }

    /// Keys that went up during this frame
    pub closed spec fn released(&self) -> Set<Key> {
        self.k_released@.to_set()
    }

    /// The pressed, held and released keys
    pub open spec fn keys(&self) -> (Set<Key>, Set<Key>, Set<Key>) {
        (self.pressed(), self.held(), self.released())
    }

    /// The mouse
    pub closed spec fn mouse(&self) -> Mouse {
        self.mouse
    }

    /// Well-formedness: no key is listed twice, and no key code is both pressed and held.
    pub closed spec fn wf(&self) -> bool {
        &&& no_dup(self.k_pressed@)
        &&& no_dup(self.k_held@)
        &&& no_dup(self.k_released@)
        &&& forall|code: Keycodes| !(#[trigger] set_has(self.pressed(), code) && set_has(self.held(), code))
    }
}

/// A list without duplicates holds a key with key code `code` exactly when its set does.
proof fn lemma_has_set(v: Seq<Key>, code: Keycodes)
    ensures
        (exists|i: int| 0 <= i < v.len() && (#[trigger] v[i]).key == code) <==> set_has(v.to_set(), code),
{
    if exists|i: int| 0 <= i < v.len() && (#[trigger] v[i]).key == code {
        let i = choose|i: int| 0 <= i < v.len() && (#[trigger] v[i]).key == code;
        assert(v.to_set().contains(v[i]));
    }
    if set_has(v.to_set(), code) {
        let k = choose|k: Key| #[trigger] v.to_set().contains(k) && k.key == code;
        assert(v.contains(k));
        let i = choose|i: int| 0 <= i < v.len() && v[i] == k;
        assert(v[i].key == code);
    }
}

/// The state of a button after a frame ends: a press becomes a hold, a release is over.
pub open spec fn button_next_frame(b: Input) -> Input {
    Input { pressed: false, held: b.held || b.pressed, released: false }
}

/// The state of a button after it went down (`pressed`) or up.
pub open spec fn button_clicked(b: Input, pressed: bool) -> Input {
    if pressed {
        Input { pressed: true, ..b }
    } else {
        Input { released: true, held: false, ..b }
    }
}

/// The pressed, held and released keys once a new frame starts: the pressed keys join the
/// held ones, and nothing is pressed or released.
pub open spec fn keys_at_frame_start(keys: (Set<Key>, Set<Key>, Set<Key>)) -> (Set<Key>, Set<Key>, Set<Key>) {
    (Set::empty(), keys.1.union(keys.0), Set::empty())
}

/// The pressed, held and released keys after `key` goes up (`released`) or down: a key that
/// goes up is no longer pressed or held and is released; a key that goes down is pressed
/// unless a key with its key code is held.
pub open spec fn keys_after_key_event(keys: (Set<Key>, Set<Key>, Set<Key>), key: Key, released: bool) -> (Set<Key>, Set<Key>, Set<Key>) {
    if released {
        (keys.0.remove(key), keys.1.remove(key), keys.2.insert(key))
    } else if set_has(keys.1, key.key) {
        keys
    } else {
        (keys.0.insert(key), keys.1, keys.2)
    }
}

/// What [`InputState::get_key`] reports for key code `code` on these pressed, held and
/// released keys.
pub open spec fn key_input(keys: (Set<Key>, Set<Key>, Set<Key>), code: Keycodes) -> Input {
    Input { pressed: set_has(keys.0, code), held: set_has(keys.1, code), released: set_has(keys.2, code) }
}

/// A key's life over several frames. Take the keys right after a frame starts (nothing
/// pressed or released), with no key of `key`'s code held. In that frame `key` goes down: it
/// is reported pressed. From the next frame on it is reported held, and going down again
/// changes nothing. In the frame it goes up it is reported released, and in the frame after
/// that it is reported neither pressed, held nor released.
pub proof fn lemma_key_lifecycle(held: Set<Key>, key: Key)
    requires
        !set_has(held, key.key),
    ensures
        ({
            let start = (Set::<Key>::empty(), held, Set::<Key>::empty());
            let down = keys_after_key_event(start, key, false);
            let next = keys_at_frame_start(down);
            let up = keys_after_key_event(next, key, true);
            let after = keys_at_frame_start(up);
            &&& key_input(down, key.key) == (Input { pressed: true, held: false, released: false })
            &&& key_input(next, key.key) == (Input { pressed: false, held: true, released: false })
            &&& keys_after_key_event(next, key, false) == next
            &&& keys_at_frame_start(next) == next
            &&& key_input(up, key.key) == (Input { pressed: false, held: false, released: true })
            &&& key_input(after, key.key) == (Input { pressed: false, held: false, released: false })
        }),
{
    let start = (Set::<Key>::empty(), held, Set::<Key>::empty());
    let down = keys_after_key_event(start, key, false);
    let next = keys_at_frame_start(down);
    let up = keys_after_key_event(next, key, true);
    let after = keys_at_frame_start(up);
    assert(down.0.contains(key));
    assert(next.1.contains(key));
    assert(!set_has(next.0, key.key));
    assert(!set_has(next.2, key.key));
    assert(keys_at_frame_start(next).1 =~= next.1);
    assert(keys_at_frame_start(next).0 =~= next.0);
    assert(keys_at_frame_start(next).2 =~= next.2);
    assert(up.2.contains(key));
    assert(!set_has(up.0, key.key));
    if set_has(up.1, key.key) {
        let k = choose|k: Key| #[trigger] up.1.contains(k) && k.key == key.key;
        assert(held.contains(k));
    }
    assert(!set_has(after.0, key.key));
    assert(!set_has(after.2, key.key));
    assert(after.1 =~= up.1);
}

/// What is reported for one key code is that code's own business: an event of a key with
/// another code leaves it unchanged, and as a frame starts the code becomes held exactly when
/// it was pressed or held, and neither pressed nor released.
pub proof fn lemma_key_input_per_code(keys: (Set<Key>, Set<Key>, Set<Key>), code: Keycodes, other: Key, released: bool)
    requires
        other.key != code,
    ensures
        key_input(keys_after_key_event(keys, other, released), code) == key_input(keys, code),
        key_input(keys_at_frame_start(keys), code) == (Input {
            pressed: false,
            held: key_input(keys, code).pressed || key_input(keys, code).held,
            released: false,
        }),
{
    let after = keys_after_key_event(keys, other, released);
    if released {
        assert(set_has(after.0, code) == set_has(keys.0, code)) by {
            if set_has(keys.0, code) {
                let k = choose|k: Key| #[trigger] keys.0.contains(k) && k.key == code;
                assert(after.0.contains(k));
            }
        }
        assert(set_has(after.1, code) == set_has(keys.1, code)) by {
            if set_has(keys.1, code) {
                let k = choose|k: Key| #[trigger] keys.1.contains(k) && k.key == code;
                assert(after.1.contains(k));
            }
        }
        assert(set_has(after.2, code) == set_has(keys.2, code)) by {
            if set_has(after.2, code) {
                let k = choose|k: Key| #[trigger] after.2.contains(k) && k.key == code;
                assert(keys.2.contains(k));
            }
            if set_has(keys.2, code) {
                let k = choose|k: Key| #[trigger] keys.2.contains(k) && k.key == code;
                assert(after.2.contains(k));
            }
        }
    } else if !set_has(keys.1, other.key) {
        assert(set_has(after.0, code) == set_has(keys.0, code)) by {
            if set_has(after.0, code) {
                let k = choose|k: Key| #[trigger] after.0.contains(k) && k.key == code;
                assert(keys.0.contains(k));
            }
            if set_has(keys.0, code) {
                let k = choose|k: Key| #[trigger] keys.0.contains(k) && k.key == code;
                assert(after.0.contains(k));
            }
        }
    }
    let start = keys_at_frame_start(keys);
    assert(set_has(start.0, code) == false);
    assert(set_has(start.2, code) == false);
    assert(set_has(start.1, code) == (set_has(keys.0, code) || set_has(keys.1, code))) by {
        if set_has(start.1, code) {
            let k = choose|k: Key| #[trigger] start.1.contains(k) && k.key == code;
            assert(keys.0.contains(k) || keys.1.contains(k));
        }
        if set_has(keys.0, code) {
            let k = choose|k: Key| #[trigger] keys.0.contains(k) && k.key == code;
            assert(start.1.contains(k));
        }
        if set_has(keys.1, code) {
            let k = choose|k: Key| #[trigger] keys.1.contains(k) && k.key == code;
            assert(start.1.contains(k));
        }
    }
}

/// A mouse button's life over several frames. Take a button that is neither pressed, held
/// nor released as a frame starts. In that frame it goes down: it is reported pressed. From
/// the next frame on it is reported held. In the frame it goes up it is reported released,
/// and in the frame after that it is reported neither pressed, held nor released.
pub proof fn lemma_button_lifecycle()
    ensures
        ({
            let start = (Input { pressed: false, held: false, released: false });
            let down = button_clicked(start, true);
            let next = button_next_frame(down);
            let up = button_clicked(next, false);
            &&& down == (Input { pressed: true, held: false, released: false })
            &&& next == (Input { pressed: false, held: true, released: false })
            &&& button_next_frame(next) == next
            &&& up == (Input { pressed: false, held: false, released: true })
            &&& button_next_frame(up) == (Input { pressed: false, held: false, released: false })
        }),
{
}

/// The pressed, held and released keys after one window event: a keyboard event acts as
/// [`keys_after_key_event`] says, every other event leaves the keys alone.
pub open spec fn keys_after_input_event(keys: (Set<Key>, Set<Key>, Set<Key>), ev: InputEvent) -> (Set<Key>, Set<Key>, Set<Key>) {
    match ev {
        InputEvent::Keyboard { key, released } => keys_after_key_event(keys, key, released),
        _ => keys,
    }
}

/// The pressed, held and released keys after the events `evs`, in order.
pub open spec fn keys_after_events(keys: (Set<Key>, Set<Key>, Set<Key>), evs: Seq<InputEvent>) -> (Set<Key>, Set<Key>, Set<Key>)
    decreases evs.len(),
{
    if evs.len() == 0 {
        keys
    } else {
        keys_after_input_event(keys_after_events(keys, evs.drop_last()), evs.last())
    }
}

/// The keys that a frame sees: the frame starts from the keys `prev` that the frame before
/// it left, and then its events `evs` arrive.
pub open spec fn keys_in_frame(prev: (Set<Key>, Set<Key>, Set<Key>), evs: Seq<InputEvent>) -> (Set<Key>, Set<Key>, Set<Key>) {
    keys_after_events(keys_at_frame_start(prev), evs)
}

/// The keys left after the frames `frames`, each given by its events, starting from `keys`.
pub open spec fn keys_after_frames(keys: (Set<Key>, Set<Key>, Set<Key>), frames: Seq<Seq<InputEvent>>) -> (Set<Key>, Set<Key>, Set<Key>)
    decreases frames.len(),
{
    if frames.len() == 0 {
        keys
    } else {
        keys_in_frame(keys_after_frames(keys, frames.drop_last()), frames.last())
    }
}

/// Whether `ev` is a keyboard event of key code `code`.
pub open spec fn touches_key(ev: InputEvent, code: Keycodes) -> bool {
    ev matches InputEvent::Keyboard { key, .. } && key.key == code
}

/// Whether none of `evs` is a keyboard event of key code `code`.
pub open spec fn avoids_key(evs: Seq<InputEvent>, code: Keycodes) -> bool {
    forall|i: int| 0 <= i < evs.len() ==> !touches_key(#[trigger] evs[i], code)
}

/// Whether every keyboard event of `key`'s code among `evs` is `key` going down.
pub open spec fn only_presses(evs: Seq<InputEvent>, key: Key) -> bool {
    forall|i: int|
        0 <= i < evs.len() && touches_key(#[trigger] evs[i], key.key) ==> evs[i] == (InputEvent::Keyboard { key, released: false })
}

spec fn code_part(keys: (Set<Key>, Set<Key>, Set<Key>), code: Keycodes) -> (Set<Key>, Set<Key>, Set<Key>) {
    (
        keys.0.filter(|k: Key| k.key == code),
        keys.1.filter(|k: Key| k.key == code),
        keys.2.filter(|k: Key| k.key == code),
    )
}

proof fn lemma_has_filter(s: Set<Key>, code: Keycodes)
    ensures
        set_has(s, code) == set_has(s.filter(|k: Key| k.key == code), code),
        !set_has(s, code) ==> s.filter(|k: Key| k.key == code) == Set::<Key>::empty(),
{
    let f = s.filter(|k: Key| k.key == code);
    if set_has(s, code) {
        let k = choose|k: Key| #[trigger] s.contains(k) && k.key == code;
        assert(f.contains(k));
    }
    if set_has(f, code) {
        let k = choose|k: Key| #[trigger] f.contains(k) && k.key == code;
        assert(s.contains(k));
    }
    if !set_has(s, code) {
        assert forall|k: Key| !f.contains(k) by {
            if f.contains(k) {
                assert(s.contains(k) && k.key == code);
            }
        }
        assert(f =~= Set::<Key>::empty());
    }
}

proof fn lemma_code_part_input(keys: (Set<Key>, Set<Key>, Set<Key>), code: Keycodes)
    ensures
        key_input(keys, code) == key_input(code_part(keys, code), code),
{
    lemma_has_filter(keys.0, code);
    lemma_has_filter(keys.1, code);
    lemma_has_filter(keys.2, code);
}

proof fn lemma_code_part_event(keys: (Set<Key>, Set<Key>, Set<Key>), ev: InputEvent, code: Keycodes)
    ensures
        code_part(keys_after_input_event(keys, ev), code) == if touches_key(ev, code) {
            keys_after_input_event(code_part(keys, code), ev)
        } else {
            code_part(keys, code)
        },
{
    let cp = code_part(keys, code);
    let after = keys_after_input_event(keys, ev);
    if let InputEvent::Keyboard { key, released } = ev {
        if released {
            if key.key == code {
                assert(after.0.filter(|k: Key| k.key == code) =~= cp.0.remove(key));
                assert(after.1.filter(|k: Key| k.key == code) =~= cp.1.remove(key));
                assert(after.2.filter(|k: Key| k.key == code) =~= cp.2.insert(key));
            } else {
                assert(after.0.filter(|k: Key| k.key == code) =~= cp.0);
                assert(after.1.filter(|k: Key| k.key == code) =~= cp.1);
                assert(after.2.filter(|k: Key| k.key == code) =~= cp.2);
            }
        } else {
            lemma_has_filter(keys.1, key.key);
            if !set_has(keys.1, key.key) {
                if key.key == code {
                    assert(after.0.filter(|k: Key| k.key == code) =~= cp.0.insert(key));
                } else {
                    assert(after.0.filter(|k: Key| k.key == code) =~= cp.0);
                }
            }
        }
    }
}

proof fn lemma_code_part_frame(keys: (Set<Key>, Set<Key>, Set<Key>), code: Keycodes)
    ensures
        code_part(keys_at_frame_start(keys), code) == keys_at_frame_start(code_part(keys, code)),
{
    let cp = code_part(keys, code);
    let s = keys_at_frame_start(keys);
    assert(s.0.filter(|k: Key| k.key == code) =~= Set::<Key>::empty());
    assert(s.2.filter(|k: Key| k.key == code) =~= Set::<Key>::empty());
    assert(s.1.filter(|k: Key| k.key == code) =~= cp.1.union(cp.0));
}

proof fn lemma_events_concat(keys: (Set<Key>, Set<Key>, Set<Key>), a: Seq<InputEvent>, b: Seq<InputEvent>)
    ensures
        keys_after_events(keys, a + b) == keys_after_events(keys_after_events(keys, a), b),
    decreases b.len(),
{
    if b.len() == 0 {
        assert(a + b =~= a);
    } else {
        lemma_events_concat(keys, a, b.drop_last());
        assert((a + b).drop_last() =~= a + b.drop_last());
        assert((a + b).last() == b.last());
    }
}

/// Events that each leave the code part `x` as it is leave it as it is together.
proof fn lemma_events_keep(keys: (Set<Key>, Set<Key>, Set<Key>), evs: Seq<InputEvent>, code: Keycodes, x: (Set<Key>, Set<Key>, Set<Key>))
    requires
        code_part(keys, code) == x,
        forall|i: int| 0 <= i < evs.len() && touches_key(#[trigger] evs[i], code) ==> keys_after_input_event(x, evs[i]) == x,
    ensures
        code_part(keys_after_events(keys, evs), code) == x,
    decreases evs.len(),
{
    if evs.len() > 0 {
        let init = evs.drop_last();
        assert forall|i: int| 0 <= i < init.len() && touches_key(#[trigger] init[i], code) implies keys_after_input_event(x, init[i]) == x by {
            assert(init[i] == evs[i]);
        }
        lemma_events_keep(keys, init, code, x);
        lemma_code_part_event(keys_after_events(keys, init), evs.last(), code);
        if touches_key(evs.last(), code) {
            assert(evs.last() == evs[evs.len() - 1]);
        }
    }
}

proof fn lemma_one_event(keys: (Set<Key>, Set<Key>, Set<Key>), evs: Seq<InputEvent>, ev: InputEvent)
    ensures
        keys_after_events(keys, evs.push(ev)) == keys_after_input_event(keys_after_events(keys, evs), ev),
{
    assert(evs.push(ev).drop_last() =~= evs);
}

proof fn lemma_frames_step(keys: (Set<Key>, Set<Key>, Set<Key>), frames: Seq<Seq<InputEvent>>, i: int)
    requires
        0 <= i < frames.len(),
    ensures
        keys_after_frames(keys, frames.take(i + 1)) == keys_in_frame(keys_after_frames(keys, frames.take(i)), frames[i]),
{
    assert(frames.take(i + 1).drop_last() =~= frames.take(i));
}

proof fn lemma_only_presses_keep(evs: Seq<InputEvent>, key: Key, x: (Set<Key>, Set<Key>, Set<Key>))
    requires
        only_presses(evs, key),
        x == (Set::<Key>::empty().insert(key), Set::<Key>::empty(), Set::<Key>::empty())
            || x == (Set::<Key>::empty(), Set::<Key>::empty().insert(key), Set::<Key>::empty()),
    ensures
        forall|i: int| 0 <= i < evs.len() && touches_key(#[trigger] evs[i], key.key) ==> keys_after_input_event(x, evs[i]) == x,
{
    assert forall|i: int| 0 <= i < evs.len() && touches_key(#[trigger] evs[i], key.key) implies keys_after_input_event(x, evs[i]) == x by {
        if set_has(x.1, key.key) {
        } else {
            assert(x.0.insert(key) =~= x.0);
        }
    }
}

proof fn lemma_single_input(x: (Set<Key>, Set<Key>, Set<Key>), key: Key, which: int)
    requires
        0 <= which < 3,
        x == (
            if which == 0 { Set::<Key>::empty().insert(key) } else { Set::<Key>::empty() },
            if which == 1 { Set::<Key>::empty().insert(key) } else { Set::<Key>::empty() },
            if which == 2 { Set::<Key>::empty().insert(key) } else { Set::<Key>::empty() },
        ),
    ensures
        key_input(x, key.key) == (Input { pressed: which == 0, held: which == 1, released: which == 2 }),
{
    let one = Set::<Key>::empty().insert(key);
    assert(one.contains(key));
    assert(!set_has(Set::<Key>::empty(), key.key));
}

proof fn lemma_held_frames(n: (Set<Key>, Set<Key>, Set<Key>), key: Key, held: Seq<Seq<InputEvent>>, i: int)
    requires
        0 <= i <= held.len(),
        code_part(n, key.key) == (Set::<Key>::empty().insert(key), Set::<Key>::empty(), Set::<Key>::empty()),
        forall|f: int| 0 <= f < held.len() ==> only_presses(#[trigger] held[f], key),
    ensures
        i == 0 ==> code_part(keys_after_frames(n, held.take(i)), key.key) == (Set::<Key>::empty().insert(key), Set::<Key>::empty(), Set::<Key>::empty()),
        i > 0 ==> code_part(keys_after_frames(n, held.take(i)), key.key) == (Set::<Key>::empty(), Set::<Key>::empty().insert(key), Set::<Key>::empty()),
    decreases i,
{
    let one = Set::<Key>::empty().insert(key);
    let x3 = (Set::<Key>::empty(), one, Set::<Key>::empty());
    if i == 0 {
        assert(held.take(0) =~= Seq::<Seq<InputEvent>>::empty());
    } else {
        lemma_held_frames(n, key, held, i - 1);
        lemma_frames_step(n, held, i - 1);
        let before = keys_after_frames(n, held.take(i - 1));
        lemma_code_part_frame(before, key.key);
        assert(keys_at_frame_start(code_part(before, key.key)) =~= x3);
        assert(only_presses(held[i - 1], key));
        lemma_only_presses_keep(held[i - 1], key, x3);
        lemma_events_keep(keys_at_frame_start(before), held[i - 1], key.key, x3);
    }
}

/// A key's life over any schedule of frames. Take the keys `prev` that some frame left, in
/// which no key of `key`'s code is pressed or held. In the next frame, after events that
/// leave that code alone, `key` goes down, and then only `key` going down again happens to
/// that code: the frame sees it pressed. In each of the frames `held` that follow, where only
/// `key` going down happens to that code, it is seen held. In the next frame, after `key`
/// going down at most, `key` goes up and then nothing happens to that code: it is seen
/// released. In the frame after that, where nothing happens to that code, it is seen neither
/// pressed, held nor released. Events of other keys and of the mouse may come anywhere.
pub proof fn lemma_key_schedule(
    prev: (Set<Key>, Set<Key>, Set<Key>),
    key: Key,
    first_before: Seq<InputEvent>,
    first_after: Seq<InputEvent>,
    held: Seq<Seq<InputEvent>>,
    last_before: Seq<InputEvent>,
    last_after: Seq<InputEvent>,
    next: Seq<InputEvent>,
)
    requires
        !set_has(prev.0, key.key),
        !set_has(prev.1, key.key),
        avoids_key(first_before, key.key),
        only_presses(first_after, key),
        forall|f: int| 0 <= f < held.len() ==> only_presses(#[trigger] held[f], key),
        only_presses(last_before, key),
        avoids_key(last_after, key.key),
        avoids_key(next, key.key),
    ensures
        ({
            let down = InputEvent::Keyboard { key, released: false };
            let up = InputEvent::Keyboard { key, released: true };
            let first = keys_in_frame(prev, first_before.push(down) + first_after);
            let last = keys_in_frame(keys_after_frames(first, held), last_before.push(up) + last_after);
            &&& key_input(first, key.key) == (Input { pressed: true, held: false, released: false })
            &&& forall|f: int| 0 <= f < held.len() ==> key_input(
                #[trigger] keys_in_frame(keys_after_frames(first, held.take(f)), held[f]),
                key.key,
            ) == (Input { pressed: false, held: true, released: false })
            &&& key_input(last, key.key) == (Input { pressed: false, held: false, released: true })
            &&& key_input(keys_in_frame(last, next), key.key) == (Input { pressed: false, held: false, released: false })
        }),
{
    let code = key.key;
    let down = InputEvent::Keyboard { key, released: false };
    let up = InputEvent::Keyboard { key, released: true };
    let empty = Set::<Key>::empty();
    let one = empty.insert(key);
    let x1 = (empty, empty, empty);
    let x2 = (one, empty, empty);
    let x3 = (empty, one, empty);
    let x4 = (empty, empty, one);
    // the first frame
    lemma_has_filter(prev.0, code);
    lemma_has_filter(prev.1, code);
    let s0 = keys_at_frame_start(prev);
    lemma_code_part_frame(prev, code);
    assert(code_part(s0, code) =~= x1);
    lemma_events_keep(s0, first_before, code, x1);
    let s1 = keys_after_events(s0, first_before);
    lemma_one_event(s0, first_before, down);
    lemma_code_part_event(s1, down, code);
    assert(keys_after_input_event(x1, down) =~= x2);
    lemma_events_concat(s0, first_before.push(down), first_after);
    lemma_only_presses_keep(first_after, key, x2);
    lemma_events_keep(keys_after_events(s0, first_before.push(down)), first_after, code, x2);
    let first = keys_in_frame(prev, first_before.push(down) + first_after);
    lemma_code_part_input(first, code);
    lemma_single_input(x2, key, 0);
    // the frames in which the key is held
    assert forall|f: int| 0 <= f < held.len() implies key_input(
        #[trigger] keys_in_frame(keys_after_frames(first, held.take(f)), held[f]),
        code,
    ) == (Input { pressed: false, held: true, released: false }) by {
        lemma_held_frames(first, key, held, f + 1);
        lemma_frames_step(first, held, f);
        lemma_code_part_input(keys_in_frame(keys_after_frames(first, held.take(f)), held[f]), code);
        lemma_single_input(x3, key, 1);
    }
    // the frame in which it goes up
    lemma_held_frames(first, key, held, held.len() as int);
    assert(held.take(held.len() as int) =~= held);
    let h = keys_after_frames(first, held);
    let t0 = keys_at_frame_start(h);
    lemma_code_part_frame(h, code);
    assert(code_part(t0, code) =~= x3);
    lemma_only_presses_keep(last_before, key, x3);
    lemma_events_keep(t0, last_before, code, x3);
    let t1 = keys_after_events(t0, last_before);
    lemma_one_event(t0, last_before, up);
    lemma_code_part_event(t1, up, code);
    assert(keys_after_input_event(x3, up) =~= x4);
    lemma_events_concat(t0, last_before.push(up), last_after);
    lemma_events_keep(keys_after_events(t0, last_before.push(up)), last_after, code, x4);
    let last = keys_in_frame(h, last_before.push(up) + last_after);
    lemma_code_part_input(last, code);
    lemma_single_input(x4, key, 2);
    // the frame after
    let u0 = keys_at_frame_start(last);
    lemma_code_part_frame(last, code);
    assert(code_part(u0, code) =~= x1);
    lemma_events_keep(u0, next, code, x1);
    lemma_code_part_input(keys_in_frame(last, next), code);
    assert(!set_has(empty, code));
}

/// The state of button `idx` (see [`button_index`]) after one window event: a click of that
/// button acts as [`button_clicked`] says, every other event leaves it alone.
pub open spec fn button_after_input_event(b: Input, ev: InputEvent, idx: int) -> Input {
    match ev {
        InputEvent::MouseClick(btn, pressed) => if button_index(btn) == idx {
            button_clicked(b, pressed)
        } else {
            b
        },
        _ => b,
    }
}

/// The state of button `idx` after the events `evs`, in order.
pub open spec fn button_after_events(b: Input, evs: Seq<InputEvent>, idx: int) -> Input
    decreases evs.len(),
{
    if evs.len() == 0 {
        b
    } else {
        button_after_input_event(button_after_events(b, evs.drop_last(), idx), evs.last(), idx)
    }
}

/// The state of button `idx` that a frame sees: the frame starts from the state `prev` that
/// the frame before it left, and then its events `evs` arrive.
pub open spec fn button_in_frame(prev: Input, evs: Seq<InputEvent>, idx: int) -> Input {
    button_after_events(button_next_frame(prev), evs, idx)
}

/// The state of button `idx` left after the frames `frames`, starting from `b`.
pub open spec fn button_after_frames(b: Input, frames: Seq<Seq<InputEvent>>, idx: int) -> Input
    decreases frames.len(),
{
    if frames.len() == 0 {
        b
    } else {
        button_in_frame(button_after_frames(b, frames.drop_last(), idx), frames.last(), idx)
    }
}

/// Whether none of `evs` is a click of button `idx`.
pub open spec fn avoids_button(evs: Seq<InputEvent>, idx: int) -> bool {
    forall|i: int| 0 <= i < evs.len() ==> !(#[trigger] evs[i] matches InputEvent::MouseClick(btn, _) && button_index(btn) == idx)
}

proof fn lemma_button_events_keep(b: Input, evs: Seq<InputEvent>, idx: int)
    requires
        avoids_button(evs, idx),
    ensures
        button_after_events(b, evs, idx) == b,
    decreases evs.len(),
{
    if evs.len() > 0 {
        let init = evs.drop_last();
        assert forall|i: int| 0 <= i < init.len() implies !(#[trigger] init[i] matches InputEvent::MouseClick(btn, _) && button_index(btn) == idx) by {
            assert(init[i] == evs[i]);
        }
        lemma_button_events_keep(b, init, idx);
        assert(evs.last() == evs[evs.len() - 1]);
    }
}

proof fn lemma_button_frame_events(b: Input, before: Seq<InputEvent>, ev: InputEvent, after: Seq<InputEvent>, idx: int)
    requires
        avoids_button(before, idx),
        avoids_button(after, idx),
    ensures
        button_after_events(b, before.push(ev) + after, idx) == button_after_input_event(b, ev, idx),
    decreases after.len(),
{
    if after.len() == 0 {
        assert(before.push(ev) + after =~= before.push(ev));
        assert(before.push(ev).drop_last() =~= before);
        lemma_button_events_keep(b, before, idx);
    } else {
        let init = after.drop_last();
        assert forall|i: int| 0 <= i < init.len() implies !(#[trigger] init[i] matches InputEvent::MouseClick(btn, _) && button_index(btn) == idx) by {
            assert(init[i] == after[i]);
        }
        lemma_button_frame_events(b, before, ev, init, idx);
        assert((before.push(ev) + after).drop_last() =~= before.push(ev) + init);
        assert((before.push(ev) + after).last() == after[after.len() - 1]);
    }
}

proof fn lemma_button_held_frames(first: Input, held: Seq<Seq<InputEvent>>, idx: int, i: int)
    requires
        0 <= i <= held.len(),
        first == (Input { pressed: true, held: false, released: false }),
        forall|f: int| 0 <= f < held.len() ==> avoids_button(#[trigger] held[f], idx),
    ensures
        i > 0 ==> button_after_frames(first, held.take(i), idx) == (Input { pressed: false, held: true, released: false }),
        i == 0 ==> button_after_frames(first, held.take(i), idx) == first,
    decreases i,
{
    if i == 0 {
        assert(held.take(0) =~= Seq::<Seq<InputEvent>>::empty());
    } else {
        lemma_button_held_frames(first, held, idx, i - 1);
        assert(held.take(i).drop_last() =~= held.take(i - 1));
        assert(avoids_button(held[i - 1], idx));
        lemma_button_events_keep(button_next_frame(button_after_frames(first, held.take(i - 1), idx)), held[i - 1], idx);
    }
}

/// A mouse button's life over any schedule of frames. Take the state `prev` of button `btn`
/// that some frame left, neither pressed nor held. In the next frame the button goes down, and
/// it is seen pressed. In each of the frames `held` that follow, without a click of it, it is
/// seen held. In the next frame it goes up, and it is seen released. In the frame after that,
/// without a click of it, it is seen neither pressed, held nor released. Other events may come
/// anywhere.
pub proof fn lemma_button_schedule(
    prev: Input,
    btn: MouseBtn,
    first_before: Seq<InputEvent>,
    first_after: Seq<InputEvent>,
    held: Seq<Seq<InputEvent>>,
    last_before: Seq<InputEvent>,
    last_after: Seq<InputEvent>,
    next: Seq<InputEvent>,
)
    requires
        !prev.pressed,
        !prev.held,
        avoids_button(first_before, button_index(btn)),
        avoids_button(first_after, button_index(btn)),
        forall|f: int| 0 <= f < held.len() ==> avoids_button(#[trigger] held[f], button_index(btn)),
        avoids_button(last_before, button_index(btn)),
        avoids_button(last_after, button_index(btn)),
        avoids_button(next, button_index(btn)),
    ensures
        ({
            let idx = button_index(btn);
            let first = button_in_frame(prev, first_before.push(InputEvent::MouseClick(btn, true)) + first_after, idx);
            let last = button_in_frame(
                button_after_frames(first, held, idx),
                last_before.push(InputEvent::MouseClick(btn, false)) + last_after,
                idx,
            );
            &&& first == (Input { pressed: true, held: false, released: false })
            &&& forall|f: int| 0 <= f < held.len() ==> #[trigger] button_in_frame(
                button_after_frames(first, held.take(f), idx),
                held[f],
                idx,
            ) == (Input { pressed: false, held: true, released: false })
            &&& last == (Input { pressed: false, held: false, released: true })
            &&& button_in_frame(last, next, idx) == (Input { pressed: false, held: false, released: false })
        }),
{
    let idx = button_index(btn);
    lemma_button_frame_events(button_next_frame(prev), first_before, InputEvent::MouseClick(btn, true), first_after, idx);
    let first = button_in_frame(prev, first_before.push(InputEvent::MouseClick(btn, true)) + first_after, idx);
    assert forall|f: int| 0 <= f < held.len() implies #[trigger] button_in_frame(
        button_after_frames(first, held.take(f), idx),
        held[f],
        idx,
    ) == (Input { pressed: false, held: true, released: false }) by {
        lemma_button_held_frames(first, held, idx, f + 1);
        assert(held.take(f + 1).drop_last() =~= held.take(f));
    }
    lemma_button_held_frames(first, held, idx, held.len() as int);
    assert(held.take(held.len() as int) =~= held);
    let h = button_after_frames(first, held, idx);
    lemma_button_frame_events(button_next_frame(h), last_before, InputEvent::MouseClick(btn, false), last_after, idx);
    let last = button_in_frame(h, last_before.push(InputEvent::MouseClick(btn, false)) + last_after, idx);
    lemma_button_events_keep(button_next_frame(last), next, idx);
}

impl InputState {
    /// No key down, the mouse at `(0, 0)` with no button down.
    pub fn new() -> (s: Self)
        ensures
            s.wf(),
            s.pressed() == Set::<Key>::empty(),
            s.held() == Set::<Key>::empty(),
            s.released() == Set::<Key>::empty(),
            forall|i: int| 0 <= i < 3 ==> #[trigger] s.mouse().buttons[i] == (Input {
                pressed: false,
                held: false,
                released: false,
            }),
            s.mouse().pos == (0u32, 0u32),
            s.mouse().wheel == MouseWheel::Still,
    {
        let s = InputState {
            k_pressed: Vec::new(),
            k_held: Vec::new(),
            k_released: Vec::new(),
            mouse: Mouse::new(),
        };
        proof {
            assert(s.pressed() =~= Set::<Key>::empty());
            assert(s.held() =~= Set::<Key>::empty());
            assert(s.released() =~= Set::<Key>::empty());
        }
        s
    }

    /// Start a new frame: keys pressed during the last frame are now held, nothing is
    /// pressed or released any more, mouse presses become holds and the wheel is still.
    pub fn begin_frame(&mut self)
        requires
            old(self).wf(),
        ensures
            final(self).wf(),
            final(self).pressed() == Set::<Key>::empty(),
            final(self).held() == old(self).held().union(old(self).pressed()),
            final(self).released() == Set::<Key>::empty(),
            final(self).keys() == keys_at_frame_start(old(self).keys()),
            forall|i: int| 0 <= i < 3 ==> #[trigger] final(self).mouse().buttons[i]
                == button_next_frame(old(self).mouse().buttons[i]),
            final(self).mouse().pos == old(self).mouse().pos,
            final(self).mouse().wheel == MouseWheel::Still,
    {
        let mut i: usize = 0;
        while i < self.k_pressed.len()
            invariant
                i <= self.k_pressed@.len(),
                self.k_pressed@ == old(self).k_pressed@,
                self.k_released@ == old(self).k_released@,
                self.mouse == old(self).mouse,
                no_dup(self.k_held@),
                self.k_held@.to_set() == old(self).held().union(self.k_pressed@.take(i as int).to_set()),
            decreases self.k_pressed@.len() - i,
        {
            let k = self.k_pressed[i];
            insert_key(&mut self.k_held, k);
            proof {
                assert(self.k_pressed@.take(i + 1) =~= self.k_pressed@.take(i as int).push(k));
                self.k_pressed@.take(i as int).lemma_push_to_set_commute(k);
                assert(self.k_held@.to_set() =~= old(self).held().union(
                    self.k_pressed@.take(i + 1).to_set(),
                ));
            }
            i = i + 1;
        }
        proof {
            assert(self.k_pressed@.take(self.k_pressed@.len() as int) =~= self.k_pressed@);
        }
        self.k_pressed.clear();
        self.k_released.clear();
        let ghost held_now = self.k_held@;
        let mut b: usize = 0;
        while b < 3
            invariant
                b <= 3,
                self.k_held@ == held_now,
                self.k_pressed@ == Seq::<Key>::empty(),
                self.k_released@ == Seq::<Key>::empty(),
                forall|j: int| 0 <= j < b ==> #[trigger] self.mouse.buttons[j]
                    == button_next_frame(old(self).mouse.buttons[j]),
                forall|j: int| b <= j < 3 ==> #[trigger] self.mouse.buttons[j]
                    == old(self).mouse.buttons[j],
                self.mouse.pos == old(self).mouse.pos,
            decreases 3 - b,
        {
            if self.mouse.buttons[b].released {
                self.mouse.buttons[b].released = false;
            }
            if self.mouse.buttons[b].pressed {
                self.mouse.buttons[b].pressed = false;
                self.mouse.buttons[b].held = true;
            }
            b = b + 1;
        }
        self.mouse.wheel = MouseWheel::Still;
        proof {
            assert(self.pressed() =~= Set::<Key>::empty());
            assert(self.released() =~= Set::<Key>::empty());
            assert(no_dup(self.k_pressed@));
            assert(no_dup(self.k_released@));
        }
    }

    /// A key went down (`released` false) or up. A key that goes up is no longer pressed
    /// or held and is released; a key that goes down is pressed unless a key with its key
    /// code is held.
    pub fn key_event(&mut self, key: Key, released: bool)
        requires
            old(self).wf(),
        ensures
            final(self).wf(),
            final(self).mouse() == old(self).mouse(),
            final(self).keys() == keys_after_key_event(old(self).keys(), key, released),
            if released {
                &&& final(self).pressed() == old(self).pressed().remove(key)
                &&& final(self).held() == old(self).held().remove(key)
                &&& final(self).released() == old(self).released().insert(key)
            } else {
                &&& final(self).pressed() == if set_has(old(self).held(), key.key) {
                    old(self).pressed()
                } else {
                    old(self).pressed().insert(key)
                }
                &&& final(self).held() == old(self).held()
                &&& final(self).released() == old(self).released()
            },
    {
        if released {
            remove_key(&mut self.k_pressed, key);
            remove_key(&mut self.k_held, key);
            insert_key(&mut self.k_released, key);
            proof {
                assert forall|code: Keycodes| !(#[trigger] set_has(self.pressed(), code)
                    && set_has(self.held(), code)) by {
                    if set_has(self.pressed(), code) && set_has(self.held(), code) {
                        let a = choose|k: Key| #[trigger] self.pressed().contains(k) && k.key == code;
                        let b = choose|k: Key| #[trigger] self.held().contains(k) && k.key == code;
                        assert(old(self).pressed().contains(a));
                        assert(old(self).held().contains(b));
                        assert(set_has(old(self).pressed(), code));
                        assert(set_has(old(self).held(), code));
                    }
                }
            }
        } else {
            let is_held = self.k_held.has(key.key);
            proof {
                lemma_has_set(self.k_held@, key.key);
            }
            if !is_held {
                insert_key(&mut self.k_pressed, key);
                proof {
                    assert forall|code: Keycodes| !(#[trigger] set_has(self.pressed(), code)
                        && set_has(self.held(), code)) by {
                        if set_has(self.pressed(), code) && set_has(self.held(), code) {
                            let a = choose|k: Key| #[trigger] self.pressed().contains(k) && k.key == code;
                            if a != key {
                                assert(old(self).pressed().contains(a));
                                assert(set_has(old(self).pressed(), code));
                            } else {
                                assert(self.held() == old(self).held());
                                assert(!set_has(old(self).held(), key.key));
                            }
                        }
                    }
                }
            }
        }
    }

    proof fn lemma_keys_unchanged(&self, other: &Self)
        requires
            other.wf(),
            self.k_pressed == other.k_pressed,
            self.k_held == other.k_held,
            self.k_released == other.k_released,
        ensures
            self.wf(),
    {
        assert(self.pressed() == other.pressed());
        assert(self.held() == other.held());
        assert forall|code: Keycodes| !(#[trigger] set_has(self.pressed(), code) && set_has(self.held(), code)) by {
            assert(!(set_has(other.pressed(), code) && set_has(other.held(), code)));
        }
    }

    /// Take one window event into account. Returns whether the window was asked to close.
    pub fn handle_event(&mut self, event: InputEvent) -> (close: bool)
        requires
            old(self).wf(),
        ensures
            final(self).wf(),
            close == (event is Close),
            final(self).keys() == keys_after_input_event(old(self).keys(), event),
            forall|i: int| 0 <= i < 3 ==> #[trigger] final(self).mouse().buttons[i]
                == button_after_input_event(old(self).mouse().buttons[i], event, i),
            match event {
                InputEvent::Keyboard { key, released } => {
                    &&& final(self).mouse() == old(self).mouse()
                    &&& final(self).keys() == keys_after_key_event(old(self).keys(), key, released)
                    &&& if released {
                        &&& final(self).pressed() == old(self).pressed().remove(key)
                        &&& final(self).held() == old(self).held().remove(key)
                        &&& final(self).released() == old(self).released().insert(key)
                    } else {
                        &&& final(self).pressed() == if set_has(old(self).held(), key.key) {
                            old(self).pressed()
                        } else {
                            old(self).pressed().insert(key)
                        }
                        &&& final(self).held() == old(self).held()
                        &&& final(self).released() == old(self).released()
                    }
                },
                InputEvent::Close => *final(self) == *old(self),
                InputEvent::MouseMove(x, y) => {
                    &&& final(self).pressed() == old(self).pressed()
                    &&& final(self).held() == old(self).held()
                    &&& final(self).released() == old(self).released()
                    &&& final(self).mouse() == (Mouse { pos: (x, y), ..old(self).mouse() })
                },
                InputEvent::MouseWheel(dir) => {
                    &&& final(self).pressed() == old(self).pressed()
                    &&& final(self).held() == old(self).held()
                    &&& final(self).released() == old(self).released()
                    &&& final(self).mouse() == (Mouse { wheel: dir, ..old(self).mouse() })
                },
                InputEvent::MouseClick(btn, pressed) => {
                    &&& final(self).pressed() == old(self).pressed()
                    &&& final(self).held() == old(self).held()
                    &&& final(self).released() == old(self).released()
                    &&& final(self).mouse().pos == old(self).mouse().pos
                    &&& final(self).mouse().wheel == old(self).mouse().wheel
                    &&& forall|i: int| 0 <= i < 3 ==> #[trigger] final(self).mouse().buttons[i]
                        == if i == button_index(btn) {
                        button_clicked(old(self).mouse().buttons[i], pressed)
                    } else {
                        old(self).mouse().buttons[i]
                    }
                },
            },
    {
        match event {
            InputEvent::Keyboard { key, released } => {
                self.key_event(key, released);
                false
            },
            InputEvent::Close => true,
            InputEvent::MouseMove(x, y) => {
                self.mouse.pos = (x, y);
                proof {
                    self.lemma_keys_unchanged(old(self));
                }
                false
            },
            InputEvent::MouseWheel(dir) => {
                self.mouse.wheel = dir;
                proof {
                    self.lemma_keys_unchanged(old(self));
                }
                false
            },
            InputEvent::MouseClick(btn, pressed) => {
                let i = button_slot(btn);
                if pressed {
                    self.mouse.buttons[i].pressed = true;
                } else {
                    self.mouse.buttons[i].released = true;
                    self.mouse.buttons[i].held = false;
                }
                proof {
                    self.lemma_keys_unchanged(old(self));
                }
                false
            },
        }
    }

    /// The state of the keys with key code `keycode`, whatever their modifiers.
    pub fn get_key(&self, keycode: Keycodes) -> (i: Input)
        requires
            self.wf(),
        ensures
            i == key_input(self.keys(), keycode),
            i == (Input {
                pressed: set_has(self.pressed(), keycode),
                held: set_has(self.held(), keycode),
                released: set_has(self.released(), keycode),
            }),
    {
        proof {
            lemma_has_set(self.k_pressed@, keycode);
            lemma_has_set(self.k_held@, keycode);
            lemma_has_set(self.k_released@, keycode);
        }
        Input::new(self.k_pressed.has(keycode), self.k_held.has(keycode), self.k_released.has(keycode))
    }

    /// The state of a mouse button.
    pub fn get_mouse_btn(&self, btn: MouseBtn) -> (i: Input)
        ensures
            i == self.mouse().buttons[button_index(btn)],
    {
        self.mouse.buttons[button_slot(btn)]
    }

    /// The mouse position, in screen pixels.
    pub fn get_mouse_location(&self) -> (p: (u32, u32))
        ensures
            p == self.mouse().pos,
    {
        self.mouse.pos
    }

    /// The wheel movement during this frame.
    pub fn get_mouse_wheel(&self) -> (w: MouseWheel)
        ensures
            w == self.mouse().wheel,
    {
        self.mouse.wheel
    }
}

/// Whether the engine goes on after a frame: the frame function returned `Ok(true)`
/// (`ok` and `keep_going`) and the window was not asked to close.
pub fn keep_running(ok: bool, keep_going: bool, close_requested: bool) -> (b: bool)
    ensures
        b == (ok && keep_going && !close_requested),
{
    ok && keep_going && !close_requested
}

/// No key code is ever both pressed and held: whatever happened, the state of a key never
/// reports both.
pub proof fn lemma_never_pressed_and_held(s: &InputState, code: Keycodes)
    requires
        s.wf(),
    ensures
        !(set_has(s.pressed(), code) && set_has(s.held(), code)),
{
}

} // verus!
