use pixel_engine::inputs::{
    keep_running, Input, InputEvent, InputState, Key, KeySet, Keycodes, Mouse, MouseBtn, MouseWheel,
};

fn key(code: Keycodes) -> Key {
    Key { modifier: [false; 4], key: code }
}

fn none() -> Input {
    Input::new(false, false, false)
}

#[test]
fn input_basics() {
    assert!(!Input::default().any());
    assert!(Input::new(false, true, false).any());
    assert!(Input::new(false, false, true).any());
    let m = Mouse::new();
    assert_eq!(m.pos, (0, 0));
    assert_eq!(m.wheel, MouseWheel::Still);
    assert!(m.buttons.iter().all(|b| !b.any()));
}

#[test]
fn key_text() {
    assert_eq!(key(Keycodes::A).get_str(), "a");
    assert_eq!(key(Keycodes::Z).get_str(), "z");
    assert_eq!(key(Keycodes::Key1).get_str(), "1");
    assert_eq!(key(Keycodes::Numpad0).get_str(), "0");
    assert_eq!(key(Keycodes::Space).get_str(), " ");
    assert_eq!(key(Keycodes::Escape).get_str(), "");
    assert_eq!(key(Keycodes::Q).get_str_option(), Some("q".to_string()));
    assert_eq!(key(Keycodes::Escape).get_str_option(), None);
    let shifted = Key { modifier: [true, false, false, false], key: Keycodes::B };
    assert_eq!(shifted.get_str(), "b");
}

#[test]
fn key_sets_ignore_modifiers() {
    let keys = vec![Key { modifier: [false, true, false, false], key: Keycodes::C }];
    assert!(keys.has(Keycodes::C));
    assert!(!keys.has(Keycodes::D));
    assert_eq!(key(Keycodes::C), key(Keycodes::C));
    assert_ne!(key(Keycodes::C), keys[0]);
}

#[test]
fn key_goes_pressed_held_released() {
    let mut s = InputState::new();
    assert!(!s.handle_event(InputEvent::Keyboard { key: key(Keycodes::W), released: false }));
    assert_eq!(s.get_key(Keycodes::W), Input::new(true, false, false));
    s.begin_frame();
    assert_eq!(s.get_key(Keycodes::W), Input::new(false, true, false));
    s.handle_event(InputEvent::Keyboard { key: key(Keycodes::W), released: false });
    assert_eq!(s.get_key(Keycodes::W), Input::new(false, true, false));
    s.handle_event(InputEvent::Keyboard { key: key(Keycodes::W), released: true });
    assert_eq!(s.get_key(Keycodes::W), Input::new(false, false, true));
    s.begin_frame();
    assert_eq!(s.get_key(Keycodes::W), none());
}

#[test]
fn key_pressed_and_released_in_one_frame() {
    let mut s = InputState::new();
    s.handle_event(InputEvent::Keyboard { key: key(Keycodes::A), released: false });
    s.handle_event(InputEvent::Keyboard { key: key(Keycodes::A), released: true });
    assert_eq!(s.get_key(Keycodes::A), Input::new(false, false, true));
    assert_eq!(s.get_key(Keycodes::B), none());
}

#[test]
fn never_pressed_and_held() {
    let mut s = InputState::new();
    let shift_a = Key { modifier: [true, false, false, false], key: Keycodes::A };
    s.handle_event(InputEvent::Keyboard { key: key(Keycodes::A), released: false });
    s.begin_frame();
    s.handle_event(InputEvent::Keyboard { key: shift_a, released: false });
    let k = s.get_key(Keycodes::A);
    assert!(!(k.pressed && k.held));
    assert!(k.held);
}

#[test]
fn mouse_events() {
    let mut s = InputState::new();
    s.handle_event(InputEvent::MouseMove(12, 7));
    assert_eq!(s.get_mouse_location(), (12, 7));
    s.handle_event(InputEvent::MouseWheel(MouseWheel::Up));
    assert_eq!(s.get_mouse_wheel(), MouseWheel::Up);
    s.handle_event(InputEvent::MouseClick(MouseBtn::Right, true));
    assert_eq!(s.get_mouse_btn(MouseBtn::Right), Input::new(true, false, false));
    assert_eq!(s.get_mouse_btn(MouseBtn::Left), none());
    s.begin_frame();
    assert_eq!(s.get_mouse_btn(MouseBtn::Right), Input::new(false, true, false));
    assert_eq!(s.get_mouse_wheel(), MouseWheel::Still);
    assert_eq!(s.get_mouse_location(), (12, 7));
    s.handle_event(InputEvent::MouseClick(MouseBtn::Right, false));
    assert_eq!(s.get_mouse_btn(MouseBtn::Right), Input::new(false, false, true));
    s.begin_frame();
    assert_eq!(s.get_mouse_btn(MouseBtn::Right), none());
}

#[test]
fn close_event() {
    let mut s = InputState::new();
    assert!(s.handle_event(InputEvent::Close));
    assert!(!s.handle_event(InputEvent::MouseMove(1, 1)));
    assert!(keep_running(true, true, false));
    assert!(!keep_running(true, false, false));
    assert!(!keep_running(false, true, false));
    assert!(!keep_running(true, true, true));
}

#[test]
fn other_keys_leave_a_key_alone() {
    let mut s = InputState::new();
    s.handle_event(InputEvent::Keyboard { key: key(Keycodes::W), released: false });
    s.handle_event(InputEvent::Keyboard { key: key(Keycodes::S), released: false });
    s.handle_event(InputEvent::Keyboard { key: key(Keycodes::D), released: true });
    assert_eq!(s.get_key(Keycodes::W), Input::new(true, false, false));
    s.begin_frame();
    s.handle_event(InputEvent::Keyboard { key: key(Keycodes::S), released: true });
    s.handle_event(InputEvent::Keyboard { key: key(Keycodes::A), released: false });
    assert_eq!(s.get_key(Keycodes::W), Input::new(false, true, false));
    s.begin_frame();
    s.begin_frame();
    assert_eq!(s.get_key(Keycodes::W), Input::new(false, true, false));
    assert_eq!(s.get_key(Keycodes::S), none());
    assert_eq!(s.get_key(Keycodes::A), Input::new(false, true, false));
}

#[test]
fn key_and_button_over_many_frames() {
    let mut s = InputState::new();
    let w = InputEvent::Keyboard { key: key(Keycodes::W), released: false };
    let w_up = InputEvent::Keyboard { key: key(Keycodes::W), released: true };
    let other = InputEvent::Keyboard { key: key(Keycodes::Q), released: false };
    let left = InputEvent::MouseClick(MouseBtn::Left, true);
    let left_up = InputEvent::MouseClick(MouseBtn::Left, false);
    let right = InputEvent::MouseClick(MouseBtn::Right, true);
    s.begin_frame();
    for ev in [other, w, InputEvent::MouseMove(3, 4), left, w] {
        s.handle_event(ev);
    }
    assert_eq!(s.get_key(Keycodes::W), Input::new(true, false, false));
    assert_eq!(s.get_mouse_btn(MouseBtn::Left), Input::new(true, false, false));
    for frame in 0..5 {
        s.begin_frame();
        if frame % 2 == 0 {
            s.handle_event(w);
            s.handle_event(right);
            s.handle_event(InputEvent::Keyboard { key: key(Keycodes::Q), released: true });
        }
        assert_eq!(s.get_key(Keycodes::W), Input::new(false, true, false));
        assert_eq!(s.get_mouse_btn(MouseBtn::Left), Input::new(false, true, false));
    }
    s.begin_frame();
    for ev in [w, w_up, other, left_up, right] {
        s.handle_event(ev);
    }
    assert_eq!(s.get_key(Keycodes::W), Input::new(false, false, true));
    assert_eq!(s.get_mouse_btn(MouseBtn::Left), Input::new(false, false, true));
    s.begin_frame();
    s.handle_event(other);
    assert_eq!(s.get_key(Keycodes::W), none());
    assert_eq!(s.get_mouse_btn(MouseBtn::Left), none());
}
