use noita_demo::touch::{
    bind_joystick, classify_release, move_brush, release_touch, setup_touch_controls, touch_to_game_input, update_brush_area,
    update_virtual_buttons, ButtonAction, GameKey, InputAction, MouseKey, Tilt, TouchBrushArea, TouchControls,
    TouchGesture, TouchSample, VirtualJoystick,
};

fn sample(id: u64, just_pressed: bool, in_buttons: Vec<bool>, in_brush: bool) -> TouchSample {
    TouchSample { id, pressed: true, just_pressed, in_buttons, in_brush }
}

fn ready() -> TouchControls {
    let mut controls = TouchControls::default();
    setup_touch_controls(&mut controls);
    controls
}

#[test]
fn controls_start_off_and_setup_turns_them_on() {
    let controls = TouchControls::default();
    assert!(!controls.enabled);
    assert!(controls.virtual_joystick.is_none() && controls.brush_area.is_none());
    assert!(controls.action_buttons.is_empty());
    let controls = ready();
    assert!(controls.enabled);
    assert_eq!(controls.virtual_joystick, Some(VirtualJoystick { current_touch: None }));
    let ids: Vec<&str> = controls.action_buttons.iter().map(|b| b.id).collect();
    assert_eq!(ids, vec!["jump", "spell", "brush"]);
    assert_eq!(controls.action_buttons[1].action, ButtonAction::CastSpell);
    assert!(controls.action_buttons.iter().all(|b| !b.pressed && b.current_touch.is_none()));
    assert_eq!(controls.brush_area, Some(TouchBrushArea { current_touch: None, active: false }));
}

#[test]
fn toggling_switches_the_controls() {
    let mut controls = ready();
    controls.toggle();
    assert!(!controls.enabled);
    controls.toggle();
    assert!(controls.enabled);
}

#[test]
fn a_new_touch_takes_the_free_button_under_it() {
    let mut controls = ready();
    let touches = vec![sample(5, true, vec![false, true, false], false)];
    update_virtual_buttons(&mut controls.action_buttons, &touches);
    assert_eq!(controls.action_buttons[1].current_touch, Some(5));
    assert!(controls.action_buttons[1].pressed);
    assert!(controls.action_buttons[0].current_touch.is_none());
    // A second touch on the same button cannot take it.
    let touches = vec![sample(6, true, vec![false, true, false], false)];
    update_virtual_buttons(&mut controls.action_buttons, &touches);
    assert_eq!(controls.action_buttons[1].current_touch, Some(5));
}

#[test]
fn a_held_touch_keeps_its_button_pressed() {
    let mut controls = ready();
    update_virtual_buttons(&mut controls.action_buttons, &vec![sample(2, true, vec![true, false, false], false)]);
    let held = TouchSample { id: 2, pressed: false, just_pressed: false, in_buttons: vec![false, false, false], in_brush: false };
    update_virtual_buttons(&mut controls.action_buttons, &vec![held]);
    assert_eq!(controls.action_buttons[0].current_touch, Some(2));
    assert!(!controls.action_buttons[0].pressed);
}

#[test]
fn the_brush_area_follows_its_touch() {
    let mut controls = ready();
    let follow = update_brush_area(&mut controls, &vec![sample(1, false, vec![false; 3], true), sample(3, true, vec![false; 3], true)]);
    assert_eq!(follow, Some(3));
    assert_eq!(controls.brush_area, Some(TouchBrushArea { current_touch: Some(3), active: true }));
    assert!(move_brush(&mut controls, 3, true));
    assert!(!move_brush(&mut controls, 3, false));
    assert!(!move_brush(&mut controls, 4, true));
    let mut off = TouchControls::default();
    assert_eq!(update_brush_area(&mut off, &vec![sample(1, true, vec![], true)]), None);
}

#[test]
fn lifting_a_touch_frees_what_it_held() {
    let mut controls = ready();
    controls.virtual_joystick = Some(VirtualJoystick { current_touch: Some(8) });
    update_virtual_buttons(&mut controls.action_buttons, &vec![sample(8, true, vec![true, false, true], false)]);
    update_brush_area(&mut controls, &vec![sample(8, true, vec![false; 3], true)]);
    assert!(release_touch(&mut controls, 8));
    assert_eq!(controls.virtual_joystick, Some(VirtualJoystick { current_touch: None }));
    assert!(controls.action_buttons.iter().all(|b| b.current_touch.is_none() && !b.pressed));
    assert_eq!(controls.brush_area, Some(TouchBrushArea { current_touch: None, active: false }));
    assert!(!release_touch(&mut controls, 8));
}

#[test]
fn releases_are_classified() {
    assert_eq!(classify_release(true, true, true, Tilt::Neutral), Some(TouchGesture::Tap));
    assert_eq!(classify_release(false, true, true, Tilt::Positive), Some(TouchGesture::Swipe { tilt: Tilt::Positive }));
    assert_eq!(classify_release(false, false, true, Tilt::Neutral), Some(TouchGesture::LongPress));
    assert_eq!(classify_release(false, false, false, Tilt::Neutral), None);
}

#[test]
fn disabled_controls_produce_nothing() {
    let controls = TouchControls::default();
    assert_eq!(touch_to_game_input(&controls, (Tilt::Positive, Tilt::Positive), &vec![TouchGesture::DoubleTap]), None);
}

#[test]
fn touch_state_becomes_keys_and_mouse() {
    let mut controls = ready();
    controls.action_buttons[0].pressed = true;
    controls.action_buttons[1].pressed = true;
    controls.brush_area = Some(TouchBrushArea { current_touch: Some(1), active: true });
    let gestures = vec![
        TouchGesture::Tap,
        TouchGesture::DoubleTap,
        TouchGesture::Swipe { tilt: Tilt::Negative },
        TouchGesture::Swipe { tilt: Tilt::Neutral },
        TouchGesture::LongPress,
    ];
    let actions = touch_to_game_input(&controls, (Tilt::Positive, Tilt::Negative), &gestures).unwrap();
    assert_eq!(
        actions,
        vec![
            InputAction::ReleaseKey(GameKey::A),
            InputAction::ReleaseKey(GameKey::D),
            InputAction::ReleaseKey(GameKey::W),
            InputAction::ReleaseKey(GameKey::S),
            InputAction::PressKey(GameKey::D),
            InputAction::PressKey(GameKey::S),
            InputAction::PressKey(GameKey::Space),
            InputAction::PressMouse(MouseKey::Right),
            InputAction::MoveCursorToBrush,
            InputAction::PressMouse(MouseKey::Left),
            InputAction::PressKey(GameKey::F1),
            InputAction::PressKey(GameKey::Digit1),
            InputAction::PressKey(GameKey::Escape),
        ]
    );
}

#[test]
fn idle_brush_lets_the_mouse_go() {
    let mut controls = ready();
    controls.virtual_joystick = None;
    let actions = touch_to_game_input(&controls, (Tilt::Neutral, Tilt::Neutral), &vec![]).unwrap();
    assert_eq!(actions, vec![InputAction::ReleaseMouse(MouseKey::Left)]);
}

#[test]
fn a_touch_on_the_free_joystick_steers_it() {
    let mut controls = ready();
    assert!(!bind_joystick(&mut controls, 3, false));
    assert_eq!(controls.virtual_joystick, Some(VirtualJoystick { current_touch: None }));
    assert!(bind_joystick(&mut controls, 3, true));
    assert_eq!(controls.virtual_joystick, Some(VirtualJoystick { current_touch: Some(3) }));
    // A second touch cannot take it while the first holds it.
    assert!(!bind_joystick(&mut controls, 4, true));
    assert_eq!(controls.virtual_joystick, Some(VirtualJoystick { current_touch: Some(3) }));
    // Tilted right, the held stick presses D.
    let actions = touch_to_game_input(&controls, (Tilt::Positive, Tilt::Neutral), &vec![]).unwrap();
    assert!(actions.contains(&InputAction::PressKey(GameKey::D)));
    assert!(release_touch(&mut controls, 3));
    assert!(bind_joystick(&mut controls, 4, true));
}

#[test]
fn no_joystick_no_binding() {
    let mut controls = TouchControls::default();
    assert!(!bind_joystick(&mut controls, 1, true));
    assert_eq!(controls.virtual_joystick, None);
}
