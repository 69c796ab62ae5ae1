use slmsttaa::input::{
    is_paste, is_shortcut, Event, Input, Key, KeyEvent, Modifiers, MouseButton, OrbitInput, Platform,
};

fn plain() -> Modifiers {
    Modifiers { shift: false, ctrl: false, alt: false, logo: false }
}

#[test]
fn the_tables_cover_every_variant() {
    let mut input = Input::default();
    input.push_key(Key::PageDown, true, false);
    assert!(input.is_key_held(Key::PageDown));
    assert_eq!(Key::COUNT, 50);

    input.on_mouse_button(MouseButton::Forward, true);
    assert!(input.is_mouse_held(MouseButton::Forward));
    assert_eq!(MouseButton::COUNT, 5);
}

#[test]
fn a_press_edge_lasts_exactly_one_frame() {
    let mut input = Input::default();
    input.push_key(Key::Delete, true, false);

    assert!(input.is_key_pressed(Key::Delete));
    assert!(input.is_key_held(Key::Delete));

    input.end_frame();
    assert!(!input.is_key_pressed(Key::Delete));
    assert!(input.is_key_held(Key::Delete));
}

#[test]
fn auto_repeat_is_not_a_press_edge() {
    let mut input = Input::default();
    input.push_key(Key::Backspace, true, false);
    input.end_frame();

    input.push_key(Key::Backspace, true, true);
    assert!(!input.is_key_pressed(Key::Backspace));
    assert!(input.is_key_held(Key::Backspace));

    let repeats = input
        .events()
        .iter()
        .filter(|e| matches!(e, Event::Key(k) if k.repeat))
        .count();
    assert_eq!(repeats, 1);
}

#[test]
fn releasing_and_pressing_again_is_a_fresh_edge() {
    let mut input = Input::default();
    input.push_key(Key::Enter, true, false);
    input.push_key(Key::Enter, false, false);
    input.end_frame();

    input.push_key(Key::Enter, true, false);
    assert!(input.is_key_pressed(Key::Enter));
}

#[test]
fn the_log_preserves_order_across_kinds() {
    let mut input = Input::default();
    input.push_text('a');
    input.push_text('b');
    input.push_key(Key::Backspace, true, false);

    assert_eq!(
        input.events(),
        &[
            Event::Text('a'),
            Event::Text('b'),
            Event::Key(KeyEvent {
                key: Key::Backspace,
                pressed: true,
                repeat: false,
                modifiers: Modifiers::default(),
            }),
        ]
    );

    input.end_frame();
    assert!(input.events().is_empty());
}

#[test]
fn a_shortcut_is_not_typing() {
    let ctrl = Modifiers { ctrl: true, ..Default::default() };
    let altgr = Modifiers { ctrl: true, alt: true, ..Default::default() };
    assert!(is_shortcut(ctrl));
    assert!(!is_shortcut(altgr));
    assert!(!is_shortcut(Modifiers { shift: true, ..Default::default() }));
}

#[test]
fn control_characters_never_reach_the_log() {
    let mut input = Input::default();
    input.push_text('\r');
    input.push_text('\t');
    input.push_text('\u{8}');
    input.push_text(' ');

    assert_eq!(input.events(), &[Event::Text(' ')]);
}

#[test]
fn events_carry_the_modifiers_that_were_down() {
    let mut input = Input::default();
    input.on_modifiers(Modifiers { ctrl: true, ..Default::default() });
    input.push_key(Key::C, true, false);

    let Some(Event::Key(event)) = input.events().first() else {
        panic!("expected a key event");
    };
    assert!(event.modifiers.ctrl);
    assert!(!event.modifiers.none());
}

#[test]
fn command_follows_the_platform() {
    let ctrl = Modifiers { ctrl: true, ..Default::default() };
    let logo = Modifiers { logo: true, ..Default::default() };
    for platform in [Platform::MacOs, Platform::Other] {
        assert_ne!(ctrl.command(platform), logo.command(platform));
    }
    assert!(ctrl.command(Platform::Other));
    assert!(!ctrl.command(Platform::MacOs));
    assert!(logo.command(Platform::MacOs));
}

#[test]
fn a_paste_is_typed_with_newlines_dropped() {
    let mut input = Input::new();
    input.push_pasted("hi\nyo\u{7f}!");
    assert_eq!(
        input.events(),
        &[
            Event::Text('h'),
            Event::Text('i'),
            Event::Text('y'),
            Event::Text('o'),
            Event::Text('!'),
        ]
    );
}

#[test]
fn a_keystroke_under_a_shortcut_types_nothing() {
    let mut input = Input::new();
    input.on_modifiers(Modifiers { ctrl: true, ..plain() });
    input.on_keyboard(Some(Key::A), true, false, Some("a"));
    assert_eq!(input.events().len(), 1);
    assert!(matches!(input.events()[0], Event::Key(KeyEvent { key: Key::A, .. })));

    input.end_frame();
    input.on_modifiers(Modifiers { ctrl: true, alt: true, ..plain() });
    input.on_keyboard(Some(Key::Q), true, false, Some("@"));
    assert_eq!(input.events().len(), 2);
    assert_eq!(input.events()[1], Event::Text('@'));
}

#[test]
fn a_release_types_nothing_and_unreported_keys_still_type() {
    let mut input = Input::new();
    input.on_keyboard(Some(Key::A), false, false, Some("a"));
    assert_eq!(input.events().len(), 1);
    input.end_frame();
    input.on_keyboard(None, true, false, Some("é"));
    assert_eq!(input.events(), &[Event::Text('é')]);
}

#[test]
fn mouse_press_edges_last_one_frame() {
    let mut input = Input::new();
    input.on_mouse_button(MouseButton::Left, true);
    assert!(input.is_mouse_pressed(MouseButton::Left));
    assert!(input.is_mouse_held(MouseButton::Left));
    assert!(!input.is_mouse_pressed(MouseButton::Right));
    input.on_mouse_button(MouseButton::Left, true);
    input.end_frame();
    assert!(!input.is_mouse_pressed(MouseButton::Left));
    assert!(input.is_mouse_held(MouseButton::Left));
    input.on_mouse_button(MouseButton::Left, false);
    assert!(!input.is_mouse_held(MouseButton::Left));
}

#[test]
fn end_frame_keeps_levels_and_modifiers() {
    let mut input = Input::new();
    let shift = Modifiers { shift: true, ..plain() };
    input.on_modifiers(shift);
    input.push_key(Key::W, true, false);
    input.end_frame();
    assert_eq!(input.modifiers(), shift);
    assert!(input.is_key_held(Key::W));
    assert!(!input.is_key_pressed(Key::W));
    assert!(input.events().is_empty());
}

#[test]
fn key_indices_are_distinct_and_in_range() {
    let keys = [Key::A, Key::Z, Key::Digit0, Key::Digit9, Key::Up, Key::PageDown];
    let idx: Vec<usize> = keys.iter().map(|k| k.index()).collect();
    assert_eq!(idx, vec![0, 25, 26, 35, 36, 49]);
    assert_eq!(MouseButton::Left.index(), 0);
    assert_eq!(MouseButton::Forward.index(), 4);
}

#[test]
fn orbit_input_all_and_none() {
    let all = OrbitInput::all();
    assert!(all.drag && all.keys && all.zoom);
    let none = OrbitInput::none();
    assert!(!none.drag && !none.keys && !none.zoom);
    assert!(plain().none());
}

#[test]
fn pasting_in_pieces_is_pasting_at_once() {
    let mut pieces = Input::new();
    pieces.push_pasted("a\tb");
    pieces.push_pasted("c\n");
    let mut whole = Input::new();
    whole.push_pasted("a\tbc\n");
    assert_eq!(pieces.events(), whole.events());
    assert_eq!(whole.events(), &[Event::Text('a'), Event::Text('b'), Event::Text('c')]);
}

#[test]
fn a_paste_is_v_under_the_shortcut_modifier() {
    let ctrl = Modifiers { ctrl: true, ..plain() };
    let logo = Modifiers { logo: true, ..plain() };
    assert!(is_paste(Some(Key::V), true, ctrl, Platform::Other));
    assert!(!is_paste(Some(Key::V), false, ctrl, Platform::Other));
    assert!(!is_paste(Some(Key::C), true, ctrl, Platform::Other));
    assert!(!is_paste(Some(Key::V), true, ctrl, Platform::MacOs));
    assert!(is_paste(Some(Key::V), true, logo, Platform::MacOs));
    assert!(!is_paste(None, true, logo, Platform::MacOs));
}
