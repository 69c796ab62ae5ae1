use slmsttaa::harness::win32::{
    character, coords, is_blank, key_lparams, key_messages, require_tools, screen_coords,
    virtual_key, wheel_wparam, KeyMessage, WM_CHAR, WM_KEYDOWN, WM_KEYUP,
};
use slmsttaa::harness::{Desktop, Harness, Op};

#[test]
fn x11_needs_three_tools_and_windows_none() {
    let tools = Harness::require_tools(Desktop::X11);
    let names: Vec<&str> = tools.iter().map(|t| t.name).collect();
    assert_eq!(names, vec!["Xvfb", "import", "xdotool"]);
    assert_eq!(tools[0].probe, "-help");
    assert_eq!(tools[2].install, "apt-get install xdotool");
    assert!(Harness::require_tools(Desktop::Win32).is_empty());
    assert!(require_tools().is_empty());
}

#[test]
fn the_environment_points_at_the_display() {
    let h = Harness::start("/work", 1280, 800, Some(99));
    assert_eq!(h.env(), vec![("DISPLAY".to_string(), ":99".to_string())]);
    assert_eq!(h.size(), (1280, 800));
    assert_eq!(h.root(), "/work");
    let w = Harness::start("/work", 1, 1, None);
    assert!(w.env().is_empty());
}

#[test]
fn a_click_is_a_press_then_a_release() {
    let mut h = Harness::start(".", 10, 10, None);
    let ops = h.click();
    assert_eq!(ops.len(), 2);
    assert!(matches!(ops[0], Op::ButtonDown));
    assert!(matches!(ops[1], Op::ButtonUp));
}

#[test]
fn moves_are_remembered_and_shots_named() {
    let mut h = Harness::start(".", 10, 10, None);
    let ops = h.mouse_move(414, 368);
    assert!(matches!(ops[0], Op::MoveTo(414, 368)));
    assert_eq!(h.cursor(), (414, 368));
    let ops = h.shot("capture/terrain.png");
    assert!(matches!(&ops[0], Op::Shot(f) if f == "capture/terrain.png"));
    let ops = h.key("space");
    assert!(matches!(&ops[0], Op::Key(k) if k == "space"));
    h.attach(4242);
    assert_eq!(h.pid(), Some(4242));
    h.stop();
    assert!(h.is_stopped());
}

#[test]
fn the_wheel_turns_one_notch_at_a_time() {
    let mut h = Harness::start(".", 10, 10, None);
    let down = h.wheel(-3);
    assert_eq!(down.len(), 3);
    assert!(down.iter().all(|o| matches!(o, Op::WheelNotch(false))));
    let up = h.wheel(2);
    assert_eq!(up.len(), 2);
    assert!(up.iter().all(|o| matches!(o, Op::WheelNotch(true))));
    assert!(h.wheel(0).is_empty());
}

#[test]
fn mouse_coordinates_pack_into_words() {
    assert_eq!(coords(3, 5), (5 << 16) | 3);
    assert_eq!(coords(0x1_0002, 1), (1 << 16) | 2);
    assert_eq!(screen_coords(-1, 2), 0x0002_FFFF);
    assert_eq!(screen_coords(0, -1), (0xFFFF_0000u32 as i32) as isize);
}

#[test]
fn a_wheel_notch_is_one_wheel_delta() {
    assert_eq!(wheel_wparam(3), 120 << 16);
    assert_eq!(wheel_wparam(-1), 0xFF88 << 16);
    assert_eq!(wheel_wparam(0), 120 << 16);
}

#[test]
fn key_lparams_carry_scan_code_and_flags() {
    let (down, up) = key_lparams(0x1E, false);
    assert_eq!(down, 1 | (0x1E << 16));
    assert_eq!(up as i64 as u32, (down as u32) | 0xC000_0000);
    let (down, _) = key_lparams(0x4B, true);
    assert_eq!(down, 1 | (0x4B << 16) | (1 << 24));
}

#[test]
fn key_names_map_to_virtual_keys() {
    assert_eq!(virtual_key("space"), Some((0x20, false)));
    assert_eq!(virtual_key("KP_Enter"), Some((0x0D, false)));
    assert_eq!(virtual_key("Left"), Some((0x25, true)));
    assert_eq!(virtual_key("Prior"), Some((0x21, true)));
    assert_eq!(virtual_key("equal"), Some((0xBB, false)));
    assert_eq!(virtual_key("w"), Some((b'W', false)));
    assert_eq!(virtual_key("7"), Some((b'7', false)));
    assert_eq!(virtual_key("F1"), None);
    assert_eq!(virtual_key("é"), None);
}

#[test]
fn key_names_type_their_characters() {
    assert_eq!(character("space"), Some(' '));
    assert_eq!(character("Return"), Some('\r'));
    assert_eq!(character("plus"), Some('+'));
    assert_eq!(character("equal"), Some('='));
    assert_eq!(character("w"), Some('w'));
    assert_eq!(character("Escape"), None);
    assert_eq!(character("Left"), None);
}

#[test]
fn only_an_all_black_capture_is_blank() {
    assert!(is_blank(&[0, 0, 0, 0]));
    assert!(is_blank(&[]));
    assert!(!is_blank(&[0, 0, 1]));
}

#[test]
fn a_key_tap_is_down_then_its_character_then_up() {
    let down = 1 | (0x39 << 16);
    let up = key_lparams(0x39, false).1;
    assert_eq!(
        key_messages("space", 0x39),
        vec![
            KeyMessage { msg: WM_KEYDOWN, wparam: 0x20, lparam: down },
            KeyMessage { msg: WM_CHAR, wparam: ' ' as usize, lparam: down },
            KeyMessage { msg: WM_KEYUP, wparam: 0x20, lparam: up },
        ]
    );
    let (vk, _) = virtual_key("Escape").unwrap();
    let (down, up) = key_lparams(0x01, false);
    assert_eq!(
        key_messages("Escape", 0x01),
        vec![
            KeyMessage { msg: WM_KEYDOWN, wparam: vk as usize, lparam: down },
            KeyMessage { msg: WM_KEYUP, wparam: vk as usize, lparam: up },
        ]
    );
    assert!(key_messages("NoSuchKey", 0).is_empty());
}
