//! What the Win32 harness computes before it posts a message: packed mouse
//! coordinates, the wheel's `wParam`, a key's virtual-key code, scan-code
//! flags and typed character, and whether a capture came back blank.
//!
//! Input is posted straight to the demo's window, never to the desktop, so
//! the developer's pointer never moves; these are the values those messages
//! carry.
use vstd::prelude::*;
use crate::text::{chars_of, range_is};

verus! {

/// Nothing to install: the Win32 harness talks to Windows directly.
pub fn require_tools() -> (tools: Vec<crate::harness::Tool>)
    ensures
        tools@.len() == 0,
{
    Vec::new()
}

/// `x` and `y` packed the way a mouse message's `lParam` wants them: `x` in
/// the low word, `y` in the high word.
pub open spec fn packed(x: u32, y: u32) -> int {
    (y as int % 0x10000) * 0x10000 + x as int % 0x10000
}

/// Client coordinates packed for a mouse message.
pub fn coords(x: u32, y: u32) -> (lparam: isize)
    ensures
        lparam == packed(x, y) as isize,
{
    let v: u32 = ((y & 0xFFFF) << 16) | (x & 0xFFFF);
    assert(v == (y % 0x10000) * 0x10000 + x % 0x10000) by (bit_vector)
        requires
            v == ((y & 0xFFFF) << 16) | (x & 0xFFFF),
    ;
    v as isize
}

/// Screen coordinates packed for `WM_MOUSEWHEEL`, the one mouse message
/// whose `lParam` is in screen coordinates: the low words of `x` and `y`,
/// read as a signed 32-bit value.
pub fn screen_coords(x: i32, y: i32) -> (lparam: isize)
    ensures
        lparam == (((y as u16) as int * 0x10000 + (x as u16) as int) as i32) as isize,
{
    let v: i32 = ((y & 0xFFFF) << 16) | (x & 0xFFFF);
    assert(v == (((y as u16) as u32 * 0x10000 + (x as u16) as u32) as i32)) by (bit_vector)
        requires
            v == ((y & 0xFFFF) << 16) | (x & 0xFFFF),
    ;
    v as isize
}

/// The `wParam` of one wheel notch: `WHEEL_DELTA` (120) in the high word,
/// negative for a notch down, and no modifier keys in the low word.
pub fn wheel_wparam(notches: i32) -> (wparam: usize)
    ensures
        wparam == if notches < 0 {
            0xFF88_0000usize
        } else {
            0x0078_0000usize
        },
{
    let delta: u32 = if notches < 0 {
        0xFF88
    } else {
        120
    };
    let d = delta as usize;
    assert(d << 16 == d * 0x10000) by (bit_vector)
        requires
            d <= 0xFFFF,
    ;
    d << 16
}

/// The `lParam`s of a key going down and coming up: a repeat count of one,
/// the scan code, and the extended-key flag; the release also sets "was
/// down" and "is being released" (bits 30 and 31).
pub fn key_lparams(scan: u8, extended: bool) -> (r: (isize, isize))
    ensures
        r.0 == 1 + scan as int * 0x10000 + if extended {
            0x0100_0000int
        } else {
            0int
        },
        r.1 == (r.0 + 0xC000_0000int) as isize,
{
    let extend: i64 = if extended {
        0x0100_0000
    } else {
        0
    };
    let down: i64 = 1 + (scan as i64) * 0x10000 + extend;
    let up: i64 = down | 0xC000_0000i64;
    assert(up == down + 0xC000_0000) by (bit_vector)
        requires
            0 <= down < 0x0200_0000,
            up == down | 0xC000_0000i64,
    ;
    (down as isize, up as isize)
}

/// Whether `c` is an ASCII letter or digit.
pub open spec fn is_ascii_alphanumeric(c: char) -> bool {
    ('0' <= c && c <= '9') || ('a' <= c && c <= 'z') || ('A' <= c && c <= 'Z')
}

/// The virtual-key code of a single letter or digit: its upper-case ASCII
/// code (`VK_A` is 0x41, which is also `'A'`).
pub open spec fn letter_key(c: char) -> u8 {
    if 'a' <= c && c <= 'z' {
        (c as u32 - 32) as u8
    } else {
        c as u8
    }
}

/// A capture script's key name, in `xdotool`'s vocabulary, as a virtual key
/// and whether it is an "extended" one (without which the arrows carry
/// numpad scan codes).
pub open spec fn virtual_key_spec(name: Seq<char>) -> Option<(u8, bool)> {
    if name == "space"@ {
        Some((0x20u8, false))
    } else if name == "Return"@ || name == "Enter"@ || name == "KP_Enter"@ {
        Some((0x0Du8, false))
    } else if name == "Escape"@ {
        Some((0x1Bu8, false))
    } else if name == "Tab"@ {
        Some((0x09u8, false))
    } else if name == "BackSpace"@ {
        Some((0x08u8, false))
    } else if name == "Delete"@ {
        Some((0x2Eu8, true))
    } else if name == "Insert"@ {
        Some((0x2Du8, true))
    } else if name == "Home"@ {
        Some((0x24u8, true))
    } else if name == "End"@ {
        Some((0x23u8, true))
    } else if name == "Page_Up"@ || name == "Prior"@ {
        Some((0x21u8, true))
    } else if name == "Page_Down"@ || name == "Next"@ {
        Some((0x22u8, true))
    } else if name == "Left"@ {
        Some((0x25u8, true))
    } else if name == "Up"@ {
        Some((0x26u8, true))
    } else if name == "Right"@ {
        Some((0x27u8, true))
    } else if name == "Down"@ {
        Some((0x28u8, true))
    } else if name == "minus"@ {
        Some((0xBDu8, false))
    } else if name == "plus"@ || name == "equal"@ {
        Some((0xBBu8, false))
    } else if name == "comma"@ {
        Some((0xBCu8, false))
    } else if name == "period"@ {
        Some((0xBEu8, false))
    } else if name.len() == 1 && is_ascii_alphanumeric(name[0]) {
        Some((letter_key(name[0]), false))
    } else {
        None
    }
}

/// `c`'s code with an ASCII lower-case letter taken to its capital.
pub open spec fn upper_code(c: char) -> int {
    if 'a' <= c && c <= 'z' {
        c as int - 32
    } else {
        c as int
    }
}

/// Whether two key names name the same physical key: the same name, one of
/// `xdotool`'s aliases (Return, Enter and KP_Enter; Page_Up and Prior;
/// Page_Down and Next; plus and equal, which share a key), or one letter in
/// either case.
pub open spec fn same_key_name(a: Seq<char>, b: Seq<char>) -> bool {
    let enter = |n: Seq<char>| n == "Return"@ || n == "Enter"@ || n == "KP_Enter"@;
    let page_up = |n: Seq<char>| n == "Page_Up"@ || n == "Prior"@;
    let page_down = |n: Seq<char>| n == "Page_Down"@ || n == "Next"@;
    let plus = |n: Seq<char>| n == "plus"@ || n == "equal"@;
    ||| a == b
    ||| enter(a) && enter(b)
    ||| page_up(a) && page_up(b)
    ||| page_down(a) && page_down(b)
    ||| plus(a) && plus(b)
    ||| a.len() == 1 && b.len() == 1 && upper_code(a[0]) == upper_code(b[0])
}

/// A virtual key stands for one key: two names that map to the same virtual
/// key (and extended flag) name the same key.
pub proof fn lemma_virtual_key_is_one_key(a: Seq<char>, b: Seq<char>)
    requires
        virtual_key_spec(a) is Some,
        virtual_key_spec(a) == virtual_key_spec(b),
    ensures
        same_key_name(a, b),
{
}

/// A single letter or digit is the key with that character's upper-case
/// ASCII code, not an extended one, and it types the character itself.
pub proof fn lemma_letters_are_their_ascii_codes(c: char)
    requires
        is_ascii_alphanumeric(c),
    ensures
        virtual_key_spec(seq![c]) == Some((upper_code(c) as u8, false)),
        character_spec(seq![c]) == Some(c),
{
    reveal_strlit("space");
    reveal_strlit("Return");
    reveal_strlit("Enter");
    reveal_strlit("KP_Enter");
    reveal_strlit("Escape");
    reveal_strlit("Tab");
    reveal_strlit("BackSpace");
    reveal_strlit("Delete");
    reveal_strlit("Insert");
    reveal_strlit("Home");
    reveal_strlit("End");
    reveal_strlit("Page_Up");
    reveal_strlit("Prior");
    reveal_strlit("Page_Down");
    reveal_strlit("Next");
    reveal_strlit("Left");
    reveal_strlit("Up");
    reveal_strlit("Right");
    reveal_strlit("Down");
    reveal_strlit("minus");
    reveal_strlit("plus");
    reveal_strlit("equal");
    reveal_strlit("comma");
    reveal_strlit("period");
}

/// The arrow keys are the four consecutive virtual keys of the Windows
/// table, left, up, right and down from `VK_LEFT` (0x25), all extended ones
/// (without the flag they arrive as the numeric keypad's arrows).
pub proof fn lemma_arrow_keys()
    ensures
        virtual_key_spec("Left"@) == Some((0x25u8, true)),
        virtual_key_spec("Up"@) == Some((0x26u8, true)),
        virtual_key_spec("Right"@) == Some((0x27u8, true)),
        virtual_key_spec("Down"@) == Some((0x28u8, true)),
{
    reveal_strlit("space");
    reveal_strlit("Return");
    reveal_strlit("Enter");
    reveal_strlit("KP_Enter");
    reveal_strlit("Escape");
    reveal_strlit("Tab");
    reveal_strlit("BackSpace");
    reveal_strlit("Delete");
    reveal_strlit("Insert");
    reveal_strlit("Home");
    reveal_strlit("End");
    reveal_strlit("Page_Up");
    reveal_strlit("Prior");
    reveal_strlit("Page_Down");
    reveal_strlit("Next");
    reveal_strlit("Left");
    reveal_strlit("Up");
    reveal_strlit("Right");
    reveal_strlit("Down");
    assert("Left"@.len() != "space"@.len());
    assert("Left"@.len() != "Return"@.len());
    assert("Left"@.len() != "Enter"@.len());
    assert("Left"@.len() != "KP_Enter"@.len());
    assert("Left"@.len() != "Escape"@.len());
    assert("Left"@.len() != "Tab"@.len());
    assert("Left"@.len() != "BackSpace"@.len());
    assert("Left"@.len() != "Delete"@.len());
    assert("Left"@.len() != "Insert"@.len());
    assert("Left"@[0] != "Home"@[0]);
    assert("Left"@.len() != "End"@.len());
    assert("Left"@.len() != "Page_Up"@.len());
    assert("Left"@.len() != "Prior"@.len());
    assert("Left"@.len() != "Page_Down"@.len());
    assert("Left"@[0] != "Next"@[0]);
    assert("Up"@.len() != "space"@.len());
    assert("Up"@.len() != "Return"@.len());
    assert("Up"@.len() != "Enter"@.len());
    assert("Up"@.len() != "KP_Enter"@.len());
    assert("Up"@.len() != "Escape"@.len());
    assert("Up"@.len() != "Tab"@.len());
    assert("Up"@.len() != "BackSpace"@.len());
    assert("Up"@.len() != "Delete"@.len());
    assert("Up"@.len() != "Insert"@.len());
    assert("Up"@.len() != "Home"@.len());
    assert("Up"@.len() != "End"@.len());
    assert("Up"@.len() != "Page_Up"@.len());
    assert("Up"@.len() != "Prior"@.len());
    assert("Up"@.len() != "Page_Down"@.len());
    assert("Up"@.len() != "Next"@.len());
    assert("Up"@.len() != "Left"@.len());
    assert("Right"@[0] != "space"@[0]);
    assert("Right"@.len() != "Return"@.len());
    assert("Right"@[0] != "Enter"@[0]);
    assert("Right"@.len() != "KP_Enter"@.len());
    assert("Right"@.len() != "Escape"@.len());
    assert("Right"@.len() != "Tab"@.len());
    assert("Right"@.len() != "BackSpace"@.len());
    assert("Right"@.len() != "Delete"@.len());
    assert("Right"@.len() != "Insert"@.len());
    assert("Right"@.len() != "Home"@.len());
    assert("Right"@.len() != "End"@.len());
    assert("Right"@.len() != "Page_Up"@.len());
    assert("Right"@[0] != "Prior"@[0]);
    assert("Right"@.len() != "Page_Down"@.len());
    assert("Right"@.len() != "Next"@.len());
    assert("Right"@.len() != "Left"@.len());
    assert("Right"@.len() != "Up"@.len());
    assert("Down"@.len() != "space"@.len());
    assert("Down"@.len() != "Return"@.len());
    assert("Down"@.len() != "Enter"@.len());
    assert("Down"@.len() != "KP_Enter"@.len());
    assert("Down"@.len() != "Escape"@.len());
    assert("Down"@.len() != "Tab"@.len());
    assert("Down"@.len() != "BackSpace"@.len());
    assert("Down"@.len() != "Delete"@.len());
    assert("Down"@.len() != "Insert"@.len());
    assert("Down"@[0] != "Home"@[0]);
    assert("Down"@.len() != "End"@.len());
    assert("Down"@.len() != "Page_Up"@.len());
    assert("Down"@.len() != "Prior"@.len());
    assert("Down"@.len() != "Page_Down"@.len());
    assert("Down"@[0] != "Next"@[0]);
    assert("Down"@[0] != "Left"@[0]);
    assert("Down"@.len() != "Up"@.len());
    assert("Down"@.len() != "Right"@.len());
}

/// Whether `c` is an ASCII letter or digit.
fn char_is_ascii_alphanumeric(c: char) -> (r: bool)
    ensures
        r == is_ascii_alphanumeric(c),
{
    ('0' <= c && c <= '9') || ('a' <= c && c <= 'z') || ('A' <= c && c <= 'Z')
}

/// A key name as a virtual key and whether it is extended, or `None` if
/// Windows has no such key.
pub fn virtual_key(name: &str) -> (key: Option<(u8, bool)>)
    ensures
        key == virtual_key_spec(name@),
{
    let chars = chars_of(name);
    let s = chars.as_slice();
    let n = chars.len();
    proof {
        assert(s@.subrange(0, n as int) =~= name@);
    }
    if range_is(s, 0, n, "space") {
        Some((0x20, false))
    } else if range_is(s, 0, n, "Return") || range_is(s, 0, n, "Enter") || range_is(
        s,
        0,
        n,
        "KP_Enter",
    ) {
        Some((0x0D, false))
    } else if range_is(s, 0, n, "Escape") {
        Some((0x1B, false))
    } else if range_is(s, 0, n, "Tab") {
        Some((0x09, false))
    } else if range_is(s, 0, n, "BackSpace") {
        Some((0x08, false))
    } else if range_is(s, 0, n, "Delete") {
        Some((0x2E, true))
    } else if range_is(s, 0, n, "Insert") {
        Some((0x2D, true))
    } else if range_is(s, 0, n, "Home") {
        Some((0x24, true))
    } else if range_is(s, 0, n, "End") {
        Some((0x23, true))
    } else if range_is(s, 0, n, "Page_Up") || range_is(s, 0, n, "Prior") {
        Some((0x21, true))
    } else if range_is(s, 0, n, "Page_Down") || range_is(s, 0, n, "Next") {
        Some((0x22, true))
    } else if range_is(s, 0, n, "Left") {
        Some((0x25, true))
    } else if range_is(s, 0, n, "Up") {
        Some((0x26, true))
    } else if range_is(s, 0, n, "Right") {
        Some((0x27, true))
    } else if range_is(s, 0, n, "Down") {
        Some((0x28, true))
    } else if range_is(s, 0, n, "minus") {
        Some((0xBD, false))
    } else if range_is(s, 0, n, "plus") || range_is(s, 0, n, "equal") {
        Some((0xBB, false))
    } else if range_is(s, 0, n, "comma") {
        Some((0xBC, false))
    } else if range_is(s, 0, n, "period") {
        Some((0xBE, false))
    } else if n == 1 && char_is_ascii_alphanumeric(chars[0]) {
        let c = chars[0];
        if 'a' <= c && c <= 'z' {
            Some(((c as u32 - 32) as u8, false))
        } else {
            Some((c as u8, false))
        }
    } else {
        None
    }
}

/// The character a key name types, if it types one.
pub open spec fn character_spec(name: Seq<char>) -> Option<char> {
    if name == "space"@ {
        Some(' ')
    } else if name == "Return"@ || name == "Enter"@ || name == "KP_Enter"@ {
        Some('\r')
    } else if name == "minus"@ {
        Some('-')
    } else if name == "plus"@ {
        Some('+')
    } else if name == "equal"@ {
        Some('=')
    } else if name == "comma"@ {
        Some(',')
    } else if name == "period"@ {
        Some('.')
    } else if name.len() == 1 && is_ascii_alphanumeric(name[0]) {
        Some(name[0])
    } else {
        None
    }
}

/// The character a key name types, posted as `WM_CHAR` beside the key, since
/// a posted key produces no text by itself.
pub fn character(name: &str) -> (c: Option<char>)
    ensures
        c == character_spec(name@),
{
    let chars = chars_of(name);
    let s = chars.as_slice();
    let n = chars.len();
    proof {
        assert(s@.subrange(0, n as int) =~= name@);
    }
    if range_is(s, 0, n, "space") {
        Some(' ')
    } else if range_is(s, 0, n, "Return") || range_is(s, 0, n, "Enter") || range_is(
        s,
        0,
        n,
        "KP_Enter",
    ) {
        Some('\r')
    } else if range_is(s, 0, n, "minus") {
        Some('-')
    } else if range_is(s, 0, n, "plus") {
        Some('+')
    } else if range_is(s, 0, n, "equal") {
        Some('=')
    } else if range_is(s, 0, n, "comma") {
        Some(',')
    } else if range_is(s, 0, n, "period") {
        Some('.')
    } else if n == 1 && char_is_ascii_alphanumeric(chars[0]) {
        Some(chars[0])
    } else {
        None
    }
}

/// `WM_KEYDOWN`.
pub const WM_KEYDOWN: u32 = 0x0100;
/// `WM_KEYUP`.
pub const WM_KEYUP: u32 = 0x0101;
/// `WM_CHAR`.
pub const WM_CHAR: u32 = 0x0102;

/// One window message to post: its number and its two parameters.
#[derive(Debug, Clone, Copy, PartialEq, Eq, Structural)]
pub struct KeyMessage {
    /// The message number.
    pub msg: u32,
    /// Its `wParam`.
    pub wparam: usize,
    /// Its `lParam`.
    pub lparam: isize,
}

/// The `lParam` of a key going down: a repeat count of one, the scan code in
/// bits 16 to 23, and the extended-key flag in bit 24.
pub open spec fn key_down_lparam(scan: u8, extended: bool) -> int {
    1 + scan as int * 0x10000 + if extended {
        0x0100_0000int
    } else {
        0int
    }
}

/// The messages that tap the key `name`, whose scan code is `scan`: none for
/// a name Windows has no key for; otherwise the key going down, then the
/// character it types if it types one (posted keys produce no text by
/// themselves), then the key coming up with "was down" and "is being
/// released" set.
pub open spec fn key_messages_spec(name: Seq<char>, scan: u8) -> Seq<KeyMessage> {
    match virtual_key_spec(name) {
        None => Seq::empty(),
        Some((vk, extended)) => {
            let down = key_down_lparam(scan, extended) as isize;
            let up = (key_down_lparam(scan, extended) + 0xC000_0000int) as isize;
            let press = KeyMessage { msg: WM_KEYDOWN, wparam: vk as usize, lparam: down };
            let release = KeyMessage { msg: WM_KEYUP, wparam: vk as usize, lparam: up };
            match character_spec(name) {
                Some(c) => seq![press, KeyMessage { msg: WM_CHAR, wparam: c as u32 as usize, lparam: down }, release],
                None => seq![press, release],
            }
        },
    }
}

/// The messages to post to tap the key `name`, given the scan code Windows
/// maps its virtual key to.
pub fn key_messages(name: &str, scan: u8) -> (msgs: Vec<KeyMessage>)
    ensures
        msgs@ == key_messages_spec(name@, scan),
{
    let mut msgs: Vec<KeyMessage> = Vec::new();
    let key = virtual_key(name);
    match key {
        None => {},
        Some((vk, extended)) => {
            let (down, up) = key_lparams(scan, extended);
            msgs.push(KeyMessage { msg: WM_KEYDOWN, wparam: vk as usize, lparam: down });
            let ch = character(name);
            match ch {
                Some(c) => {
                    msgs.push(KeyMessage { msg: WM_CHAR, wparam: c as u32 as usize, lparam: down });
                },
                None => {},
            }
            msgs.push(KeyMessage { msg: WM_KEYUP, wparam: vk as usize, lparam: up });
        },
    }
    proof {
        assert(msgs@ =~= key_messages_spec(name@, scan));
    }
    msgs
}

/// Whether every byte is zero: what a failed GPU capture looks like. No demo
/// renders a black frame, so this is the signal to retake the shot from the
/// screen.
pub fn is_blank(pixels: &[u8]) -> (blank: bool)
    ensures
        blank == forall|i: int| 0 <= i < pixels@.len() ==> #[trigger] pixels@[i] == 0,
{
    let mut i: usize = 0;
    while i < pixels.len()
        invariant
            i <= pixels.len(),
            forall|j: int| 0 <= j < i ==> #[trigger] pixels@[j] == 0,
        decreases pixels.len() - i,
    {
        if pixels[i] != 0 {
            return false;
        }
        i = i + 1;
    }
    true
}

/// A window rectangle, as Win32 reports one.
#[derive(Debug, Clone, Copy, PartialEq, Eq, Structural)]
pub struct WinRect {
    /// Left edge.
    pub left: i32,
    /// Top edge.
    pub top: i32,
    /// Right edge, exclusive.
    pub right: i32,
    /// Bottom edge, exclusive.
    pub bottom: i32,
}

/// Where and how large to make a window so that its **client** area is
/// `w` by `h`, parked past the left edge of the virtual desktop (whose
/// top-left is `screen_left`, `screen_top`) so it shows on no monitor. The
/// frame's size is measured, not computed: the difference between the window's
/// `outer` rectangle and its `client` one.
pub open spec fn offscreen_spec(screen_left: int, screen_top: int, w: int, h: int, outer: WinRect, client: WinRect) -> (int, int, int, int) {
    let chrome_w = (outer.right - outer.left) - (client.right - client.left);
    let chrome_h = (outer.bottom - outer.top) - (client.bottom - client.top);
    (screen_left - (w + chrome_w) - 64, screen_top + 40, w + chrome_w, h + chrome_h)
}

/// Whether every step of [`offscreen_spec`] fits an `i32`.
pub open spec fn offscreen_fits(screen_left: i32, screen_top: i32, w: i32, h: i32, outer: WinRect, client: WinRect) -> bool {
    let ow = outer.right - outer.left;
    let cw = client.right - client.left;
    let oh = outer.bottom - outer.top;
    let ch = client.bottom - client.top;
    let chrome_w = ow - cw;
    let chrome_h = oh - ch;
    &&& i32::MIN <= ow <= i32::MAX && i32::MIN <= cw <= i32::MAX
    &&& i32::MIN <= oh <= i32::MAX && i32::MIN <= ch <= i32::MAX
    &&& i32::MIN <= chrome_w <= i32::MAX && i32::MIN <= chrome_h <= i32::MAX
    &&& i32::MIN <= w + chrome_w <= i32::MAX && i32::MIN <= h + chrome_h <= i32::MAX
    &&& i32::MIN <= screen_left - (w + chrome_w) <= i32::MAX
    &&& i32::MIN <= screen_left - (w + chrome_w) - 64 <= i32::MAX
    &&& screen_top + 40 <= i32::MAX
}

/// The position and outer size that put a `w` by `h` client area off every
/// monitor.
pub fn offscreen_placement(
    screen_left: i32,
    screen_top: i32,
    w: i32,
    h: i32,
    outer: WinRect,
    client: WinRect,
) -> (r: (i32, i32, i32, i32))
    requires
        offscreen_fits(screen_left, screen_top, w, h, outer, client),
    ensures
        (r.0 as int, r.1 as int, r.2 as int, r.3 as int) == offscreen_spec(
            screen_left as int,
            screen_top as int,
            w as int,
            h as int,
            outer,
            client,
        ),
{
    let chrome_w = (outer.right - outer.left) - (client.right - client.left);
    let chrome_h = (outer.bottom - outer.top) - (client.bottom - client.top);
    (screen_left - (w + chrome_w) - 64, screen_top + 40, w + chrome_w, h + chrome_h)
}

/// The client area's size from its rectangle, at least one pixel each way.
pub fn client_extent(rect: WinRect) -> (r: (u32, u32))
    requires
        i32::MIN <= rect.right - rect.left <= i32::MAX,
        i32::MIN <= rect.bottom - rect.top <= i32::MAX,
    ensures
        r.0 as int == if rect.right - rect.left < 1 { 1 } else { rect.right - rect.left },
        r.1 as int == if rect.bottom - rect.top < 1 { 1 } else { rect.bottom - rect.top },
{
    let w = rect.right - rect.left;
    let h = rect.bottom - rect.top;
    let w = if w < 1 { 1 } else { w };
    let h = if h < 1 { 1 } else { h };
    (w as u32, h as u32)
}

/// GDI's top-down BGRA pixels as RGB: the alpha of a window capture means
/// nothing, and PNG wants red first.
pub open spec fn bgra_to_rgb_spec(src: Seq<u8>) -> Seq<u8> {
    Seq::new(
        (src.len() / 4 * 3) as nat,
        |i: int|
            {
                let p = i / 3;
                let c = i % 3;
                src[4 * p + (2 - c)]
            },
    )
}

/// Convert a capture's BGRA pixels to RGB; a trailing partial pixel is
/// ignored.
pub fn bgra_to_rgb(src: &[u8]) -> (rgb: Vec<u8>)
    ensures
        rgb@ == bgra_to_rgb_spec(src@),
{
    let n = src.len();
    let count = n / 4;
    let mut out: Vec<u8> = Vec::new();
    let mut p: usize = 0;
    while p < count
        invariant
            p <= count == src@.len() / 4,
            src@.len() <= usize::MAX,
            out@.len() == 3 * p,
            forall|i: int| 0 <= i < out@.len() ==> #[trigger] out@[i] == src@[4 * (i / 3) + (2 - i % 3)],
        decreases count - p,
    {
        assert(4 * p + 3 < src@.len()) by (nonlinear_arith)
            requires
                p < count,
                count == src@.len() / 4,
        ;
        let at = 4 * p;
        let b = src[at];
        let g = src[at + 1];
        let r = src[at + 2];
        let ghost before = out@;
        out.push(r);
        out.push(g);
        out.push(b);
        proof {
            assert forall|i: int| 0 <= i < out@.len() implies #[trigger] out@[i] == src@[4 * (i / 3) + (2 - i % 3)] by {
                if i < before.len() {
                    assert(out@[i] == before[i]);
                } else {
                    assert(i / 3 == p as int);
                }
            }
        }
        p = p + 1;
    }
    assert(out@ =~= bgra_to_rgb_spec(src@));
    out
}

/// Where to bring the window when the offscreen capture fails: just inside
/// the leftmost monitor.
pub fn onscreen_position(screen_left: i32, screen_top: i32) -> (r: (i32, i32))
    requires
        screen_left + 40 <= i32::MAX,
        screen_top + 40 <= i32::MAX,
    ensures
        r.0 == screen_left + 40,
        r.1 == screen_top + 40,
{
    (screen_left + 40, screen_top + 40)
}

} // verus!
