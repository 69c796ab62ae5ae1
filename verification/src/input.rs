//! Per-frame input state, in the engine's own vocabulary.
//!
//! The window system's events are turned, at the edge, into [`Key`],
//! [`MouseButton`] and [`Modifiers`], and folded into an [`Input`] that the
//! consumer reads once per frame. Three flavours of state live here:
//!
//! - **held state** ([`Input::is_key_held`], [`Input::is_mouse_held`]), which
//!   lasts until the key or button is released;
//! - **press edges** ([`Input::is_key_pressed`], [`Input::is_mouse_pressed`]),
//!   true only on the frame a key or button went down, and never for the
//!   operating system's auto-repeat;
//! - an ordered **event log** ([`Input::events`]) of key transitions and typed
//!   characters, because a text field needs to know what came first.
//!
//! [`Input::end_frame`] clears the edges and the log; held state and the
//! modifiers survive it. Pointer position and motion are floating point and are
//! kept beside this type by the engine.
use vstd::prelude::*;

verus! {

/// A keyboard key the engine reports, by **physical** position: [`Key::W`] is
/// whichever key sits where `W` does on a US layout.
///
/// Letters and digits so arbitrary shortcuts can be bound, and the arrows and
/// editing keys a text field needs.
#[derive(Debug, Clone, Copy, PartialEq, Eq, Hash, Structural)]
pub enum Key {
    /// The `A` key.
    A,
    /// The `B` key.
    B,
    /// The `C` key.
    C,
    /// The `D` key.
    D,
    /// The `E` key.
    E,
    /// The `F` key.
    F,
    /// The `G` key.
    G,
    /// The `H` key.
    H,
    /// The `I` key.
    I,
    /// The `J` key.
    J,
    /// The `K` key.
    K,
    /// The `L` key.
    L,
    /// The `M` key.
    M,
    /// The `N` key.
    N,
    /// The `O` key.
    O,
    /// The `P` key.
    P,
    /// The `Q` key.
    Q,
    /// The `R` key.
    R,
    /// The `S` key.
    S,
    /// The `T` key.
    T,
    /// The `U` key.
    U,
    /// The `V` key.
    V,
    /// The `W` key.
    W,
    /// The `X` key.
    X,
    /// The `Y` key.
    Y,
    /// The `Z` key.
    Z,
    /// The `0` key on the number row.
    Digit0,
    /// The `1` key on the number row.
    Digit1,
    /// The `2` key on the number row.
    Digit2,
    /// The `3` key on the number row.
    Digit3,
    /// The `4` key on the number row.
    Digit4,
    /// The `5` key on the number row.
    Digit5,
    /// The `6` key on the number row.
    Digit6,
    /// The `7` key on the number row.
    Digit7,
    /// The `8` key on the number row.
    Digit8,
    /// The `9` key on the number row.
    Digit9,
    /// The up arrow.
    Up,
    /// The down arrow.
    Down,
    /// The left arrow.
    Left,
    /// The right arrow.
    Right,
    /// Escape.
    Escape,
    /// Tab.
    Tab,
    /// Enter / Return.
    Enter,
    /// The space bar. Also produces a `' '` [`Event::Text`].
    Space,
    /// Backspace: deletes backward from the caret.
    Backspace,
    /// Delete: deletes forward from the caret.
    Delete,
    /// Home.
    Home,
    /// End.
    End,
    /// Page Up.
    PageUp,
    /// Page Down. Kept last, so that its index is one less than [`Key::COUNT`].
    PageDown,
}

/// The position of `key` in the held-key table.
pub open spec fn key_index(key: Key) -> nat {
    match key {
    Key::A => 0,
    Key::B => 1,
    Key::C => 2,
    Key::D => 3,
    Key::E => 4,
    Key::F => 5,
    Key::G => 6,
    Key::H => 7,
    Key::I => 8,
    Key::J => 9,
    Key::K => 10,
    Key::L => 11,
    Key::M => 12,
    Key::N => 13,
    Key::O => 14,
    Key::P => 15,
    Key::Q => 16,
    Key::R => 17,
    Key::S => 18,
    Key::T => 19,
    Key::U => 20,
    Key::V => 21,
    Key::W => 22,
    Key::X => 23,
    Key::Y => 24,
    Key::Z => 25,
    Key::Digit0 => 26,
    Key::Digit1 => 27,
    Key::Digit2 => 28,
    Key::Digit3 => 29,
    Key::Digit4 => 30,
    Key::Digit5 => 31,
    Key::Digit6 => 32,
    Key::Digit7 => 33,
    Key::Digit8 => 34,
    Key::Digit9 => 35,
    Key::Up => 36,
    Key::Down => 37,
    Key::Left => 38,
    Key::Right => 39,
    Key::Escape => 40,
    Key::Tab => 41,
    Key::Enter => 42,
    Key::Space => 43,
    Key::Backspace => 44,
    Key::Delete => 45,
    Key::Home => 46,
    Key::End => 47,
    Key::PageUp => 48,
    Key::PageDown => 49,
    }
}

/// Two keys share a table slot only if they are the same key.
pub proof fn lemma_key_index_injective(a: Key, b: Key)
    ensures
        key_index(a) == key_index(b) <==> a == b,
{
}

impl Key {
    /// How many keys there are: the size of the held-key table.
    pub const COUNT: usize = 50;

    /// Index into the held-key table.
    pub fn index(self) -> (i: usize)
        ensures
            i == key_index(self),
            i < Key::COUNT,
    {
        match self {
            Key::A => 0,
            Key::B => 1,
            Key::C => 2,
            Key::D => 3,
            Key::E => 4,
            Key::F => 5,
            Key::G => 6,
            Key::H => 7,
            Key::I => 8,
            Key::J => 9,
            Key::K => 10,
            Key::L => 11,
            Key::M => 12,
            Key::N => 13,
            Key::O => 14,
            Key::P => 15,
            Key::Q => 16,
            Key::R => 17,
            Key::S => 18,
            Key::T => 19,
            Key::U => 20,
            Key::V => 21,
            Key::W => 22,
            Key::X => 23,
            Key::Y => 24,
            Key::Z => 25,
            Key::Digit0 => 26,
            Key::Digit1 => 27,
            Key::Digit2 => 28,
            Key::Digit3 => 29,
            Key::Digit4 => 30,
            Key::Digit5 => 31,
            Key::Digit6 => 32,
            Key::Digit7 => 33,
            Key::Digit8 => 34,
            Key::Digit9 => 35,
            Key::Up => 36,
            Key::Down => 37,
            Key::Left => 38,
            Key::Right => 39,
            Key::Escape => 40,
            Key::Tab => 41,
            Key::Enter => 42,
            Key::Space => 43,
            Key::Backspace => 44,
            Key::Delete => 45,
            Key::Home => 46,
            Key::End => 47,
            Key::PageUp => 48,
            Key::PageDown => 49,
        }
    }
}

/// A mouse button the engine reports.
#[derive(Debug, Clone, Copy, PartialEq, Eq, Hash, Structural)]
pub enum MouseButton {
    /// The primary button.
    Left,
    /// The secondary button.
    Right,
    /// The wheel click.
    Middle,
    /// The thumb button that conventionally means "back" (mouse-4).
    Back,
    /// The thumb button that conventionally means "forward" (mouse-5). Kept
    /// last, so that its index is one less than [`MouseButton::COUNT`].
    Forward,
}

/// The position of `button` in the held-button table.
pub open spec fn button_index(button: MouseButton) -> nat {
    match button {
        MouseButton::Left => 0,
        MouseButton::Right => 1,
        MouseButton::Middle => 2,
        MouseButton::Back => 3,
        MouseButton::Forward => 4,
    }
}

impl MouseButton {
    /// How many buttons there are: the size of the held-button table.
    pub const COUNT: usize = 5;

    /// Index into the held-button table.
    pub fn index(self) -> (i: usize)
        ensures
            i == button_index(self),
            i < MouseButton::COUNT,
    {
        match self {
            MouseButton::Left => 0,
            MouseButton::Right => 1,
            MouseButton::Middle => 2,
            MouseButton::Back => 3,
            MouseButton::Forward => 4,
        }
    }
}

/// The operating system family, as far as keyboard shortcuts care.
#[derive(Debug, Clone, Copy, PartialEq, Eq, Structural)]
pub enum Platform {
    /// macOS, where shortcuts are held under Command.
    MacOs,
    /// Everything else, where shortcuts are held under Ctrl.
    Other,
}

/// Which modifier keys were down.
#[derive(Debug, Clone, Copy, PartialEq, Eq, Structural)]
pub struct Modifiers {
    /// Either Shift.
    pub shift: bool,
    /// Either Ctrl.
    pub ctrl: bool,
    /// Either Alt (Option on macOS).
    pub alt: bool,
    /// The platform "logo" key: Windows, Command, or Super.
    pub logo: bool,
}

/// No modifier down.
pub open spec fn no_modifiers() -> Modifiers {
    Modifiers { shift: false, ctrl: false, alt: false, logo: false }
}

/// Whether the shortcut modifier of `platform` is down in `m`.
pub open spec fn command_down(m: Modifiers, platform: Platform) -> bool {
    match platform {
        Platform::MacOs => m.logo,
        Platform::Other => m.ctrl,
    }
}

impl Default for Modifiers {
    fn default() -> (m: Self)
        ensures
            m == no_modifiers(),
    {
        Modifiers { shift: false, ctrl: false, alt: false, logo: false }
    }
}

impl Modifiers {
    /// Whether the platform's **shortcut** modifier is down: Command on macOS,
    /// Ctrl everywhere else. Bind `Ctrl+C`-shaped shortcuts through this.
    pub fn command(&self, platform: Platform) -> (down: bool)
        ensures
            down == command_down(*self, platform),
    {
        match platform {
            Platform::MacOs => self.logo,
            Platform::Other => self.ctrl,
        }
    }

    /// Whether no modifier at all is down.
    pub fn none(&self) -> (r: bool)
        ensures
            r == (*self == no_modifiers()),
    {
        !self.shift && !self.ctrl && !self.alt && !self.logo
    }
}

/// On every platform, exactly one of "Ctrl alone" and "the logo key alone" is
/// the shortcut modifier.
pub proof fn lemma_command_is_one_of_ctrl_and_logo(platform: Platform)
    ensures
        command_down(Modifiers { ctrl: true, ..no_modifiers() }, platform) != command_down(
            Modifiers { logo: true, ..no_modifiers() },
            platform,
        ),
        command_down(Modifiers { ctrl: true, ..no_modifiers() }, platform) <==> platform
            == Platform::Other,
{
}

/// One keyboard transition, as recorded in the event log.
#[derive(Debug, Clone, Copy, PartialEq, Eq, Structural)]
pub struct KeyEvent {
    /// Which key moved.
    pub key: Key,
    /// `true` on the way down, `false` on the way up.
    pub pressed: bool,
    /// Whether this is the operating system's auto-repeat rather than a fresh
    /// press.
    pub repeat: bool,
    /// The modifiers that were down at the moment of the transition.
    pub modifiers: Modifiers,
}

/// One entry in the ordered per-frame input log.
#[derive(Debug, Clone, Copy, PartialEq, Eq, Structural)]
pub enum Event {
    /// A key went down or came up.
    Key(KeyEvent),
    /// A character was typed, already resolved by the platform's layout. Never
    /// a control character.
    Text(char),
}

/// Whether `m` makes a keystroke a **shortcut** rather than typing: Ctrl
/// without Alt (Ctrl+Alt is AltGr on European layouts, which types), or the
/// logo key.
pub open spec fn shortcut_held(m: Modifiers) -> bool {
    (m.ctrl && !m.alt) || m.logo
}

/// Whether `modifiers` make the keystroke a shortcut rather than typing.
pub fn is_shortcut(modifiers: Modifiers) -> (r: bool)
    ensures
        r == shortcut_held(modifiers),
{
    (modifiers.ctrl && !modifiers.alt) || modifiers.logo
}

/// Whether a keystroke asks for a paste: `V` going down under the platform's
/// shortcut modifier.
pub open spec fn paste_stroke(key: Option<Key>, pressed: bool, modifiers: Modifiers, platform: Platform) -> bool {
    pressed && key == Some(Key::V) && command_down(modifiers, platform)
}

/// Whether a keystroke asks for a paste, judged with the modifiers down
/// before it.
pub fn is_paste(key: Option<Key>, pressed: bool, modifiers: Modifiers, platform: Platform) -> (r: bool)
    ensures
        r == paste_stroke(key, pressed, modifiers, platform),
{
    let is_v = match key {
        Some(Key::V) => true,
        _ => false,
    };
    pressed && is_v && modifiers.command(platform)
}

/// A paste stroke types no `v`: its shortcut modifier makes it a shortcut,
/// unless Alt is held with Ctrl (AltGr), which types.
pub proof fn lemma_paste_types_no_v(v: InputView, repeat: bool, text: Option<Seq<char>>, platform: Platform)
    requires
        paste_stroke(Some(Key::V), true, v.modifiers, platform),
        !(platform == Platform::Other && v.modifiers.alt),
    ensures
        v.keyboard(Some(Key::V), true, repeat, text).events == v.push_key(Key::V, true, repeat).events,
{
}

/// Unicode's control characters (general category `Cc`): U+0000 to U+001F
/// and U+007F to U+009F.
pub open spec fn is_control(c: char) -> bool {
    (c as u32) <= 0x1f || (0x7f <= (c as u32) && (c as u32) <= 0x9f)
}

/// Whether `c` is a control character.
pub fn char_is_control(c: char) -> (r: bool)
    ensures
        r == is_control(c),
{
    let code = c as u32;
    code <= 0x1f || (0x7f <= code && code <= 0x9f)
}

/// Which inputs an orbiting camera should read on a given frame.
///
/// Three flags rather than one, because they are gated by different things:
/// the pointer belongs to the UI when it is over a panel, the keyboard only
/// while a text field has focus, and which button orbits is the consumer's
/// policy.
#[derive(Debug, Clone, Copy, PartialEq, Eq, Structural)]
pub struct OrbitInput {
    /// Whether a mouse drag should turn the camera this frame.
    pub drag: bool,
    /// Whether the arrow keys should turn the camera this frame.
    pub keys: bool,
    /// Whether the wheel should zoom this frame.
    pub zoom: bool,
}

impl OrbitInput {
    /// Read everything: the right answer for a demo with no UI over its
    /// scene.
    pub fn all() -> (o: OrbitInput)
        ensures
            o.drag && o.keys && o.zoom,
    {
        OrbitInput { drag: true, keys: true, zoom: true }
    }

    /// Read nothing. The camera still clamps and still reports an eye.
    pub fn none() -> (o: OrbitInput)
        ensures
            !o.drag && !o.keys && !o.zoom,
    {
        OrbitInput { drag: false, keys: false, zoom: false }
    }
}

/// The events that typing the characters of `s` adds to the log: one
/// [`Event::Text`] per character, control characters left out.
pub open spec fn typed(s: Seq<char>) -> Seq<Event>
    decreases s.len(),
{
    if s.len() == 0 {
        Seq::empty()
    } else if is_control(s.last()) {
        typed(s.drop_last())
    } else {
        typed(s.drop_last()).push(Event::Text(s.last()))
    }
}

/// Typing one more character adds at most one event, at the end.
pub proof fn lemma_typed_push(s: Seq<char>, c: char)
    ensures
        is_control(c) ==> typed(s.push(c)) == typed(s),
        !is_control(c) ==> typed(s.push(c)) == typed(s).push(Event::Text(c)),
{
    assert(s.push(c).drop_last() =~= s);
}

/// Pushing onto a concatenation pushes onto its second half.
proof fn lemma_push_after_append(a: Seq<Event>, b: Seq<Event>, x: Event)
    ensures
        (a + b).push(x) == a + b.push(x),
{
    assert((a + b).push(x) =~= a + b.push(x));
}

/// Typing the next character of `s`, a printable one, appends it to the log.
proof fn lemma_log_step_printable(before: Seq<Event>, s: Seq<char>, i: int, c: char)
    requires
        0 <= i < s.len(),
        s[i] == c,
        !is_control(c),
    ensures
        (before + typed(s.take(i))).push(Event::Text(c)) == before + typed(s.take(i + 1)),
{
    let t = s.take(i);
    lemma_typed_push(t, c);
    assert(t.push(c) =~= s.take(i + 1));
    lemma_push_after_append(before, typed(t), Event::Text(c));
}

/// Typing the next character of `s`, a control one, leaves the log alone.
proof fn lemma_log_step_control(s: Seq<char>, i: int)
    requires
        0 <= i < s.len(),
        is_control(s[i]),
    ensures
        typed(s.take(i)) == typed(s.take(i + 1)),
{
    lemma_typed_push(s.take(i), s[i]);
    assert(s.take(i).push(s[i]) =~= s.take(i + 1));
}

/// What an [`Input`] holds, as sets and a sequence.
pub struct InputView {
    /// Keys currently held down.
    pub held: Set<Key>,
    /// Keys that went down this frame, auto-repeat excluded.
    pub fresh: Set<Key>,
    /// Mouse buttons currently held down.
    pub buttons: Set<MouseButton>,
    /// Mouse buttons that went down this frame.
    pub clicked: Set<MouseButton>,
    /// The modifiers currently down.
    pub modifiers: Modifiers,
    /// This frame's events, in the order they arrived.
    pub events: Seq<Event>,
}

impl InputView {
    /// Nothing held, nothing pressed, nothing logged.
    pub open spec fn initial() -> InputView {
        InputView {
            held: Set::empty(),
            fresh: Set::empty(),
            buttons: Set::empty(),
            clicked: Set::empty(),
            modifiers: no_modifiers(),
            events: Seq::empty(),
        }
    }

    /// One key transition: held state follows it, a release-to-press that is
    /// not auto-repeat is a press edge, and the transition is logged with the
    /// modifiers that were down.
    pub open spec fn push_key(self, key: Key, pressed: bool, repeat: bool) -> InputView {
        InputView {
            held: if pressed {
                self.held.insert(key)
            } else {
                self.held.remove(key)
            },
            fresh: if pressed && !repeat && !self.held.contains(key) {
                self.fresh.insert(key)
            } else {
                self.fresh
            },
            events: self.events.push(
                Event::Key(KeyEvent { key, pressed, repeat, modifiers: self.modifiers }),
            ),
            ..self
        }
    }

    /// One typed character; a control character leaves everything as it was.
    pub open spec fn push_text(self, c: char) -> InputView {
        if is_control(c) {
            self
        } else {
            InputView { events: self.events.push(Event::Text(c)), ..self }
        }
    }

    /// A run of characters arriving at once, as if typed.
    pub open spec fn push_typed(self, s: Seq<char>) -> InputView {
        InputView { events: self.events + typed(s), ..self }
    }

    /// A whole keystroke from the platform: the transition of `key`, if it is
    /// one the engine reports, and then the text it typed, if it went down and
    /// no shortcut modifier was held.
    pub open spec fn keyboard(
        self,
        key: Option<Key>,
        pressed: bool,
        repeat: bool,
        text: Option<Seq<char>>,
    ) -> InputView {
        let moved = match key {
            Some(k) => self.push_key(k, pressed, repeat),
            None => self,
        };
        if pressed && !shortcut_held(self.modifiers) && text is Some {
            moved.push_typed(text->0)
        } else {
            moved
        }
    }

    /// A new modifier state.
    pub open spec fn set_modifiers(self, modifiers: Modifiers) -> InputView {
        InputView { modifiers, ..self }
    }

    /// One mouse button transition; a release-to-press is a press edge.
    pub open spec fn mouse_button(self, button: MouseButton, pressed: bool) -> InputView {
        InputView {
            buttons: if pressed {
                self.buttons.insert(button)
            } else {
                self.buttons.remove(button)
            },
            clicked: if pressed && !self.buttons.contains(button) {
                self.clicked.insert(button)
            } else {
                self.clicked
            },
            ..self
        }
    }

    /// The frame has been consumed: edges and log cleared, held state and
    /// modifiers kept.
    pub open spec fn end_frame(self) -> InputView {
        InputView { fresh: Set::empty(), clicked: Set::empty(), events: Seq::empty(), ..self }
    }
}

/// A press edge lasts exactly one frame: pressing a key that was up makes it
/// held and pressed, and after the frame ends it is still held but no longer
/// pressed.
pub proof fn lemma_press_edge_lasts_one_frame(v: InputView, key: Key)
    requires
        !v.held.contains(key),
    ensures
        v.push_key(key, true, false).fresh.contains(key),
        v.push_key(key, true, false).held.contains(key),
        !v.push_key(key, true, false).end_frame().fresh.contains(key),
        v.push_key(key, true, false).end_frame().held.contains(key),
{
}

/// Auto-repeat is never a press edge, but it is logged, flagged as a repeat.
pub proof fn lemma_auto_repeat_is_not_an_edge(v: InputView, key: Key)
    ensures
        v.push_key(key, true, true).fresh == v.fresh,
        v.push_key(key, true, true).held.contains(key),
        v.push_key(key, true, true).events.last() == Event::Key(
            KeyEvent { key, pressed: true, repeat: true, modifiers: v.modifiers },
        ),
{
}

/// Releasing a key and pressing it again is a fresh edge, whether or not a
/// frame ended in between.
pub proof fn lemma_release_then_press_is_fresh(v: InputView, key: Key, repeat: bool)
    ensures
        v.push_key(key, false, repeat).push_key(key, true, false).fresh.contains(key),
        v.push_key(key, false, repeat).end_frame().push_key(key, true, false).fresh.contains(key),
{
}

/// Every event carries the modifiers that were down when it happened.
pub proof fn lemma_events_carry_modifiers(v: InputView, key: Key, pressed: bool, repeat: bool)
    ensures
        v.push_key(key, pressed, repeat).events.last() == Event::Key(
            KeyEvent { key, pressed, repeat, modifiers: v.modifiers },
        ),
        v.push_key(key, pressed, repeat).events.drop_last() == v.events,
{
    assert(v.push_key(key, pressed, repeat).events.drop_last() =~= v.events);
}

/// One step of [`lemma_typed_concat`]: one more character at the end of `b`.
proof fn lemma_typed_concat_step(a: Seq<char>, rest: Seq<char>, c: char)
    requires
        typed(a + rest) == typed(a) + typed(rest),
    ensures
        typed(a + rest.push(c)) == typed(a) + typed(rest.push(c)),
{
    assert(a + rest.push(c) =~= (a + rest).push(c));
    lemma_typed_push(a + rest, c);
    lemma_typed_push(rest, c);
    if !is_control(c) {
        lemma_push_after_append(typed(a), typed(rest), Event::Text(c));
    }
}

/// Typing two runs of text one after the other logs the same as typing them
/// as one.
pub proof fn lemma_typed_concat(a: Seq<char>, b: Seq<char>)
    ensures
        typed(a + b) == typed(a) + typed(b),
    decreases b.len(),
{
    if b.len() == 0 {
        assert(a + b =~= a);
        assert(typed(a) + typed(b) =~= typed(a));
    } else {
        let rest = b.drop_last();
        lemma_typed_concat(a, rest);
        lemma_typed_concat_step(a, rest, b.last());
        assert(rest.push(b.last()) =~= b);
    }
}

/// A paste is typing: pasting `a` and then `b` logs exactly what pasting
/// `a + b` does, and both keep the events already in the log first.
pub proof fn lemma_paste_is_typing(v: InputView, a: Seq<char>, b: Seq<char>)
    ensures
        v.push_typed(a).push_typed(b) == v.push_typed(a + b),
        v.events.is_prefix_of(v.push_typed(a).events),
{
    lemma_typed_concat(a, b);
    assert(v.push_typed(a).push_typed(b).events =~= v.push_typed(a + b).events);
    assert(v.events.is_prefix_of(v.push_typed(a).events));
}

/// Whether `e` is a typed character a font can draw.
pub open spec fn is_printable_text(e: Event) -> bool {
    e is Text && !is_control(e->Text_0)
}

/// One step of [`lemma_typed_is_printable`].
proof fn lemma_typed_is_printable_step(rest: Seq<char>, c: char)
    requires
        forall|i: int| 0 <= i < typed(rest).len() ==> is_printable_text(#[trigger] typed(rest)[i]),
    ensures
        forall|i: int|
            0 <= i < typed(rest.push(c)).len() ==> is_printable_text(
                #[trigger] typed(rest.push(c))[i],
            ),
{
    lemma_typed_push(rest, c);
    if !is_control(c) {
        let t = typed(rest).push(Event::Text(c));
        assert forall|i: int| 0 <= i < t.len() implies is_printable_text(#[trigger] t[i]) by {
            if i < typed(rest).len() {
                assert(t[i] == typed(rest)[i]);
            }
        }
    }
}

/// Control characters never reach the log: everything typing adds is a
/// printable character.
pub proof fn lemma_typed_is_printable(s: Seq<char>)
    ensures
        forall|i: int| 0 <= i < typed(s).len() ==> is_printable_text(#[trigger] typed(s)[i]),
    decreases s.len(),
{
    if s.len() > 0 {
        let rest = s.drop_last();
        lemma_typed_is_printable(rest);
        lemma_typed_is_printable_step(rest, s.last());
        assert(rest.push(s.last()) =~= s);
    }
}

/// A keystroke held under a shortcut modifier types nothing: only the key
/// transition itself is logged.
pub proof fn lemma_shortcut_types_nothing(
    v: InputView,
    key: Option<Key>,
    repeat: bool,
    text: Option<Seq<char>>,
)
    requires
        shortcut_held(v.modifiers),
    ensures
        v.keyboard(key, true, repeat, text).events == match key {
            Some(k) => v.push_key(k, true, repeat).events,
            None => v.events,
        },
{
}

/// Ctrl alone and the logo key are shortcuts; Ctrl+Alt (AltGr) and Shift are
/// typing.
pub proof fn lemma_altgr_is_typing()
    ensures
        shortcut_held(Modifiers { ctrl: true, ..no_modifiers() }),
        shortcut_held(Modifiers { logo: true, ..no_modifiers() }),
        !shortcut_held(Modifiers { ctrl: true, alt: true, ..no_modifiers() }),
        !shortcut_held(Modifiers { shift: true, ..no_modifiers() }),
{
}

/// A mouse press edge lasts exactly one frame, and a release clears the held
/// state without touching the edge already recorded.
pub proof fn lemma_mouse_press_edge_lasts_one_frame(v: InputView, button: MouseButton)
    requires
        !v.buttons.contains(button),
    ensures
        v.mouse_button(button, true).clicked.contains(button),
        v.mouse_button(button, true).buttons.contains(button),
        !v.mouse_button(button, true).end_frame().clicked.contains(button),
        v.mouse_button(button, true).end_frame().buttons.contains(button),
        v.mouse_button(button, true).mouse_button(button, false).clicked.contains(button),
        !v.mouse_button(button, true).mouse_button(button, false).buttons.contains(button),
{
}

/// Ending a frame keeps every level (held keys and buttons, modifiers) and
/// clears every edge and the log.
pub proof fn lemma_end_frame_keeps_levels(v: InputView)
    ensures
        v.end_frame().held == v.held,
        v.end_frame().buttons == v.buttons,
        v.end_frame().modifiers == v.modifiers,
        v.end_frame().fresh.is_empty(),
        v.end_frame().clicked.is_empty(),
        v.end_frame().events.len() == 0,
{
}

/// A snapshot of input the consumer reads once per frame.
#[derive(Debug)]
pub struct Input {
    /// Held state per [`Key`], indexed by [`Key::index`].
    keys: Vec<bool>,
    /// Keys that went down this frame, auto-repeat excluded.
    keys_pressed: Vec<bool>,
    /// Held state per [`MouseButton`], indexed by [`MouseButton::index`].
    buttons: Vec<bool>,
    /// Buttons that went down this frame.
    pressed: Vec<bool>,
    /// Which modifiers are currently down.
    modifiers: Modifiers,
    /// This frame's keyboard events, in the order they arrived.
    events: Vec<Event>,
}

impl View for Input {
    type V = InputView;

    closed spec fn view(&self) -> InputView {
        InputView {
            held: Set::new(|k: Key| self.keys@[key_index(k) as int]),
            fresh: Set::new(|k: Key| self.keys_pressed@[key_index(k) as int]),
            buttons: Set::new(|b: MouseButton| self.buttons@[button_index(b) as int]),
            clicked: Set::new(|b: MouseButton| self.pressed@[button_index(b) as int]),
            modifiers: self.modifiers,
            events: self.events@,
        }
    }
}

impl Default for Input {
    fn default() -> (input: Self)
        ensures
            input.wf(),
            input@ == InputView::initial(),
    {
        Input::new()
    }
}

/// `n` copies of `false`.
fn falses(n: usize) -> (v: Vec<bool>)
    ensures
        v.len() == n,
        forall|i: int| 0 <= i < n ==> !#[trigger] v@[i],
{
    let mut v: Vec<bool> = Vec::new();
    while v.len() < n
        invariant
            v.len() <= n,
            forall|i: int| 0 <= i < v.len() ==> !#[trigger] v@[i],
        decreases n - v.len(),
    {
        v.push(false);
    }
    v
}

impl Input {
    /// The held and pressed tables have one entry per key and per button.
    pub closed spec fn wf(&self) -> bool {
        &&& self.keys.len() == Key::COUNT
        &&& self.keys_pressed.len() == Key::COUNT
        &&& self.buttons.len() == MouseButton::COUNT
        &&& self.pressed.len() == MouseButton::COUNT
    }

    /// Nothing held, nothing pressed, nothing logged.
    pub fn new() -> (input: Input)
        ensures
            input.wf(),
            input@ == InputView::initial(),
    {
        let input = Input {
            keys: falses(Key::COUNT),
            keys_pressed: falses(Key::COUNT),
            buttons: falses(MouseButton::COUNT),
            pressed: falses(MouseButton::COUNT),
            modifiers: Modifiers { shift: false, ctrl: false, alt: false, logo: false },
            events: Vec::new(),
        };
        assert(input@.held =~= Set::empty());
        assert(input@.fresh =~= Set::empty());
        assert(input@.buttons =~= Set::empty());
        assert(input@.clicked =~= Set::empty());
        input
    }

    /// Whether `key` is currently held down.
    pub fn is_key_held(&self, key: Key) -> (r: bool)
        requires
            self.wf(),
        ensures
            r == self@.held.contains(key),
    {
        self.keys[key.index()]
    }

    /// Whether `key` went down this frame: a press edge, true for one frame
    /// only, and not repeated by auto-repeat.
    pub fn is_key_pressed(&self, key: Key) -> (r: bool)
        requires
            self.wf(),
        ensures
            r == self@.fresh.contains(key),
    {
        self.keys_pressed[key.index()]
    }

    /// Which modifier keys are currently down.
    pub fn modifiers(&self) -> (m: Modifiers)
        ensures
            m == self@.modifiers,
    {
        self.modifiers
    }

    /// This frame's keyboard events, in the order they arrived.
    pub fn events(&self) -> (events: &[Event])
        ensures
            events@ == self@.events,
    {
        self.events.as_slice()
    }

    /// Whether `button` is currently held down.
    pub fn is_mouse_held(&self, button: MouseButton) -> (r: bool)
        requires
            self.wf(),
        ensures
            r == self@.buttons.contains(button),
    {
        self.buttons[button.index()]
    }

    /// Fold one key transition into the held state, the press edges, and the
    /// log.
    pub fn push_key(&mut self, key: Key, pressed: bool, repeat: bool)
        requires
            old(self).wf(),
        ensures
            final(self).wf(),
            final(self)@ == old(self)@.push_key(key, pressed, repeat),
    {
        let i = key.index();
        let was_held = self.keys[i];
        let ghost before = self@;
        if pressed && !repeat && !was_held {
            self.keys_pressed.set(i, true);
        }
        self.keys.set(i, pressed);
        let modifiers = self.modifiers;
        self.events.push(Event::Key(KeyEvent { key, pressed, repeat, modifiers }));
        proof {
            let after = before.push_key(key, pressed, repeat);
            assert forall|k: Key| #[trigger] self@.held.contains(k) == after.held.contains(k) by {
                lemma_key_index_injective(k, key);
            }
            assert forall|k: Key| #[trigger] self@.fresh.contains(k) == after.fresh.contains(
                k,
            ) by {
                lemma_key_index_injective(k, key);
            }
            assert(self@.held =~= after.held);
            assert(self@.fresh =~= after.fresh);
            assert(self@.buttons =~= after.buttons);
            assert(self@.clicked =~= after.clicked);
        }
    }

    /// Append one typed character, unless it is a control code.
    pub fn push_text(&mut self, ch: char)
        requires
            old(self).wf(),
        ensures
            final(self).wf(),
            final(self)@ == old(self)@.push_text(ch),
    {
        let ghost before = self@;
        if !char_is_control(ch) {
            self.events.push(Event::Text(ch));
        }
        proof {
            assert(self@.held =~= before.held);
            assert(self@.fresh =~= before.fresh);
            assert(self@.buttons =~= before.buttons);
            assert(self@.clicked =~= before.clicked);
        }
    }

    /// Feed pasted text in as if it had been typed. Newlines and the other
    /// control characters are dropped on the way in.
    pub fn push_pasted(&mut self, text: &str)
        requires
            old(self).wf(),
        ensures
            final(self).wf(),
            final(self)@ == old(self)@.push_typed(text@),
    {
        let ghost before = self@;
        let chars = crate::text::chars_of(text);
        let mut i: usize = 0;
        while i < chars.len()
            invariant
                i <= chars.len(),
                chars@ == text@,
                self@ == before.push_typed(chars@.take(i as int)),
                self.wf(),
            decreases chars.len() - i,
        {
            let c = chars[i];
            self.push_text(c);
            proof {
                if is_control(c) {
                    lemma_log_step_control(chars@, i as int);
                } else {
                    lemma_log_step_printable(before.events, chars@, i as int, c);
                }
            }
            i = i + 1;
        }
        proof {
            assert(chars@.take(i as int) =~= chars@);
        }
    }

    /// Record a whole keystroke: the transition of `key` (`None` for a key the
    /// engine does not report), then the text it typed, unless a shortcut
    /// modifier is down.
    ///
    /// A keystroke under a shortcut modifier is not typing, whatever text the
    /// platform attached to it: Windows reports `"a"` for Ctrl+A.
    pub fn on_keyboard(&mut self, key: Option<Key>, pressed: bool, repeat: bool, text: Option<&str>)
        requires
            old(self).wf(),
        ensures
            final(self).wf(),
            final(self)@ == old(self)@.keyboard(
                key,
                pressed,
                repeat,
                match text {
                    Some(t) => Some(t@),
                    None => None,
                },
            ),
    {
        let shortcut = is_shortcut(self.modifiers);
        if let Some(k) = key {
            self.push_key(k, pressed, repeat);
        }
        if pressed && !shortcut {
            if let Some(t) = text {
                self.push_pasted(t);
            }
        }
    }

    /// Record which modifiers are now down.
    pub fn on_modifiers(&mut self, modifiers: Modifiers)
        requires
            old(self).wf(),
        ensures
            final(self).wf(),
            final(self)@ == old(self)@.set_modifiers(modifiers),
    {
        let ghost before = self@;
        self.modifiers = modifiers;
        proof {
            assert(self@.held =~= before.held);
            assert(self@.fresh =~= before.fresh);
            assert(self@.buttons =~= before.buttons);
            assert(self@.clicked =~= before.clicked);
        }
    }

    /// Record a mouse button press or release.
    pub fn on_mouse_button(&mut self, button: MouseButton, pressed: bool)
        requires
            old(self).wf(),
        ensures
            final(self).wf(),
            final(self)@ == old(self)@.mouse_button(button, pressed),
    {
        let ghost before = self@;
        let i = button.index();
        if pressed && !self.buttons[i] {
            self.pressed.set(i, true);
        }
        self.buttons.set(i, pressed);
        proof {
            let after = before.mouse_button(button, pressed);
            assert(self@.held =~= after.held);
            assert(self@.fresh =~= after.fresh);
            assert(self@.buttons =~= after.buttons);
            assert(self@.clicked =~= after.clicked);
        }
    }

    /// Clear the press edges and the event log once a frame has been consumed.
    /// Held keys and buttons and the modifiers are kept.
    pub fn end_frame(&mut self)
        requires
            old(self).wf(),
        ensures
            final(self).wf(),
            final(self)@ == old(self)@.end_frame(),
    {
        let ghost before = self@;
        self.keys_pressed = falses(Key::COUNT);
        self.pressed = falses(MouseButton::COUNT);
        self.events.clear();
        proof {
            let after = before.end_frame();
            assert(self@.held =~= after.held);
            assert(self@.fresh =~= after.fresh);
            assert(self@.buttons =~= after.buttons);
            assert(self@.clicked =~= after.clicked);
            assert(self@.events =~= after.events);
        }
    }

    /// Whether `button` went down this frame.
    pub fn is_mouse_pressed(&self, button: MouseButton) -> (r: bool)
        requires
            self.wf(),
        ensures
            r == self@.clicked.contains(button),
    {
        self.pressed[button.index()]
    }
}

} // verus!
