//! The screenshot harness, as decisions: somewhere for a demo to render, a
//! way to photograph it, and a way to poke it.
//!
//! [`Harness`] tracks what the harness knows (the window's size, where the
//! pointer is as far as the demo is concerned, which process is attached) and
//! turns each verb of a capture script into the [`Op`]s the platform layer
//! performs: an X server driven by `xdotool`, or messages posted to a Win32
//! window. Both platforms share these verbs, so a script is written once.
use vstd::prelude::*;
use crate::text::{decimal, decimal_chars, string_from_chars};

pub mod win32;

verus! {

/// Which desktop the harness drives.
#[derive(Debug, Clone, Copy, PartialEq, Eq, Structural)]
pub enum Desktop {
    /// A virtual X server, photographed with `import` and poked with
    /// `xdotool`.
    X11,
    /// Win32, talked to directly; nothing to install.
    Win32,
}

/// A program the harness needs, how to ask whether it runs, and how to get it.
#[derive(Debug)]
pub struct Tool {
    /// The program.
    pub name: &'static str,
    /// An argument that makes it print and exit rather than do any work.
    pub probe: &'static str,
    /// How to install it.
    pub install: &'static str,
}

/// One thing the platform layer must do.
#[derive(Debug)]
pub enum Op {
    /// Photograph the demo's window into this file.
    Shot(String),
    /// Move the pointer, in physical pixels from the window's top-left.
    MoveTo(u32, u32),
    /// Put the left button down wherever the pointer is.
    ButtonDown,
    /// Let the left button up.
    ButtonUp,
    /// Turn the wheel one notch, up (away from the user) or down.
    WheelNotch(bool),
    /// Tap the key with this (`xdotool`) name.
    Key(String),
}

/// An [`Op`], with its names as characters.
pub enum OpView {
    /// A shot.
    Shot(Seq<char>),
    /// A pointer move.
    MoveTo(u32, u32),
    /// Button down.
    ButtonDown,
    /// Button up.
    ButtonUp,
    /// One wheel notch; `true` is up.
    WheelNotch(bool),
    /// A key tap.
    Key(Seq<char>),
}

impl View for Op {
    type V = OpView;

    open spec fn view(&self) -> OpView {
        match self {
            Op::Shot(f) => OpView::Shot(f@),
            Op::MoveTo(x, y) => OpView::MoveTo(*x, *y),
            Op::ButtonDown => OpView::ButtonDown,
            Op::ButtonUp => OpView::ButtonUp,
            Op::WheelNotch(up) => OpView::WheelNotch(*up),
            Op::Key(k) => OpView::Key(k@),
        }
    }
}

/// The ops of a list, viewed.
pub open spec fn ops_view(ops: Seq<Op>) -> Seq<OpView> {
    ops.map_values(|o: Op| o@)
}

/// What a [`Harness`] knows.
pub struct HarnessView {
    /// Where screenshots are taken relative to.
    pub root: Seq<char>,
    /// The demo's client area, in pixels.
    pub size: (u32, u32),
    /// Where the pointer is as far as the demo is concerned.
    pub cursor: (u32, u32),
    /// The X display the demo renders into, if the desktop has one.
    pub display: Option<u32>,
    /// The process being photographed, once attached.
    pub pid: Option<u32>,
    /// Whether the left button is being held.
    pub button_down: bool,
    /// Whether [`Harness::stop`] has run.
    pub stopped: bool,
}

/// Somewhere to render a demo, photograph it, and click on it.
#[derive(Debug)]
pub struct Harness {
    root: String,
    size: (u32, u32),
    cursor: (u32, u32),
    display: Option<u32>,
    pid: Option<u32>,
    button_down: bool,
    stopped: bool,
}

impl View for Harness {
    type V = HarnessView;

    closed spec fn view(&self) -> HarnessView {
        HarnessView {
            root: self.root@,
            size: self.size,
            cursor: self.cursor,
            display: self.display,
            pid: self.pid,
            button_down: self.button_down,
            stopped: self.stopped,
        }
    }
}

/// The programs each desktop needs: name, probe argument, install hint.
pub open spec fn tools_needed(desktop: Desktop) -> Seq<(Seq<char>, Seq<char>, Seq<char>)> {
    match desktop {
        Desktop::X11 => seq![
            ("Xvfb"@, "-help"@, "apt-get install xvfb"@),
            ("import"@, "-version"@, "apt-get install imagemagick"@),
            ("xdotool"@, "--version"@, "apt-get install xdotool"@),
        ],
        Desktop::Win32 => Seq::empty(),
    }
}

/// A tool as three strings.
pub open spec fn tool_view(t: Tool) -> (Seq<char>, Seq<char>, Seq<char>) {
    (t.name@, t.probe@, t.install@)
}

/// The `DISPLAY` value for display `n`.
pub open spec fn display_name(n: u32) -> Seq<char> {
    ":"@ + decimal(n as nat)
}

impl Harness {
    /// What this desktop needs installed, to be checked once, **before** a
    /// long build, naming everything that is missing.
    pub fn require_tools(desktop: Desktop) -> (tools: Vec<Tool>)
        ensures
            tools@.map_values(|t: Tool| tool_view(t)) == tools_needed(desktop),
    {
        let mut tools: Vec<Tool> = Vec::new();
        match desktop {
            Desktop::X11 => {
                tools.push(Tool { name: "Xvfb", probe: "-help", install: "apt-get install xvfb" });
                tools.push(
                    Tool { name: "import", probe: "-version", install: "apt-get install imagemagick" },
                );
                tools.push(
                    Tool { name: "xdotool", probe: "--version", install: "apt-get install xdotool" },
                );
            },
            Desktop::Win32 => {},
        }
        assert(tools@.map_values(|t: Tool| tool_view(t)) =~= tools_needed(desktop));
        tools
    }

    /// A place for the demo to appear, `w` by `h` pixels; `display` is the X
    /// display started for it, where the desktop has one.
    pub fn start(root: &str, w: u32, h: u32, display: Option<u32>) -> (h_: Harness)
        ensures
            h_@ == (HarnessView {
                root: root@,
                size: (w, h),
                cursor: (0, 0),
                display,
                pid: None,
                button_down: false,
                stopped: false,
            }),
    {
        Harness {
            root: String::from_str(root),
            size: (w, h),
            cursor: (0, 0),
            display,
            pid: None,
            button_down: false,
            stopped: false,
        }
    }

    /// The environment the demo must be launched with to land here:
    /// `DISPLAY` on X11, nothing on Windows.
    pub fn env(&self) -> (vars: Vec<(String, String)>)
        ensures
            vars@.map_values(|v: (String, String)| (v.0@, v.1@)) == match self@.display {
                Some(n) => seq![("DISPLAY"@, display_name(n))],
                None => Seq::empty(),
            },
    {
        let mut vars: Vec<(String, String)> = Vec::new();
        if let Some(n) = self.display {
            let digits = decimal_chars(n as u64);
            let mut value = String::from_str(":");
            let rest = string_from_chars(digits.as_slice());
            value.append(rest.as_str());
            vars.push((String::from_str("DISPLAY"), value));
        }
        assert(vars@.map_values(|v: (String, String)| (v.0@, v.1@)) =~= match self@.display {
            Some(n) => seq![("DISPLAY"@, display_name(n))],
            None => Seq::empty(),
        });
        vars
    }

    /// The root screenshots are taken relative to.
    pub fn root(&self) -> (r: &str)
        ensures
            r@ == self@.root,
    {
        self.root.as_str()
    }

    /// Where the pointer is as far as the demo is concerned.
    pub fn cursor(&self) -> (c: (u32, u32))
        ensures
            c == self@.cursor,
    {
        self.cursor
    }

    /// The demo's size.
    pub fn size(&self) -> (s: (u32, u32))
        ensures
            s == self@.size,
    {
        self.size
    }

    /// The attached process, if any.
    pub fn pid(&self) -> (p: Option<u32>)
        ensures
            p == self@.pid,
    {
        self.pid
    }

    /// Tell the harness which process it is photographing.
    pub fn attach(&mut self, pid: u32)
        ensures
            final(self)@ == (HarnessView { pid: Some(pid), ..old(self)@ }),
    {
        self.pid = Some(pid);
    }

    /// Photograph the demo's window into `file`.
    pub fn shot(&mut self, file: &str) -> (ops: Vec<Op>)
        ensures
            final(self)@ == old(self)@,
            ops_view(ops@) == seq![OpView::Shot(file@)],
    {
        let mut ops: Vec<Op> = Vec::new();
        ops.push(Op::Shot(String::from_str(file)));
        assert(ops_view(ops@) =~= seq![OpView::Shot(file@)]);
        ops
    }

    /// Move the pointer, in physical pixels from the window's top-left.
    pub fn mouse_move(&mut self, x: u32, y: u32) -> (ops: Vec<Op>)
        ensures
            final(self)@ == (HarnessView { cursor: (x, y), ..old(self)@ }),
            ops_view(ops@) == seq![OpView::MoveTo(x, y)],
    {
        self.cursor = (x, y);
        let mut ops: Vec<Op> = Vec::new();
        ops.push(Op::MoveTo(x, y));
        assert(ops_view(ops@) =~= seq![OpView::MoveTo(x, y)]);
        ops
    }

    /// Hold the left button down wherever the pointer is. Paired with
    /// [`Harness::release`] on a later checkpoint, this is a drag.
    pub fn press(&mut self) -> (ops: Vec<Op>)
        ensures
            final(self)@ == (HarnessView { button_down: true, ..old(self)@ }),
            ops_view(ops@) == seq![OpView::ButtonDown],
    {
        self.button_down = true;
        let mut ops: Vec<Op> = Vec::new();
        ops.push(Op::ButtonDown);
        assert(ops_view(ops@) =~= seq![OpView::ButtonDown]);
        ops
    }

    /// Let the left button back up.
    pub fn release(&mut self) -> (ops: Vec<Op>)
        ensures
            final(self)@ == (HarnessView { button_down: false, ..old(self)@ }),
            ops_view(ops@) == seq![OpView::ButtonUp],
    {
        self.button_down = false;
        let mut ops: Vec<Op> = Vec::new();
        ops.push(Op::ButtonUp);
        assert(ops_view(ops@) =~= seq![OpView::ButtonUp]);
        ops
    }

    /// Press and release the left button wherever the pointer is: defined as
    /// the pair, so a click and a scripted press and release cannot drift
    /// apart.
    pub fn click(&mut self) -> (ops: Vec<Op>)
        ensures
            final(self)@ == (HarnessView { button_down: false, ..old(self)@ }),
            ops_view(ops@) == seq![OpView::ButtonDown, OpView::ButtonUp],
    {
        let mut ops = self.press();
        let mut up = self.release();
        let ghost first = ops@;
        let ghost second = up@;
        assert(ops_view(first).len() == 1 && ops_view(first)[0] == OpView::ButtonDown);
        assert(ops_view(second).len() == 1 && ops_view(second)[0] == OpView::ButtonUp);
        assert(first.len() == 1 && second.len() == 1);
        ops.append(&mut up);
        assert(ops@ == first + second);
        assert(ops@[0] == first[0]);
        assert(ops@[1] == second[0]);
        assert(first[0]@ == OpView::ButtonDown);
        assert(second[0]@ == OpView::ButtonUp);
        assert(ops_view(ops@) =~= seq![OpView::ButtonDown, OpView::ButtonUp]);
        ops
    }

    /// Turn the wheel by `notches`, negative to scroll down: one notch at a
    /// time, all the same way.
    pub fn wheel(&mut self, notches: i32) -> (ops: Vec<Op>)
        ensures
            final(self)@ == old(self)@,
            ops@.len() == if notches < 0 {
                -(notches as int)
            } else {
                notches as int
            },
            forall|i: int| 0 <= i < ops@.len() ==> #[trigger] ops@[i]@ == OpView::WheelNotch(notches > 0),
    {
        let count: u32 = if notches < 0 {
            if notches == i32::MIN {
                0x8000_0000
            } else {
                (0 - notches) as u32
            }
        } else {
            notches as u32
        };
        let up = notches >= 0;
        let mut ops: Vec<Op> = Vec::new();
        let mut i: u32 = 0;
        while i < count
            invariant
                i <= count,
                ops@.len() == i,
                forall|k: int| 0 <= k < ops@.len() ==> #[trigger] ops@[k]@ == OpView::WheelNotch(up),
            decreases count - i,
        {
            ops.push(Op::WheelNotch(up));
            i = i + 1;
        }
        ops
    }

    /// Tap a key, named the way a capture script names it (`space`,
    /// `Escape`, `w`).
    pub fn key(&mut self, name: &str) -> (ops: Vec<Op>)
        ensures
            final(self)@ == old(self)@,
            ops_view(ops@) == seq![OpView::Key(name@)],
    {
        let mut ops: Vec<Op> = Vec::new();
        ops.push(Op::Key(String::from_str(name)));
        assert(ops_view(ops@) =~= seq![OpView::Key(name@)]);
        ops
    }

    /// Tear down whatever [`Harness::start`] built.
    pub fn stop(&mut self)
        ensures
            final(self)@ == (HarnessView { stopped: true, ..old(self)@ }),
    {
        self.stopped = true;
    }

    /// Whether the harness has been stopped.
    pub fn is_stopped(&self) -> (r: bool)
        ensures
            r == self@.stopped,
    {
        self.stopped
    }
}

} // verus!
