//! Identity for immediate-mode widgets.
//!
//! An immediate-mode UI re-creates its widgets every frame, so a widget is
//! recognised across frames by an id derived from its label and its place in
//! the frame's call order: a slider being dragged is the same slider next
//! frame because it gets the same id. Layout and drawing are floating point
//! and live with the renderer.
use vstd::prelude::*;
use vstd::string::StringSliceAdditionalSpecFns;

verus! {

/// FNV-1a's 64-bit offset basis.
pub const FNV_OFFSET: u64 = 0xcbf2_9ce4_8422_2325;

/// FNV-1a's 64-bit prime.
pub const FNV_PRIME: u64 = 0x0000_0100_0000_01b3;

/// Multiplication modulo 2^64, as `u64::wrapping_mul`.
pub open spec fn wrap_mul(x: u64, y: u64) -> u64 {
    ((x as nat * y as nat) % 0x1_0000_0000_0000_0000) as u64
}

/// FNV-1a over `bytes`, starting from `h`: xor each byte in, then multiply by
/// the prime.
pub open spec fn fnv1a(h: u64, bytes: Seq<u8>) -> u64
    decreases bytes.len(),
{
    if bytes.len() == 0 {
        h
    } else {
        wrap_mul(fnv1a(h, bytes.drop_last()) ^ (bytes.last() as u64), FNV_PRIME)
    }
}

/// The id of the `seq`-th widget of a frame, labelled `label`: FNV-1a over
/// the label, seeded with the call index so that two widgets with the same
/// label still get distinct ids.
pub open spec fn widget_id_spec(seq: u64, label: Seq<u8>) -> u64 {
    fnv1a(FNV_OFFSET ^ wrap_mul(seq, FNV_PRIME), label)
}

/// The id of the `seq`-th widget of a frame, labelled `label`.
pub fn widget_id(seq: u64, label: &str) -> (id: u64)
    ensures
        id == widget_id_spec(seq, label.spec_bytes()),
{
    let bytes = label.as_bytes();
    let mut h: u64 = FNV_OFFSET ^ seq.wrapping_mul(FNV_PRIME);
    let mut i: usize = 0;
    while i < bytes.len()
        invariant
            i <= bytes@.len(),
            bytes@ == label.spec_bytes(),
            h == fnv1a(FNV_OFFSET ^ wrap_mul(seq, FNV_PRIME), bytes@.take(i as int)),
        decreases bytes.len() - i,
    {
        proof {
            let t = bytes@.take(i as int + 1);
            assert(t.drop_last() =~= bytes@.take(i as int));
            assert(t.last() == bytes@[i as int]);
        }
        h = (h ^ (bytes[i] as u64)).wrapping_mul(FNV_PRIME);
        i = i + 1;
    }
    assert(bytes@.take(i as int) =~= bytes@);
    h
}

/// Hands out widget ids in call order, one frame at a time.
#[derive(Debug)]
pub struct WidgetIds {
    seq: u64,
}

impl WidgetIds {
    /// The first widget of a frame.
    pub fn new() -> (ids: WidgetIds)
        ensures
            ids.next_seq() == 0,
    {
        WidgetIds { seq: 0 }
    }

    /// How many ids this frame has handed out.
    pub closed spec fn next_seq(&self) -> u64 {
        self.seq
    }

    /// The id of the next widget, labelled `label`.
    pub fn next_id(&mut self, label: &str) -> (id: u64)
        requires
            old(self).next_seq() < u64::MAX,
        ensures
            id == widget_id_spec(old(self).next_seq(), label.spec_bytes()),
            final(self).next_seq() == old(self).next_seq() + 1,
    {
        let id = widget_id(self.seq, label);
        self.seq = self.seq + 1;
        id
    }
}

/// Which widget, if any, holds the pointer for a drag, across frames.
#[derive(Debug)]
pub struct DragState {
    active: Option<u64>,
}

/// Who holds the drag after a widget `id` looks at the pointer: a press over
/// it captures the drag, and the drag it holds ends once the button is up.
pub open spec fn drag_after(active: Option<u64>, id: u64, hovered: bool, pressed: bool, held: bool) -> Option<u64> {
    let captured = if hovered && pressed {
        Some(id)
    } else {
        active
    };
    if captured == Some(id) && !held {
        None
    } else {
        captured
    }
}

impl DragState {
    /// Nobody is dragging.
    pub fn new() -> (d: DragState)
        ensures
            d.holder() == None::<u64>,
    {
        DragState { active: None }
    }

    /// The widget holding the drag.
    pub closed spec fn holder(&self) -> Option<u64> {
        self.active
    }

    /// Whether some widget holds the drag, which means the pointer belongs to
    /// the UI wherever it is.
    pub fn is_dragging(&self) -> (r: bool)
        ensures
            r == (self.holder() is Some),
    {
        self.active.is_some()
    }

    /// Widget `id` looks at the pointer: `hovered` over it, the left button
    /// `pressed` this frame and `held` now. Returns whether it holds the drag.
    pub fn update(&mut self, id: u64, hovered: bool, pressed: bool, held: bool) -> (mine: bool)
        ensures
            final(self).holder() == drag_after(old(self).holder(), id, hovered, pressed, held),
            mine == (final(self).holder() == Some(id)),
    {
        if hovered && pressed {
            self.active = Some(id);
        }
        if self.active == Some(id) && !held {
            self.active = None;
        }
        self.active == Some(id)
    }
}

/// A drag belongs to one widget: another widget looking at the pointer
/// without a press over it leaves the drag where it is, and the holder keeps
/// it for as long as the button stays down.
pub proof fn lemma_drag_stays_with_its_widget(active: u64, other: u64, hovered: bool, held: bool)
    requires
        other != active,
    ensures
        drag_after(Some(active), other, hovered, false, held) == Some(active),
        drag_after(Some(active), active, hovered, false, true) == Some(active),
        drag_after(Some(active), active, hovered, false, false) == None::<u64>,
{
}

} // verus!
