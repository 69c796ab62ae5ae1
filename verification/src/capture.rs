//! Capture mode: run a demo to exact frame numbers and hold it there.
//!
//! A screenshot harness needs a picture that is a pure function of the frame
//! index. The engine pins its frame delta (that part is floating point and the
//! engine's), and this type does the rest: it counts frames, announces each
//! requested checkpoint as it is reached, and holds the frame loop there until
//! the harness says go.
use vstd::prelude::*;
use crate::text::{chars_of, parse_u64, parse_u64_spec, split_any, trim_range, trim_spec, fields, lemma_fields_nonempty};

verus! {

/// Whether `s` is strictly increasing: sorted, and nothing twice.
pub open spec fn strictly_increasing(s: Seq<u64>) -> bool {
    forall|i: int, j: int| 0 <= i < j < s.len() ==> s[i] < s[j]
}

/// Add `x` to the strictly increasing `v`, keeping it so.
pub fn insert_sorted(v: &mut Vec<u64>, x: u64)
    requires
        strictly_increasing(old(v)@),
    ensures
        strictly_increasing(final(v)@),
        final(v)@.to_set() == old(v)@.to_set().insert(x),
{
    let mut i: usize = 0;
    while i < v.len() && v[i] < x
        invariant
            i <= v.len(),
            forall|j: int| 0 <= j < i ==> v@[j] < x,
        decreases v.len() - i,
    {
        i = i + 1;
    }
    let ghost before = v@;
    if i < v.len() && v[i] == x {
        assert(before.to_set().insert(x) =~= before.to_set());
    } else {
        v.insert(i, x);
        proof {
            assert(v@ =~= before.take(i as int).push(x) + before.skip(i as int));
            assert forall|y: u64| #[trigger] v@.to_set().contains(y) == before.to_set().insert(
                x,
            ).contains(y) by {
                if before.contains(y) {
                    let k = choose|k: int| 0 <= k < before.len() && before[k] == y;
                    if k < i {
                        assert(v@[k] == y);
                    } else {
                        assert(v@[k + 1] == y);
                    }
                }
                if v@.contains(y) {
                    let k = choose|k: int| 0 <= k < v@.len() && v@[k] == y;
                    if k < i {
                        assert(before[k] == y);
                    } else if k > i {
                        assert(before[k - 1] == y);
                    }
                }
                assert(v@[i as int] == x);
            }
            assert(v@.to_set() =~= before.to_set().insert(x));
        }
    }
}

/// The frame numbers `raw` asks for: its comma-separated fields, trimmed,
/// that read as a positive `u64`. Anything else is ignored.
pub open spec fn requested_frames(raw: Seq<char>) -> Set<u64> {
    Set::new(
        |n: u64|
            n > 0 && exists|k: int|
                0 <= k < fields(raw, ',', ',').len() && parse_u64_spec(
                    trim_spec(#[trigger] fields(raw, ',', ',')[k]),
                ) == Some(n),
    )
}

/// The checkpoints a comma-separated list of frame numbers asks for, sorted,
/// each once. Fields that are empty, zero or not a number are ignored.
pub fn parse_checkpoints(raw: &str) -> (frames: Vec<u64>)
    ensures
        strictly_increasing(frames@),
        frames@.to_set() == requested_frames(raw@),
{
    let chars = chars_of(raw);
    let ranges = split_any(chars.as_slice(), 0, chars.len(), ',', ',');
    let ghost f = fields(chars@.subrange(0, chars@.len() as int), ',', ',');
    proof {
        assert(chars@.subrange(0, chars@.len() as int) =~= raw@);
    }
    let mut frames: Vec<u64> = Vec::new();
    let mut k: usize = 0;
    while k < ranges.len()
        invariant
            k <= ranges.len(),
            chars@ == raw@,
            f == fields(raw@, ',', ','),
            crate::text::ranges_of(chars@, ranges@, f, 0, chars@.len() as int),
            strictly_increasing(frames@),
            frames@.to_set() == Set::new(
                |n: u64|
                    n > 0 && exists|j: int|
                        0 <= j < k && parse_u64_spec(trim_spec(#[trigger] f[j])) == Some(n),
            ),
        decreases ranges.len() - k,
    {
        let (lo, hi) = ranges[k];
        let (a, b) = trim_range(chars.as_slice(), lo, hi);
        let ghost before = frames@.to_set();
        let parsed = parse_u64(chars.as_slice(), a, b);
        proof {
            assert(chars@.subrange(lo as int, hi as int) == f[k as int]);
        }
        if let Some(n) = parsed {
            if n > 0 {
                insert_sorted(&mut frames, n);
            }
        }
        proof {
            let next = Set::new(
                |m: u64|
                    m > 0 && exists|j: int|
                        0 <= j < k + 1 && parse_u64_spec(trim_spec(#[trigger] f[j])) == Some(m),
            );
            assert forall|m: u64| #[trigger] frames@.to_set().contains(m) == next.contains(m) by {
                if next.contains(m) {
                    let j = choose|j: int|
                        0 <= j < k + 1 && parse_u64_spec(trim_spec(#[trigger] f[j])) == Some(m);
                    if j < k {
                        assert(before.contains(m));
                    }
                }
                if before.contains(m) {
                    let j = choose|j: int|
                        0 <= j < k && parse_u64_spec(trim_spec(#[trigger] f[j])) == Some(m);
                    assert(0 <= j < k + 1);
                }
            }
            assert(frames@.to_set() =~= next);
        }
        k = k + 1;
    }
    proof {
        assert(frames@.to_set() =~= requested_frames(raw@));
    }
    frames
}

/// What the frame loop should do this frame.
#[derive(Debug, Clone, Copy, PartialEq, Eq, Structural)]
pub enum Step {
    /// Not held: render normally.
    Running,
    /// Held on a checkpoint: redraw the same frame, advance nothing.
    Frozen,
    /// Just released: this frame advances again.
    Resumed,
}

/// What the harness's release channel held when it was asked.
#[derive(Debug, Clone, Copy, PartialEq, Eq, Structural)]
pub enum Resume {
    /// A release arrived.
    Released,
    /// Nothing yet.
    Waiting,
    /// The harness is gone; holding on would hang forever.
    Disconnected,
}

/// What a [`Capture`] holds.
pub struct CaptureView {
    /// Checkpoints not yet reached, in order.
    pub checkpoints: Seq<u64>,
    /// Frames completed so far.
    pub frame: u64,
    /// Whether the loop is held on a checkpoint.
    pub frozen: bool,
}

impl CaptureView {
    /// Checkpoints are strictly increasing and all still ahead.
    pub open spec fn wf(self) -> bool {
        &&& strictly_increasing(self.checkpoints)
        &&& forall|i: int| 0 <= i < self.checkpoints.len() ==> self.frame < #[trigger] self.checkpoints[i]
    }

    /// One more frame completed; the checkpoint it reaches, if any, is
    /// announced and the loop held there.
    pub open spec fn end_frame(self) -> (CaptureView, Option<u64>) {
        let frame = (self.frame + 1) as u64;
        if self.checkpoints.len() > 0 && self.checkpoints[0] == frame {
            (CaptureView { checkpoints: self.checkpoints.drop_first(), frame, frozen: true }, Some(frame))
        } else {
            (CaptureView { frame, ..self }, None)
        }
    }

    /// The state after `n` more frames, and the checkpoints announced on the
    /// way, in order.
    pub open spec fn run(self, n: nat) -> (CaptureView, Seq<u64>)
        decreases n,
    {
        if n == 0 {
            (self, Seq::empty())
        } else {
            let (mid, said) = self.run((n - 1) as nat);
            let (next, hit) = mid.end_frame();
            (
                next,
                match hit {
                    Some(f) => said.push(f),
                    None => said,
                },
            )
        }
    }
}

/// Counts frames and holds the loop on each requested checkpoint.
#[derive(Debug)]
pub struct Capture {
    checkpoints: Vec<u64>,
    frame: u64,
    frozen: bool,
}

impl View for Capture {
    type V = CaptureView;

    closed spec fn view(&self) -> CaptureView {
        CaptureView { checkpoints: self.checkpoints@, frame: self.frame, frozen: self.frozen }
    }
}

impl Capture {
    /// Capture mode from its two settings: whether a pinned frame delta was
    /// given, and the raw list of checkpoint frames, if any. With neither,
    /// this is not a capture run.
    pub fn from_settings(has_dt: bool, frames: Option<&str>) -> (c: Option<Capture>)
        ensures
            match c {
                Some(c) => {
                    &&& c@.wf()
                    &&& c@.frame == 0
                    &&& !c@.frozen
                    &&& c@.checkpoints.to_set() == match frames {
                        Some(raw) => requested_frames(raw@),
                        None => Set::empty(),
                    }
                    &&& (has_dt || c@.checkpoints.len() > 0)
                },
                None => !has_dt && match frames {
                    Some(raw) => requested_frames(raw@).is_empty(),
                    None => true,
                },
            },
    {
        let checkpoints = match frames {
            Some(raw) => parse_checkpoints(raw),
            None => Vec::new(),
        };
        proof {
            if frames is None {
                assert(checkpoints@.to_set() =~= Set::<u64>::empty());
            }
        }
        if !has_dt && checkpoints.len() == 0 {
            proof {
                assert(checkpoints@ =~= Seq::<u64>::empty());
            }
            return None;
        }
        proof {
            assert forall|i: int| 0 <= i < checkpoints@.len() implies 0 < #[trigger] checkpoints@[i] by {
                assert(checkpoints@.to_set().contains(checkpoints@[i]));
            }
            if checkpoints@.len() > 0 {
                assert(checkpoints@.to_set().contains(checkpoints@[0]));
            }
        }
        Some(Capture { checkpoints, frame: 0, frozen: false })
    }

    /// Whether the loop is held on a checkpoint, the only time the release
    /// channel should be asked anything.
    pub fn is_frozen(&self) -> (r: bool)
        ensures
            r == self@.frozen,
    {
        self.frozen
    }

    /// How many frames have completed.
    pub fn frame(&self) -> (f: u64)
        ensures
            f == self@.frame,
    {
        self.frame
    }

    /// Decide this frame: run on when not held; while held, stay frozen until
    /// the harness releases the frame or goes away.
    pub fn step(&mut self, resume: Resume) -> (s: Step)
        ensures
            !old(self)@.frozen ==> s == Step::Running && final(self)@ == old(self)@,
            old(self)@.frozen && resume == Resume::Waiting ==> s == Step::Frozen && final(self)@
                == old(self)@,
            old(self)@.frozen && resume != Resume::Waiting ==> s == Step::Resumed && final(self)@
                == (CaptureView { frozen: false, ..old(self)@ }),
    {
        if !self.frozen {
            return Step::Running;
        }
        match resume {
            Resume::Released | Resume::Disconnected => {
                self.frozen = false;
                Step::Resumed
            },
            Resume::Waiting => Step::Frozen,
        }
    }

    /// A frame has been presented. Returns the checkpoint it reached, if any,
    /// which the caller announces; the loop is then held there.
    pub fn end_frame(&mut self) -> (hit: Option<u64>)
        requires
            old(self)@.wf(),
            old(self)@.frame < u64::MAX,
        ensures
            (final(self)@, hit) == old(self)@.end_frame(),
            final(self)@.wf(),
    {
        self.frame = self.frame + 1;
        if self.checkpoints.len() > 0 && self.checkpoints[0] == self.frame {
            let ghost before = self.checkpoints@;
            self.checkpoints.remove(0);
            self.frozen = true;
            proof {
                assert(self.checkpoints@ =~= before.drop_first());
            }
            Some(self.frame)
        } else {
            proof {
                if self.checkpoints@.len() > 0 {
                    assert(self.checkpoints@[0] > self.frame);
                }
            }
            None
        }
    }
}

/// Every checkpoint is announced exactly once, in order, on the frame it
/// names: after `n` frames the announcements are the checkpoints up to the
/// frame reached, and the rest are still ahead.
pub proof fn lemma_every_checkpoint_announced_once(v: CaptureView, n: nat)
    requires
        v.wf(),
        v.frame + n <= u64::MAX,
    ensures
        v.run(n).1 + v.run(n).0.checkpoints == v.checkpoints,
        v.run(n).0.frame == v.frame + n,
        v.run(n).0.wf(),
        forall|i: int| 0 <= i < v.run(n).1.len() ==> #[trigger] v.run(n).1[i] <= v.frame + n,
    decreases n,
{
    if n > 0 {
        lemma_every_checkpoint_announced_once(v, (n - 1) as nat);
        let (mid, said) = v.run((n - 1) as nat);
        let (next, hit) = mid.end_frame();
        match hit {
            Some(f) => {
                assert(said.push(f) + next.checkpoints =~= said + mid.checkpoints);
            },
            None => {
                if mid.checkpoints.len() > 0 {
                    assert(mid.checkpoints[0] > mid.frame + 1);
                }
            },
        }
        assert forall|i: int| 0 <= i < next.checkpoints.len() implies next.frame
            < #[trigger] next.checkpoints[i] by {
            if hit is Some {
                assert(next.checkpoints[i] == mid.checkpoints[i + 1]);
                assert(mid.checkpoints[0] < mid.checkpoints[i + 1]);
            } else {
                assert(mid.checkpoints[0] <= mid.checkpoints[i]);
            }
        }
    }
}

} // verus!
