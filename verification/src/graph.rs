//! The render graph: the passes a frame is made of, and the textures they hand
//! to each other.
//!
//! Resources are *declared* with a format, passes are *declared* with what they
//! read and write, and [`RenderGraph::build`] checks the declarations, marks
//! which textures are sampled, and resolves the order the passes run in. The GPU
//! side (allocating textures, recording passes) belongs to the renderer, which
//! reads the answers off this type.
//!
//! Two rules make a frame schedulable:
//!
//! - a pass never samples a texture it renders to, and nothing samples the
//!   swapchain image;
//! - a pass that samples a texture runs after every pass that writes it, and a
//!   pass that *keeps* an attachment's contents runs after every earlier-declared
//!   pass that writes that attachment.
//!
//! Ties are broken by declaration order: each position of the schedule holds the
//! lowest-numbered pass whose dependencies have all run.
use vstd::prelude::*;

verus! {

/// A handle to a texture declared on the graph. Index 0 is the swapchain.
#[derive(Debug, Clone, Copy, PartialEq, Eq, Hash, Structural)]
pub struct ResourceId(pub usize);

/// The index of the swapchain image, the one resource the graph does not own.
pub const SWAPCHAIN_INDEX: usize = 0;

impl ResourceId {
    /// The swapchain image. Declared first by [`RenderGraph::new`], so it always
    /// exists.
    pub fn swapchain() -> (r: ResourceId)
        ensures
            r.0 == SWAPCHAIN_INDEX,
    {
        ResourceId(SWAPCHAIN_INDEX)
    }
}

/// What a graph-owned texture holds.
#[derive(Debug, Clone, Copy, PartialEq, Eq, Structural)]
pub enum ResourceFormat {
    /// The surface's colour format.
    Color,
    /// The depth format.
    Depth,
}

/// Which of the engine's passes a [`Pass`] is.
#[derive(Debug, Clone, Copy, PartialEq, Eq, Structural)]
pub enum PassKind {
    /// Fullscreen analytic sky.
    Sky,
    /// The opaque half of the draw-list, plus depth.
    Opaque,
    /// Copies the offscreen scene colour to the swapchain.
    Composite,
    /// The transparent half of the draw-list.
    Blended,
    /// The 2D UI overlay.
    Overlay,
}

/// How a pass treats an attachment it writes.
///
/// The clear colour itself is the renderer's business; what the schedule needs
/// to know is only whether the pass starts over or keeps what is there.
#[derive(Debug, Clone, Copy, PartialEq, Eq, Structural)]
pub enum Load {
    /// Start from a clear colour.
    Clear,
    /// Start from the far plane.
    ClearDepth,
    /// Keep what is already there.
    Keep,
}

/// One pass, and everything it touches.
#[derive(Debug)]
pub struct Pass {
    /// A name for messages.
    pub label: &'static str,
    /// Which pass this is.
    pub kind: PassKind,
    /// Textures sampled by this pass's shaders.
    pub reads: Vec<ResourceId>,
    /// Colour attachment, if any.
    pub color: Option<(ResourceId, Load)>,
    /// Depth attachment, if any, and whether the pass writes it.
    pub depth: Option<(ResourceId, Load, bool)>,
}

/// The position of `id` among the declared resources.
pub open spec fn resource_index(id: ResourceId) -> nat {
    id.0 as nat
}

/// Whether `p` renders to `id`: its colour attachment, or a depth attachment it
/// writes.
pub open spec fn pass_writes(p: Pass, id: ResourceId) -> bool {
    ||| (p.color is Some && (p.color->0).0 == id)
    ||| (p.depth is Some && (p.depth->0).2 && (p.depth->0).0 == id)
}

/// Whether `p` keeps the previous contents of attachment `id`.
pub open spec fn pass_keeps(p: Pass, id: ResourceId) -> bool {
    ||| (p.color is Some && (p.color->0).1 == Load::Keep && (p.color->0).0 == id)
    ||| (p.depth is Some && (p.depth->0).1 == Load::Keep && (p.depth->0).0 == id)
}

/// Whether `p` samples `id`.
pub open spec fn pass_reads(p: Pass, id: ResourceId) -> bool {
    p.reads@.contains(id)
}

/// Pass `i` must run after pass `w`: `i` samples something `w` writes, or `i`
/// keeps an attachment that the earlier-declared `w` writes.
pub open spec fn depends_on(passes: Seq<Pass>, i: int, w: int) -> bool {
    &&& 0 <= i < passes.len()
    &&& 0 <= w < passes.len()
    &&& w != i
    &&& {
        ||| exists|id: ResourceId| #[trigger]
            pass_reads(passes[i], id) && pass_writes(passes[w], id)
        ||| (w < i && exists|id: ResourceId| #[trigger]
            pass_keeps(passes[i], id) && pass_writes(passes[w], id))
    }
}

/// Pass `j` may run once every pass in `done` has run.
pub open spec fn ready(passes: Seq<Pass>, done: Seq<usize>, j: int) -> bool {
    forall|w: int| #[trigger] depends_on(passes, j, w) ==> done.contains(w as usize)
}

/// `t` is a valid order to run every pass in: a permutation of the pass indices
/// in which each pass comes after everything it depends on.
pub open spec fn is_schedule(passes: Seq<Pass>, t: Seq<usize>) -> bool {
    &&& t.len() == passes.len()
    &&& t.no_duplicates()
    &&& forall|k: int| 0 <= k < t.len() ==> #[trigger] t[k] < passes.len()
    &&& forall|j: usize| j < passes.len() ==> #[trigger] t.contains(j)
    &&& forall|k: int| 0 <= k < t.len() ==> ready(passes, t.take(k), #[trigger] t[k] as int)
}

/// `p` is what the declaration-order tie-break produces: each entry is the
/// lowest-numbered pass, not yet run, whose dependencies have all run.
pub open spec fn greedy_prefix(passes: Seq<Pass>, p: Seq<usize>) -> bool {
    &&& p.no_duplicates()
    &&& forall|k: int| 0 <= k < p.len() ==> #[trigger] p[k] < passes.len()
    &&& forall|k: int| 0 <= k < p.len() ==> ready(passes, p.take(k), #[trigger] p[k] as int)
    &&& forall|k: int, j: int|
        #![trigger p[k], ready(passes, p.take(k), j)]
        0 <= k < p.len() && 0 <= j < p[k] && !p.take(k).contains(j as usize) ==> !ready(
            passes,
            p.take(k),
            j,
        )
}

/// No pass outside `p` can run after `p`.
pub open spec fn stalled(passes: Seq<Pass>, p: Seq<usize>) -> bool {
    forall|j: int|
        0 <= j < passes.len() && !p.contains(j as usize) ==> !#[trigger] ready(passes, p, j)
}

/// The texture `p` both samples and renders to, if any: its colour attachment
/// first, then a depth attachment it writes.
pub open spec fn conflict_of(p: Pass) -> Option<ResourceId> {
    if p.color is Some && p.reads@.contains((p.color->0).0) {
        Some((p.color->0).0)
    } else if p.depth is Some && (p.depth->0).2 && p.reads@.contains((p.depth->0).0) {
        Some((p.depth->0).0)
    } else {
        None
    }
}

/// A pass is refused exactly when it samples a texture it writes, as a
/// colour attachment or as a depth attachment it writes to; the texture
/// named in the refusal is one such.
pub proof fn lemma_conflict_is_sampling_a_written_target(p: Pass)
    ensures
        conflict_of(p) is Some <==> exists|id: ResourceId| pass_reads(p, id) && #[trigger] pass_writes(p, id),
        conflict_of(p) matches Some(id) ==> pass_reads(p, id) && pass_writes(p, id),
{
    if exists|id: ResourceId| pass_reads(p, id) && #[trigger] pass_writes(p, id) {
        let id = choose|id: ResourceId| pass_reads(p, id) && #[trigger] pass_writes(p, id);
        assert(pass_writes(p, id));
    }
    if p.color is Some && p.reads@.contains((p.color->0).0) {
        assert(pass_writes(p, (p.color->0).0));
    } else if p.depth is Some && (p.depth->0).2 && p.reads@.contains((p.depth->0).0) {
        assert(pass_writes(p, (p.depth->0).0));
    }
}

/// `build` refuses a graph for a pass sampling its own target exactly when
/// one of its passes samples a texture that same pass writes.
pub proof fn lemma_self_reads_are_refused(passes: Seq<Pass>)
    ensures
        (exists|i: int| 0 <= i < passes.len() && conflict_of(#[trigger] passes[i]) is Some) <==> exists|i: int, id: ResourceId|
            0 <= i < passes.len() && pass_reads(passes[i], id) && #[trigger] pass_writes(passes[i], id),
{
    if exists|i: int| 0 <= i < passes.len() && conflict_of(#[trigger] passes[i]) is Some {
        let i = choose|i: int| 0 <= i < passes.len() && conflict_of(#[trigger] passes[i]) is Some;
        lemma_conflict_is_sampling_a_written_target(passes[i]);
        let id = conflict_of(passes[i])->0;
        assert(pass_reads(passes[i], id) && pass_writes(passes[i], id));
    }
    if exists|i: int, id: ResourceId| 0 <= i < passes.len() && pass_reads(passes[i], id) && #[trigger] pass_writes(passes[i], id) {
        let (i, id) = choose|i: int, id: ResourceId|
            0 <= i < passes.len() && pass_reads(passes[i], id) && #[trigger] pass_writes(passes[i], id);
        lemma_conflict_is_sampling_a_written_target(passes[i]);
        assert(pass_reads(passes[i], id) && pass_writes(passes[i], id));
        assert(conflict_of(passes[i]) is Some);
    }
}

/// Some pass samples `id`.
pub open spec fn read_by_some_pass(passes: Seq<Pass>, id: ResourceId) -> bool {
    exists|i: int| 0 <= i < passes.len() && #[trigger] pass_reads(passes[i], id)
}

/// Every resource `p` names is one of the first `count` declared.
pub open spec fn names_known(p: Pass, count: nat) -> bool {
    &&& forall|k: int| 0 <= k < p.reads@.len() ==> (#[trigger] p.reads@[k]).0 < count
    &&& p.color is Some ==> resource_index((p.color->0).0) < count
    &&& p.depth is Some ==> resource_index((p.depth->0).0) < count
}

/// `stuck` lists, in ascending order, the passes below `n` not in `p`.
pub open spec fn is_complement(stuck: Seq<usize>, p: Seq<usize>, n: nat) -> bool {
    &&& forall|a: int, b: int| 0 <= a < b < stuck.len() ==> stuck[a] < stuck[b]
    &&& forall|j: usize| #[trigger] stuck.contains(j) <==> (j < n && !p.contains(j))
}

/// One graph-owned texture to allocate: rendered to always, and sampled by
/// shaders if some pass reads it.
#[derive(Debug, Clone, Copy, PartialEq, Eq)]
pub struct TexturePlan {
    /// Its handle.
    pub id: ResourceId,
    /// A name for debugging tools.
    pub label: &'static str,
    /// What it holds.
    pub format: ResourceFormat,
    /// Whether a pass samples it.
    pub sampled: bool,
}

/// Why a frame cannot be scheduled.
#[derive(Debug)]
pub enum GraphError {
    /// Pass `pass` samples `resource` while also rendering to it.
    ReadsItsOwnTarget { pass: usize, resource: ResourceId },
    /// Some pass samples the swapchain image.
    SampledSwapchain,
    /// The passes in `stuck` (ascending) wait on each other.
    Cycle { stuck: Vec<usize> },
}

impl Pass {
    /// Declare a pass that touches nothing yet.
    pub fn new(label: &'static str, kind: PassKind) -> (r: Pass)
        ensures
            r.label == label,
            r.kind == kind,
            r.reads@.len() == 0,
            r.color is None,
            r.depth is None,
    {
        Pass { label, kind, reads: Vec::new(), color: None, depth: None }
    }

    /// Add textures this pass samples.
    pub fn reads(self, ids: &[ResourceId]) -> (r: Pass)
        ensures
            r.reads@ == self.reads@ + ids@,
            r.label == self.label,
            r.kind == self.kind,
            r.color == self.color,
            r.depth == self.depth,
    {
        let mut s = self;
        let mut k: usize = 0;
        while k < ids.len()
            invariant
                k <= ids@.len(),
                s.reads@ == self.reads@ + ids@.take(k as int),
                s.label == self.label,
                s.kind == self.kind,
                s.color == self.color,
                s.depth == self.depth,
            decreases ids@.len() - k,
        {
            s.reads.push(ids[k]);
            proof {
                assert(ids@.take(k + 1) =~= ids@.take(k as int).push(ids@[k as int]));
            }
            k = k + 1;
        }
        proof {
            assert(ids@.take(ids@.len() as int) =~= ids@);
        }
        s
    }

    /// Set the colour attachment this pass renders to.
    pub fn writes(self, id: ResourceId, load: Load) -> (r: Pass)
        ensures
            r.color == Some((id, load)),
            r.reads@ == self.reads@,
            r.label == self.label,
            r.kind == self.kind,
            r.depth == self.depth,
    {
        let mut s = self;
        s.color = Some((id, load));
        s
    }

    /// Set the depth attachment, and whether this pass writes it or only tests it.
    pub fn depth(self, id: ResourceId, load: Load, write: bool) -> (r: Pass)
        ensures
            r.depth == Some((id, load, write)),
            r.reads@ == self.reads@,
            r.label == self.label,
            r.kind == self.kind,
            r.color == self.color,
    {
        let mut s = self;
        s.depth = Some((id, load, write));
        s
    }
}

/// Whether `p` renders to `id`.
fn writes_exec(p: &Pass, id: ResourceId) -> (r: bool)
    ensures
        r == pass_writes(*p, id),
{
    let by_color = match p.color {
        Some((c, _)) => c == id,
        None => false,
    };
    let by_depth = match p.depth {
        Some((d, _, w)) => w && d == id,
        None => false,
    };
    by_color || by_depth
}

/// Whether `v` holds `id`.
fn contains_id(v: &Vec<ResourceId>, id: ResourceId) -> (r: bool)
    ensures
        r == v@.contains(id),
{
    let mut k: usize = 0;
    while k < v.len()
        invariant
            k <= v@.len(),
            forall|m: int| 0 <= m < k ==> v@[m] != id,
        decreases v@.len() - k,
    {
        if v[k] == id {
            return true;
        }
        k = k + 1;
    }
    false
}

/// The conflict of `p`, computed.
fn conflict_exec(p: &Pass) -> (r: Option<ResourceId>)
    ensures
        r == conflict_of(*p),
{
    if let Some((c, _)) = p.color {
        if contains_id(&p.reads, c) {
            return Some(c);
        }
    }
    if let Some((d, _, w)) = p.depth {
        if w && contains_id(&p.reads, d) {
            return Some(d);
        }
    }
    None
}

/// Whether pass `i` depends on pass `w`, computed.
fn depends_exec(passes: &Vec<Pass>, i: usize, w: usize) -> (r: bool)
    requires
        i < passes@.len(),
        w < passes@.len(),
    ensures
        r == depends_on(passes@, i as int, w as int),
{
    if i == w {
        return false;
    }
    let pi = &passes[i];
    let pw = &passes[w];
    let mut k: usize = 0;
    while k < pi.reads.len()
        invariant
            i < passes@.len(),
            w < passes@.len(),
            i != w,
            *pi == passes@[i as int],
            *pw == passes@[w as int],
            k <= pi.reads@.len(),
            forall|m: int| 0 <= m < k ==> !pass_writes(*pw, #[trigger] pi.reads@[m]),
        decreases pi.reads@.len() - k,
    {
        if writes_exec(pw, pi.reads[k]) {
            proof {
                let id = pi.reads@[k as int];
                assert(pi.reads@.contains(id));
                assert(pass_reads(passes@[i as int], id) && pass_writes(passes@[w as int], id));
            }
            return true;
        }
        k = k + 1;
    }
    assert(!exists|id: ResourceId| #[trigger]
        pass_reads(passes@[i as int], id) && pass_writes(passes@[w as int], id)) by {
        assert forall|id: ResourceId| #[trigger]
            pass_reads(passes@[i as int], id) implies !pass_writes(passes@[w as int], id) by {
            let m = choose|m: int| 0 <= m < pi.reads@.len() && pi.reads@[m] == id;
            assert(!pass_writes(*pw, pi.reads@[m]));
        }
    }
    if w < i {
        if let Some((c, l)) = pi.color {
            if l == Load::Keep && writes_exec(pw, c) {
                assert(pass_keeps(*pi, c));
                return true;
            }
        }
        if let Some((d, l, _)) = pi.depth {
            if l == Load::Keep && writes_exec(pw, d) {
                assert(pass_keeps(*pi, d));
                return true;
            }
        }
    }
    false
}

/// How many entries of `s` are set.
pub open spec fn count_true(s: Seq<bool>) -> nat
    decreases s.len(),
{
    if s.len() == 0 {
        0
    } else {
        count_true(s.drop_last()) + if s.last() {
            1nat
        } else {
            0nat
        }
    }
}

proof fn lemma_count_true_full(s: Seq<bool>)
    requires
        count_true(s) == s.len(),
    ensures
        forall|i: int| 0 <= i < s.len() ==> s[i],
    decreases s.len(),
{
    if s.len() > 0 {
        lemma_count_true_le(s.drop_last());
        lemma_count_true_full(s.drop_last());
        assert forall|i: int| 0 <= i < s.len() implies s[i] by {
            if i < s.len() - 1 {
                assert(s.drop_last()[i] == s[i]);
            }
        }
    }
}

proof fn lemma_count_true_le(s: Seq<bool>)
    ensures
        count_true(s) <= s.len(),
    decreases s.len(),
{
    if s.len() > 0 {
        lemma_count_true_le(s.drop_last());
    }
}

proof fn lemma_count_true_set(s: Seq<bool>, i: int)
    requires
        0 <= i < s.len(),
        !s[i],
    ensures
        count_true(s.update(i, true)) == count_true(s) + 1,
    decreases s.len(),
{
    let t = s.update(i, true);
    if i == s.len() - 1 {
        assert(t.drop_last() =~= s.drop_last());
    } else {
        assert(t.drop_last() =~= s.drop_last().update(i, true));
        lemma_count_true_set(s.drop_last(), i);
    }
}

proof fn lemma_count_true_none(n: nat)
    ensures
        count_true(Seq::new(n, |i: int| false)) == 0,
    decreases n,
{
    if n > 0 {
        assert(Seq::new(n, |i: int| false).drop_last() =~= Seq::new((n - 1) as nat, |i: int| false));
        lemma_count_true_none((n - 1) as nat);
    }
}

/// A stalled prefix that leaves some pass out rules out every schedule: the
/// first left-out pass of a schedule would have to be ready.
pub proof fn lemma_stalled_prefix_blocks_schedules(
    passes: Seq<Pass>,
    p: Seq<usize>,
    t: Seq<usize>,
    j: usize,
)
    requires
        stalled(passes, p),
        j < passes.len(),
        !p.contains(j),
    ensures
        !is_schedule(passes, t),
{
    if is_schedule(passes, t) {
        assert(t.contains(j));
        let k = choose|k: int| 0 <= k < t.len() && t[k] == j;
        let k0 = first_left_out(t, p, k);
        let x = t[k0];
        assert(x < passes.len());
        assert(!ready(passes, p, x as int));
        let w = choose|w: int| #[trigger] depends_on(passes, x as int, w) && !p.contains(w as usize);
        assert(ready(passes, t.take(k0), t[k0] as int));
        assert(t.take(k0).contains(w as usize));
        let m = choose|m: int| 0 <= m < t.take(k0).len() && t.take(k0)[m] == w as usize;
        assert(t[m] == w as usize);
        assert(p.contains(t[m]));
    }
}

/// The first position of `t`, at or before `k`, whose entry `p` leaves out.
proof fn first_left_out(t: Seq<usize>, p: Seq<usize>, k: int) -> (r: int)
    requires
        0 <= k < t.len(),
        !p.contains(t[k]),
    ensures
        0 <= r <= k,
        !p.contains(t[r]),
        forall|m: int| 0 <= m < r ==> p.contains(#[trigger] t[m]),
    decreases k,
{
    if exists|m: int| 0 <= m < k && !p.contains(#[trigger] t[m]) {
        let m = choose|m: int| 0 <= m < k && !p.contains(#[trigger] t[m]);
        first_left_out(t, p, m)
    } else {
        k
    }
}

/// The frame: declared resources and passes, and the order they run in.
#[derive(Debug)]
pub struct RenderGraph {
    labels: Vec<&'static str>,
    formats: Vec<ResourceFormat>,
    /// Whether some pass samples each resource. Set by [`RenderGraph::build`].
    sampled: Vec<bool>,
    passes: Vec<Pass>,
    /// Indices into `passes`, in run order. Set by [`RenderGraph::build`].
    order: Vec<usize>,
}

/// What one pass needs to begin, as resource handles.
#[derive(Debug)]
pub struct PassTargets {
    /// The pass's label.
    pub label: &'static str,
    /// Which pass it is.
    pub kind: PassKind,
    /// Its colour attachment.
    pub color: Option<(ResourceId, Load)>,
    /// Its depth attachment and whether it writes it.
    pub depth: Option<(ResourceId, Load, bool)>,
}

impl RenderGraph {
    /// The declared resources' formats, the swapchain first.
    pub closed spec fn spec_formats(&self) -> Seq<ResourceFormat> {
        self.formats@
    }

    /// Which resources are sampled, as last resolved by a successful build.
    pub closed spec fn spec_sampled(&self) -> Seq<bool> {
        self.sampled@
    }

    /// The declared passes, in declaration order.
    pub closed spec fn spec_passes(&self) -> Seq<Pass> {
        self.passes@
    }

    /// The run order, as last resolved by a successful build.
    pub closed spec fn spec_order(&self) -> Seq<usize> {
        self.order@
    }

    /// The declared resources' labels.
    pub closed spec fn spec_labels(&self) -> Seq<&'static str> {
        self.labels@
    }

    /// Every table covers every resource, every pass names only declared
    /// resources, and the run order names only declared passes.
    pub closed spec fn wf(&self) -> bool {
        &&& self.formats@.len() >= 1
        &&& self.formats@[0] == ResourceFormat::Color
        &&& self.sampled@.len() == self.formats@.len()
        &&& self.labels@.len() == self.formats@.len()
        &&& forall|i: int|
            0 <= i < self.passes@.len() ==> names_known(#[trigger] self.passes@[i], self.formats@.len())
        &&& forall|k: int| 0 <= k < self.order@.len() ==> #[trigger] self.order@[k] < self.passes@.len()
    }

    /// A graph holding only the swapchain, with no passes.
    pub fn new() -> (r: RenderGraph)
        ensures
            r.wf(),
            r.spec_formats() == seq![ResourceFormat::Color],
            r.spec_sampled() == seq![false],
            r.spec_passes().len() == 0,
            r.spec_order().len() == 0,
    {
        let mut labels = Vec::new();
        labels.push("swapchain");
        let mut formats = Vec::new();
        formats.push(ResourceFormat::Color);
        let mut sampled = Vec::new();
        sampled.push(false);
        let r = RenderGraph { labels, formats, sampled, passes: Vec::new(), order: Vec::new() };
        assert(r.spec_formats() =~= seq![ResourceFormat::Color]);
        assert(r.spec_sampled() =~= seq![false]);
        r
    }

    /// Declare a graph-owned texture; its handle is the next index.
    pub fn resource(&mut self, label: &'static str, format: ResourceFormat) -> (r: ResourceId)
        requires
            old(self).wf(),
        ensures
            final(self).wf(),
            r.0 == old(self).spec_formats().len(),
            final(self).spec_formats() == old(self).spec_formats().push(format),
            final(self).spec_labels() == old(self).spec_labels().push(label),
            final(self).spec_sampled() == old(self).spec_sampled().push(false),
            final(self).spec_passes() == old(self).spec_passes(),
            final(self).spec_order() == old(self).spec_order(),
    {
        let id = self.formats.len();
        self.labels.push(label);
        self.formats.push(format);
        self.sampled.push(false);
        proof {
            assert forall|i: int| 0 <= i < self.passes@.len() implies names_known(
                #[trigger] self.passes@[i],
                self.formats@.len(),
            ) by {
                lemma_names_known_grow(self.passes@[i], old(self).formats@.len(), self.formats@.len());
            }
        }
        ResourceId(id)
    }

    /// Whether every resource `pass` names has been declared on this graph.
    pub fn knows(&self, pass: &Pass) -> (r: bool)
        ensures
            r == names_known(*pass, self.spec_formats().len()),
    {
        let n = self.formats.len();
        let mut k: usize = 0;
        while k < pass.reads.len()
            invariant
                n == self.spec_formats().len(),
                k <= pass.reads@.len(),
                forall|m: int| 0 <= m < k ==> (#[trigger] pass.reads@[m]).0 < n,
            decreases pass.reads@.len() - k,
        {
            if pass.reads[k].0 >= n {
                return false;
            }
            k = k + 1;
        }
        let color_ok = match pass.color {
            Some((c, _)) => c.0 < n,
            None => true,
        };
        let depth_ok = match pass.depth {
            Some((d, _, _)) => d.0 < n,
            None => true,
        };
        color_ok && depth_ok
    }

    /// Add a declared pass.
    pub fn pass(&mut self, pass: Pass)
        requires
            old(self).wf(),
            names_known(pass, old(self).spec_formats().len()),
        ensures
            final(self).wf(),
            final(self).spec_passes() == old(self).spec_passes().push(pass),
            final(self).spec_formats() == old(self).spec_formats(),
            final(self).spec_labels() == old(self).spec_labels(),
            final(self).spec_sampled() == old(self).spec_sampled(),
            final(self).spec_order() == old(self).spec_order(),
    {
        self.passes.push(pass);
        proof {
            assert forall|i: int| 0 <= i < self.passes@.len() implies names_known(
                #[trigger] self.passes@[i],
                self.formats@.len(),
            ) by {
                if i < old(self).passes@.len() {
                    assert(self.passes@[i] == old(self).passes@[i]);
                }
            }
        }
    }

    /// Check the declarations, mark which resources are sampled, and resolve the
    /// run order.
    ///
    /// Fails, leaving the graph as it was, on the first pass that samples a
    /// texture it renders to; then if anything samples the swapchain; then if
    /// the passes cannot all be scheduled, naming those that wait on each other.
    ///
    /// Each of these is a mistake in how the frame was declared, not a run-time
    /// condition, and the renderer treats the error as fatal: it stands where
    /// an assertion would otherwise stop the program, so that the caller learns
    /// which declaration is wrong instead of only that one is.
    #[verifier::rlimit(40)]
    pub fn build(&mut self) -> (r: Result<(), GraphError>)
        requires
            old(self).wf(),
        ensures
            final(self).wf(),
            final(self).spec_passes() == old(self).spec_passes(),
            final(self).spec_formats() == old(self).spec_formats(),
            final(self).spec_labels() == old(self).spec_labels(),
            r is Err ==> final(self).spec_sampled() == old(self).spec_sampled()
                && final(self).spec_order() == old(self).spec_order(),
            (r matches Err(GraphError::ReadsItsOwnTarget { .. })) <==> exists|i: int|
                0 <= i < old(self).spec_passes().len() && conflict_of(
                    #[trigger] old(self).spec_passes()[i],
                ) is Some,
            r matches Err(GraphError::ReadsItsOwnTarget { pass, resource }) ==> {
                &&& pass < old(self).spec_passes().len()
                &&& conflict_of(old(self).spec_passes()[pass as int]) == Some(resource)
                &&& forall|i: int|
                    0 <= i < pass ==> conflict_of(#[trigger] old(self).spec_passes()[i]) is None
            },
            (r matches Err(GraphError::SampledSwapchain)) <==> {
                &&& no_conflicts(old(self).spec_passes())
                &&& read_by_some_pass(old(self).spec_passes(), ResourceId(SWAPCHAIN_INDEX))
            },
            r matches Err(GraphError::Cycle { stuck }) ==> {
                &&& no_conflicts(old(self).spec_passes())
                &&& !read_by_some_pass(old(self).spec_passes(), ResourceId(SWAPCHAIN_INDEX))
                &&& unschedulable(old(self).spec_passes(), stuck@)
            },
            r is Ok <==> {
                &&& no_conflicts(old(self).spec_passes())
                &&& !read_by_some_pass(old(self).spec_passes(), ResourceId(SWAPCHAIN_INDEX))
                &&& exists|t: Seq<usize>| is_schedule(old(self).spec_passes(), t)
            },
            r is Ok ==> {
                &&& is_schedule(final(self).spec_passes(), final(self).spec_order())
                &&& greedy_prefix(final(self).spec_passes(), final(self).spec_order())
                &&& forall|j: int|
                    0 <= j < final(self).spec_sampled().len() ==> (
                    #[trigger] final(self).spec_sampled()[j] <==> read_by_some_pass(
                        final(self).spec_passes(),
                        ResourceId(j as usize),
                    ))
            },
    {
        if let Some((pass, resource)) = first_conflict(&self.passes) {
            return Err(GraphError::ReadsItsOwnTarget { pass, resource });
        }
        let sampled = sampled_flags(&self.passes, self.formats.len());
        if sampled[SWAPCHAIN_INDEX] {
            return Err(GraphError::SampledSwapchain);
        }
        match resolve_order(&self.passes) {
            Err(stuck) => {
                assert(unschedulable(self.passes@, stuck@));
                assert(!read_by_some_pass(self.passes@, ResourceId(SWAPCHAIN_INDEX)));
                Err(GraphError::Cycle { stuck })
            },
            Ok(order) => {
                self.sampled = sampled;
                self.order = order;
                assert(forall|k: int| 0 <= k < self.order@.len() ==> #[trigger] self.order@[k] < self.passes@.len());
                Ok(())
            },
        }
    }

    /// The passes in run order, with their attachments as handles. The renderer
    /// substitutes this frame's swapchain view for [`ResourceId::swapchain`].
    pub fn record(&self) -> (r: Vec<PassTargets>)
        requires
            self.wf(),
        ensures
            r@.len() == self.spec_order().len(),
            forall|k: int|
                0 <= k < r@.len() ==> {
                    let p = self.spec_passes()[self.spec_order()[k] as int];
                    &&& (#[trigger] r@[k]).label == p.label
                    &&& r@[k].kind == p.kind
                    &&& r@[k].color == p.color
                    &&& r@[k].depth == p.depth
                },
    {
        let mut out: Vec<PassTargets> = Vec::new();
        let mut k: usize = 0;
        while k < self.order.len()
            invariant
                self.wf(),
                k <= self.order@.len(),
                out@.len() == k,
                forall|m: int|
                    0 <= m < k ==> {
                        let p = self.passes@[self.order@[m] as int];
                        &&& (#[trigger] out@[m]).label == p.label
                        &&& out@[m].kind == p.kind
                        &&& out@[m].color == p.color
                        &&& out@[m].depth == p.depth
                    },
            decreases self.order@.len() - k,
        {
            let p = &self.passes[self.order[k]];
            out.push(PassTargets { label: p.label, kind: p.kind, color: p.color, depth: p.depth });
            k = k + 1;
        }
        out
    }

    /// The run order resolved by the last successful build.
    pub fn order(&self) -> (r: &Vec<usize>)
        ensures
            r@ == self.spec_order(),
    {
        &self.order
    }

    /// How many resources are declared, the swapchain included.
    pub fn resource_count(&self) -> (r: usize)
        ensures
            r == self.spec_formats().len(),
    {
        self.formats.len()
    }

    /// The format of resource `id`.
    pub fn format(&self, id: ResourceId) -> (r: ResourceFormat)
        requires
            id.0 < self.spec_formats().len(),
        ensures
            r == self.spec_formats()[id.0 as int],
    {
        self.formats[id.0]
    }

    /// The label of resource `id`.
    pub fn label(&self, id: ResourceId) -> (r: &'static str)
        requires
            self.wf(),
            id.0 < self.spec_formats().len(),
        ensures
            r == self.spec_labels()[id.0 as int],
    {
        self.labels[id.0]
    }

    /// What to allocate for each graph-owned texture (every resource but the
    /// swapchain), at a surface of `width` by `height`: the size, never zero
    /// (a minimised window reports zero, and a zero-sized texture is refused),
    /// and per texture its handle, label, format and whether a pass samples it.
    pub fn textures(&self, width: u32, height: u32) -> (plan: (u32, u32, Vec<TexturePlan>))
        requires
            self.wf(),
        ensures
            plan.0 == if width == 0 { 1 } else { width },
            plan.1 == if height == 0 { 1 } else { height },
            plan.2@.len() == self.spec_formats().len() - 1,
            forall|k: int|
                0 <= k < plan.2@.len() ==> {
                    &&& (#[trigger] plan.2@[k]).id.0 == k + 1
                    &&& plan.2@[k].label == self.spec_labels()[k + 1]
                    &&& plan.2@[k].format == self.spec_formats()[k + 1]
                    &&& plan.2@[k].sampled == self.spec_sampled()[k + 1]
                },
    {
        let w = if width == 0 { 1 } else { width };
        let h = if height == 0 { 1 } else { height };
        let mut out: Vec<TexturePlan> = Vec::new();
        let mut i: usize = 1;
        while i < self.formats.len()
            invariant
                self.wf(),
                1 <= i <= self.spec_formats().len(),
                out@.len() == i - 1,
                forall|k: int|
                    0 <= k < out@.len() ==> {
                        &&& (#[trigger] out@[k]).id.0 == k + 1
                        &&& out@[k].label == self.spec_labels()[k + 1]
                        &&& out@[k].format == self.spec_formats()[k + 1]
                        &&& out@[k].sampled == self.spec_sampled()[k + 1]
                    },
            decreases self.spec_formats().len() - i,
        {
            out.push(
                TexturePlan {
                    id: ResourceId(i),
                    label: self.labels[i],
                    format: self.formats[i],
                    sampled: self.sampled[i],
                },
            );
            i = i + 1;
        }
        (w, h, out)
    }

    /// Whether resource `id` is sampled by some pass, as of the last build.
    pub fn is_sampled(&self, id: ResourceId) -> (r: bool)
        requires
            self.wf(),
            id.0 < self.spec_formats().len(),
        ensures
            r == self.spec_sampled()[id.0 as int],
    {
        self.sampled[id.0]
    }

    /// The label of pass `i`.
    pub fn pass_label(&self, i: usize) -> (r: &'static str)
        requires
            i < self.spec_passes().len(),
        ensures
            r == self.spec_passes()[i as int].label,
    {
        self.passes[i].label
    }
}


/// No pass samples a texture it renders to.
pub open spec fn no_conflicts(passes: Seq<Pass>) -> bool {
    forall|i: int| 0 <= i < passes.len() ==> conflict_of(#[trigger] passes[i]) is None
}

/// `stuck` is what is left of `passes` after the declaration-order schedule
/// `p` could go no further.
pub open spec fn blocked_by(passes: Seq<Pass>, p: Seq<usize>, stuck: Seq<usize>) -> bool {
    &&& greedy_prefix(passes, p)
    &&& p.len() < passes.len()
    &&& stalled(passes, p)
    &&& is_complement(stuck, p, passes.len())
}

/// No order runs every pass: the declaration-order schedule stalls with the
/// passes in `stuck` left waiting.
pub open spec fn unschedulable(passes: Seq<Pass>, stuck: Seq<usize>) -> bool {
    &&& exists|p: Seq<usize>| blocked_by(passes, p, stuck)
    &&& !exists|t: Seq<usize>| is_schedule(passes, t)
}

/// The first pass that samples a texture it renders to, and that texture.
fn first_conflict(passes: &Vec<Pass>) -> (r: Option<(usize, ResourceId)>)
    ensures
        r is None <==> no_conflicts(passes@),
        r matches Some((i, id)) ==> {
            &&& i < passes@.len()
            &&& conflict_of(passes@[i as int]) == Some(id)
            &&& forall|m: int| 0 <= m < i ==> conflict_of(#[trigger] passes@[m]) is None
        },
{
    let mut i: usize = 0;
    while i < passes.len()
        invariant
            i <= passes@.len(),
            forall|m: int| 0 <= m < i ==> conflict_of(#[trigger] passes@[m]) is None,
        decreases passes@.len() - i,
    {
        if let Some(resource) = conflict_exec(&passes[i]) {
            return Some((i, resource));
        }
        i = i + 1;
    }
    None
}

/// For each of `count` resources, whether some pass samples it.
fn sampled_flags(passes: &Vec<Pass>, count: usize) -> (r: Vec<bool>)
    ensures
        r@.len() == count,
        forall|j: int|
            0 <= j < count ==> (#[trigger] r@[j] <==> read_by_some_pass(
                passes@,
                ResourceId(j as usize),
            )),
{
    let n = passes.len();
    let mut sampled: Vec<bool> = Vec::new();
    let mut j: usize = 0;
    while j < count
        invariant
            n == passes@.len(),
            j <= count,
            sampled@.len() == j,
            forall|q: int|
                0 <= q < j ==> (#[trigger] sampled@[q] <==> read_by_some_pass(
                    passes@,
                    ResourceId(q as usize),
                )),
        decreases count - j,
    {
        let mut read = false;
        let mut m: usize = 0;
        while m < n
            invariant
                n == passes@.len(),
                m <= n,
                read <==> exists|q: int| 0 <= q < m && #[trigger] pass_reads(passes@[q], ResourceId(j)),
            decreases n - m,
        {
            if contains_id(&passes[m].reads, ResourceId(j)) {
                assert(pass_reads(passes@[m as int], ResourceId(j)));
                read = true;
            }
            m = m + 1;
        }
        sampled.push(read);
        j = j + 1;
    }
    sampled
}

/// Whether pass `c` can run once the passes marked in `done` have run.
fn ready_exec(passes: &Vec<Pass>, done: &Vec<bool>, order: Ghost<Seq<usize>>, c: usize) -> (r: bool)
    requires
        c < passes@.len(),
        done@.len() == passes@.len(),
        forall|q: int| 0 <= q < done@.len() ==> (#[trigger] done@[q] <==> order@.contains(q as usize)),
    ensures
        r == ready(passes@, order@, c as int),
{
    let n = passes.len();
    let mut w: usize = 0;
    while w < n
        invariant
            n == passes@.len(),
            done@.len() == n,
            c < n,
            w <= n,
            forall|q: int| 0 <= q < n ==> (#[trigger] done@[q] <==> order@.contains(q as usize)),
            forall|q: int| 0 <= q < w && #[trigger] depends_on(passes@, c as int, q) ==> order@.contains(q as usize),
        decreases n - w,
    {
        if depends_exec(passes, c, w) && !done[w] {
            assert(!order@.contains(w as usize));
            return false;
        }
        w = w + 1;
    }
    true
}

/// The lowest-numbered pass, not yet run, that can run now.
fn next_ready(passes: &Vec<Pass>, done: &Vec<bool>, order: Ghost<Seq<usize>>) -> (r: Option<usize>)
    requires
        done@.len() == passes@.len(),
        forall|q: int| 0 <= q < done@.len() ==> (#[trigger] done@[q] <==> order@.contains(q as usize)),
    ensures
        r matches Some(x) ==> x < passes@.len() && !order@.contains(x) && ready(passes@, order@, x as int),
        r matches Some(x) ==> forall|q: int|
            0 <= q < x && !order@.contains(q as usize) ==> !#[trigger] ready(passes@, order@, q),
        r is None ==> stalled(passes@, order@),
{
    let n = passes.len();
    let mut c: usize = 0;
    while c < n
        invariant
            n == passes@.len(),
            done@.len() == n,
            c <= n,
            forall|q: int| 0 <= q < n ==> (#[trigger] done@[q] <==> order@.contains(q as usize)),
            forall|q: int|
                0 <= q < c && !order@.contains(q as usize) ==> !#[trigger] ready(passes@, order@, q),
        decreases n - c,
    {
        if !done[c] && ready_exec(passes, done, order, c) {
            return Some(c);
        }
        c = c + 1;
    }
    None
}

/// Schedule `passes`, lowest-numbered ready pass first; or, when that gets
/// stuck, the passes left waiting, ascending. A cycle is a declaration
/// mistake: the error replaces an assertion, and names the passes in it.
#[verifier::rlimit(40)]
fn resolve_order(passes: &Vec<Pass>) -> (r: Result<Vec<usize>, Vec<usize>>)
    ensures
        r matches Ok(order) ==> is_schedule(passes@, order@) && greedy_prefix(passes@, order@),
        r matches Err(stuck) ==> unschedulable(passes@, stuck@),
{
    let n = passes.len();
    let mut order: Vec<usize> = Vec::new();
    let mut done: Vec<bool> = Vec::new();
    let mut z: usize = 0;
    while z < n
        invariant
            z <= n,
            done@.len() == z,
            forall|q: int| 0 <= q < z ==> !done@[q],
        decreases n - z,
    {
        done.push(false);
        z = z + 1;
    }
    proof {
        assert(done@ =~= Seq::new(n as nat, |q: int| false));
        lemma_count_true_none(n as nat);
    }
    while order.len() < n
        invariant
            n == passes@.len(),
            done@.len() == n,
            order@.len() <= n,
            count_true(done@) == order@.len(),
            forall|q: int| 0 <= q < n ==> (#[trigger] done@[q] <==> order@.contains(q as usize)),
            greedy_prefix(passes@, order@),
        decreases n - order@.len(),
    {
        match next_ready(passes, &done, Ghost(order@)) {
            None => {
                let stuck = left_out(&done, Ghost(order@));
                proof {
                    lemma_count_true_le(done@);
                    if forall|q: int| 0 <= q < n ==> done@[q] {
                        lemma_all_true_count(done@);
                    }
                    let j = choose|q: int| 0 <= q < n && !done@[q];
                    assert forall|t: Seq<usize>| !is_schedule(passes@, t) by {
                        lemma_stalled_prefix_blocks_schedules(passes@, order@, t, j as usize);
                    }
                    assert(blocked_by(passes@, order@, stuck@));
                    assert(unschedulable(passes@, stuck@));
                }
                return Err(stuck);
            },
            Some(x) => {
                let ghost before = order@;
                proof {
                    lemma_count_true_set(done@, x as int);
                    lemma_greedy_push(passes@, before, x);
                }
                done.set(x, true);
                order.push(x);
                proof {
                    assert forall|q: int| 0 <= q < n implies (#[trigger] done@[q] <==> order@.contains(q as usize)) by {
                        if q == x as int {
                            assert(order@[order@.len() - 1] == x);
                        } else {
                            if order@.contains(q as usize) {
                                let m = choose|m: int| 0 <= m < order@.len() && order@[m] == q as usize;
                                assert(before[m] == q as usize);
                            }
                            if before.contains(q as usize) {
                                let m = choose|m: int| 0 <= m < before.len() && before[m] == q as usize;
                                assert(order@[m] == q as usize);
                            }
                        }
                    }
                }
            },
        }
    }
    proof {
        lemma_count_true_full(done@);
        assert forall|j: usize| j < passes@.len() implies #[trigger] order@.contains(j) by {
            assert(done@[j as int]);
        }
    }
    Ok(order)
}

/// The indices not marked in `done`, ascending.
fn left_out(done: &Vec<bool>, order: Ghost<Seq<usize>>) -> (r: Vec<usize>)
    requires
        forall|q: int| 0 <= q < done@.len() ==> (#[trigger] done@[q] <==> order@.contains(q as usize)),
    ensures
        is_complement(r@, order@, done@.len()),
{
    let n = done.len();
    let mut stuck: Vec<usize> = Vec::new();
    let mut s: usize = 0;
    while s < n
        invariant
            n == done@.len(),
            s <= n,
            forall|q: int| 0 <= q < n ==> (#[trigger] done@[q] <==> order@.contains(q as usize)),
            forall|a: int, b: int| 0 <= a < b < stuck@.len() ==> stuck@[a] < stuck@[b],
            forall|a: int| 0 <= a < stuck@.len() ==> #[trigger] stuck@[a] < s,
            forall|q: usize| #[trigger] stuck@.contains(q) <==> (q < s && !order@.contains(q)),
        decreases n - s,
    {
        let ghost prev = stuck@;
        if !done[s] {
            stuck.push(s);
            proof {
                assert forall|q: usize| #[trigger] stuck@.contains(q) <==> (q < s + 1 && !order@.contains(q)) by {
                    if stuck@.contains(q) {
                        let m = choose|m: int| 0 <= m < stuck@.len() && stuck@[m] == q;
                        if m < prev.len() {
                            assert(prev[m] == q);
                            assert(prev.contains(q));
                        } else {
                            assert(q == s);
                            assert(!done@[s as int]);
                        }
                    }
                    if q < s + 1 && !order@.contains(q) {
                        if q == s {
                            assert(stuck@[stuck@.len() - 1] == s);
                        } else {
                            assert(prev.contains(q));
                            let m = choose|m: int| 0 <= m < prev.len() && prev[m] == q;
                            assert(stuck@[m] == q);
                        }
                    }
                }
            }
        } else {
            proof {
                assert(order@.contains(s));
            }
        }
        s = s + 1;
    }
    stuck
}

/// Appending the lowest ready pass keeps a declaration-order prefix one.
proof fn lemma_greedy_push(passes: Seq<Pass>, p: Seq<usize>, x: usize)
    requires
        greedy_prefix(passes, p),
        x < passes.len(),
        !p.contains(x),
        ready(passes, p, x as int),
        forall|q: int| 0 <= q < x && !p.contains(q as usize) ==> !#[trigger] ready(passes, p, q),
    ensures
        greedy_prefix(passes, p.push(x)),
{
    let p2 = p.push(x);
    assert(p2.take(p.len() as int) =~= p);
    assert forall|k: int| 0 <= k < p.len() implies #[trigger] p2.take(k) =~= p.take(k) by {}
    assert forall|a: int, b: int| 0 <= a < b < p2.len() implies p2[a] != p2[b] by {
        if b == p.len() {
            assert(p.contains(p[a]));
        }
    }
    assert forall|k: int| 0 <= k < p2.len() implies ready(passes, p2.take(k), #[trigger] p2[k] as int) by {
        if k < p.len() {
            assert(p2.take(k) =~= p.take(k));
        }
    }
    assert forall|k: int, j: int|
        #![trigger p2[k], ready(passes, p2.take(k), j)]
        0 <= k < p2.len() && 0 <= j < p2[k] && !p2.take(k).contains(j as usize)
        implies !ready(passes, p2.take(k), j) by {
        if k < p.len() {
            assert(p2.take(k) =~= p.take(k));
            assert(p2[k] == p[k]);
        }
    }
}

proof fn lemma_names_known_grow(p: Pass, a: nat, b: nat)
    requires
        names_known(p, a),
        a <= b,
    ensures
        names_known(p, b),
{
}

proof fn lemma_all_true_count(s: Seq<bool>)
    requires
        forall|i: int| 0 <= i < s.len() ==> s[i],
    ensures
        count_true(s) == s.len(),
    decreases s.len(),
{
    if s.len() > 0 {
        lemma_all_true_count(s.drop_last());
    }
}

/// The first `k` entries of a greedy order over passes that depend on
/// nothing are `0, 1, ..., k - 1`.
proof fn lemma_independent_prefix(passes: Seq<Pass>, t: Seq<usize>, k: int)
    requires
        forall|i: int, w: int| !#[trigger] depends_on(passes, i, w),
        greedy_prefix(passes, t),
        0 <= k <= t.len(),
    ensures
        forall|m: int| 0 <= m < k ==> #[trigger] t[m] == m,
    decreases k,
{
    if k > 0 {
        lemma_independent_prefix(passes, t, k - 1);
        let m = k - 1;
        let before = t.take(m);
        assert forall|j: usize| #[trigger] before.contains(j) <==> (j as int) < m by {
            if before.contains(j) {
                let x = choose|x: int| 0 <= x < before.len() && before[x] == j;
                assert(t[x] == x);
            }
            if (j as int) < m {
                assert(before[j as int] == t[j as int]);
            }
        }
        if t[m] as int != m {
            assert(!before.contains(t[m]));
            assert(t[m] as int > m);
            assert(ready(passes, before, m));
            assert(!before.contains(m as usize));
            assert(!ready(passes, before, m));
        }
    }
}

/// Passes that depend on nothing run in the order they were declared: the
/// declaration-order tie-break leaves such a frame exactly as written.
pub proof fn lemma_independent_passes_keep_declaration_order(passes: Seq<Pass>, t: Seq<usize>)
    requires
        forall|i: int, w: int| !#[trigger] depends_on(passes, i, w),
        greedy_prefix(passes, t),
    ensures
        forall|m: int| 0 <= m < t.len() ==> #[trigger] t[m] == m,
{
    lemma_independent_prefix(passes, t, t.len() as int);
}

/// Two orders that both follow the declaration-order tie-break agree on
/// their common length.
proof fn lemma_greedy_prefixes_agree(passes: Seq<Pass>, a: Seq<usize>, b: Seq<usize>, k: int)
    requires
        greedy_prefix(passes, a),
        greedy_prefix(passes, b),
        0 <= k <= a.len(),
        k <= b.len(),
    ensures
        a.take(k) == b.take(k),
    decreases k,
{
    if k > 0 {
        lemma_greedy_prefixes_agree(passes, a, b, k - 1);
        let m = k - 1;
        assert(a.take(m) == b.take(m));
        let (x, y) = (a[m], b[m]);
        assert(ready(passes, a.take(m), x as int));
        assert(ready(passes, b.take(m), y as int));
        assert(!a.take(m).contains(x)) by {
            if a.take(m).contains(x) {
                let i = choose|i: int| 0 <= i < a.take(m).len() && a.take(m)[i] == x;
                assert(a[i] == a[m]);
            }
        }
        assert(!b.take(m).contains(y)) by {
            if b.take(m).contains(y) {
                let i = choose|i: int| 0 <= i < b.take(m).len() && b.take(m)[i] == y;
                assert(b[i] == b[m]);
            }
        }
        if x < y {
            assert(!ready(passes, b.take(m), x as int));
        } else if y < x {
            assert(!ready(passes, a.take(m), y as int));
        }
        assert(a.take(k) =~= a.take(m).push(x));
        assert(b.take(k) =~= b.take(m).push(y));
    }
}

/// The declaration-order tie-break leaves no choice: there is exactly one
/// complete order that follows it.
pub proof fn lemma_resolved_order_is_unique(passes: Seq<Pass>, a: Seq<usize>, b: Seq<usize>)
    requires
        is_schedule(passes, a),
        greedy_prefix(passes, a),
        is_schedule(passes, b),
        greedy_prefix(passes, b),
    ensures
        a == b,
{
    lemma_greedy_prefixes_agree(passes, a, b, a.len() as int);
    assert(a.take(a.len() as int) =~= a);
    assert(b.take(b.len() as int) =~= b);
}

} // verus!
