//! How a frame's instances become draw calls.
//!
//! The consumer hands over a list of instances in whatever order it likes.
//! Each mesh becomes one instanced draw per pipeline: instances are grouped by
//! mesh, every opaque instance goes before every transparent one (blending
//! only composites correctly over a finished target), and a consumer's own
//! order survives within a group. A *run* is a stretch of that order sharing
//! one mesh and one pipeline; each run is one draw.
use vstd::prelude::*;
use crate::graph::PassKind;
use std::collections::HashSet;

verus! {

/// A handle to a mesh uploaded to the GPU: the position of its upload.
///
/// A handle carries no more than that position, so this type cannot tell the
/// renderer that issued it from another one. What the draw functions check is
/// what the renderer's own assertion checks: that the handle is below the
/// number of meshes uploaded so far. Nothing is ever freed, so such a handle
/// always names a mesh; one at or beyond that number is refused by their
/// `requires`, where the renderer stops with "not from this renderer".
#[derive(Debug, Clone, Copy, PartialEq, Eq, Hash, Structural)]
pub struct MeshHandle(usize);

impl View for MeshHandle {
    type V = usize;

    closed spec fn view(&self) -> usize {
        self.0
    }
}

impl MeshHandle {
    /// The handle of the `index`-th mesh uploaded.
    pub fn new(index: usize) -> (h: MeshHandle)
        ensures
            h@ == index,
    {
        MeshHandle(index)
    }

    /// Which upload this handle names.
    pub fn index(&self) -> (i: usize)
        ensures
            i == self@,
    {
        self.0
    }
}

/// Whether meshes draw filled or as a wireframe.
#[derive(Debug, Clone, Copy, PartialEq, Eq, Hash, Structural)]
pub enum RenderMode {
    /// Filled triangles with depth test and back-face culling (the default).
    Solid,
    /// Mesh edges only, drawn as lines.
    Wireframe,
}

impl Default for RenderMode {
    fn default() -> (m: Self)
        ensures
            m == RenderMode::Solid,
    {
        RenderMode::Solid
    }
}

/// What batching reads of one instance: its mesh, and whether its material
/// blends.
#[derive(Debug, Clone, Copy, PartialEq, Eq, Structural)]
pub struct DrawItem {
    /// The mesh it draws.
    pub mesh: MeshHandle,
    /// Whether its material is transparent.
    pub transparent: bool,
}

/// One instanced draw: `count` instances starting at position `first` of the
/// sorted instance buffer, all drawing `mesh` with the same pipeline.
#[derive(Debug, Clone, Copy, PartialEq, Eq, Structural)]
pub struct DrawRun {
    /// Which mesh.
    pub mesh: usize,
    /// Where its instances start in the sorted buffer.
    pub first: usize,
    /// How many instances.
    pub count: usize,
    /// Whether it draws with the blending pipeline.
    pub transparent: bool,
}

/// The order instances are drawn in: opaque before transparent, then by
/// mesh, then as the consumer listed them.
pub open spec fn draws_before(items: Seq<DrawItem>, i: int, j: int) -> bool {
    let (a, b) = (items[i], items[j]);
    ||| (!a.transparent && b.transparent)
    ||| (a.transparent == b.transparent && a.mesh@ < b.mesh@)
    ||| (a.transparent == b.transparent && a.mesh@ == b.mesh@ && i < j)
}

/// `order` lists instances as they are drawn: each position in range, and each
/// strictly before the next (so each instance once).
pub open spec fn is_draw_order(items: Seq<DrawItem>, order: Seq<usize>) -> bool {
    &&& forall|k: int| 0 <= k < order.len() ==> (#[trigger] order[k]) < items.len()
    &&& forall|k: int, l: int|
        0 <= k < l < order.len() ==> draws_before(items, #[trigger] order[k] as int, #[trigger] order[l] as int)
}

/// Run `r` starts where run `r - 1` ends, and differs from it in mesh or
/// pipeline.
pub open spec fn run_follows(runs: Seq<DrawRun>, r: int) -> bool {
    &&& runs[r].first == runs[r - 1].first + runs[r - 1].count
    &&& (runs[r].mesh != runs[r - 1].mesh || runs[r].transparent != runs[r - 1].transparent)
}

/// Position `j` of the order lies in run `r`, and draws its mesh with its
/// pipeline.
pub open spec fn run_holds(items: Seq<DrawItem>, order: Seq<usize>, runs: Seq<DrawRun>, r: int, j: int) -> bool {
    runs[r].first <= j < runs[r].first + runs[r].count ==> j < order.len()
        && items[order[j] as int].mesh@ == runs[r].mesh && items[order[j] as int].transparent
        == runs[r].transparent
}

/// `runs` cut `order` into consecutive, non-empty stretches, each of one mesh
/// and one pipeline, no two neighbours alike.
pub open spec fn is_run_split(items: Seq<DrawItem>, order: Seq<usize>, runs: Seq<DrawRun>) -> bool {
    &&& (runs.len() == 0 <==> order.len() == 0)
    &&& runs.len() > 0 ==> runs[0].first == 0 && runs.last().first + runs.last().count == order.len()
    &&& forall|r: int| 0 <= r < runs.len() ==> (#[trigger] runs[r]).count > 0
    &&& forall|r: int| 0 < r < runs.len() ==> #[trigger] run_follows(runs, r)
    &&& forall|r: int, j: int| 0 <= r < runs.len() ==> #[trigger] run_holds(items, order, runs, r, j)
}

/// How many instances the first `r` runs draw.
pub open spec fn counts_before(runs: Seq<DrawRun>, r: int) -> int
    decreases r,
{
    if r <= 0 {
        0
    } else {
        counts_before(runs, r - 1) + runs[r - 1].count
    }
}

/// A run starts where the runs before it end: its instances follow exactly
/// those of the earlier runs in the buffer, and together the runs draw every
/// instance once.
pub proof fn lemma_runs_start_after_earlier_runs(items: Seq<DrawItem>, order: Seq<usize>, runs: Seq<DrawRun>)
    requires
        is_run_split(items, order, runs),
    ensures
        forall|r: int| 0 <= r < runs.len() ==> (#[trigger] runs[r]).first == counts_before(runs, r),
        counts_before(runs, runs.len() as int) == order.len(),
{
    assert forall|r: int| 0 <= r < runs.len() implies (#[trigger] runs[r]).first == counts_before(runs, r) by {
        lemma_run_start(items, order, runs, r);
    }
    if runs.len() > 0 {
        lemma_run_start(items, order, runs, runs.len() - 1);
    }
}

/// The induction behind `lemma_runs_start_after_earlier_runs`.
proof fn lemma_run_start(items: Seq<DrawItem>, order: Seq<usize>, runs: Seq<DrawRun>, r: int)
    requires
        is_run_split(items, order, runs),
        0 <= r < runs.len(),
    ensures
        runs[r].first == counts_before(runs, r),
    decreases r,
{
    if r > 0 {
        lemma_run_start(items, order, runs, r - 1);
        assert(run_follows(runs, r));
    }
}

/// Where each run's instances start in the instance buffer, in bytes, for
/// instances `stride` bytes long.
pub fn run_byte_offsets(runs: &[DrawRun], stride: u64) -> (offsets: Vec<u64>)
    requires
        forall|r: int| 0 <= r < runs@.len() ==> (#[trigger] runs@[r]).first * stride <= u64::MAX,
    ensures
        offsets@.len() == runs@.len(),
        forall|r: int| 0 <= r < runs@.len() ==> #[trigger] offsets@[r] == runs@[r].first * stride,
{
    let mut offsets: Vec<u64> = Vec::new();
    let mut i: usize = 0;
    while i < runs.len()
        invariant
            i <= runs@.len(),
            offsets@.len() == i,
            forall|r: int| 0 <= r < runs@.len() ==> (#[trigger] runs@[r]).first * stride <= u64::MAX,
            forall|r: int| 0 <= r < i ==> #[trigger] offsets@[r] == runs@[r].first * stride,
        decreases runs.len() - i,
    {
        let first = runs[i].first as u64;
        assert(runs@[i as int].first * stride <= u64::MAX);
        offsets.push(first * stride);
        i = i + 1;
    }
    offsets
}

/// Whether `a` draws before `b` whatever their positions: opaque first, then
/// by mesh.
fn key_before(a: DrawItem, b: DrawItem) -> (r: bool)
    ensures
        r == ((!a.transparent && b.transparent) || (a.transparent == b.transparent && a.mesh@
            < b.mesh@)),
{
    (!a.transparent && b.transparent) || (a.transparent == b.transparent && a.mesh.index()
        < b.mesh.index())
}

/// The draw order of a frame's instances and the draws it makes.
#[derive(Debug)]
pub struct DrawPlan {
    /// Instance positions, in the order their data goes into the buffer.
    pub order: Vec<usize>,
    /// The draws, in order.
    pub runs: Vec<DrawRun>,
}

/// Cut a draw order into runs of one mesh and one pipeline each.
fn split_runs(items: &[DrawItem], order: &Vec<usize>, mesh_count: usize) -> (runs: Vec<DrawRun>)
    requires
        order@.len() == items@.len(),
        forall|j: int| 0 <= j < order@.len() ==> (#[trigger] order@[j]) < items@.len(),
        forall|i: int| 0 <= i < items@.len() ==> (#[trigger] items@[i]).mesh@ < mesh_count,
    ensures
        is_run_split(items@, order@, runs@),
        forall|r: int| 0 <= r < runs@.len() ==> (#[trigger] runs@[r]).mesh < mesh_count,
{
    let n = items.len();
    let mut runs: Vec<DrawRun> = Vec::new();
    let mut k: usize = 0;
    while k < n
        invariant
            k <= n == items@.len() == order@.len(),
            forall|j: int| 0 <= j < order@.len() ==> (#[trigger] order@[j]) < items@.len(),
            forall|i: int| 0 <= i < items@.len() ==> (#[trigger] items@[i]).mesh@ < mesh_count,
            forall|r: int| 0 <= r < runs@.len() ==> (#[trigger] runs@[r]).mesh < mesh_count,
            runs@.len() == 0 <==> k == 0,
            runs@.len() > 0 ==> runs@[0].first == 0 && runs@.last().first + runs@.last().count == k,
            forall|r: int| 0 <= r < runs@.len() ==> (#[trigger] runs@[r]).count > 0,
            forall|r: int| 0 < r < runs@.len() ==> #[trigger] run_follows(runs@, r),
            forall|r: int, j: int| 0 <= r < runs@.len() ==> #[trigger] run_holds(items@, order@, runs@, r, j),
            forall|r: int| 0 <= r < runs@.len() ==> (#[trigger] runs@[r]).first + runs@[r].count <= k,
        decreases n - k,
    {
        let item = items[order[k]];
        let ghost before = runs@;
        let extend = if runs.len() > 0 {
            let last = runs[runs.len() - 1];
            last.mesh == item.mesh.index() && last.transparent == item.transparent
        } else {
            false
        };
        if extend {
            let last = runs.len() - 1;
            let mut run = runs[last];
            run.count = run.count + 1;
            runs.set(last, run);
            proof {
                assert forall|r: int| 0 < r < runs@.len() implies #[trigger] run_follows(runs@, r) by {
                    assert(run_follows(before, r));
                }
                assert forall|r: int, j: int| 0 <= r < runs@.len() implies #[trigger] run_holds(
                    items@,
                    order@,
                    runs@,
                    r,
                    j,
                ) by {
                    assert(run_holds(items@, order@, before, r, j));
                }
                assert forall|r: int| 0 <= r < runs@.len() implies (#[trigger] runs@[r]).first + runs@[r].count <= k + 1 by {
                    assert(before[r].first + before[r].count <= k);
                }
            }
        } else {
            runs.push(DrawRun { mesh: item.mesh.index(), first: k, count: 1, transparent: item.transparent });
            proof {
                assert forall|r: int| 0 < r < runs@.len() implies #[trigger] run_follows(runs@, r) by {
                    if r < before.len() {
                        assert(run_follows(before, r));
                    }
                }
                assert forall|r: int, j: int| 0 <= r < runs@.len() implies #[trigger] run_holds(
                    items@,
                    order@,
                    runs@,
                    r,
                    j,
                ) by {
                    if r < before.len() {
                        assert(run_holds(items@, order@, before, r, j));
                    }
                }
                assert forall|r: int| 0 <= r < runs@.len() implies (#[trigger] runs@[r]).first + runs@[r].count <= k + 1 by {
                    if r < before.len() {
                        assert(before[r].first + before[r].count <= k);
                    }
                }
            }
        }
        k = k + 1;
    }
    runs
}

/// Sort a frame's instances into draw order and cut the order into runs.
///
/// Every instance must name one of the `mesh_count` meshes uploaded so far:
/// a handle at or beyond that count is not one this renderer issued, and the
/// renderer stops on it before planning anything.
pub fn plan_draws(items: &[DrawItem], mesh_count: usize) -> (plan: DrawPlan)
    requires
        forall|i: int| 0 <= i < items@.len() ==> (#[trigger] items@[i]).mesh@ < mesh_count,
    ensures
        plan.order@.len() == items@.len(),
        is_draw_order(items@, plan.order@),
        is_run_split(items@, plan.order@, plan.runs@),
        forall|r: int| 0 <= r < plan.runs@.len() ==> (#[trigger] plan.runs@[r]).mesh < mesh_count,
{
    let n = items.len();
    let mut order: Vec<usize> = Vec::new();
    let mut i: usize = 0;
    while i < n
        invariant
            i <= n == items@.len(),
            order@.len() == i,
            forall|k: int| 0 <= k < order.len() ==> (#[trigger] order@[k]) < i,
            forall|k: int, l: int|
                0 <= k < l < order.len() ==> draws_before(items@, #[trigger] order@[k] as int, #[trigger] order@[l] as int),
        decreases n - i,
    {
        let item = items[i];
        let mut p: usize = 0;
        while p < order.len() && !key_before(item, items[order[p]])
            invariant
                p <= order.len(),
                i < n == items@.len(),
                item == items@[i as int],
                forall|k: int| 0 <= k < order.len() ==> (#[trigger] order@[k]) < i,
                forall|k: int| 0 <= k < p ==> draws_before(items@, #[trigger] order@[k] as int, i as int),
            decreases order.len() - p,
        {
            p = p + 1;
        }
        let ghost before = order@;
        proof {
            assert forall|k: int| p <= k < before.len() implies draws_before(items@, i as int, #[trigger] before[k] as int) by {
                if k > p {
                    assert(draws_before(items@, before[p as int] as int, before[k] as int));
                }
            }
        }
        order.insert(p, i);
        proof {
            assert forall|k: int, l: int| 0 <= k < l < order.len() implies draws_before(items@, #[trigger] order@[k] as int, #[trigger] order@[l] as int) by {
                if k < p && l == p {
                } else if k < p && l > p {
                    assert(order@[l] == before[l - 1]);
                } else if k == p {
                    assert(order@[l] == before[l - 1]);
                } else if k > p {
                    assert(order@[k] == before[k - 1]);
                    assert(order@[l] == before[l - 1]);
                }
            }
        }
        i = i + 1;
    }

    let runs = split_runs(items, &order, mesh_count);
    DrawPlan { order, runs }
}

/// Which pipeline a pass binds for the meshes it draws.
#[derive(Debug, Clone, Copy, PartialEq, Eq, Structural)]
pub enum Pipeline {
    /// Filled, depth-tested, back-face culled triangles.
    Solid,
    /// Edge lists, for the wireframe view.
    Lines,
    /// Blended, for transparent materials.
    Blend,
}

/// What a pass draws: the pipeline to bind, and each run to draw with its
/// index count.
#[derive(Debug)]
pub struct PassDraws {
    /// The pipeline.
    pub pipeline: Pipeline,
    /// `(run, index count)` for each draw, in order.
    pub draws: Vec<(usize, u32)>,
}

/// Whether a pass of `kind` draws `run`: in wireframe every run goes in the
/// opaque pass; otherwise a run is in exactly one of the two. A mesh with
/// nothing to draw is skipped.
pub open spec fn pass_takes(kind: PassKind, mode: RenderMode, run: DrawRun, counts: Seq<u32>) -> bool {
    &&& (mode == RenderMode::Wireframe || run.transparent == (kind == PassKind::Blended))
    &&& counts[run.mesh as int] > 0
}

/// The draws a pass of `kind` makes over `runs`, in order.
pub open spec fn pass_draw_list(kind: PassKind, mode: RenderMode, runs: Seq<DrawRun>, counts: Seq<u32>) -> Seq<(usize, u32)>
    decreases runs.len(),
{
    if runs.len() == 0 {
        Seq::empty()
    } else {
        let prev = pass_draw_list(kind, mode, runs.drop_last(), counts);
        if pass_takes(kind, mode, runs.last(), counts) {
            prev.push(((runs.len() - 1) as usize, counts[runs.last().mesh as int]))
        } else {
            prev
        }
    }
}

/// The pipeline a pass of `kind` binds.
pub open spec fn pass_pipeline(kind: PassKind, mode: RenderMode) -> Pipeline {
    if kind == PassKind::Blended {
        Pipeline::Blend
    } else if mode == RenderMode::Wireframe {
        Pipeline::Lines
    } else {
        Pipeline::Solid
    }
}

/// What a scene pass draws, given the runs and, per mesh, how many indices
/// the current render mode draws (triangle indices, or edge indices in
/// wireframe). `None`: the pass has nothing to do at all, which is the blended
/// pass in wireframe.
pub fn pass_draws(kind: PassKind, mode: RenderMode, runs: &[DrawRun], counts: &[u32]) -> (d: Option<PassDraws>)
    requires
        forall|r: int| 0 <= r < runs@.len() ==> (#[trigger] runs@[r]).mesh < counts@.len(),
    ensures
        match d {
            None => mode == RenderMode::Wireframe && kind == PassKind::Blended,
            Some(d) => !(mode == RenderMode::Wireframe && kind == PassKind::Blended)
                && d.pipeline == pass_pipeline(kind, mode)
                && d.draws@ == pass_draw_list(kind, mode, runs@, counts@),
        },
{
    let wireframe = match mode {
        RenderMode::Wireframe => true,
        RenderMode::Solid => false,
    };
    let blended = match kind {
        PassKind::Blended => true,
        _ => false,
    };
    if wireframe && blended {
        return None;
    }
    let pipeline = if blended {
        Pipeline::Blend
    } else if wireframe {
        Pipeline::Lines
    } else {
        Pipeline::Solid
    };
    let mut draws: Vec<(usize, u32)> = Vec::new();
    let mut i: usize = 0;
    while i < runs.len()
        invariant
            i <= runs@.len(),
            wireframe == (mode == RenderMode::Wireframe),
            blended == (kind == PassKind::Blended),
            forall|r: int| 0 <= r < runs@.len() ==> (#[trigger] runs@[r]).mesh < counts@.len(),
            draws@ == pass_draw_list(kind, mode, runs@.take(i as int), counts@),
        decreases runs.len() - i,
    {
        let run = runs[i];
        let count = counts[run.mesh];
        proof {
            let t = runs@.take(i as int + 1);
            assert(t.drop_last() =~= runs@.take(i as int));
            assert(t.last() == run);
        }
        if (wireframe || run.transparent == blended) && count > 0 {
            draws.push((i, count));
        }
        i = i + 1;
    }
    assert(runs@.take(i as int) =~= runs@);
    Some(PassDraws { pipeline, draws })
}

/// Whether `n` is a power of two.
pub open spec fn is_power_of_two(n: nat) -> bool
    decreases n,
{
    if n == 1 {
        true
    } else if n == 0 || n % 2 == 1 {
        false
    } else {
        is_power_of_two(n / 2)
    }
}

/// Room for `needed` instances, given room for `capacity` now: unchanged if it
/// is enough, otherwise the next power of two. Only ever grows, so a scene
/// with a steady object count settles after one frame.
pub fn grown_capacity(needed: usize, capacity: usize) -> (room: usize)
    requires
        needed <= usize::MAX / 2 + 1,
    ensures
        needed <= capacity ==> room == capacity,
        needed > capacity ==> room >= needed && is_power_of_two(room as nat) && room < 2 * needed,
{
    if needed <= capacity {
        return capacity;
    }
    let mut p: usize = 1;
    proof {
        assert(is_power_of_two(1));
    }
    while p < needed
        invariant
            1 <= p,
            is_power_of_two(p as nat),
            p < 2 * needed,
            needed <= usize::MAX / 2 + 1,
        decreases 2 * needed - p,
    {
        proof {
            assert((2 * p) as nat / 2 == p as nat);
            assert((2 * p) as nat % 2 == 0);
        }
        p = p * 2;
    }
    p
}

/// The overlay's per-layer index lists joined back to front, the first layer
/// first.
pub open spec fn layers_flat(layers: Seq<Vec<u32>>) -> Seq<u32>
    decreases layers.len(),
{
    if layers.len() == 0 {
        Seq::empty()
    } else {
        layers_flat(layers.drop_last()) + layers.last()@
    }
}

/// The overlay's index list for the frame: its per-layer lists joined back to
/// front, so every layer still draws in one call over the shared vertices and
/// only the order of the triangles says which is on top. `None` when no layer
/// holds a triangle, and the overlay pass is skipped.
pub fn flatten_layers(layers: &[Vec<u32>]) -> (flat: Option<Vec<u32>>)
    ensures
        layers_flat(layers@).len() == 0 ==> flat is None,
        layers_flat(layers@).len() > 0 ==> (flat matches Some(v) && v@ == layers_flat(layers@)),
{
    let mut out: Vec<u32> = Vec::new();
    let mut i: usize = 0;
    while i < layers.len()
        invariant
            i <= layers@.len(),
            out@ == layers_flat(layers@.take(i as int)),
        decreases layers.len() - i,
    {
        let layer = &layers[i];
        let ghost before = out@;
        let mut j: usize = 0;
        while j < layer.len()
            invariant
                j <= layer@.len(),
                layer == &layers@[i as int],
                out@ == before + layer@.take(j as int),
            decreases layer.len() - j,
        {
            out.push(layer[j]);
            assert(layer@.take(j + 1) =~= layer@.take(j as int).push(layer@[j as int]));
            j = j + 1;
        }
        proof {
            assert(layer@.take(j as int) =~= layer@);
            assert(layers@.take(i + 1).drop_last() =~= layers@.take(i as int));
        }
        i = i + 1;
    }
    assert(layers@.take(i as int) =~= layers@);
    if out.len() == 0 {
        None
    } else {
        Some(out)
    }
}

/// Edge `k` of a triangle list: the `k % 3`-th edge of triangle `k / 3`,
/// going round the triangle.
pub open spec fn tri_edge(tris: Seq<u32>, k: int) -> (u32, u32) {
    let q = k / 3;
    let w = k % 3;
    (tris[3 * q + w], tris[3 * q + (w + 1) % 3])
}

/// Whether two edges join the same two vertices, in either direction.
pub open spec fn same_edge(a: (u32, u32), b: (u32, u32)) -> bool {
    (a.0 == b.0 && a.1 == b.1) || (a.0 == b.1 && a.1 == b.0)
}

/// The first `n` edges of a triangle list, each kept only the first time it
/// appears.
pub open spec fn kept_edges(tris: Seq<u32>, n: nat) -> Seq<(u32, u32)>
    decreases n,
{
    if n == 0 {
        Seq::empty()
    } else {
        let prev = kept_edges(tris, (n - 1) as nat);
        let e = tri_edge(tris, n - 1);
        if exists|j: int| 0 <= j < n - 1 && same_edge(#[trigger] tri_edge(tris, j), e) {
            prev
        } else {
            prev.push(e)
        }
    }
}

/// Edges as a line list: two indices each.
pub open spec fn line_list(edges: Seq<(u32, u32)>) -> Seq<u32> {
    Seq::new(
        2 * edges.len(),
        |i: int|
            if i % 2 == 0 {
                edges[i / 2].0
            } else {
                edges[i / 2].1
            },
    )
}

/// An edge as one number, the same whichever way round it is given.
pub open spec fn edge_key(a: u32, b: u32) -> u64 {
    if a < b {
        (a as int * 0x1_0000_0000 + b as int) as u64
    } else {
        (b as int * 0x1_0000_0000 + a as int) as u64
    }
}

/// Two edges have the same key exactly when they are the same edge.
proof fn lemma_edge_key_same_edge(a: (u32, u32), b: (u32, u32))
    ensures
        edge_key(a.0, a.1) == edge_key(b.0, b.1) <==> same_edge(a, b),
{
    assert(edge_key(a.0, a.1) == edge_key(b.0, b.1) ==> same_edge(a, b)) by (nonlinear_arith);
}

/// The edges a set of keys has seen so far: the first `k` of the list.
pub open spec fn keys_of_edges(tris: Seq<u32>, k: int) -> Set<u64> {
    Set::new(|key: u64| exists|j: int| 0 <= j < k && edge_key(tri_edge(tris, j).0, tri_edge(tris, j).1) == key)
}

/// The edge list of a triangle list, for wireframe drawing: each triangle's
/// three edges, and an edge two triangles share (every interior edge of a
/// grid) only once, roughly halving the line count. A trailing partial
/// triangle is ignored.
pub fn edge_indices(tris: &[u32]) -> (lines: Vec<u32>)
    ensures
        lines@ == line_list(kept_edges(tris@, 3 * (tris@.len() / 3) as nat)),
{
    broadcast use vstd::std_specs::hash::group_hash_axioms;

    let total = (tris.len() / 3) * 3;
    let mut seen: HashSet<u64> = HashSet::new();
    let mut lines: Vec<u32> = Vec::new();
    let mut k: usize = 0;
    proof {
        assert(seen@ =~= keys_of_edges(tris@, 0));
        assert(lines@ =~= line_list(kept_edges(tris@, 0)));
    }
    while k < total
        invariant
            k <= total == 3 * (tris@.len() / 3),
            seen@ == keys_of_edges(tris@, k as int),
            lines@ == line_list(kept_edges(tris@, k as nat)),
        decreases total - k,
    {
        let q = k / 3;
        let w = k % 3;
        let a = tris[3 * q + w];
        let b = tris[3 * q + (w + 1) % 3];
        let key: u64 = if a < b {
            (a as u64) * 0x1_0000_0000 + b as u64
        } else {
            (b as u64) * 0x1_0000_0000 + a as u64
        };
        let ghost e = tri_edge(tris@, k as int);
        assert(e == (a, b));
        assert(key == edge_key(a, b));
        let ghost old_seen = seen@;
        let ghost old_lines = lines@;
        let fresh = seen.insert(key);
        proof {
            assert forall|j: int| 0 <= j < k && same_edge(#[trigger] tri_edge(tris@, j), e) implies old_seen.contains(key) by {
                lemma_edge_key_same_edge(tri_edge(tris@, j), e);
            }
            if old_seen.contains(key) {
                let j = choose|j: int| 0 <= j < k && edge_key(tri_edge(tris@, j).0, tri_edge(tris@, j).1) == key;
                lemma_edge_key_same_edge(tri_edge(tris@, j), e);
                assert(same_edge(tri_edge(tris@, j), e));
            }
            assert(seen@ =~= keys_of_edges(tris@, k + 1));
        }
        if fresh {
            lines.push(a);
            lines.push(b);
            proof {
                let kept = kept_edges(tris@, k as nat + 1);
                assert(kept == kept_edges(tris@, k as nat).push(e));
                assert(lines@ =~= line_list(kept));
            }
        } else {
            proof {
                let j = choose|j: int| 0 <= j < k && edge_key(tri_edge(tris@, j).0, tri_edge(tris@, j).1) == key;
                lemma_edge_key_same_edge(tri_edge(tris@, j), e);
                assert(same_edge(tri_edge(tris@, j), e));
                assert(kept_edges(tris@, k as nat + 1) == kept_edges(tris@, k as nat));
            }
        }
        k = k + 1;
    }
    lines
}

/// The `i`-th line of a line list: its indices `2i` and `2i + 1`.
pub open spec fn line_at(lines: Seq<u32>, i: int) -> (u32, u32) {
    (lines[2 * i], lines[2 * i + 1])
}

/// A line list read back as its lines.
pub open spec fn lines_of(lines: Seq<u32>) -> Seq<(u32, u32)> {
    Seq::new(lines.len() / 2, |i: int| line_at(lines, i))
}

/// The first `n` edges of a triangle list, in order, repeats included.
pub open spec fn all_edges(tris: Seq<u32>, n: nat) -> Seq<(u32, u32)> {
    Seq::new(n, |j: int| tri_edge(tris, j))
}

/// Whether `e` holds an edge joining the same two vertices as `x`.
pub open spec fn has_same_edge(e: Seq<(u32, u32)>, x: (u32, u32)) -> bool {
    exists|i: int| 0 <= i < e.len() && same_edge(#[trigger] e[i], x)
}

/// Every edge in `all` is, in one direction or the other, an edge of `e`.
pub open spec fn covers_edges(e: Seq<(u32, u32)>, all: Seq<(u32, u32)>) -> bool {
    forall|j: int| 0 <= j < all.len() ==> #[trigger] has_same_edge(e, all[j])
}

/// Every edge of `e` is one of `all`, the same way round.
pub open spec fn edges_from(e: Seq<(u32, u32)>, all: Seq<(u32, u32)>) -> bool {
    forall|i: int| 0 <= i < e.len() ==> all.contains(#[trigger] e[i])
}

/// No two edges of `e` join the same two vertices.
pub open spec fn distinct_edges(e: Seq<(u32, u32)>) -> bool {
    forall|i: int, l: int| 0 <= i < l < e.len() ==> !same_edge(#[trigger] e[i], #[trigger] e[l])
}

/// `same_edge` is an equivalence: symmetric and transitive.
proof fn lemma_same_edge_equiv(a: (u32, u32), b: (u32, u32), c: (u32, u32))
    ensures
        same_edge(a, b) ==> same_edge(b, a),
        same_edge(a, b) && same_edge(b, c) ==> same_edge(a, c),
{
}

/// One more edge that repeats an earlier one leaves the kept list as it is.
proof fn lemma_repeat_step(prev: Seq<(u32, u32)>, all: Seq<(u32, u32)>, x: (u32, u32), j0: int)
    requires
        covers_edges(prev, all),
        edges_from(prev, all),
        0 <= j0 < all.len(),
        same_edge(all[j0], x),
    ensures
        covers_edges(prev, all.push(x)),
        edges_from(prev, all.push(x)),
{
    let all2 = all.push(x);
    assert(has_same_edge(prev, all[j0]));
    let i0 = choose|i: int| 0 <= i < prev.len() && same_edge(#[trigger] prev[i], all[j0]);
    lemma_same_edge_equiv(prev[i0], all[j0], x);
    assert forall|j: int| 0 <= j < all2.len() implies #[trigger] has_same_edge(prev, all2[j]) by {
        if j == all.len() {
            assert(same_edge(prev[i0], all2[j]));
        } else {
            assert(all2[j] == all[j]);
            assert(has_same_edge(prev, all[j]));
        }
    }
    assert forall|i: int| 0 <= i < prev.len() implies all2.contains(#[trigger] prev[i]) by {
        assert(all.contains(prev[i]));
        let j = choose|j: int| 0 <= j < all.len() && all[j] == prev[i];
        assert(all2[j] == prev[i]);
    }
}

/// One more edge that is new is kept, at the end.
proof fn lemma_new_step(prev: Seq<(u32, u32)>, all: Seq<(u32, u32)>, x: (u32, u32))
    requires
        covers_edges(prev, all),
        edges_from(prev, all),
        distinct_edges(prev),
        forall|j: int| 0 <= j < all.len() ==> !same_edge(#[trigger] all[j], x),
    ensures
        covers_edges(prev.push(x), all.push(x)),
        edges_from(prev.push(x), all.push(x)),
        distinct_edges(prev.push(x)),
{
    let all2 = all.push(x);
    let cur = prev.push(x);
    assert forall|j: int| 0 <= j < all2.len() implies #[trigger] has_same_edge(cur, all2[j]) by {
        if j == all.len() {
            assert(same_edge(cur[prev.len() as int], all2[j]));
        } else {
            assert(all2[j] == all[j]);
            assert(has_same_edge(prev, all[j]));
            let i = choose|i: int| 0 <= i < prev.len() && same_edge(#[trigger] prev[i], all[j]);
            assert(cur[i] == prev[i]);
            assert(same_edge(cur[i], all2[j]));
        }
    }
    assert forall|i: int| 0 <= i < cur.len() implies all2.contains(#[trigger] cur[i]) by {
        if i == prev.len() {
            assert(all2[all.len() as int] == cur[i]);
        } else {
            assert(cur[i] == prev[i]);
            assert(all.contains(prev[i]));
            let j = choose|j: int| 0 <= j < all.len() && all[j] == prev[i];
            assert(all2[j] == cur[i]);
        }
    }
    assert forall|i: int, l: int| 0 <= i < l < cur.len() implies !same_edge(#[trigger] cur[i], #[trigger] cur[l]) by {
        if l == prev.len() {
            assert(cur[i] == prev[i] && cur[l] == x);
            assert(all.contains(prev[i]));
            let j = choose|j: int| 0 <= j < all.len() && all[j] == prev[i];
            assert(!same_edge(all[j], x));
        } else {
            assert(cur[i] == prev[i] && cur[l] == prev[l]);
        }
    }
}

/// `kept_edges` holds each of the first `n` edges exactly once, the way round
/// it first appeared.
proof fn lemma_kept_edges_once(tris: Seq<u32>, n: nat)
    ensures
        covers_edges(kept_edges(tris, n), all_edges(tris, n)),
        edges_from(kept_edges(tris, n), all_edges(tris, n)),
        distinct_edges(kept_edges(tris, n)),
    decreases n,
{
    if n > 0 {
        let m = (n - 1) as nat;
        lemma_kept_edges_once(tris, m);
        let prev = kept_edges(tris, m);
        let all = all_edges(tris, m);
        let x = tri_edge(tris, m as int);
        assert(all_edges(tris, n) =~= all.push(x));
        if exists|j: int| 0 <= j < m && same_edge(#[trigger] tri_edge(tris, j), x) {
            let j0 = choose|j: int| 0 <= j < m && same_edge(#[trigger] tri_edge(tris, j), x);
            assert(all[j0] == tri_edge(tris, j0));
            assert(kept_edges(tris, n) == prev);
            lemma_repeat_step(prev, all, x, j0);
        } else {
            assert forall|j: int| 0 <= j < all.len() implies !same_edge(#[trigger] all[j], x) by {
                assert(all[j] == tri_edge(tris, j));
            }
            assert(kept_edges(tris, n) == prev.push(x));
            lemma_new_step(prev, all, x);
        }
    }
}

/// Each edge of the triangles is drawn exactly once: `edge_indices` returns
/// whole lines (an even count of indices), every edge of a complete triangle
/// is one of them in one direction or the other, every one of them is a
/// triangle edge the way round it first appeared, and no two of them join the
/// same two vertices.
pub proof fn lemma_each_edge_drawn_once(tris: Seq<u32>)
    ensures
        ({
            let n = 3 * (tris.len() / 3);
            let lines = line_list(kept_edges(tris, n as nat));
            &&& lines.len() % 2 == 0
            &&& covers_edges(lines_of(lines), all_edges(tris, n as nat))
            &&& edges_from(lines_of(lines), all_edges(tris, n as nat))
            &&& distinct_edges(lines_of(lines))
        }),
{
    let n = 3 * (tris.len() / 3);
    let e = kept_edges(tris, n as nat);
    let lines = line_list(e);
    lemma_kept_edges_once(tris, n as nat);
    assert(lines.len() == 2 * e.len());
    assert forall|i: int| 0 <= i < e.len() implies #[trigger] line_at(lines, i) == e[i] by {
        assert((2 * i) % 2 == 0 && (2 * i) / 2 == i);
        assert((2 * i + 1) % 2 == 1 && (2 * i + 1) / 2 == i);
    }
    assert(lines_of(lines) =~= e);
}

} // verus!
