//! The index side of the primitive mesh builders.
//!
//! Vertex positions and normals are floating point and are computed beside
//! this; which vertices form which triangles is integer bookkeeping, and it is
//! where the winding rule and the degenerate cases live.
use vstd::prelude::*;

verus! {

/// The two counter-clockwise triangles of a quad whose four vertices start
/// at `base`.
pub open spec fn quad_spec(base: u32) -> Seq<u32> {
    seq![base, (base + 1) as u32, (base + 2) as u32, base, (base + 2) as u32, (base + 3) as u32]
}

/// Push the two counter-clockwise triangles of a quad whose four vertices
/// were just appended starting at `base`.
pub fn quad(indices: &mut Vec<u32>, base: u32)
    requires
        base <= u32::MAX - 3,
    ensures
        final(indices)@ == old(indices)@ + quad_spec(base),
{
    indices.push(base);
    indices.push(base + 1);
    indices.push(base + 2);
    indices.push(base);
    indices.push(base + 2);
    indices.push(base + 3);
    assert(final(indices)@ =~= old(indices)@ + quad_spec(base));
}

/// A box's index list: six faces of four vertices each, one quad per face.
pub open spec fn cuboid_spec(faces: nat) -> Seq<u32>
    decreases faces,
{
    if faces == 0 {
        Seq::empty()
    } else {
        cuboid_spec((faces - 1) as nat) + quad_spec((4 * (faces - 1)) as u32)
    }
}

/// The indices of a lit box: its corners are not shared, so each of the six
/// faces has its own four vertices and its own quad. 36 indices.
pub fn cuboid_indices() -> (indices: Vec<u32>)
    ensures
        indices@ == cuboid_spec(6),
        indices@.len() == 36,
{
    let mut indices: Vec<u32> = Vec::new();
    let mut face: u32 = 0;
    while face < 6
        invariant
            face <= 6,
            indices@ == cuboid_spec(face as nat),
            indices@.len() == 6 * face,
        decreases 6 - face,
    {
        quad(&mut indices, 4 * face);
        face = face + 1;
    }
    indices
}

/// The vertex at `row`, `col` of a lathe grid `cols` wide.
pub open spec fn grid_index(row: int, col: int, cols: int) -> u32 {
    (row * cols + col) as u32
}

/// The triangles between columns `0..upto` of rows `row` and `row + 1`: for
/// each column, `(a, c, d)` unless the lower row is the south pole, and
/// `(a, d, b)` unless the upper row is the north pole (at a pole one of the
/// two collapses to a line).
pub open spec fn band_spec(row: int, cols: int, upto: nat, at_north: bool, at_south: bool) -> Seq<u32>
    decreases upto,
{
    if upto == 0 {
        Seq::empty()
    } else {
        let col = upto - 1;
        let a = grid_index(row, col, cols);
        let b = grid_index(row, col + 1, cols);
        let c = grid_index(row + 1, col, cols);
        let d = grid_index(row + 1, col + 1, cols);
        band_spec(row, cols, (upto - 1) as nat, at_north, at_south) + (if at_south {
            Seq::empty()
        } else {
            seq![a, c, d]
        }) + (if at_north {
            Seq::empty()
        } else {
            seq![a, d, b]
        })
    }
}

/// The index list of a lathe's first `upto` bands. A band whose two rows are
/// the same circle (a zero-length capsule's doubled equator) has no area and
/// is skipped.
pub open spec fn lathe_spec(
    rows: nat,
    segments: nat,
    degenerate: Seq<bool>,
    north_pole: bool,
    south_pole: bool,
    upto: nat,
) -> Seq<u32>
    decreases upto,
{
    if upto == 0 {
        Seq::empty()
    } else {
        let row = upto - 1;
        let prev = lathe_spec(rows, segments, degenerate, north_pole, south_pole, (upto - 1) as nat);
        if degenerate[row as int] {
            prev
        } else {
            prev + band_spec(
                row as int,
                (segments + 1) as int,
                segments,
                row == 0 && north_pole,
                row == rows - 2 && south_pole,
            )
        }
    }
}

/// The triangles of a surface of revolution: `rows` rings of `segments + 1`
/// vertices (the seam column doubled), joined band by band.
/// `degenerate[row]` says the band below `row` has no area; `north_pole` and
/// `south_pole` say the first or last ring is a single point.
pub fn lathe_indices(
    rows: usize,
    segments: u32,
    degenerate: &[bool],
    north_pole: bool,
    south_pole: bool,
) -> (indices: Vec<u32>)
    requires
        rows >= 1,
        degenerate@.len() == rows - 1,
        rows * (segments as int + 1) <= u32::MAX + 1,
        segments as int + 1 <= usize::MAX,
    ensures
        indices@ == lathe_spec(
            rows as nat,
            segments as nat,
            degenerate@,
            north_pole,
            south_pole,
            (rows - 1) as nat,
        ),
{
    let cols = segments as usize + 1;
    let mut indices: Vec<u32> = Vec::new();
    let mut row: usize = 0;
    while row < rows - 1
        invariant
            rows >= 1,
            row <= rows - 1,
            degenerate@.len() == rows - 1,
            cols == segments + 1,
            rows * (segments as int + 1) <= u32::MAX + 1,
            indices@ == lathe_spec(rows as nat, segments as nat, degenerate@, north_pole, south_pole, row as nat),
        decreases rows - 1 - row,
    {
        if !degenerate[row] {
            let at_north = row == 0 && north_pole;
            let at_south = row == rows - 2 && south_pole;
            let ghost before = indices@;
            let mut col: usize = 0;
            proof {
                assert((row + 2) * cols <= rows * cols) by (nonlinear_arith)
                    requires
                        row + 2 <= rows,
                ;
            }
            while col < segments as usize
                invariant
                    col <= segments,
                    row + 2 <= rows,
                    cols == segments + 1,
                    (row + 2) * cols <= u32::MAX + 1,
                    indices@ == before + band_spec(row as int, cols as int, col as nat, at_north, at_south),
                decreases segments - col,
            {
                proof {
                    assert((row + 1) * cols + col + 1 < (row + 2) * cols) by (nonlinear_arith)
                        requires
                            col < segments,
                            cols == segments + 1,
                    ;
                    assert(row * cols + col + 1 <= (row + 1) * cols) by (nonlinear_arith)
                        requires
                            col < segments,
                            cols == segments + 1,
                    ;
                    assert(0 <= row * cols) by (nonlinear_arith);
                }
                let a = (row * cols + col) as u32;
                let b = (row * cols + col + 1) as u32;
                let c = ((row + 1) * cols + col) as u32;
                let d = ((row + 1) * cols + col + 1) as u32;
                let ghost mid = indices@;
                if !at_south {
                    indices.push(a);
                    indices.push(c);
                    indices.push(d);
                }
                let ghost mid2 = indices@;
                if !at_north {
                    indices.push(a);
                    indices.push(d);
                    indices.push(b);
                }
                proof {
                    assert(a == grid_index(row as int, col as int, cols as int));
                    assert(b == grid_index(row as int, col + 1, cols as int));
                    assert(c == grid_index(row + 1, col as int, cols as int));
                    assert(d == grid_index(row + 1, col + 1, cols as int));
                    let tail1 = if at_south { Seq::<u32>::empty() } else { seq![a, c, d] };
                    let tail2 = if at_north { Seq::<u32>::empty() } else { seq![a, d, b] };
                    assert(mid2 =~= mid + tail1);
                    assert(indices@ =~= mid2 + tail2);
                    assert(band_spec(row as int, cols as int, col as nat + 1, at_north, at_south)
                        == band_spec(row as int, cols as int, col as nat, at_north, at_south) + tail1 + tail2);
                    assert(indices@ =~= before + band_spec(row as int, cols as int, col as nat + 1, at_north, at_south));
                }
                col = col + 1;
            }
        }
        row = row + 1;
    }
    indices
}

/// The number of the vertex at `row`, `col` of a grid `cols` wide.
pub open spec fn vertex_at(row: int, col: int, cols: int) -> int {
    row * cols + col
}

/// Whether `(p, q, r)` is one of the two counter-clockwise triangles of a
/// cell of a lathe grid `rows` by `cols`: with `a`, `b` the cell's upper
/// corners and `c`, `d` the ones below them, either `(a, c, d)` or
/// `(a, d, b)`.
pub open spec fn band_triangle(p: int, q: int, r: int, rows: int, cols: int) -> bool {
    exists|row: int, col: int|
        0 <= row < rows - 1 && 0 <= col < cols - 1 && p == #[trigger] vertex_at(row, col, cols) && (
        (q == vertex_at(row + 1, col, cols) && r == vertex_at(row + 1, col + 1, cols)) || (q
            == vertex_at(row + 1, col + 1, cols) && r == vertex_at(row, col + 1, cols)))
}

/// Whether the `t`-th triangle of the index list `x` is such a triangle.
pub open spec fn triangle_ok(x: Seq<u32>, t: int, rows: int, cols: int) -> bool {
    band_triangle(x[3 * t] as int, x[3 * t + 1] as int, x[3 * t + 2] as int, rows, cols)
}

/// Whether `x` is whole triangles, every one of them a counter-clockwise
/// triangle of a cell of the grid.
pub open spec fn all_band_triangles(x: Seq<u32>, rows: int, cols: int) -> bool {
    &&& x.len() % 3 == 0
    &&& forall|t: int| 0 <= t && 3 * t < x.len() ==> #[trigger] triangle_ok(x, t, rows, cols)
}

/// Whole, well-wound triangles stay so when lists of them are joined.
proof fn lemma_band_triangles_concat(x: Seq<u32>, y: Seq<u32>, rows: int, cols: int)
    requires
        all_band_triangles(x, rows, cols),
        all_band_triangles(y, rows, cols),
    ensures
        all_band_triangles(x + y, rows, cols),
{
    let m = x.len() / 3;
    assert(x.len() == 3 * m);
    let z = x + y;
    assert forall|t: int| 0 <= t && 3 * t < z.len() implies #[trigger] triangle_ok(z, t, rows, cols) by {
        if t < m {
            assert(triangle_ok(x, t, rows, cols));
            assert(z[3 * t] == x[3 * t] && z[3 * t + 1] == x[3 * t + 1] && z[3 * t + 2] == x[3 * t + 2]);
        } else {
            let u = t - m;
            assert(3 * u < y.len());
            assert(triangle_ok(y, u, rows, cols));
            assert(z[3 * t] == y[3 * u] && z[3 * t + 1] == y[3 * u + 1] && z[3 * t + 2] == y[3 * u + 2]);
        }
    }
}

/// A band's triangles are all counter-clockwise triangles of its cells.
proof fn lemma_band_wound(row: int, cols: int, upto: nat, at_north: bool, at_south: bool, rows: int)
    requires
        0 <= row,
        row + 2 <= rows,
        upto <= cols - 1,
        rows * cols <= u32::MAX + 1,
    ensures
        all_band_triangles(band_spec(row, cols, upto, at_north, at_south), rows, cols),
    decreases upto,
{
    if upto > 0 {
        lemma_band_wound(row, cols, (upto - 1) as nat, at_north, at_south, rows);
        let col = upto - 1;
        assert((row + 1) * cols + col + 1 < (row + 2) * cols) by (nonlinear_arith)
            requires
                col < cols - 1,
        ;
        assert((row + 2) * cols <= rows * cols) by (nonlinear_arith)
            requires
                row + 2 <= rows,
                cols >= 1,
        ;
        assert(0 <= row * cols) by (nonlinear_arith)
            requires
                0 <= row,
                cols >= 1,
        ;
        assert((row + 1) * cols == row * cols + cols) by (nonlinear_arith);
        let a = grid_index(row, col, cols);
        let b = grid_index(row, col + 1, cols);
        let c = grid_index(row + 1, col, cols);
        let d = grid_index(row + 1, col + 1, cols);
        assert(a as int == vertex_at(row, col, cols));
        assert(b as int == vertex_at(row, col + 1, cols));
        assert(c as int == vertex_at(row + 1, col, cols));
        assert(d as int == vertex_at(row + 1, col + 1, cols));
        let t1: Seq<u32> = if at_south { Seq::empty() } else { seq![a, c, d] };
        let t2: Seq<u32> = if at_north { Seq::empty() } else { seq![a, d, b] };
        assert(all_band_triangles(t1, rows, cols)) by {
            if !at_south {
                assert forall|t: int| 0 <= t && 3 * t < t1.len() implies #[trigger] triangle_ok(t1, t, rows, cols) by {
                    assert(t == 0);
                    assert(band_triangle(a as int, c as int, d as int, rows, cols));
                }
            }
        }
        assert(all_band_triangles(t2, rows, cols)) by {
            if !at_north {
                assert forall|t: int| 0 <= t && 3 * t < t2.len() implies #[trigger] triangle_ok(t2, t, rows, cols) by {
                    assert(t == 0);
                    assert(band_triangle(a as int, d as int, b as int, rows, cols));
                }
            }
        }
        let prev = band_spec(row, cols, (upto - 1) as nat, at_north, at_south);
        lemma_band_triangles_concat(prev, t1, rows, cols);
        lemma_band_triangles_concat(prev + t1, t2, rows, cols);
    }
}

/// Every triangle of a lathe (a sphere or a capsule) is wound the same way,
/// counter-clockwise seen from outside, whatever its band: each is
/// `(a, c, d)` or `(a, d, b)` of one grid cell, with `a`, `b` the cell's
/// upper corners and `c`, `d` the ones below them. So none faces inward and
/// none is culled, and every index names a vertex of the grid.
pub proof fn lemma_lathe_wound_one_way(
    rows: nat,
    segments: nat,
    degenerate: Seq<bool>,
    north_pole: bool,
    south_pole: bool,
    upto: nat,
)
    requires
        rows >= 1,
        upto <= rows - 1,
        degenerate.len() == rows - 1,
        rows * (segments + 1) <= u32::MAX + 1,
    ensures
        all_band_triangles(
            lathe_spec(rows, segments, degenerate, north_pole, south_pole, upto),
            rows as int,
            segments as int + 1,
        ),
    decreases upto,
{
    if upto > 0 {
        let row = upto - 1;
        lemma_lathe_wound_one_way(rows, segments, degenerate, north_pole, south_pole, (upto - 1) as nat);
        if !degenerate[row as int] {
            lemma_band_wound(
                row as int,
                (segments + 1) as int,
                segments,
                row == 0 && north_pole,
                row == rows - 2 && south_pole,
                rows as int,
            );
            lemma_band_triangles_concat(
                lathe_spec(rows, segments, degenerate, north_pole, south_pole, (upto - 1) as nat),
                band_spec(
                    row as int,
                    (segments + 1) as int,
                    segments,
                    row == 0 && north_pole,
                    row == rows - 2 && south_pole,
                ),
                rows as int,
                segments as int + 1,
            );
        }
    }
}

/// Every face of a box is two counter-clockwise triangles over its own four
/// vertices `4f` to `4f + 3`: `(4f, 4f + 1, 4f + 2)` then `(4f, 4f + 2, 4f + 3)`,
/// both wound the same way round, and face after face in order.
pub proof fn lemma_cuboid_faces(faces: nat)
    requires
        faces <= 6,
    ensures
        cuboid_spec(faces).len() == 6 * faces,
        forall|f: int, k: int| 0 <= f < faces && 0 <= k < 6 ==> {
            let x = #[trigger] cuboid_spec(faces)[6 * f + k];
            &&& k == 0 || k == 3 ==> x == 4 * f
            &&& k == 1 ==> x == 4 * f + 1
            &&& k == 2 || k == 4 ==> x == 4 * f + 2
            &&& k == 5 ==> x == 4 * f + 3
        },
    decreases faces,
{
    if faces > 0 {
        lemma_cuboid_faces((faces - 1) as nat);
        let prev = cuboid_spec((faces - 1) as nat);
        let q = quad_spec((4 * (faces - 1)) as u32);
        assert(cuboid_spec(faces) == prev + q);
        assert forall|f: int, k: int| 0 <= f < faces && 0 <= k < 6 implies {
            let x = #[trigger] cuboid_spec(faces)[6 * f + k];
            &&& k == 0 || k == 3 ==> x == 4 * f
            &&& k == 1 ==> x == 4 * f + 1
            &&& k == 2 || k == 4 ==> x == 4 * f + 2
            &&& k == 5 ==> x == 4 * f + 3
        } by {
            if f < faces - 1 {
                assert(cuboid_spec(faces)[6 * f + k] == prev[6 * f + k]);
                assert(prev[6 * f + k] == prev[6 * f + k]);
            } else {
                assert(cuboid_spec(faces)[6 * f + k] == q[k]);
            }
        }
    }
}

} // verus!
