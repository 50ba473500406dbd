//! Triangulation of volume and surface cells, shared by the dataset decoders.
use vstd::prelude::*;

verus! {

/// The shape of one mesh cell.
#[derive(Clone, Copy, Debug, PartialEq, Eq, Structural)]
pub enum CellShape {
    /// A triangle (3 nodes).
    Tri,
    /// A quadrilateral (4 nodes).
    Quad,
    /// A tetrahedron (4 nodes).
    Tet,
    /// A pyramid (5 nodes: a quad base and an apex).
    Pyramid,
    /// A wedge or pentahedron (6 nodes: two triangles).
    Wedge,
    /// A hexahedron or brick (8 nodes).
    Hex,
}

/// The number of nodes a cell of shape `c` has.
pub open spec fn shape_nodes(c: CellShape) -> nat {
    match c {
        CellShape::Tri => 3,
        CellShape::Quad => 4,
        CellShape::Tet => 4,
        CellShape::Pyramid => 5,
        CellShape::Wedge => 6,
        CellShape::Hex => 8,
    }
}

/// The surface triangles of a cell, three node positions each: a quad is split along its
/// 0-2 diagonal, a tetrahedron gives its four faces, a pyramid its base and four sides, a
/// wedge its two caps and three sides, a hexahedron its six faces.
pub open spec fn shape_pattern(c: CellShape) -> Seq<int> {
    match c {
        CellShape::Tri => seq![0, 1, 2],
        CellShape::Quad => seq![0, 1, 2, 0, 2, 3],
        CellShape::Tet => seq![0, 2, 1, 0, 1, 3, 1, 2, 3, 0, 3, 2],
        CellShape::Pyramid => seq![0, 1, 2, 0, 2, 3, 0, 1, 4, 1, 2, 4, 2, 3, 4, 3, 0, 4],
        CellShape::Wedge => seq![
            0, 1, 2, 3, 5, 4, 0, 3, 4, 0, 4, 1, 1, 4, 5, 1, 5, 2, 2, 5, 3, 2, 3, 0
        ],
        CellShape::Hex => seq![
            0, 3, 2, 0, 2, 1, 4, 5, 6, 4, 6, 7, 0, 1, 5, 0, 5, 4, 2, 3, 7, 2, 7, 6,
            0, 4, 7, 0, 7, 3, 1, 2, 6, 1, 6, 5
        ],
    }
}

/// The triangle indices a cell with node indices `nodes` contributes.
pub open spec fn cell_triangles(c: CellShape, nodes: Seq<u32>) -> Seq<u32> {
    shape_pattern(c).map_values(|k: int| nodes[k])
}

/// Every cell shape yields whole triangles that use only the cell's own nodes.
pub proof fn lemma_cell_triangles(c: CellShape, nodes: Seq<u32>)
    requires
        nodes.len() >= shape_nodes(c),
    ensures
        shape_pattern(c).len() % 3 == 0,
        forall|k: int| 0 <= k < shape_pattern(c).len() ==> 0 <= #[trigger] shape_pattern(c)[k] < shape_nodes(c),
        cell_triangles(c, nodes).len() == shape_pattern(c).len(),
        forall|k: int|
            0 <= k < cell_triangles(c, nodes).len() ==> #[trigger] cell_triangles(c, nodes)[k]
                == nodes[shape_pattern(c)[k]],
{
}

/// The faces of a cell, each a polygon of node positions in outward winding: a triangle's or
/// quad's single face; a tetrahedron's four triangles; a pyramid's quad base and four
/// triangular sides; a wedge's two triangular caps and three quad sides; a hexahedron's
/// bottom, top, front, back, left and right quads.
pub open spec fn shape_faces(c: CellShape) -> Seq<Seq<int>> {
    match c {
        CellShape::Tri => seq![seq![0, 1, 2]],
        CellShape::Quad => seq![seq![0, 1, 2, 3]],
        CellShape::Tet => seq![seq![0, 2, 1], seq![0, 1, 3], seq![1, 2, 3], seq![0, 3, 2]],
        CellShape::Pyramid => seq![seq![0, 1, 2, 3], seq![0, 1, 4], seq![1, 2, 4], seq![2, 3, 4], seq![3, 0, 4]],
        CellShape::Wedge => seq![seq![0, 1, 2], seq![3, 5, 4], seq![0, 3, 4, 1], seq![1, 4, 5, 2], seq![2, 5, 3, 0]],
        CellShape::Hex => seq![
            seq![0, 3, 2, 1],
            seq![4, 5, 6, 7],
            seq![0, 1, 5, 4],
            seq![2, 3, 7, 6],
            seq![0, 4, 7, 3],
            seq![1, 2, 6, 5],
        ],
    }
}

/// The triangles of one face: a triangle as it is, a quad `a b c d` as `a b c` and `a c d`.
pub open spec fn face_fan(f: Seq<int>) -> Seq<int> {
    if f.len() == 3 {
        f
    } else {
        seq![f[0], f[1], f[2], f[0], f[2], f[3]]
    }
}

/// The triangles of the first `k` faces, face after face.
pub open spec fn faces_fan(fs: Seq<Seq<int>>, k: nat) -> Seq<int>
    decreases k,
{
    if k == 0 || k > fs.len() {
        Seq::empty()
    } else {
        faces_fan(fs, (k - 1) as nat) + face_fan(fs[k - 1])
    }
}

/// Whether triangle `i` of a pattern has the directed edge `a` to `b`.
pub open spec fn has_edge(p: Seq<int>, i: int, a: int, b: int) -> bool {
    ||| p[3 * i] == a && p[3 * i + 1] == b
    ||| p[3 * i + 1] == a && p[3 * i + 2] == b
    ||| p[3 * i + 2] == a && p[3 * i] == b
}

/// How many of the first `t` triangles of a pattern have the directed edge `a` to `b`.
pub open spec fn edge_count(p: Seq<int>, t: nat, a: int, b: int) -> nat
    decreases t,
{
    if t == 0 {
        0
    } else {
        edge_count(p, (t - 1) as nat, a, b) + if has_edge(p, t - 1, a, b) {
            1nat
        } else {
            0nat
        }
    }
}

/// The edge from `a` to `b` is used at most once, and exactly as often as the edge back.
pub open spec fn edge_paired(p: Seq<int>, a: int, b: int) -> bool {
    let t = p.len() / 3;
    edge_count(p, t as nat, a, b) <= 1 && edge_count(p, t as nat, a, b) == edge_count(p, t as nat, b, a)
}

spec fn row_paired(p: Seq<int>, a: int, m: nat) -> bool
    decreases m,
{
    m == 0 || (edge_paired(p, a, m - 1) && row_paired(p, a, (m - 1) as nat))
}

spec fn all_paired(p: Seq<int>, n: nat, m: nat) -> bool
    decreases m,
{
    m == 0 || (row_paired(p, m - 1, n) && all_paired(p, n, (m - 1) as nat))
}

proof fn lemma_row_paired(p: Seq<int>, a: int, m: nat)
    requires
        row_paired(p, a, m),
    ensures
        forall|b: int| 0 <= b < m ==> edge_paired(p, a, b),
    decreases m,
{
    if m > 0 {
        lemma_row_paired(p, a, (m - 1) as nat);
    }
}

proof fn lemma_all_paired(p: Seq<int>, n: nat, m: nat)
    requires
        all_paired(p, n, m),
    ensures
        forall|a: int, b: int| 0 <= a < m && 0 <= b < n ==> edge_paired(p, a, b),
    decreases m,
{
    if m > 0 {
        lemma_all_paired(p, n, (m - 1) as nat);
        lemma_row_paired(p, m - 1, n);
    }
}

/// The surface triangles of every cell are the triangles of its faces (see [`shape_faces`]),
/// face after face, each face exactly once.
pub proof fn lemma_cell_faces(c: CellShape)
    ensures
        shape_pattern(c) == faces_fan(shape_faces(c), shape_faces(c).len()),
{
    reveal_with_fuel(faces_fan, 7);
    assert(shape_pattern(c) =~= faces_fan(shape_faces(c), shape_faces(c).len()));
}

/// Whether the edge between `a` and `b`, either way round, is used by no triangle of a
/// pattern or by exactly two.
pub open spec fn edge_closed(p: Seq<int>, a: int, b: int) -> bool {
    let t = (p.len() / 3) as nat;
    edge_count(p, t, a, b) + edge_count(p, t, b, a) == 0 || edge_count(p, t, a, b) + edge_count(p, t, b, a) == 2
}

/// The surface triangles of a volume cell (tetrahedron, pyramid, wedge, hexahedron) close it:
/// every edge between two of its nodes borders no triangle or exactly two, so no face is
/// missing or repeated.
pub proof fn lemma_volume_cell_closed(c: CellShape)
    requires
        c != CellShape::Tri,
        c != CellShape::Quad,
    ensures
        shape_pattern(c).len() % 3 == 0,
        forall|a: int, b: int|
            0 <= a < shape_nodes(c) && 0 <= b < shape_nodes(c) ==> #[trigger] edge_closed(shape_pattern(c), a, b),
{
    let p = shape_pattern(c);
    match c {
        CellShape::Tet => {
            lemma_tet_edge_closed_0();
            lemma_tet_edge_closed_1();
            lemma_tet_edge_closed_2();
            lemma_tet_edge_closed_3();
            assert forall|a: int, b: int| 0 <= a < 4 && 0 <= b < 4 implies #[trigger] edge_closed(p, a, b) by {
                assert(a == 0 || a == 1 || a == 2 || a == 3);
            }
        },
        CellShape::Pyramid => {
            lemma_pyramid_edge_closed_0();
            lemma_pyramid_edge_closed_1();
            lemma_pyramid_edge_closed_2();
            lemma_pyramid_edge_closed_3();
            lemma_pyramid_edge_closed_4();
            assert forall|a: int, b: int| 0 <= a < 5 && 0 <= b < 5 implies #[trigger] edge_closed(p, a, b) by {
                assert(a == 0 || a == 1 || a == 2 || a == 3 || a == 4);
            }
        },
        CellShape::Wedge => {
            lemma_wedge_edge_closed_0();
            lemma_wedge_edge_closed_1();
            lemma_wedge_edge_closed_2();
            lemma_wedge_edge_closed_3();
            lemma_wedge_edge_closed_4();
            lemma_wedge_edge_closed_5();
            assert forall|a: int, b: int| 0 <= a < 6 && 0 <= b < 6 implies #[trigger] edge_closed(p, a, b) by {
                assert(a == 0 || a == 1 || a == 2 || a == 3 || a == 4 || a == 5);
            }
        },
        CellShape::Hex => {
            lemma_hex_edge_closed_0();
            lemma_hex_edge_closed_1();
            lemma_hex_edge_closed_2();
            lemma_hex_edge_closed_3();
            lemma_hex_edge_closed_4();
            lemma_hex_edge_closed_5();
            lemma_hex_edge_closed_6();
            lemma_hex_edge_closed_7();
            assert forall|a: int, b: int| 0 <= a < 8 && 0 <= b < 8 implies #[trigger] edge_closed(p, a, b) by {
                assert(a == 0 || a == 1 || a == 2 || a == 3 || a == 4 || a == 5 || a == 6 || a == 7);
            }
        },
        _ => {},
    }
}

/// The surface triangles of a tetrahedron, wedge or hexahedron also wind consistently: every
/// directed edge is used at most once, and exactly as often as the same edge the other way
/// round. (A pyramid's base winds the same way round as its sides.)
pub proof fn lemma_volume_cell_oriented(c: CellShape)
    requires
        c == CellShape::Tet || c == CellShape::Wedge || c == CellShape::Hex,
    ensures
        forall|a: int, b: int|
            0 <= a < shape_nodes(c) && 0 <= b < shape_nodes(c) ==> #[trigger] edge_paired(shape_pattern(c), a, b),
{
    let p = shape_pattern(c);
    match c {
        CellShape::Tet => {
            lemma_tet_edge_paired_0();
            lemma_tet_edge_paired_1();
            lemma_tet_edge_paired_2();
            lemma_tet_edge_paired_3();
            assert forall|a: int, b: int| 0 <= a < 4 && 0 <= b < 4 implies #[trigger] edge_paired(p, a, b) by {
                assert(a == 0 || a == 1 || a == 2 || a == 3);
            }
        },
        CellShape::Wedge => {
            lemma_wedge_edge_paired_0();
            lemma_wedge_edge_paired_1();
            lemma_wedge_edge_paired_2();
            lemma_wedge_edge_paired_3();
            lemma_wedge_edge_paired_4();
            lemma_wedge_edge_paired_5();
            assert forall|a: int, b: int| 0 <= a < 6 && 0 <= b < 6 implies #[trigger] edge_paired(p, a, b) by {
                assert(a == 0 || a == 1 || a == 2 || a == 3 || a == 4 || a == 5);
            }
        },
        CellShape::Hex => {
            lemma_hex_edge_paired_0();
            lemma_hex_edge_paired_1();
            lemma_hex_edge_paired_2();
            lemma_hex_edge_paired_3();
            lemma_hex_edge_paired_4();
            lemma_hex_edge_paired_5();
            lemma_hex_edge_paired_6();
            lemma_hex_edge_paired_7();
            assert forall|a: int, b: int| 0 <= a < 8 && 0 <= b < 8 implies #[trigger] edge_paired(p, a, b) by {
                assert(a == 0 || a == 1 || a == 2 || a == 3 || a == 4 || a == 5 || a == 6 || a == 7);
            }
        },
        _ => {},
    }
}

proof fn lemma_tet_edge_closed_0()
    ensures
        forall|b: int| 0 <= b < 4 ==> #[trigger] edge_closed(shape_pattern(CellShape::Tet), 0, b),
{
    let p = shape_pattern(CellShape::Tet);
    assert(edge_closed(p, 0, 0)) by {
        reveal_with_fuel(edge_count, 13);
    }
    assert(edge_closed(p, 0, 1)) by {
        reveal_with_fuel(edge_count, 13);
    }
    assert(edge_closed(p, 0, 2)) by {
        reveal_with_fuel(edge_count, 13);
    }
    assert(edge_closed(p, 0, 3)) by {
        reveal_with_fuel(edge_count, 13);
    }
    assert forall|b: int| 0 <= b < 4 implies #[trigger] edge_closed(p, 0, b) by {
        assert(b == 0 || b == 1 || b == 2 || b == 3);
    }
}

proof fn lemma_tet_edge_paired_0()
    ensures
        forall|b: int| 0 <= b < 4 ==> #[trigger] edge_paired(shape_pattern(CellShape::Tet), 0, b),
{
    let p = shape_pattern(CellShape::Tet);
    assert(edge_paired(p, 0, 0)) by {
        reveal_with_fuel(edge_count, 13);
    }
    assert(edge_paired(p, 0, 1)) by {
        reveal_with_fuel(edge_count, 13);
    }
    assert(edge_paired(p, 0, 2)) by {
        reveal_with_fuel(edge_count, 13);
    }
    assert(edge_paired(p, 0, 3)) by {
        reveal_with_fuel(edge_count, 13);
    }
    assert forall|b: int| 0 <= b < 4 implies #[trigger] edge_paired(p, 0, b) by {
        assert(b == 0 || b == 1 || b == 2 || b == 3);
    }
}

proof fn lemma_tet_edge_closed_1()
    ensures
        forall|b: int| 0 <= b < 4 ==> #[trigger] edge_closed(shape_pattern(CellShape::Tet), 1, b),
{
    let p = shape_pattern(CellShape::Tet);
    assert(edge_closed(p, 1, 0)) by {
        reveal_with_fuel(edge_count, 13);
    }
    assert(edge_closed(p, 1, 1)) by {
        reveal_with_fuel(edge_count, 13);
    }
    assert(edge_closed(p, 1, 2)) by {
        reveal_with_fuel(edge_count, 13);
    }
    assert(edge_closed(p, 1, 3)) by {
        reveal_with_fuel(edge_count, 13);
    }
    assert forall|b: int| 0 <= b < 4 implies #[trigger] edge_closed(p, 1, b) by {
        assert(b == 0 || b == 1 || b == 2 || b == 3);
    }
}

proof fn lemma_tet_edge_paired_1()
    ensures
        forall|b: int| 0 <= b < 4 ==> #[trigger] edge_paired(shape_pattern(CellShape::Tet), 1, b),
{
    let p = shape_pattern(CellShape::Tet);
    assert(edge_paired(p, 1, 0)) by {
        reveal_with_fuel(edge_count, 13);
    }
    assert(edge_paired(p, 1, 1)) by {
        reveal_with_fuel(edge_count, 13);
    }
    assert(edge_paired(p, 1, 2)) by {
        reveal_with_fuel(edge_count, 13);
    }
    assert(edge_paired(p, 1, 3)) by {
        reveal_with_fuel(edge_count, 13);
    }
    assert forall|b: int| 0 <= b < 4 implies #[trigger] edge_paired(p, 1, b) by {
        assert(b == 0 || b == 1 || b == 2 || b == 3);
    }
}

proof fn lemma_tet_edge_closed_2()
    ensures
        forall|b: int| 0 <= b < 4 ==> #[trigger] edge_closed(shape_pattern(CellShape::Tet), 2, b),
{
    let p = shape_pattern(CellShape::Tet);
    assert(edge_closed(p, 2, 0)) by {
        reveal_with_fuel(edge_count, 13);
    }
    assert(edge_closed(p, 2, 1)) by {
        reveal_with_fuel(edge_count, 13);
    }
    assert(edge_closed(p, 2, 2)) by {
        reveal_with_fuel(edge_count, 13);
    }
    assert(edge_closed(p, 2, 3)) by {
        reveal_with_fuel(edge_count, 13);
    }
    assert forall|b: int| 0 <= b < 4 implies #[trigger] edge_closed(p, 2, b) by {
        assert(b == 0 || b == 1 || b == 2 || b == 3);
    }
}

proof fn lemma_tet_edge_paired_2()
    ensures
        forall|b: int| 0 <= b < 4 ==> #[trigger] edge_paired(shape_pattern(CellShape::Tet), 2, b),
{
    let p = shape_pattern(CellShape::Tet);
    assert(edge_paired(p, 2, 0)) by {
        reveal_with_fuel(edge_count, 13);
    }
    assert(edge_paired(p, 2, 1)) by {
        reveal_with_fuel(edge_count, 13);
    }
    assert(edge_paired(p, 2, 2)) by {
        reveal_with_fuel(edge_count, 13);
    }
    assert(edge_paired(p, 2, 3)) by {
        reveal_with_fuel(edge_count, 13);
    }
    assert forall|b: int| 0 <= b < 4 implies #[trigger] edge_paired(p, 2, b) by {
        assert(b == 0 || b == 1 || b == 2 || b == 3);
    }
}

proof fn lemma_tet_edge_closed_3()
    ensures
        forall|b: int| 0 <= b < 4 ==> #[trigger] edge_closed(shape_pattern(CellShape::Tet), 3, b),
{
    let p = shape_pattern(CellShape::Tet);
    assert(edge_closed(p, 3, 0)) by {
        reveal_with_fuel(edge_count, 13);
    }
    assert(edge_closed(p, 3, 1)) by {
        reveal_with_fuel(edge_count, 13);
    }
    assert(edge_closed(p, 3, 2)) by {
        reveal_with_fuel(edge_count, 13);
    }
    assert(edge_closed(p, 3, 3)) by {
        reveal_with_fuel(edge_count, 13);
    }
    assert forall|b: int| 0 <= b < 4 implies #[trigger] edge_closed(p, 3, b) by {
        assert(b == 0 || b == 1 || b == 2 || b == 3);
    }
}

proof fn lemma_tet_edge_paired_3()
    ensures
        forall|b: int| 0 <= b < 4 ==> #[trigger] edge_paired(shape_pattern(CellShape::Tet), 3, b),
{
    let p = shape_pattern(CellShape::Tet);
    assert(edge_paired(p, 3, 0)) by {
        reveal_with_fuel(edge_count, 13);
    }
    assert(edge_paired(p, 3, 1)) by {
        reveal_with_fuel(edge_count, 13);
    }
    assert(edge_paired(p, 3, 2)) by {
        reveal_with_fuel(edge_count, 13);
    }
    assert(edge_paired(p, 3, 3)) by {
        reveal_with_fuel(edge_count, 13);
    }
    assert forall|b: int| 0 <= b < 4 implies #[trigger] edge_paired(p, 3, b) by {
        assert(b == 0 || b == 1 || b == 2 || b == 3);
    }
}

proof fn lemma_pyramid_edge_closed_0()
    ensures
        forall|b: int| 0 <= b < 5 ==> #[trigger] edge_closed(shape_pattern(CellShape::Pyramid), 0, b),
{
    let p = shape_pattern(CellShape::Pyramid);
    assert(edge_closed(p, 0, 0)) by {
        reveal_with_fuel(edge_count, 13);
    }
    assert(edge_closed(p, 0, 1)) by {
        reveal_with_fuel(edge_count, 13);
    }
    assert(edge_closed(p, 0, 2)) by {
        reveal_with_fuel(edge_count, 13);
    }
    assert(edge_closed(p, 0, 3)) by {
        reveal_with_fuel(edge_count, 13);
    }
    assert(edge_closed(p, 0, 4)) by {
        reveal_with_fuel(edge_count, 13);
    }
    assert forall|b: int| 0 <= b < 5 implies #[trigger] edge_closed(p, 0, b) by {
        assert(b == 0 || b == 1 || b == 2 || b == 3 || b == 4);
    }
}

proof fn lemma_pyramid_edge_closed_1()
    ensures
        forall|b: int| 0 <= b < 5 ==> #[trigger] edge_closed(shape_pattern(CellShape::Pyramid), 1, b),
{
    let p = shape_pattern(CellShape::Pyramid);
    assert(edge_closed(p, 1, 0)) by {
        reveal_with_fuel(edge_count, 13);
    }
    assert(edge_closed(p, 1, 1)) by {
        reveal_with_fuel(edge_count, 13);
    }
    assert(edge_closed(p, 1, 2)) by {
        reveal_with_fuel(edge_count, 13);
    }
    assert(edge_closed(p, 1, 3)) by {
        reveal_with_fuel(edge_count, 13);
    }
    assert(edge_closed(p, 1, 4)) by {
        reveal_with_fuel(edge_count, 13);
    }
    assert forall|b: int| 0 <= b < 5 implies #[trigger] edge_closed(p, 1, b) by {
        assert(b == 0 || b == 1 || b == 2 || b == 3 || b == 4);
    }
}

proof fn lemma_pyramid_edge_closed_2()
    ensures
        forall|b: int| 0 <= b < 5 ==> #[trigger] edge_closed(shape_pattern(CellShape::Pyramid), 2, b),
{
    let p = shape_pattern(CellShape::Pyramid);
    assert(edge_closed(p, 2, 0)) by {
        reveal_with_fuel(edge_count, 13);
    }
    assert(edge_closed(p, 2, 1)) by {
        reveal_with_fuel(edge_count, 13);
    }
    assert(edge_closed(p, 2, 2)) by {
        reveal_with_fuel(edge_count, 13);
    }
    assert(edge_closed(p, 2, 3)) by {
        reveal_with_fuel(edge_count, 13);
    }
    assert(edge_closed(p, 2, 4)) by {
        reveal_with_fuel(edge_count, 13);
    }
    assert forall|b: int| 0 <= b < 5 implies #[trigger] edge_closed(p, 2, b) by {
        assert(b == 0 || b == 1 || b == 2 || b == 3 || b == 4);
    }
}

proof fn lemma_pyramid_edge_closed_3()
    ensures
        forall|b: int| 0 <= b < 5 ==> #[trigger] edge_closed(shape_pattern(CellShape::Pyramid), 3, b),
{
    let p = shape_pattern(CellShape::Pyramid);
    assert(edge_closed(p, 3, 0)) by {
        reveal_with_fuel(edge_count, 13);
    }
    assert(edge_closed(p, 3, 1)) by {
        reveal_with_fuel(edge_count, 13);
    }
    assert(edge_closed(p, 3, 2)) by {
        reveal_with_fuel(edge_count, 13);
    }
    assert(edge_closed(p, 3, 3)) by {
        reveal_with_fuel(edge_count, 13);
    }
    assert(edge_closed(p, 3, 4)) by {
        reveal_with_fuel(edge_count, 13);
    }
    assert forall|b: int| 0 <= b < 5 implies #[trigger] edge_closed(p, 3, b) by {
        assert(b == 0 || b == 1 || b == 2 || b == 3 || b == 4);
    }
}

proof fn lemma_pyramid_edge_closed_4()
    ensures
        forall|b: int| 0 <= b < 5 ==> #[trigger] edge_closed(shape_pattern(CellShape::Pyramid), 4, b),
{
    let p = shape_pattern(CellShape::Pyramid);
    assert(edge_closed(p, 4, 0)) by {
        reveal_with_fuel(edge_count, 13);
    }
    assert(edge_closed(p, 4, 1)) by {
        reveal_with_fuel(edge_count, 13);
    }
    assert(edge_closed(p, 4, 2)) by {
        reveal_with_fuel(edge_count, 13);
    }
    assert(edge_closed(p, 4, 3)) by {
        reveal_with_fuel(edge_count, 13);
    }
    assert(edge_closed(p, 4, 4)) by {
        reveal_with_fuel(edge_count, 13);
    }
    assert forall|b: int| 0 <= b < 5 implies #[trigger] edge_closed(p, 4, b) by {
        assert(b == 0 || b == 1 || b == 2 || b == 3 || b == 4);
    }
}

proof fn lemma_wedge_edge_closed_0()
    ensures
        forall|b: int| 0 <= b < 6 ==> #[trigger] edge_closed(shape_pattern(CellShape::Wedge), 0, b),
{
    let p = shape_pattern(CellShape::Wedge);
    assert(edge_closed(p, 0, 0)) by {
        reveal_with_fuel(edge_count, 13);
    }
    assert(edge_closed(p, 0, 1)) by {
        reveal_with_fuel(edge_count, 13);
    }
    assert(edge_closed(p, 0, 2)) by {
        reveal_with_fuel(edge_count, 13);
    }
    assert(edge_closed(p, 0, 3)) by {
        reveal_with_fuel(edge_count, 13);
    }
    assert(edge_closed(p, 0, 4)) by {
        reveal_with_fuel(edge_count, 13);
    }
    assert(edge_closed(p, 0, 5)) by {
        reveal_with_fuel(edge_count, 13);
    }
    assert forall|b: int| 0 <= b < 6 implies #[trigger] edge_closed(p, 0, b) by {
        assert(b == 0 || b == 1 || b == 2 || b == 3 || b == 4 || b == 5);
    }
}

proof fn lemma_wedge_edge_paired_0()
    ensures
        forall|b: int| 0 <= b < 6 ==> #[trigger] edge_paired(shape_pattern(CellShape::Wedge), 0, b),
{
    let p = shape_pattern(CellShape::Wedge);
    assert(edge_paired(p, 0, 0)) by {
        reveal_with_fuel(edge_count, 13);
    }
    assert(edge_paired(p, 0, 1)) by {
        reveal_with_fuel(edge_count, 13);
    }
    assert(edge_paired(p, 0, 2)) by {
        reveal_with_fuel(edge_count, 13);
    }
    assert(edge_paired(p, 0, 3)) by {
        reveal_with_fuel(edge_count, 13);
    }
    assert(edge_paired(p, 0, 4)) by {
        reveal_with_fuel(edge_count, 13);
    }
    assert(edge_paired(p, 0, 5)) by {
        reveal_with_fuel(edge_count, 13);
    }
    assert forall|b: int| 0 <= b < 6 implies #[trigger] edge_paired(p, 0, b) by {
        assert(b == 0 || b == 1 || b == 2 || b == 3 || b == 4 || b == 5);
    }
}

proof fn lemma_wedge_edge_closed_1()
    ensures
        forall|b: int| 0 <= b < 6 ==> #[trigger] edge_closed(shape_pattern(CellShape::Wedge), 1, b),
{
    let p = shape_pattern(CellShape::Wedge);
    assert(edge_closed(p, 1, 0)) by {
        reveal_with_fuel(edge_count, 13);
    }
    assert(edge_closed(p, 1, 1)) by {
        reveal_with_fuel(edge_count, 13);
    }
    assert(edge_closed(p, 1, 2)) by {
        reveal_with_fuel(edge_count, 13);
    }
    assert(edge_closed(p, 1, 3)) by {
        reveal_with_fuel(edge_count, 13);
    }
    assert(edge_closed(p, 1, 4)) by {
        reveal_with_fuel(edge_count, 13);
    }
    assert(edge_closed(p, 1, 5)) by {
        reveal_with_fuel(edge_count, 13);
    }
    assert forall|b: int| 0 <= b < 6 implies #[trigger] edge_closed(p, 1, b) by {
        assert(b == 0 || b == 1 || b == 2 || b == 3 || b == 4 || b == 5);
    }
}

proof fn lemma_wedge_edge_paired_1()
    ensures
        forall|b: int| 0 <= b < 6 ==> #[trigger] edge_paired(shape_pattern(CellShape::Wedge), 1, b),
{
    let p = shape_pattern(CellShape::Wedge);
    assert(edge_paired(p, 1, 0)) by {
        reveal_with_fuel(edge_count, 13);
    }
    assert(edge_paired(p, 1, 1)) by {
        reveal_with_fuel(edge_count, 13);
    }
    assert(edge_paired(p, 1, 2)) by {
        reveal_with_fuel(edge_count, 13);
    }
    assert(edge_paired(p, 1, 3)) by {
        reveal_with_fuel(edge_count, 13);
    }
    assert(edge_paired(p, 1, 4)) by {
        reveal_with_fuel(edge_count, 13);
    }
    assert(edge_paired(p, 1, 5)) by {
        reveal_with_fuel(edge_count, 13);
    }
    assert forall|b: int| 0 <= b < 6 implies #[trigger] edge_paired(p, 1, b) by {
        assert(b == 0 || b == 1 || b == 2 || b == 3 || b == 4 || b == 5);
    }
}

proof fn lemma_wedge_edge_closed_2()
    ensures
        forall|b: int| 0 <= b < 6 ==> #[trigger] edge_closed(shape_pattern(CellShape::Wedge), 2, b),
{
    let p = shape_pattern(CellShape::Wedge);
    assert(edge_closed(p, 2, 0)) by {
        reveal_with_fuel(edge_count, 13);
    }
    assert(edge_closed(p, 2, 1)) by {
        reveal_with_fuel(edge_count, 13);
    }
    assert(edge_closed(p, 2, 2)) by {
        reveal_with_fuel(edge_count, 13);
    }
    assert(edge_closed(p, 2, 3)) by {
        reveal_with_fuel(edge_count, 13);
    }
    assert(edge_closed(p, 2, 4)) by {
        reveal_with_fuel(edge_count, 13);
    }
    assert(edge_closed(p, 2, 5)) by {
        reveal_with_fuel(edge_count, 13);
    }
    assert forall|b: int| 0 <= b < 6 implies #[trigger] edge_closed(p, 2, b) by {
        assert(b == 0 || b == 1 || b == 2 || b == 3 || b == 4 || b == 5);
    }
}

proof fn lemma_wedge_edge_paired_2()
    ensures
        forall|b: int| 0 <= b < 6 ==> #[trigger] edge_paired(shape_pattern(CellShape::Wedge), 2, b),
{
    let p = shape_pattern(CellShape::Wedge);
    assert(edge_paired(p, 2, 0)) by {
        reveal_with_fuel(edge_count, 13);
    }
    assert(edge_paired(p, 2, 1)) by {
        reveal_with_fuel(edge_count, 13);
    }
    assert(edge_paired(p, 2, 2)) by {
        reveal_with_fuel(edge_count, 13);
    }
    assert(edge_paired(p, 2, 3)) by {
        reveal_with_fuel(edge_count, 13);
    }
    assert(edge_paired(p, 2, 4)) by {
        reveal_with_fuel(edge_count, 13);
    }
    assert(edge_paired(p, 2, 5)) by {
        reveal_with_fuel(edge_count, 13);
    }
    assert forall|b: int| 0 <= b < 6 implies #[trigger] edge_paired(p, 2, b) by {
        assert(b == 0 || b == 1 || b == 2 || b == 3 || b == 4 || b == 5);
    }
}

proof fn lemma_wedge_edge_closed_3()
    ensures
        forall|b: int| 0 <= b < 6 ==> #[trigger] edge_closed(shape_pattern(CellShape::Wedge), 3, b),
{
    let p = shape_pattern(CellShape::Wedge);
    assert(edge_closed(p, 3, 0)) by {
        reveal_with_fuel(edge_count, 13);
    }
    assert(edge_closed(p, 3, 1)) by {
        reveal_with_fuel(edge_count, 13);
    }
    assert(edge_closed(p, 3, 2)) by {
        reveal_with_fuel(edge_count, 13);
    }
    assert(edge_closed(p, 3, 3)) by {
        reveal_with_fuel(edge_count, 13);
    }
    assert(edge_closed(p, 3, 4)) by {
        reveal_with_fuel(edge_count, 13);
    }
    assert(edge_closed(p, 3, 5)) by {
        reveal_with_fuel(edge_count, 13);
    }
    assert forall|b: int| 0 <= b < 6 implies #[trigger] edge_closed(p, 3, b) by {
        assert(b == 0 || b == 1 || b == 2 || b == 3 || b == 4 || b == 5);
    }
}

proof fn lemma_wedge_edge_paired_3()
    ensures
        forall|b: int| 0 <= b < 6 ==> #[trigger] edge_paired(shape_pattern(CellShape::Wedge), 3, b),
{
    let p = shape_pattern(CellShape::Wedge);
    assert(edge_paired(p, 3, 0)) by {
        reveal_with_fuel(edge_count, 13);
    }
    assert(edge_paired(p, 3, 1)) by {
        reveal_with_fuel(edge_count, 13);
    }
    assert(edge_paired(p, 3, 2)) by {
        reveal_with_fuel(edge_count, 13);
    }
    assert(edge_paired(p, 3, 3)) by {
        reveal_with_fuel(edge_count, 13);
    }
    assert(edge_paired(p, 3, 4)) by {
        reveal_with_fuel(edge_count, 13);
    }
    assert(edge_paired(p, 3, 5)) by {
        reveal_with_fuel(edge_count, 13);
    }
    assert forall|b: int| 0 <= b < 6 implies #[trigger] edge_paired(p, 3, b) by {
        assert(b == 0 || b == 1 || b == 2 || b == 3 || b == 4 || b == 5);
    }
}

proof fn lemma_wedge_edge_closed_4()
    ensures
        forall|b: int| 0 <= b < 6 ==> #[trigger] edge_closed(shape_pattern(CellShape::Wedge), 4, b),
{
    let p = shape_pattern(CellShape::Wedge);
    assert(edge_closed(p, 4, 0)) by {
        reveal_with_fuel(edge_count, 13);
    }
    assert(edge_closed(p, 4, 1)) by {
        reveal_with_fuel(edge_count, 13);
    }
    assert(edge_closed(p, 4, 2)) by {
        reveal_with_fuel(edge_count, 13);
    }
    assert(edge_closed(p, 4, 3)) by {
        reveal_with_fuel(edge_count, 13);
    }
    assert(edge_closed(p, 4, 4)) by {
        reveal_with_fuel(edge_count, 13);
    }
    assert(edge_closed(p, 4, 5)) by {
        reveal_with_fuel(edge_count, 13);
    }
    assert forall|b: int| 0 <= b < 6 implies #[trigger] edge_closed(p, 4, b) by {
        assert(b == 0 || b == 1 || b == 2 || b == 3 || b == 4 || b == 5);
    }
}

proof fn lemma_wedge_edge_paired_4()
    ensures
        forall|b: int| 0 <= b < 6 ==> #[trigger] edge_paired(shape_pattern(CellShape::Wedge), 4, b),
{
    let p = shape_pattern(CellShape::Wedge);
    assert(edge_paired(p, 4, 0)) by {
        reveal_with_fuel(edge_count, 13);
    }
    assert(edge_paired(p, 4, 1)) by {
        reveal_with_fuel(edge_count, 13);
    }
    assert(edge_paired(p, 4, 2)) by {
        reveal_with_fuel(edge_count, 13);
    }
    assert(edge_paired(p, 4, 3)) by {
        reveal_with_fuel(edge_count, 13);
    }
    assert(edge_paired(p, 4, 4)) by {
        reveal_with_fuel(edge_count, 13);
    }
    assert(edge_paired(p, 4, 5)) by {
        reveal_with_fuel(edge_count, 13);
    }
    assert forall|b: int| 0 <= b < 6 implies #[trigger] edge_paired(p, 4, b) by {
        assert(b == 0 || b == 1 || b == 2 || b == 3 || b == 4 || b == 5);
    }
}

proof fn lemma_wedge_edge_closed_5()
    ensures
        forall|b: int| 0 <= b < 6 ==> #[trigger] edge_closed(shape_pattern(CellShape::Wedge), 5, b),
{
    let p = shape_pattern(CellShape::Wedge);
    assert(edge_closed(p, 5, 0)) by {
        reveal_with_fuel(edge_count, 13);
    }
    assert(edge_closed(p, 5, 1)) by {
        reveal_with_fuel(edge_count, 13);
    }
    assert(edge_closed(p, 5, 2)) by {
        reveal_with_fuel(edge_count, 13);
    }
    assert(edge_closed(p, 5, 3)) by {
        reveal_with_fuel(edge_count, 13);
    }
    assert(edge_closed(p, 5, 4)) by {
        reveal_with_fuel(edge_count, 13);
    }
    assert(edge_closed(p, 5, 5)) by {
        reveal_with_fuel(edge_count, 13);
    }
    assert forall|b: int| 0 <= b < 6 implies #[trigger] edge_closed(p, 5, b) by {
        assert(b == 0 || b == 1 || b == 2 || b == 3 || b == 4 || b == 5);
    }
}

proof fn lemma_wedge_edge_paired_5()
    ensures
        forall|b: int| 0 <= b < 6 ==> #[trigger] edge_paired(shape_pattern(CellShape::Wedge), 5, b),
{
    let p = shape_pattern(CellShape::Wedge);
    assert(edge_paired(p, 5, 0)) by {
        reveal_with_fuel(edge_count, 13);
    }
    assert(edge_paired(p, 5, 1)) by {
        reveal_with_fuel(edge_count, 13);
    }
    assert(edge_paired(p, 5, 2)) by {
        reveal_with_fuel(edge_count, 13);
    }
    assert(edge_paired(p, 5, 3)) by {
        reveal_with_fuel(edge_count, 13);
    }
    assert(edge_paired(p, 5, 4)) by {
        reveal_with_fuel(edge_count, 13);
    }
    assert(edge_paired(p, 5, 5)) by {
        reveal_with_fuel(edge_count, 13);
    }
    assert forall|b: int| 0 <= b < 6 implies #[trigger] edge_paired(p, 5, b) by {
        assert(b == 0 || b == 1 || b == 2 || b == 3 || b == 4 || b == 5);
    }
}

proof fn lemma_hex_edge_closed_0()
    ensures
        forall|b: int| 0 <= b < 8 ==> #[trigger] edge_closed(shape_pattern(CellShape::Hex), 0, b),
{
    let p = shape_pattern(CellShape::Hex);
    assert(edge_closed(p, 0, 0)) by {
        reveal_with_fuel(edge_count, 13);
    }
    assert(edge_closed(p, 0, 1)) by {
        reveal_with_fuel(edge_count, 13);
    }
    assert(edge_closed(p, 0, 2)) by {
        reveal_with_fuel(edge_count, 13);
    }
    assert(edge_closed(p, 0, 3)) by {
        reveal_with_fuel(edge_count, 13);
    }
    assert(edge_closed(p, 0, 4)) by {
        reveal_with_fuel(edge_count, 13);
    }
    assert(edge_closed(p, 0, 5)) by {
        reveal_with_fuel(edge_count, 13);
    }
    assert(edge_closed(p, 0, 6)) by {
        reveal_with_fuel(edge_count, 13);
    }
    assert(edge_closed(p, 0, 7)) by {
        reveal_with_fuel(edge_count, 13);
    }
    assert forall|b: int| 0 <= b < 8 implies #[trigger] edge_closed(p, 0, b) by {
        assert(b == 0 || b == 1 || b == 2 || b == 3 || b == 4 || b == 5 || b == 6 || b == 7);
    }
}

proof fn lemma_hex_edge_paired_0()
    ensures
        forall|b: int| 0 <= b < 8 ==> #[trigger] edge_paired(shape_pattern(CellShape::Hex), 0, b),
{
    let p = shape_pattern(CellShape::Hex);
    assert(edge_paired(p, 0, 0)) by {
        reveal_with_fuel(edge_count, 13);
    }
    assert(edge_paired(p, 0, 1)) by {
        reveal_with_fuel(edge_count, 13);
    }
    assert(edge_paired(p, 0, 2)) by {
        reveal_with_fuel(edge_count, 13);
    }
    assert(edge_paired(p, 0, 3)) by {
        reveal_with_fuel(edge_count, 13);
    }
    assert(edge_paired(p, 0, 4)) by {
        reveal_with_fuel(edge_count, 13);
    }
    assert(edge_paired(p, 0, 5)) by {
        reveal_with_fuel(edge_count, 13);
    }
    assert(edge_paired(p, 0, 6)) by {
        reveal_with_fuel(edge_count, 13);
    }
    assert(edge_paired(p, 0, 7)) by {
        reveal_with_fuel(edge_count, 13);
    }
    assert forall|b: int| 0 <= b < 8 implies #[trigger] edge_paired(p, 0, b) by {
        assert(b == 0 || b == 1 || b == 2 || b == 3 || b == 4 || b == 5 || b == 6 || b == 7);
    }
}

proof fn lemma_hex_edge_closed_1()
    ensures
        forall|b: int| 0 <= b < 8 ==> #[trigger] edge_closed(shape_pattern(CellShape::Hex), 1, b),
{
    let p = shape_pattern(CellShape::Hex);
    assert(edge_closed(p, 1, 0)) by {
        reveal_with_fuel(edge_count, 13);
    }
    assert(edge_closed(p, 1, 1)) by {
        reveal_with_fuel(edge_count, 13);
    }
    assert(edge_closed(p, 1, 2)) by {
        reveal_with_fuel(edge_count, 13);
    }
    assert(edge_closed(p, 1, 3)) by {
        reveal_with_fuel(edge_count, 13);
    }
    assert(edge_closed(p, 1, 4)) by {
        reveal_with_fuel(edge_count, 13);
    }
    assert(edge_closed(p, 1, 5)) by {
        reveal_with_fuel(edge_count, 13);
    }
    assert(edge_closed(p, 1, 6)) by {
        reveal_with_fuel(edge_count, 13);
    }
    assert(edge_closed(p, 1, 7)) by {
        reveal_with_fuel(edge_count, 13);
    }
    assert forall|b: int| 0 <= b < 8 implies #[trigger] edge_closed(p, 1, b) by {
        assert(b == 0 || b == 1 || b == 2 || b == 3 || b == 4 || b == 5 || b == 6 || b == 7);
    }
}

proof fn lemma_hex_edge_paired_1()
    ensures
        forall|b: int| 0 <= b < 8 ==> #[trigger] edge_paired(shape_pattern(CellShape::Hex), 1, b),
{
    let p = shape_pattern(CellShape::Hex);
    assert(edge_paired(p, 1, 0)) by {
        reveal_with_fuel(edge_count, 13);
    }
    assert(edge_paired(p, 1, 1)) by {
        reveal_with_fuel(edge_count, 13);
    }
    assert(edge_paired(p, 1, 2)) by {
        reveal_with_fuel(edge_count, 13);
    }
    assert(edge_paired(p, 1, 3)) by {
        reveal_with_fuel(edge_count, 13);
    }
    assert(edge_paired(p, 1, 4)) by {
        reveal_with_fuel(edge_count, 13);
    }
    assert(edge_paired(p, 1, 5)) by {
        reveal_with_fuel(edge_count, 13);
    }
    assert(edge_paired(p, 1, 6)) by {
        reveal_with_fuel(edge_count, 13);
    }
    assert(edge_paired(p, 1, 7)) by {
        reveal_with_fuel(edge_count, 13);
    }
    assert forall|b: int| 0 <= b < 8 implies #[trigger] edge_paired(p, 1, b) by {
        assert(b == 0 || b == 1 || b == 2 || b == 3 || b == 4 || b == 5 || b == 6 || b == 7);
    }
}

proof fn lemma_hex_edge_closed_2()
    ensures
        forall|b: int| 0 <= b < 8 ==> #[trigger] edge_closed(shape_pattern(CellShape::Hex), 2, b),
{
    let p = shape_pattern(CellShape::Hex);
    assert(edge_closed(p, 2, 0)) by {
        reveal_with_fuel(edge_count, 13);
    }
    assert(edge_closed(p, 2, 1)) by {
        reveal_with_fuel(edge_count, 13);
    }
    assert(edge_closed(p, 2, 2)) by {
        reveal_with_fuel(edge_count, 13);
    }
    assert(edge_closed(p, 2, 3)) by {
        reveal_with_fuel(edge_count, 13);
    }
    assert(edge_closed(p, 2, 4)) by {
        reveal_with_fuel(edge_count, 13);
    }
    assert(edge_closed(p, 2, 5)) by {
        reveal_with_fuel(edge_count, 13);
    }
    assert(edge_closed(p, 2, 6)) by {
        reveal_with_fuel(edge_count, 13);
    }
    assert(edge_closed(p, 2, 7)) by {
        reveal_with_fuel(edge_count, 13);
    }
    assert forall|b: int| 0 <= b < 8 implies #[trigger] edge_closed(p, 2, b) by {
        assert(b == 0 || b == 1 || b == 2 || b == 3 || b == 4 || b == 5 || b == 6 || b == 7);
    }
}

proof fn lemma_hex_edge_paired_2()
    ensures
        forall|b: int| 0 <= b < 8 ==> #[trigger] edge_paired(shape_pattern(CellShape::Hex), 2, b),
{
    let p = shape_pattern(CellShape::Hex);
    assert(edge_paired(p, 2, 0)) by {
        reveal_with_fuel(edge_count, 13);
    }
    assert(edge_paired(p, 2, 1)) by {
        reveal_with_fuel(edge_count, 13);
    }
    assert(edge_paired(p, 2, 2)) by {
        reveal_with_fuel(edge_count, 13);
    }
    assert(edge_paired(p, 2, 3)) by {
        reveal_with_fuel(edge_count, 13);
    }
    assert(edge_paired(p, 2, 4)) by {
        reveal_with_fuel(edge_count, 13);
    }
    assert(edge_paired(p, 2, 5)) by {
        reveal_with_fuel(edge_count, 13);
    }
    assert(edge_paired(p, 2, 6)) by {
        reveal_with_fuel(edge_count, 13);
    }
    assert(edge_paired(p, 2, 7)) by {
        reveal_with_fuel(edge_count, 13);
    }
    assert forall|b: int| 0 <= b < 8 implies #[trigger] edge_paired(p, 2, b) by {
        assert(b == 0 || b == 1 || b == 2 || b == 3 || b == 4 || b == 5 || b == 6 || b == 7);
    }
}

proof fn lemma_hex_edge_closed_3()
    ensures
        forall|b: int| 0 <= b < 8 ==> #[trigger] edge_closed(shape_pattern(CellShape::Hex), 3, b),
{
    let p = shape_pattern(CellShape::Hex);
    assert(edge_closed(p, 3, 0)) by {
        reveal_with_fuel(edge_count, 13);
    }
    assert(edge_closed(p, 3, 1)) by {
        reveal_with_fuel(edge_count, 13);
    }
    assert(edge_closed(p, 3, 2)) by {
        reveal_with_fuel(edge_count, 13);
    }
    assert(edge_closed(p, 3, 3)) by {
        reveal_with_fuel(edge_count, 13);
    }
    assert(edge_closed(p, 3, 4)) by {
        reveal_with_fuel(edge_count, 13);
    }
    assert(edge_closed(p, 3, 5)) by {
        reveal_with_fuel(edge_count, 13);
    }
    assert(edge_closed(p, 3, 6)) by {
        reveal_with_fuel(edge_count, 13);
    }
    assert(edge_closed(p, 3, 7)) by {
        reveal_with_fuel(edge_count, 13);
    }
    assert forall|b: int| 0 <= b < 8 implies #[trigger] edge_closed(p, 3, b) by {
        assert(b == 0 || b == 1 || b == 2 || b == 3 || b == 4 || b == 5 || b == 6 || b == 7);
    }
}

proof fn lemma_hex_edge_paired_3()
    ensures
        forall|b: int| 0 <= b < 8 ==> #[trigger] edge_paired(shape_pattern(CellShape::Hex), 3, b),
{
    let p = shape_pattern(CellShape::Hex);
    assert(edge_paired(p, 3, 0)) by {
        reveal_with_fuel(edge_count, 13);
    }
    assert(edge_paired(p, 3, 1)) by {
        reveal_with_fuel(edge_count, 13);
    }
    assert(edge_paired(p, 3, 2)) by {
        reveal_with_fuel(edge_count, 13);
    }
    assert(edge_paired(p, 3, 3)) by {
        reveal_with_fuel(edge_count, 13);
    }
    assert(edge_paired(p, 3, 4)) by {
        reveal_with_fuel(edge_count, 13);
    }
    assert(edge_paired(p, 3, 5)) by {
        reveal_with_fuel(edge_count, 13);
    }
    assert(edge_paired(p, 3, 6)) by {
        reveal_with_fuel(edge_count, 13);
    }
    assert(edge_paired(p, 3, 7)) by {
        reveal_with_fuel(edge_count, 13);
    }
    assert forall|b: int| 0 <= b < 8 implies #[trigger] edge_paired(p, 3, b) by {
        assert(b == 0 || b == 1 || b == 2 || b == 3 || b == 4 || b == 5 || b == 6 || b == 7);
    }
}

proof fn lemma_hex_edge_closed_4()
    ensures
        forall|b: int| 0 <= b < 8 ==> #[trigger] edge_closed(shape_pattern(CellShape::Hex), 4, b),
{
    let p = shape_pattern(CellShape::Hex);
    assert(edge_closed(p, 4, 0)) by {
        reveal_with_fuel(edge_count, 13);
    }
    assert(edge_closed(p, 4, 1)) by {
        reveal_with_fuel(edge_count, 13);
    }
    assert(edge_closed(p, 4, 2)) by {
        reveal_with_fuel(edge_count, 13);
    }
    assert(edge_closed(p, 4, 3)) by {
        reveal_with_fuel(edge_count, 13);
    }
    assert(edge_closed(p, 4, 4)) by {
        reveal_with_fuel(edge_count, 13);
    }
    assert(edge_closed(p, 4, 5)) by {
        reveal_with_fuel(edge_count, 13);
    }
    assert(edge_closed(p, 4, 6)) by {
        reveal_with_fuel(edge_count, 13);
    }
    assert(edge_closed(p, 4, 7)) by {
        reveal_with_fuel(edge_count, 13);
    }
    assert forall|b: int| 0 <= b < 8 implies #[trigger] edge_closed(p, 4, b) by {
        assert(b == 0 || b == 1 || b == 2 || b == 3 || b == 4 || b == 5 || b == 6 || b == 7);
    }
}

proof fn lemma_hex_edge_paired_4()
    ensures
        forall|b: int| 0 <= b < 8 ==> #[trigger] edge_paired(shape_pattern(CellShape::Hex), 4, b),
{
    let p = shape_pattern(CellShape::Hex);
    assert(edge_paired(p, 4, 0)) by {
        reveal_with_fuel(edge_count, 13);
    }
    assert(edge_paired(p, 4, 1)) by {
        reveal_with_fuel(edge_count, 13);
    }
    assert(edge_paired(p, 4, 2)) by {
        reveal_with_fuel(edge_count, 13);
    }
    assert(edge_paired(p, 4, 3)) by {
        reveal_with_fuel(edge_count, 13);
    }
    assert(edge_paired(p, 4, 4)) by {
        reveal_with_fuel(edge_count, 13);
    }
    assert(edge_paired(p, 4, 5)) by {
        reveal_with_fuel(edge_count, 13);
    }
    assert(edge_paired(p, 4, 6)) by {
        reveal_with_fuel(edge_count, 13);
    }
    assert(edge_paired(p, 4, 7)) by {
        reveal_with_fuel(edge_count, 13);
    }
    assert forall|b: int| 0 <= b < 8 implies #[trigger] edge_paired(p, 4, b) by {
        assert(b == 0 || b == 1 || b == 2 || b == 3 || b == 4 || b == 5 || b == 6 || b == 7);
    }
}

proof fn lemma_hex_edge_closed_5()
    ensures
        forall|b: int| 0 <= b < 8 ==> #[trigger] edge_closed(shape_pattern(CellShape::Hex), 5, b),
{
    let p = shape_pattern(CellShape::Hex);
    assert(edge_closed(p, 5, 0)) by {
        reveal_with_fuel(edge_count, 13);
    }
    assert(edge_closed(p, 5, 1)) by {
        reveal_with_fuel(edge_count, 13);
    }
    assert(edge_closed(p, 5, 2)) by {
        reveal_with_fuel(edge_count, 13);
    }
    assert(edge_closed(p, 5, 3)) by {
        reveal_with_fuel(edge_count, 13);
    }
    assert(edge_closed(p, 5, 4)) by {
        reveal_with_fuel(edge_count, 13);
    }
    assert(edge_closed(p, 5, 5)) by {
        reveal_with_fuel(edge_count, 13);
    }
    assert(edge_closed(p, 5, 6)) by {
        reveal_with_fuel(edge_count, 13);
    }
    assert(edge_closed(p, 5, 7)) by {
        reveal_with_fuel(edge_count, 13);
    }
    assert forall|b: int| 0 <= b < 8 implies #[trigger] edge_closed(p, 5, b) by {
        assert(b == 0 || b == 1 || b == 2 || b == 3 || b == 4 || b == 5 || b == 6 || b == 7);
    }
}

proof fn lemma_hex_edge_paired_5()
    ensures
        forall|b: int| 0 <= b < 8 ==> #[trigger] edge_paired(shape_pattern(CellShape::Hex), 5, b),
{
    let p = shape_pattern(CellShape::Hex);
    assert(edge_paired(p, 5, 0)) by {
        reveal_with_fuel(edge_count, 13);
    }
    assert(edge_paired(p, 5, 1)) by {
        reveal_with_fuel(edge_count, 13);
    }
    assert(edge_paired(p, 5, 2)) by {
        reveal_with_fuel(edge_count, 13);
    }
    assert(edge_paired(p, 5, 3)) by {
        reveal_with_fuel(edge_count, 13);
    }
    assert(edge_paired(p, 5, 4)) by {
        reveal_with_fuel(edge_count, 13);
    }
    assert(edge_paired(p, 5, 5)) by {
        reveal_with_fuel(edge_count, 13);
    }
    assert(edge_paired(p, 5, 6)) by {
        reveal_with_fuel(edge_count, 13);
    }
    assert(edge_paired(p, 5, 7)) by {
        reveal_with_fuel(edge_count, 13);
    }
    assert forall|b: int| 0 <= b < 8 implies #[trigger] edge_paired(p, 5, b) by {
        assert(b == 0 || b == 1 || b == 2 || b == 3 || b == 4 || b == 5 || b == 6 || b == 7);
    }
}

proof fn lemma_hex_edge_closed_6()
    ensures
        forall|b: int| 0 <= b < 8 ==> #[trigger] edge_closed(shape_pattern(CellShape::Hex), 6, b),
{
    let p = shape_pattern(CellShape::Hex);
    assert(edge_closed(p, 6, 0)) by {
        reveal_with_fuel(edge_count, 13);
    }
    assert(edge_closed(p, 6, 1)) by {
        reveal_with_fuel(edge_count, 13);
    }
    assert(edge_closed(p, 6, 2)) by {
        reveal_with_fuel(edge_count, 13);
    }
    assert(edge_closed(p, 6, 3)) by {
        reveal_with_fuel(edge_count, 13);
    }
    assert(edge_closed(p, 6, 4)) by {
        reveal_with_fuel(edge_count, 13);
    }
    assert(edge_closed(p, 6, 5)) by {
        reveal_with_fuel(edge_count, 13);
    }
    assert(edge_closed(p, 6, 6)) by {
        reveal_with_fuel(edge_count, 13);
    }
    assert(edge_closed(p, 6, 7)) by {
        reveal_with_fuel(edge_count, 13);
    }
    assert forall|b: int| 0 <= b < 8 implies #[trigger] edge_closed(p, 6, b) by {
        assert(b == 0 || b == 1 || b == 2 || b == 3 || b == 4 || b == 5 || b == 6 || b == 7);
    }
}

proof fn lemma_hex_edge_paired_6()
    ensures
        forall|b: int| 0 <= b < 8 ==> #[trigger] edge_paired(shape_pattern(CellShape::Hex), 6, b),
{
    let p = shape_pattern(CellShape::Hex);
    assert(edge_paired(p, 6, 0)) by {
        reveal_with_fuel(edge_count, 13);
    }
    assert(edge_paired(p, 6, 1)) by {
        reveal_with_fuel(edge_count, 13);
    }
    assert(edge_paired(p, 6, 2)) by {
        reveal_with_fuel(edge_count, 13);
    }
    assert(edge_paired(p, 6, 3)) by {
        reveal_with_fuel(edge_count, 13);
    }
    assert(edge_paired(p, 6, 4)) by {
        reveal_with_fuel(edge_count, 13);
    }
    assert(edge_paired(p, 6, 5)) by {
        reveal_with_fuel(edge_count, 13);
    }
    assert(edge_paired(p, 6, 6)) by {
        reveal_with_fuel(edge_count, 13);
    }
    assert(edge_paired(p, 6, 7)) by {
        reveal_with_fuel(edge_count, 13);
    }
    assert forall|b: int| 0 <= b < 8 implies #[trigger] edge_paired(p, 6, b) by {
        assert(b == 0 || b == 1 || b == 2 || b == 3 || b == 4 || b == 5 || b == 6 || b == 7);
    }
}

proof fn lemma_hex_edge_closed_7()
    ensures
        forall|b: int| 0 <= b < 8 ==> #[trigger] edge_closed(shape_pattern(CellShape::Hex), 7, b),
{
    let p = shape_pattern(CellShape::Hex);
    assert(edge_closed(p, 7, 0)) by {
        reveal_with_fuel(edge_count, 13);
    }
    assert(edge_closed(p, 7, 1)) by {
        reveal_with_fuel(edge_count, 13);
    }
    assert(edge_closed(p, 7, 2)) by {
        reveal_with_fuel(edge_count, 13);
    }
    assert(edge_closed(p, 7, 3)) by {
        reveal_with_fuel(edge_count, 13);
    }
    assert(edge_closed(p, 7, 4)) by {
        reveal_with_fuel(edge_count, 13);
    }
    assert(edge_closed(p, 7, 5)) by {
        reveal_with_fuel(edge_count, 13);
    }
    assert(edge_closed(p, 7, 6)) by {
        reveal_with_fuel(edge_count, 13);
    }
    assert(edge_closed(p, 7, 7)) by {
        reveal_with_fuel(edge_count, 13);
    }
    assert forall|b: int| 0 <= b < 8 implies #[trigger] edge_closed(p, 7, b) by {
        assert(b == 0 || b == 1 || b == 2 || b == 3 || b == 4 || b == 5 || b == 6 || b == 7);
    }
}

proof fn lemma_hex_edge_paired_7()
    ensures
        forall|b: int| 0 <= b < 8 ==> #[trigger] edge_paired(shape_pattern(CellShape::Hex), 7, b),
{
    let p = shape_pattern(CellShape::Hex);
    assert(edge_paired(p, 7, 0)) by {
        reveal_with_fuel(edge_count, 13);
    }
    assert(edge_paired(p, 7, 1)) by {
        reveal_with_fuel(edge_count, 13);
    }
    assert(edge_paired(p, 7, 2)) by {
        reveal_with_fuel(edge_count, 13);
    }
    assert(edge_paired(p, 7, 3)) by {
        reveal_with_fuel(edge_count, 13);
    }
    assert(edge_paired(p, 7, 4)) by {
        reveal_with_fuel(edge_count, 13);
    }
    assert(edge_paired(p, 7, 5)) by {
        reveal_with_fuel(edge_count, 13);
    }
    assert(edge_paired(p, 7, 6)) by {
        reveal_with_fuel(edge_count, 13);
    }
    assert(edge_paired(p, 7, 7)) by {
        reveal_with_fuel(edge_count, 13);
    }
    assert forall|b: int| 0 <= b < 8 implies #[trigger] edge_paired(p, 7, b) by {
        assert(b == 0 || b == 1 || b == 2 || b == 3 || b == 4 || b == 5 || b == 6 || b == 7);
    }
}

/// The node count of a cell shape.
pub fn shape_node_count(c: CellShape) -> (n: usize)
    ensures
        n == shape_nodes(c),
{
    match c {
        CellShape::Tri => 3,
        CellShape::Quad => 4,
        CellShape::Tet => 4,
        CellShape::Pyramid => 5,
        CellShape::Wedge => 6,
        CellShape::Hex => 8,
    }
}

fn pattern_of(c: CellShape) -> (p: Vec<usize>)
    ensures
        p@.map_values(|k: usize| k as int) == shape_pattern(c),
{
    let p: Vec<usize> = match c {
        CellShape::Tri => vec![0, 1, 2],
        CellShape::Quad => vec![0, 1, 2, 0, 2, 3],
        CellShape::Tet => vec![0, 2, 1, 0, 1, 3, 1, 2, 3, 0, 3, 2],
        CellShape::Pyramid => vec![0, 1, 2, 0, 2, 3, 0, 1, 4, 1, 2, 4, 2, 3, 4, 3, 0, 4],
        CellShape::Wedge => vec![
            0, 1, 2, 3, 5, 4, 0, 3, 4, 0, 4, 1, 1, 4, 5, 1, 5, 2, 2, 5, 3, 2, 3, 0
        ],
        CellShape::Hex => vec![
            0, 3, 2, 0, 2, 1, 4, 5, 6, 4, 6, 7, 0, 1, 5, 0, 5, 4, 2, 3, 7, 2, 7, 6,
            0, 4, 7, 0, 7, 3, 1, 2, 6, 1, 6, 5
        ],
    };
    assert(p@.map_values(|k: usize| k as int) =~= shape_pattern(c));
    p
}

/// Appends the surface triangles of one cell whose node indices are `nodes`.
pub fn push_cell(c: CellShape, nodes: &[u32], out: &mut Vec<u32>)
    requires
        nodes@.len() >= shape_nodes(c),
    ensures
        final(out)@ == old(out)@ + cell_triangles(c, nodes@),
{
    let p = pattern_of(c);
    let ghost pat = shape_pattern(c);
    proof {
        lemma_cell_triangles(c, nodes@);
    }
    let mut k: usize = 0;
    while k < p.len()
        invariant
            k <= p@.len(),
            p@.map_values(|k: usize| k as int) == pat,
            pat == shape_pattern(c),
            nodes@.len() >= shape_nodes(c),
            forall|j: int| 0 <= j < pat.len() ==> 0 <= #[trigger] pat[j] < shape_nodes(c),
            out@ == old(out)@ + cell_triangles(c, nodes@).subrange(0, k as int),
        decreases p@.len() - k,
    {
        assert(pat[k as int] == p@[k as int] as int);
        let v = nodes[p[k]];
        out.push(v);
        assert(cell_triangles(c, nodes@).subrange(0, k + 1) =~= cell_triangles(c, nodes@).subrange(
            0,
            k as int,
        ).push(v));
        k = k + 1;
    }
    assert(cell_triangles(c, nodes@).subrange(0, p@.len() as int) =~= cell_triangles(c, nodes@));
}


/// The cells of one grid row: `cell(row, 0) + cell(row, 1) + ... + cell(row, n - 1)`.
pub open spec fn row_cells(cell: spec_fn(int, int) -> Seq<u32>, row: int, n: nat) -> Seq<u32>
    decreases n,
{
    if n == 0 {
        Seq::empty()
    } else {
        row_cells(cell, row, (n - 1) as nat) + cell(row, n - 1)
    }
}

/// Rows `0 .. rows` of a grid of `n` cells per row, one row after the other.
pub open spec fn grid_cells(cell: spec_fn(int, int) -> Seq<u32>, rows: nat, n: nat) -> Seq<u32>
    decreases rows,
{
    if rows == 0 {
        Seq::empty()
    } else {
        grid_cells(cell, (rows - 1) as nat, n) + row_cells(cell, rows - 1, n)
    }
}

/// Every value a cell of the grid emits is below `bound`.
pub open spec fn cells_below(cell: spec_fn(int, int) -> Seq<u32>, rows: nat, n: nat, bound: int) -> bool {
    forall|r: int, c: int, t: int|
        0 <= r < rows && 0 <= c < n && 0 <= t < cell(r, c).len() ==> #[trigger] cell(r, c)[t] < bound
}

/// Every cell of the grid emits `width` values.
pub open spec fn cells_sized(cell: spec_fn(int, int) -> Seq<u32>, rows: nat, n: nat, width: nat) -> bool {
    forall|r: int, c: int| 0 <= r < rows && 0 <= c < n ==> (#[trigger] cell(r, c)).len() == width
}

/// A row holds `n` cells of `width` values, each below `bound` when its cells are.
pub proof fn lemma_row_cells(
    cell: spec_fn(int, int) -> Seq<u32>,
    row: int,
    rows: nat,
    n: nat,
    width: nat,
    bound: int,
)
    requires
        0 <= row < rows,
    ensures
        cells_sized(cell, rows, n, width) ==> row_cells(cell, row, n).len() == n * width,
        cells_below(cell, rows, n, bound) ==> forall|t: int|
            0 <= t < row_cells(cell, row, n).len() ==> #[trigger] row_cells(cell, row, n)[t] < bound,
    decreases n,
{
    if n > 0 {
        lemma_row_cells(cell, row, rows, (n - 1) as nat, width, bound);
        let prev = row_cells(cell, row, (n - 1) as nat);
        let last = cell(row, n - 1);
        if cells_sized(cell, rows, n, width) {
            assert(cells_sized(cell, rows, (n - 1) as nat, width));
            assert(last.len() == width);
            assert(n * width == (n - 1) * width + width) by (nonlinear_arith)
                requires
                    n > 0,
            ;
        }
        if cells_below(cell, rows, n, bound) {
            assert(cells_below(cell, rows, (n - 1) as nat, bound));
            assert forall|t: int| 0 <= t < row_cells(cell, row, n).len() implies #[trigger] row_cells(
                cell,
                row,
                n,
            )[t] < bound by {
                if t >= prev.len() {
                    assert(last[t - prev.len()] < bound);
                }
            }
        }
    } else {
        assert(n * width == 0) by (nonlinear_arith)
            requires
                n == 0,
        ;
    }
}

/// A grid of `rows` rows of `n` cells holds `rows * n` cells of `width` values, and every value
/// is below `bound` when every cell's values are.
pub proof fn lemma_grid_cells(
    cell: spec_fn(int, int) -> Seq<u32>,
    rows: nat,
    n: nat,
    width: nat,
    bound: int,
)
    ensures
        cells_sized(cell, rows, n, width) ==> grid_cells(cell, rows, n).len() == rows * n * width,
        cells_below(cell, rows, n, bound) ==> forall|t: int|
            0 <= t < grid_cells(cell, rows, n).len() ==> #[trigger] grid_cells(cell, rows, n)[t] < bound,
    decreases rows,
{
    if rows > 0 {
        lemma_grid_cells(cell, (rows - 1) as nat, n, width, bound);
        lemma_row_cells(cell, rows - 1, rows, n, width, bound);
        let prev = grid_cells(cell, (rows - 1) as nat, n);
        let last = row_cells(cell, rows - 1, n);
        if cells_sized(cell, rows, n, width) {
            assert(cells_sized(cell, (rows - 1) as nat, n, width));
            assert(rows * n * width == (rows - 1) * n * width + n * width) by (nonlinear_arith)
                requires
                    rows > 0,
            ;
        }
        if cells_below(cell, rows, n, bound) {
            assert(cells_below(cell, (rows - 1) as nat, n, bound));
            assert forall|t: int| 0 <= t < grid_cells(cell, rows, n).len() implies #[trigger] grid_cells(
                cell,
                rows,
                n,
            )[t] < bound by {
                if t >= prev.len() {
                    assert(last[t - prev.len()] < bound);
                }
            }
        }
    } else {
        assert(rows * n * width == 0) by (nonlinear_arith)
            requires
                rows == 0,
        ;
    }
}

} // verus!
