//! CGNS zones: element sections and structured grids turned into surface triangles.
use vstd::prelude::*;

use crate::error::{parse_error, IoError};
use crate::text::{lower_range_is, parse_usize, usize_value};
use crate::mesh::{
    cell_triangles, cells_below, cells_sized, grid_cells, lemma_cell_triangles, lemma_grid_cells,
    push_cell, row_cells, shape_nodes, CellShape,
};

verus! {

/// CGNS element type code of a 3-node triangle.
pub const TRI_3: i32 = 5;

/// CGNS element type code of a 4-node quadrilateral.
pub const QUAD_4: i32 = 7;

/// CGNS element type code of a 4-node tetrahedron.
pub const TETRA_4: i32 = 10;

/// CGNS element type code of a 5-node pyramid.
pub const PYRA_5: i32 = 12;

/// CGNS element type code of a 6-node pentahedron.
pub const PENTA_6: i32 = 14;

/// CGNS element type code of an 8-node hexahedron.
pub const HEXA_8: i32 = 17;

/// CGNS element type code of a section whose elements carry their own type codes.
pub const MIXED: i32 = 20;

/// The cell shape a CGNS element type code stands for, if it is one the decoder triangulates.
pub open spec fn shape_of_code(t: i32) -> Option<CellShape> {
    if t == TRI_3 {
        Some(CellShape::Tri)
    } else if t == QUAD_4 {
        Some(CellShape::Quad)
    } else if t == TETRA_4 {
        Some(CellShape::Tet)
    } else if t == PYRA_5 {
        Some(CellShape::Pyramid)
    } else if t == PENTA_6 {
        Some(CellShape::Wedge)
    } else if t == HEXA_8 {
        Some(CellShape::Hex)
    } else {
        None
    }
}

/// The node count of an element type code: 0 for a code the decoder does not triangulate.
pub open spec fn node_count_of(t: i32) -> nat {
    match shape_of_code(t) {
        Some(c) => shape_nodes(c),
        None => 0,
    }
}

/// A 1-based CGNS node number as a 0-based index; numbers below 1 give 0.
pub open spec fn zero_based(x: i32) -> u32 {
    if x >= 1 {
        (x - 1) as u32
    } else {
        0
    }
}

/// A run of 1-based node numbers as 0-based indices.
pub open spec fn zero_based_all(s: Seq<i32>) -> Seq<u32> {
    s.map_values(|x: i32| zero_based(x))
}

/// Node numbers that can be made 0-based without overflow.
pub open spec fn numbers_ok(s: Seq<i32>) -> bool {
    forall|k: int| 0 <= k < s.len() ==> #[trigger] s[k] != i32::MIN
}

/// The node numbers of the whole elements of a section of type `t` (those a triangulation
/// reads) can be made 0-based.
pub open spec fn typed_numbers_ok(t: i32, conn: Seq<i32>) -> bool {
    let stride = node_count_of(t);
    stride == 0 || forall|k: int| 0 <= k < (conn.len() / stride) * stride ==> #[trigger] conn[k] != i32::MIN
}

/// The node numbers of the elements a mixed section's walk from `i` reads can be made
/// 0-based (type codes, and numbers after the walk stops, may be anything).
pub open spec fn mixed_numbers_ok(conn: Seq<i32>, i: int) -> bool
    decreases conn.len() - i,
{
    if i < 0 || i >= conn.len() {
        true
    } else {
        let n = node_count_of(conn[i]);
        if n == 0 || i + 1 + n > conn.len() {
            true
        } else {
            numbers_ok(conn.subrange(i + 1, i + 1 + n)) && mixed_numbers_ok(conn, i + 1 + n)
        }
    }
}

/// The triangles of one element of type `t` with 1-based node numbers `nodes`.
pub open spec fn element_triangles(t: i32, nodes: Seq<i32>) -> Seq<u32> {
    match shape_of_code(t) {
        Some(c) => cell_triangles(c, zero_based_all(nodes)),
        None => Seq::empty(),
    }
}

/// The triangles of the first `k` elements of a section of type `t` whose elements each hold
/// `stride` node numbers.
pub open spec fn typed_triangles(t: i32, conn: Seq<i32>, stride: nat, k: nat) -> Seq<u32>
    decreases k,
{
    if k == 0 {
        Seq::empty()
    } else {
        typed_triangles(t, conn, stride, (k - 1) as nat) + element_triangles(
            t,
            conn.subrange((k - 1) * stride, (k * stride) as int),
        )
    }
}

/// The triangles of a section of type `t`: its whole elements, trailing numbers ignored.
pub open spec fn section_triangles(t: i32, conn: Seq<i32>) -> Seq<u32> {
    let stride = node_count_of(t);
    if stride == 0 {
        Seq::empty()
    } else {
        typed_triangles(t, conn, stride, conn.len() / stride)
    }
}

/// The triangles of a mixed section read from position `i`: each element is its type code
/// followed by its node numbers; the walk stops at an unknown code or a truncated element.
pub open spec fn mixed_triangles(conn: Seq<i32>, i: int) -> Seq<u32>
    decreases conn.len() - i,
{
    if i < 0 || i >= conn.len() {
        Seq::empty()
    } else {
        let n = node_count_of(conn[i]);
        if n == 0 || i + 1 + n > conn.len() {
            Seq::empty()
        } else {
            element_triangles(conn[i], conn.subrange(i + 1, i + 1 + n)) + mixed_triangles(
                conn,
                i + 1 + n,
            )
        }
    }
}

/// The number of nodes an element of CGNS type `elem_type` has: 0 for types the decoder does
/// not triangulate.
pub fn element_node_count(elem_type: i32) -> (n: usize)
    ensures
        n == node_count_of(elem_type),
{
    if elem_type == TRI_3 {
        3
    } else if elem_type == QUAD_4 {
        4
    } else if elem_type == TETRA_4 {
        4
    } else if elem_type == PYRA_5 {
        5
    } else if elem_type == PENTA_6 {
        6
    } else if elem_type == HEXA_8 {
        8
    } else {
        0
    }
}

fn shape_code(elem_type: i32) -> (c: Option<CellShape>)
    ensures
        c == shape_of_code(elem_type),
{
    if elem_type == TRI_3 {
        Some(CellShape::Tri)
    } else if elem_type == QUAD_4 {
        Some(CellShape::Quad)
    } else if elem_type == TETRA_4 {
        Some(CellShape::Tet)
    } else if elem_type == PYRA_5 {
        Some(CellShape::Pyramid)
    } else if elem_type == PENTA_6 {
        Some(CellShape::Wedge)
    } else if elem_type == HEXA_8 {
        Some(CellShape::Hex)
    } else {
        None
    }
}

/// Appends the triangles of one element of type `elem_type` whose 1-based node numbers are
/// `nodes`, converted to 0-based indices (numbers below 1 become 0).
pub fn triangulate_element(elem_type: i32, nodes: &[i32], out: &mut Vec<u32>)
    requires
        nodes@.len() >= node_count_of(elem_type),
        numbers_ok(nodes@),
    ensures
        final(out)@ == old(out)@ + element_triangles(elem_type, nodes@),
{
    match shape_code(elem_type) {
        Some(c) => {
            let mut local: Vec<u32> = Vec::new();
            let mut k: usize = 0;
            while k < nodes.len()
                invariant
                    k <= nodes@.len(),
                    numbers_ok(nodes@),
                    local@ == zero_based_all(nodes@.subrange(0, k as int)),
                decreases nodes@.len() - k,
            {
                let x = nodes[k];
                let z: u32 = if x >= 1 {
                    (x - 1) as u32
                } else {
                    0
                };
                local.push(z);
                assert(zero_based_all(nodes@.subrange(0, k + 1)) =~= zero_based_all(
                    nodes@.subrange(0, k as int),
                ).push(zero_based(x)));
                k = k + 1;
            }
            assert(nodes@.subrange(0, nodes@.len() as int) =~= nodes@);
            push_cell(c, local.as_slice(), out);
        },
        None => {
            assert(element_triangles(elem_type, nodes@) =~= Seq::<u32>::empty());
            assert(old(out)@ + Seq::<u32>::empty() =~= old(out)@);
        },
    }
}

proof fn lemma_chunk_bounds(k: int, stride: int, len: int)
    requires
        stride > 0,
        len >= 0,
        0 <= k < len / stride,
    ensures
        0 <= k * stride,
        (k + 1) * stride <= len,
        (k + 1) * stride == k * stride + stride,
{
    assert((k + 1) * stride == k * stride + stride) by (nonlinear_arith);
    assert(k * stride >= 0) by (nonlinear_arith)
        requires
            k >= 0,
            stride > 0,
    ;
    assert((k + 1) * stride <= (len / stride) * stride) by (nonlinear_arith)
        requires
            k + 1 <= len / stride,
            stride > 0,
    ;
    assert((len / stride) * stride <= len) by (nonlinear_arith)
        requires
            stride > 0,
    ;
}

/// Appends the triangles of a section whose elements all have CGNS type `elem_type`: the
/// numbers are read in runs of that type's node count, trailing numbers that do not fill a
/// run are ignored, and an unknown type adds nothing.
pub fn triangulate_typed(elem_type: i32, connectivity: &[i32], out: &mut Vec<u32>)
    requires
        typed_numbers_ok(elem_type, connectivity@),
    ensures
        final(out)@ == old(out)@ + section_triangles(elem_type, connectivity@),
{
    let stride = element_node_count(elem_type);
    if stride == 0 {
        assert(old(out)@ + Seq::<u32>::empty() =~= old(out)@);
        return ;
    }
    let ghost conn = connectivity@;
    let len = connectivity.len();
    let count = len / stride;
    let mut k: usize = 0;
    while k < count
        invariant
            len == conn.len(),
            stride == node_count_of(elem_type),
            stride > 0,
            count == conn.len() / (stride as nat),
            conn == connectivity@,
            typed_numbers_ok(elem_type, conn),
            k <= count,
            out@ == old(out)@ + typed_triangles(elem_type, conn, stride as nat, k as nat),
        decreases count - k,
    {
        proof {
            lemma_chunk_bounds(k as int, stride as int, conn.len() as int);
            assert(k * stride + stride <= conn.len());
        }
        let start = k * stride;
        let end = start + stride;
        let mut chunk: Vec<i32> = Vec::new();
        let mut m = start;
        while m < end
            invariant
                start <= m <= end,
                end <= conn.len(),
                conn == connectivity@,
                chunk@ == conn.subrange(start as int, m as int),
            decreases end - m,
        {
            chunk.push(connectivity[m]);
            assert(conn.subrange(start as int, m + 1) =~= conn.subrange(start as int, m as int).push(
                conn[m as int],
            ));
            m = m + 1;
        }
        assert(numbers_ok(chunk@)) by {
            assert(end <= count * stride) by (nonlinear_arith)
                requires
                    end == start + stride,
                    start == k * stride,
                    k < count,
            ;
            assert(count * stride == (conn.len() / (stride as nat)) * (stride as nat));
            assert forall|j: int| 0 <= j < chunk@.len() implies #[trigger] chunk@[j] != i32::MIN by {
                assert(chunk@[j] == conn[start + j]);
            }
        }
        triangulate_element(elem_type, chunk.as_slice(), out);
        proof {
            assert(((k + 1) as nat - 1) * (stride as nat) == start);
        }
        assert(out@ == old(out)@ + typed_triangles(elem_type, conn, stride as nat, (k + 1) as nat));
        k = k + 1;
    }
}

/// Appends the triangles of a mixed section, where every element is its type code followed
/// by its 1-based node numbers. The walk stops at the first unknown type code or at an
/// element cut short by the end of the data.
pub fn triangulate_mixed(connectivity: &[i32], out: &mut Vec<u32>)
    requires
        mixed_numbers_ok(connectivity@, 0),
    ensures
        final(out)@ == old(out)@ + mixed_triangles(connectivity@, 0),
{
    let ghost conn = connectivity@;
    let mut i: usize = 0;
    while i < connectivity.len()
        invariant_except_break
            i <= conn.len(),
            conn == connectivity@,
            mixed_numbers_ok(conn, i as int),
            old(out)@ + mixed_triangles(conn, 0) == out@ + mixed_triangles(conn, i as int),
        ensures
            old(out)@ + mixed_triangles(conn, 0) == out@,
        decreases conn.len() - i,
    {
        let etype = connectivity[i];
        let n_nodes = element_node_count(etype);
        if n_nodes == 0 || n_nodes > connectivity.len() - (i + 1) {
            assert(out@ + Seq::<u32>::empty() =~= out@);
            break;
        }
        let start = i + 1;
        let end = start + n_nodes;
        let mut nodes: Vec<i32> = Vec::new();
        let mut m = start;
        while m < end
            invariant
                start <= m <= end,
                end == start + n_nodes,
                end <= conn.len(),
                conn == connectivity@,
                nodes@ == conn.subrange(start as int, m as int),
            decreases end - m,
        {
            nodes.push(connectivity[m]);
            assert(conn.subrange(start as int, m + 1) =~= conn.subrange(start as int, m as int).push(
                conn[m as int],
            ));
            m = m + 1;
        }
        assert(nodes@ == conn.subrange(i + 1, i + 1 + n_nodes));
        assert(numbers_ok(nodes@));
        let ghost before = out@;
        triangulate_element(etype, nodes.as_slice(), out);
        assert(before + mixed_triangles(conn, i as int) =~= out@ + mixed_triangles(
            conn,
            (start + n_nodes) as int,
        ));
        i = start + n_nodes;
    }
    assert(out@ + mixed_triangles(conn, conn.len() as int) =~= out@);
}


/// Index of node `(i, j, k)` of a point grid with `ni` nodes along i and `nj` along j, as the
/// decoder stores it: truncated to 32 bits.
pub open spec fn node_at(ni: int, nj: int, i: int, j: int, k: int) -> u32 {
    (i + j * ni + k * ni * nj) as u32
}

/// Two triangles of the quad `a b d c` (`a`, `b` along the first axis, `c`, `d` one step along
/// the second), wound `a b c` then `b d c`.
pub open spec fn quad_a(a: u32, b: u32, c: u32, d: u32) -> Seq<u32> {
    seq![a, b, c, b, d, c]
}

/// The same quad wound the other way: `a c b` then `b c d`.
pub open spec fn quad_b(a: u32, b: u32, c: u32, d: u32) -> Seq<u32> {
    seq![a, c, b, b, c, d]
}

/// Cell `(j, i)` of a plain quad grid `nx` nodes wide.
pub open spec fn quad_cell(nx: int) -> spec_fn(int, int) -> Seq<u32> {
    |j: int, i: int|
        quad_a(
            node_at(nx, 0, i, j, 0),
            node_at(nx, 0, i + 1, j, 0),
            node_at(nx, 0, i, j + 1, 0),
            node_at(nx, 0, i + 1, j + 1, 0),
        )
}

/// The triangles of an `nx` by `ny` quad grid, row by row.
pub open spec fn quad_grid(nx: int, ny: int) -> Seq<u32> {
    grid_cells(quad_cell(nx), (ny - 1) as nat, (nx - 1) as nat)
}

/// Cell `(j, i)` of the two k faces of a box grid: the k = 0 face, then the last k face.
pub open spec fn k_face_cell(ni: int, nj: int, nk: int) -> spec_fn(int, int) -> Seq<u32> {
    |j: int, i: int|
        quad_a(
            node_at(ni, nj, i, j, 0),
            node_at(ni, nj, i + 1, j, 0),
            node_at(ni, nj, i, j + 1, 0),
            node_at(ni, nj, i + 1, j + 1, 0),
        ) + quad_b(
            node_at(ni, nj, i, j, nk - 1),
            node_at(ni, nj, i + 1, j, nk - 1),
            node_at(ni, nj, i, j + 1, nk - 1),
            node_at(ni, nj, i + 1, j + 1, nk - 1),
        )
}

/// Cell `(k, i)` of the two j faces of a box grid.
pub open spec fn j_face_cell(ni: int, nj: int) -> spec_fn(int, int) -> Seq<u32> {
    |k: int, i: int|
        quad_b(
            node_at(ni, nj, i, 0, k),
            node_at(ni, nj, i + 1, 0, k),
            node_at(ni, nj, i, 0, k + 1),
            node_at(ni, nj, i + 1, 0, k + 1),
        ) + quad_a(
            node_at(ni, nj, i, nj - 1, k),
            node_at(ni, nj, i + 1, nj - 1, k),
            node_at(ni, nj, i, nj - 1, k + 1),
            node_at(ni, nj, i + 1, nj - 1, k + 1),
        )
}

/// Cell `(k, j)` of the two i faces of a box grid.
pub open spec fn i_face_cell(ni: int, nj: int) -> spec_fn(int, int) -> Seq<u32> {
    |k: int, j: int|
        quad_a(
            node_at(ni, nj, 0, j, k),
            node_at(ni, nj, 0, j + 1, k),
            node_at(ni, nj, 0, j, k + 1),
            node_at(ni, nj, 0, j + 1, k + 1),
        ) + quad_b(
            node_at(ni, nj, ni - 1, j, k),
            node_at(ni, nj, ni - 1, j + 1, k),
            node_at(ni, nj, ni - 1, j, k + 1),
            node_at(ni, nj, ni - 1, j + 1, k + 1),
        )
}

/// The boundary triangles of an `ni` by `nj` by `nk` point grid: a grid flat along one axis
/// is a single quad grid, a box gives its six faces, anything thinner gives nothing.
pub open spec fn surface_indices(ni: int, nj: int, nk: int) -> Seq<u32> {
    if ni >= 2 && nj >= 2 && nk <= 1 {
        quad_grid(ni, nj)
    } else if ni >= 2 && nk >= 2 && nj <= 1 {
        quad_grid(ni, nk)
    } else if nj >= 2 && nk >= 2 && ni <= 1 {
        quad_grid(nj, nk)
    } else if ni < 2 || nj < 2 || nk < 2 {
        Seq::empty()
    } else {
        grid_cells(k_face_cell(ni, nj, nk), (nj - 1) as nat, (ni - 1) as nat) + grid_cells(
            j_face_cell(ni, nj),
            (nk - 1) as nat,
            (ni - 1) as nat,
        ) + grid_cells(i_face_cell(ni, nj), (nk - 1) as nat, (nj - 1) as nat)
    }
}

/// A grid extent, with an empty extent counted as one layer of nodes.
pub open spec fn layers(n: int) -> int {
    if n <= 0 {
        1
    } else {
        n
    }
}

/// The node count of a grid of the given extents.
pub open spec fn grid_nodes(ni: int, nj: int, nk: int) -> int {
    layers(ni) * layers(nj) * layers(nk)
}

proof fn lemma_node_below(ni: int, nj: int, nk: int, i: int, j: int, k: int)
    requires
        0 <= i < ni,
        0 <= j < nj,
        0 <= k < nk,
    ensures
        0 <= j * ni,
        0 <= k * ni * nj,
        i + j * ni < ni * nj,
        i + j * ni + k * ni * nj < ni * nj * nk,
{
    assert(0 <= j * ni) by (nonlinear_arith)
        requires
            0 <= j,
            0 < ni,
    ;
    assert(0 <= k * ni * nj) by (nonlinear_arith)
        requires
            0 <= k,
            0 < ni,
            0 < nj,
    ;
    assert(i + j * ni < ni * nj) by (nonlinear_arith)
        requires
            0 <= i < ni,
            0 <= j < nj,
    ;
    assert(i + j * ni + k * ni * nj < ni * nj * nk) by (nonlinear_arith)
        requires
            i + j * ni < ni * nj,
            0 <= k < nk,
            0 < ni,
            0 < nj,
    ;
}

pub(crate) fn node_index(ni: usize, nj: usize, nk: usize, i: usize, j: usize, k: usize) -> (r: u32)
    requires
        i < ni,
        j < nj,
        k < nk,
        ni * nj * nk <= usize::MAX,
    ensures
        r == node_at(ni as int, nj as int, i as int, j as int, k as int),
{
    proof {
        lemma_node_below(ni as int, nj as int, nk as int, i as int, j as int, k as int);
        assert(k * ni <= k * ni * nj) by (nonlinear_arith)
            requires
                0 <= k,
                0 < ni,
                0 < nj,
        ;
    }
    (i + j * ni + k * ni * nj) as u32
}

fn push_quad(out: &mut Vec<u32>, a: u32, b: u32, c: u32, d: u32, flip: bool)
    ensures
        final(out)@ == old(out)@ + (if flip {
            quad_b(a, b, c, d)
        } else {
            quad_a(a, b, c, d)
        }),
{
    if flip {
        out.push(a);
        out.push(c);
        out.push(b);
        out.push(b);
        out.push(c);
        out.push(d);
        assert(out@ =~= old(out)@ + quad_b(a, b, c, d));
    } else {
        out.push(a);
        out.push(b);
        out.push(c);
        out.push(b);
        out.push(d);
        out.push(c);
        assert(out@ =~= old(out)@ + quad_a(a, b, c, d));
    }
}

/// The triangles of an `nx` by `ny` quad grid: for each row `j` and column `i`, the quad with
/// corners `i + j * nx`, `i + 1 + j * nx`, `i + (j + 1) * nx` and `i + 1 + (j + 1) * nx`,
/// split into two triangles.
pub fn quad_grid_indices(nx: usize, ny: usize) -> (r: Vec<u32>)
    requires
        1 <= nx,
        1 <= ny,
        nx * ny <= usize::MAX,
    ensures
        r@ == quad_grid(nx as int, ny as int),
{
    let ghost cell = quad_cell(nx as int);
    let mut out: Vec<u32> = Vec::new();
    let mut j: usize = 0;
    while j < ny - 1
        invariant
            1 <= nx,
            1 <= ny,
            nx * ny <= usize::MAX,
            j <= ny - 1,
            cell == quad_cell(nx as int),
            out@ == grid_cells(cell, j as nat, (nx - 1) as nat),
        decreases ny - 1 - j,
    {
        let mut i: usize = 0;
        while i < nx - 1
            invariant
                1 <= nx,
                1 <= ny,
                nx * ny <= usize::MAX,
                j < ny - 1,
                i <= nx - 1,
                cell == quad_cell(nx as int),
                out@ == grid_cells(cell, j as nat, (nx - 1) as nat) + row_cells(cell, j as int, i as nat),
            decreases nx - 1 - i,
        {
            assert(nx * ny * 1 == nx * ny) by (nonlinear_arith);
            let v00 = node_index(nx, ny, 1, i, j, 0);
            let v10 = node_index(nx, ny, 1, i + 1, j, 0);
            let v01 = node_index(nx, ny, 1, i, j + 1, 0);
            let v11 = node_index(nx, ny, 1, i + 1, j + 1, 0);
            let ghost before = out@;
            push_quad(&mut out, v00, v10, v01, v11, false);
            proof {
                lemma_flat_node(nx as int, ny as int, i as int, j as int);
                lemma_flat_node(nx as int, ny as int, i + 1, j as int);
                lemma_flat_node(nx as int, ny as int, i as int, j + 1);
                lemma_flat_node(nx as int, ny as int, i + 1, j + 1);
                assert(cell(j as int, i as int) == quad_a(v00, v10, v01, v11));
                assert(row_cells(cell, j as int, (i + 1) as nat) == row_cells(cell, j as int, i as nat)
                    + cell(j as int, i as int));
                assert(out@ =~= grid_cells(cell, j as nat, (nx - 1) as nat) + row_cells(cell, j as int, (i + 1) as nat));
            }
            i = i + 1;
        }
        assert(grid_cells(cell, (j + 1) as nat, (nx - 1) as nat) == grid_cells(cell, j as nat, (nx - 1) as nat)
            + row_cells(cell, j as int, (nx - 1) as nat));
        j = j + 1;
    }
    out
}


proof fn lemma_layers(ni: int, nj: int, nk: int)
    requires
        ni >= 0,
        nj >= 0,
        nk >= 0,
    ensures
        ni * nj <= grid_nodes(ni, nj, nk),
        ni * nk <= grid_nodes(ni, nj, nk),
        nj * nk <= grid_nodes(ni, nj, nk),
        ni >= 1 && nj >= 1 && nk >= 1 ==> ni * nj * nk == grid_nodes(ni, nj, nk),
{
    let (a, b, c) = (layers(ni), layers(nj), layers(nk));
    assert(ni * nj <= a * b * c) by (nonlinear_arith)
        requires
            0 <= ni <= a,
            0 <= nj <= b,
            1 <= a,
            1 <= b,
            1 <= c,
    ;
    assert(ni * nk <= a * b * c) by (nonlinear_arith)
        requires
            0 <= ni <= a,
            0 <= nk <= c,
            1 <= a,
            1 <= b,
            1 <= c,
    ;
    assert(nj * nk <= a * b * c) by (nonlinear_arith)
        requires
            0 <= nj <= b,
            0 <= nk <= c,
            1 <= a,
            1 <= b,
            1 <= c,
    ;
}

/// The boundary triangles of an `ni` by `nj` by `nk` structured point grid (node `(i, j, k)`
/// is number `i + j * ni + k * ni * nj`). A grid with one extent of at most 1 is a single quad
/// grid over the other two; a box yields its k faces, then its j faces, then its i faces,
/// each face wound outwards; a grid thinner than that yields nothing.
pub fn structured_surface_indices(ni: usize, nj: usize, nk: usize) -> (r: Vec<u32>)
    requires
        grid_nodes(ni as int, nj as int, nk as int) <= usize::MAX,
    ensures
        r@ == surface_indices(ni as int, nj as int, nk as int),
{
    proof {
        lemma_layers(ni as int, nj as int, nk as int);
    }
    if ni >= 2 && nj >= 2 && nk <= 1 {
        return quad_grid_indices(ni, nj);
    }
    if ni >= 2 && nk >= 2 && nj <= 1 {
        return quad_grid_indices(ni, nk);
    }
    if nj >= 2 && nk >= 2 && ni <= 1 {
        return quad_grid_indices(nj, nk);
    }
    if ni < 2 || nj < 2 || nk < 2 {
        return Vec::new();
    }
    let ghost kc = k_face_cell(ni as int, nj as int, nk as int);
    let ghost jc = j_face_cell(ni as int, nj as int);
    let ghost ic = i_face_cell(ni as int, nj as int);
    let mut out: Vec<u32> = Vec::new();
    let mut j: usize = 0;
    while j < nj - 1
        invariant
            2 <= ni,
            2 <= nj,
            2 <= nk,
            ni * nj * nk <= usize::MAX,
            j <= nj - 1,
            kc == k_face_cell(ni as int, nj as int, nk as int),
            out@ == grid_cells(kc, j as nat, (ni - 1) as nat),
        decreases nj - 1 - j,
    {
        let mut i: usize = 0;
        while i < ni - 1
            invariant
                2 <= ni,
                2 <= nj,
                2 <= nk,
                ni * nj * nk <= usize::MAX,
                j < nj - 1,
                i <= ni - 1,
                kc == k_face_cell(ni as int, nj as int, nk as int),
                out@ == grid_cells(kc, j as nat, (ni - 1) as nat) + row_cells(kc, j as int, i as nat),
            decreases ni - 1 - i,
        {
            let ghost before = out@;
            let a = node_index(ni, nj, nk, i, j, 0);
            let b = node_index(ni, nj, nk, i + 1, j, 0);
            let c = node_index(ni, nj, nk, i, j + 1, 0);
            let d = node_index(ni, nj, nk, i + 1, j + 1, 0);
            push_quad(&mut out, a, b, c, d, false);
            let a = node_index(ni, nj, nk, i, j, nk - 1);
            let b = node_index(ni, nj, nk, i + 1, j, nk - 1);
            let c = node_index(ni, nj, nk, i, j + 1, nk - 1);
            let d = node_index(ni, nj, nk, i + 1, j + 1, nk - 1);
            push_quad(&mut out, a, b, c, d, true);
            proof {
                assert(out@ =~= before + kc(j as int, i as int));
                assert(out@ =~= grid_cells(kc, j as nat, (ni - 1) as nat) + row_cells(kc, j as int, (i + 1) as nat));
            }
            i = i + 1;
        }
        j = j + 1;
    }
    let ghost kpart = out@;
    let mut k: usize = 0;
    while k < nk - 1
        invariant
            2 <= ni,
            2 <= nj,
            2 <= nk,
            ni * nj * nk <= usize::MAX,
            k <= nk - 1,
            jc == j_face_cell(ni as int, nj as int),
            out@ == kpart + grid_cells(jc, k as nat, (ni - 1) as nat),
        decreases nk - 1 - k,
    {
        let mut i: usize = 0;
        while i < ni - 1
            invariant
                2 <= ni,
                2 <= nj,
                2 <= nk,
                ni * nj * nk <= usize::MAX,
                k < nk - 1,
                i <= ni - 1,
                jc == j_face_cell(ni as int, nj as int),
                out@ == kpart + grid_cells(jc, k as nat, (ni - 1) as nat) + row_cells(jc, k as int, i as nat),
            decreases ni - 1 - i,
        {
            let ghost before = out@;
            let a = node_index(ni, nj, nk, i, 0, k);
            let b = node_index(ni, nj, nk, i + 1, 0, k);
            let c = node_index(ni, nj, nk, i, 0, k + 1);
            let d = node_index(ni, nj, nk, i + 1, 0, k + 1);
            push_quad(&mut out, a, b, c, d, true);
            let a = node_index(ni, nj, nk, i, nj - 1, k);
            let b = node_index(ni, nj, nk, i + 1, nj - 1, k);
            let c = node_index(ni, nj, nk, i, nj - 1, k + 1);
            let d = node_index(ni, nj, nk, i + 1, nj - 1, k + 1);
            push_quad(&mut out, a, b, c, d, false);
            proof {
                assert(out@ =~= before + jc(k as int, i as int));
                assert(out@ =~= kpart + grid_cells(jc, k as nat, (ni - 1) as nat) + row_cells(jc, k as int, (i + 1) as nat));
            }
            i = i + 1;
        }
        k = k + 1;
    }
    let ghost jpart = out@;
    let mut k: usize = 0;
    while k < nk - 1
        invariant
            2 <= ni,
            2 <= nj,
            2 <= nk,
            ni * nj * nk <= usize::MAX,
            k <= nk - 1,
            ic == i_face_cell(ni as int, nj as int),
            out@ == jpart + grid_cells(ic, k as nat, (nj - 1) as nat),
        decreases nk - 1 - k,
    {
        let mut j: usize = 0;
        while j < nj - 1
            invariant
                2 <= ni,
                2 <= nj,
                2 <= nk,
                ni * nj * nk <= usize::MAX,
                k < nk - 1,
                j <= nj - 1,
                ic == i_face_cell(ni as int, nj as int),
                out@ == jpart + grid_cells(ic, k as nat, (nj - 1) as nat) + row_cells(ic, k as int, j as nat),
            decreases nj - 1 - j,
        {
            let ghost before = out@;
            let a = node_index(ni, nj, nk, 0, j, k);
            let b = node_index(ni, nj, nk, 0, j + 1, k);
            let c = node_index(ni, nj, nk, 0, j, k + 1);
            let d = node_index(ni, nj, nk, 0, j + 1, k + 1);
            push_quad(&mut out, a, b, c, d, false);
            let a = node_index(ni, nj, nk, ni - 1, j, k);
            let b = node_index(ni, nj, nk, ni - 1, j + 1, k);
            let c = node_index(ni, nj, nk, ni - 1, j, k + 1);
            let d = node_index(ni, nj, nk, ni - 1, j + 1, k + 1);
            push_quad(&mut out, a, b, c, d, true);
            proof {
                assert(out@ =~= before + ic(k as int, j as int));
                assert(out@ =~= jpart + grid_cells(ic, k as nat, (nj - 1) as nat) + row_cells(ic, k as int, (j + 1) as nat));
            }
            j = j + 1;
        }
        k = k + 1;
    }
    out
}


pub(crate) proof fn lemma_node_at_below(ni: int, nj: int, nk: int, i: int, j: int, k: int, bound: int)
    requires
        0 <= i < ni,
        0 <= j < nj,
        0 <= k < nk,
        ni * nj * nk <= bound <= u32::MAX + 1,
    ensures
        node_at(ni, nj, i, j, k) < bound,
{
    lemma_node_below(ni, nj, nk, i, j, k);
}

pub(crate) proof fn lemma_flat_node(nx: int, nj: int, i: int, j: int)
    ensures
        node_at(nx, nj, i, j, 0) == node_at(nx, 0, i, j, 0),
{
    assert(0 * nx * nj == 0 * nx * 0) by (nonlinear_arith);
}

proof fn lemma_quad_grid_below(nx: int, ny: int, bound: int)
    requires
        1 <= nx,
        1 <= ny,
        nx * ny <= bound <= u32::MAX + 1,
    ensures
        forall|t: int| 0 <= t < quad_grid(nx, ny).len() ==> #[trigger] quad_grid(nx, ny)[t] < bound,
{
    let cell = quad_cell(nx);
    let rows = (ny - 1) as nat;
    let n = (nx - 1) as nat;
    assert(nx * ny * 1 == nx * ny) by (nonlinear_arith);
    assert forall|r: int, c: int, t: int|
        0 <= r < rows && 0 <= c < n && 0 <= t < cell(r, c).len() implies #[trigger] cell(r, c)[t] < bound by {
        lemma_node_at_below(nx, ny, 1, c, r, 0, bound);
        lemma_node_at_below(nx, ny, 1, c + 1, r, 0, bound);
        lemma_node_at_below(nx, ny, 1, c, r + 1, 0, bound);
        lemma_node_at_below(nx, ny, 1, c + 1, r + 1, 0, bound);
        lemma_flat_node(nx, ny, c, r);
        lemma_flat_node(nx, ny, c + 1, r);
        lemma_flat_node(nx, ny, c, r + 1);
        lemma_flat_node(nx, ny, c + 1, r + 1);
    }
    assert(cells_below(cell, rows, n, bound));
    lemma_grid_cells(cell, rows, n, 6, bound);
}

/// Every index of a structured grid's boundary triangles names one of its nodes, when the
/// node count fits the 32-bit indices.
pub proof fn lemma_surface_indices_in_range(ni: int, nj: int, nk: int)
    requires
        ni >= 0,
        nj >= 0,
        nk >= 0,
        grid_nodes(ni, nj, nk) <= u32::MAX + 1,
    ensures
        forall|t: int|
            0 <= t < surface_indices(ni, nj, nk).len() ==> #[trigger] surface_indices(ni, nj, nk)[t]
                < grid_nodes(ni, nj, nk),
{
    lemma_layers(ni, nj, nk);
    let bound = grid_nodes(ni, nj, nk);
    if ni >= 2 && nj >= 2 && nk <= 1 {
        lemma_quad_grid_below(ni, nj, bound);
    } else if ni >= 2 && nk >= 2 && nj <= 1 {
        lemma_quad_grid_below(ni, nk, bound);
    } else if nj >= 2 && nk >= 2 && ni <= 1 {
        lemma_quad_grid_below(nj, nk, bound);
    } else if ni < 2 || nj < 2 || nk < 2 {
    } else {
        let kc = k_face_cell(ni, nj, nk);
        let jc = j_face_cell(ni, nj);
        let ic = i_face_cell(ni, nj);
        assert forall|r: int, c: int, t: int|
            0 <= r < nj - 1 && 0 <= c < ni - 1 && 0 <= t < kc(r, c).len() implies #[trigger] kc(r, c)[t]
                < bound by {
            lemma_node_at_below(ni, nj, nk, c, r, 0, bound);
            lemma_node_at_below(ni, nj, nk, c + 1, r, 0, bound);
            lemma_node_at_below(ni, nj, nk, c, r + 1, 0, bound);
            lemma_node_at_below(ni, nj, nk, c + 1, r + 1, 0, bound);
            lemma_node_at_below(ni, nj, nk, c, r, nk - 1, bound);
            lemma_node_at_below(ni, nj, nk, c + 1, r, nk - 1, bound);
            lemma_node_at_below(ni, nj, nk, c, r + 1, nk - 1, bound);
            lemma_node_at_below(ni, nj, nk, c + 1, r + 1, nk - 1, bound);
        }
        assert forall|r: int, c: int, t: int|
            0 <= r < nk - 1 && 0 <= c < ni - 1 && 0 <= t < jc(r, c).len() implies #[trigger] jc(r, c)[t]
                < bound by {
            lemma_node_at_below(ni, nj, nk, c, 0, r, bound);
            lemma_node_at_below(ni, nj, nk, c + 1, 0, r, bound);
            lemma_node_at_below(ni, nj, nk, c, 0, r + 1, bound);
            lemma_node_at_below(ni, nj, nk, c + 1, 0, r + 1, bound);
            lemma_node_at_below(ni, nj, nk, c, nj - 1, r, bound);
            lemma_node_at_below(ni, nj, nk, c + 1, nj - 1, r, bound);
            lemma_node_at_below(ni, nj, nk, c, nj - 1, r + 1, bound);
            lemma_node_at_below(ni, nj, nk, c + 1, nj - 1, r + 1, bound);
        }
        assert forall|r: int, c: int, t: int|
            0 <= r < nk - 1 && 0 <= c < nj - 1 && 0 <= t < ic(r, c).len() implies #[trigger] ic(r, c)[t]
                < bound by {
            lemma_node_at_below(ni, nj, nk, 0, c, r, bound);
            lemma_node_at_below(ni, nj, nk, 0, c + 1, r, bound);
            lemma_node_at_below(ni, nj, nk, 0, c, r + 1, bound);
            lemma_node_at_below(ni, nj, nk, 0, c + 1, r + 1, bound);
            lemma_node_at_below(ni, nj, nk, ni - 1, c, r, bound);
            lemma_node_at_below(ni, nj, nk, ni - 1, c + 1, r, bound);
            lemma_node_at_below(ni, nj, nk, ni - 1, c, r + 1, bound);
            lemma_node_at_below(ni, nj, nk, ni - 1, c + 1, r + 1, bound);
        }
        assert(cells_below(kc, (nj - 1) as nat, (ni - 1) as nat, bound));
        assert(cells_below(jc, (nk - 1) as nat, (ni - 1) as nat, bound));
        assert(cells_below(ic, (nk - 1) as nat, (nj - 1) as nat, bound));
        lemma_grid_cells(kc, (nj - 1) as nat, (ni - 1) as nat, 12, bound);
        lemma_grid_cells(jc, (nk - 1) as nat, (ni - 1) as nat, 12, bound);
        lemma_grid_cells(ic, (nk - 1) as nat, (nj - 1) as nat, 12, bound);
    }
}


/// One `Elements_t` node of a zone: its element type code and its connectivity numbers.
pub struct ElementSection {
    /// CGNS element type code (`MIXED` when each element carries its own code).
    pub elem_type: i32,
    /// The 1-based node numbers of the elements.
    pub connectivity: Vec<i32>,
}

/// What the decoder reads of one `Zone_t` node, besides coordinate and solution values.
pub struct CgnsZone {
    /// The `ZoneType_t` value; `Unstructured` when the node is absent.
    pub zone_type: String,
    /// The zone's dimension values (vertex counts first for a structured zone).
    pub dims: Vec<i32>,
    /// The number of points assembled from the zone's coordinates.
    pub vertex_count: usize,
    /// The zone's element sections, in file order.
    pub sections: Vec<ElementSection>,
}

/// One `CGNSBase_t` node: its cell dimension and its zones.
pub struct CgnsBase {
    /// The base's cell dimension (3 when the base does not state it).
    pub cell_dim: u32,
    /// The zones of the base, in file order.
    pub zones: Vec<CgnsZone>,
}

/// The surface mesh of one zone.
pub struct ZoneMesh {
    /// Triangle corner indices into the zone's points.
    pub indices: Vec<u32>,
    /// Point counts along i, j and k when the zone is a structured block, whose point values
    /// also form a volume grid.
    pub volume_dims: Option<(u32, u32, u32)>,
}

/// Whether a zone type names a structured zone, compared without regard to ASCII case.
pub open spec fn is_structured(zone_type: Seq<char>) -> bool {
    crate::text::lower_all(zone_type) == "structured"@
}

/// The `k`-th dimension value as an extent, 1 when absent.
pub open spec fn extent(dims: Seq<i32>, k: int) -> u32 {
    if 0 <= k < dims.len() {
        dims[k] as u32
    } else {
        1
    }
}

/// The point extents of a structured zone; the k extent counts only in a 3D base.
pub open spec fn extents(dims: Seq<i32>, cell_dim: u32) -> (u32, u32, u32) {
    (extent(dims, 0), extent(dims, 1), if cell_dim >= 3 {
        extent(dims, 2)
    } else {
        1
    })
}

/// The triangles of the first `n` element sections, in order.
pub open spec fn sections_triangles(sections: Seq<ElementSection>, n: nat) -> Seq<u32>
    decreases n,
{
    if n == 0 {
        Seq::empty()
    } else {
        let s = sections[n - 1];
        sections_triangles(sections, (n - 1) as nat) + (if s.elem_type == MIXED {
            mixed_triangles(s.connectivity@, 0)
        } else {
            section_triangles(s.elem_type, s.connectivity@)
        })
    }
}

/// The node numbers a section's triangulation reads can be made 0-based.
pub open spec fn section_numbers_ok(s: ElementSection) -> bool {
    if s.elem_type == MIXED {
        mixed_numbers_ok(s.connectivity@, 0)
    } else {
        typed_numbers_ok(s.elem_type, s.connectivity@)
    }
}

/// Every section's triangulated node numbers can be made 0-based.
pub open spec fn sections_ok(sections: Seq<ElementSection>) -> bool {
    forall|k: int| 0 <= k < sections.len() ==> section_numbers_ok(#[trigger] sections[k])
}

/// The mesh of a zone: `None` where the decoder drops the zone. A block (every extent above
/// 1) keeps its volume extents and its six faces; a flat structured zone, or an unstructured
/// one, is dropped when it yields no triangle or has no point.
pub open spec fn zone_mesh(z: CgnsZone, cell_dim: u32) -> Option<(Seq<u32>, Option<(u32, u32, u32)>)> {
    if is_structured(z.zone_type@) {
        let (ni, nj, nk) = extents(z.dims@, cell_dim);
        let ind = surface_indices(ni as int, nj as int, nk as int);
        if grid_nodes(ni as int, nj as int, nk as int) > usize::MAX {
            None
        } else if ni > 1 && nj > 1 && nk > 1 {
            Some((ind, Some((ni, nj, nk))))
        } else if ind.len() == 0 || z.vertex_count == 0 {
            None
        } else {
            Some((ind, None))
        }
    } else {
        let ind = sections_triangles(z.sections@, z.sections@.len());
        if ind.len() == 0 || z.vertex_count == 0 {
            None
        } else {
            Some((ind, None))
        }
    }
}

fn empty_dataset() -> (e: IoError)
    ensures
        e matches IoError::Parse(m) && m@ == "empty dataset"@,
{
    parse_error("empty dataset")
}

fn dim_at(dims: &Vec<i32>, k: usize) -> (r: u32)
    ensures
        r == extent(dims@, k as int),
{
    if k < dims.len() {
        dims[k] as u32
    } else {
        1
    }
}

fn typed_numbers_checked(t: i32, conn: &Vec<i32>) -> (r: bool)
    ensures
        r == typed_numbers_ok(t, conn@),
{
    let stride = element_node_count(t);
    if stride == 0 {
        return true;
    }
    let q = conn.len() / stride;
    assert(q * stride <= conn@.len()) by (nonlinear_arith)
        requires
            q == conn@.len() / (stride as nat),
            stride > 0,
    ;
    let limit = q * stride;
    let mut k: usize = 0;
    while k < limit
        invariant
            limit <= conn@.len(),
            limit == (conn@.len() / (stride as nat)) * (stride as nat),
            stride == node_count_of(t),
            k <= limit,
            forall|j: int| 0 <= j < k ==> conn@[j] != i32::MIN,
        decreases limit - k,
    {
        if conn[k] == i32::MIN {
            return false;
        }
        k = k + 1;
    }
    true
}

fn mixed_numbers_checked(conn: &Vec<i32>) -> (r: bool)
    ensures
        r == mixed_numbers_ok(conn@, 0),
{
    let ghost c = conn@;
    let mut i: usize = 0;
    while i < conn.len()
        invariant_except_break
            i <= c.len(),
            c == conn@,
            mixed_numbers_ok(c, 0) == mixed_numbers_ok(c, i as int),
        ensures
            mixed_numbers_ok(c, 0),
        decreases c.len() - i,
    {
        let n = element_node_count(conn[i]);
        if n == 0 || n > conn.len() - (i + 1) {
            break;
        }
        let end = i + 1 + n;
        let mut m = i + 1;
        while m < end
            invariant
                i + 1 <= m <= end,
                end == i + 1 + n,
                end <= c.len(),
                i < c.len(),
                n > 0,
                n == node_count_of(c[i as int]),
                c == conn@,
                mixed_numbers_ok(c, 0) == mixed_numbers_ok(c, i as int),
                forall|j: int| i + 1 <= j < m ==> c[j] != i32::MIN,
            decreases end - m,
        {
            if conn[m] == i32::MIN {
                assert(c.subrange(i + 1, end as int)[m - (i + 1)] == i32::MIN);
                assert(!numbers_ok(c.subrange(i + 1, end as int)));
                assert(!mixed_numbers_ok(c, i as int));
                return false;
            }
            m = m + 1;
        }
        assert(numbers_ok(c.subrange(i + 1, end as int))) by {
            assert forall|j: int| 0 <= j < c.subrange(i + 1, end as int).len() implies #[trigger] c.subrange(
                i + 1,
                end as int,
            )[j] != i32::MIN by {
                assert(c.subrange(i + 1, end as int)[j] == c[i + 1 + j]);
            }
        }
        i = end;
    }
    true
}

/// Whether every node number that the triangulation of a zone's sections reads can be made
/// 0-based (see [`sections_ok`]).
pub fn sections_numbers_ok(sections: &[ElementSection]) -> (r: bool)
    ensures
        r == sections_ok(sections@),
{
    let mut k: usize = 0;
    while k < sections.len()
        invariant
            k <= sections@.len(),
            forall|j: int| 0 <= j < k ==> section_numbers_ok(#[trigger] sections@[j]),
        decreases sections@.len() - k,
    {
        let sec = &sections[k];
        let ok = if sec.elem_type == MIXED {
            mixed_numbers_checked(&sec.connectivity)
        } else {
            typed_numbers_checked(sec.elem_type, &sec.connectivity)
        };
        if !ok {
            assert(!section_numbers_ok(sections@[k as int]));
            return false;
        }
        k = k + 1;
    }
    true
}

/// A zone whose triangulation reads only node numbers that can be made 0-based: every zone
/// but an unstructured one with an `i32::MIN` among the nodes of its elements.
pub open spec fn zone_numbers_ok(z: CgnsZone) -> bool {
    !is_structured(z.zone_type@) ==> sections_ok(z.sections@)
}

/// The surface mesh of one zone of a base with cell dimension `cell_dim`, or `None` where the
/// zone yields no dataset: see [`zone_mesh`]. Unstructured sections are triangulated in file
/// order, a `MIXED` section element by element; structured zones get their boundary faces.
pub fn read_zone(z: &CgnsZone, cell_dim: u32) -> (r: Option<ZoneMesh>)
    requires
        zone_numbers_ok(*z),
    ensures
        match zone_mesh(*z, cell_dim) {
            Some((ind, vol)) => r matches Some(m) && m.indices@ == ind && m.volume_dims == vol,
            None => r is None,
        },
{
    let zt = crate::text::chars_of(z.zone_type.as_str());
    let structured = lower_range_is(zt.as_slice(), 0, zt.len(), "structured");
    assert(zt@.subrange(0, zt@.len() as int) =~= zt@);
    if structured {
        let ni = dim_at(&z.dims, 0);
        let nj = dim_at(&z.dims, 1);
        let nk = if cell_dim >= 3 {
            dim_at(&z.dims, 2)
        } else {
            1
        };
        let li: u64 = if ni == 0 { 1 } else { ni as u64 };
        let lj: u64 = if nj == 0 { 1 } else { nj as u64 };
        let lk: u64 = if nk == 0 { 1 } else { nk as u64 };
        let ij = li.checked_mul(lj);
        let ijk = match ij {
            Some(v) => v.checked_mul(lk),
            None => None,
        };
        let fits = match ijk {
            Some(v) => v <= usize::MAX as u64,
            None => false,
        };
        proof {
            let (a, b, c) = (li as int, lj as int, lk as int);
            assert(a * b >= 1 && a * b * c >= a * b) by (nonlinear_arith)
                requires
                    a >= 1,
                    b >= 1,
                    c >= 1,
            ;
            assert(grid_nodes(ni as int, nj as int, nk as int) == a * b * c);
        }
        if !fits {
            return None;
        }
        let ind = structured_surface_indices(ni as usize, nj as usize, nk as usize);
        if ni > 1 && nj > 1 && nk > 1 {
            return Some(ZoneMesh { indices: ind, volume_dims: Some((ni, nj, nk)) });
        }
        if ind.len() == 0 || z.vertex_count == 0 {
            return None;
        }
        Some(ZoneMesh { indices: ind, volume_dims: None })
    } else {
        let mut out: Vec<u32> = Vec::new();
        let mut k: usize = 0;
        while k < z.sections.len()
            invariant
                k <= z.sections@.len(),
                !is_structured(z.zone_type@),
                sections_ok(z.sections@),
                out@ == sections_triangles(z.sections@, k as nat),
            decreases z.sections@.len() - k,
        {
            let sec = &z.sections[k];
            assert(section_numbers_ok(z.sections@[k as int]));
            if sec.elem_type == MIXED {
                triangulate_mixed(sec.connectivity.as_slice(), &mut out);
            } else {
                triangulate_typed(sec.elem_type, sec.connectivity.as_slice(), &mut out);
            }
            k = k + 1;
        }
        if out.len() == 0 || z.vertex_count == 0 {
            return None;
        }
        Some(ZoneMesh { indices: out, volume_dims: None })
    }
}


/// The meshes of the first `n` zones of a base with cell dimension `cell_dim`, dropped zones
/// left out.
pub open spec fn zone_meshes(zones: Seq<CgnsZone>, cell_dim: u32, n: nat) -> Seq<
    (Seq<u32>, Option<(u32, u32, u32)>),
>
    decreases n,
{
    if n == 0 {
        Seq::empty()
    } else {
        zone_meshes(zones, cell_dim, (n - 1) as nat) + match zone_mesh(zones[n - 1], cell_dim) {
            Some(m) => seq![m],
            None => Seq::empty(),
        }
    }
}

/// The meshes of every zone of the first `n` bases, base after base.
pub open spec fn base_meshes(bases: Seq<CgnsBase>, n: nat) -> Seq<(Seq<u32>, Option<(u32, u32, u32)>)>
    decreases n,
{
    if n == 0 {
        Seq::empty()
    } else {
        let b = bases[n - 1];
        base_meshes(bases, (n - 1) as nat) + zone_meshes(b.zones@, b.cell_dim, b.zones@.len())
    }
}

/// Whether the meshes `r` are exactly the meshes `m`.
pub open spec fn meshes_are(r: Seq<ZoneMesh>, m: Seq<(Seq<u32>, Option<(u32, u32, u32)>)>) -> bool {
    &&& r.len() == m.len()
    &&& forall|k: int|
        0 <= k < r.len() ==> (#[trigger] r[k]).indices@ == m[k].0 && r[k].volume_dims == m[k].1
}

/// The surface meshes of a CGNS file's zones, base after base and zone after zone, leaving
/// out the zones that yield no dataset (see [`zone_mesh`]). Fails with a parse error when no
/// zone yields one.
pub fn datasets_from_path(bases: &[CgnsBase]) -> (r: Result<Vec<ZoneMesh>, IoError>)
    requires
        forall|b: int, z: int|
            0 <= b < bases@.len() && 0 <= z < bases@[b].zones@.len() ==> zone_numbers_ok(#[trigger] bases@[b].zones@[z]),
    ensures
        base_meshes(bases@, bases@.len()).len() == 0 ==> (r matches Err(IoError::Parse(m)) && m@ == "empty dataset"@),
        base_meshes(bases@, bases@.len()).len() > 0 ==> (r matches Ok(v) && meshes_are(
            v@,
            base_meshes(bases@, bases@.len()),
        )),
{
    let mut out: Vec<ZoneMesh> = Vec::new();
    let mut b: usize = 0;
    while b < bases.len()
        invariant
            b <= bases@.len(),
            meshes_are(out@, base_meshes(bases@, b as nat)),
            forall|b: int, z: int|
                0 <= b < bases@.len() && 0 <= z < bases@[b].zones@.len() ==> zone_numbers_ok(
                    #[trigger] bases@[b].zones@[z],
                ),
        decreases bases@.len() - b,
    {
        let base = &bases[b];
        let ghost before = out@;
        let mut z: usize = 0;
        while z < base.zones.len()
            invariant
                b < bases@.len(),
                *base == bases@[b as int],
                forall|b: int, z: int|
                    0 <= b < bases@.len() && 0 <= z < bases@[b].zones@.len() ==> zone_numbers_ok(
                        #[trigger] bases@[b].zones@[z],
                    ),
                z <= base.zones@.len(),
                meshes_are(
                    out@,
                    base_meshes(bases@, b as nat) + zone_meshes(base.zones@, base.cell_dim, z as nat),
                ),
            decreases base.zones@.len() - z,
        {
            let ghost prev = out@;
            assert(zone_numbers_ok(bases@[b as int].zones@[z as int]));
            match read_zone(&base.zones[z], base.cell_dim) {
                Some(m) => {
                    out.push(m);
                },
                None => {},
            }
            proof {
                let target = base_meshes(bases@, b as nat) + zone_meshes(
                    base.zones@,
                    base.cell_dim,
                    (z + 1) as nat,
                );
                let old_target = base_meshes(bases@, b as nat) + zone_meshes(
                    base.zones@,
                    base.cell_dim,
                    z as nat,
                );
                match zone_mesh(base.zones@[z as int], base.cell_dim) {
                    Some(m) => {
                        assert(target =~= old_target.push(m));
                        assert(out@ =~= prev.push(out@[prev.len() as int]));
                    },
                    None => {
                        assert(target =~= old_target);
                    },
                }
            }
            z = z + 1;
        }
        proof {
            assert(base_meshes(bases@, (b + 1) as nat) =~= base_meshes(bases@, b as nat) + zone_meshes(
                base.zones@,
                base.cell_dim,
                base.zones@.len(),
            ));
        }
        b = b + 1;
    }
    if out.len() == 0 {
        return Err(empty_dataset());
    }
    Ok(out)
}

/// The timestep selectors of a CGNS file. `time_counts[b]` lists, for each
/// `BaseIterativeData_t` node of base `b`, how many `TimeValues` it holds (`None` when it
/// holds none). The first node with time values, in base order, gives the series: one
/// selector `"b/i"` per value, paired with the base and node it came from. A file without
/// one is a single step, selector `"0"`.
pub fn read_series(time_counts: &[Vec<Option<usize>>]) -> (r: (Option<(usize, usize)>, Vec<String>))
    ensures
        match first_timed(time_counts@) {
            Some((b, k)) => {
                &&& r.0 == Some((b as usize, k as usize))
                &&& r.1@.len() == time_counts@[b as int]@[k as int]->0
                &&& forall|i: int|
                    0 <= i < r.1@.len() ==> (#[trigger] r.1@[i])@ == crate::text::decimal(b as nat) + seq!['/']
                        + crate::text::decimal(i as nat)
            },
            None => r.0 is None && r.1@.len() == 1 && r.1@[0]@ == seq!['0'],
        },
{
    let mut b: usize = 0;
    while b < time_counts.len()
        invariant
            b <= time_counts@.len(),
            first_timed(time_counts@) == first_timed_from(time_counts@, b as int),
        decreases time_counts@.len() - b,
    {
        let mut k: usize = 0;
        while k < time_counts[b].len()
            invariant
                b < time_counts@.len(),
                k <= time_counts@[b as int]@.len(),
                first_timed(time_counts@) == first_timed_from(time_counts@, b as int),
                first_present(time_counts@[b as int]@, 0) == first_present(time_counts@[b as int]@, k as int),
            decreases time_counts@[b as int]@.len() - k,
        {
            match time_counts[b][k] {
                Some(n) => {
                    let mut sels: Vec<String> = Vec::new();
                    let mut i: usize = 0;
                    while i < n
                        invariant
                            i <= n,
                            sels@.len() == i,
                            forall|j: int|
                                0 <= j < i ==> (#[trigger] sels@[j])@ == crate::text::decimal(b as nat) + seq!['/']
                                    + crate::text::decimal(j as nat),
                        decreases n - i,
                    {
                        let mut s = crate::text::decimal_string(b);
                        crate::text::push_str(&mut s, "/");
                        crate::text::push_decimal(&mut s, i);
                        proof {
                            reveal_strlit("/");
                        }
                        sels.push(s);
                        i = i + 1;
                    }
                    return (Some((b, k)), sels);
                },
                None => {},
            }
            k = k + 1;
        }
        b = b + 1;
    }
    let mut sels: Vec<String> = Vec::new();
    let s = crate::text::decimal_string(0);
    sels.push(s);
    (None, sels)
}

/// The first position at or after `k` whose count is present.
pub open spec fn first_present(v: Seq<Option<usize>>, k: int) -> Option<int>
    decreases v.len() - k,
{
    if k < 0 || k >= v.len() {
        None
    } else if v[k] is Some {
        Some(k)
    } else {
        first_present(v, k + 1)
    }
}

/// The first `(base, node)` pair, bases from `b` on, whose time count is present.
pub open spec fn first_timed_from(c: Seq<Vec<Option<usize>>>, b: int) -> Option<(int, int)>
    decreases c.len() - b,
{
    if b < 0 || b >= c.len() {
        None
    } else {
        match first_present(c[b]@, 0) {
            Some(k) => Some((b, k)),
            None => first_timed_from(c, b + 1),
        }
    }
}

/// The first `(base, node)` pair, in order, whose time count is present.
pub open spec fn first_timed(c: Seq<Vec<Option<usize>>>) -> Option<(int, int)> {
    first_timed_from(c, 0)
}

/// The position of the first `/` at or after `i`, or the length when there is none.
pub open spec fn slash_from(s: Seq<char>, i: int) -> int
    decreases s.len() - i,
{
    if i >= s.len() || i < 0 {
        s.len() as int
    } else if s[i] == '/' {
        i
    } else {
        slash_from(s, i + 1)
    }
}

proof fn lemma_slash_from(s: Seq<char>, i: int)
    requires
        0 <= i <= s.len(),
    ensures
        i <= slash_from(s, i) <= s.len(),
        slash_from(s, i) < s.len() ==> s[slash_from(s, i)] == '/',
        forall|k: int| i <= k < slash_from(s, i) ==> s[k] != '/',
    decreases s.len() - i,
{
    if i < s.len() && s[i] != '/' {
        lemma_slash_from(s, i + 1);
    }
}

/// What a selector `base` or `base/time` names: the base index, and the time index when the
/// text after the first `/` (up to the next one) reads as a number.
pub open spec fn selector_value(s: Seq<char>) -> Option<(usize, Option<usize>)> {
    let p = slash_from(s, 0);
    match usize_value(s.subrange(0, p)) {
        None => None,
        Some(b) => Some(
            (
                b,
                if p < s.len() {
                    usize_value(s.subrange(p + 1, slash_from(s, p + 1)))
                } else {
                    None
                },
            ),
        ),
    }
}

fn find_slash(s: &[char], i: usize) -> (r: usize)
    requires
        i <= s@.len(),
    ensures
        r == slash_from(s@, i as int),
{
    let mut k = i;
    while k < s.len()
        invariant
            i <= k <= s@.len(),
            slash_from(s@, i as int) == slash_from(s@, k as int),
        decreases s@.len() - k,
    {
        if s[k] == '/' {
            return k;
        }
        k = k + 1;
    }
    k
}

/// The base and time index a selector names (see [`selector_value`]); a parse error naming
/// the selector when its base part is not a number.
pub fn read_selector(selector: &str) -> (r: Result<(usize, Option<usize>), IoError>)
    ensures
        match selector_value(selector@) {
            Some(v) => r == Ok::<(usize, Option<usize>), IoError>(v),
            None => r matches Err(IoError::Parse(m)) && m@ == "CGNS parse error: Invalid CGNS selector: "@
                + selector@,
        },
{
    let cs = crate::text::chars_of(selector);
    let s = cs.as_slice();
    proof {
        lemma_slash_from(s@, 0);
    }
    let p = find_slash(s, 0);
    match parse_usize(s, 0, p) {
        None => {
            let mut m = String::new();
            crate::text::push_str(&mut m, "CGNS parse error: Invalid CGNS selector: ");
            crate::text::push_str(&mut m, selector);
            assert(m@ =~= "CGNS parse error: Invalid CGNS selector: "@ + selector@);
            Err(IoError::Parse(m))
        },
        Some(b) => {
            if p < s.len() {
                proof {
                    lemma_slash_from(s@, p + 1);
                }
                let q = find_slash(s, p + 1);
                Ok((b, parse_usize(s, p + 1, q)))
            } else {
                Ok((b, None))
            }
        },
    }
}

} // verus!
